use dungeon::components::{Room, TileType, VisibleType};
use dungeon::game::Game;
use dungeon::map::{
    apply_horizontal_tunnel, apply_room_to_map, apply_vertical_tunnel, connect_rooms, create_map,
    generate_map, place_rooms, try_add_room, MAX_ROOMS, MAX_SIZE, MIN_SIZE,
};
use dungeon::rect::Rect;
use dungeon::resources::{get_tile_idx, tile_coords, TileGrid, TileResolution};
use rand::rngs::StdRng;
use rand::SeedableRng;

fn res(width: usize, height: usize) -> TileResolution {
    TileResolution { width, height }
}

fn floor_at(g: &TileGrid, x: usize, y: usize) -> bool {
    g.tiles[get_tile_idx(x, y, g.tile_res.width)].tiletype == TileType::Floor
}

#[test]
fn rect_new_keeps_corners() {
    let r = Rect::new(1, 2, 3, 4);
    assert_eq!((r.x0, r.y0, r.x1, r.y1), (1, 2, 3, 4));
}

#[test]
fn rect_intersect_overlap_touch_and_apart() {
    let a = Rect::new(0, 0, 5, 5);
    assert!(a.intersect(&Rect::new(3, 3, 8, 8)));
    assert!(a.intersect(&Rect::new(5, 0, 9, 5)));
    assert!(!a.intersect(&Rect::new(6, 0, 9, 5)));
    assert!(!a.intersect(&Rect::new(0, 6, 5, 9)));
}

#[test]
fn rect_center_rounds_toward_zero() {
    assert_eq!(Rect::new(2, 4, 7, 9).center(), (4, 6));
    assert_eq!(Rect::new(-3, -3, 0, 0).center(), (-1, -1));
    assert_eq!(Rect::new(i32::MAX, i32::MAX, i32::MAX, i32::MAX).center(), (i32::MAX, i32::MAX));
}

#[test]
fn tile_index_round_trip() {
    let w = 80;
    for y in 0..60 {
        for x in 0..w {
            let i = get_tile_idx(x, y, w);
            assert_eq!(i, x + 80 * y);
            assert_eq!(tile_coords(i, w), (x, y));
        }
    }
    assert_eq!(tile_coords(4799, 80), (79, 59));
}

#[test]
fn new_grid_is_all_blocking_walls() {
    let g = TileGrid::new(res(12, 13));
    assert_eq!(g.tiles.len(), 156);
    assert!(g.rooms.is_empty());
    for t in g.tiles.iter() {
        assert_eq!(t.tiletype, TileType::Wall);
        assert_eq!(t.visibletype, VisibleType::Undiscovered);
        assert!(t.blocked);
    }
}

#[test]
fn try_add_room_rejects_intersecting_candidates() {
    let mut rooms: Vec<Room> = Vec::new();
    assert!(try_add_room(&mut rooms, Rect::new(0, 0, 6, 6)));
    assert!(!try_add_room(&mut rooms, Rect::new(6, 6, 12, 12)));
    assert!(try_add_room(&mut rooms, Rect::new(7, 0, 13, 6)));
    assert_eq!(rooms.len(), 2);
    assert_eq!(rooms[1].rect, Rect::new(7, 0, 13, 6));
}

#[test]
fn room_is_dug_with_its_edges() {
    let mut g = TileGrid::new(res(20, 20));
    apply_room_to_map(&mut g, &Rect::new(2, 3, 5, 7));
    for y in 0..20 {
        for x in 0..20 {
            let inside = (2..=5).contains(&x) && (3..=7).contains(&y);
            assert_eq!(floor_at(&g, x, y), inside, "tile {} {}", x, y);
            let t = g.tiles[get_tile_idx(x, y, 20)];
            assert_eq!(t.blocked, !inside);
        }
    }
}

#[test]
fn tunnels_are_dug_in_either_order_and_clipped() {
    let mut g = TileGrid::new(res(15, 15));
    apply_horizontal_tunnel(&mut g, 9, 3, 4);
    apply_vertical_tunnel(&mut g, -5, 2, 12);
    apply_horizontal_tunnel(&mut g, 10, 30, 14);
    for y in 0..15 {
        for x in 0..15 {
            let want = (y == 4 && (3..=9).contains(&x))
                || (x == 12 && y <= 2)
                || (y == 14 && x >= 10);
            assert_eq!(floor_at(&g, x, y), want, "tile {} {}", x, y);
        }
    }
}

#[test]
fn corridor_shapes() {
    let mut g = TileGrid::new(res(15, 15));
    connect_rooms(&mut g, (2, 2), (8, 6), true);
    assert!(floor_at(&g, 5, 2) && floor_at(&g, 8, 2) && floor_at(&g, 8, 4) && floor_at(&g, 8, 6));
    assert!(!floor_at(&g, 2, 4) && !floor_at(&g, 5, 6));
    let mut h = TileGrid::new(res(15, 15));
    connect_rooms(&mut h, (2, 2), (8, 6), false);
    assert!(floor_at(&h, 2, 4) && floor_at(&h, 2, 6) && floor_at(&h, 5, 6) && floor_at(&h, 8, 6));
    assert!(!floor_at(&h, 5, 2) && !floor_at(&h, 8, 4));
}

#[test]
fn create_map_places_disjoint_rooms_without_digging() {
    let mut rng = StdRng::seed_from_u64(3);
    let g = create_map(res(80, 60), &mut rng);
    assert!(!g.rooms.is_empty() && g.rooms.len() <= MAX_ROOMS);
    assert!(g.tiles.iter().all(|t| t.tiletype == TileType::Wall));
    for r in g.rooms.iter() {
        let w = (r.rect.x1 - r.rect.x0) as usize;
        let h = (r.rect.y1 - r.rect.y0) as usize;
        assert!((MIN_SIZE..=MAX_SIZE).contains(&w) && (MIN_SIZE..=MAX_SIZE).contains(&h));
        assert!(r.rect.x0 >= 0 && r.rect.x1 < 80 && r.rect.y0 >= 0 && r.rect.y1 < 60);
    }
}

#[test]
fn generated_rooms_never_intersect() {
    for seed in 0..20u64 {
        let mut rng = StdRng::seed_from_u64(seed);
        let g = generate_map(res(80, 60), &mut rng);
        for i in 0..g.rooms.len() {
            for j in 0..g.rooms.len() {
                if i != j {
                    assert!(!g.rooms[i].rect.intersect(&g.rooms[j].rect));
                }
            }
        }
    }
}

#[test]
fn generated_map_digs_rooms_and_joins_centers() {
    let mut rng = StdRng::seed_from_u64(11);
    let g = generate_map(res(80, 60), &mut rng);
    for r in g.rooms.iter() {
        for y in r.rect.y0..=r.rect.y1 {
            for x in r.rect.x0..=r.rect.x1 {
                assert!(floor_at(&g, x as usize, y as usize));
            }
        }
    }
    assert!(g.tiles.iter().all(|t| t.blocked == (t.tiletype == TileType::Wall)));
    assert!(g.tiles.iter().all(|t| t.visibletype == VisibleType::Undiscovered));
}

#[test]
fn seeded_session_spawns_player_in_room_zero() {
    let mut rng = StdRng::seed_from_u64(2024);
    let game = Game::new(res(80, 60), &mut rng);
    assert!(!game.grid.rooms.is_empty());
    let spawn = game.grid.player_spawn_room().unwrap();
    assert_eq!(spawn.rect, game.grid.rooms[0].rect);
    let (cx, cy) = spawn.rect.center();
    assert_eq!((game.player.pos.x, game.player.pos.y), (cx as usize, cy as usize));
    assert_eq!(game.monsters.len(), game.grid.rooms.len() - 1);
}

#[test]
fn empty_room_list_has_no_spawn_room() {
    let g = TileGrid::new(res(12, 12));
    assert!(g.player_spawn_room().is_none());
    assert!(g.room_list().is_empty());
}

#[test]
fn room_sizes_and_positions_depend_on_the_draws() {
    let mut widths = std::collections::BTreeSet::new();
    let mut corners = std::collections::BTreeSet::new();
    let mut kinds = std::collections::BTreeSet::new();
    for seed in 0..10u64 {
        let mut rng = StdRng::seed_from_u64(seed);
        let game = Game::new(res(80, 60), &mut rng);
        for r in game.grid.rooms.iter() {
            widths.insert(r.rect.x1 - r.rect.x0);
            corners.insert((r.rect.x0, r.rect.y0));
        }
        for m in game.monsters.iter() {
            kinds.insert(m.kind.name());
        }
    }
    assert!(widths.len() > 1);
    assert!(corners.len() > 10);
    assert_eq!(kinds.len(), 2);
}

#[test]
fn place_rooms_keeps_candidates_in_draw_order() {
    let r = res(40, 30);
    let draws = vec![(6, 6, 1, 1), (6, 6, 5, 5), (8, 7, 10, 1), (6, 6, 1, 20), (10, 10, 8, 5)];
    let rooms = place_rooms(r, &draws);
    let got: Vec<Rect> = rooms.iter().map(|room| room.rect).collect();
    assert_eq!(got, vec![Rect::new(0, 0, 6, 6), Rect::new(9, 0, 17, 7), Rect::new(0, 19, 6, 25)]);
    assert!(place_rooms(r, &Vec::new()).is_empty());
}
