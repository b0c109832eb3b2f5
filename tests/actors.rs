use dungeon::components::{Direction, Monster, MonsterKind, Player, Position, TileType, Viewshed};
use dungeon::game::Game;
use dungeon::map::apply_room_to_map;
use dungeon::monsters::{add_monsters, apply_view, get_bearing, kind_for, monster_ai};
use dungeon::occupancy::{populate_blocked, set_occupied_tiles, unset_occupied_tiles};
use dungeon::player::{add_player, move_player, PLAYER_RANGE};
use dungeon::rect::Rect;
use dungeon::resources::{get_tile_idx, TileGrid, TileResolution};
use dungeon::components::Room;
use rand::rngs::StdRng;
use rand::SeedableRng;

fn open_grid(w: usize, h: usize) -> TileGrid {
    let mut g = TileGrid::new(TileResolution { width: w, height: h });
    apply_room_to_map(&mut g, &Rect::new(1, 1, w as i32 - 2, h as i32 - 2));
    g
}

fn pos(x: usize, y: usize) -> Position {
    Position { x, y }
}

fn monster_at(g: &TileGrid, x: usize, y: usize) -> Monster {
    Monster { pos: pos(x, y), occupied_tile: get_tile_idx(x, y, g.tile_res.width), kind: MonsterKind::Goblin, visible: true }
}

fn player_at(x: usize, y: usize) -> Player {
    Player { pos: pos(x, y), viewshed: Viewshed { visible_tiles: Vec::new(), range: PLAYER_RANGE } }
}

#[test]
fn monster_kind_name_and_glyph() {
    assert_eq!(MonsterKind::Goblin.name(), "Goblin");
    assert_eq!(MonsterKind::Ogre.name(), "Ogre");
    assert_eq!(MonsterKind::Goblin.glyph(), 'g');
    assert_eq!(MonsterKind::Ogre.glyph(), 'o');
}

#[test]
fn bearing_buckets() {
    let m = pos(50, 50);
    assert_eq!(get_bearing(pos(67, 53), m), Direction::East);
    assert_eq!(get_bearing(pos(60, 54), m), Direction::East);
    assert_eq!(get_bearing(pos(60, 55), m), Direction::NorthEast);
    assert_eq!(get_bearing(pos(55, 60), m), Direction::NorthEast);
    assert_eq!(get_bearing(pos(54, 60), m), Direction::North);
    assert_eq!(get_bearing(pos(40, 55), m), Direction::NorthWest);
    assert_eq!(get_bearing(pos(40, 50), m), Direction::West);
    assert_eq!(get_bearing(pos(40, 46), m), Direction::West);
    assert_eq!(get_bearing(pos(40, 40), m), Direction::SouthWest);
    assert_eq!(get_bearing(pos(50, 40), m), Direction::South);
    assert_eq!(get_bearing(pos(58, 42), m), Direction::SouthEast);
    assert_eq!(get_bearing(m, m), Direction::East);
    assert_eq!(get_bearing(pos(usize::MAX, 1), pos(0, 0)), Direction::East);
}

#[test]
fn player_moves_onto_floor_only() {
    let mut g = TileGrid::new(TileResolution { width: 12, height: 12 });
    apply_room_to_map(&mut g, &Rect::new(2, 2, 5, 5));
    let mut p = player_at(5, 3);
    assert!(move_player(&g, &mut p, Direction::West));
    assert_eq!(p.pos, pos(4, 3));
    assert!(move_player(&g, &mut p, Direction::North));
    assert_eq!(p.pos, pos(4, 4));
    assert!(move_player(&g, &mut p, Direction::East));
    assert!(!move_player(&g, &mut p, Direction::East));
    assert_eq!(p.pos, pos(5, 4));
    let t = g.tiles[get_tile_idx(p.pos.x, p.pos.y, 12)];
    assert_eq!(t.tiletype, TileType::Floor);
}

#[test]
fn player_stopped_by_occupied_tile_and_grid_edge() {
    let mut g = open_grid(10, 10);
    g.tiles[get_tile_idx(3, 4, 10)].blocked = true;
    let mut p = player_at(3, 3);
    assert!(!move_player(&g, &mut p, Direction::North));
    assert_eq!(p.pos, pos(3, 3));
    let mut all_floor = TileGrid::new(TileResolution { width: 4, height: 4 });
    apply_room_to_map(&mut all_floor, &Rect::new(0, 0, 3, 3));
    let mut q = player_at(0, 0);
    assert!(!move_player(&all_floor, &mut q, Direction::South));
    assert!(!move_player(&all_floor, &mut q, Direction::West));
    assert_eq!(q.pos, pos(0, 0));
}

#[test]
fn occupancy_recomputed_from_scratch() {
    let mut g = open_grid(10, 10);
    g.tiles[get_tile_idx(7, 7, 10)].blocked = true;
    let mut mons = vec![Monster { occupied_tile: 0, ..monster_at(&g, 2, 2) }];
    populate_blocked(&mut g, pos(5, 5), &mut mons);
    assert!(!g.tiles[get_tile_idx(7, 7, 10)].blocked);
    assert!(g.tiles[get_tile_idx(5, 5, 10)].blocked);
    assert!(g.tiles[get_tile_idx(2, 2, 10)].blocked);
    assert!(g.tiles[get_tile_idx(0, 0, 10)].blocked);
    assert_eq!(mons[0].occupied_tile, get_tile_idx(2, 2, 10));
    let blocked = g.tiles.iter().filter(|t| t.blocked).count();
    let walls = g.tiles.iter().filter(|t| t.tiletype == TileType::Wall).count();
    assert_eq!(blocked, walls + 2);
}

#[test]
fn unset_then_set_occupied() {
    let mut g = open_grid(8, 8);
    g.tiles[get_tile_idx(3, 3, 8)].blocked = true;
    unset_occupied_tiles(&mut g);
    assert!(g.tiles.iter().all(|t| t.blocked == (t.tiletype == TileType::Wall)));
    let mut mons = vec![monster_at(&g, 4, 4)];
    set_occupied_tiles(&mut g, &mut mons);
    assert!(g.tiles[get_tile_idx(4, 4, 8)].blocked);
    assert!(!g.tiles[get_tile_idx(3, 3, 8)].blocked);
}

#[test]
fn apply_view_flags_monsters_by_viewshed() {
    let g = open_grid(10, 10);
    let mut mons = vec![monster_at(&g, 2, 2), monster_at(&g, 6, 6)];
    let vs = Viewshed { visible_tiles: vec![get_tile_idx(6, 6, 10), 0], range: 6 };
    apply_view(&mut mons, &vs);
    assert!(!mons[0].visible);
    assert!(mons[1].visible);
}

#[test]
fn visible_monster_steps_east_at_ten_degrees() {
    let mut g = open_grid(30, 20);
    let player = pos(22, 13);
    let mut mons = vec![monster_at(&g, 5, 10)];
    populate_blocked(&mut g, player, &mut mons);
    let vs = Viewshed { visible_tiles: vec![get_tile_idx(5, 10, 30)], range: 6 };
    apply_view(&mut mons, &vs);
    monster_ai(&mut g, &mut mons, player);
    assert_eq!(mons[0].pos, pos(6, 10));
    assert_eq!(mons[0].occupied_tile, get_tile_idx(6, 10, 30));
    assert!(g.tiles[get_tile_idx(6, 10, 30)].blocked);
    assert!(!g.tiles[get_tile_idx(5, 10, 30)].blocked);
}

#[test]
fn blocked_monster_stays_at_ten_degrees() {
    let mut g = open_grid(30, 20);
    let player = pos(22, 13);
    let mut mons = vec![monster_at(&g, 5, 10), monster_at(&g, 6, 10)];
    populate_blocked(&mut g, player, &mut mons);
    mons[1].visible = false;
    monster_ai(&mut g, &mut mons, player);
    assert_eq!(mons[0].pos, pos(5, 10));
    assert_eq!(mons[1].pos, pos(6, 10));
}

#[test]
fn hidden_monster_does_not_move() {
    let mut g = open_grid(30, 20);
    let player = pos(22, 13);
    let mut mons = vec![monster_at(&g, 5, 10)];
    populate_blocked(&mut g, player, &mut mons);
    let vs = Viewshed { visible_tiles: vec![], range: 6 };
    apply_view(&mut mons, &vs);
    monster_ai(&mut g, &mut mons, player);
    assert_eq!(mons[0].pos, pos(5, 10));
}

#[test]
fn two_monsters_never_share_a_destination() {
    let mut g = open_grid(20, 20);
    let player = pos(10, 12);
    let mut mons = vec![monster_at(&g, 9, 10), monster_at(&g, 11, 10)];
    populate_blocked(&mut g, player, &mut mons);
    monster_ai(&mut g, &mut mons, player);
    assert_ne!(mons[0].pos, mons[1].pos);
    assert_eq!(mons[0].pos, pos(10, 11));
    assert_eq!(mons[1].pos, pos(11, 10));
}

#[test]
fn monsters_do_not_step_onto_player() {
    let mut g = open_grid(20, 20);
    let player = pos(10, 10);
    let mut mons = vec![monster_at(&g, 9, 10)];
    populate_blocked(&mut g, player, &mut mons);
    monster_ai(&mut g, &mut mons, player);
    assert_eq!(mons[0].pos, pos(9, 10));
}

#[test]
fn spawn_player_and_monsters_at_room_centers() {
    let mut g = TileGrid::new(TileResolution { width: 40, height: 40 });
    g.rooms = vec![
        Room { rect: Rect::new(1, 1, 7, 7) },
        Room { rect: Rect::new(10, 10, 17, 16) },
        Room { rect: Rect::new(20, 2, 26, 9) },
    ];
    let p = add_player(&g);
    assert_eq!(p.pos, pos(4, 4));
    assert_eq!(p.viewshed.range, 6);
    assert!(p.viewshed.visible_tiles.is_empty());
    let mut rng = StdRng::seed_from_u64(5);
    let mons = add_monsters(&g, &mut rng);
    assert_eq!(mons.len(), 2);
    assert_eq!(mons[0].pos, pos(13, 13));
    assert_eq!(mons[1].pos, pos(23, 5));
    assert_eq!(mons[1].occupied_tile, get_tile_idx(23, 5, 40));
    assert!(mons.iter().all(|m| !m.visible));
}

#[test]
fn session_steps_keep_player_off_walls() {
    let mut rng = StdRng::seed_from_u64(99);
    let mut game = Game::new(TileResolution { width: 80, height: 60 }, &mut rng);
    let dirs = [Direction::North, Direction::East, Direction::South, Direction::West];
    for k in 0..200 {
        let before = game.player.pos;
        let moved = game.step(dirs[(k * 7 + k / 5) % 4]);
        let here = game.grid.tiles[get_tile_idx(game.player.pos.x, game.player.pos.y, 80)];
        assert_eq!(here.tiletype, TileType::Floor);
        assert_eq!(moved, before != game.player.pos);
        let mut cells: Vec<usize> = game.monsters.iter().map(|m| m.occupied_tile).collect();
        cells.push(get_tile_idx(game.player.pos.x, game.player.pos.y, 80));
        let n = cells.len();
        cells.sort();
        cells.dedup();
        assert_eq!(cells.len(), n);
    }
    assert!(game.player.viewshed.visible_tiles.contains(&get_tile_idx(game.player.pos.x, game.player.pos.y, 80)));
}

#[test]
fn kind_for_drawn_bit() {
    assert_eq!(kind_for(1), MonsterKind::Goblin);
    assert_eq!(kind_for(0), MonsterKind::Ogre);
    assert_eq!(kind_for(1).name(), "Goblin");
    assert_eq!(kind_for(0).glyph(), 'o');
}

#[test]
fn cardinal_directions() {
    for d in [Direction::North, Direction::South, Direction::East, Direction::West] {
        assert!(d.is_cardinal());
    }
    for d in [Direction::NorthEast, Direction::NorthWest, Direction::SouthEast, Direction::SouthWest] {
        assert!(!d.is_cardinal());
    }
}
