use dungeon::components::{Position, TileType, Viewshed, VisibleType};
use dungeon::map::apply_room_to_map;
use dungeon::rect::Rect;
use dungeon::resources::{get_tile_idx, TileGrid, TileResolution};
use dungeon::visibility::{cast_ray, get_viewshed, ray_targets};

fn room_grid() -> TileGrid {
    let mut g = TileGrid::new(TileResolution { width: 30, height: 30 });
    apply_room_to_map(&mut g, &Rect::new(6, 6, 14, 14));
    g
}

fn pos(x: usize, y: usize) -> Position {
    Position { x, y }
}

fn pass(g: &mut TileGrid, at: Position, range: i32) -> Viewshed {
    let mut vs = Viewshed { visible_tiles: Vec::new(), range };
    let rays = ray_targets(range);
    get_viewshed(g, at, &mut vs, &rays);
    vs
}

#[test]
fn ray_targets_ring() {
    assert!(ray_targets(-1).is_empty());
    assert_eq!(ray_targets(0), vec![(0, 0)]);
    let r1 = ray_targets(1);
    assert_eq!(r1.len(), 8);
    for t in [(-1, 1), (0, 1), (1, 1), (-1, -1), (0, -1), (1, -1), (1, 0), (-1, 0)] {
        assert!(r1.contains(&t));
    }
    let r6 = ray_targets(6);
    assert_eq!(r6.len(), 48);
    assert!(r6.iter().all(|&(x, y)| x.abs().max(y.abs()) == 6));
}

#[test]
fn ray_walks_rounded_line() {
    let mut g = TileGrid::new(TileResolution { width: 20, height: 20 });
    apply_room_to_map(&mut g, &Rect::new(0, 0, 19, 19));
    let seen = cast_ray(&g, pos(5, 5), (4, 2), 10);
    let want: Vec<usize> =
        [(5, 5), (6, 6), (7, 6), (8, 7), (9, 7)].iter().map(|&(x, y)| get_tile_idx(x, y, 20)).collect();
    assert_eq!(seen, want);
}

#[test]
fn ray_stops_at_first_wall() {
    let mut g = TileGrid::new(TileResolution { width: 20, height: 20 });
    apply_room_to_map(&mut g, &Rect::new(0, 0, 19, 19));
    let wall = get_tile_idx(13, 10, 20);
    g.tiles[wall].tiletype = TileType::Wall;
    let seen = cast_ray(&g, pos(10, 10), (6, 0), 10);
    let want: Vec<usize> = (10..=13).map(|x| get_tile_idx(x, 10, 20)).collect();
    assert_eq!(seen, want);
    assert!(!seen.contains(&get_tile_idx(14, 10, 20)));
}

#[test]
fn ray_stops_at_range_and_grid_edge() {
    let mut g = TileGrid::new(TileResolution { width: 20, height: 20 });
    apply_room_to_map(&mut g, &Rect::new(0, 0, 19, 19));
    assert_eq!(cast_ray(&g, pos(10, 10), (8, 0), 3).len(), 4);
    assert_eq!(cast_ray(&g, pos(17, 10), (8, 0), 30).len(), 3);
    assert!(cast_ray(&g, pos(10, 10), (1, 1), -1).is_empty());
}

#[test]
fn open_room_viewshed_within_radius_and_walls() {
    let mut g = room_grid();
    let vs = pass(&mut g, pos(10, 10), 6);
    let mut sorted = vs.visible_tiles.clone();
    sorted.sort();
    sorted.dedup();
    assert_eq!(sorted.len(), vs.visible_tiles.len());
    for y in 0..30usize {
        for x in 0..30usize {
            let i = get_tile_idx(x, y, 30);
            let d2 = (x as i64 - 10).pow(2) + (y as i64 - 10).pow(2);
            let in_room = (6..=14).contains(&x) && (6..=14).contains(&y);
            if in_room && d2 <= 36 {
                assert!(vs.visible_tiles.contains(&i), "floor {} {} unseen", x, y);
            }
            if x <= 4 || x >= 16 || y <= 4 || y >= 16 {
                assert!(!vs.visible_tiles.contains(&i), "tile {} {} seen through a wall", x, y);
            }
            let visible = g.tiles[i].visibletype == VisibleType::Visible;
            assert_eq!(visible, vs.visible_tiles.contains(&i));
        }
    }
    assert!(vs.visible_tiles.contains(&get_tile_idx(5, 10, 30)));
    assert!(!vs.visible_tiles.contains(&get_tile_idx(5, 5, 30)));
}

#[test]
fn every_tile_has_exactly_one_state() {
    let mut g = room_grid();
    let vs = pass(&mut g, pos(10, 10), 6);
    let visible = g.tiles.iter().filter(|t| t.visibletype == VisibleType::Visible).count();
    let memoried = g.tiles.iter().filter(|t| t.visibletype == VisibleType::Memoried).count();
    let undiscovered = g.tiles.iter().filter(|t| t.visibletype == VisibleType::Undiscovered).count();
    assert_eq!(visible + memoried + undiscovered, 900);
    assert_eq!(visible, vs.visible_tiles.len());
    assert_eq!(memoried, 0);
}

#[test]
fn unsighted_tiles_are_remembered_not_forgotten() {
    let mut g = room_grid();
    let first = pass(&mut g, pos(10, 10), 6);
    let corner = get_tile_idx(6, 6, 30);
    assert!(first.visible_tiles.contains(&corner));
    let second = pass(&mut g, pos(10, 10), 0);
    assert_eq!(second.visible_tiles, vec![get_tile_idx(10, 10, 30)]);
    assert_eq!(g.tiles[corner].visibletype, VisibleType::Memoried);
    assert_eq!(g.tiles[get_tile_idx(10, 10, 30)].visibletype, VisibleType::Visible);
    assert_eq!(g.tiles[get_tile_idx(1, 1, 30)].visibletype, VisibleType::Undiscovered);
    pass(&mut g, pos(10, 10), 0);
    assert_eq!(g.tiles[corner].visibletype, VisibleType::Memoried);
    pass(&mut g, pos(10, 10), 6);
    assert_eq!(g.tiles[corner].visibletype, VisibleType::Visible);
}

#[test]
fn pass_keeps_types_and_blocking() {
    let mut g = room_grid();
    let before: Vec<(TileType, bool)> = g.tiles.iter().map(|t| (t.tiletype, t.blocked)).collect();
    pass(&mut g, pos(10, 10), 6);
    let after: Vec<(TileType, bool)> = g.tiles.iter().map(|t| (t.tiletype, t.blocked)).collect();
    assert_eq!(before, after);
}
