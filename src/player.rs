use crate::components::{cardinal, direction_delta, Direction, Player, Position, Tile, TileType, Viewshed};
use crate::occupancy::{pos_in_bounds, pos_index};
use crate::rect::rect_center;
use crate::resources::{get_tile_idx, idx_of, in_bounds, lemma_index_in_grid, TileGrid, TileResolution};
use vstd::prelude::*;

verus! {

/// How far the player sees, in tiles.
pub const PLAYER_RANGE: i32 = 6;

/// A tile can be entered: it lies inside the grid, is not a wall, and
/// nothing stands on it.
pub open spec fn can_enter(tiles: Seq<Tile>, res: TileResolution, x: int, y: int) -> bool {
    &&& in_bounds(x, y, res)
    &&& tiles[idx_of(x, y, res.width as int)].tiletype != TileType::Wall
    &&& !tiles[idx_of(x, y, res.width as int)].blocked
}

/// Whether the tile at `p` can be entered.
pub fn enterable(grid: &TileGrid, p: Position) -> (r: bool)
    requires
        grid.wf(),
        pos_in_bounds(p, grid.tile_res),
    ensures
        r == can_enter(grid.tiles@, grid.tile_res, p.x as int, p.y as int),
{
    proof {
        lemma_index_in_grid(p.x as int, p.y as int, grid.width(), grid.height());
    }
    let idx = get_tile_idx(p.x, p.y, grid.tile_res.width);
    let t = grid.tiles[idx];
    t.tiletype != TileType::Wall && !t.blocked
}

/// The player, placed at the center of the spawn room (room 0) with an
/// empty viewshed of range `PLAYER_RANGE`.
pub fn add_player(grid: &TileGrid) -> (p: Player)
    requires
        grid.wf(),
        grid.rooms@.len() >= 1,
    ensures
        p.pos.x == rect_center(grid.rooms@[0].rect).0,
        p.pos.y == rect_center(grid.rooms@[0].rect).1,
        pos_in_bounds(p.pos, grid.tile_res),
        p.viewshed.range == PLAYER_RANGE,
        p.viewshed.visible_tiles@.len() == 0,
{
    let (cx, cy) = grid.rooms[0].rect.center();
    assert(crate::resources::rect_in_bounds(grid.rooms@[0].rect, grid.tile_res));
    Player {
        pos: Position { x: cx as usize, y: cy as usize },
        viewshed: Viewshed { visible_tiles: Vec::new(), range: PLAYER_RANGE },
    }
}

/// Attempts one step of the player in the cardinal direction `dir`. The step is taken
/// only onto a tile inside the grid that is neither a wall nor occupied;
/// otherwise the player stays. Returns whether the player moved.
pub fn move_player(grid: &TileGrid, player: &mut Player, dir: Direction) -> (moved: bool)
    requires
        grid.wf(),
        pos_in_bounds(old(player).pos, grid.tile_res),
        cardinal(dir),
    ensures
        moved == can_enter(
            grid.tiles@,
            grid.tile_res,
            old(player).pos.x + direction_delta(dir).0,
            old(player).pos.y + direction_delta(dir).1,
        ),
        final(player).pos == if moved {
            Position {
                x: (old(player).pos.x + direction_delta(dir).0) as usize,
                y: (old(player).pos.y + direction_delta(dir).1) as usize,
            }
        } else {
            old(player).pos
        },
        final(player).viewshed == old(player).viewshed,
        pos_in_bounds(final(player).pos, grid.tile_res),
        grid.tiles@[pos_index(old(player).pos, grid.width())].tiletype != TileType::Wall
            ==> grid.tiles@[pos_index(final(player).pos, grid.width())].tiletype != TileType::Wall,
{
    match grid.neighbor(player.pos, dir) {
        Some(dest) => {
            if enterable(grid, dest) {
                player.pos = dest;
                true
            } else {
                false
            }
        },
        None => false,
    }
}

} // verus!
