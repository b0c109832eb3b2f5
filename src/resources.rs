use crate::components::{direction_delta, Direction, Position, Room, Tile, TileType, VisibleType};
use crate::rect::{rects_intersect, Rect};
use vstd::arithmetic::div_mod::{lemma_fundamental_div_mod, lemma_fundamental_div_mod_converse};
use vstd::prelude::*;

verus! {

/// Size of the grid in tiles.
#[derive(Clone, Copy, Debug, PartialEq, Eq, Structural)]
pub struct TileResolution {
    pub height: usize,
    pub width: usize,
}

/// The dungeon grid: a row-major array of `width * height` tiles
/// (`index = x + width * y`) and the ordered list of accepted rooms, the
/// first of which is the player's spawn room.
pub struct TileGrid {
    pub tiles: Vec<Tile>,
    pub rooms: Vec<Room>,
    pub tile_res: TileResolution,
}

/// Row-major index of tile `(x, y)` in a grid `w` tiles wide.
pub open spec fn idx_of(x: int, y: int, w: int) -> int {
    x + w * y
}

/// Coordinates of the tile with row-major index `i` in a grid `w` tiles wide.
pub open spec fn coords_of(i: int, w: int) -> (int, int) {
    (i % w, i / w)
}

pub open spec fn in_bounds(x: int, y: int, res: TileResolution) -> bool {
    0 <= x < res.width && 0 <= y < res.height
}

/// A rectangle that lies inside the grid.
pub open spec fn rect_in_bounds(r: Rect, res: TileResolution) -> bool {
    0 <= r.x0 <= r.x1 < res.width && 0 <= r.y0 <= r.y1 < res.height
}

/// No two rooms of the list intersect.
pub open spec fn rooms_disjoint(rooms: Seq<Room>) -> bool {
    forall|i: int, j: int|
        0 <= i < rooms.len() && 0 <= j < rooms.len() && i != j ==> !rects_intersect(
            #[trigger] rooms[i].rect,
            #[trigger] rooms[j].rect,
        )
}

/// Every room lies inside the grid.
pub open spec fn rooms_in_bounds(rooms: Seq<Room>, res: TileResolution) -> bool {
    forall|i: int| 0 <= i < rooms.len() ==> rect_in_bounds(#[trigger] rooms[i].rect, res)
}

pub open spec fn is_wall(t: Tile) -> bool {
    t.tiletype == TileType::Wall
}

/// A tile index lies inside the grid.
pub proof fn lemma_index_in_grid(x: int, y: int, w: int, h: int)
    requires
        0 <= x < w,
        0 <= y < h,
    ensures
        0 <= idx_of(x, y, w) < w * h,
{
    assert(0 <= x + w * y < w * h) by (nonlinear_arith)
        requires
            0 <= x < w,
            0 <= y < h,
    ;
}

/// The row-major index and the coordinate recovery undo each other: on
/// every in-bounds pair of coordinates, and on every index of the grid.
pub proof fn lemma_tile_index_round_trip(x: int, y: int, i: int, w: int, h: int)
    requires
        0 <= x < w,
        0 <= y < h,
        0 <= i < w * h,
    ensures
        coords_of(idx_of(x, y, w), w) == (x, y),
        0 <= coords_of(i, w).0 < w,
        0 <= coords_of(i, w).1 < h,
        idx_of(coords_of(i, w).0, coords_of(i, w).1, w) == i,
{
    assert(x + w * y == y * w + x) by (nonlinear_arith);
    lemma_fundamental_div_mod_converse(x + w * y, w, y, x);
    lemma_fundamental_div_mod(i, w);
    let q = i / w;
    let r = i % w;
    assert(0 <= r < w) by {
        vstd::arithmetic::div_mod::lemma_mod_bound(i, w);
    }
    assert(0 <= q < h) by (nonlinear_arith)
        requires
            i == w * q + r,
            0 <= r < w,
            0 <= i < w * h,
    ;
}

/// Distinct in-bounds coordinates have distinct indices.
pub proof fn lemma_index_injective(x: int, y: int, x2: int, y2: int, w: int, h: int)
    requires
        0 <= x < w,
        0 <= y < h,
        0 <= x2 < w,
        0 <= y2 < h,
        (x, y) != (x2, y2),
    ensures
        idx_of(x, y, w) != idx_of(x2, y2, w),
{
    lemma_index_in_grid(x, y, w, h);
    lemma_tile_index_round_trip(x, y, idx_of(x, y, w), w, h);
    lemma_tile_index_round_trip(x2, y2, idx_of(x, y, w), w, h);
}

/// Row-major index of tile `(idx_x, idx_y)` in a grid `width` tiles wide.
pub fn get_tile_idx(idx_x: usize, idx_y: usize, width: usize) -> (r: usize)
    requires
        idx_x < width,
        idx_x + width * idx_y <= usize::MAX,
    ensures
        r == idx_of(idx_x as int, idx_y as int, width as int),
{
    assert(width * idx_y <= usize::MAX) by (nonlinear_arith)
        requires
            idx_x + width * idx_y <= usize::MAX,
    ;
    idx_x + width * idx_y
}

/// Coordinates `(x, y)` of the tile with row-major index `idx` in a grid
/// `width` tiles wide.
pub fn tile_coords(idx: usize, width: usize) -> (r: (usize, usize))
    requires
        width > 0,
    ensures
        r.0 == coords_of(idx as int, width as int).0,
        r.1 == coords_of(idx as int, width as int).1,
{
    (idx % width, idx / width)
}

impl TileGrid {
    /// The grid's structural invariant: one tile per cell, and a room list of
    /// in-bounds, pairwise non-intersecting rectangles.
    pub open spec fn wf(&self) -> bool {
        &&& self.tiles@.len() == self.tile_res.width * self.tile_res.height
        &&& self.tile_res.width * self.tile_res.height <= usize::MAX
        &&& rooms_in_bounds(self.rooms@, self.tile_res)
        &&& rooms_disjoint(self.rooms@)
    }

    pub open spec fn width(&self) -> int {
        self.tile_res.width as int
    }

    pub open spec fn height(&self) -> int {
        self.tile_res.height as int
    }

    /// A grid of the given size with every tile a blocking, undiscovered
    /// wall and no rooms.
    pub fn new(tile_res: TileResolution) -> (g: TileGrid)
        requires
            tile_res.width * tile_res.height <= usize::MAX,
        ensures
            g.wf(),
            g.tile_res == tile_res,
            g.rooms@.len() == 0,
            forall|i: int|
                0 <= i < g.tiles@.len() ==> #[trigger] g.tiles@[i] == (Tile {
                    tiletype: TileType::Wall,
                    visibletype: VisibleType::Undiscovered,
                    blocked: true,
                }),
    {
        let n: usize = tile_res.width * tile_res.height;
        let mut tiles: Vec<Tile> = Vec::new();
        let mut i: usize = 0;
        while i < n
            invariant
                i <= n,
                tiles@.len() == i,
                forall|k: int|
                    0 <= k < i ==> #[trigger] tiles@[k] == (Tile {
                        tiletype: TileType::Wall,
                        visibletype: VisibleType::Undiscovered,
                        blocked: true,
                    }),
            decreases n - i,
        {
            tiles.push(
                Tile { tiletype: TileType::Wall, visibletype: VisibleType::Undiscovered, blocked: true },
            );
            i = i + 1;
        }
        TileGrid { tiles, rooms: Vec::new(), tile_res }
    }

    /// Row-major index of the in-bounds tile `(x, y)`.
    pub fn tile_index_of(&self, x: usize, y: usize) -> (r: usize)
        requires
            self.wf(),
            in_bounds(x as int, y as int, self.tile_res),
        ensures
            r == idx_of(x as int, y as int, self.width()),
            r < self.tiles@.len(),
    {
        proof {
            lemma_index_in_grid(x as int, y as int, self.width(), self.height());
        }
        get_tile_idx(x, y, self.tile_res.width)
    }

    /// The tile with row-major index `index`.
    pub fn tile_at(&self, index: usize) -> (t: Tile)
        requires
            index < self.tiles@.len(),
        ensures
            t == self.tiles@[index as int],
    {
        self.tiles[index]
    }

    /// The accepted rooms, in order of acceptance.
    pub fn room_list(&self) -> (r: &Vec<Room>)
        ensures
            r@ == self.rooms@,
    {
        &self.rooms
    }

    /// The player's spawn room: the first room accepted, if any was.
    pub fn player_spawn_room(&self) -> (r: Option<Room>)
        ensures
            r == if self.rooms@.len() > 0 {
                Some(self.rooms@[0])
            } else {
                None
            },
    {
        if self.rooms.len() > 0 {
            Some(self.rooms[0])
        } else {
            None
        }
    }

    /// The position one step from `p` in direction `d`, if it lies inside
    /// the grid.
    pub fn neighbor(&self, p: Position, d: Direction) -> (r: Option<Position>)
        ensures
            r == if in_bounds(
                p.x + direction_delta(d).0,
                p.y + direction_delta(d).1,
                self.tile_res,
            ) {
                Some(
                    Position {
                        x: (p.x + direction_delta(d).0) as usize,
                        y: (p.y + direction_delta(d).1) as usize,
                    },
                )
            } else {
                None
            },
    {
        let (dx, dy): (i128, i128) = match d {
            Direction::East => (1, 0),
            Direction::NorthEast => (1, 1),
            Direction::North => (0, 1),
            Direction::NorthWest => (-1, 1),
            Direction::West => (-1, 0),
            Direction::SouthWest => (-1, -1),
            Direction::South => (0, -1),
            Direction::SouthEast => (1, -1),
        };
        let x: i128 = p.x as i128 + dx;
        let y: i128 = p.y as i128 + dy;
        if 0 <= x && x < self.tile_res.width as i128 && 0 <= y && y < self.tile_res.height as i128 {
            Some(Position { x: x as usize, y: y as usize })
        } else {
            None
        }
    }
}

} // verus!
