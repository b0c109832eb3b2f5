use crate::components::{Room, Tile, TileType, VisibleType};
use crate::random::random_between;
use rand::rngs::StdRng;
use crate::rect::{rect_center, rects_intersect, Rect};
use crate::resources::{
    idx_of, in_bounds, lemma_index_in_grid, lemma_index_injective, rect_in_bounds, rooms_disjoint,
    rooms_in_bounds, TileGrid, TileResolution,
};
use vstd::prelude::*;

verus! {

/// A tile after it has been dug out: floor, and no longer blocking.
pub open spec fn carved(t: Tile) -> Tile {
    Tile { tiletype: TileType::Floor, blocked: false, ..t }
}

/// The tile at `(x, y)` of a row-major tile sequence `w` tiles wide.
pub open spec fn tile_at(tiles: Seq<Tile>, w: int, x: int, y: int) -> Tile {
    tiles[idx_of(x, y, w)]
}

pub open spec fn in_rect(x: int, y: int, r: Rect) -> bool {
    r.x0 <= x <= r.x1 && r.y0 <= y <= r.y1
}

pub open spec fn min_int(a: int, b: int) -> int {
    if a <= b {
        a
    } else {
        b
    }
}

pub open spec fn max_int(a: int, b: int) -> int {
    if a >= b {
        a
    } else {
        b
    }
}

/// `(x, y)` lies on the horizontal run from column `xa` to column `xb` in row `yr`.
pub open spec fn on_h_run(x: int, y: int, xa: int, xb: int, yr: int) -> bool {
    y == yr && min_int(xa, xb) <= x <= max_int(xa, xb)
}

/// `(x, y)` lies on the vertical run from row `ya` to row `yb` in column `xc`.
pub open spec fn on_v_run(x: int, y: int, ya: int, yb: int, xc: int) -> bool {
    x == xc && min_int(ya, yb) <= y <= max_int(ya, yb)
}

/// `(x, y)` lies on the L-shaped corridor from `a` to `b`: horizontal run
/// first (along `a`'s row, then up `b`'s column), or vertical run first
/// (along `a`'s column, then across `b`'s row).
pub open spec fn on_corridor(x: int, y: int, a: (int, int), b: (int, int), horizontal_first: bool) -> bool {
    if horizontal_first {
        on_h_run(x, y, a.0, b.0, a.1) || on_v_run(x, y, a.1, b.1, b.0)
    } else {
        on_v_run(x, y, a.1, b.1, a.0) || on_h_run(x, y, a.0, b.0, b.1)
    }
}

/// Digs out the single tile `(x, y)`.
fn carve_tile(grid: &mut TileGrid, x: usize, y: usize)
    requires
        old(grid).wf(),
        in_bounds(x as int, y as int, old(grid).tile_res),
    ensures
        final(grid).wf(),
        final(grid).tile_res == old(grid).tile_res,
        final(grid).rooms@ == old(grid).rooms@,
        final(grid).tiles@.len() == old(grid).tiles@.len(),
        forall|x2: int, y2: int|
            in_bounds(x2, y2, old(grid).tile_res) ==> #[trigger] tile_at(
                final(grid).tiles@,
                old(grid).width(),
                x2,
                y2,
            ) == if x2 == x && y2 == y {
                carved(tile_at(old(grid).tiles@, old(grid).width(), x2, y2))
            } else {
                tile_at(old(grid).tiles@, old(grid).width(), x2, y2)
            },
{
    let w = grid.tile_res.width;
    proof {
        lemma_index_in_grid(x as int, y as int, w as int, grid.tile_res.height as int);
    }
    let idx = x + w * y;
    let t = grid.tiles[idx];
    grid.tiles.set(idx, Tile { tiletype: TileType::Floor, blocked: false, ..t });
    proof {
        assert forall|x2: int, y2: int| in_bounds(x2, y2, old(grid).tile_res) && !(x2 == x && y2 == y)
            implies #[trigger] tile_at(grid.tiles@, w as int, x2, y2) == tile_at(
            old(grid).tiles@,
            w as int,
            x2,
            y2,
        ) by {
            lemma_index_in_grid(x2, y2, w as int, grid.tile_res.height as int);
            lemma_index_injective(x as int, y as int, x2, y2, w as int, grid.tile_res.height as int);
        }
    }
}

/// Digs out every tile of `room`, edges included.
pub fn apply_room_to_map(grid: &mut TileGrid, room: &Rect)
    requires
        old(grid).wf(),
        rect_in_bounds(*room, old(grid).tile_res),
    ensures
        final(grid).wf(),
        final(grid).tile_res == old(grid).tile_res,
        final(grid).rooms@ == old(grid).rooms@,
        final(grid).tiles@.len() == old(grid).tiles@.len(),
        forall|x: int, y: int|
            in_bounds(x, y, old(grid).tile_res) ==> #[trigger] tile_at(
                final(grid).tiles@,
                old(grid).width(),
                x,
                y,
            ) == if in_rect(x, y, *room) {
                carved(tile_at(old(grid).tiles@, old(grid).width(), x, y))
            } else {
                tile_at(old(grid).tiles@, old(grid).width(), x, y)
            },
{
    let ghost w = grid.width();
    let ghost res = grid.tile_res;
    let ghost tiles0 = grid.tiles@;
    let x0 = room.x0 as usize;
    let x1 = room.x1 as usize;
    let y1 = room.y1 as usize;
    let mut y = room.y0 as usize;
    while y <= y1
        invariant
            room.y0 <= y <= y1 + 1,
            y1 == room.y1,
            x0 == room.x0,
            x1 == room.x1,
            rect_in_bounds(*room, res),
            grid.wf(),
            grid.tile_res == res,
            w == res.width,
            grid.rooms@ == old(grid).rooms@,
            grid.tiles@.len() == tiles0.len(),
            tiles0 == old(grid).tiles@,
            forall|xa: int, ya: int|
                in_bounds(xa, ya, res) ==> #[trigger] tile_at(grid.tiles@, w, xa, ya) == if in_rect(
                    xa,
                    ya,
                    *room,
                ) && ya < y {
                    carved(tile_at(tiles0, w, xa, ya))
                } else {
                    tile_at(tiles0, w, xa, ya)
                },
        decreases y1 + 1 - y,
    {
        let mut x = x0;
        while x <= x1
            invariant
                room.y0 <= y <= y1,
                x0 <= x <= x1 + 1,
                y1 == room.y1,
                x0 == room.x0,
                x1 == room.x1,
                rect_in_bounds(*room, res),
                grid.wf(),
                grid.tile_res == res,
                w == res.width,
                grid.rooms@ == old(grid).rooms@,
                grid.tiles@.len() == tiles0.len(),
                tiles0 == old(grid).tiles@,
                forall|xa: int, ya: int|
                    in_bounds(xa, ya, res) ==> #[trigger] tile_at(grid.tiles@, w, xa, ya) == if in_rect(
                        xa,
                        ya,
                        *room,
                    ) && (ya < y || (ya == y && xa < x)) {
                        carved(tile_at(tiles0, w, xa, ya))
                    } else {
                        tile_at(tiles0, w, xa, ya)
                    },
            decreases x1 + 1 - x,
        {
            carve_tile(grid, x, y);
            x = x + 1;
        }
        y = y + 1;
    }
}

/// Digs out the horizontal run from column `x1` to column `x2` (either
/// order) in row `y`; coordinates outside the grid are skipped.
pub fn apply_horizontal_tunnel(grid: &mut TileGrid, x1: i32, x2: i32, y: i32)
    requires
        old(grid).wf(),
    ensures
        final(grid).wf(),
        final(grid).tile_res == old(grid).tile_res,
        final(grid).rooms@ == old(grid).rooms@,
        final(grid).tiles@.len() == old(grid).tiles@.len(),
        forall|x: int, yy: int|
            in_bounds(x, yy, old(grid).tile_res) ==> #[trigger] tile_at(
                final(grid).tiles@,
                old(grid).width(),
                x,
                yy,
            ) == if on_h_run(x, yy, x1 as int, x2 as int, y as int) {
                carved(tile_at(old(grid).tiles@, old(grid).width(), x, yy))
            } else {
                tile_at(old(grid).tiles@, old(grid).width(), x, yy)
            },
{
    let ghost w = grid.width();
    let ghost res = grid.tile_res;
    let ghost tiles0 = grid.tiles@;
    let lo: i64 = if x1 <= x2 {
        x1 as i64
    } else {
        x2 as i64
    };
    let hi: i64 = if x1 <= x2 {
        x2 as i64
    } else {
        x1 as i64
    };
    let mut x: i64 = lo;
    while x <= hi
        invariant
            lo == min_int(x1 as int, x2 as int),
            hi == max_int(x1 as int, x2 as int),
            lo <= x <= hi + 1,
            grid.wf(),
            grid.tile_res == res,
            w == res.width,
            grid.rooms@ == old(grid).rooms@,
            grid.tiles@.len() == tiles0.len(),
            tiles0 == old(grid).tiles@,
            forall|xa: int, ya: int|
                in_bounds(xa, ya, res) ==> #[trigger] tile_at(grid.tiles@, w, xa, ya) == if ya == y
                    && lo <= xa < x {
                    carved(tile_at(tiles0, w, xa, ya))
                } else {
                    tile_at(tiles0, w, xa, ya)
                },
        decreases hi + 1 - x,
    {
        if 0 <= x && (x as i128) < grid.tile_res.width as i128 && 0 <= y && (y as usize) < grid.tile_res.height {
            carve_tile(grid, x as usize, y as usize);
        }
        x = x + 1;
    }
}

/// Digs out the vertical run from row `y1` to row `y2` (either order) in
/// column `x`; coordinates outside the grid are skipped.
pub fn apply_vertical_tunnel(grid: &mut TileGrid, y1: i32, y2: i32, x: i32)
    requires
        old(grid).wf(),
    ensures
        final(grid).wf(),
        final(grid).tile_res == old(grid).tile_res,
        final(grid).rooms@ == old(grid).rooms@,
        final(grid).tiles@.len() == old(grid).tiles@.len(),
        forall|xx: int, yy: int|
            in_bounds(xx, yy, old(grid).tile_res) ==> #[trigger] tile_at(
                final(grid).tiles@,
                old(grid).width(),
                xx,
                yy,
            ) == if on_v_run(xx, yy, y1 as int, y2 as int, x as int) {
                carved(tile_at(old(grid).tiles@, old(grid).width(), xx, yy))
            } else {
                tile_at(old(grid).tiles@, old(grid).width(), xx, yy)
            },
{
    let ghost w = grid.width();
    let ghost res = grid.tile_res;
    let ghost tiles0 = grid.tiles@;
    let lo: i64 = if y1 <= y2 {
        y1 as i64
    } else {
        y2 as i64
    };
    let hi: i64 = if y1 <= y2 {
        y2 as i64
    } else {
        y1 as i64
    };
    let mut y: i64 = lo;
    while y <= hi
        invariant
            lo == min_int(y1 as int, y2 as int),
            hi == max_int(y1 as int, y2 as int),
            lo <= y <= hi + 1,
            grid.wf(),
            grid.tile_res == res,
            w == res.width,
            grid.rooms@ == old(grid).rooms@,
            grid.tiles@.len() == tiles0.len(),
            tiles0 == old(grid).tiles@,
            forall|xa: int, ya: int|
                in_bounds(xa, ya, res) ==> #[trigger] tile_at(grid.tiles@, w, xa, ya) == if xa == x
                    && lo <= ya < y {
                    carved(tile_at(tiles0, w, xa, ya))
                } else {
                    tile_at(tiles0, w, xa, ya)
                },
        decreases hi + 1 - y,
    {
        if 0 <= x && (x as usize) < grid.tile_res.width && 0 <= y && (y as i128) < grid.tile_res.height as i128 {
            carve_tile(grid, x as usize, y as usize);
        }
        y = y + 1;
    }
}

/// Joins tile `a` to tile `b` with an L-shaped corridor, horizontal run
/// first or vertical run first.
pub fn connect_rooms(grid: &mut TileGrid, a: (i32, i32), b: (i32, i32), horizontal_first: bool)
    requires
        old(grid).wf(),
    ensures
        final(grid).wf(),
        final(grid).tile_res == old(grid).tile_res,
        final(grid).rooms@ == old(grid).rooms@,
        final(grid).tiles@.len() == old(grid).tiles@.len(),
        forall|x: int, y: int|
            in_bounds(x, y, old(grid).tile_res) ==> #[trigger] tile_at(
                final(grid).tiles@,
                old(grid).width(),
                x,
                y,
            ) == if on_corridor(
                x,
                y,
                (a.0 as int, a.1 as int),
                (b.0 as int, b.1 as int),
                horizontal_first,
            ) {
                carved(tile_at(old(grid).tiles@, old(grid).width(), x, y))
            } else {
                tile_at(old(grid).tiles@, old(grid).width(), x, y)
            },
{
    if horizontal_first {
        apply_horizontal_tunnel(grid, a.0, b.0, a.1);
        apply_vertical_tunnel(grid, a.1, b.1, b.0);
    } else {
        apply_vertical_tunnel(grid, a.1, b.1, a.0);
        apply_horizontal_tunnel(grid, a.0, b.0, b.1);
    }
}

/// Number of room placements attempted; rejected ones are not retried.
pub const MAX_ROOMS: usize = 30;

/// Smallest extent of a room, `x1 - x0` and `y1 - y0`.
pub const MIN_SIZE: usize = 6;

/// Largest extent of a room, `x1 - x0` and `y1 - y0`.
pub const MAX_SIZE: usize = 10;

/// Adds `candidate` to the room list unless it intersects a room already
/// there; returns whether it was added.
pub fn try_add_room(rooms: &mut Vec<Room>, candidate: Rect) -> (added: bool)
    ensures
        added == (forall|j: int|
            0 <= j < old(rooms)@.len() ==> !rects_intersect(candidate, #[trigger] old(rooms)@[j].rect)),
        final(rooms)@ == if added {
            old(rooms)@.push(Room { rect: candidate })
        } else {
            old(rooms)@
        },
{
    let mut j: usize = 0;
    while j < rooms.len()
        invariant
            j <= rooms@.len(),
            rooms@ == old(rooms)@,
            forall|k: int| 0 <= k < j ==> !rects_intersect(candidate, #[trigger] rooms@[k].rect),
        decreases rooms@.len() - j,
    {
        if candidate.intersect(&rooms[j].rect) {
            return false;
        }
        j = j + 1;
    }
    rooms.push(Room { rect: candidate });
    true
}

/// Every room spans between `MIN_SIZE` and `MAX_SIZE` tiles beyond its first
/// row and column.
pub open spec fn rooms_sized(rooms: Seq<Room>) -> bool {
    forall|i: int|
        0 <= i < rooms.len() ==> MIN_SIZE <= (#[trigger] rooms[i]).rect.x1 - rooms[i].rect.x0
            <= MAX_SIZE && MIN_SIZE <= rooms[i].rect.y1 - rooms[i].rect.y0 <= MAX_SIZE
}

/// The grid sizes on which room placement is possible: a room of the largest
/// size fits with a margin, and coordinates fit a `Rect`.
pub open spec fn placeable(res: TileResolution) -> bool {
    &&& MAX_SIZE + 2 <= res.width <= i32::MAX
    &&& MAX_SIZE + 2 <= res.height <= i32::MAX
    &&& res.width * res.height <= usize::MAX
}

/// One room attempt's draws `(w, h, x, y)` lie in the ranges they are drawn
/// from: `w` and `h` in `MIN_SIZE..=MAX_SIZE`, `x` in `1..=width - w - 1`
/// and `y` in `1..=height - h - 1`.
pub open spec fn draw_in_range(res: TileResolution, d: (usize, usize, usize, usize)) -> bool {
    &&& MIN_SIZE <= d.0 <= MAX_SIZE
    &&& MIN_SIZE <= d.1 <= MAX_SIZE
    &&& 1 <= d.2 <= res.width - d.0 - 1
    &&& 1 <= d.3 <= res.height - d.1 - 1
}

pub open spec fn draws_in_range(res: TileResolution, draws: Seq<(usize, usize, usize, usize)>) -> bool {
    forall|k: int| 0 <= k < draws.len() ==> draw_in_range(res, #[trigger] draws[k])
}

/// The room candidate of draws `(w, h, x, y)`: corner `(x - 1, y - 1)`,
/// extending `w` columns and `h` rows beyond it.
pub open spec fn candidate_of(d: (usize, usize, usize, usize)) -> Rect {
    Rect {
        x0: (d.2 - 1) as i32,
        y0: (d.3 - 1) as i32,
        x1: (d.2 - 1 + d.0) as i32,
        y1: (d.3 - 1 + d.1) as i32,
    }
}

pub open spec fn candidates(draws: Seq<(usize, usize, usize, usize)>) -> Seq<Rect> {
    draws.map_values(|d: (usize, usize, usize, usize)| candidate_of(d))
}

/// The rooms kept from a sequence of candidates: in order, each candidate
/// is kept exactly when it meets no room kept before it.
pub open spec fn accepted(cands: Seq<Rect>) -> Seq<Room>
    decreases cands.len(),
{
    if cands.len() == 0 {
        Seq::empty()
    } else {
        let prev = accepted(cands.drop_last());
        let c = cands.last();
        if forall|j: int| 0 <= j < prev.len() ==> !rects_intersect(c, #[trigger] prev[j].rect) {
            prev.push(Room { rect: c })
        } else {
            prev
        }
    }
}

/// `rooms` are what `MAX_ROOMS` in-range draws give.
pub open spec fn rooms_drawn(
    res: TileResolution,
    draws: Seq<(usize, usize, usize, usize)>,
    rooms: Seq<Room>,
) -> bool {
    &&& draws.len() == MAX_ROOMS
    &&& draws_in_range(res, draws)
    &&& rooms == accepted(candidates(draws))
}

/// Places rooms from the given draws, one attempt per draw in order: the
/// candidate of each draw is kept unless it meets a room kept before it.
/// Rejected candidates are not retried.
pub fn place_rooms(tile_res: TileResolution, draws: &Vec<(usize, usize, usize, usize)>) -> (rooms: Vec<
    Room,
>)
    requires
        placeable(tile_res),
        draws_in_range(tile_res, draws@),
    ensures
        rooms@ == accepted(candidates(draws@)),
        rooms@.len() <= draws@.len(),
        draws@.len() > 0 ==> rooms@.len() >= 1 && rooms@[0].rect == candidate_of(draws@[0]),
        rooms_disjoint(rooms@),
        rooms_in_bounds(rooms@, tile_res),
        rooms_sized(rooms@),
{
    let ghost cands = candidates(draws@);
    let mut rooms: Vec<Room> = Vec::new();
    let mut k: usize = 0;
    assert(cands.subrange(0, 0) =~= Seq::<Rect>::empty());
    while k < draws.len()
        invariant
            placeable(tile_res),
            draws_in_range(tile_res, draws@),
            cands == candidates(draws@),
            k <= draws@.len(),
            rooms@ == accepted(cands.subrange(0, k as int)),
            rooms@.len() <= k,
            k > 0 ==> rooms@.len() >= 1 && rooms@[0].rect == candidate_of(draws@[0]),
            rooms_disjoint(rooms@),
            rooms_in_bounds(rooms@, tile_res),
            rooms_sized(rooms@),
        decreases draws@.len() - k,
    {
        let (w, h, x, y) = draws[k];
        assert(draw_in_range(tile_res, draws@[k as int]));
        let candidate = Rect::new((x - 1) as i32, (y - 1) as i32, (x - 1 + w) as i32, (y - 1 + h) as i32);
        assert(candidate == candidate_of(draws@[k as int]));
        let ghost before = rooms@;
        let added = try_add_room(&mut rooms, candidate);
        proof {
            let pre = cands.subrange(0, k + 1);
            assert(pre.drop_last() =~= cands.subrange(0, k as int));
            assert(pre.last() == candidate);
            if added {
                assert forall|i: int, j: int|
                    0 <= i < rooms@.len() && 0 <= j < rooms@.len() && i != j implies !rects_intersect(
                    #[trigger] rooms@[i].rect,
                    #[trigger] rooms@[j].rect,
                ) by {
                    if i == before.len() {
                        assert(!rects_intersect(candidate, before[j].rect));
                    } else if j == before.len() {
                        assert(!rects_intersect(candidate, before[i].rect));
                    }
                }
                assert(rooms@[before.len() as int].rect == candidate);
            }
        }
        k = k + 1;
    }
    assert(cands.subrange(0, k as int) =~= cands);
    rooms
}

/// A grid of walls with up to `MAX_ROOMS` rooms placed on it (not dug out
/// yet): each attempt draws a size and a position, and the rooms are placed
/// from those draws as `place_rooms` does. The first attempt always succeeds.
pub fn create_map(tile_res: TileResolution, rng: &mut StdRng) -> (g: TileGrid)
    requires
        placeable(tile_res),
    ensures
        g.wf(),
        g.tile_res == tile_res,
        exists|draws: Seq<(usize, usize, usize, usize)>| #[trigger] rooms_drawn(tile_res, draws, g.rooms@),
        1 <= g.rooms@.len() <= MAX_ROOMS,
        rooms_disjoint(g.rooms@),
        rooms_sized(g.rooms@),
        forall|i: int|
            0 <= i < g.tiles@.len() ==> #[trigger] g.tiles@[i] == (Tile {
                tiletype: TileType::Wall,
                visibletype: VisibleType::Undiscovered,
                blocked: true,
            }),
{
    let mut grid = TileGrid::new(tile_res);
    let mut draws: Vec<(usize, usize, usize, usize)> = Vec::new();
    let mut attempt: usize = 0;
    while attempt < MAX_ROOMS
        invariant
            placeable(tile_res),
            attempt <= MAX_ROOMS,
            draws@.len() == attempt,
            draws_in_range(tile_res, draws@),
        decreases MAX_ROOMS - attempt,
    {
        let w = random_between(rng, MIN_SIZE, MAX_SIZE);
        let h = random_between(rng, MIN_SIZE, MAX_SIZE);
        let x = random_between(rng, 1, tile_res.width - w - 1);
        let y = random_between(rng, 1, tile_res.height - h - 1);
        draws.push((w, h, x, y));
        proof {
            assert forall|k: int| 0 <= k < draws@.len() implies draw_in_range(
                tile_res,
                #[trigger] draws@[k],
            ) by {
                if k < attempt {
                    assert(draws@[k] == draws@.drop_last()[k]);
                }
            }
        }
        attempt = attempt + 1;
    }
    let rooms = place_rooms(tile_res, &draws);
    assert(rooms_drawn(tile_res, draws@, rooms@));
    grid.rooms = rooms;
    grid
}

/// `(x, y)` is dug out by the first `n` rooms: it lies in one of them, or on
/// the corridor joining one of them to the room before it, laid out as
/// `horizontal_first[k]` says for room `k`.
pub open spec fn carved_by(
    rooms: Seq<Room>,
    horizontal_first: Seq<bool>,
    n: int,
    x: int,
    y: int,
) -> bool {
    ||| exists|r: int| 0 <= r < n && #[trigger] in_rect(x, y, rooms[r].rect)
    ||| exists|k: int|
        1 <= k < n && #[trigger] on_corridor(
            x,
            y,
            rect_center(rooms[k - 1].rect),
            rect_center(rooms[k].rect),
            horizontal_first[k],
        )
}

proof fn lemma_carved_by_step(
    rooms: Seq<Room>,
    horizontal_first: Seq<bool>,
    n: int,
    b: bool,
    x: int,
    y: int,
)
    requires
        0 <= n < rooms.len(),
        horizontal_first.len() == n,
    ensures
        carved_by(rooms, horizontal_first.push(b), n + 1, x, y) == (carved_by(
            rooms,
            horizontal_first,
            n,
            x,
            y,
        ) || in_rect(x, y, rooms[n].rect) || (n > 0 && on_corridor(
            x,
            y,
            rect_center(rooms[n - 1].rect),
            rect_center(rooms[n].rect),
            b,
        ))),
{
    let hf = horizontal_first.push(b);
    assert(hf[n] == b);
    assert forall|k: int| 0 <= k < n implies hf[k] == horizontal_first[k] by {}
    if carved_by(rooms, hf, n + 1, x, y) {
        if exists|r: int| 0 <= r < n + 1 && #[trigger] in_rect(x, y, rooms[r].rect) {
            let r = choose|r: int| 0 <= r < n + 1 && #[trigger] in_rect(x, y, rooms[r].rect);
            if r < n {
                assert(carved_by(rooms, horizontal_first, n, x, y));
            }
        } else {
            let k = choose|k: int|
                1 <= k < n + 1 && #[trigger] on_corridor(
                    x,
                    y,
                    rect_center(rooms[k - 1].rect),
                    rect_center(rooms[k].rect),
                    hf[k],
                );
            if k < n {
                assert(on_corridor(
                    x,
                    y,
                    rect_center(rooms[k - 1].rect),
                    rect_center(rooms[k].rect),
                    horizontal_first[k],
                ));
            }
        }
    }
    if carved_by(rooms, horizontal_first, n, x, y) {
        if exists|r: int| 0 <= r < n && #[trigger] in_rect(x, y, rooms[r].rect) {
            let r = choose|r: int| 0 <= r < n && #[trigger] in_rect(x, y, rooms[r].rect);
            assert(in_rect(x, y, rooms[r].rect));
        } else {
            let k = choose|k: int|
                1 <= k < n && #[trigger] on_corridor(
                    x,
                    y,
                    rect_center(rooms[k - 1].rect),
                    rect_center(rooms[k].rect),
                    horizontal_first[k],
                );
            assert(on_corridor(
                x,
                y,
                rect_center(rooms[k - 1].rect),
                rect_center(rooms[k].rect),
                hf[k],
            ));
        }
    }
    if in_rect(x, y, rooms[n].rect) {
        assert(in_rect(x, y, rooms[n].rect));
    }
    if n > 0 && on_corridor(x, y, rect_center(rooms[n - 1].rect), rect_center(rooms[n].rect), b) {
        assert(on_corridor(x, y, rect_center(rooms[n - 1].rect), rect_center(rooms[n].rect), hf[n]));
    }
}

/// The tiles of the grid are dug out exactly where `carved_by` says, all
/// rooms and corridors counted, and are otherwise as `tiles0` holds them.
pub open spec fn dug_as(
    tiles: Seq<Tile>,
    tiles0: Seq<Tile>,
    res: TileResolution,
    rooms: Seq<Room>,
    horizontal_first: Seq<bool>,
) -> bool {
    &&& horizontal_first.len() == rooms.len()
    &&& forall|x: int, y: int|
        in_bounds(x, y, res) ==> #[trigger] tile_at(tiles, res.width as int, x, y) == if carved_by(
            rooms,
            horizontal_first,
            rooms.len() as int,
            x,
            y,
        ) {
            carved(tile_at(tiles0, res.width as int, x, y))
        } else {
            tile_at(tiles0, res.width as int, x, y)
        }
}

/// Digs out every room, and joins each room after the first to the one
/// before it by an L-shaped corridor between their centers, whose layout
/// (horizontal or vertical run first) is drawn at random.
pub fn apply_map(grid: &mut TileGrid, rng: &mut StdRng)
    requires
        old(grid).wf(),
    ensures
        final(grid).wf(),
        final(grid).tile_res == old(grid).tile_res,
        final(grid).rooms@ == old(grid).rooms@,
        final(grid).tiles@.len() == old(grid).tiles@.len(),
        exists|horizontal_first: Seq<bool>|
            #[trigger] dug_as(
                final(grid).tiles@,
                old(grid).tiles@,
                old(grid).tile_res,
                old(grid).rooms@,
                horizontal_first,
            ),
{
    let ghost res = grid.tile_res;
    let ghost w = grid.width();
    let ghost tiles0 = grid.tiles@;
    let ghost rooms = grid.rooms@;
    let ghost mut hf: Seq<bool> = Seq::empty();
    let n = grid.rooms.len();
    let mut i: usize = 0;
    let mut old_center: (i32, i32) = (0, 0);
    while i < n
        invariant
            i <= n,
            n == rooms.len(),
            grid.wf(),
            grid.tile_res == res,
            w == res.width,
            grid.rooms@ == rooms,
            rooms == old(grid).rooms@,
            tiles0 == old(grid).tiles@,
            grid.tiles@.len() == tiles0.len(),
            hf.len() == i,
            i > 0 ==> old_center.0 == rect_center(rooms[i - 1].rect).0 && old_center.1
                == rect_center(rooms[i - 1].rect).1,
            forall|x: int, y: int|
                in_bounds(x, y, res) ==> #[trigger] tile_at(grid.tiles@, w, x, y) == if carved_by(
                    rooms,
                    hf,
                    i as int,
                    x,
                    y,
                ) {
                    carved(tile_at(tiles0, w, x, y))
                } else {
                    tile_at(tiles0, w, x, y)
                },
        decreases n - i,
    {
        let room = grid.rooms[i].rect;
        assert(rect_in_bounds(rooms[i as int].rect, res));
        let ghost mid = grid.tiles@;
        apply_room_to_map(grid, &room);
        let new_center = room.center();
        let mut horizontal_first = false;
        if i > 0 {
            horizontal_first = random_between(rng, 0, 1) == 1;
            connect_rooms(grid, old_center, new_center, horizontal_first);
        }
        proof {
            assert forall|x: int, y: int| in_bounds(x, y, res) implies #[trigger] tile_at(
                grid.tiles@,
                w,
                x,
                y,
            ) == if carved_by(rooms, hf.push(horizontal_first), i + 1, x, y) {
                carved(tile_at(tiles0, w, x, y))
            } else {
                tile_at(tiles0, w, x, y)
            } by {
                lemma_carved_by_step(rooms, hf, i as int, horizontal_first, x, y);
            }
            hf = hf.push(horizontal_first);
        }
        old_center = new_center;
        i = i + 1;
    }
    assert(dug_as(grid.tiles@, tiles0, res, rooms, hf));
}

/// `n` blocking, undiscovered walls.
pub open spec fn all_walls(n: nat) -> Seq<Tile> {
    Seq::new(
        n,
        |i: int| Tile { tiletype: TileType::Wall, visibletype: VisibleType::Undiscovered, blocked: true },
    )
}

/// The tiles are all walls but where the rooms and the corridors between
/// consecutive rooms are dug out, for some choice of corridor layouts.
pub open spec fn generated(tiles: Seq<Tile>, res: TileResolution, rooms: Seq<Room>) -> bool {
    exists|horizontal_first: Seq<bool>|
        #[trigger] dug_as(tiles, all_walls(tiles.len()), res, rooms, horizontal_first)
}

/// Generates a dungeon: places rooms as `create_map` does, then digs them
/// out and joins them as `apply_map` does. Room 0 is the spawn room.
pub fn generate_map(tile_res: TileResolution, rng: &mut StdRng) -> (g: TileGrid)
    requires
        placeable(tile_res),
    ensures
        g.wf(),
        g.tile_res == tile_res,
        exists|draws: Seq<(usize, usize, usize, usize)>| #[trigger] rooms_drawn(tile_res, draws, g.rooms@),
        generated(g.tiles@, tile_res, g.rooms@),
        1 <= g.rooms@.len() <= MAX_ROOMS,
        rooms_disjoint(g.rooms@),
        rooms_sized(g.rooms@),
{
    let mut grid = create_map(tile_res, rng);
    let ghost walls = grid.tiles@;
    apply_map(&mut grid, rng);
    assert(walls =~= all_walls(walls.len()));
    grid
}

} // verus!
