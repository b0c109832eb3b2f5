use crate::components::{Position, Tile, TileType, Viewshed, VisibleType};
use crate::resources::{
    coords_of, get_tile_idx, idx_of, in_bounds, lemma_index_in_grid, lemma_tile_index_round_trip,
    TileGrid, TileResolution,
};
use vstd::arithmetic::div_mod::{lemma_fundamental_div_mod, lemma_mod_bound};
use vstd::prelude::*;

verus! {

pub open spec fn abs(v: int) -> int {
    if v >= 0 {
        v
    } else {
        -v
    }
}

/// The tile types of a grid, in index order: all that a ray looks at.
pub open spec fn tile_types(tiles: Seq<Tile>) -> Seq<TileType> {
    tiles.map_values(|t: Tile| t.tiletype)
}

/// Number of steps of a ray toward offset `t`: one per tile along its
/// major axis.
pub open spec fn ray_steps(t: (i32, i32)) -> int {
    if abs(t.0 as int) >= abs(t.1 as int) {
        abs(t.0 as int)
    } else {
        abs(t.1 as int)
    }
}

/// Offset along one axis after step `i` of `n` toward offset `t`: the exact
/// value `i * t / n` rounded to the nearest integer, halves away from zero.
pub open spec fn ray_offset(i: int, t: int, n: int) -> int {
    if t >= 0 {
        (2 * i * t + n) / (2 * n)
    } else {
        -((2 * i * (-t) + n) / (2 * n))
    }
}

/// The offset from the origin of the tile reached at step `i` of the ray
/// toward offset `t`; step 0 is the origin itself.
pub open spec fn ray_delta(t: (i32, i32), i: int) -> (int, int) {
    let n = ray_steps(t);
    if n == 0 {
        (0, 0)
    } else {
        (ray_offset(i, t.0 as int, n), ray_offset(i, t.1 as int, n))
    }
}

/// The tile reached at step `i` of the ray from `origin` toward offset `t`.
pub open spec fn ray_point(origin: Position, t: (i32, i32), i: int) -> (int, int) {
    (origin.x + ray_delta(t, i).0, origin.y + ray_delta(t, i).1)
}

/// Step `i` of the ray lands inside the grid and within Euclidean distance
/// `range` of the origin.
pub open spec fn step_in_reach(
    res: TileResolution,
    origin: Position,
    t: (i32, i32),
    range: i32,
    i: int,
) -> bool {
    let d = ray_delta(t, i);
    let p = ray_point(origin, t, i);
    &&& 0 <= i <= ray_steps(t)
    &&& in_bounds(p.0, p.1, res)
    &&& range >= 0
    &&& d.0 * d.0 + d.1 * d.1 <= range * range
}

/// The tile index reached at step `i` of a ray.
pub open spec fn ray_index(res: TileResolution, origin: Position, t: (i32, i32), i: int) -> int {
    idx_of(ray_point(origin, t, i).0, ray_point(origin, t, i).1, res.width as int)
}

/// Step `i` of the ray lands on a wall.
pub open spec fn step_is_wall(
    types: Seq<TileType>,
    res: TileResolution,
    origin: Position,
    t: (i32, i32),
    i: int,
) -> bool {
    types[ray_index(res, origin, t, i)] == TileType::Wall
}

/// How many consecutive steps of the ray, from step `i` on, are seen: the
/// walk stops when it leaves the grid or the range, and a wall is seen but
/// ends the walk.
pub open spec fn ray_reach(
    types: Seq<TileType>,
    res: TileResolution,
    origin: Position,
    t: (i32, i32),
    range: i32,
    i: int,
) -> int
    decreases ray_steps(t) + 1 - i,
{
    if i < 0 || i > ray_steps(t) || !step_in_reach(res, origin, t, range, i) {
        0
    } else if step_is_wall(types, res, origin, t, i) {
        1
    } else {
        1 + ray_reach(types, res, origin, t, range, i + 1)
    }
}

/// The tile indices that one ray sees, nearest first.
pub open spec fn ray_tiles(
    types: Seq<TileType>,
    res: TileResolution,
    origin: Position,
    t: (i32, i32),
    range: i32,
) -> Seq<usize> {
    Seq::new(
        ray_reach(types, res, origin, t, range, 0) as nat,
        |j: int| ray_index(res, origin, t, j) as usize,
    )
}

proof fn lemma_reach_nonneg(
    types: Seq<TileType>,
    res: TileResolution,
    origin: Position,
    t: (i32, i32),
    range: i32,
    i: int,
)
    ensures
        ray_reach(types, res, origin, t, range, i) >= 0,
    decreases ray_steps(t) + 1 - i,
{
    if !(i < 0 || i > ray_steps(t) || !step_in_reach(res, origin, t, range, i)) && !step_is_wall(
        types,
        res,
        origin,
        t,
        i,
    ) {
        lemma_reach_nonneg(types, res, origin, t, range, i + 1);
    }
}

/// When every step from `k` up to `i` is in reach and not a wall, the walk
/// from `k` passes them all.
proof fn lemma_reach_skip(
    types: Seq<TileType>,
    res: TileResolution,
    origin: Position,
    t: (i32, i32),
    range: i32,
    k: int,
    i: int,
)
    requires
        0 <= k <= i,
        forall|j: int|
            k <= j < i ==> step_in_reach(res, origin, t, range, j) && !step_is_wall(
                types,
                res,
                origin,
                t,
                j,
            ),
    ensures
        ray_reach(types, res, origin, t, range, k) == (i - k) + ray_reach(
            types,
            res,
            origin,
            t,
            range,
            i,
        ),
    decreases i - k,
{
    if k < i {
        lemma_reach_skip(types, res, origin, t, range, k + 1, i);
    }
}

/// No tile beyond a wall on a ray is seen by that ray: if step `w` of the
/// ray lands on a wall, the ray sees at most the steps `0..=w`.
pub proof fn lemma_ray_stops_at_wall(
    types: Seq<TileType>,
    res: TileResolution,
    origin: Position,
    t: (i32, i32),
    range: i32,
    w: int,
)
    requires
        0 <= w <= ray_steps(t),
        in_bounds(ray_point(origin, t, w).0, ray_point(origin, t, w).1, res),
        step_is_wall(types, res, origin, t, w),
    ensures
        ray_tiles(types, res, origin, t, range).len() <= w + 1,
{
    lemma_reach_bounded_by_wall(types, res, origin, t, range, 0, w);
    lemma_reach_nonneg(types, res, origin, t, range, 0);
}

proof fn lemma_reach_bounded_by_wall(
    types: Seq<TileType>,
    res: TileResolution,
    origin: Position,
    t: (i32, i32),
    range: i32,
    i: int,
    w: int,
)
    requires
        0 <= i <= w <= ray_steps(t),
        step_is_wall(types, res, origin, t, w),
    ensures
        ray_reach(types, res, origin, t, range, i) <= w + 1 - i,
    decreases w - i,
{
    if i < w {
        lemma_reach_bounded_by_wall(types, res, origin, t, range, i + 1, w);
    }
}

proof fn lemma_offset_bound(i: int, t: int, n: int)
    requires
        0 <= i <= n,
        0 < n,
        abs(t) <= n,
    ensures
        abs(ray_offset(i, t, n)) <= abs(t),
{
    let a = abs(t);
    assert(0 <= 2 * i * a + n < 2 * n * (a + 1)) by (nonlinear_arith)
        requires
            0 <= i <= n,
            0 < n,
            0 <= a,
    ;
    let q = (2 * i * a + n) / (2 * n);
    assert(0 <= q <= a) by (nonlinear_arith)
        requires
            0 <= 2 * i * a + n < 2 * n * (a + 1),
            q == (2 * i * a + n) / (2 * n),
            0 < n,
    ;
}

/// `ray_offset` computed exactly, on magnitudes that fit an `i128`.
fn axis_offset(i: i128, t: i32, n: i128) -> (r: i128)
    requires
        0 <= i <= n,
        0 < n <= 0x8000_0000,
    ensures
        r == ray_offset(i as int, t as int, n as int),
{
    let a: i128 = if t >= 0 {
        t as i128
    } else {
        -(t as i128)
    };
    assert(0 <= 2 * i * a <= 2 * 0x8000_0000 * 0x8000_0000) by (nonlinear_arith)
        requires
            0 <= i <= 0x8000_0000,
            0 <= a <= 0x8000_0000,
    ;
    let q: i128 = (2 * i * a + n) / (2 * n);
    if t >= 0 {
        q
    } else {
        -q
    }
}

/// Walks one ray from `origin` toward offset `target` and returns the indices
/// of the tiles it sees, nearest first.
pub fn cast_ray(grid: &TileGrid, origin: Position, target: (i32, i32), range: i32) -> (r: Vec<
    usize,
>)
    requires
        grid.wf(),
    ensures
        r@ == ray_tiles(tile_types(grid.tiles@), grid.tile_res, origin, target, range),
        forall|j: int| 0 <= j < r@.len() ==> #[trigger] r@[j] < grid.tiles@.len(),
{
    let ghost types = tile_types(grid.tiles@);
    let res = grid.tile_res;
    let ax: i128 = if target.0 >= 0 {
        target.0 as i128
    } else {
        -(target.0 as i128)
    };
    let ay: i128 = if target.1 >= 0 {
        target.1 as i128
    } else {
        -(target.1 as i128)
    };
    let n: i128 = if ax >= ay {
        ax
    } else {
        ay
    };
    let mut seen: Vec<usize> = Vec::new();
    let mut i: i128 = 0;
    loop
        invariant_except_break
            0 <= i <= n + 1,
            n == ray_steps(target),
            grid.wf(),
            res == grid.tile_res,
            types == tile_types(grid.tiles@),
            seen@.len() == i,
            forall|j: int| 0 <= j < i ==> #[trigger] seen@[j] < grid.tiles@.len(),
            forall|j: int|
                0 <= j < i ==> #[trigger] seen@[j] == ray_index(res, origin, target, j) as usize,
            forall|j: int|
                0 <= j < i ==> step_in_reach(res, origin, target, range, j) && !step_is_wall(
                    types,
                    res,
                    origin,
                    target,
                    j,
                ),
        ensures
            seen@ == ray_tiles(types, res, origin, target, range),
            forall|j: int| 0 <= j < seen@.len() ==> #[trigger] seen@[j] < grid.tiles@.len(),
        decreases n + 1 - i,
    {
        if i > n {
            proof {
                lemma_reach_skip(types, res, origin, target, range, 0, i as int);
            }
            assert(seen@ =~= ray_tiles(types, res, origin, target, range));
            break;
        }
        let (dx, dy): (i128, i128) = if n == 0 {
            (0, 0)
        } else {
            (axis_offset(i, target.0, n), axis_offset(i, target.1, n))
        };
        assert(dx == ray_delta(target, i as int).0 && dy == ray_delta(target, i as int).1);
        proof {
            if n > 0 {
                lemma_offset_bound(i as int, target.0 as int, n as int);
                lemma_offset_bound(i as int, target.1 as int, n as int);
            }
        }
        assert(0 <= dx * dx <= 0x8000_0000 * 0x8000_0000 && 0 <= dy * dy <= 0x8000_0000
            * 0x8000_0000 && 0 <= range * range <= 0x8000_0000 * 0x8000_0000) by (nonlinear_arith)
            requires
                -0x8000_0000 <= dx <= 0x8000_0000,
                -0x8000_0000 <= dy <= 0x8000_0000,
                -0x8000_0000 <= range <= 0x8000_0000,
        ;
        let x: i128 = origin.x as i128 + dx;
        let y: i128 = origin.y as i128 + dy;
        proof {
            lemma_reach_skip(types, res, origin, target, range, 0, i as int);
        }
        let dist2: i128 = dx * dx + dy * dy;
        let range2: i128 = (range as i128) * (range as i128);
        if x < 0 || x >= res.width as i128 || y < 0 || y >= res.height as i128 || range < 0
            || dist2 > range2 {
            assert(!step_in_reach(res, origin, target, range, i as int));
            assert(seen@ =~= ray_tiles(types, res, origin, target, range));
            break;
        }
        proof {
            lemma_index_in_grid(x as int, y as int, res.width as int, res.height as int);
        }
        let idx = get_tile_idx(x as usize, y as usize, res.width);
        seen.push(idx);
        if grid.tiles[idx].tiletype == TileType::Wall {
            assert(seen@ =~= ray_tiles(types, res, origin, target, range));
            break;
        }
        i = i + 1;
    }
    seen
}

/// Adding between 0 and `d` to a nonnegative numerator raises its quotient
/// by `d` by at most one.
proof fn lemma_quotient_steps(a: int, e: int, d: int)
    requires
        0 <= a,
        0 <= e <= d,
        0 < d,
    ensures
        a / d <= (a + e) / d <= a / d + 1,
{
    lemma_fundamental_div_mod(a, d);
    lemma_fundamental_div_mod(a + e, d);
    lemma_mod_bound(a, d);
    lemma_mod_bound(a + e, d);
    let q = a / d;
    let q2 = (a + e) / d;
    assert(q <= q2 <= q + 1) by (nonlinear_arith)
        requires
            a == d * q + a % d,
            a + e == d * q2 + (a + e) % d,
            0 <= a % d < d,
            0 <= (a + e) % d < d,
            0 <= e <= d,
            0 < d,
    ;
}

/// Along one axis, consecutive steps of a ray move by at most one tile.
proof fn lemma_offset_steps(i: int, t: int, n: int)
    requires
        0 <= i < n,
        abs(t) <= n,
    ensures
        -1 <= ray_offset(i + 1, t, n) - ray_offset(i, t, n) <= 1,
{
    let a = abs(t);
    assert(0 <= 2 * i * a + n && 2 * (i + 1) * a + n == (2 * i * a + n) + 2 * a) by (nonlinear_arith)
        requires
            0 <= i,
            0 <= a,
            0 < n,
    ;
    lemma_quotient_steps(2 * i * a + n, 2 * a, 2 * n);
}

/// Consecutive steps of a ray land on tiles that touch, sides or corners.
proof fn lemma_ray_steps_touch(t: (i32, i32), i: int)
    requires
        0 <= i < ray_steps(t),
    ensures
        -1 <= ray_delta(t, i + 1).0 - ray_delta(t, i).0 <= 1,
        -1 <= ray_delta(t, i + 1).1 - ray_delta(t, i).1 <= 1,
{
    let n = ray_steps(t);
    lemma_offset_steps(i, t.0 as int, n);
    lemma_offset_steps(i, t.1 as int, n);
}

/// The box `[x0, x1] x [y0, y1]` of a grid, whose border tiles are all walls.
pub open spec fn walled_box(types: Seq<TileType>, res: TileResolution, x0: int, y0: int, x1: int, y1: int) -> bool {
    &&& 0 <= x0 < x1 < res.width
    &&& 0 <= y0 < y1 < res.height
    &&& types.len() == res.width * res.height
    &&& res.width * res.height <= usize::MAX
    &&& forall|x: int, y: int|
        x0 <= x <= x1 && y0 <= y <= y1 && (x == x0 || x == x1 || y == y0 || y == y1) ==> types[idx_of(
            x,
            y,
            res.width as int,
        )] == TileType::Wall
}

pub open spec fn in_box(p: (int, int), x0: int, y0: int, x1: int, y1: int) -> bool {
    x0 <= p.0 <= x1 && y0 <= p.1 <= y1
}

proof fn lemma_walk_stays_in_box(
    types: Seq<TileType>,
    res: TileResolution,
    origin: Position,
    t: (i32, i32),
    range: i32,
    x0: int,
    y0: int,
    x1: int,
    y1: int,
    i: int,
    j: int,
)
    requires
        walled_box(types, res, x0, y0, x1, y1),
        0 <= i <= j < i + ray_reach(types, res, origin, t, range, i),
        in_box(ray_point(origin, t, i), x0, y0, x1, y1),
    ensures
        in_box(ray_point(origin, t, j), x0, y0, x1, y1),
    decreases j - i,
{
    if j > i {
        let p = ray_point(origin, t, i);
        // Step `i` is seen and the walk goes on, so it is no wall: it lies
        // strictly inside the box, and the next step touches it.
        assert(!step_is_wall(types, res, origin, t, i));
        assert(ray_reach(types, res, origin, t, range, i) == 1 + ray_reach(types, res, origin, t, range, i + 1));
        assert(ray_reach(types, res, origin, t, range, i + 1) > 0);
        assert(i + 1 <= ray_steps(t));
        assert(p.0 != x0 && p.0 != x1 && p.1 != y0 && p.1 != y1);
        lemma_ray_steps_touch(t, i);
        lemma_walk_stays_in_box(types, res, origin, t, range, x0, y0, x1, y1, i + 1, j);
    }
}

/// No ray from inside a box ringed by walls sees past the ring: every tile
/// any of the rays sees lies in the box, its wall ring included.
pub proof fn lemma_view_stays_in_walled_box(
    types: Seq<TileType>,
    res: TileResolution,
    origin: Position,
    range: i32,
    rays: Seq<(i32, i32)>,
    x0: int,
    y0: int,
    x1: int,
    y1: int,
)
    requires
        walled_box(types, res, x0, y0, x1, y1),
        x0 <= origin.x <= x1,
        y0 <= origin.y <= y1,
    ensures
        forall|k: int, j: int|
            0 <= k < rays.len() && 0 <= j < ray_reach(types, res, origin, rays[k], range, 0) ==> in_box(
                #[trigger] ray_point(origin, rays[k], j),
                x0,
                y0,
                x1,
                y1,
            ),
{
    assert forall|k: int, j: int|
        0 <= k < rays.len() && 0 <= j < ray_reach(types, res, origin, rays[k], range, 0) implies in_box(
        #[trigger] ray_point(origin, rays[k], j),
        x0,
        y0,
        x1,
        y1,
    ) by {
        assert(ray_point(origin, rays[k], 0) == (origin.x as int, origin.y as int)) by {
            let n = ray_steps(rays[k]);
            if n > 0 {
                vstd::arithmetic::div_mod::lemma_fundamental_div_mod_converse(n, 2 * n, 0, n);
                assert(2 * 0 * (rays[k].0 as int) == 0 && 2 * 0 * (-(rays[k].0 as int)) == 0)
                    by (nonlinear_arith);
                assert(2 * 0 * (rays[k].1 as int) == 0 && 2 * 0 * (-(rays[k].1 as int)) == 0)
                    by (nonlinear_arith);
                assert(ray_offset(0, rays[k].0 as int, n) == 0);
                assert(ray_offset(0, rays[k].1 as int, n) == 0);
            }
        }
        lemma_walk_stays_in_box(types, res, origin, rays[k], range, x0, y0, x1, y1, 0, j);
    }
}

/// Seen from inside a box ringed by walls, every tile that a visibility pass
/// marks visible (and that the viewshed lists) lies in the box, its wall
/// ring included.
pub proof fn lemma_sighted_in_walled_box(
    types: Seq<TileType>,
    res: TileResolution,
    origin: Position,
    range: i32,
    rays: Seq<(i32, i32)>,
    x0: int,
    y0: int,
    x1: int,
    y1: int,
)
    requires
        walled_box(types, res, x0, y0, x1, y1),
        x0 <= origin.x <= x1,
        y0 <= origin.y <= y1,
    ensures
        forall|v: usize|
            #[trigger] sighted(types, res, origin, range, rays, v) ==> in_box(
                coords_of(v as int, res.width as int),
                x0,
                y0,
                x1,
                y1,
            ),
{
    lemma_view_stays_in_walled_box(types, res, origin, range, rays, x0, y0, x1, y1);
    assert forall|v: usize| #[trigger] sighted(types, res, origin, range, rays, v) implies in_box(
        coords_of(v as int, res.width as int),
        x0,
        y0,
        x1,
        y1,
    ) by {
        let k = choose|k: int|
            0 <= k < rays.len() && #[trigger] ray_tiles(types, res, origin, rays[k], range).contains(v);
        let seen = ray_tiles(types, res, origin, rays[k], range);
        let j = choose|j: int| 0 <= j < seen.len() && seen[j] == v;
        let p = ray_point(origin, rays[k], j);
        lemma_reach_nonneg(types, res, origin, rays[k], range, 0);
        assert(0 <= j < ray_reach(types, res, origin, rays[k], range, 0));
        assert(in_box(p, x0, y0, x1, y1));
        let w = res.width as int;
        let h = res.height as int;
        lemma_index_in_grid(p.0, p.1, w, h);
        assert(seen[j] == ray_index(res, origin, rays[k], j) as usize);
        lemma_tile_index_round_trip(p.0, p.1, idx_of(p.0, p.1, w), w, h);
        assert(v as int == idx_of(p.0, p.1, w));
    }
}

/// What a sequence holds after a push: what it held, and the new element.
proof fn lemma_push_contains(s: Seq<usize>, x: usize)
    ensures
        forall|v: usize| #[trigger] s.push(x).contains(v) <==> (s.contains(v) || v == x),
{
    assert forall|v: usize| #[trigger] s.push(x).contains(v) <==> (s.contains(v) || v == x) by {
        if s.push(x).contains(v) && v != x {
            let j = choose|j: int| 0 <= j < s.len() + 1 && s.push(x)[j] == v;
            assert(s[j] == v);
        }
        if v == x {
            assert(s.push(x)[s.len() as int] == v);
        }
        if s.contains(v) {
            let j = choose|j: int| 0 <= j < s.len() && s[j] == v;
            assert(s.push(x)[j] == v);
        }
    }
}

/// The visibility of a tile after one pass: sighted tiles become visible,
/// visible ones that are not sighted again are remembered, and the rest keep
/// their state.
pub open spec fn after_pass(v: VisibleType, sighted: bool) -> VisibleType {
    if sighted {
        VisibleType::Visible
    } else {
        match v {
            VisibleType::Visible => VisibleType::Memoried,
            _ => v,
        }
    }
}

/// A tile after one pass; only its visibility changes.
pub open spec fn tile_after_pass(t: Tile, sighted: bool) -> Tile {
    Tile { visibletype: after_pass(t.visibletype, sighted), ..t }
}

/// Tile index `idx` is seen by one of the first `limit` rays.
pub open spec fn sighted_by(
    types: Seq<TileType>,
    res: TileResolution,
    origin: Position,
    range: i32,
    rays: Seq<(i32, i32)>,
    limit: int,
    idx: usize,
) -> bool {
    exists|k: int|
        0 <= k < limit && #[trigger] ray_tiles(types, res, origin, rays[k], range).contains(idx)
}

/// Tile index `idx` is seen by one of the rays.
pub open spec fn sighted(
    types: Seq<TileType>,
    res: TileResolution,
    origin: Position,
    range: i32,
    rays: Seq<(i32, i32)>,
    idx: usize,
) -> bool {
    sighted_by(types, res, origin, range, rays, rays.len() as int, idx)
}

/// One visibility pass from `origin`: every visible tile is first aged to
/// remembered, then each ray in `rays` (given as offsets from the origin)
/// is walked and the tiles it sees are marked visible. The viewshed's list is
/// replaced by the set of tiles seen, each listed once.
pub fn get_viewshed(
    grid: &mut TileGrid,
    origin: Position,
    viewshed: &mut Viewshed,
    rays: &Vec<(i32, i32)>,
)
    requires
        old(grid).wf(),
    ensures
        final(grid).wf(),
        final(grid).tile_res == old(grid).tile_res,
        final(grid).rooms@ == old(grid).rooms@,
        final(grid).tiles@.len() == old(grid).tiles@.len(),
        forall|i: int|
            0 <= i < old(grid).tiles@.len() ==> #[trigger] final(grid).tiles@[i] == tile_after_pass(
                old(grid).tiles@[i],
                sighted(
                    tile_types(old(grid).tiles@),
                    old(grid).tile_res,
                    origin,
                    old(viewshed).range,
                    rays@,
                    i as usize,
                ),
            ),
        final(viewshed).range == old(viewshed).range,
        final(viewshed).visible_tiles@.no_duplicates(),
        forall|v: usize|
            #[trigger] final(viewshed).visible_tiles@.contains(v) <==> (v < old(grid).tiles@.len()
                && sighted(
                tile_types(old(grid).tiles@),
                old(grid).tile_res,
                origin,
                old(viewshed).range,
                rays@,
                v,
            )),
{
    let ghost old_tiles = grid.tiles@;
    let ghost types = tile_types(grid.tiles@);
    let ghost res = grid.tile_res;
    let ghost rooms = grid.rooms@;
    let range = viewshed.range;
    let n: usize = grid.tiles.len();
    let mut i: usize = 0;
    while i < n
        invariant
            i <= n,
            n == old_tiles.len(),
            grid.wf(),
            grid.tile_res == res,
            grid.rooms@ == rooms,
            grid.tiles@.len() == n,
            forall|k: int| 0 <= k < i ==> #[trigger] grid.tiles@[k] == tile_after_pass(old_tiles[k], false),
            forall|k: int| i <= k < n ==> #[trigger] grid.tiles@[k] == old_tiles[k],
        decreases n - i,
    {
        let t = grid.tiles[i];
        if t.visibletype == VisibleType::Visible {
            grid.tiles.set(i, Tile { visibletype: VisibleType::Memoried, ..t });
        }
        i = i + 1;
    }
    assert(tile_types(grid.tiles@) =~= types);
    viewshed.visible_tiles = Vec::new();
    let mut k: usize = 0;
    while k < rays.len()
        invariant
            k <= rays.len(),
            n == old_tiles.len(),
            types == tile_types(old_tiles),
            range == viewshed.range,
            grid.wf(),
            grid.tile_res == res,
            grid.rooms@ == rooms,
            grid.tiles@.len() == n,
            tile_types(grid.tiles@) == types,
            forall|q: int|
                0 <= q < n ==> #[trigger] grid.tiles@[q] == tile_after_pass(
                    old_tiles[q],
                    sighted_by(types, res, origin, range, rays@, k as int, q as usize),
                ),
            viewshed.visible_tiles@.no_duplicates(),
            forall|v: usize|
                #[trigger] viewshed.visible_tiles@.contains(v) <==> (v < n && sighted_by(
                    types,
                    res,
                    origin,
                    range,
                    rays@,
                    k as int,
                    v,
                )),
        decreases rays.len() - k,
    {
        let seen = cast_ray(grid, origin, rays[k], range);
        let ghost seen_k = ray_tiles(types, res, origin, rays@[k as int], range);
        assert(seen@ == seen_k);
        let mut m: usize = 0;
        while m < seen.len()
            invariant
                m <= seen@.len(),
                seen@ == seen_k,
                seen_k == ray_tiles(types, res, origin, rays@[k as int], range),
                forall|j: int| 0 <= j < seen@.len() ==> #[trigger] seen@[j] < n,
                k < rays.len(),
                n == old_tiles.len(),
                types == tile_types(old_tiles),
                range == viewshed.range,
                grid.wf(),
                grid.tile_res == res,
                grid.rooms@ == rooms,
                grid.tiles@.len() == n,
                tile_types(grid.tiles@) == types,
                forall|q: int|
                    0 <= q < n ==> #[trigger] grid.tiles@[q] == tile_after_pass(
                        old_tiles[q],
                        sighted_by(types, res, origin, range, rays@, k as int, q as usize)
                            || seen@.subrange(0, m as int).contains(q as usize),
                    ),
                viewshed.visible_tiles@.no_duplicates(),
                forall|v: usize|
                    #[trigger] viewshed.visible_tiles@.contains(v) <==> (v < n && (sighted_by(
                        types,
                        res,
                        origin,
                        range,
                        rays@,
                        k as int,
                        v,
                    ) || seen@.subrange(0, m as int).contains(v))),
            decreases seen@.len() - m,
        {
            let idx = seen[m];
            let t = grid.tiles[idx];
            let ghost pre = seen@.subrange(0, m as int);
            let ghost list0 = viewshed.visible_tiles@;
            let ghost tiles0 = grid.tiles@;
            assert(seen@.subrange(0, m + 1) =~= pre.push(idx));
            proof {
                lemma_push_contains(pre, idx);
            }
            assert(grid.tiles@[idx as int] == t);
            if t.visibletype != VisibleType::Visible {
                assert(!list0.contains(idx));
                grid.tiles.set(idx, Tile { visibletype: VisibleType::Visible, ..t });
                viewshed.visible_tiles.push(idx);
                assert(viewshed.visible_tiles@ =~= list0.push(idx));
                proof {
                    lemma_push_contains(list0, idx);
                }
                assert forall|a: int, b: int|
                    0 <= a < list0.len() + 1 && 0 <= b < list0.len() + 1 && a != b implies
                        list0.push(idx)[a] != list0.push(idx)[b] by {
                    if a < list0.len() && b < list0.len() {
                        assert(list0[a] != list0[b]);
                    } else if a < list0.len() {
                        assert(list0.contains(list0[a]));
                    } else {
                        assert(list0.contains(list0[b]));
                    }
                }
            } else {
                assert(sighted_by(types, res, origin, range, rays@, k as int, idx) || pre.contains(idx));
            }
            assert(idx < n);
            assert forall|v: usize|
                #[trigger] viewshed.visible_tiles@.contains(v) <==> (v < n && (sighted_by(
                    types,
                    res,
                    origin,
                    range,
                    rays@,
                    k as int,
                    v,
                ) || pre.push(idx).contains(v))) by {
                if v != idx {
                    assert(viewshed.visible_tiles@.contains(v) <==> list0.contains(v));
                }
            }
            m = m + 1;
            assert(tile_types(grid.tiles@) =~= types);
        }
        assert(seen@.subrange(0, m as int) =~= seen@);
        proof {
            assert forall|v: usize|
                sighted_by(types, res, origin, range, rays@, k + 1, v) <==> (sighted_by(
                    types,
                    res,
                    origin,
                    range,
                    rays@,
                    k as int,
                    v,
                ) || seen_k.contains(v)) by {
                if sighted_by(types, res, origin, range, rays@, k + 1, v) {
                    let kk = choose|kk: int|
                        0 <= kk < k + 1 && #[trigger] ray_tiles(
                            types,
                            res,
                            origin,
                            rays@[kk],
                            range,
                        ).contains(v);
                    if kk < k {
                        assert(sighted_by(types, res, origin, range, rays@, k as int, v));
                    }
                }
                if seen_k.contains(v) {
                    assert(ray_tiles(types, res, origin, rays@[k as int], range).contains(v));
                }
            }
        }
        k = k + 1;
    }
}

/// The visibility of a tile after a run of passes, the first pass first;
/// `sightings[k]` says whether pass `k` saw the tile.
pub open spec fn after_passes(v: VisibleType, sightings: Seq<bool>) -> VisibleType
    decreases sightings.len(),
{
    if sightings.len() == 0 {
        v
    } else {
        after_passes(after_pass(v, sightings[0]), sightings.subrange(1, sightings.len() as int))
    }
}

/// Memory of a seen tile: a visible tile that the next pass does not see
/// becomes remembered; a tile that has been seen never becomes undiscovered
/// again, whatever later passes see; and one that no later pass sees ends
/// remembered.
pub proof fn lemma_memory_persists(v: VisibleType, sightings: Seq<bool>)
    ensures
        v == VisibleType::Visible && sightings.len() > 0 && !sightings[0] ==> after_pass(
            v,
            sightings[0],
        ) == VisibleType::Memoried,
        v != VisibleType::Undiscovered ==> after_passes(v, sightings) != VisibleType::Undiscovered,
        v != VisibleType::Undiscovered && sightings.len() > 0 && (forall|k: int|
            0 <= k < sightings.len() ==> !#[trigger] sightings[k]) ==> after_passes(v, sightings)
            == VisibleType::Memoried,
    decreases sightings.len(),
{
    if sightings.len() > 0 {
        let rest = sightings.subrange(1, sightings.len() as int);
        lemma_memory_persists(after_pass(v, sightings[0]), rest);
        if rest.len() > 0 {
            assert(rest[0] == sightings[1]);
        }
        assert forall|k: int| 0 <= k < rest.len() implies rest[k] == sightings[k + 1] by {}
    }
}

/// Indices of the tiles in a given visibility state.
pub open spec fn tiles_in_state(tiles: Seq<Tile>, v: VisibleType) -> Set<int> {
    Set::new(|i: int| 0 <= i < tiles.len() && tiles[i].visibletype == v)
}

/// The visible, remembered and undiscovered tiles partition the grid: the
/// three sets are pairwise disjoint and together hold every tile index.
pub proof fn lemma_visibility_partition(tiles: Seq<Tile>)
    ensures
        tiles_in_state(tiles, VisibleType::Visible).disjoint(
            tiles_in_state(tiles, VisibleType::Memoried),
        ),
        tiles_in_state(tiles, VisibleType::Visible).disjoint(
            tiles_in_state(tiles, VisibleType::Undiscovered),
        ),
        tiles_in_state(tiles, VisibleType::Memoried).disjoint(
            tiles_in_state(tiles, VisibleType::Undiscovered),
        ),
        tiles_in_state(tiles, VisibleType::Visible).union(
            tiles_in_state(tiles, VisibleType::Memoried),
        ).union(tiles_in_state(tiles, VisibleType::Undiscovered)) == Set::new(
            |i: int| 0 <= i < tiles.len(),
        ),
{
    assert(tiles_in_state(tiles, VisibleType::Visible).union(
        tiles_in_state(tiles, VisibleType::Memoried),
    ).union(tiles_in_state(tiles, VisibleType::Undiscovered)) =~= Set::new(
        |i: int| 0 <= i < tiles.len(),
    ));
}

/// Entry `k` of the ring of offsets at Chebyshev distance `r > 0`: first the
/// top and bottom rows in pairs, left to right, then the two side columns in
/// pairs, bottom to top, corners excluded.
pub open spec fn ring_entry(r: int, k: int) -> (i32, i32) {
    let base = 2 * (2 * r + 1);
    if k < base {
        let j = k / 2;
        if k % 2 == 0 {
            ((j - r) as i32, r as i32)
        } else {
            ((j - r) as i32, (-r) as i32)
        }
    } else {
        let j = (k - base) / 2;
        if (k - base) % 2 == 0 {
            (r as i32, (j + 1 - r) as i32)
        } else {
            ((-r) as i32, (j + 1 - r) as i32)
        }
    }
}

/// The offsets at Chebyshev distance `r` from the origin, in the order
/// `ray_targets` lists them.
pub open spec fn ring_seq(r: i32) -> Seq<(i32, i32)> {
    if r < 0 {
        Seq::empty()
    } else if r == 0 {
        seq![(0i32, 0i32)]
    } else {
        Seq::new((8 * r) as nat, |k: int| ring_entry(r as int, k))
    }
}

/// The ray offsets on the square ring at Chebyshev distance `range` from
/// the origin: rays toward them reach every tile of the square around it.
pub fn ray_targets(range: i32) -> (r: Vec<(i32, i32)>)
    ensures
        r@ == ring_seq(range),
        forall|k: int| 0 <= k < r@.len() ==> ray_steps(#[trigger] r@[k]) == range,
        forall|t: (i32, i32)| ray_steps(t) == range ==> #[trigger] r@.contains(t),
{
    let mut out: Vec<(i32, i32)> = Vec::new();
    if range < 0 {
        assert(out@ =~= ring_seq(range));
        return out;
    }
    if range == 0 {
        out.push((0, 0));
        assert(out@ =~= ring_seq(range));
        proof {
            assert forall|t: (i32, i32)| ray_steps(t) == range implies #[trigger] out@.contains(t) by {
                assert(t == (0i32, 0i32));
                assert(out@[0] == t);
            }
        }
        return out;
    }
    let mut a: i32 = -range;
    loop
        invariant_except_break
            0 < range,
            -range <= a <= range,
            out@.len() == 2 * (a + range),
            forall|j: int|
                0 <= j < a + range ==> #[trigger] out@[2 * j] == ((j - range) as i32, range),
            forall|j: int|
                0 <= j < a + range ==> #[trigger] out@[2 * j + 1] == ((j - range) as i32, (-range) as i32),
        ensures
            out@.len() == 2 * (2 * range + 1),
            forall|j: int|
                0 <= j < 2 * range + 1 ==> #[trigger] out@[2 * j] == ((j - range) as i32, range),
            forall|j: int|
                0 <= j < 2 * range + 1 ==> #[trigger] out@[2 * j + 1] == ((j - range) as i32, (-range) as i32),
        decreases range - a,
    {
        out.push((a, range));
        out.push((a, -range));
        if a == range {
            break;
        }
        a = a + 1;
    }
    let ghost base: int = 2 * (2 * range + 1);
    let mut b: i32 = 1 - range;
    while b < range
        invariant
            0 < range,
            1 - range <= b <= range,
            base == 2 * (2 * range + 1),
            out@.len() == base + 2 * (b - 1 + range),
            forall|j: int|
                0 <= j < 2 * range + 1 ==> #[trigger] out@[2 * j] == ((j - range) as i32, range),
            forall|j: int|
                0 <= j < 2 * range + 1 ==> #[trigger] out@[2 * j + 1] == ((j - range) as i32, (-range) as i32),
            forall|j: int|
                0 <= j < b - 1 + range ==> #[trigger] out@[base + 2 * j] == (range, (j + 1 - range) as i32),
            forall|j: int|
                0 <= j < b - 1 + range ==> #[trigger] out@[base + 2 * j + 1] == ((-range) as i32, (j + 1 - range) as i32),
        decreases range - b,
    {
        out.push((range, b));
        out.push((-range, b));
        b = b + 1;
    }
    proof {
        assert forall|k: int| 0 <= k < out@.len() implies ray_steps(#[trigger] out@[k]) == range by {
            if k < base {
                let j = k / 2;
                if k % 2 == 0 {
                    assert(out@[2 * j] == ((j - range) as i32, range));
                } else {
                    assert(out@[2 * j + 1] == ((j - range) as i32, (-range) as i32));
                }
            } else {
                let j = (k - base) / 2;
                if (k - base) % 2 == 0 {
                    assert(out@[base + 2 * j] == (range, (j + 1 - range) as i32));
                } else {
                    assert(out@[base + 2 * j + 1] == ((-range) as i32, (j + 1 - range) as i32));
                }
            }
        }
        assert forall|t: (i32, i32)| ray_steps(t) == range implies #[trigger] out@.contains(t) by {
            if t.1 == range {
                let j = t.0 + range;
                assert(out@[2 * j] == t);
            } else if t.1 == -range {
                let j = t.0 + range;
                assert(out@[2 * j + 1] == t);
            } else if t.0 == range {
                let j = t.1 - 1 + range;
                assert(out@[base + 2 * j] == t);
            } else {
                let j = t.1 - 1 + range;
                assert(out@[base + 2 * j + 1] == t);
            }
        }
        assert forall|k: int| 0 <= k < out@.len() implies out@[k] == ring_entry(range as int, k) by {
            if k < base {
                let j = k / 2;
                if k % 2 == 0 {
                    assert(out@[2 * j] == ((j - range) as i32, range));
                } else {
                    assert(out@[2 * j + 1] == ((j - range) as i32, (-range) as i32));
                }
            } else {
                let j = (k - base) / 2;
                if (k - base) % 2 == 0 {
                    assert(out@[base + 2 * j] == (range, (j + 1 - range) as i32));
                } else {
                    assert(out@[base + 2 * j + 1] == ((-range) as i32, (j + 1 - range) as i32));
                }
            }
        }
        assert(out@ =~= ring_seq(range));
    }
    out
}

/// How a tile is drawn: its glyph, color and opacity (255 is opaque).
#[derive(Clone, Copy, Debug, PartialEq, Eq, Structural)]
pub struct TileStyle {
    pub glyph: char,
    pub red: u8,
    pub green: u8,
    pub blue: u8,
    pub alpha: u8,
}

/// The style of a tile: `#` for a wall and `.` for a floor; visible tiles
/// in opaque green, remembered ones in half-transparent white, and
/// undiscovered ones not drawn. A visible floor under a monster is not drawn
/// either, so that the monster's glyph shows.
pub open spec fn style_of(t: Tile, occupied: bool) -> TileStyle {
    let glyph = if t.tiletype == TileType::Wall {
        '#'
    } else {
        '.'
    };
    match t.visibletype {
        VisibleType::Visible => if occupied && t.tiletype == TileType::Floor {
            TileStyle { glyph, red: 0, green: 255, blue: 0, alpha: 0 }
        } else {
            TileStyle { glyph, red: 0, green: 255, blue: 0, alpha: 255 }
        },
        VisibleType::Memoried => TileStyle { glyph, red: 255, green: 255, blue: 255, alpha: 128 },
        VisibleType::Undiscovered => TileStyle { glyph, red: 255, green: 255, blue: 255, alpha: 0 },
    }
}

/// The style in which to draw `tile`; `occupied` says whether a monster
/// stands on it.
pub fn tile_style(tile: &Tile, occupied: bool) -> (s: TileStyle)
    ensures
        s == style_of(*tile, occupied),
{
    let glyph = if tile.tiletype == TileType::Wall {
        '#'
    } else {
        '.'
    };
    match tile.visibletype {
        VisibleType::Visible => {
            let alpha: u8 = if occupied && tile.tiletype == TileType::Floor {
                0
            } else {
                255
            };
            TileStyle { glyph, red: 0, green: 255, blue: 0, alpha }
        },
        VisibleType::Memoried => TileStyle { glyph, red: 255, green: 255, blue: 255, alpha: 128 },
        VisibleType::Undiscovered => TileStyle { glyph, red: 255, green: 255, blue: 255, alpha: 0 },
    }
}

} // verus!
