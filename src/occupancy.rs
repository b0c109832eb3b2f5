use crate::components::{Monster, Position, Tile, TileType};
use crate::resources::{
    get_tile_idx, idx_of, in_bounds, lemma_index_in_grid, lemma_index_injective, TileGrid,
    TileResolution,
};
use vstd::prelude::*;

verus! {

/// Index of the tile under a position.
pub open spec fn pos_index(p: Position, w: int) -> int {
    idx_of(p.x as int, p.y as int, w)
}

pub open spec fn pos_in_bounds(p: Position, res: TileResolution) -> bool {
    in_bounds(p.x as int, p.y as int, res)
}

/// Every monster stands inside the grid.
pub open spec fn monsters_in_bounds(monsters: Seq<Monster>, res: TileResolution) -> bool {
    forall|k: int| 0 <= k < monsters.len() ==> pos_in_bounds(#[trigger] monsters[k].pos, res)
}

/// Some monster of the list stands on tile index `i`.
pub open spec fn monster_on(monsters: Seq<Monster>, w: int, i: int) -> bool {
    exists|k: int| 0 <= k < monsters.len() && #[trigger] pos_index(monsters[k].pos, w) == i
}

/// Each monster's recorded tile brought in line with its position.
pub open spec fn with_occupied(monsters: Seq<Monster>, w: int) -> Seq<Monster> {
    Seq::new(
        monsters.len(),
        |k: int| Monster { occupied_tile: pos_index(monsters[k].pos, w) as usize, ..monsters[k] },
    )
}

/// The tiles with `blocked` recomputed from scratch: a tile blocks when it is
/// a wall, or the player or a monster stands on it.
pub open spec fn occupancy(
    tiles: Seq<Tile>,
    w: int,
    player: Position,
    monsters: Seq<Monster>,
) -> Seq<Tile> {
    Seq::new(
        tiles.len(),
        |i: int|
            Tile {
                blocked: tiles[i].tiletype == TileType::Wall || i == pos_index(player, w)
                    || monster_on(monsters, w, i),
                ..tiles[i]
            },
    )
}

/// Clears every occupancy-derived `blocked` flag: afterwards exactly the
/// walls block.
pub fn unset_occupied_tiles(grid: &mut TileGrid)
    requires
        old(grid).wf(),
    ensures
        final(grid).wf(),
        final(grid).tile_res == old(grid).tile_res,
        final(grid).rooms@ == old(grid).rooms@,
        final(grid).tiles@.len() == old(grid).tiles@.len(),
        forall|i: int|
            0 <= i < old(grid).tiles@.len() ==> #[trigger] final(grid).tiles@[i] == (Tile {
                blocked: old(grid).tiles@[i].tiletype == TileType::Wall,
                ..old(grid).tiles@[i]
            }),
{
    let n = grid.tiles.len();
    let mut i: usize = 0;
    while i < n
        invariant
            i <= n,
            n == old(grid).tiles@.len(),
            grid.wf(),
            grid.tile_res == old(grid).tile_res,
            grid.rooms@ == old(grid).rooms@,
            grid.tiles@.len() == n,
            forall|k: int|
                0 <= k < i ==> #[trigger] grid.tiles@[k] == (Tile {
                    blocked: old(grid).tiles@[k].tiletype == TileType::Wall,
                    ..old(grid).tiles@[k]
                }),
            forall|k: int| i <= k < n ==> #[trigger] grid.tiles@[k] == old(grid).tiles@[k],
        decreases n - i,
    {
        let t = grid.tiles[i];
        grid.tiles.set(i, Tile { blocked: t.tiletype == TileType::Wall, ..t });
        i = i + 1;
    }
}

/// Sets `blocked` on the tile under `p`, and returns that tile's index.
fn block_tile(grid: &mut TileGrid, p: Position) -> (idx: usize)
    requires
        old(grid).wf(),
        pos_in_bounds(p, old(grid).tile_res),
    ensures
        idx == pos_index(p, old(grid).width()),
        idx < old(grid).tiles@.len(),
        final(grid).wf(),
        final(grid).tile_res == old(grid).tile_res,
        final(grid).rooms@ == old(grid).rooms@,
        final(grid).tiles@ == old(grid).tiles@.update(
            idx as int,
            Tile { blocked: true, ..old(grid).tiles@[idx as int] },
        ),
{
    proof {
        lemma_index_in_grid(p.x as int, p.y as int, grid.width(), grid.height());
    }
    let idx = get_tile_idx(p.x, p.y, grid.tile_res.width);
    let t = grid.tiles[idx];
    grid.tiles.set(idx, Tile { blocked: true, ..t });
    idx
}

/// Records each monster's current tile and marks it blocked.
pub fn set_occupied_tiles(grid: &mut TileGrid, monsters: &mut Vec<Monster>)
    requires
        old(grid).wf(),
        monsters_in_bounds(old(monsters)@, old(grid).tile_res),
    ensures
        final(grid).wf(),
        final(grid).tile_res == old(grid).tile_res,
        final(grid).rooms@ == old(grid).rooms@,
        final(grid).tiles@.len() == old(grid).tiles@.len(),
        final(monsters)@ == with_occupied(old(monsters)@, old(grid).width()),
        forall|i: int|
            0 <= i < old(grid).tiles@.len() ==> #[trigger] final(grid).tiles@[i] == (Tile {
                blocked: old(grid).tiles@[i].blocked || monster_on(
                    old(monsters)@,
                    old(grid).width(),
                    i,
                ),
                ..old(grid).tiles@[i]
            }),
{
    let ghost mons0 = monsters@;
    let ghost tiles0 = grid.tiles@;
    let ghost w = grid.width();
    let n = monsters.len();
    let mut k: usize = 0;
    while k < n
        invariant
            k <= n,
            n == mons0.len(),
            mons0 == old(monsters)@,
            tiles0 == old(grid).tiles@,
            w == old(grid).width(),
            grid.wf(),
            grid.tile_res == old(grid).tile_res,
            grid.rooms@ == old(grid).rooms@,
            grid.tiles@.len() == tiles0.len(),
            monsters_in_bounds(mons0, grid.tile_res),
            monsters@.len() == n,
            forall|j: int|
                0 <= j < k ==> #[trigger] monsters@[j] == with_occupied(mons0, w)[j],
            forall|j: int| k <= j < n ==> #[trigger] monsters@[j] == mons0[j],
            forall|i: int|
                0 <= i < tiles0.len() ==> #[trigger] grid.tiles@[i] == (Tile {
                    blocked: tiles0[i].blocked || monster_on(mons0.subrange(0, k as int), w, i),
                    ..tiles0[i]
                }),
        decreases n - k,
    {
        let m = monsters[k];
        assert(m == mons0[k as int]);
        let idx = block_tile(grid, m.pos);
        monsters.set(k, Monster { occupied_tile: idx, ..m });
        proof {
            let pre = mons0.subrange(0, k as int);
            let post = mons0.subrange(0, k + 1);
            assert forall|i: int| 0 <= i < tiles0.len() implies monster_on(post, w, i) == (
            monster_on(pre, w, i) || i == idx) by {
                if monster_on(post, w, i) {
                    let j = choose|j: int| 0 <= j < post.len() && #[trigger] pos_index(post[j].pos, w) == i;
                    if j < k {
                        assert(pos_index(pre[j].pos, w) == i);
                    }
                }
                if monster_on(pre, w, i) {
                    let j = choose|j: int| 0 <= j < pre.len() && #[trigger] pos_index(pre[j].pos, w) == i;
                    assert(pos_index(post[j].pos, w) == i);
                }
                if i == idx {
                    assert(pos_index(post[k as int].pos, w) == i);
                }
            }
        }
        k = k + 1;
    }
    assert(mons0.subrange(0, n as int) =~= mons0);
    assert(monsters@ =~= with_occupied(mons0, w));
}

/// Recomputes every tile's `blocked` flag from scratch: walls block, and so
/// do the tiles under the player and under each monster. Each monster's
/// recorded tile is brought in line with its position.
pub fn populate_blocked(grid: &mut TileGrid, player: Position, monsters: &mut Vec<Monster>)
    requires
        old(grid).wf(),
        pos_in_bounds(player, old(grid).tile_res),
        monsters_in_bounds(old(monsters)@, old(grid).tile_res),
    ensures
        final(grid).wf(),
        final(grid).tile_res == old(grid).tile_res,
        final(grid).rooms@ == old(grid).rooms@,
        final(grid).tiles@ == occupancy(old(grid).tiles@, old(grid).width(), player, old(monsters)@),
        final(monsters)@ == with_occupied(old(monsters)@, old(grid).width()),
{
    let ghost tiles0 = grid.tiles@;
    let ghost w = grid.width();
    unset_occupied_tiles(grid);
    block_tile(grid, player);
    set_occupied_tiles(grid, monsters);
    assert(grid.tiles@ =~= occupancy(tiles0, w, player, old(monsters)@));
}

/// No two of the player and the monsters stand on the same tile.
pub open spec fn occupants_distinct(player: Position, monsters: Seq<Monster>) -> bool {
    &&& forall|a: int, b: int|
        0 <= a < monsters.len() && 0 <= b < monsters.len() && a != b ==> (#[trigger] monsters[a]).pos
            != (#[trigger] monsters[b]).pos
    &&& forall|a: int| 0 <= a < monsters.len() ==> (#[trigger] monsters[a]).pos != player
}

/// Every tile's `blocked` flag says exactly whether it is a wall or the
/// player or a monster stands on it.
pub open spec fn blocked_exact(
    tiles: Seq<Tile>,
    w: int,
    player: Position,
    monsters: Seq<Monster>,
) -> bool {
    forall|i: int|
        0 <= i < tiles.len() ==> (#[trigger] tiles[i]).blocked == (tiles[i].tiletype == TileType::Wall
            || i == pos_index(player, w) || monster_on(monsters, w, i))
}

/// Two in-bounds positions share a tile index only if they are equal.
pub proof fn lemma_pos_index_injective(p: Position, q: Position, res: TileResolution)
    requires
        pos_in_bounds(p, res),
        pos_in_bounds(q, res),
        p != q,
    ensures
        pos_index(p, res.width as int) != pos_index(q, res.width as int),
{
    lemma_index_injective(
        p.x as int,
        p.y as int,
        q.x as int,
        q.y as int,
        res.width as int,
        res.height as int,
    );
}

/// Right after `populate_blocked`, the flags are exact.
pub proof fn lemma_occupancy_exact(
    tiles: Seq<Tile>,
    w: int,
    player: Position,
    monsters: Seq<Monster>,
)
    ensures
        blocked_exact(occupancy(tiles, w, player, monsters), w, player, with_occupied(monsters, w)),
{
    let m2 = with_occupied(monsters, w);
    assert forall|i: int| monster_on(m2, w, i) == monster_on(monsters, w, i) by {
        if monster_on(m2, w, i) {
            let k = choose|k: int| 0 <= k < m2.len() && #[trigger] pos_index(m2[k].pos, w) == i;
            assert(pos_index(monsters[k].pos, w) == i);
        }
        if monster_on(monsters, w, i) {
            let k = choose|k: int| 0 <= k < monsters.len() && #[trigger] pos_index(monsters[k].pos, w) == i;
            assert(pos_index(m2[k].pos, w) == i);
        }
    }
}

/// Occupancy facts depend on the monsters' positions alone.
pub proof fn lemma_same_positions(
    a: Seq<Monster>,
    b: Seq<Monster>,
    player: Position,
    res: TileResolution,
)
    requires
        a.len() == b.len(),
        forall|k: int| 0 <= k < a.len() ==> (#[trigger] a[k]).pos == b[k].pos,
    ensures
        forall|i: int| monster_on(a, res.width as int, i) == monster_on(b, res.width as int, i),
        occupants_distinct(player, a) == occupants_distinct(player, b),
        monsters_in_bounds(a, res) == monsters_in_bounds(b, res),
{
    let w = res.width as int;
    assert forall|i: int| monster_on(a, w, i) == monster_on(b, w, i) by {
        if monster_on(a, w, i) {
            let k = choose|k: int| 0 <= k < a.len() && #[trigger] pos_index(a[k].pos, w) == i;
            assert(pos_index(b[k].pos, w) == i);
        }
        if monster_on(b, w, i) {
            let k = choose|k: int| 0 <= k < b.len() && #[trigger] pos_index(b[k].pos, w) == i;
            assert(a[k].pos == b[k].pos);
            assert(pos_index(a[k].pos, w) == i);
        }
    }
    if occupants_distinct(player, a) {
        assert forall|x: int, y: int|
            0 <= x < b.len() && 0 <= y < b.len() && x != y implies (#[trigger] b[x]).pos != (
            #[trigger] b[y]).pos by {
            assert(a[x].pos == b[x].pos && a[y].pos == b[y].pos);
        }
        assert forall|x: int| 0 <= x < b.len() implies (#[trigger] b[x]).pos != player by {
            assert(a[x].pos == b[x].pos);
        }
    }
    if occupants_distinct(player, b) {
        assert forall|x: int, y: int|
            0 <= x < a.len() && 0 <= y < a.len() && x != y implies (#[trigger] a[x]).pos != (
            #[trigger] a[y]).pos by {
            assert(a[x].pos == b[x].pos && a[y].pos == b[y].pos);
        }
    }
    if monsters_in_bounds(a, res) {
        assert forall|x: int| 0 <= x < b.len() implies pos_in_bounds(#[trigger] b[x].pos, res) by {
            assert(a[x].pos == b[x].pos);
        }
    }
    if monsters_in_bounds(b, res) {
        assert forall|x: int| 0 <= x < a.len() implies pos_in_bounds(#[trigger] a[x].pos, res) by {
            assert(a[x].pos == b[x].pos);
        }
    }
}

} // verus!
