use crate::components::{
    direction_delta, Direction, Monster, MonsterKind, Position, Room, Tile, TileType, Viewshed,
};
use crate::occupancy::{
    blocked_exact, lemma_pos_index_injective, monster_on, monsters_in_bounds, occupants_distinct,
    pos_in_bounds, pos_index,
};
use crate::random::random_between;
use crate::rect::{rect_center, Rect};
use crate::resources::{get_tile_idx, idx_of, in_bounds, lemma_index_in_grid, rect_in_bounds, TileGrid, TileResolution};
use crate::visibility::abs;
use rand::rngs::StdRng;
use vstd::prelude::*;

verus! {

/// `|b| / |a| < tan(22.5°)` for `a > 0`, written without irrationals: as
/// `tan(22.5°) = √2 - 1`, the bound is `a + b < √2 · a`, that is
/// `(a + b)² < 2a²` (`a`, `b` taken as magnitudes).
pub open spec fn within_half_octant(a: int, b: int) -> bool {
    (a + b) * (a + b) < 2 * a * a
}

/// The 45-degree bearing bucket of the vector `(dx, dy)`: east covers the
/// bearings within 22.5 degrees of the x axis, toward positive `dx`, and
/// the other seven buckets follow counterclockwise. No bearing of integer
/// components falls on a bucket edge; the zero vector counts as east.
pub open spec fn bearing_bucket(dx: int, dy: int) -> Direction {
    let a = abs(dx);
    let b = abs(dy);
    if dx == 0 && dy == 0 {
        Direction::East
    } else if within_half_octant(a, b) {
        if dx > 0 {
            Direction::East
        } else {
            Direction::West
        }
    } else if within_half_octant(b, a) {
        if dy > 0 {
            Direction::North
        } else {
            Direction::South
        }
    } else if dx > 0 {
        if dy > 0 {
            Direction::NorthEast
        } else {
            Direction::SouthEast
        }
    } else {
        if dy > 0 {
            Direction::NorthWest
        } else {
            Direction::SouthWest
        }
    }
}

/// Decides `within_half_octant(a, b)` on magnitudes below 2^64.
fn half_octant(a: u128, b: u128) -> (r: bool)
    requires
        a < 0x1_0000_0000_0000_0000,
        b < 0x1_0000_0000_0000_0000,
    ensures
        r == within_half_octant(a as int, b as int),
{
    assert(a * a < 0x1_0000_0000_0000_0000 * 0x1_0000_0000_0000_0000) by (nonlinear_arith)
        requires
            a < 0x1_0000_0000_0000_0000,
    ;
    assert(((a + b) * (a + b) < 2 * a * a) == (b * (b + 2 * a) < a * a)) by (nonlinear_arith);
    let aa: u128 = a * a;
    match b.checked_mul(b + 2 * a) {
        Some(p) => p < aa,
        None => false,
    }
}

/// The bearing bucket from `monster` toward `player`.
pub fn get_bearing(player: Position, monster: Position) -> (d: Direction)
    ensures
        d == bearing_bucket(player.x - monster.x, player.y - monster.y),
{
    let px = player.x as u128;
    let py = player.y as u128;
    let mx = monster.x as u128;
    let my = monster.y as u128;
    let a: u128 = if px >= mx {
        px - mx
    } else {
        mx - px
    };
    let b: u128 = if py >= my {
        py - my
    } else {
        my - py
    };
    if a == 0 && b == 0 {
        Direction::East
    } else if half_octant(a, b) {
        if px > mx {
            Direction::East
        } else {
            Direction::West
        }
    } else if half_octant(b, a) {
        if py > my {
            Direction::North
        } else {
            Direction::South
        }
    } else if px > mx {
        if py > my {
            Direction::NorthEast
        } else {
            Direction::SouthEast
        }
    } else {
        if py > my {
            Direction::NorthWest
        } else {
            Direction::SouthWest
        }
    }
}

/// The kind of monster a drawn bit gives: 1 a goblin, anything else an ogre.
pub open spec fn kind_of(bit: usize) -> MonsterKind {
    if bit == 1 {
        MonsterKind::Goblin
    } else {
        MonsterKind::Ogre
    }
}

/// The kind of monster a drawn bit gives.
pub fn kind_for(bit: usize) -> (k: MonsterKind)
    ensures
        k == kind_of(bit),
{
    if bit == 1 {
        MonsterKind::Goblin
    } else {
        MonsterKind::Ogre
    }
}

/// A fresh monster of room `room`: at its center, on the tile it records,
/// and not yet seen.
pub open spec fn spawned_in(m: Monster, room: Rect, w: int) -> bool {
    &&& m.pos.x == rect_center(room).0
    &&& m.pos.y == rect_center(room).1
    &&& m.occupied_tile == pos_index(m.pos, w)
    &&& !m.visible
}

/// Each monster's kind is the one its drawn bit (0 or 1) gives.
pub open spec fn kinds_drawn(monsters: Seq<Monster>, bits: Seq<usize>) -> bool {
    &&& bits.len() == monsters.len()
    &&& forall|k: int|
        0 <= k < monsters.len() ==> bits[k] <= 1 && (#[trigger] monsters[k]).kind == kind_of(bits[k])
}

/// The monsters as spawned for a room list: one per room after the first,
/// fresh in that room, of a kind drawn at random.
pub open spec fn spawned_monsters(monsters: Seq<Monster>, rooms: Seq<Room>, w: int) -> bool {
    &&& monsters.len() == if rooms.len() > 0 {
        rooms.len() - 1
    } else {
        0
    }
    &&& forall|k: int|
        0 <= k < monsters.len() ==> spawned_in(#[trigger] monsters[k], rooms[k + 1].rect, w)
    &&& exists|bits: Seq<usize>| #[trigger] kinds_drawn(monsters, bits)
}

/// One monster per room after the first, at the room's center, of the kind
/// `kind_for` gives for a bit drawn at random, not yet seen.
pub fn add_monsters(grid: &TileGrid, rng: &mut StdRng) -> (monsters: Vec<Monster>)
    requires
        grid.wf(),
    ensures
        monsters_in_bounds(monsters@, grid.tile_res),
        spawned_monsters(monsters@, grid.rooms@, grid.width()),
{
    let mut monsters: Vec<Monster> = Vec::new();
    let ghost mut bits: Seq<usize> = Seq::empty();
    let n = grid.rooms.len();
    let mut i: usize = 1;
    while i < n
        invariant
            1 <= i <= n || (n == 0 && i == 1),
            n == grid.rooms@.len(),
            grid.wf(),
            monsters@.len() == i - 1,
            monsters_in_bounds(monsters@, grid.tile_res),
            forall|k: int|
                0 <= k < monsters@.len() ==> spawned_in(
                    #[trigger] monsters@[k],
                    grid.rooms@[k + 1].rect,
                    grid.width(),
                ),
            kinds_drawn(monsters@, bits),
        decreases n - i,
    {
        let (cx, cy) = grid.rooms[i].rect.center();
        assert(rect_in_bounds(grid.rooms@[i as int].rect, grid.tile_res));
        let pos = Position { x: cx as usize, y: cy as usize };
        proof {
            lemma_index_in_grid(pos.x as int, pos.y as int, grid.width(), grid.height());
        }
        let occupied_tile = get_tile_idx(pos.x, pos.y, grid.tile_res.width);
        let bit = random_between(rng, 0, 1);
        let kind = kind_for(bit);
        monsters.push(Monster { pos, occupied_tile, kind, visible: false });
        proof {
            bits = bits.push(bit);
        }
        i = i + 1;
    }
    monsters
}

/// Flags each monster visible exactly when its tile is in the viewshed.
pub fn apply_view(monsters: &mut Vec<Monster>, viewshed: &Viewshed)
    ensures
        final(monsters)@.len() == old(monsters)@.len(),
        forall|k: int|
            0 <= k < old(monsters)@.len() ==> #[trigger] final(monsters)@[k] == (Monster {
                visible: viewshed.visible_tiles@.contains(old(monsters)@[k].occupied_tile),
                ..old(monsters)@[k]
            }),
{
    let n = monsters.len();
    let mut k: usize = 0;
    while k < n
        invariant
            k <= n,
            n == old(monsters)@.len(),
            monsters@.len() == n,
            forall|j: int|
                0 <= j < k ==> #[trigger] monsters@[j] == (Monster {
                    visible: viewshed.visible_tiles@.contains(old(monsters)@[j].occupied_tile),
                    ..old(monsters)@[j]
                }),
            forall|j: int| k <= j < n ==> #[trigger] monsters@[j] == old(monsters)@[j],
        decreases n - k,
    {
        let m = monsters[k];
        let mut seen = false;
        let mut j: usize = 0;
        while j < viewshed.visible_tiles.len()
            invariant
                j <= viewshed.visible_tiles@.len(),
                seen == viewshed.visible_tiles@.subrange(0, j as int).contains(m.occupied_tile),
            decreases viewshed.visible_tiles@.len() - j,
        {
            let ghost pre = viewshed.visible_tiles@.subrange(0, j as int);
            assert(viewshed.visible_tiles@.subrange(0, j + 1) =~= pre.push(
                viewshed.visible_tiles@[j as int],
            ));
            let hit = viewshed.visible_tiles[j] == m.occupied_tile;
            proof {
                let s2 = pre.push(viewshed.visible_tiles@[j as int]);
                if hit {
                    assert(s2[j as int] == m.occupied_tile);
                } else if seen {
                    let q = choose|q: int| 0 <= q < pre.len() && pre[q] == m.occupied_tile;
                    assert(s2[q] == m.occupied_tile);
                } else if s2.contains(m.occupied_tile) {
                    let q = choose|q: int| 0 <= q < s2.len() && s2[q] == m.occupied_tile;
                    assert(pre[q] == m.occupied_tile);
                }
            }
            seen = seen || hit;
            j = j + 1;
        }
        assert(viewshed.visible_tiles@.subrange(0, j as int) =~= viewshed.visible_tiles@);
        monsters.set(k, Monster { visible: seen, ..m });
        k = k + 1;
    }
}

/// One monster's turn: a visible monster takes one step in the bearing
/// bucket toward the player, provided the destination lies inside the grid
/// and is not blocked; it then releases its old tile and blocks the new
/// one. Otherwise nothing changes.
pub open spec fn monster_turn(
    tiles: Seq<Tile>,
    res: TileResolution,
    player: Position,
    monsters: Seq<Monster>,
    k: int,
) -> (Seq<Tile>, Seq<Monster>) {
    let m = monsters[k];
    let w = res.width as int;
    let d = direction_delta(bearing_bucket(player.x - m.pos.x, player.y - m.pos.y));
    let dx = m.pos.x + d.0;
    let dy = m.pos.y + d.1;
    if m.visible && in_bounds(dx, dy, res) && !tiles[idx_of(dx, dy, w)].blocked {
        let from = pos_index(m.pos, w);
        let to = idx_of(dx, dy, w);
        let t1 = tiles.update(
            from,
            Tile { blocked: tiles[from].tiletype == TileType::Wall, ..tiles[from] },
        );
        (
            t1.update(to, Tile { blocked: true, ..t1[to] }),
            monsters.update(
                k,
                Monster {
                    pos: Position { x: dx as usize, y: dy as usize },
                    occupied_tile: to as usize,
                    ..m
                },
            ),
        )
    } else {
        (tiles, monsters)
    }
}

/// The tiles and monsters after the first `n` monsters have taken their
/// turns, in list order.
pub open spec fn monsters_after(
    tiles: Seq<Tile>,
    res: TileResolution,
    player: Position,
    monsters: Seq<Monster>,
    n: nat,
) -> (Seq<Tile>, Seq<Monster>)
    decreases n,
{
    if n == 0 {
        (tiles, monsters)
    } else {
        let prev = monsters_after(tiles, res, player, monsters, (n - 1) as nat);
        monster_turn(prev.0, res, player, prev.1, n - 1)
    }
}

/// Carries out `monster_turn` for monster `k`.
fn try_move_monster(grid: &mut TileGrid, monsters: &mut Vec<Monster>, k: usize, player: Position)
    requires
        old(grid).wf(),
        k < old(monsters)@.len(),
        monsters_in_bounds(old(monsters)@, old(grid).tile_res),
    ensures
        final(grid).wf(),
        final(grid).tile_res == old(grid).tile_res,
        final(grid).rooms@ == old(grid).rooms@,
        monsters_in_bounds(final(monsters)@, old(grid).tile_res),
        (final(grid).tiles@, final(monsters)@) == monster_turn(
            old(grid).tiles@,
            old(grid).tile_res,
            player,
            old(monsters)@,
            k as int,
        ),
{
    let m = monsters[k];
    if !m.visible {
        return;
    }
    let dir = get_bearing(player, m.pos);
    let dest = match grid.neighbor(m.pos, dir) {
        Some(p) => p,
        None => {
            return;
        },
    };
    proof {
        lemma_index_in_grid(dest.x as int, dest.y as int, grid.width(), grid.height());
        lemma_index_in_grid(m.pos.x as int, m.pos.y as int, grid.width(), grid.height());
        assert(pos_in_bounds(old(monsters)@[k as int].pos, grid.tile_res));
    }
    let to = get_tile_idx(dest.x, dest.y, grid.tile_res.width);
    if grid.tiles[to].blocked {
        return;
    }
    let from = get_tile_idx(m.pos.x, m.pos.y, grid.tile_res.width);
    let tf = grid.tiles[from];
    grid.tiles.set(from, Tile { blocked: tf.tiletype == TileType::Wall, ..tf });
    let tt = grid.tiles[to];
    grid.tiles.set(to, Tile { blocked: true, ..tt });
    monsters.set(k, Monster { pos: dest, occupied_tile: to, ..m });
}

/// Every monster, in list order, takes its turn as `monster_turn` says.
pub fn monster_ai(grid: &mut TileGrid, monsters: &mut Vec<Monster>, player: Position)
    requires
        old(grid).wf(),
        monsters_in_bounds(old(monsters)@, old(grid).tile_res),
    ensures
        final(grid).wf(),
        final(grid).tile_res == old(grid).tile_res,
        final(grid).rooms@ == old(grid).rooms@,
        monsters_in_bounds(final(monsters)@, old(grid).tile_res),
        (final(grid).tiles@, final(monsters)@) == monsters_after(
            old(grid).tiles@,
            old(grid).tile_res,
            player,
            old(monsters)@,
            old(monsters)@.len(),
        ),
{
    let n = monsters.len();
    let mut k: usize = 0;
    while k < n
        invariant
            k <= n,
            n == old(monsters)@.len(),
            monsters@.len() == n,
            grid.wf(),
            grid.tile_res == old(grid).tile_res,
            grid.rooms@ == old(grid).rooms@,
            monsters_in_bounds(monsters@, grid.tile_res),
            (grid.tiles@, monsters@) == monsters_after(
                old(grid).tiles@,
                old(grid).tile_res,
                player,
                old(monsters)@,
                k as nat,
            ),
        decreases n - k,
    {
        try_move_monster(grid, monsters, k, player);
        k = k + 1;
    }
}

/// One monster's turn keeps the occupants on distinct tiles and the
/// `blocked` flags exact.
proof fn lemma_turn_keeps_occupancy(
    tiles: Seq<Tile>,
    res: TileResolution,
    player: Position,
    monsters: Seq<Monster>,
    k: int,
)
    requires
        0 <= k < monsters.len(),
        tiles.len() == res.width * res.height,
        pos_in_bounds(player, res),
        monsters_in_bounds(monsters, res),
        occupants_distinct(player, monsters),
        blocked_exact(tiles, res.width as int, player, monsters),
    ensures
        monster_turn(tiles, res, player, monsters, k).0.len() == tiles.len(),
        monster_turn(tiles, res, player, monsters, k).1.len() == monsters.len(),
        monsters_in_bounds(monster_turn(tiles, res, player, monsters, k).1, res),
        occupants_distinct(player, monster_turn(tiles, res, player, monsters, k).1),
        blocked_exact(
            monster_turn(tiles, res, player, monsters, k).0,
            res.width as int,
            player,
            monster_turn(tiles, res, player, monsters, k).1,
        ),
        forall|i: int|
            0 <= i < tiles.len() ==> (#[trigger] monster_turn(tiles, res, player, monsters, k).0[i]).tiletype
                == tiles[i].tiletype,
{
    let w = res.width as int;
    let m = monsters[k];
    let d = direction_delta(bearing_bucket(player.x - m.pos.x, player.y - m.pos.y));
    let dx = m.pos.x + d.0;
    let dy = m.pos.y + d.1;
    assert(pos_in_bounds(m.pos, res));
    lemma_index_in_grid(m.pos.x as int, m.pos.y as int, w, res.height as int);
    if m.visible && in_bounds(dx, dy, res) && !tiles[idx_of(dx, dy, w)].blocked {
        lemma_index_in_grid(dx, dy, w, res.height as int);
        let from = pos_index(m.pos, w);
        let to = idx_of(dx, dy, w);
        let dest = Position { x: dx as usize, y: dy as usize };
        let out = monster_turn(tiles, res, player, monsters, k);
        let mons2 = out.1;
        let tiles2 = out.0;
        assert(pos_index(dest, w) == to);
        // The destination was free: no wall, not the player, no monster.
        assert(!monster_on(monsters, w, to));
        assert(to != pos_index(player, w));
        assert(monster_on(monsters, w, from)) by {
            assert(pos_index(monsters[k].pos, w) == from);
        }
        assert(from != to);
        assert(dest != player);
        assert forall|j: int| 0 <= j < monsters.len() implies (#[trigger] monsters[j]).pos != dest by {
            if monsters[j].pos == dest {
                assert(pos_index(monsters[j].pos, w) == to);
            }
        }
        assert(mons2[k].pos == dest);
        assert forall|j: int| 0 <= j < monsters.len() && j != k implies pos_index(
            (#[trigger] monsters[j]).pos,
            w,
        ) != from by {
            assert(pos_in_bounds(monsters[j].pos, res));
            lemma_pos_index_injective(monsters[j].pos, m.pos, res);
        }
        assert(from != pos_index(player, w)) by {
            lemma_pos_index_injective(m.pos, player, res);
        }
        assert forall|i: int| 0 <= i < tiles2.len() implies (#[trigger] tiles2[i]).blocked == (
        tiles2[i].tiletype == TileType::Wall || i == pos_index(player, w) || monster_on(mons2, w, i)) by {
            if i == to {
                assert(pos_index(mons2[k].pos, w) == i);
            } else if i == from {
                if monster_on(mons2, w, i) {
                    let j = choose|j: int| 0 <= j < mons2.len() && #[trigger] pos_index(mons2[j].pos, w) == i;
                    if j != k {
                        assert(pos_index(monsters[j].pos, w) != from);
                    }
                }
            } else {
                if monster_on(mons2, w, i) {
                    let j = choose|j: int| 0 <= j < mons2.len() && #[trigger] pos_index(mons2[j].pos, w) == i;
                    assert(pos_index(monsters[j].pos, w) == i);
                }
                if monster_on(monsters, w, i) {
                    let j = choose|j: int| 0 <= j < monsters.len() && #[trigger] pos_index(monsters[j].pos, w) == i;
                    assert(pos_index(mons2[j].pos, w) == i);
                }
            }
        }
        assert forall|j: int| 0 <= j < mons2.len() implies pos_in_bounds(#[trigger] mons2[j].pos, res) by {
            if j != k {
                assert(mons2[j] == monsters[j]);
            }
        }
        assert forall|a: int, b: int|
            0 <= a < mons2.len() && 0 <= b < mons2.len() && a != b implies (#[trigger] mons2[a]).pos
            != (#[trigger] mons2[b]).pos by {
            if a != k && b != k {
                assert(mons2[a] == monsters[a] && mons2[b] == monsters[b]);
            } else if a == k {
                assert(mons2[b] == monsters[b]);
            } else {
                assert(mons2[a] == monsters[a]);
            }
        }
        assert forall|a: int| 0 <= a < mons2.len() implies (#[trigger] mons2[a]).pos != player by {
            if a != k {
                assert(mons2[a] == monsters[a]);
            }
        }
    }
}

/// Monster turns keep the occupants on distinct tiles and the `blocked`
/// flags exact, and change no tile's type.
pub proof fn lemma_turns_keep_occupancy(
    tiles: Seq<Tile>,
    res: TileResolution,
    player: Position,
    monsters: Seq<Monster>,
    n: nat,
)
    requires
        n <= monsters.len(),
        tiles.len() == res.width * res.height,
        pos_in_bounds(player, res),
        monsters_in_bounds(monsters, res),
        occupants_distinct(player, monsters),
        blocked_exact(tiles, res.width as int, player, monsters),
    ensures
        monsters_after(tiles, res, player, monsters, n).0.len() == tiles.len(),
        monsters_after(tiles, res, player, monsters, n).1.len() == monsters.len(),
        monsters_in_bounds(monsters_after(tiles, res, player, monsters, n).1, res),
        occupants_distinct(player, monsters_after(tiles, res, player, monsters, n).1),
        blocked_exact(
            monsters_after(tiles, res, player, monsters, n).0,
            res.width as int,
            player,
            monsters_after(tiles, res, player, monsters, n).1,
        ),
        forall|i: int|
            0 <= i < tiles.len() ==> (#[trigger] monsters_after(tiles, res, player, monsters, n).0[i]).tiletype
                == tiles[i].tiletype,
    decreases n,
{
    if n > 0 {
        lemma_turns_keep_occupancy(tiles, res, player, monsters, (n - 1) as nat);
        let prev = monsters_after(tiles, res, player, monsters, (n - 1) as nat);
        lemma_turn_keeps_occupancy(prev.0, res, player, prev.1, n - 1);
    }
}

/// A visible monster whose bearing toward the player lies in the east
/// bucket steps one tile east on its turn when that tile is inside the grid
/// and not blocked, and otherwise stays where it is.
pub proof fn lemma_east_step(
    tiles: Seq<Tile>,
    res: TileResolution,
    player: Position,
    monsters: Seq<Monster>,
    k: int,
)
    requires
        0 <= k < monsters.len(),
        monsters[k].visible,
        bearing_bucket(player.x - monsters[k].pos.x, player.y - monsters[k].pos.y)
            == Direction::East,
    ensures
        ({
            let m = monsters[k];
            let after = monster_turn(tiles, res, player, monsters, k).1[k];
            if in_bounds(m.pos.x + 1, m.pos.y as int, res) && !tiles[idx_of(
                m.pos.x + 1,
                m.pos.y as int,
                res.width as int,
            )].blocked {
                after.pos == Position { x: (m.pos.x + 1) as usize, y: m.pos.y }
            } else {
                after.pos == m.pos
            }
        }),
{
}

} // verus!
