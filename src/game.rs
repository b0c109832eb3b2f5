use crate::components::{cardinal, direction_delta, Direction, Monster, Player, Position, Room, Tile, TileType};
use crate::map::{
    carved_by, dug_as, generate_map, generated, in_rect, placeable, rooms_drawn, tile_at, MAX_ROOMS,
};
use crate::monsters::{
    add_monsters, apply_view, lemma_turns_keep_occupancy, monster_ai, monsters_after,
    spawned_monsters,
};
use crate::occupancy::{
    blocked_exact, lemma_occupancy_exact, lemma_same_positions,
    monster_on, monsters_in_bounds, occupancy, occupants_distinct, pos_in_bounds, pos_index,
    populate_blocked, with_occupied,
};
use crate::player::{add_player, can_enter, move_player, PLAYER_RANGE};
use crate::rect::rect_center;
use crate::resources::{lemma_index_in_grid, rooms_disjoint, TileGrid, TileResolution};
use crate::visibility::{
    get_viewshed, ray_targets, ring_seq, sighted, tile_after_pass, tile_types,
};
use rand::rngs::StdRng;
use vstd::prelude::*;

verus! {

/// The tiles after a visibility pass from `origin` along `rays`.
pub open spec fn pass_tiles(
    tiles: Seq<Tile>,
    res: TileResolution,
    origin: Position,
    range: i32,
    rays: Seq<(i32, i32)>,
) -> Seq<Tile> {
    Seq::new(
        tiles.len(),
        |i: int|
            tile_after_pass(tiles[i], sighted(tile_types(tiles), res, origin, range, rays, i as usize)),
    )
}

/// The monsters with their `visible` flags set from a viewshed's list.
pub open spec fn viewed(monsters: Seq<Monster>, visible_tiles: Seq<usize>) -> Seq<Monster> {
    Seq::new(
        monsters.len(),
        |k: int| Monster { visible: visible_tiles.contains(monsters[k].occupied_tile), ..monsters[k] },
    )
}

/// `after` is the session that one tick makes of a session with the given
/// tiles, grid size, rooms, player position, viewing range and monsters:
/// occupancy recomputed, then a visibility pass from the player along the
/// rays of `ray_targets`, then the monsters' visibility flags from the new
/// viewshed, then the monsters' turns.
pub open spec fn ticked(
    after: Game,
    tiles: Seq<Tile>,
    res: TileResolution,
    rooms: Seq<Room>,
    pos: Position,
    range: i32,
    monsters: Seq<Monster>,
) -> bool {
    let w = res.width as int;
    let visible = after.player.viewshed.visible_tiles@;
    &&& after.grid.tile_res == res
    &&& after.grid.rooms@ == rooms
    &&& after.player.pos == pos
    &&& after.player.viewshed.range == range
    &&& after.monsters@.len() == monsters.len()
    &&& visible.no_duplicates()
    &&& forall|v: usize|
        #[trigger] visible.contains(v) <==> (v < tiles.len() && sighted(
            tile_types(tiles),
            res,
            pos,
            range,
            ring_seq(range),
            v,
        ))
    &&& (after.grid.tiles@, after.monsters@) == monsters_after(
        pass_tiles(occupancy(tiles, w, pos, monsters), res, pos, range, ring_seq(range)),
        res,
        pos,
        viewed(with_occupied(monsters, w), visible),
        monsters.len(),
    )
}

/// `g` is a fresh session after its first tick: before that tick its tiles
/// were `tiles`, generated for its rooms, its monsters were `monsters`,
/// spawned in those rooms, and the player stood at the center of room 0
/// with range `PLAYER_RANGE`.
pub open spec fn first_tick(g: Game, res: TileResolution, tiles: Seq<Tile>, monsters: Seq<Monster>) -> bool {
    &&& generated(tiles, res, g.grid.rooms@)
    &&& spawned_monsters(monsters, g.grid.rooms@, res.width as int)
    &&& g.player.pos.x == rect_center(g.grid.rooms@[0].rect).0
    &&& g.player.pos.y == rect_center(g.grid.rooms@[0].rect).1
    &&& ticked(g, tiles, res, g.grid.rooms@, g.player.pos, PLAYER_RANGE, monsters)
}

/// A running session: the dungeon, the player and the monsters.
pub struct Game {
    pub grid: TileGrid,
    pub player: Player,
    pub monsters: Vec<Monster>,
}

impl Game {
    /// What holds between ticks and also right after a move: a well-formed
    /// grid with a spawn room; the player and every monster inside it, each
    /// on a tile of its own; the player off the walls.
    pub open spec fn valid(&self) -> bool {
        &&& self.grid.wf()
        &&& self.grid.rooms@.len() >= 1
        &&& pos_in_bounds(self.player.pos, self.grid.tile_res)
        &&& monsters_in_bounds(self.monsters@, self.grid.tile_res)
        &&& occupants_distinct(self.player.pos, self.monsters@)
        &&& self.grid.tiles@[pos_index(self.player.pos, self.grid.width())].tiletype
            != TileType::Wall
    }

    /// The session's invariant between ticks: `valid`, and every tile's
    /// `blocked` flag exact for the current occupants.
    pub open spec fn wf(&self) -> bool {
        &&& self.valid()
        &&& blocked_exact(self.grid.tiles@, self.grid.width(), self.player.pos, self.monsters@)
    }

    /// Generates a dungeon, puts the player at the center of room 0 and a
    /// monster at the center of every other room, and runs the first tick.
    pub fn new(tile_res: TileResolution, rng: &mut StdRng) -> (g: Game)
        requires
            placeable(tile_res),
        ensures
            g.wf(),
            g.grid.tile_res == tile_res,
            exists|draws: Seq<(usize, usize, usize, usize)>|
                #[trigger] rooms_drawn(tile_res, draws, g.grid.rooms@),
            exists|tiles: Seq<Tile>, monsters: Seq<Monster>|
                #[trigger] first_tick(g, tile_res, tiles, monsters),
            1 <= g.grid.rooms@.len() <= MAX_ROOMS,
            rooms_disjoint(g.grid.rooms@),
            g.player.pos.x == rect_center(g.grid.rooms@[0].rect).0,
            g.player.pos.y == rect_center(g.grid.rooms@[0].rect).1,
            g.monsters@.len() == g.grid.rooms@.len() - 1,
    {
        let grid = generate_map(tile_res, rng);
        let player = add_player(&grid);
        let monsters = add_monsters(&grid, rng);
        proof {
            let hf = choose|hf: Seq<bool>|
                #[trigger] dug_as(
                    grid.tiles@,
                    crate::map::all_walls(grid.tiles@.len()),
                    tile_res,
                    grid.rooms@,
                    hf,
                );
            let r0 = grid.rooms@[0].rect;
            assert(crate::resources::rect_in_bounds(r0, tile_res));
            assert(in_rect(player.pos.x as int, player.pos.y as int, r0));
            assert(carved_by(grid.rooms@, hf, grid.rooms@.len() as int, player.pos.x as int, player.pos.y as int));
            lemma_index_in_grid(player.pos.x as int, player.pos.y as int, grid.width(), grid.height());
            assert(tile_at(grid.tiles@, grid.width(), player.pos.x as int, player.pos.y as int).tiletype
                == TileType::Floor);
        }
        let ghost tiles0 = grid.tiles@;
        let ghost mons0 = monsters@;
        let mut g = Game { grid, player, monsters };
        g.tick();
        assert(first_tick(g, tile_res, tiles0, mons0));
        g
    }

    /// One tick: occupancy is recomputed from scratch, then the player's
    /// viewshed along the rays of `ray_targets`, then each monster's
    /// visibility, and then the monsters take their turns.
    pub fn tick(&mut self)
        requires
            old(self).valid(),
        ensures
            final(self).wf(),
            ticked(
                *final(self),
                old(self).grid.tiles@,
                old(self).grid.tile_res,
                old(self).grid.rooms@,
                old(self).player.pos,
                old(self).player.viewshed.range,
                old(self).monsters@,
            ),
    {
        let ghost tiles0 = self.grid.tiles@;
        let ghost w = self.grid.width();
        let ghost res = self.grid.tile_res;
        let ghost pos = self.player.pos;
        let ghost range = self.player.viewshed.range;
        let ghost mons0 = self.monsters@;
        populate_blocked(&mut self.grid, self.player.pos, &mut self.monsters);
        let ghost t1 = self.grid.tiles@;
        let ghost m1 = self.monsters@;
        proof {
            lemma_occupancy_exact(tiles0, w, pos, mons0);
            lemma_same_positions(mons0, m1, pos, res);
        }
        assert(tile_types(t1) =~= tile_types(tiles0));
        let rays = ray_targets(self.player.viewshed.range);
        get_viewshed(&mut self.grid, self.player.pos, &mut self.player.viewshed, &rays);
        assert(self.grid.tiles@ =~= pass_tiles(t1, res, pos, range, ring_seq(range)));
        apply_view(&mut self.monsters, &self.player.viewshed);
        let ghost m2 = self.monsters@;
        assert(m2 =~= viewed(m1, self.player.viewshed.visible_tiles@));
        let ghost t2 = self.grid.tiles@;
        proof {
            lemma_same_positions(m1, m2, pos, res);
            assert forall|i: int| 0 <= i < t2.len() implies (#[trigger] t2[i]).blocked == (
            t2[i].tiletype == TileType::Wall || i == pos_index(pos, w) || monster_on(m2, w, i)) by {
                assert(t2[i].blocked == t1[i].blocked && t2[i].tiletype == t1[i].tiletype);
            }
            lemma_index_in_grid(pos.x as int, pos.y as int, w, res.height as int);
        }
        monster_ai(&mut self.grid, &mut self.monsters, self.player.pos);
        proof {
            lemma_turns_keep_occupancy(t2, res, pos, m2, m2.len());
        }
    }

    /// The player attempts one step in the cardinal direction `dir` (walls and occupied
    /// tiles stop it), and then a tick runs whether or not the step was
    /// taken. Returns whether the player moved.
    pub fn step(&mut self, dir: Direction) -> (moved: bool)
        requires
            old(self).wf(),
            cardinal(dir),
        ensures
            final(self).wf(),
            moved == can_enter(
                old(self).grid.tiles@,
                old(self).grid.tile_res,
                old(self).player.pos.x + direction_delta(dir).0,
                old(self).player.pos.y + direction_delta(dir).1,
            ),
            ticked(
                *final(self),
                old(self).grid.tiles@,
                old(self).grid.tile_res,
                old(self).grid.rooms@,
                if moved {
                    Position {
                        x: (old(self).player.pos.x + direction_delta(dir).0) as usize,
                        y: (old(self).player.pos.y + direction_delta(dir).1) as usize,
                    }
                } else {
                    old(self).player.pos
                },
                old(self).player.viewshed.range,
                old(self).monsters@,
            ),
    {
        let ghost res = self.grid.tile_res;
        let ghost w = self.grid.width();
        let moved = move_player(&self.grid, &mut self.player, dir);
        proof {
            let p = self.player.pos;
            if moved {
                lemma_index_in_grid(p.x as int, p.y as int, w, res.height as int);
                assert forall|a: int| 0 <= a < self.monsters@.len() implies (
                #[trigger] self.monsters@[a]).pos != p by {
                    if self.monsters@[a].pos == p {
                        assert(pos_index(self.monsters@[a].pos, w) == pos_index(p, w));
                        assert(monster_on(self.monsters@, w, pos_index(p, w)));
                    }
                }
            }
        }
        self.tick();
        moved
    }
}

} // verus!
