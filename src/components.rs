use crate::rect::Rect;
use vstd::prelude::*;

verus! {

/// The player's field of view: how far it reaches, and the tile indices
/// judged visible by the latest visibility pass (each index at most once).
pub struct Viewshed {
    pub visible_tiles: Vec<usize>,
    pub range: i32,
}

/// An accepted room of the generated map.
#[derive(Clone, Copy, Debug, PartialEq, Eq, Structural)]
pub struct Room {
    pub rect: Rect,
}

/// One cell of the dungeon grid.
#[derive(Clone, Copy, Debug, PartialEq, Eq, Structural)]
pub struct Tile {
    pub tiletype: TileType,
    pub visibletype: VisibleType,
    pub blocked: bool,
}

/// What the player knows of a tile.
#[derive(Clone, Copy, Debug, PartialEq, Eq, Structural)]
pub enum VisibleType {
    /// In sight during the latest pass.
    Visible,
    /// Seen before, out of sight now; drawn dimmed from memory.
    Memoried,
    /// Never seen.
    Undiscovered,
}

/// Terrain of a tile, fixed by map generation.
#[derive(Clone, Copy, Debug, PartialEq, Eq, Structural)]
pub enum TileType {
    Wall,
    Floor,
}

/// A tile position; `x` grows eastward and `y` grows northward.
#[derive(Clone, Copy, Debug, PartialEq, Eq, Structural)]
pub struct Position {
    pub x: usize,
    pub y: usize,
}

/// One of the eight compass steps. The player moves along the four cardinal
/// ones; monsters may also step diagonally.
#[derive(Clone, Copy, Debug, PartialEq, Eq, Structural)]
pub enum Direction {
    East,
    NorthEast,
    North,
    NorthWest,
    West,
    SouthWest,
    South,
    SouthEast,
}

/// The unit step of a direction, as `(dx, dy)`.
pub open spec fn direction_delta(d: Direction) -> (int, int) {
    match d {
        Direction::East => (1, 0),
        Direction::NorthEast => (1, 1),
        Direction::North => (0, 1),
        Direction::NorthWest => (-1, 1),
        Direction::West => (-1, 0),
        Direction::SouthWest => (-1, -1),
        Direction::South => (0, -1),
        Direction::SouthEast => (1, -1),
    }
}

/// The four directions the player can move in.
pub open spec fn cardinal(d: Direction) -> bool {
    d == Direction::North || d == Direction::South || d == Direction::East || d == Direction::West
}

impl Direction {
    /// Whether this is one of the four directions the player can move in.
    pub fn is_cardinal(&self) -> (r: bool)
        ensures
            r == cardinal(*self),
    {
        match self {
            Direction::North | Direction::South | Direction::East | Direction::West => true,
            _ => false,
        }
    }
}

/// The player: where it stands and what it sees.
pub struct Player {
    pub pos: Position,
    pub viewshed: Viewshed,
}

/// The two kinds of monster that can be spawned.
#[derive(Clone, Copy, Debug, PartialEq, Eq, Structural)]
pub enum MonsterKind {
    Goblin,
    Ogre,
}

impl MonsterKind {
    /// The display name.
    pub fn name(&self) -> (r: &'static str)
        ensures
            r@ == (match *self {
                MonsterKind::Goblin => "Goblin"@,
                MonsterKind::Ogre => "Ogre"@,
            }),
    {
        match self {
            MonsterKind::Goblin => "Goblin",
            MonsterKind::Ogre => "Ogre",
        }
    }

    /// The glyph drawn for it.
    pub fn glyph(&self) -> (r: char)
        ensures
            r == (match *self {
                MonsterKind::Goblin => 'g',
                MonsterKind::Ogre => 'o',
            }),
    {
        match self {
            MonsterKind::Goblin => 'g',
            MonsterKind::Ogre => 'o',
        }
    }
}

/// A monster: its position, the index of the tile it occupies, its kind,
/// and whether the player currently sees it.
#[derive(Clone, Copy, Debug, PartialEq, Eq, Structural)]
pub struct Monster {
    pub pos: Position,
    pub occupied_tile: usize,
    pub kind: MonsterKind,
    pub visible: bool,
}

} // verus!
