//! Simulation core of a turn-based, grid-based dungeon crawler: room and
//! corridor generation, per-tick occupancy, ray-cast field of view with
//! memory, and a greedy monster step toward a visible player.

pub mod rect;
pub mod components;
pub mod game;
pub mod resources;
pub mod visibility;
pub mod map;
pub mod monsters;
pub mod occupancy;
pub mod player;
pub mod random;
