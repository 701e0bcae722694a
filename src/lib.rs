//! Dungeon generation and turn resolution for a turn-based dungeon crawler.
//!
//! The library holds the game's rules: the tile grid and its rooms, the
//! procedural map generator with its connectivity repair, combat, the monster
//! AI state machine, items and equipment, and the turn scheduler. Drawing,
//! input and persistence live outside it and talk to it through plain values.
use vstd::prelude::*;

pub mod colour;
pub mod tile;
pub mod message;
pub mod object;
pub mod death;
pub mod equipment;
pub mod items;
pub mod ai;
pub mod map;
pub mod random;
pub mod movement;
pub mod leveling;
pub mod game;
pub mod combat;

verus! {

/// Width of the dungeon map, in tiles.
pub const MAP_WIDTH: i32 = 80;

/// Height of the dungeon map, in tiles.
pub const MAP_HEIGHT: i32 = 43;

/// Smallest side of a room.
pub const ROOM_MIN_SIZE: i32 = 6;

/// Largest side of a room.
pub const ROOM_MAX_SIZE: i32 = 10;

/// Number of rooms the generator keeps placing until it reaches.
pub const MIN_ROOMS: i32 = 5;

/// Upper bound on the number of rooms.
pub const MAX_ROOMS: i32 = 30;

/// Index of the player in the entity list.
pub const PLAYER: usize = 0;

/// Experience needed for the first level up.
pub const LEVEL_UP_BASE: i32 = 200;

/// Extra experience needed per character level.
pub const LEVEL_UP_FACTOR: i32 = 150;

/// Number of slots in the inventory, one per letter of the selection menu.
pub const INVENTORY_CAPACITY: usize = 26;

} // verus!
