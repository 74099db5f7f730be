//! Core of a turn-based dungeon-crawl simulation: procedural level
//! generation, exploration tracking, combat, monster behaviour, item
//! effects, character progression and a lossless save/load codec.
//!
//! Everything here is deterministic: randomness enters only through the
//! seedable [`rng::Rng`] that callers thread through the generation and
//! behaviour functions, and the field-of-view computation is consumed as a
//! capability (a caller-supplied grid of visible tiles).

use vstd::prelude::*;

pub mod adventure;
pub mod ai;
pub mod codec;
pub mod fov;
pub mod game;
pub mod generation;
pub mod items;
pub mod messages;
pub mod models;
pub mod motion;
pub mod object;
pub mod progression;
pub mod rect;
pub mod rng;
pub mod tile;

verus! {

/// Width of a dungeon level, in tiles.
pub const MAP_WIDTH: i32 = 80;

/// Height of a dungeon level, in tiles.
pub const MAP_HEIGHT: i32 = 43;

/// Smallest side of a generated room, walls excluded.
pub const ROOM_MIN_SIZE: i32 = 6;

/// Largest side of a generated room.
pub const ROOM_MAX_SIZE: i32 = 10;

/// Number of room placements attempted per level.
pub const MAX_ROOMS: i32 = 30;

/// Radius of the player's light, in tiles.
pub const TORCH_RADIUS: i32 = 10;

/// Hit points restored by a healing potion.
pub const HEAL_AMOUNT: i32 = 40;

/// Damage dealt by a lightning bolt scroll.
pub const LIGHTNING_DAMAGE: i32 = 40;

/// Maximum distance at which a lightning bolt finds a target.
pub const LIGHTNING_RANGE: i32 = 5;

/// Maximum distance at which a confusion scroll finds a target.
pub const CONFUSE_RANGE: i32 = 8;

/// Turn counter a confusion scroll starts a monster with.
pub const CONFUSE_NUM_TURNS: i32 = 10;

/// Radius of a fireball blast, in tiles.
pub const FIREBALL_RADIUS: i32 = 3;

/// Damage dealt by a fireball to every fighter in the blast.
pub const FIREBALL_DAMAGE: i32 = 25;

/// Index of the player in the object list, always.
pub const PLAYER: usize = 0;

/// Base experience needed for the first level-up.
pub const LEVEL_UP_BASE: i32 = 200;

/// Additional experience needed per level already reached.
pub const LEVEL_UP_FACTOR: i32 = 150;

/// Most items an inventory can hold.
pub const INVENTORY_CAP: usize = 26;

/// Upper bound on any single combat statistic (hit points, power,
/// defense, a monster's banked experience). Keeps every single
/// arithmetic step of combat inside `i32`.
pub const STAT_LIMIT: i32 = 1000000;

/// Upper bound on the player's accumulated experience under which one
/// more award is guaranteed not to overflow.
pub const XP_LIMIT: i32 = 1000000000;

/// Upper bound on the number of objects on one level.
pub const OBJECT_CAP: usize = 1000;

} // verus!
