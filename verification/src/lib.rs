//! Verified core of the Arc Maze dungeon game: loot rolling, the bag grid and
//! equipment rules, maze carving, encounter placement, the merchant and menu
//! flows, spell charges, and the small procedural helpers (hashes, WAV framing).

pub mod rng;
pub mod stats;
pub mod items;
pub mod util;
pub mod inventory;
pub mod maze;
pub mod encounters;
pub mod spells;
pub mod menu;
pub mod controls;
pub mod procgen;
pub mod loadout;
