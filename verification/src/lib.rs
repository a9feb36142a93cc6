//! Map-seed and elder-roster generation for the game's procedural world.
pub mod rounding;
pub mod rng;
pub mod terrain;
pub mod constants;
pub mod text;
pub mod utils;
pub mod bits;
pub mod neighbours;
pub mod map_maker;
pub mod stages;
pub mod cover;
pub mod npc;
pub mod scan;
pub mod textops;
pub mod parse;
pub mod task;
pub mod seeds;
