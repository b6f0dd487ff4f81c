//! Solutions to fifteen puzzles, each in a module of its own, with the text
//! and number primitives that they share.
pub mod beacon;
pub mod calories;
pub mod cave;
pub mod cleanup;
pub mod crt;
pub mod error;
pub mod field;
pub mod filesystem;
pub mod hill;
pub mod monkey;
pub mod number;
pub mod packets;
pub mod rope;
pub mod rps;
pub mod rucksack;
pub mod stacks;
pub mod text;
pub mod trees;
pub mod troop;
pub mod tuning;
pub mod vec2;
