//! Arithmetic puzzle boards: every way a multiset of numbers reduces to one
//! value by pairwise `+ - * /`, the number of paths to each value, the
//! difficulty tiers those counts give, and boards drawn from the resulting
//! pools, with the player's workbench and input handling around them.
pub mod board_queue;
pub mod controller;
pub mod frequency;
pub mod generator;
pub mod input;
pub mod pools;
pub mod rational;
pub mod sampler;
pub mod state;
pub mod tree;
