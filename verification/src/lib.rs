//! Tile catalogs and a greedy, stack-driven grid fill with verified contracts.

pub mod board;
pub mod fill;
pub mod laws;
pub mod prelude;
pub mod rng;
pub mod tile;
pub mod tile_model;
