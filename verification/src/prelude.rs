//! The two types that a user of the library needs.

pub use crate::tile::Tile;
pub use crate::tile_model::TileModel;
