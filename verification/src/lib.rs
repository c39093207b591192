//! Tile maps grown from a small sample: the sample's tiles and the pairs of
//! tiles seen side by side in it are learned, and a grid of any size is then
//! filled cell by cell with tiles that agree with their neighbours.

pub mod grid;
pub mod random;
pub mod sample;
mod sets;
pub mod shape;
pub mod tile;

pub use grid::Grid;
pub use sample::{ShapeError, TerrainSample};
pub use tile::{CharTile, Tile};
