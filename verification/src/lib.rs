//! Perfect mazes on a valid_grid grid: carving by randomized depth-first
//! search, shortest routes by A*, and rendering to a raster image.

pub mod carving;
pub mod counting;
pub mod generate;
pub mod grid;
pub mod picker;
pub mod render;
pub mod route;
pub mod search;
pub mod solve;
pub mod tree;
