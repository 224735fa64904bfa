//! A tic-tac-toe board of any number of dimensions, with the geometry that
//! maps screen pixels to cells and the renderer that paints it.
pub mod board;
pub mod surface;
pub mod geometry;
pub mod world;
