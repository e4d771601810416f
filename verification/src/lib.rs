//! A Langton's-Ant-style cellular automaton on a fixed square grid.
//!
//! A single agent walks over the grid, turning right on white cells and left
//! on black ones, flipping each cell it leaves, until it steps off the grid.
//! No per-cell color grid is ever stored: the ordered history of per-step
//! observations is the sole durable state, and both the current color of a
//! cell and the set of cells ever visited are reconstructed by replaying
//! that history.  The finished footprint is rendered as a 1-bit-per-pixel
//! raster image.

pub mod ant;
pub mod direction;
pub mod render;
