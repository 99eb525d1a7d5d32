//! Conway's Game of Life on a fixed-size toroidal grid.
//!
//! A [`universe::Universe`] owns a bit-packed buffer of `width * height`
//! cells in row-major order. Coordinates wrap around both edges, so every
//! cell has exactly eight Moore neighbors and indexing is total. Each tick
//! computes the next generation from a snapshot of the current one and
//! swaps in the new buffer atomically.

pub mod bits;
pub mod cell;
pub mod pattern;
pub mod text;
pub mod universe;
