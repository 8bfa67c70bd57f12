//! Conway's Game of Life on an unbounded two-dimensional integer grid.
//!
//! The board stores only the live cells, so memory scales with the number
//! of live cells rather than with the extent of the grid. The modules are:
//!
//! - [`cell`]: the immutable integer coordinate type and its arithmetic;
//! - [`board`]: the sparse live-cell set, neighbor counting, and the
//!   single-generation evaluation algorithm;
//! - [`parse`]: the textual coordinate-list import format;
//! - [`laws`]: proofs of the general properties the simulation guarantees.

pub mod board;
pub mod cell;
pub mod laws;
pub mod parse;
