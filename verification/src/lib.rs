//! A toroidal Game of Life engine with dirty-cell tracking.
//!
//! The board is a flat, row-major buffer of cells whose edges wrap around. A
//! generation is computed in two passes over contiguous bands of rows: the
//! first applies a rule table to every cell that is awake, the second decides
//! which cells have to be looked at again. Everything here is plain data in
//! and plain data out, so a caller is free to run the bands on worker threads.

use vstd::prelude::*;

pub mod cell;
pub mod torus;
pub mod neighborhood;
pub mod generation;
pub mod grid;
pub mod partition;
pub mod laws;
pub mod patterns;

verus! {

/// Number of generations after which a live cell is fully red.
pub const TIME_TO_RED: u16 = 2;

/// Number of row bands a default step splits the board into.
pub const MAX_THREADS: usize = 20;

/// Cells no wider than this many pixels are drawn without an outline.
pub const OUTLINE_THRESHOLD: i32 = 2;

} // verus!
