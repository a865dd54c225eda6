//! A nonogram (picross) constraint-propagation solver.
//!
//! Given run-length clues for every row and column of a rectangular grid,
//! the solver enumerates the candidate fillings of each line, intersects
//! them into per-cell certainty masks, propagates known cells between the
//! row view and the column view, and repeats until the grid is determined,
//! a contradiction appears, or no further deduction is possible.

pub mod cells;
pub mod combos;
pub mod lines;
pub mod masks;
pub mod solver;

pub use cells::Cell;
