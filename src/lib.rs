//! A* shortest-path search over a fixed rectangular grid of cells.
//!
//! Cells are stored row-major in a flat array; walls cannot be entered and
//! every other move costs one step.  The search is proved to return a
//! shortest walk whenever one exists and to report that none exists
//! otherwise.

pub mod grid;
pub mod marking;
pub mod search;
pub mod lemmas;
