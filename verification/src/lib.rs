//! Optimal global alignment of two byte sequences.
//!
//! A scoring grid is filled by dynamic programming over the two sequences;
//! every alignment that reaches the best score is then recovered by walking
//! the grid backwards through all tied predecessors.

pub mod scoring;
pub mod model;
pub mod grid;
pub mod path;
pub mod backtrace;
pub mod laws;
pub mod render;
