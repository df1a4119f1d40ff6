//! Counting lines of text in the files under a set of paths: the line
//! counter, the extension filter, the classification of the paths a run is
//! given, the depth-first directory walk, and the running total.

pub mod lines;
pub mod filter;
pub mod error;
pub mod traverse;
pub mod classify;
pub mod tally;
pub mod tree;
