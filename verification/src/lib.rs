//! A grid-based constraint-propagation engine in the style of the
//! wave function collapse algorithm: a rectangular grid of tiles, each
//! either committed to one value or holding a set of still-possible
//! values, is collapsed step by step under a pluggable rule set.

pub mod sudoku;
pub mod wfc;
