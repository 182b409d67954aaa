//! A finite-domain constraint solver: every coordinate of a finite space
//! gets exactly one item of its domain, under propagation rules that the
//! concrete puzzle supplies.

pub mod collapse;
pub mod grid;
pub mod iter;
pub mod puzzle;
pub mod sudoku;
