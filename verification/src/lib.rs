//! Core of a small Sudoku web service: a 9x9 grid model, a textual puzzle
//! parser, a constraint-tracked backtracking solver, a capacity-bounded HTML
//! renderer, a two-phase response cache, and a scoped guard for a shared
//! instrumentation device.
//!
//! Everything here is ordinary sequential code with contracts; the hardware,
//! networking and task plumbing that drive it live outside this crate.

pub mod form_value;
pub mod grid;
pub mod instrumentation;
pub mod sudoku;
pub mod text;
pub mod utility;
