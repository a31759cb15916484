//! A verified Kakuro solver.
//!
//! A Kakuro puzzle assigns digits 1 to 9 to cells so that every declared run
//! of cells holds pairwise distinct digits that add up to the run's target.
//! The crate models puzzles as a cell/constraint graph, solves them with a
//! divide-and-conquer solver over a lazy solution algebra, and proves the
//! central properties of the solvers and of their supporting lookup table.

pub mod base_solver;
pub mod bignum;
pub mod divide;
pub mod game;
pub mod laws;
pub mod quasi;
pub mod relaxed;
pub mod split;
pub mod sum_reachable;
pub mod sum_table;
