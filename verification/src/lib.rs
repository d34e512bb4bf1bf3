//! A solver for Sudoku by constraint propagation.
//!
//! For every cell the solver keeps the set of values that are still possible
//! there, as a mask of nine bits. Rules look at groups of related cells and
//! narrow these sets; a cell whose set has shrunk to one value gets that value.
//! The propagation loop applies all rules again and again until a pass no
//! longer changes the grid. It only deduces and never guesses, so it may stop
//! with cells left unknown.
//!
//! - [`board`]: the grid of values.
//! - [`mask`]: the masks of candidates and their conversions.
//! - [`candidates`]: the candidates of every cell.
//! - [`region`]: rows, columns and boxes.
//! - [`exclude_when_solved`], [`unique_by_region`], [`fill_region_uniquely`]:
//!   the three rules; [`rules`]: a rule of any kind, and the rule set of the
//!   9 by 9 grid.
//! - [`solver`]: a pass, and the propagation loop.
//! - [`convergence`]: what holds once the loop has converged.
//! - [`soundness`]: that the loop never contradicts a solution of the puzzle.

pub mod board;
pub mod candidates;
pub mod convergence;
pub mod exclude_when_solved;
pub mod fill_region_uniquely;
pub mod mask;
pub mod region;
pub mod rules;
pub mod solver;
pub mod soundness;
pub mod unique_by_region;
