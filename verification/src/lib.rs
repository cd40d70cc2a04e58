//! A 9x9 Sudoku solver: line-consistency propagation to a fixpoint, then
//! depth-first search over the candidates of the first ambiguous cell.
//!
//! The parts, leaves first:
//!
//! - [`domain`]: the set of digits still possible for one cell.
//! - [`line`]: what it means to fill a row, a column or a block, and which
//!   digits of each cell take part in a filling.
//! - [`constraint`] and [`propagate`]: the line propagator, a forward and a
//!   backward scan over the reachable sets of used digits.
//! - [`grid`] and [`aggregate`]: the grid of domains, and one pass of the
//!   propagator over all 27 lines.
//! - [`driver`]: passes until the grid is solved, unsolvable or stalled.
//! - [`search`]: guesses for the first ambiguous cell where the driver stalls.
//! - [`text`]: reading a puzzle from lines of text.
//! - [`theorems`]: what holds of a solved puzzle, of conflicts and of the
//!   search as a whole.

pub mod aggregate;
pub mod bits;
pub mod constraint;
pub mod domain;
pub mod driver;
pub mod error;
pub mod grid;
pub mod line;
pub mod propagate;
pub mod search;
pub mod text;
pub mod theorems;

pub use aggregate::{
    aggregate, check_block_constraints, check_col_constraints, check_row_constraints, combine,
};
pub use constraint::Constraint;
pub use domain::Domain;
pub use driver::{drive, solve_sudoku_constraints_only, Outcome};
pub use error::SudokuError;
pub use grid::{prep_inputs, DomainGrid, Grid};
pub use line::Line;
pub use propagate::check_constraints;
pub use search::solve_sudoku;
pub use text::{parse_grid, parse_line};
