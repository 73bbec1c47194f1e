//! A 9x9 logic-puzzle solver: per-cell candidate tracking, constraint
//! propagation over row/column/box uniqueness, and backtracking search guided
//! by the minimum-remaining-values heuristic.
//!
//! The pieces, leaves first:
//! - [`board`]: the grid of digits (0 for an empty cell), its uniqueness
//!   checks, and the text format boards are read from;
//! - [`guess`]: one cell's solving state — a given, a settled value, or the
//!   set of candidates still open;
//! - [`solver`]: candidate narrowing to a fixed point, one reversible
//!   speculative step when narrowing stalls, and the driver that combines
//!   them; its contracts say that a solved answer extends the givens and is
//!   valid, and that a refusal means no solution exists at all;
//! - [`props`]: grid-wide consequences proved from those contracts;
//! - [`cli`]: exactly specified console renderings;
//! - [`matrix`] and [`utils`]: the trusted boundary around the `ndarray`
//!   storage and the file-system lookup of the board directory.

use vstd::prelude::*;

pub mod board;
pub mod cli;
pub mod guess;
pub mod matrix;
pub mod props;
pub mod solver;
pub mod utils;

verus! {

/// The index into the 81-cell row-major grid for row `i`, column `j`.
pub open spec fn cell_index(i: int, j: int) -> int {
    i * 9 + j
}

/// Splits a row-major cell index into its row and column pair.
pub fn coords_of(k: usize) -> (r: (usize, usize))
    requires
        k < 81,
    ensures
        r.0 < 9,
        r.1 < 9,
        cell_index(r.0 as int, r.1 as int) == k,
{
    (k / 9, k % 9)
}

} // verus!
