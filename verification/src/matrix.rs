//! Trusted boundary around the `ndarray` two-dimensional arrays that store the
//! grid of digits and the per-cell solving states.
//!
//! The arrays live in opaque holder structs; every holder is created by the
//! constructors below with shape `(9, 9)`, so indexing with row and column
//! below 9 cannot fail.  The contents are modelled by the uninterpreted
//! functions `grid_cells` / `state_cells` (the 81 elements in row-major
//! order).  Every wrapper states over these names what the `ndarray` source
//! shows of the one call its body makes.

use vstd::prelude::*;

use crate::guess::Guess;

verus! {

/// Owns a 9x9 `ndarray` matrix of digits; opaque to the verifier.
///
/// Every value of this type is built with shape `(9, 9)`.
#[verifier::external_body]
pub struct DigitMatrix {
    cells: ndarray::Array2<u8>,
}

/// Owns a 9x9 `ndarray` matrix of cell states; opaque to the verifier.
///
/// Every value of this type is built with shape `(9, 9)`.
#[verifier::external_body]
pub struct StateMatrix {
    cells: ndarray::Array2<Guess>,
}

/// The digits held by a digit matrix, in row-major order.
pub uninterp spec fn grid_cells(m: DigitMatrix) -> Seq<u8>;

/// The solving states held by a state matrix, in row-major order.
pub uninterp spec fn state_cells(m: StateMatrix) -> Seq<Guess>;

/// Relies on `ndarray::Array2::from_elem`: an owned array of the requested
/// shape, here `(9, 9)`, whose 81 elements all equal `v`.
#[verifier::external_body]
pub fn grid_filled(v: u8) -> (r: DigitMatrix)
    ensures
        grid_cells(r).len() == 81,
        forall|k: int| 0 <= k < 81 ==> grid_cells(r)[k] == v,
{
    DigitMatrix { cells: ndarray::Array2::from_elem((9, 9), v) }
}

/// Relies on `ndarray`'s `Index` impl for two-dimensional indices: returns the
/// element at row `i`, column `j` of an array in standard (row-major) layout.
#[verifier::external_body]
pub fn grid_get(m: &DigitMatrix, i: usize, j: usize) -> (r: u8)
    requires
        i < 9,
        j < 9,
    ensures
        r == grid_cells(*m)[i as int * 9 + j as int],
{
    m.cells[[i, j]]
}

/// Relies on `ndarray`'s `IndexMut` impl for two-dimensional indices: replaces
/// the element at row `i`, column `j`, leaving the other elements unchanged.
#[verifier::external_body]
pub fn grid_set(m: &mut DigitMatrix, i: usize, j: usize, v: u8)
    requires
        i < 9,
        j < 9,
    ensures
        grid_cells(*final(m)) == grid_cells(*old(m)).update(i as int * 9 + j as int, v),
{
    m.cells[[i, j]] = v;
}

/// Relies on `ndarray`'s `Clone` impl: an owned copy with the same shape and
/// the same elements.
#[verifier::external_body]
pub fn grid_clone(m: &DigitMatrix) -> (r: DigitMatrix)
    ensures
        grid_cells(r) == grid_cells(*m),
{
    DigitMatrix { cells: m.cells.clone() }
}

/// Relies on `ndarray::Array2::from_elem`: an owned array of the requested
/// shape, here `(9, 9)`, whose 81 elements all equal `g`.
#[verifier::external_body]
pub fn state_filled(g: Guess) -> (r: StateMatrix)
    ensures
        state_cells(r).len() == 81,
        forall|k: int| 0 <= k < 81 ==> state_cells(r)[k] == g,
{
    StateMatrix { cells: ndarray::Array2::from_elem((9, 9), g) }
}

/// Relies on `ndarray`'s `Index` impl for two-dimensional indices: returns the
/// element at row `i`, column `j` of an array in standard (row-major) layout.
#[verifier::external_body]
pub fn state_get(m: &StateMatrix, i: usize, j: usize) -> (r: Guess)
    requires
        i < 9,
        j < 9,
    ensures
        r == state_cells(*m)[i as int * 9 + j as int],
{
    m.cells[[i, j]]
}

/// Relies on `ndarray`'s `IndexMut` impl for two-dimensional indices: replaces
/// the element at row `i`, column `j`, leaving the other elements unchanged.
#[verifier::external_body]
pub fn state_set(m: &mut StateMatrix, i: usize, j: usize, g: Guess)
    requires
        i < 9,
        j < 9,
    ensures
        state_cells(*final(m)) == state_cells(*old(m)).update(i as int * 9 + j as int, g),
{
    m.cells[[i, j]] = g;
}

/// Relies on `ndarray`'s `Clone` impl: an owned copy with the same shape and
/// the same elements.
#[verifier::external_body]
pub fn state_clone(m: &StateMatrix) -> (r: StateMatrix)
    ensures
        state_cells(r) == state_cells(*m),
{
    StateMatrix { cells: m.cells.clone() }
}

} // verus!
