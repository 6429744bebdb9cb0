//! The two-dimensional arrays of the `array2d` crate that hold the cells of a
//! layer, with what this library relies on of them.
use vstd::prelude::*;

use crate::key::{KeycodeKey, PhalanxKey};
use array2d::Array2D;

verus! {

#[verifier::external_type_specification]
#[verifier::external_body]
#[verifier::reject_recursive_types(T)]
pub struct ExArray2D<T>(Array2D<T>);

/// The cells of a keycode array in row-major order.
pub uninterp spec fn key_cells(a: Array2D<KeycodeKey>) -> Seq<KeycodeKey>;

/// The number of columns of a keycode array.
pub uninterp spec fn key_columns(a: Array2D<KeycodeKey>) -> nat;

/// The cells of a phalanx array in row-major order.
pub uninterp spec fn phalanx_cells(a: Array2D<PhalanxKey>) -> Seq<PhalanxKey>;

/// The number of columns of a phalanx array.
pub uninterp spec fn phalanx_columns(a: Array2D<PhalanxKey>) -> nat;

/// Relies on `Array2D::filled_with`: `rows * columns` copies of `element`,
/// stored row by row.
#[verifier::external_body]
pub fn key_grid_filled(element: KeycodeKey, rows: usize, columns: usize) -> (a: Array2D<KeycodeKey>)
    requires
        rows * columns <= usize::MAX,
    ensures
        key_cells(a) == Seq::new((rows * columns) as nat, |i: int| element),
        key_columns(a) == columns,
{
    Array2D::filled_with(element, rows, columns)
}

/// Relies on indexing an `Array2D` by `(row, column)`: the cell at
/// `row * columns + column` of the row-major storage.
#[verifier::external_body]
pub fn key_grid_get(a: &Array2D<KeycodeKey>, row: usize, column: usize) -> (k: KeycodeKey)
    requires
        column < key_columns(*a),
        row * key_columns(*a) + column < key_cells(*a).len(),
    ensures
        k == key_cells(*a)[row * key_columns(*a) + column],
{
    a[(row, column)]
}

/// Relies on `Array2D::set`: replaces the cell at `(row, column)`.
#[verifier::external_body]
pub fn key_grid_set(a: &mut Array2D<KeycodeKey>, row: usize, column: usize, k: KeycodeKey)
    requires
        column < key_columns(*old(a)),
        row * key_columns(*old(a)) + column < key_cells(*old(a)).len(),
    ensures
        key_columns(*final(a)) == key_columns(*old(a)),
        key_cells(*final(a)) == key_cells(*old(a)).update(
            row * key_columns(*old(a)) + column,
            k,
        ),
{
    let _ = a.set(row, column, k);
}

/// Relies on the derived `Clone` of `Array2D`: the same cells and shape.
#[verifier::external_body]
pub fn key_grid_clone(a: &Array2D<KeycodeKey>) -> (r: Array2D<KeycodeKey>)
    ensures
        key_cells(r) == key_cells(*a),
        key_columns(r) == key_columns(*a),
{
    a.clone()
}

/// Relies on `Array2D::filled_with`: `rows * columns` copies of `element`,
/// stored row by row.
#[verifier::external_body]
pub fn phalanx_grid_filled(element: PhalanxKey, rows: usize, columns: usize) -> (a: Array2D<
    PhalanxKey,
>)
    requires
        rows * columns <= usize::MAX,
    ensures
        phalanx_cells(a) == Seq::new((rows * columns) as nat, |i: int| element),
        phalanx_columns(a) == columns,
{
    Array2D::filled_with(element, rows, columns)
}

/// Relies on indexing an `Array2D` by `(row, column)`: the cell at
/// `row * columns + column` of the row-major storage.
#[verifier::external_body]
pub fn phalanx_grid_get(a: &Array2D<PhalanxKey>, row: usize, column: usize) -> (k: PhalanxKey)
    requires
        column < phalanx_columns(*a),
        row * phalanx_columns(*a) + column < phalanx_cells(*a).len(),
    ensures
        k == phalanx_cells(*a)[row * phalanx_columns(*a) + column],
{
    a[(row, column)]
}

/// Relies on `Array2D::set`: replaces the cell at `(row, column)`.
#[verifier::external_body]
pub fn phalanx_grid_set(a: &mut Array2D<PhalanxKey>, row: usize, column: usize, k: PhalanxKey)
    requires
        column < phalanx_columns(*old(a)),
        row * phalanx_columns(*old(a)) + column < phalanx_cells(*old(a)).len(),
    ensures
        phalanx_columns(*final(a)) == phalanx_columns(*old(a)),
        phalanx_cells(*final(a)) == phalanx_cells(*old(a)).update(
            row * phalanx_columns(*old(a)) + column,
            k,
        ),
{
    let _ = a.set(row, column, k);
}

} // verus!
