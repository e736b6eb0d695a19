//! The two-dimensional arrays that hold the wave and the solved grid.

use array2d::Array2D;
use vstd::prelude::*;
use crate::tile::Field;

verus! {

/// `array2d::Array2D`, a fixed-size two-dimensional array, taken as it is:
/// what it holds is known only through the functions below.
#[verifier::external_type_specification]
#[verifier::external_body]
#[verifier::reject_recursive_types(T)]
pub struct ExArray2D<T>(Array2D<T>);

/// The candidate lists of a wave, row by row from the top, each row from
/// west to east.
pub uninterp spec fn wave_rows(w: Array2D<Vec<&Field>>) -> Seq<Seq<Vec<&Field>>>;

/// The number of columns of a wave.
pub uninterp spec fn wave_width(w: Array2D<Vec<&Field>>) -> nat;

/// `Array2D::num_rows`: the number of rows.
#[verifier::external_body]
pub(crate) fn wave_num_rows(w: &Array2D<Vec<&Field>>) -> (r: usize)
    ensures
        r == wave_rows(*w).len(),
{
    w.num_rows()
}

/// `Array2D::num_columns`: the number of columns, which is the length of
/// every row.
#[verifier::external_body]
pub(crate) fn wave_num_columns(w: &Array2D<Vec<&Field>>) -> (r: usize)
    ensures
        r == wave_width(*w),
        forall|y: int| 0 <= y < wave_rows(*w).len() ==> (#[trigger] wave_rows(*w)[y]).len() == r,
{
    w.num_columns()
}

/// `Array2D::get`: the element at a row and a column, or nothing when
/// either index is out of bounds.
#[verifier::external_body]
pub(crate) fn wave_get<'w, 'a>(w: &'w Array2D<Vec<&'a Field>>, row: usize, column: usize) -> (r:
    Option<&'w Vec<&'a Field>>)
    ensures
        r == (if row < wave_rows(*w).len() && column < wave_width(*w) {
            Some(&wave_rows(*w)[row as int][column as int])
        } else {
            None
        }),
{
    w.get(row, column)
}

/// `Array2D::set`: replaces the element at a row and a column and reports
/// success, or changes nothing and reports failure when either index is out
/// of bounds.
#[verifier::external_body]
pub(crate) fn wave_set<'a>(
    w: &mut Array2D<Vec<&'a Field>>,
    row: usize,
    column: usize,
    cell: Vec<&'a Field>,
) -> (ok: bool)
    ensures
        ok == (row < wave_rows(*old(w)).len() && column < wave_width(*old(w))),
        wave_width(*final(w)) == wave_width(*old(w)),
        ok ==> wave_rows(*final(w)) == wave_rows(*old(w)).update(
            row as int,
            wave_rows(*old(w))[row as int].update(column as int, cell),
        ),
        !ok ==> wave_rows(*final(w)) == wave_rows(*old(w)),
{
    w.set(row, column, cell).is_ok()
}

/// The most cells that a wave can have: the cells are allocated at once,
/// each takes three machine words, and an allocation has a size in `isize`.
pub open spec fn max_cells() -> int {
    isize::MAX / 24
}

/// `Array2D::filled_with`: an array of the given size with a copy of one
/// element at every place. It multiplies the two sizes and allocates that
/// many elements at once, so their product is kept in bounds.
#[verifier::external_body]
pub(crate) fn wave_filled<'a>(cell: Vec<&'a Field>, num_rows: usize, num_columns: usize) -> (w:
    Array2D<Vec<&'a Field>>)
    requires
        num_rows * num_columns <= max_cells(),
    ensures
        wave_rows(w).len() == num_rows,
        wave_width(w) == num_columns,
        forall|y: int|
            0 <= y < num_rows ==> (#[trigger] wave_rows(w)[y]).len() == num_columns,
        forall|y: int, x: int|
            0 <= y < num_rows && 0 <= x < num_columns ==> (#[trigger] wave_rows(w)[y][x])@
                == cell@,
{
    Array2D::filled_with(cell, num_rows, num_columns)
}

/// The tiles of a solved grid, row by row from the top, each row from west
/// to east.
pub uninterp spec fn tile_rows(g: Array2D<Field>) -> Seq<Seq<Field>>;

/// `Array2D::from_rows`: an array with copies of the given rows, or nothing
/// when the rows differ in length.
#[verifier::external_body]
pub(crate) fn tiles_from_rows(rows: &Vec<Vec<Field>>) -> (r: Option<Array2D<Field>>)
    ensures
        r is Some == (forall|y: int|
            0 <= y < rows@.len() ==> (#[trigger] rows@[y])@.len() == rows@[0]@.len()),
        r is Some ==> tile_rows(r->0).len() == rows@.len(),
        r is Some ==> forall|y: int|
            0 <= y < rows@.len() ==> (#[trigger] tile_rows(r->0)[y]).len() == rows@[y]@.len(),
        r is Some ==> forall|y: int, x: int|
            0 <= y < rows@.len() && 0 <= x < rows@[y]@.len() ==> (#[trigger] tile_rows(
                r->0,
            )[y][x])@ == rows@[y]@[x]@,
{
    Array2D::from_rows(rows.as_slice()).ok()
}

} // verus!
