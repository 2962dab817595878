//! Flat (single-integer) encodings of a matrix position.
//!
//! A position `(i, j)` of an `nrows x ncols` matrix can be serialized
//! row-major, as `i * ncols + j`, or column-major, as `j * nrows + i`.
//! The two encodings are distinct and must never be mixed; the functions
//! here name them and convert between them.

use vstd::prelude::*;

verus! {

/// Row-major flat encoding of position `(i, j)` in a matrix with `ncols` columns.
pub open spec fn row_major_flat(i: int, j: int, ncols: int) -> int {
    i * ncols + j
}

/// Column-major flat encoding of position `(i, j)` in a matrix with `nrows` rows.
pub open spec fn column_major_flat(i: int, j: int, nrows: int) -> int {
    j * nrows + i
}

/// Row index recovered from a row-major flat encoding.
pub open spec fn row_of_flat(flat: int, ncols: int) -> int {
    flat / ncols
}

/// Column index recovered from a row-major flat encoding.
pub open spec fn col_of_flat(flat: int, ncols: int) -> int {
    flat % ncols
}

/// A row-major flat encoding of an in-range position is itself in range.
pub proof fn lemma_row_major_flat_bounds(i: int, j: int, nrows: int, ncols: int)
    requires
        0 <= i < nrows,
        0 <= j < ncols,
    ensures
        0 <= row_major_flat(i, j, ncols) < nrows * ncols,
{
    assert(0 <= i * ncols + j < nrows * ncols) by (nonlinear_arith)
        requires
            0 <= i < nrows,
            0 <= j < ncols,
    ;
}

/// Decoding inverts the row-major encoding.
pub proof fn lemma_row_major_flat_decode(i: int, j: int, ncols: int)
    requires
        0 <= i,
        0 <= j < ncols,
    ensures
        row_of_flat(row_major_flat(i, j, ncols), ncols) == i,
        col_of_flat(row_major_flat(i, j, ncols), ncols) == j,
{
    assert((i * ncols + j) / ncols == i && (i * ncols + j) % ncols == j) by (nonlinear_arith)
        requires
            0 <= i,
            0 <= j < ncols,
    ;
}

/// A row-major flat encoding in range decodes to an in-range position.
pub proof fn lemma_flat_decode_bounds(flat: int, nrows: int, ncols: int)
    requires
        0 < ncols,
        0 <= flat < nrows * ncols,
    ensures
        0 <= row_of_flat(flat, ncols) < nrows,
        0 <= col_of_flat(flat, ncols) < ncols,
        row_major_flat(row_of_flat(flat, ncols), col_of_flat(flat, ncols), ncols) == flat,
{
    assert(0 <= flat / ncols < nrows && 0 <= flat % ncols < ncols && (flat / ncols) * ncols
        + flat % ncols == flat) by (nonlinear_arith)
        requires
            0 < ncols,
            0 <= flat < nrows * ncols,
    ;
}

/// The row-major encoding is injective over in-range positions.
pub proof fn lemma_row_major_flat_injective(i1: int, j1: int, i2: int, j2: int, ncols: int)
    requires
        0 <= i1,
        0 <= j1 < ncols,
        0 <= i2,
        0 <= j2 < ncols,
        row_major_flat(i1, j1, ncols) == row_major_flat(i2, j2, ncols),
    ensures
        i1 == i2,
        j1 == j2,
{
    lemma_row_major_flat_decode(i1, j1, ncols);
    lemma_row_major_flat_decode(i2, j2, ncols);
}

/// Turn a row-major flat index into the column-major flat index of the
/// same position: the position is decoded under the source encoding and
/// recombined under the target one.
pub fn flat_index_to_column_major(flat_index: usize, nrows: usize, ncols: usize) -> (r: usize)
    requires
        0 < nrows,
        0 < ncols,
        nrows * ncols <= usize::MAX,
        flat_index < nrows * ncols,
    ensures
        r == column_major_flat(
            row_of_flat(flat_index as int, ncols as int),
            col_of_flat(flat_index as int, ncols as int),
            nrows as int,
        ),
        r < nrows * ncols,
{
    proof {
        lemma_flat_decode_bounds(flat_index as int, nrows as int, ncols as int);
        lemma_column_major_flat_bounds(
            row_of_flat(flat_index as int, ncols as int),
            col_of_flat(flat_index as int, ncols as int),
            nrows as int,
            ncols as int,
        );
    }
    let row = flat_index / ncols;
    let col = flat_index % ncols;
    col * nrows + row
}

/// A column-major flat encoding of an in-range position is itself in range.
pub proof fn lemma_column_major_flat_bounds(i: int, j: int, nrows: int, ncols: int)
    requires
        0 <= i < nrows,
        0 <= j < ncols,
    ensures
        0 <= column_major_flat(i, j, nrows) < nrows * ncols,
{
    assert(0 <= j * nrows + i < nrows * ncols) by (nonlinear_arith)
        requires
            0 <= i < nrows,
            0 <= j < ncols,
    ;
}

/// Decoding a column-major encoding (dividing by `nrows`) inverts it.
pub proof fn lemma_column_major_flat_decode(i: int, j: int, nrows: int)
    requires
        0 <= i < nrows,
        0 <= j,
    ensures
        column_major_flat(i, j, nrows) / nrows == j,
        column_major_flat(i, j, nrows) % nrows == i,
{
    assert((j * nrows + i) / nrows == j && (j * nrows + i) % nrows == i) by (nonlinear_arith)
        requires
            0 <= i < nrows,
            0 <= j,
    ;
}

/// Converting a row-major encoding to column-major preserves the position:
/// the result decodes (under the column-major rule) to the position the
/// source encoded (under the row-major rule).
pub proof fn lemma_flat_conversion_round_trip(flat: int, nrows: int, ncols: int)
    requires
        0 < nrows,
        0 < ncols,
        0 <= flat < nrows * ncols,
    ensures
        column_major_flat(row_of_flat(flat, ncols), col_of_flat(flat, ncols), nrows) % nrows
            == row_of_flat(flat, ncols),
        column_major_flat(row_of_flat(flat, ncols), col_of_flat(flat, ncols), nrows) / nrows
            == col_of_flat(flat, ncols),
{
    lemma_flat_decode_bounds(flat, nrows, ncols);
    lemma_column_major_flat_decode(row_of_flat(flat, ncols), col_of_flat(flat, ncols), nrows);
}

} // verus!
