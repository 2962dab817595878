//! The capability contract shared by the three sparse formats.
//!
//! A sparse matrix is modelled by its dimensions, a `stored` predicate
//! saying which positions hold an explicit entry, and a `value_at`
//! function giving the entry word at each position (0 where nothing is
//! stored). Every operation of the shared trait is specified against this
//! model, so the three formats are interchangeable to callers.

use vstd::prelude::*;

use crate::indexing::col_of_flat;
use crate::indexing::row_of_flat;
use crate::scalar::add_bits;
use crate::scalar::density_count_of;
use crate::scalar::mul_bits;
use crate::sorting::sorted_strict;

verus! {

/// The two ways a point access can fail.
#[derive(Clone, Copy, Debug, PartialEq, Eq, Structural)]
pub enum MatrixError {
    /// The row or column index lies outside the matrix.
    OutOfBounds,
    /// The position holds no entry and the format's fixed layout does not
    /// support inserting new positions.
    NotStored,
}

/// A dense grid of entry words: at least one row, all rows of one length.
pub open spec fn dense_wf(d: Seq<Seq<u32>>) -> bool {
    &&& d.len() > 0
    &&& forall|i: int| 0 <= i < d.len() ==> #[trigger] d[i].len() == d[0].len()
}

/// Number of nonzero words among the first `j` cells of a row.
pub open spec fn row_nnz_to(r: Seq<u32>, j: int) -> nat
    decreases j,
{
    if j <= 0 {
        0
    } else {
        row_nnz_to(r, j - 1) + if r[j - 1] != 0 {
            1nat
        } else {
            0nat
        }
    }
}

/// Number of nonzero words in the first `i` rows of a dense grid.
pub open spec fn dense_nnz_to(d: Seq<Seq<u32>>, i: int) -> nat
    decreases i,
{
    if i <= 0 {
        0
    } else {
        dense_nnz_to(d, i - 1) + row_nnz_to(d[i - 1], d[i - 1].len() as int)
    }
}

/// Number of nonzero words in a dense grid.
pub open spec fn dense_nnz(d: Seq<Seq<u32>>) -> nat {
    dense_nnz_to(d, d.len() as int)
}

/// The operations every sparse format offers, specified against the
/// abstract model: dimensions, the set of stored positions, and the entry
/// word at each position.
pub trait SparseMatrixTrait: Sized {
    /// Number of rows of the represented matrix.
    spec fn spec_nrows(&self) -> nat;

    /// Number of columns of the represented matrix.
    spec fn spec_ncols(&self) -> nat;

    /// The format's structural invariant.
    spec fn wf(&self) -> bool;

    /// Number of explicitly stored entries.
    spec fn spec_nnz(&self) -> nat;

    /// Whether position `(i, j)` holds an explicitly stored entry.
    spec fn stored(&self, i: int, j: int) -> bool;

    /// The entry word at position `(i, j)`: the stored word, or 0 where
    /// nothing is stored.
    spec fn value_at(&self, i: int, j: int) -> u32;

    /// Whether `set` may create a new stored position (true for the
    /// coordinate format; false for the compressed fixed layouts).
    spec fn supports_insert() -> bool;

    /// An `nrows x ncols` matrix with no stored entries.
    fn new(nrows: usize, ncols: usize) -> (r: Self)
        requires
            nrows + 1 <= usize::MAX,
            ncols + 1 <= usize::MAX,
        ensures
            r.wf(),
            r.spec_nrows() == nrows,
            r.spec_ncols() == ncols,
            r.spec_nnz() == 0,
            forall|i: int, j: int| !r.stored(i, j),
    ;

    /// A matrix whose stored count is exactly the count the density word
    /// asks of `nrows * ncols` cells (capped by the cell count), at
    /// distinct positions drawn without replacement, with pseudo-random
    /// entry words; deterministic in the seed.
    fn random(nrows: usize, ncols: usize, density: u32, seed: u64) -> (r: Self)
        requires
            nrows * ncols <= usize::MAX,
            nrows + 1 <= usize::MAX,
            ncols + 1 <= usize::MAX,
        ensures
            r.wf(),
            r.spec_nrows() == nrows,
            r.spec_ncols() == ncols,
            density_count_of((nrows * ncols) as usize, density) <= nrows * ncols ==> r.spec_nnz()
                == density_count_of((nrows * ncols) as usize, density),
            density_count_of((nrows * ncols) as usize, density) > nrows * ncols ==> r.spec_nnz()
                == nrows * ncols,
    ;

    /// The sparse form of a dense grid: every nonzero cell becomes a
    /// stored entry, and nothing else is stored.
    fn from_dense(dense: Vec<Vec<u32>>) -> (r: Self)
        requires
            dense_wf(dense.deep_view()),
            dense.deep_view().len() + 1 <= usize::MAX,
            dense.deep_view()[0].len() + 1 <= usize::MAX,
            dense.deep_view().len() * dense.deep_view()[0].len() <= usize::MAX,
        ensures
            r.wf(),
            r.spec_nrows() == dense.deep_view().len(),
            r.spec_ncols() == dense.deep_view()[0].len(),
            r.spec_nnz() == dense_nnz(dense.deep_view()),
            forall|i: int, j: int|
                0 <= i < r.spec_nrows() && 0 <= j < r.spec_ncols() ==> (r.stored(i, j)
                    <==> dense.deep_view()[i][j] != 0),
            forall|i: int, j: int|
                0 <= i < r.spec_nrows() && 0 <= j < r.spec_ncols() ==> r.value_at(i, j)
                    == dense.deep_view()[i][j],
    ;

    /// The dense grid of the matrix: each cell holds the entry word at its
    /// position, zeros where nothing is stored.
    fn to_dense(&self) -> (r: Vec<Vec<u32>>)
        requires
            self.wf(),
        ensures
            r.deep_view().len() == self.spec_nrows(),
            forall|i: int|
                0 <= i < r.deep_view().len() ==> #[trigger] r.deep_view()[i].len()
                    == self.spec_ncols(),
            forall|i: int, j: int|
                0 <= i < self.spec_nrows() && 0 <= j < self.spec_ncols()
                    ==> r.deep_view()[i][j] == self.value_at(i, j),
    ;

    /// The entry word at `(i, j)`, or the bounds error outside the matrix.
    fn get(&self, i: usize, j: usize) -> (r: Result<u32, MatrixError>)
        requires
            self.wf(),
        ensures
            i < self.spec_nrows() && j < self.spec_ncols() ==> r == Ok::<u32, MatrixError>(
                self.value_at(i as int, j as int),
            ),
            !(i < self.spec_nrows() && j < self.spec_ncols()) ==> r == Err::<u32, MatrixError>(
                MatrixError::OutOfBounds,
            ),
    ;

    /// Store `value` at `(i, j)`. Outside the matrix this is the bounds
    /// error. At a stored position the entry is updated in place. At an
    /// absent position, a format that supports insertion appends the new
    /// entry; a fixed layout reports the rejection and changes nothing.
    fn set(&mut self, i: usize, j: usize, value: u32) -> (r: Result<(), MatrixError>)
        requires
            old(self).wf(),
        ensures
            final(self).wf(),
            final(self).spec_nrows() == old(self).spec_nrows(),
            final(self).spec_ncols() == old(self).spec_ncols(),
            i < old(self).spec_nrows() && j < old(self).spec_ncols() && old(self).stored(
                i as int,
                j as int,
            ) ==> {
                &&& r == Ok::<(), MatrixError>(())
                &&& final(self).spec_nnz() == old(self).spec_nnz()
                &&& forall|i2: int, j2: int|
                    final(self).stored(i2, j2) <==> old(self).stored(i2, j2)
                &&& final(self).value_at(i as int, j as int) == value
                &&& forall|i2: int, j2: int|
                    !(i2 == i as int && j2 == j as int) ==> final(self).value_at(i2, j2) == old(
                        self,
                    ).value_at(i2, j2)
            },
            i < old(self).spec_nrows() && j < old(self).spec_ncols() && !old(self).stored(
                i as int,
                j as int,
            ) && Self::supports_insert() ==> {
                &&& r == Ok::<(), MatrixError>(())
                &&& final(self).spec_nnz() == old(self).spec_nnz() + 1
                &&& forall|i2: int, j2: int|
                    final(self).stored(i2, j2) <==> (old(self).stored(i2, j2) || (i2 == i as int
                        && j2 == j as int))
                &&& final(self).value_at(i as int, j as int) == value
                &&& forall|i2: int, j2: int|
                    !(i2 == i as int && j2 == j as int) ==> final(self).value_at(i2, j2) == old(
                        self,
                    ).value_at(i2, j2)
            },
            i < old(self).spec_nrows() && j < old(self).spec_ncols() && !old(self).stored(
                i as int,
                j as int,
            ) && !Self::supports_insert() ==> {
                &&& r == Err::<(), MatrixError>(MatrixError::NotStored)
                &&& *final(self) == *old(self)
            },
            !(i < old(self).spec_nrows() && j < old(self).spec_ncols()) ==> {
                &&& r == Err::<(), MatrixError>(MatrixError::OutOfBounds)
                &&& *final(self) == *old(self)
            },
    ;

    /// The dimensions `(nrows, ncols)`.
    fn size(&self) -> (r: (usize, usize))
        ensures
            r.0 == self.spec_nrows(),
            r.1 == self.spec_ncols(),
    ;

    /// The number of explicitly stored entries.
    fn nnz(&self) -> (r: usize)
        ensures
            r == self.spec_nnz(),
    ;
}

/// Scan a dense grid in row-major order and collect the flat positions
/// and words of its nonzero cells. The flats come out strictly ascending,
/// one per nonzero cell.
#[verifier::rlimit(80)]
pub fn dense_nonzero_flats(dense: &Vec<Vec<u32>>, nrows: usize, ncols: usize) -> (r: (
    Vec<usize>,
    Vec<u32>,
))
    requires
        dense_wf(dense.deep_view()),
        nrows == dense.deep_view().len(),
        ncols == dense.deep_view()[0].len(),
        nrows * ncols <= usize::MAX,
    ensures
        r.0@.len() == r.1@.len(),
        r.0@.len() == dense_nnz(dense.deep_view()),
        sorted_strict(r.0@),
        forall|t: int|
            0 <= t < r.0@.len() ==> (#[trigger] r.0@[t] as int) < (nrows as int) * (ncols as int),
        forall|t: int|
            0 <= t < r.0@.len() ==> 0 <= row_of_flat(#[trigger] r.0@[t] as int, ncols as int)
                < nrows && 0 <= col_of_flat(r.0@[t] as int, ncols as int) < ncols,
        forall|t: int|
            0 <= t < r.0@.len() ==> dense.deep_view()[row_of_flat(
                #[trigger] r.0@[t] as int,
                ncols as int,
            )][col_of_flat(r.0@[t] as int, ncols as int)] == r.1@[t] && r.1@[t] != 0,
        forall|i: int, j: int|
            0 <= i < nrows && 0 <= j < ncols && dense.deep_view()[i][j] != 0 ==> r.0@.contains(
                ((i * ncols + j) as usize),
            ),
{
    let ghost d = dense.deep_view();
    let mut flats: Vec<usize> = Vec::new();
    let mut vals: Vec<u32> = Vec::new();
    proof {
        assert forall|i2: int| 0 <= i2 < d.len() implies #[trigger] d[i2] == dense@[i2]@ by {
            assert(d[i2] =~= dense@[i2]@);
        }
    }
    let mut i: usize = 0;
    while i < nrows
        invariant
            dense_wf(d),
            d == dense.deep_view(),
            nrows == d.len(),
            ncols == d[0].len(),
            nrows * ncols <= usize::MAX,
            forall|i2: int| 0 <= i2 < d.len() ==> #[trigger] d[i2] == dense@[i2]@,
            i <= nrows,
            flats@.len() == vals@.len(),
            flats@.len() == dense_nnz_to(d, i as int),
            forall|t: int|
                0 <= t < flats@.len() ==> (#[trigger] flats@[t] as int) < (i as int) * (
                ncols as int),
            sorted_strict(flats@),
            forall|t: int|
                0 <= t < flats@.len() ==> 0 <= row_of_flat(
                    #[trigger] flats@[t] as int,
                    ncols as int,
                ) < i && 0 <= col_of_flat(flats@[t] as int, ncols as int) < ncols,
            forall|t: int|
                0 <= t < flats@.len() ==> d[row_of_flat(#[trigger] flats@[t] as int, ncols as int)][col_of_flat(
                    flats@[t] as int,
                    ncols as int,
                )] == vals@[t] && vals@[t] != 0,
            forall|i2: int, j2: int|
                0 <= i2 < i && 0 <= j2 < ncols && d[i2][j2] != 0 ==> flats@.contains(
                    ((i2 * ncols + j2) as usize),
                ),
        decreases nrows - i,
    {
        let mut j: usize = 0;
        while j < ncols
            invariant
                dense_wf(d),
                d == dense.deep_view(),
                nrows == d.len(),
                ncols == d[0].len(),
                nrows * ncols <= usize::MAX,
                forall|i2: int| 0 <= i2 < d.len() ==> #[trigger] d[i2] == dense@[i2]@,
                i < nrows,
                j <= ncols,
                flats@.len() == vals@.len(),
                flats@.len() == dense_nnz_to(d, i as int) + row_nnz_to(d[i as int], j as int),
                forall|t: int|
                    0 <= t < flats@.len() ==> (#[trigger] flats@[t] as int) < (i as int) * (
                    ncols as int) + j,
                sorted_strict(flats@),
                forall|t: int|
                    0 <= t < flats@.len() ==> 0 <= row_of_flat(
                        #[trigger] flats@[t] as int,
                        ncols as int,
                    ) < nrows && 0 <= col_of_flat(flats@[t] as int, ncols as int) < ncols,
                forall|t: int|
                    0 <= t < flats@.len() ==> d[row_of_flat(
                        #[trigger] flats@[t] as int,
                        ncols as int,
                    )][col_of_flat(flats@[t] as int, ncols as int)] == vals@[t] && vals@[t] != 0,
                forall|i2: int, j2: int|
                    0 <= i2 < i && 0 <= j2 < ncols && d[i2][j2] != 0 ==> flats@.contains(
                        ((i2 * ncols + j2) as usize),
                    ),
                forall|j2: int|
                    0 <= j2 < j && d[i as int][j2] != 0 ==> flats@.contains(
                        ((i as int * ncols + j2) as usize),
                    ),
            decreases ncols - j,
        {
            let value = dense[i][j];
            let ghost old_flats = flats@;
            if value != 0 {
                proof {
                    crate::indexing::lemma_row_major_flat_bounds(
                        i as int,
                        j as int,
                        nrows as int,
                        ncols as int,
                    );
                    crate::indexing::lemma_row_major_flat_decode(i as int, j as int, ncols as int);
                    assert((i as int) * (ncols as int) + j < (nrows as int) * (ncols as int));
                }
                flats.push(i * ncols + j);
                vals.push(value);
                proof {
                    assert(forall|t: int|
                        0 <= t < old_flats.len() ==> #[trigger] flats@[t] == old_flats[t]);
                    assert(flats@[flats@.len() - 1] == (i * ncols + j) as usize);
                }
            }
            j = j + 1;
            proof {
                assert forall|t: int|
                    0 <= t < flats@.len() implies (#[trigger] flats@[t] as int) < (i as int) * (
                ncols as int) + j by {}
                assert forall|j2: int|
                    0 <= j2 < j && d[i as int][j2] != 0 implies flats@.contains(
                    ((i as int * ncols + j2) as usize),
                ) by {
                    if j2 == j - 1 {
                        assert(value != 0);
                        assert(flats@[flats@.len() - 1] == ((i as int * ncols + j2) as usize));
                    } else {
                        let t = choose|t: int|
                            0 <= t < old_flats.len() && old_flats[t] == ((i as int * ncols
                                + j2) as usize);
                        assert(flats@[t] == ((i as int * ncols + j2) as usize));
                    }
                }
                assert forall|i2: int, j2: int|
                    0 <= i2 < i && 0 <= j2 < ncols && d[i2][j2] != 0 implies flats@.contains(
                    ((i2 * ncols + j2) as usize),
                ) by {
                    let t = choose|t: int|
                        0 <= t < old_flats.len() && old_flats[t] == ((i2 * ncols + j2) as usize);
                    assert(flats@[t] == ((i2 * ncols + j2) as usize));
                }
            }
        }
        i = i + 1;
        proof {
            assert(d[i - 1].len() == ncols);
            assert(flats@.len() == dense_nnz_to(d, i as int));
            assert forall|t: int|
                0 <= t < flats@.len() implies d[row_of_flat(
                #[trigger] flats@[t] as int,
                ncols as int,
            )][col_of_flat(flats@[t] as int, ncols as int)] == vals@[t] && vals@[t] != 0 by {}
            assert forall|t: int|
                0 <= t < flats@.len() implies (#[trigger] flats@[t] as int) < (i as int) * (
            ncols as int) by {
                assert((i as int - 1) * (ncols as int) + (ncols as int) == (i as int) * (
                ncols as int)) by (nonlinear_arith);
            }
            assert forall|t: int|
                0 <= t < flats@.len() implies 0 <= row_of_flat(
                #[trigger] flats@[t] as int,
                ncols as int,
            ) < i && 0 <= col_of_flat(flats@[t] as int, ncols as int) < ncols by {
                crate::indexing::lemma_flat_decode_bounds(
                    flats@[t] as int,
                    i as int,
                    ncols as int,
                );
            }
        }
    }
    (flats, vals)
}

/// The running product entry at `(i, j)` of two matrices: fold, over the
/// inner indices from `k` upward, the IEEE single product of each matched
/// pair of entries into the accumulator, in ascending index order.
pub open spec fn product_entry_from<A: SparseMatrixTrait, B: SparseMatrixTrait>(
    a: &A,
    b: &B,
    i: int,
    j: int,
    k: int,
    acc: u32,
) -> u32
    decreases a.spec_ncols() - k,
{
    if k < a.spec_ncols() {
        if a.stored(i, k) && b.stored(k, j) {
            product_entry_from(
                a,
                b,
                i,
                j,
                k + 1,
                add_bits(acc, mul_bits(a.value_at(i, k), b.value_at(k, j))),
            )
        } else {
            product_entry_from(a, b, i, j, k + 1, acc)
        }
    } else {
        acc
    }
}

/// The product entry at `(i, j)` of two matrices: the dot product of row
/// `i` of `a` and column `j` of `b`, accumulated over the matched inner
/// indices in ascending order, starting from the zero word.
pub open spec fn product_entry<A: SparseMatrixTrait, B: SparseMatrixTrait>(
    a: &A,
    b: &B,
    i: int,
    j: int,
) -> u32 {
    product_entry_from(a, b, i, j, 0, 0)
}

/// Where no inner index from `k` on has entries stored on both sides,
/// the product fold adds nothing.
pub proof fn lemma_product_entry_from_no_pairs<A: SparseMatrixTrait, B: SparseMatrixTrait>(
    a: &A,
    b: &B,
    i: int,
    j: int,
    k: int,
    acc: u32,
)
    requires
        forall|k2: int|
            #![trigger a.stored(i, k2)]
            k <= k2 < a.spec_ncols() ==> !(a.stored(i, k2) && b.stored(k2, j)),
    ensures
        product_entry_from(a, b, i, j, k, acc) == acc,
    decreases a.spec_ncols() - k,
{
    if k < a.spec_ncols() {
        lemma_product_entry_from_no_pairs(a, b, i, j, k + 1, acc);
    }
}

/// Zero-operand law: multiplying against a matrix with no stored entries
/// gives the zero word at every product position.
pub proof fn lemma_product_with_empty_is_zero<A: SparseMatrixTrait, B: SparseMatrixTrait>(
    a: &A,
    b: &B,
    i: int,
    j: int,
)
    requires
        forall|i2: int, j2: int| !b.stored(i2, j2),
    ensures
        product_entry(a, b, i, j) == 0,
{
    lemma_product_entry_from_no_pairs(a, b, i, j, 0, 0);
}

/// The product entry depends only on the abstract model of the right
/// operand: replacing it by any matrix with the same dimensions, stored
/// positions and entry words leaves every product entry unchanged.
pub proof fn lemma_product_entry_congruent<A: SparseMatrixTrait, B1: SparseMatrixTrait, B2: SparseMatrixTrait>(
    a: &A,
    b1: &B1,
    b2: &B2,
    i: int,
    j: int,
    k: int,
    acc: u32,
)
    requires
        b1.spec_nrows() == b2.spec_nrows(),
        b1.spec_ncols() == b2.spec_ncols(),
        forall|i2: int, j2: int|
            0 <= i2 < b1.spec_nrows() && 0 <= j2 < b1.spec_ncols() ==> (b1.stored(i2, j2)
                <==> b2.stored(i2, j2)),
        forall|i2: int, j2: int|
            0 <= i2 < b1.spec_nrows() && 0 <= j2 < b1.spec_ncols() ==> b1.value_at(i2, j2)
                == b2.value_at(i2, j2),
        a.spec_ncols() == b1.spec_nrows(),
        0 <= j < b1.spec_ncols(),
        0 <= k,
    ensures
        product_entry_from(a, b1, i, j, k, acc) == product_entry_from(a, b2, i, j, k, acc),
    decreases a.spec_ncols() - k,
{
    if k < a.spec_ncols() {
        assert(b1.stored(k, j) <==> b2.stored(k, j));
        if a.stored(i, k) && b1.stored(k, j) {
            assert(b1.value_at(k, j) == b2.value_at(k, j));
            lemma_product_entry_congruent(
                a,
                b1,
                b2,
                i,
                j,
                k + 1,
                add_bits(acc, mul_bits(a.value_at(i, k), b1.value_at(k, j))),
            );
        } else {
            lemma_product_entry_congruent(a, b1, b2, i, j, k + 1, acc);
        }
    }
}

/// Round-trip law: a matrix that agrees entry-wise with a dense grid
/// expands back to exactly that grid. Together with the contracts of
/// `from_dense` (whose result agrees with its argument) and `to_dense`
/// (whose result is the entry-wise expansion), this says that
/// `from_dense(d).to_dense() == d` for every well-formed dense grid, in
/// each of the three formats.
pub proof fn lemma_dense_round_trip<T: SparseMatrixTrait>(m: &T, d: Seq<Seq<u32>>, e: Seq<Seq<u32>>)
    requires
        dense_wf(d),
        m.spec_nrows() == d.len(),
        m.spec_ncols() == d[0].len(),
        forall|i: int, j: int|
            0 <= i < m.spec_nrows() && 0 <= j < m.spec_ncols() ==> m.value_at(i, j) == d[i][j],
        e.len() == m.spec_nrows(),
        forall|i: int| 0 <= i < e.len() ==> #[trigger] e[i].len() == m.spec_ncols(),
        forall|i: int, j: int|
            0 <= i < m.spec_nrows() && 0 <= j < m.spec_ncols() ==> e[i][j] == m.value_at(i, j),
    ensures
        e == d,
{
    assert forall|i: int| 0 <= i < e.len() implies e[i] == d[i] by {
        assert(e[i].len() == d[i].len());
        assert forall|j: int| 0 <= j < e[i].len() implies e[i][j] == d[i][j] by {
            assert(e[i][j] == m.value_at(i, j));
        }
        assert(e[i] =~= d[i]);
    }
    assert(e =~= d);
}

/// Two matrices (in any two formats) with the same dimensions and the
/// same entry words expand to the same dense grid. Together with the
/// conversion contracts, which preserve dimensions and entries, this says
/// that a chain of conversions leaves the dense expansion unchanged.
pub proof fn lemma_same_entries_same_dense<T1: SparseMatrixTrait, T2: SparseMatrixTrait>(
    a: &T1,
    b: &T2,
    da: Seq<Seq<u32>>,
    db: Seq<Seq<u32>>,
)
    requires
        a.spec_nrows() == b.spec_nrows(),
        a.spec_ncols() == b.spec_ncols(),
        forall|i: int, j: int|
            0 <= i < a.spec_nrows() && 0 <= j < a.spec_ncols() ==> a.value_at(i, j) == b.value_at(
                i,
                j,
            ),
        da.len() == a.spec_nrows(),
        forall|i: int| 0 <= i < da.len() ==> #[trigger] da[i].len() == a.spec_ncols(),
        forall|i: int, j: int|
            0 <= i < a.spec_nrows() && 0 <= j < a.spec_ncols() ==> da[i][j] == a.value_at(i, j),
        db.len() == b.spec_nrows(),
        forall|i: int| 0 <= i < db.len() ==> #[trigger] db[i].len() == b.spec_ncols(),
        forall|i: int, j: int|
            0 <= i < b.spec_nrows() && 0 <= j < b.spec_ncols() ==> db[i][j] == b.value_at(i, j),
    ensures
        da == db,
{
    assert forall|i: int| 0 <= i < da.len() implies da[i] == db[i] by {
        assert forall|j: int| 0 <= j < da[i].len() implies da[i][j] == db[i][j] by {
            assert(da[i][j] == a.value_at(i, j));
            assert(db[i][j] == b.value_at(i, j));
        }
        assert(da[i] =~= db[i]);
    }
    assert(da =~= db);
}

} // verus!
