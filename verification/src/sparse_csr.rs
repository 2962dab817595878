//! Compressed sparse row (CSR) format.
//!
//! `rowptr[i]` is the index of row `i`'s first entry in `colind` /
//! `values`; row `i` owns positions `rowptr[i] .. rowptr[i+1]`, with the
//! column indices of a row strictly ascending — which is what makes the
//! binary-search point lookup and the merge-join multiply work. The
//! layout is fixed once built: `set` may update an existing entry but
//! rejects a new position.

use vstd::prelude::*;

use crate::compressed::compress_sorted_flats;
use crate::indexing::row_of_flat;
use crate::indexing::col_of_flat;
use crate::sorting::distinct_seq;
use crate::sparse_coo::SparseCOO;
use crate::sorting::has_pair;
use crate::sorting::pair_at;
use crate::sorting::sort_pairs;
use crate::sorting::sorted_strict;
use crate::sparse_matrix::MatrixError;
use crate::sparse_matrix::SparseMatrixTrait;
use crate::sparse_matrix::dense_wf;
use crate::sparse_matrix::dense_nnz;

verus! {

pub struct SparseCSR {
    pub nrows: usize,
    pub ncols: usize,
    pub rowptr: Vec<usize>,
    pub colind: Vec<usize>,
    pub values: Vec<u32>,
}

impl SparseCSR {
    /// Storage position `k` belongs to row `i`.
    pub open spec fn in_row(&self, i: int, k: int) -> bool {
        self.rowptr@[i] <= k < self.rowptr@[i + 1]
    }

    /// The storage index of the unique entry at `(i, j)`.
    pub open spec fn spec_index_of(&self, i: int, j: int) -> int {
        choose|k: int| self.in_row(i, k) && self.colind@[k] == j
    }

    /// Row ranges are within the storage arrays.
    pub proof fn lemma_row_range(&self, i: int)
        requires
            self.wf(),
            0 <= i < self.nrows,
        ensures
            self.rowptr@[i] <= self.rowptr@[i + 1] <= self.colind@.len(),
    {
        assert(self.rowptr@[i] <= self.rowptr@[i + 1]);
        assert(self.rowptr@[i + 1] <= self.rowptr@[self.nrows as int]);
    }

    /// A storage position lies in only one row.
    pub proof fn lemma_row_disjoint(&self, i1: int, i2: int, k: int)
        requires
            self.wf(),
            0 <= i1 < self.nrows,
            0 <= i2 < self.nrows,
            self.in_row(i1, k),
            self.in_row(i2, k),
        ensures
            i1 == i2,
    {
        if i1 < i2 {
            assert(self.rowptr@[i1 + 1] <= self.rowptr@[i2]);
        } else if i2 < i1 {
            assert(self.rowptr@[i2 + 1] <= self.rowptr@[i1]);
        }
    }

    /// Under the invariant, an entry of row `i` with column `j` is the
    /// unique entry at `(i, j)` and gives the entry word there.
    pub proof fn lemma_match_unique(&self, k: int, i: int, j: int)
        requires
            self.wf(),
            0 <= i < self.nrows,
            0 <= j < self.ncols,
            self.in_row(i, k),
            self.colind@[k] == j,
        ensures
            self.stored(i, j),
            self.spec_index_of(i, j) == k,
            self.value_at(i, j) == self.values@[k],
            0 <= k < self.values@.len(),
    {
        self.lemma_row_range(i);
        assert(self.stored(i, j));
        let k0 = self.spec_index_of(i, j);
        assert(self.in_row(i, k0) && self.colind@[k0] == j);
        if k0 < k {
            assert(false);
        } else if k < k0 {
            assert(false);
        }
    }

    /// Binary search for the entry at `(i, j)` within row `i`'s sorted
    /// column slice.
    fn get_container_index(&self, i: usize, j: usize) -> (r: Option<usize>)
        requires
            self.wf(),
            i < self.nrows,
        ensures
            match r {
                Some(k) => self.in_row(i as int, k as int) && self.colind@[k as int] == j,
                None => !self.stored(i as int, j as int),
            },
    {
        proof {
            self.lemma_row_range(i as int);
        }
        let mut lo: usize = self.rowptr[i];
        let mut hi: usize = self.rowptr[i + 1];
        while lo < hi
            invariant
                self.wf(),
                i < self.nrows,
                self.rowptr@[i as int] <= lo <= hi <= self.rowptr@[i as int + 1],
                self.rowptr@[i as int + 1] <= self.colind@.len(),
                forall|k: int|
                    self.rowptr@[i as int] <= k < lo ==> #[trigger] self.colind@[k] < j,
                forall|k: int|
                    hi <= k < self.rowptr@[i as int + 1] ==> #[trigger] self.colind@[k] > j,
            decreases hi - lo,
        {
            let mid = lo + (hi - lo) / 2;
            if self.colind[mid] == j {
                proof {
                    assert(self.in_row(i as int, mid as int));
                }
                return Some(mid);
            } else if self.colind[mid] < j {
                proof {
                    assert forall|k: int|
                        self.rowptr@[i as int] <= k < mid + 1 implies #[trigger] self.colind@[k]
                        < j by {
                        if k < mid {
                            assert(self.in_row(i as int, k));
                            assert(self.in_row(i as int, mid as int));
                            assert(self.colind@[k] < self.colind@[mid as int]);
                        }
                    }
                }
                lo = mid + 1;
            } else {
                proof {
                    assert forall|k: int|
                        mid <= k < self.rowptr@[i as int + 1] implies #[trigger] self.colind@[k]
                        > j by {
                        if k > mid {
                            assert(self.in_row(i as int, mid as int));
                            assert(self.in_row(i as int, k));
                            assert(self.colind@[mid as int] < self.colind@[k]);
                        }
                    }
                }
                hi = mid;
            }
        }
        proof {
            if self.stored(i as int, j as int) {
                let k = choose|k: int| self.in_row(i as int, k) && self.colind@[k] == j;
                assert(false);
            }
        }
        None
    }
}

impl SparseMatrixTrait for SparseCSR {
    open spec fn spec_nrows(&self) -> nat {
        self.nrows as nat
    }

    open spec fn spec_ncols(&self) -> nat {
        self.ncols as nat
    }

    open spec fn spec_nnz(&self) -> nat {
        self.colind@.len()
    }

    open spec fn wf(&self) -> bool {
        &&& self.rowptr@.len() == self.nrows + 1
        &&& self.rowptr@[0] == 0
        &&& self.rowptr@[self.nrows as int] == self.colind@.len()
        &&& self.values@.len() == self.colind@.len()
        &&& forall|i1: int, i2: int|
            #![trigger self.rowptr@[i1], self.rowptr@[i2]]
            0 <= i1 <= i2 <= self.nrows ==> self.rowptr@[i1] <= self.rowptr@[i2]
        &&& forall|i: int, k: int|
            #![trigger self.in_row(i, k), self.colind@[k]]
            0 <= i < self.nrows && self.in_row(i, k) ==> self.colind@[k] < self.ncols
        &&& forall|i: int, k1: int, k2: int|
            #![trigger self.in_row(i, k1), self.colind@[k1], self.colind@[k2]]
            0 <= i < self.nrows && self.in_row(i, k1) && self.in_row(i, k2) && k1 < k2
                ==> self.colind@[k1] < self.colind@[k2]
    }

    open spec fn stored(&self, i: int, j: int) -> bool {
        &&& 0 <= i < self.nrows
        &&& 0 <= j < self.ncols
        &&& exists|k: int| #[trigger] self.in_row(i, k) && self.colind@[k] == j
    }

    open spec fn value_at(&self, i: int, j: int) -> u32 {
        if self.stored(i, j) {
            self.values@[self.spec_index_of(i, j)]
        } else {
            0
        }
    }

    open spec fn supports_insert() -> bool {
        false
    }

    fn new(nrows: usize, ncols: usize) -> (r: Self) {
        let mut rowptr: Vec<usize> = Vec::new();
        let mut i: usize = 0;
        while i < nrows + 1
            invariant
                i <= nrows + 1,
                nrows + 1 <= usize::MAX,
                rowptr@.len() == i,
                forall|t: int| 0 <= t < i ==> #[trigger] rowptr@[t] == 0,
            decreases nrows + 1 - i,
        {
            rowptr.push(0);
            i = i + 1;
        }
        let r = SparseCSR { nrows, ncols, rowptr, colind: Vec::new(), values: Vec::new() };
        proof {
            assert forall|i2: int, j2: int| !r.stored(i2, j2) by {
                if r.stored(i2, j2) {
                    let k = choose|k: int| #[trigger] r.in_row(i2, k) && r.colind@[k] == j2;
                    assert(false);
                }
            }
        }
        r
    }

    fn random(nrows: usize, ncols: usize, density: u32, seed: u64) -> (r: Self) {
        Self::random_csr(nrows, ncols, density, seed)
    }

    fn from_dense(dense: Vec<Vec<u32>>) -> (r: Self) {
        Self::from_dense_csr(dense)
    }

    fn to_dense(&self) -> (r: Vec<Vec<u32>>) {
        let mut dense: Vec<Vec<u32>> = Vec::new();
        let mut i: usize = 0;
        while i < self.nrows
            invariant
                self.wf(),
                i <= self.nrows,
                dense@.len() == i,
                forall|i2: int| 0 <= i2 < i ==> (#[trigger] dense@[i2])@.len() == self.ncols,
                forall|i2: int, j2: int|
                    0 <= i2 < i && 0 <= j2 < self.ncols ==> dense@[i2]@[j2] == #[trigger] self
                        .value_at(i2, j2),
            decreases self.nrows - i,
        {
            let mut row: Vec<u32> = Vec::new();
            let mut j: usize = 0;
            while j < self.ncols
                invariant
                    self.wf(),
                    i < self.nrows,
                    j <= self.ncols,
                    row@.len() == j,
                    forall|j2: int|
                        0 <= j2 < j ==> #[trigger] row@[j2] == self.value_at(i as int, j2),
                decreases self.ncols - j,
            {
                let w = match self.get_container_index(i, j) {
                    Some(k) => {
                        proof {
                            self.lemma_match_unique(k as int, i as int, j as int);
                        }
                        self.values[k]
                    },
                    None => 0,
                };
                row.push(w);
                j = j + 1;
            }
            dense.push(row);
            i = i + 1;
        }
        proof {
            assert forall|i2: int|
                0 <= i2 < dense.deep_view().len() implies #[trigger] dense.deep_view()[i2].len()
                == self.spec_ncols() by {
                assert(dense.deep_view()[i2] =~= dense@[i2]@);
            }
            assert forall|i2: int, j2: int|
                0 <= i2 < self.spec_nrows() && 0 <= j2 < self.spec_ncols() implies dense.deep_view(
            )[i2][j2] == self.value_at(i2, j2) by {
                assert(dense.deep_view()[i2] =~= dense@[i2]@);
            }
        }
        dense
    }

    fn get(&self, i: usize, j: usize) -> (r: Result<u32, MatrixError>) {
        if i >= self.nrows || j >= self.ncols {
            return Err(MatrixError::OutOfBounds);
        }
        match self.get_container_index(i, j) {
            Some(k) => {
                proof {
                    self.lemma_match_unique(k as int, i as int, j as int);
                }
                Ok(self.values[k])
            },
            None => Ok(0),
        }
    }

    fn set(&mut self, i: usize, j: usize, value: u32) -> (r: Result<(), MatrixError>) {
        if i >= self.nrows || j >= self.ncols {
            return Err(MatrixError::OutOfBounds);
        }
        let ghost prev = *self;
        match self.get_container_index(i, j) {
            Some(k) => {
                proof {
                    prev.lemma_match_unique(k as int, i as int, j as int);
                }
                self.values.set(k, value);
                proof {
                    assert(self.rowptr@ == prev.rowptr@ && self.colind@ == prev.colind@);
                    assert(self.values@ == prev.values@.update(k as int, value));
                    assert forall|i2: int, k2: int|
                        #![trigger self.in_row(i2, k2), self.colind@[k2]]
                        0 <= i2 < self.nrows && self.in_row(i2, k2) implies self.colind@[k2]
                        < self.ncols by {
                        assert(prev.in_row(i2, k2));
                    }
                    assert forall|i2: int, k1: int, k2: int|
                        #![trigger self.in_row(i2, k1), self.colind@[k1], self.colind@[k2]]
                        0 <= i2 < self.nrows && self.in_row(i2, k1) && self.in_row(i2, k2) && k1
                            < k2 implies self.colind@[k1] < self.colind@[k2] by {
                        assert(prev.in_row(i2, k1) && prev.in_row(i2, k2));
                    }
                    assert(self.wf());
                    assert forall|i2: int, j2: int|
                        self.stored(i2, j2) <==> prev.stored(i2, j2) by {
                        if self.stored(i2, j2) {
                            let k2 = choose|k2: int|
                                #[trigger] self.in_row(i2, k2) && self.colind@[k2] == j2;
                            assert(prev.in_row(i2, k2) && prev.colind@[k2] == j2);
                        }
                        if prev.stored(i2, j2) {
                            let k2 = choose|k2: int|
                                #[trigger] prev.in_row(i2, k2) && prev.colind@[k2] == j2;
                            assert(self.in_row(i2, k2) && self.colind@[k2] == j2);
                        }
                    }
                    self.lemma_match_unique(k as int, i as int, j as int);
                    assert forall|i2: int, j2: int|
                        !(i2 == i as int && j2 == j as int) implies self.value_at(i2, j2)
                        == prev.value_at(i2, j2) by {
                        if prev.stored(i2, j2) {
                            let k2 = prev.spec_index_of(i2, j2);
                            assert(prev.in_row(i2, k2) && prev.colind@[k2] == j2);
                            prev.lemma_match_unique(k2, i2, j2);
                            self.lemma_match_unique(k2, i2, j2);
                            if k2 == k as int {
                                self.lemma_row_disjoint(i2, i as int, k2);
                                assert(false);
                            }
                        }
                    }
                }
                Ok(())
            },
            None => Err(MatrixError::NotStored),
        }
    }

    fn size(&self) -> (r: (usize, usize)) {
        (self.nrows, self.ncols)
    }

    fn nnz(&self) -> (r: usize) {
        self.colind.len()
    }
}

impl SparseCSR {
    /// Build a CSR matrix from row-major flat positions and their entry
    /// words: the pairs are sorted by flat index, and the row boundaries
    /// are re-derived from the sorted order, empty rows getting
    /// zero-width ranges.
    pub fn from_flat_indices(
        nrows: usize,
        ncols: usize,
        flat_indices: Vec<usize>,
        flat_values: Vec<u32>,
    ) -> (r: Self)
        requires
            flat_indices@.len() == flat_values@.len(),
            distinct_seq(flat_indices@),
            nrows * ncols <= usize::MAX,
            nrows + 1 <= usize::MAX,
            forall|t: int|
                0 <= t < flat_indices@.len() ==> (#[trigger] flat_indices@[t] as int) < (
                nrows as int) * (ncols as int),
        ensures
            r.wf(),
            r.spec_nrows() == nrows,
            r.spec_ncols() == ncols,
            r.spec_nnz() == flat_indices@.len(),
            forall|i: int, j: int|
                0 <= i < nrows && 0 <= j < ncols ==> (r.stored(i, j) <==> flat_indices@.contains(
                    ((i * ncols + j) as usize),
                )),
            forall|t: int|
                0 <= t < flat_indices@.len() ==> r.value_at(
                    row_of_flat(flat_indices@[t] as int, ncols as int),
                    col_of_flat(flat_indices@[t] as int, ncols as int),
                ) == flat_values@[t],
    {
        let ghost in_keys = flat_indices@;
        let ghost in_vals = flat_values@;
        let mut keys = flat_indices;
        let mut vals = flat_values;
        sort_pairs(&mut keys, &mut vals);
        proof {
            assert forall|t: int|
                0 <= t < keys@.len() implies (#[trigger] keys@[t] as int) < (nrows as int) * (
            ncols as int) by {
                assert(pair_at(keys@, vals@, t, keys@[t], vals@[t]));
                assert(has_pair(keys@, vals@, keys@[t], vals@[t]));
                let u = choose|u: int|
                    0 <= u < in_keys.len() && #[trigger] pair_at(
                        in_keys,
                        in_vals,
                        u,
                        keys@[t],
                        vals@[t],
                    );
                assert(in_keys[u] == keys@[t]);
            }
        }
        let (rowptr, colind) = compress_sorted_flats(nrows, ncols, &keys);
        let r = SparseCSR { nrows, ncols, rowptr, colind, values: vals };
        proof {
            let n = keys@.len() as int;
            assert(r.wf()) by {
                assert forall|i: int, k: int|
                    #![trigger r.in_row(i, k), r.colind@[k]]
                    0 <= i < nrows && r.in_row(i, k) implies r.colind@[k] < r.ncols by {}
                assert forall|i: int, k1: int, k2: int|
                    #![trigger r.in_row(i, k1), r.colind@[k1], r.colind@[k2]]
                    0 <= i < nrows && r.in_row(i, k1) && r.in_row(i, k2) && k1 < k2 implies r
                    .colind@[k1] < r.colind@[k2] by {
                    assert(keys@[k1] < keys@[k2]);
                    assert((keys@[k1] as int) == i * (ncols as int) + r.colind@[k1]);
                    assert((keys@[k2] as int) == i * (ncols as int) + r.colind@[k2]);
                }
            }
            assert forall|i: int, j: int|
                0 <= i < nrows && 0 <= j < ncols implies (r.stored(i, j)
                <==> in_keys.contains(((i * ncols + j) as usize))) by {
                crate::indexing::lemma_row_major_flat_decode(i, j, ncols as int);
                crate::indexing::lemma_row_major_flat_bounds(i, j, nrows as int, ncols as int);
                let f = ((i * ncols + j) as usize);
                if r.stored(i, j) {
                    let k = choose|k: int| #[trigger] r.in_row(i, k) && r.colind@[k] == j;
                    assert((keys@[k] as int) == i * (ncols as int) + r.colind@[k]);
                    assert(keys@[k] == f);
                    assert(pair_at(keys@, vals@, k, keys@[k], vals@[k]));
                    assert(has_pair(keys@, vals@, keys@[k], vals@[k]));
                    let u = choose|u: int|
                        0 <= u < in_keys.len() && #[trigger] pair_at(
                            in_keys,
                            in_vals,
                            u,
                            keys@[k],
                            vals@[k],
                        );
                    assert(in_keys[u] == f);
                    assert(in_keys.contains(f));
                }
                if in_keys.contains(f) {
                    let u = choose|u: int| 0 <= u < in_keys.len() && in_keys[u] == f;
                    assert(pair_at(in_keys, in_vals, u, f, in_vals[u]));
                    assert(has_pair(in_keys, in_vals, f, in_vals[u]));
                    let w = choose|w: int|
                        0 <= w < keys@.len() && #[trigger] pair_at(
                            keys@,
                            vals@,
                            w,
                            f,
                            in_vals[u],
                        );
                    assert((keys@[w] as int) / (ncols as int) == i);
                    assert(r.rowptr@[i] <= w < r.rowptr@[i + 1]);
                    assert(r.in_row(i, w));
                    assert((keys@[w] as int) == i * (ncols as int) + r.colind@[w]);
                    assert(r.colind@[w] == j);
                    assert(r.stored(i, j));
                }
            }
            assert forall|t: int|
                0 <= t < in_keys.len() implies r.value_at(
                row_of_flat(in_keys[t] as int, ncols as int),
                col_of_flat(in_keys[t] as int, ncols as int),
            ) == in_vals[t] by {
                let f = in_keys[t];
                let v = in_vals[t];
                assert(0 < nrows && 0 < ncols) by (nonlinear_arith)
                    requires
                        (f as int) < (nrows as int) * (ncols as int),
                        0 <= f as int,
                ;
                crate::indexing::lemma_flat_decode_bounds(
                    f as int,
                    nrows as int,
                    ncols as int,
                );
                let i = row_of_flat(f as int, ncols as int);
                let j = col_of_flat(f as int, ncols as int);
                assert(pair_at(in_keys, in_vals, t, f, v));
                assert(has_pair(in_keys, in_vals, f, v));
                let w = choose|w: int|
                    0 <= w < keys@.len() && #[trigger] pair_at(keys@, vals@, w, f, v);
                assert((keys@[w] as int) / (ncols as int) == i) by {
                    assert((f as int) == i * (ncols as int) + j);
                    crate::indexing::lemma_row_major_flat_decode(i, j, ncols as int);
                }
                assert(r.rowptr@[i] <= w < r.rowptr@[i + 1]);
                assert(r.in_row(i, w));
                assert((keys@[w] as int) == i * (ncols as int) + r.colind@[w]);
                assert(r.colind@[w] == j);
                r.lemma_match_unique(w, i, j);
            }
        }
        r
    }

    /// See [`SparseMatrixTrait::from_dense`]: the row-major scan visits
    /// rows outer, columns inner, so the collected flat positions are
    /// already ascending and the row boundaries follow directly.
    fn from_dense_csr(dense: Vec<Vec<u32>>) -> (r: Self)
        requires
            dense_wf(dense.deep_view()),
            dense.deep_view().len() + 1 <= usize::MAX,
            dense.deep_view()[0].len() + 1 <= usize::MAX,
            dense.deep_view().len() * dense.deep_view()[0].len() <= usize::MAX,
        ensures
            r.wf(),
            r.spec_nrows() == dense.deep_view().len(),
            r.spec_ncols() == dense.deep_view()[0].len(),
            r.spec_nnz() == dense_nnz(dense.deep_view()),
            forall|i: int, j: int|
                0 <= i < r.spec_nrows() && 0 <= j < r.spec_ncols() ==> (r.stored(i, j)
                    <==> dense.deep_view()[i][j] != 0),
            forall|i: int, j: int|
                0 <= i < r.spec_nrows() && 0 <= j < r.spec_ncols() ==> r.value_at(i, j)
                    == dense.deep_view()[i][j],
    {
        let ghost d = dense.deep_view();
        let nrows = dense.len();
        let ncols = dense[0].len();
        let (flats, vals) = crate::sparse_matrix::dense_nonzero_flats(&dense, nrows, ncols);
        let ghost flats_view = flats@;
        let ghost vals_view = vals@;
        let r = Self::from_flat_indices(nrows, ncols, flats, vals);
        proof {
            assert forall|i: int, j: int|
                0 <= i < r.spec_nrows() && 0 <= j < r.spec_ncols() implies (r.stored(i, j)
                <==> d[i][j] != 0) && r.value_at(i, j) == d[i][j] by {
                crate::indexing::lemma_row_major_flat_decode(i, j, ncols as int);
                crate::indexing::lemma_row_major_flat_bounds(i, j, nrows as int, ncols as int);
                let f = ((i * ncols + j) as usize);
                assert(f as int == i * ncols + j);
                if r.stored(i, j) {
                    assert(flats_view.contains(f));
                    let t = choose|t: int| 0 <= t < flats_view.len() && flats_view[t] == f;
                    assert(row_of_flat(flats_view[t] as int, ncols as int) == i);
                    assert(col_of_flat(flats_view[t] as int, ncols as int) == j);
                    assert(d[i][j] == vals_view[t] && vals_view[t] != 0);
                    assert(r.value_at(i, j) == vals_view[t]);
                } else {
                    if d[i][j] != 0 {
                        assert(flats_view.contains(f));
                        assert(r.stored(i, j));
                        assert(false);
                    }
                    assert(r.value_at(i, j) == 0);
                    if d[i][j] != 0 {
                        assert(false);
                    }
                }
            }
        }
        r
    }


    /// See [`SparseMatrixTrait::random`]: distinct flat positions drawn
    /// without replacement from the index domain by fastrand, then laid
    /// out through [`SparseCSR::from_flat_indices`].
    fn random_csr(nrows: usize, ncols: usize, density: u32, seed: u64) -> (r: Self)
        requires
            nrows * ncols <= usize::MAX,
            nrows + 1 <= usize::MAX,
        ensures
            r.wf(),
            r.spec_nrows() == nrows,
            r.spec_ncols() == ncols,
            crate::scalar::density_count_of((nrows * ncols) as usize, density) <= nrows * ncols
                ==> r.spec_nnz() == crate::scalar::density_count_of(
                (nrows * ncols) as usize,
                density,
            ),
            crate::scalar::density_count_of((nrows * ncols) as usize, density) > nrows * ncols
                ==> r.spec_nnz() == nrows * ncols,
    {
        let total = nrows * ncols;
        let count = crate::scalar::density_count(total, density);
        let target = if count > total {
            total
        } else {
            count
        };
        let mut rng = crate::rng::rng_with_seed(seed);
        let flats = crate::rng::draw_distinct_indices(&mut rng, total, target);
        let mut vals: Vec<u32> = Vec::new();
        let mut k: usize = 0;
        while k < target
            invariant
                k <= target,
                vals@.len() == k,
            decreases target - k,
        {
            vals.push(crate::rng::random_unit_word(&mut rng));
            k = k + 1;
        }
        Self::from_flat_indices(nrows, ncols, flats, vals)
    }
}

impl SparseCSR {
    /// Number of stored entries in row `i`.
    pub fn num_nnz_in_row(&self, i: usize) -> (r: usize)
        requires
            self.wf(),
            i < self.nrows,
        ensures
            r == self.rowptr@[i as int + 1] - self.rowptr@[i as int],
    {
        proof {
            self.lemma_row_range(i as int);
        }
        self.rowptr[i + 1] - self.rowptr[i]
    }

    /// The storage range `[start, end)` of row `i`.
    pub fn get_row_range(&self, i: usize) -> (r: (usize, usize))
        requires
            self.wf(),
            i < self.nrows,
        ensures
            r.0 == self.rowptr@[i as int],
            r.1 == self.rowptr@[i as int + 1],
            r.0 <= r.1 <= self.colind@.len(),
    {
        proof {
            self.lemma_row_range(i as int);
        }
        (self.rowptr[i], self.rowptr[i + 1])
    }

    /// Expand the entries to row-major flat positions, paired with their
    /// entry words, in storage order (so strictly ascending).
    pub fn to_flat_indices(&self) -> (r: (Vec<usize>, Vec<u32>))
        requires
            self.wf(),
            self.nrows * self.ncols <= usize::MAX,
        ensures
            r.0@.len() == self.spec_nnz(),
            r.1@.len() == self.spec_nnz(),
            sorted_strict(r.0@),
            distinct_seq(r.0@),
            forall|t: int|
                0 <= t < r.0@.len() ==> (#[trigger] r.0@[t] as int) < (self.nrows as int) * (
                self.ncols as int),
            forall|i: int, j: int|
                0 <= i < self.nrows && 0 <= j < self.ncols ==> (r.0@.contains(
                    ((i * self.ncols + j) as usize),
                ) <==> self.stored(i, j)),
            forall|t: int|
                0 <= t < r.0@.len() ==> self.value_at(
                    row_of_flat(#[trigger] r.0@[t] as int, self.ncols as int),
                    col_of_flat(r.0@[t] as int, self.ncols as int),
                ) == r.1@[t],
    {
        let mut flats: Vec<usize> = Vec::new();
        let mut vals: Vec<u32> = Vec::new();
        let mut i: usize = 0;
        while i < self.nrows
            invariant
                self.wf(),
                self.nrows * self.ncols <= usize::MAX,
                i <= self.nrows,
                flats@.len() == vals@.len(),
                flats@.len() == self.rowptr@[i as int],
                sorted_strict(flats@),
                forall|t: int|
                    0 <= t < flats@.len() ==> (#[trigger] flats@[t] as int) < (i as int) * (
                    self.ncols as int),
                forall|i2: int, k2: int|
                    #![trigger self.in_row(i2, k2), flats@[k2]]
                    0 <= i2 < i && self.in_row(i2, k2) ==> (flats@[k2] as int) == i2 * (
                    self.ncols as int) + self.colind@[k2] && vals@[k2] == self.values@[k2],
                forall|t: int|
                    0 <= t < flats@.len() ==> 0 <= row_of_flat(
                        #[trigger] flats@[t] as int,
                        self.ncols as int,
                    ) < self.nrows && 0 <= col_of_flat(flats@[t] as int, self.ncols as int)
                        < self.ncols && self.stored(
                        row_of_flat(flats@[t] as int, self.ncols as int),
                        col_of_flat(flats@[t] as int, self.ncols as int),
                    ) && self.value_at(
                        row_of_flat(flats@[t] as int, self.ncols as int),
                        col_of_flat(flats@[t] as int, self.ncols as int),
                    ) == vals@[t],
            decreases self.nrows - i,
        {
            proof {
                self.lemma_row_range(i as int);
            }
            let row_end = self.rowptr[i + 1];
            let mut k: usize = self.rowptr[i];
            while k < row_end
                invariant
                    self.wf(),
                    self.nrows * self.ncols <= usize::MAX,
                    i < self.nrows,
                    row_end == self.rowptr@[i as int + 1],
                    self.rowptr@[i as int] <= k <= row_end,
                    row_end <= self.colind@.len(),
                    flats@.len() == vals@.len(),
                    flats@.len() == k,
                    sorted_strict(flats@),
                    forall|t: int|
                        0 <= t < self.rowptr@[i as int] ==> (#[trigger] flats@[t] as int) < (
                        i as int) * (self.ncols as int),
                    forall|i2: int, k2: int|
                        #![trigger self.in_row(i2, k2), flats@[k2]]
                        0 <= i2 < i && self.in_row(i2, k2) ==> (flats@[k2] as int) == i2 * (
                        self.ncols as int) + self.colind@[k2] && vals@[k2] == self.values@[k2],
                    forall|k2: int|
                        self.rowptr@[i as int] <= k2 < k ==> (#[trigger] flats@[k2] as int) == (
                        i as int) * (self.ncols as int) + self.colind@[k2] && vals@[k2]
                            == self.values@[k2],
                    forall|t: int|
                        0 <= t < flats@.len() ==> 0 <= row_of_flat(
                            #[trigger] flats@[t] as int,
                            self.ncols as int,
                        ) < self.nrows && 0 <= col_of_flat(flats@[t] as int, self.ncols as int)
                            < self.ncols && self.stored(
                            row_of_flat(flats@[t] as int, self.ncols as int),
                            col_of_flat(flats@[t] as int, self.ncols as int),
                        ) && self.value_at(
                            row_of_flat(flats@[t] as int, self.ncols as int),
                            col_of_flat(flats@[t] as int, self.ncols as int),
                        ) == vals@[t],
                decreases row_end - k,
            {
                let c = self.colind[k];
                proof {
                    assert(self.in_row(i as int, k as int));
                    crate::indexing::lemma_row_major_flat_bounds(
                        i as int,
                        c as int,
                        self.nrows as int,
                        self.ncols as int,
                    );
                    crate::indexing::lemma_row_major_flat_decode(
                        i as int,
                        c as int,
                        self.ncols as int,
                    );
                    self.lemma_match_unique(k as int, i as int, c as int);
                }
                let ghost old_flats = flats@;
                let ghost old_vals = vals@;
                flats.push(i * self.ncols + c);
                vals.push(self.values[k]);
                proof {
                    assert(forall|t: int|
                        0 <= t < old_flats.len() ==> #[trigger] flats@[t] == old_flats[t]);
                    assert(forall|t: int|
                        0 <= t < old_vals.len() ==> #[trigger] vals@[t] == old_vals[t]);
                    assert((flats@[k as int] as int) == (i as int) * (self.ncols as int)
                        + c as int);
                    assert forall|i2: int, k2: int|
                        #![trigger self.in_row(i2, k2), flats@[k2]]
                        0 <= i2 < i && self.in_row(i2, k2) implies (flats@[k2] as int) == i2 * (
                    self.ncols as int) + self.colind@[k2] && vals@[k2] == self.values@[k2] by {
                        assert(self.rowptr@[i2 + 1] <= self.rowptr@[i as int]);
                        assert(k2 < old_flats.len());
                        assert(flats@[k2] == old_flats[k2] && vals@[k2] == old_vals[k2]);
                    }
                    assert forall|t1: int, t2: int|
                        0 <= t1 < t2 < flats@.len() implies flats@[t1] < flats@[t2] by {
                        if t2 == k as int {
                            if t1 >= self.rowptr@[i as int] {
                                assert(self.in_row(i as int, t1));
                                assert(self.colind@[t1] < self.colind@[k as int]);
                            } else {
                                assert((flats@[t1] as int) < (i as int) * (self.ncols as int));
                            }
                        }
                    }
                }
                k = k + 1;
            }
            i = i + 1;
            proof {
                assert forall|t: int|
                    0 <= t < flats@.len() implies (#[trigger] flats@[t] as int) < (i as int) * (
                self.ncols as int) by {
                    assert((i as int - 1) * (self.ncols as int) + (self.ncols as int) == (
                    i as int) * (self.ncols as int)) by (nonlinear_arith);
                    if t >= self.rowptr@[i - 1] {
                        assert(self.in_row(i - 1, t));
                        assert((flats@[t] as int) == (i - 1) * (self.ncols as int)
                            + self.colind@[t]);
                    }
                }
                assert forall|i2: int, k2: int|
                    #![trigger self.in_row(i2, k2), flats@[k2]]
                    0 <= i2 < i && self.in_row(i2, k2) implies (flats@[k2] as int) == i2 * (
                self.ncols as int) + self.colind@[k2] && vals@[k2] == self.values@[k2] by {
                    if i2 == i - 1 {
                        assert(self.rowptr@[i2] <= k2 < self.rowptr@[i2 + 1]);
                        assert(k2 < k);
                        assert((flats@[k2] as int) == (i - 1) * (self.ncols as int)
                            + self.colind@[k2]);
                        assert(vals@[k2] == self.values@[k2]);
                    } else {
                        assert(0 <= i2 < i - 1 && self.in_row(i2, k2));
                        assert((flats@[k2] as int) == i2 * (self.ncols as int)
                            + self.colind@[k2]);
                        assert(vals@[k2] == self.values@[k2]);
                    }
                }
            }
        }
        let r = (flats, vals);
        proof {
            assert forall|i2: int, j2: int|
                0 <= i2 < self.nrows && 0 <= j2 < self.ncols implies (r.0@.contains(
                ((i2 * self.ncols + j2) as usize),
            ) <==> self.stored(i2, j2)) by {
                crate::indexing::lemma_row_major_flat_bounds(
                    i2,
                    j2,
                    self.nrows as int,
                    self.ncols as int,
                );
                crate::indexing::lemma_row_major_flat_decode(i2, j2, self.ncols as int);
                let f = ((i2 * self.ncols + j2) as usize);
                if r.0@.contains(f) {
                    let t = choose|t: int| 0 <= t < r.0@.len() && r.0@[t] == f;
                    assert(self.stored(
                        row_of_flat(r.0@[t] as int, self.ncols as int),
                        col_of_flat(r.0@[t] as int, self.ncols as int),
                    ));
                }
                if self.stored(i2, j2) {
                    let k2 = choose|k2: int| #[trigger] self.in_row(i2, k2) && self.colind@[k2]
                        == j2;
                    assert((r.0@[k2] as int) == i2 * (self.ncols as int) + j2);
                    assert(r.0@[k2] == f);
                    assert(r.0@.contains(f));
                }
            }
        }
        r
    }

    /// Convert to the coordinate-list format, preserving every entry.
    pub fn to_coo(&self) -> (r: SparseCOO)
        requires
            self.wf(),
            self.nrows * self.ncols <= usize::MAX,
        ensures
            r.wf(),
            r.spec_nrows() == self.spec_nrows(),
            r.spec_ncols() == self.spec_ncols(),
            r.spec_nnz() == self.spec_nnz(),
            forall|i: int, j: int|
                0 <= i < self.spec_nrows() && 0 <= j < self.spec_ncols() ==> (r.stored(i, j)
                    <==> self.stored(i, j)),
            forall|i: int, j: int|
                0 <= i < self.spec_nrows() && 0 <= j < self.spec_ncols() ==> r.value_at(i, j)
                    == self.value_at(i, j),
    {
        let (flat_indices, values) = self.to_flat_indices();
        let ghost flats_view = flat_indices@;
        let ghost vals_view = values@;
        let r = SparseCOO::from_flat_indices(self.nrows, self.ncols, flat_indices, values);
        proof {
            assert forall|i: int, j: int|
                0 <= i < self.spec_nrows() && 0 <= j < self.spec_ncols() implies (r.stored(i, j)
                <==> self.stored(i, j)) && r.value_at(i, j) == self.value_at(i, j) by {
                crate::indexing::lemma_row_major_flat_bounds(
                    i,
                    j,
                    self.nrows as int,
                    self.ncols as int,
                );
                crate::indexing::lemma_row_major_flat_decode(i, j, self.ncols as int);
                let f = ((i * self.ncols + j) as usize);
                if self.stored(i, j) {
                    assert(flats_view.contains(f));
                    let t = choose|t: int| 0 <= t < flats_view.len() && flats_view[t] == f;
                    assert(r.value_at(i, j) == vals_view[t]);
                    assert(self.value_at(i, j) == vals_view[t]);
                } else {
                    assert(!flats_view.contains(f));
                    assert(!r.stored(i, j));
                    assert(r.value_at(i, j) == 0);
                    assert(self.value_at(i, j) == 0);
                }
            }
        }
        r
    }
}


/// Sorted-invariant law: under the CSR invariant — which every
/// constructor and conversion into the format establishes — the column
/// indices of each row's slice are strictly ascending.
pub proof fn lemma_csr_rows_sorted(m: &SparseCSR, i: int, k1: int, k2: int)
    requires
        m.wf(),
        0 <= i < m.nrows,
        m.in_row(i, k1),
        m.in_row(i, k2),
        k1 < k2,
    ensures
        m.colind@[k1] < m.colind@[k2],
{
}

/// The running merge-join accumulation over two sorted index/value
/// slices, from cursors `p` and `q` with accumulator `acc`: the cursor
/// with the smaller current index advances; on a match, the IEEE single
/// product of the paired words is folded into the accumulator and both
/// cursors advance.
pub open spec fn merge_dot(
    acols: Seq<usize>,
    avals: Seq<u32>,
    a_end: int,
    brows: Seq<usize>,
    bvals: Seq<u32>,
    b_end: int,
    p: int,
    q: int,
    acc: u32,
) -> u32
    decreases a_end + b_end - p - q,
{
    if p < a_end && q < b_end {
        if acols[p] == brows[q] {
            merge_dot(
                acols,
                avals,
                a_end,
                brows,
                bvals,
                b_end,
                p + 1,
                q + 1,
                crate::scalar::add_bits(acc, crate::scalar::mul_bits(avals[p], bvals[q])),
            )
        } else if brows[q] < acols[p] {
            merge_dot(acols, avals, a_end, brows, bvals, b_end, p, q + 1, acc)
        } else {
            merge_dot(acols, avals, a_end, brows, bvals, b_end, p + 1, q, acc)
        }
    } else {
        acc
    }
}

/// The merge-join dot product of row `i` of a CSR matrix and column `j`
/// of a CSC matrix, starting from the zero word.
pub open spec fn csr_csc_dot(a: &SparseCSR, b: &crate::sparse_csc::SparseCSC, i: int, j: int) -> u32 {
    merge_dot(
        a.colind@,
        a.values@,
        a.rowptr@[i + 1] as int,
        b.rowind@,
        b.values@,
        b.colptr@[j + 1] as int,
        a.rowptr@[i] as int,
        b.colptr@[j] as int,
        0,
    )
}

/// The merge-join accumulation equals the abstract product fold: if the
/// remaining slice of row `i` holds exactly the row's entries with column
/// index at least `k`, and likewise for column `j`, then folding from the
/// cursors equals folding over the inner indices from `k` upward.
proof fn lemma_merge_dot_is_product(
    a: &SparseCSR,
    b: &crate::sparse_csc::SparseCSC,
    i: int,
    j: int,
    p: int,
    q: int,
    k: int,
    acc: u32,
)
    requires
        a.wf(),
        b.wf(),
        a.ncols == b.nrows,
        0 <= i < a.nrows,
        0 <= j < b.ncols,
        a.rowptr@[i] <= p <= a.rowptr@[i + 1],
        b.colptr@[j] <= q <= b.colptr@[j + 1],
        0 <= k <= a.ncols,
        forall|p2: int| p <= p2 < a.rowptr@[i + 1] ==> #[trigger] a.colind@[p2] >= k,
        forall|k2: int|
            #![trigger a.stored(i, k2)]
            k <= k2 < a.ncols && a.stored(i, k2) ==> exists|p2: int|
                p <= p2 < a.rowptr@[i + 1] && #[trigger] a.colind@[p2] == k2,
        forall|q2: int| q <= q2 < b.colptr@[j + 1] ==> #[trigger] b.rowind@[q2] >= k,
        forall|k2: int|
            #![trigger b.stored(k2, j)]
            k <= k2 < b.nrows && b.stored(k2, j) ==> exists|q2: int|
                q <= q2 < b.colptr@[j + 1] && #[trigger] b.rowind@[q2] == k2,
    ensures
        merge_dot(
            a.colind@,
            a.values@,
            a.rowptr@[i + 1] as int,
            b.rowind@,
            b.values@,
            b.colptr@[j + 1] as int,
            p,
            q,
            acc,
        ) == crate::sparse_matrix::product_entry_from(a, b, i, j, k, acc),
    decreases a.ncols - k,
{
    let a_end = a.rowptr@[i + 1] as int;
    let b_end = b.colptr@[j + 1] as int;
    a.lemma_row_range(i);
    b.lemma_col_range(j);
    if k >= a.ncols {
        assert(p == a_end) by {
            if p < a_end {
                assert(a.in_row(i, p));
                assert(a.colind@[p] < a.ncols);
                assert(a.colind@[p] >= k);
            }
        }
        assert(q == b_end) by {
            if q < b_end {
                assert(b.in_col(j, q));
                assert(b.rowind@[q] < b.nrows);
                assert(b.rowind@[q] >= k);
            }
        }
    } else if p == a_end {
        crate::sparse_matrix::lemma_product_entry_from_no_pairs(a, b, i, j, k, acc);
        assert forall|k2: int|
            #![trigger a.stored(i, k2)]
            k <= k2 < a.spec_ncols() implies !(a.stored(i, k2) && b.stored(k2, j)) by {
            if a.stored(i, k2) {
                let p2 = choose|p2: int|
                    p <= p2 < a.rowptr@[i + 1] && #[trigger] a.colind@[p2] == k2;
                assert(false);
            }
        }
        crate::sparse_matrix::lemma_product_entry_from_no_pairs(a, b, i, j, k, acc);
    } else if q == b_end {
        assert forall|k2: int|
            #![trigger a.stored(i, k2)]
            k <= k2 < a.spec_ncols() implies !(a.stored(i, k2) && b.stored(k2, j)) by {
            if b.stored(k2, j) {
                let q2 = choose|q2: int|
                    q <= q2 < b.colptr@[j + 1] && #[trigger] b.rowind@[q2] == k2;
                assert(false);
            }
        }
        crate::sparse_matrix::lemma_product_entry_from_no_pairs(a, b, i, j, k, acc);
    } else {
        // both cursors are live
        assert(a.in_row(i, p));
        assert(b.in_col(j, q));
        let ca = a.colind@[p] as int;
        let rb = b.rowind@[q] as int;
        assert(ca >= k && rb >= k);
        if ca == k && rb == k {
            a.lemma_match_unique(p, i, k);
            b.lemma_match_unique(q, k, j);
            let acc2 = crate::scalar::add_bits(
                acc,
                crate::scalar::mul_bits(a.values@[p], b.values@[q]),
            );
            assert(a.value_at(i, k) == a.values@[p]);
            assert(b.value_at(k, j) == b.values@[q]);
            assert forall|p2: int| p + 1 <= p2 < a.rowptr@[i + 1] implies #[trigger] a.colind@[p2]
                >= k + 1 by {
                assert(a.in_row(i, p2));
                assert(a.colind@[p] < a.colind@[p2]);
            }
            assert forall|k2: int|
                #![trigger a.stored(i, k2)]
                k + 1 <= k2 < a.ncols && a.stored(i, k2) implies exists|p2: int|
                p + 1 <= p2 < a.rowptr@[i + 1] && #[trigger] a.colind@[p2] == k2 by {
                let p2 = choose|p2: int|
                    p <= p2 < a.rowptr@[i + 1] && #[trigger] a.colind@[p2] == k2;
                assert(p2 != p);
                assert(p + 1 <= p2 < a.rowptr@[i + 1] && a.colind@[p2] == k2);
            }
            assert forall|q2: int| q + 1 <= q2 < b.colptr@[j + 1] implies #[trigger] b.rowind@[q2]
                >= k + 1 by {
                assert(b.in_col(j, q2));
                assert(b.rowind@[q] < b.rowind@[q2]);
            }
            assert forall|k2: int|
                #![trigger b.stored(k2, j)]
                k + 1 <= k2 < b.nrows && b.stored(k2, j) implies exists|q2: int|
                q + 1 <= q2 < b.colptr@[j + 1] && #[trigger] b.rowind@[q2] == k2 by {
                let q2 = choose|q2: int|
                    q <= q2 < b.colptr@[j + 1] && #[trigger] b.rowind@[q2] == k2;
                assert(q2 != q);
                assert(q + 1 <= q2 < b.colptr@[j + 1] && b.rowind@[q2] == k2);
            }
            lemma_merge_dot_is_product(a, b, i, j, p + 1, q + 1, k + 1, acc2);
        } else if ca == k {
            // entry in the row only: the column holds nothing at k
            assert(!b.stored(k, j)) by {
                if b.stored(k, j) {
                    let q2 = choose|q2: int|
                        q <= q2 < b.colptr@[j + 1] && #[trigger] b.rowind@[q2] == k;
                    assert(b.in_col(j, q2));
                    if q2 > q {
                        assert(b.rowind@[q] < b.rowind@[q2]);
                    }
                    assert(false);
                }
            }
            assert(rb > k);
            assert forall|p2: int| p + 1 <= p2 < a.rowptr@[i + 1] implies #[trigger] a.colind@[p2]
                >= k + 1 by {
                assert(a.in_row(i, p2));
                assert(a.colind@[p] < a.colind@[p2]);
            }
            assert forall|k2: int|
                #![trigger a.stored(i, k2)]
                k + 1 <= k2 < a.ncols && a.stored(i, k2) implies exists|p2: int|
                p + 1 <= p2 < a.rowptr@[i + 1] && #[trigger] a.colind@[p2] == k2 by {
                let p2 = choose|p2: int|
                    p <= p2 < a.rowptr@[i + 1] && #[trigger] a.colind@[p2] == k2;
                assert(p2 != p);
                assert(p + 1 <= p2 < a.rowptr@[i + 1] && a.colind@[p2] == k2);
            }
            assert forall|q2: int| q <= q2 < b.colptr@[j + 1] implies #[trigger] b.rowind@[q2] >= k
                + 1 by {
                assert(b.in_col(j, q2));
                if q2 > q {
                    assert(b.rowind@[q] < b.rowind@[q2]);
                }
            }
            lemma_merge_dot_is_product(a, b, i, j, p + 1, q, k + 1, acc);
        } else if rb == k {
            assert(!a.stored(i, k)) by {
                if a.stored(i, k) {
                    let p2 = choose|p2: int|
                        p <= p2 < a.rowptr@[i + 1] && #[trigger] a.colind@[p2] == k;
                    assert(a.in_row(i, p2));
                    if p2 > p {
                        assert(a.colind@[p] < a.colind@[p2]);
                    }
                    assert(false);
                }
            }
            assert(ca > k);
            assert forall|q2: int| q + 1 <= q2 < b.colptr@[j + 1] implies #[trigger] b.rowind@[q2]
                >= k + 1 by {
                assert(b.in_col(j, q2));
                assert(b.rowind@[q] < b.rowind@[q2]);
            }
            assert forall|k2: int|
                #![trigger b.stored(k2, j)]
                k + 1 <= k2 < b.nrows && b.stored(k2, j) implies exists|q2: int|
                q + 1 <= q2 < b.colptr@[j + 1] && #[trigger] b.rowind@[q2] == k2 by {
                let q2 = choose|q2: int|
                    q <= q2 < b.colptr@[j + 1] && #[trigger] b.rowind@[q2] == k2;
                assert(q2 != q);
                assert(q + 1 <= q2 < b.colptr@[j + 1] && b.rowind@[q2] == k2);
            }
            assert forall|p2: int| p <= p2 < a.rowptr@[i + 1] implies #[trigger] a.colind@[p2] >= k
                + 1 by {
                assert(a.in_row(i, p2));
                if p2 > p {
                    assert(a.colind@[p] < a.colind@[p2]);
                }
            }
            lemma_merge_dot_is_product(a, b, i, j, p, q + 1, k + 1, acc);
        } else {
            // neither side holds an entry at k: both heads are beyond it
            assert(!a.stored(i, k)) by {
                if a.stored(i, k) {
                    let p2 = choose|p2: int|
                        p <= p2 < a.rowptr@[i + 1] && #[trigger] a.colind@[p2] == k;
                    assert(a.in_row(i, p2));
                    if p2 > p {
                        assert(a.colind@[p] < a.colind@[p2]);
                    }
                    assert(false);
                }
            }
            assert forall|p2: int| p <= p2 < a.rowptr@[i + 1] implies #[trigger] a.colind@[p2] >= k
                + 1 by {
                assert(a.in_row(i, p2));
                if p2 > p {
                    assert(a.colind@[p] < a.colind@[p2]);
                }
            }
            assert forall|q2: int| q <= q2 < b.colptr@[j + 1] implies #[trigger] b.rowind@[q2] >= k
                + 1 by {
                assert(b.in_col(j, q2));
                if q2 > q {
                    assert(b.rowind@[q] < b.rowind@[q2]);
                }
            }
            lemma_merge_dot_is_product(a, b, i, j, p, q, k + 1, acc);
        }
    }
}

/// The merge-join dot product of a CSR row and a CSC column is the
/// abstract product entry: sortedness makes the two-pointer merge visit
/// exactly the matched inner indices, in ascending order.
pub proof fn lemma_dot_is_product(a: &SparseCSR, b: &crate::sparse_csc::SparseCSC, i: int, j: int)
    requires
        a.wf(),
        b.wf(),
        a.ncols == b.nrows,
        0 <= i < a.nrows,
        0 <= j < b.ncols,
    ensures
        csr_csc_dot(a, b, i, j) == crate::sparse_matrix::product_entry(a, b, i, j),
{
    a.lemma_row_range(i);
    b.lemma_col_range(j);
    assert forall|p2: int|
        a.rowptr@[i] <= p2 < a.rowptr@[i + 1] implies #[trigger] a.colind@[p2] >= 0 by {}
    assert forall|k2: int|
        #![trigger a.stored(i, k2)]
        0 <= k2 < a.ncols && a.stored(i, k2) implies exists|p2: int|
        a.rowptr@[i] <= p2 < a.rowptr@[i + 1] && #[trigger] a.colind@[p2] == k2 by {
        let p2 = choose|p2: int| #[trigger] a.in_row(i, p2) && a.colind@[p2] == k2;
        assert(a.rowptr@[i] <= p2 < a.rowptr@[i + 1] && a.colind@[p2] == k2);
    }
    assert forall|k2: int|
        #![trigger b.stored(k2, j)]
        0 <= k2 < b.nrows && b.stored(k2, j) implies exists|q2: int|
        b.colptr@[j] <= q2 < b.colptr@[j + 1] && #[trigger] b.rowind@[q2] == k2 by {
        let q2 = choose|q2: int| #[trigger] b.in_col(j, q2) && b.rowind@[q2] == k2;
        assert(b.colptr@[j] <= q2 < b.colptr@[j + 1] && b.rowind@[q2] == k2);
    }
    lemma_merge_dot_is_product(
        a,
        b,
        i,
        j,
        a.rowptr@[i] as int,
        b.colptr@[j] as int,
        0,
        0,
    );
}


impl SparseCSR {
    /// Merge-join multiply against a CSC operand, producing the row-major
    /// flat positions and words of the nonzero product entries: for each
    /// row of `self` and column of `other`, the sorted slices are merged
    /// with two cursors in O(|row| + |column|), and a result entry is
    /// emitted only when the accumulated dot product is not the zero word.
    pub fn multiply_to_flat_csc(&self, other: &crate::sparse_csc::SparseCSC) -> (r: (
        Vec<usize>,
        Vec<u32>,
    ))
        requires
            self.wf(),
            other.wf(),
            self.ncols == other.nrows,
            self.nrows * other.ncols <= usize::MAX,
        ensures
            r.0@.len() == r.1@.len(),
            crate::sorting::sorted_strict(r.0@),
            crate::sorting::distinct_seq(r.0@),
            forall|t: int|
                0 <= t < r.0@.len() ==> (#[trigger] r.0@[t] as int) < (self.nrows as int) * (
                other.ncols as int),
            forall|t: int| 0 <= t < r.1@.len() ==> #[trigger] r.1@[t] != 0,
            forall|t: int|
                0 <= t < r.0@.len() ==> crate::sparse_matrix::product_entry(
                    self,
                    other,
                    row_of_flat(#[trigger] r.0@[t] as int, other.ncols as int),
                    col_of_flat(r.0@[t] as int, other.ncols as int),
                ) == r.1@[t],
            forall|i: int, j: int|
                #![trigger crate::sparse_matrix::product_entry(self, other, i, j)]
                0 <= i < self.nrows && 0 <= j < other.ncols ==> (r.0@.contains(
                    ((i * other.ncols + j) as usize),
                ) <==> crate::sparse_matrix::product_entry(self, other, i, j) != 0),
    {
        let target_cols = other.ncols;
        let mut result_flat_indices: Vec<usize> = Vec::new();
        let mut result_values: Vec<u32> = Vec::new();
        let mut i: usize = 0;
        while i < self.nrows
            invariant
                self.wf(),
                other.wf(),
                self.ncols == other.nrows,
                self.nrows * other.ncols <= usize::MAX,
                target_cols == other.ncols,
                i <= self.nrows,
                result_flat_indices@.len() == result_values@.len(),
                forall|t: int|
                    0 <= t < result_flat_indices@.len() ==> (
                    #[trigger] result_flat_indices@[t] as int) < (i as int) * (
                    target_cols as int),
                crate::sorting::sorted_strict(result_flat_indices@),
                forall|t: int| 0 <= t < result_values@.len() ==> #[trigger] result_values@[t] != 0,
                forall|t: int|
                    0 <= t < result_flat_indices@.len() ==> 0 <= row_of_flat(
                        #[trigger] result_flat_indices@[t] as int,
                        target_cols as int,
                    ) < self.nrows && 0 <= col_of_flat(
                        result_flat_indices@[t] as int,
                        target_cols as int,
                    ) < target_cols && crate::sparse_matrix::product_entry(
                        self,
                        other,
                        row_of_flat(result_flat_indices@[t] as int, target_cols as int),
                        col_of_flat(result_flat_indices@[t] as int, target_cols as int),
                    ) == result_values@[t],
                forall|i2: int, j2: int|
                    #![trigger crate::sparse_matrix::product_entry(self, other, i2, j2)]
                    0 <= i2 < i && 0 <= j2 < target_cols
                        && crate::sparse_matrix::product_entry(self, other, i2, j2) != 0
                        ==> result_flat_indices@.contains(((i2 * target_cols + j2) as usize)),
            decreases self.nrows - i,
        {
            let (r_start, r_end) = self.get_row_range(i);
            if r_start == r_end {
                proof {
                    assert forall|j2: int|
                        #![trigger crate::sparse_matrix::product_entry(self, other, i as int, j2)]
                        0 <= j2 < target_cols implies crate::sparse_matrix::product_entry(
                        self,
                        other,
                        i as int,
                        j2,
                    ) == 0 by {
                        lemma_dot_is_product(self, other, i as int, j2);
                        other.lemma_col_range(j2);
                    }
                }
            } else {
                let mut j: usize = 0;
                while j < target_cols
                    invariant
                        self.wf(),
                        other.wf(),
                        self.ncols == other.nrows,
                        self.nrows * other.ncols <= usize::MAX,
                        target_cols == other.ncols,
                        i < self.nrows,
                        j <= target_cols,
                        r_start == self.rowptr@[i as int],
                        r_end == self.rowptr@[i as int + 1],
                        r_end <= self.colind@.len(),
                        result_flat_indices@.len() == result_values@.len(),
                        forall|t: int|
                            0 <= t < result_flat_indices@.len() ==> (
                            #[trigger] result_flat_indices@[t] as int) < (i as int) * (
                            target_cols as int) + j,
                        crate::sorting::sorted_strict(result_flat_indices@),
                        forall|t: int|
                            0 <= t < result_values@.len() ==> #[trigger] result_values@[t] != 0,
                        forall|t: int|
                            0 <= t < result_flat_indices@.len() ==> 0 <= row_of_flat(
                                #[trigger] result_flat_indices@[t] as int,
                                target_cols as int,
                            ) < self.nrows && 0 <= col_of_flat(
                                result_flat_indices@[t] as int,
                                target_cols as int,
                            ) < target_cols && crate::sparse_matrix::product_entry(
                                self,
                                other,
                                row_of_flat(result_flat_indices@[t] as int, target_cols as int),
                                col_of_flat(result_flat_indices@[t] as int, target_cols as int),
                            ) == result_values@[t],
                        forall|i2: int, j2: int|
                            #![trigger crate::sparse_matrix::product_entry(self, other, i2, j2)]
                            0 <= i2 < i && 0 <= j2 < target_cols
                                && crate::sparse_matrix::product_entry(self, other, i2, j2) != 0
                                ==> result_flat_indices@.contains(
                                ((i2 * target_cols + j2) as usize),
                            ),
                        forall|j2: int|
                            #![trigger crate::sparse_matrix::product_entry(self, other, i as int, j2)]
                            0 <= j2 < j && crate::sparse_matrix::product_entry(
                                self,
                                other,
                                i as int,
                                j2,
                            ) != 0 ==> result_flat_indices@.contains(
                                ((i as int * target_cols + j2) as usize),
                            ),
                    decreases target_cols - j,
                {
                    let (c_start, c_end) = other.get_column_range(j);
                    let mut acc: u32 = 0;
                    let mut r_ptr: usize = r_start;
                    let mut c_ptr: usize = c_start;
                    while r_ptr < r_end && c_ptr < c_end
                        invariant
                            self.wf(),
                            other.wf(),
                            i < self.nrows,
                            j < target_cols,
                            target_cols == other.ncols,
                            r_start == self.rowptr@[i as int],
                            r_end == self.rowptr@[i as int + 1],
                            r_end <= self.colind@.len(),
                            c_start == other.colptr@[j as int],
                            c_end == other.colptr@[j as int + 1],
                            c_end <= other.rowind@.len(),
                            r_start <= r_ptr <= r_end,
                            c_start <= c_ptr <= c_end,
                            merge_dot(
                                self.colind@,
                                self.values@,
                                r_end as int,
                                other.rowind@,
                                other.values@,
                                c_end as int,
                                r_ptr as int,
                                c_ptr as int,
                                acc,
                            ) == csr_csc_dot(self, other, i as int, j as int),
                        decreases r_end + c_end - r_ptr - c_ptr,
                    {
                        let rowind = other.rowind[c_ptr];
                        let colind = self.colind[r_ptr];
                        if rowind == colind {
                            acc = crate::scalar::word_add(
                                acc,
                                crate::scalar::word_mul(self.values[r_ptr], other.values[c_ptr]),
                            );
                            r_ptr = r_ptr + 1;
                            c_ptr = c_ptr + 1;
                        } else if rowind < colind {
                            c_ptr = c_ptr + 1;
                        } else {
                            r_ptr = r_ptr + 1;
                        }
                    }
                    proof {
                        assert(merge_dot(
                            self.colind@,
                            self.values@,
                            r_end as int,
                            other.rowind@,
                            other.values@,
                            c_end as int,
                            r_ptr as int,
                            c_ptr as int,
                            acc,
                        ) == acc);
                        assert(csr_csc_dot(self, other, i as int, j as int) == acc);
                        lemma_dot_is_product(self, other, i as int, j as int);
                        crate::indexing::lemma_row_major_flat_bounds(
                            i as int,
                            j as int,
                            self.nrows as int,
                            target_cols as int,
                        );
                        crate::indexing::lemma_row_major_flat_decode(
                            i as int,
                            j as int,
                            target_cols as int,
                        );
                    }
                    let ghost old_flats = result_flat_indices@;
                    let ghost old_vals = result_values@;
                    if acc != 0 {
                        result_flat_indices.push(i * target_cols + j);
                        result_values.push(acc);
                        proof {
                            assert(forall|t: int|
                                0 <= t < old_flats.len()
                                    ==> #[trigger] result_flat_indices@[t] == old_flats[t]);
                            assert(forall|t: int|
                                0 <= t < old_vals.len() ==> #[trigger] result_values@[t]
                                    == old_vals[t]);
                            assert(result_flat_indices@[old_flats.len() as int] == ((
                            i * target_cols + j) as usize));
                        }
                    }
                    j = j + 1;
                    proof {
                        assert forall|j2: int|
                            #![trigger crate::sparse_matrix::product_entry(self, other, i as int, j2)]
                            0 <= j2 < j && crate::sparse_matrix::product_entry(
                            self,
                            other,
                            i as int,
                            j2,
                        ) != 0 implies result_flat_indices@.contains(
                            ((i as int * target_cols + j2) as usize),
                        ) by {
                            if j2 == j - 1 {
                                assert(acc != 0);
                                assert(result_flat_indices@[result_flat_indices@.len() - 1] == ((
                                i as int * target_cols + j2) as usize));
                            } else {
                                let t = choose|t: int|
                                    0 <= t < old_flats.len() && old_flats[t] == ((i as int
                                        * target_cols + j2) as usize);
                                assert(result_flat_indices@[t] == ((i as int * target_cols
                                    + j2) as usize));
                            }
                        }
                        assert forall|i2: int, j2: int|
                            #![trigger crate::sparse_matrix::product_entry(self, other, i2, j2)]
                            0 <= i2 < i && 0 <= j2 < target_cols
                                && crate::sparse_matrix::product_entry(self, other, i2, j2)
                                != 0 implies result_flat_indices@.contains(
                            ((i2 * target_cols + j2) as usize),
                        ) by {
                            let t = choose|t: int|
                                0 <= t < old_flats.len() && old_flats[t] == ((i2 * target_cols
                                    + j2) as usize);
                            assert(result_flat_indices@[t] == ((i2 * target_cols
                                + j2) as usize));
                        }
                    }
                }
            }
            i = i + 1;
            proof {
                assert forall|t: int|
                    0 <= t < result_flat_indices@.len() implies (
                #[trigger] result_flat_indices@[t] as int) < (i as int) * (
                target_cols as int) by {
                    assert((i as int - 1) * (target_cols as int) + (target_cols as int) == (
                    i as int) * (target_cols as int)) by (nonlinear_arith);
                }
                assert forall|i2: int, j2: int|
                    #![trigger crate::sparse_matrix::product_entry(self, other, i2, j2)]
                    0 <= i2 < i && 0 <= j2 < target_cols
                        && crate::sparse_matrix::product_entry(self, other, i2, j2)
                        != 0 implies result_flat_indices@.contains(
                    ((i2 * target_cols + j2) as usize),
                ) by {}
            }
        }
        let ghost fv = result_flat_indices@;
        let r = (result_flat_indices, result_values);
        proof {
            assert(r.0@ == fv);
            assert forall|i2: int, j2: int|
                #![trigger crate::sparse_matrix::product_entry(self, other, i2, j2)]
                0 <= i2 < self.nrows && 0 <= j2 < target_cols implies (r.0@.contains(
                ((i2 * target_cols + j2) as usize),
            ) <==> crate::sparse_matrix::product_entry(self, other, i2, j2) != 0) by {
                crate::indexing::lemma_row_major_flat_bounds(
                    i2,
                    j2,
                    self.nrows as int,
                    target_cols as int,
                );
                crate::indexing::lemma_row_major_flat_decode(i2, j2, target_cols as int);
                let f = ((i2 * target_cols + j2) as usize);
                if r.0@.contains(f) {
                    let t = choose|t: int| 0 <= t < r.0@.len() && r.0@[t] == f;
                    assert(crate::sparse_matrix::product_entry(
                        self,
                        other,
                        row_of_flat(r.0@[t] as int, target_cols as int),
                        col_of_flat(r.0@[t] as int, target_cols as int),
                    ) == r.1@[t]);
                    assert(r.1@[t] != 0);
                }
            }
        }
        r
    }

    /// Merge-join multiply against a CSC operand, returning the product
    /// as a CSC matrix holding exactly the nonzero product entries.
    pub fn multiply_csc(&self, other: &crate::sparse_csc::SparseCSC) -> (r:
        crate::sparse_csc::SparseCSC)
        requires
            self.wf(),
            other.wf(),
            self.ncols == other.nrows,
            self.nrows * other.ncols <= usize::MAX,
            other.ncols + 1 <= usize::MAX,
        ensures
            r.wf(),
            r.spec_nrows() == self.spec_nrows(),
            r.spec_ncols() == other.spec_ncols(),
            forall|i: int, j: int|
                #![trigger r.stored(i, j)]
                0 <= i < self.spec_nrows() && 0 <= j < other.spec_ncols() ==> (r.stored(i, j)
                    <==> crate::sparse_matrix::product_entry(self, other, i, j) != 0),
            forall|i: int, j: int|
                #![trigger r.value_at(i, j)]
                0 <= i < self.spec_nrows() && 0 <= j < other.spec_ncols() ==> r.value_at(i, j)
                    == crate::sparse_matrix::product_entry(self, other, i, j),
    {
        let (flat_indices, values) = self.multiply_to_flat_csc(other);
        let ghost fv = flat_indices@;
        let ghost vv = values@;
        let r = crate::sparse_csc::SparseCSC::from_flat_indices(
            self.nrows,
            other.ncols,
            flat_indices,
            values,
        );
        proof {
            assert forall|i: int, j: int|
                #![trigger r.stored(i, j)]
                0 <= i < self.spec_nrows() && 0 <= j < other.spec_ncols() implies (r.stored(i, j)
                <==> crate::sparse_matrix::product_entry(self, other, i, j) != 0) && r.value_at(
                i,
                j,
            ) == crate::sparse_matrix::product_entry(self, other, i, j) by {
                crate::indexing::lemma_row_major_flat_bounds(
                    i,
                    j,
                    self.nrows as int,
                    other.ncols as int,
                );
                crate::indexing::lemma_row_major_flat_decode(i, j, other.ncols as int);
                let f = ((i * other.ncols + j) as usize);
                assert(r.stored(i, j) <==> fv.contains(f));
                assert(fv.contains(f) <==> crate::sparse_matrix::product_entry(self, other, i, j)
                    != 0);
                if fv.contains(f) {
                    let t = choose|t: int| 0 <= t < fv.len() && fv[t] == f;
                    assert(r.value_at(
                        row_of_flat(fv[t] as int, other.ncols as int),
                        col_of_flat(fv[t] as int, other.ncols as int),
                    ) == vv[t]);
                    assert(crate::sparse_matrix::product_entry(
                        self,
                        other,
                        row_of_flat(fv[t] as int, other.ncols as int),
                        col_of_flat(fv[t] as int, other.ncols as int),
                    ) == vv[t]);
                    assert(r.value_at(i, j) == crate::sparse_matrix::product_entry(
                        self,
                        other,
                        i,
                        j,
                    ));
                } else {
                    assert(!r.stored(i, j));
                    assert(r.value_at(i, j) == 0);
                }
            }
            assert forall|i: int, j: int|
                #![trigger r.value_at(i, j)]
                0 <= i < self.spec_nrows() && 0 <= j < other.spec_ncols() implies r.value_at(i, j)
                == crate::sparse_matrix::product_entry(self, other, i, j) by {
                assert(r.stored(i, j) <==> crate::sparse_matrix::product_entry(self, other, i, j)
                    != 0);
            }
        }
        r
    }

    /// Multiply by another CSR matrix: the right operand is converted to
    /// the column-compressed layout (through the coordinate format) and
    /// the merge-join multiply applied. The product entries are those of
    /// the abstract fold over the right operand's own entries.
    pub fn multiply_csr(&self, other: &SparseCSR) -> (r: crate::sparse_csc::SparseCSC)
        requires
            self.wf(),
            other.wf(),
            self.ncols == other.nrows,
            self.nrows * other.ncols <= usize::MAX,
            other.nrows * other.ncols <= usize::MAX,
            other.ncols + 1 <= usize::MAX,
        ensures
            r.wf(),
            r.spec_nrows() == self.spec_nrows(),
            r.spec_ncols() == other.spec_ncols(),
            forall|i: int, j: int|
                #![trigger r.stored(i, j)]
                0 <= i < self.spec_nrows() && 0 <= j < other.spec_ncols() ==> (r.stored(i, j)
                    <==> crate::sparse_matrix::product_entry(self, other, i, j) != 0),
            forall|i: int, j: int|
                #![trigger r.value_at(i, j)]
                0 <= i < self.spec_nrows() && 0 <= j < other.spec_ncols() ==> r.value_at(i, j)
                    == crate::sparse_matrix::product_entry(self, other, i, j),
    {
        let coo = other.to_coo();
        let csc = coo.to_csc();
        let r = self.multiply_csc(&csc);
        proof {
            assert forall|i2: int, j2: int|
                0 <= i2 < csc.spec_nrows() && 0 <= j2 < csc.spec_ncols() implies (csc.stored(
                i2,
                j2,
            ) <==> other.stored(i2, j2)) && csc.value_at(i2, j2) == other.value_at(i2, j2) by {}
            assert forall|i: int, j: int|
                #![trigger r.stored(i, j)]
                0 <= i < self.spec_nrows() && 0 <= j < other.spec_ncols() implies (r.stored(i, j)
                <==> crate::sparse_matrix::product_entry(self, other, i, j) != 0) && r.value_at(
                i,
                j,
            ) == crate::sparse_matrix::product_entry(self, other, i, j) by {
                crate::sparse_matrix::lemma_product_entry_congruent(
                    self,
                    &csc,
                    other,
                    i,
                    j,
                    0,
                    0,
                );
            }
            assert forall|i: int, j: int|
                #![trigger r.value_at(i, j)]
                0 <= i < self.spec_nrows() && 0 <= j < other.spec_ncols() implies r.value_at(i, j)
                == crate::sparse_matrix::product_entry(self, other, i, j) by {
                assert(r.stored(i, j) <==> crate::sparse_matrix::product_entry(self, other, i, j)
                    != 0);
            }
        }
        r
    }
}

} // verus!
