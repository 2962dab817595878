//! Compressed sparse column (CSC) format: the column-major mirror of CSR.
//!
//! `colptr[j]` is the index of column `j`'s first entry in `rowind` /
//! `values`; column `j` owns positions `colptr[j] .. colptr[j+1]`, with
//! the row indices of a column strictly ascending. The layout is fixed
//! once built: `set` may update an existing entry but rejects a new
//! position.

use vstd::prelude::*;

use crate::compressed::compress_sorted_flats;
use crate::indexing::column_major_flat;
use crate::indexing::row_of_flat;
use crate::indexing::col_of_flat;
use crate::indexing::flat_index_to_column_major;
use crate::sorting::distinct_seq;
use crate::sorting::has_pair;
use crate::sorting::pair_at;
use crate::sorting::sort_pairs;
use crate::sorting::sorted_strict;
use crate::sparse_coo::SparseCOO;
use crate::sparse_matrix::MatrixError;
use crate::sparse_matrix::SparseMatrixTrait;
use crate::sparse_matrix::dense_wf;
use crate::sparse_matrix::dense_nnz;

verus! {

pub struct SparseCSC {
    pub nrows: usize,
    pub ncols: usize,
    pub colptr: Vec<usize>,
    pub rowind: Vec<usize>,
    pub values: Vec<u32>,
}

impl SparseCSC {
    /// Storage position `k` belongs to column `j`.
    pub open spec fn in_col(&self, j: int, k: int) -> bool {
        self.colptr@[j] <= k < self.colptr@[j + 1]
    }

    /// The storage index of the unique entry at `(i, j)`.
    pub open spec fn spec_index_of(&self, i: int, j: int) -> int {
        choose|k: int| self.in_col(j, k) && self.rowind@[k] == i
    }

    /// Column ranges are within the storage arrays.
    pub proof fn lemma_col_range(&self, j: int)
        requires
            self.wf(),
            0 <= j < self.ncols,
        ensures
            self.colptr@[j] <= self.colptr@[j + 1] <= self.rowind@.len(),
    {
        assert(self.colptr@[j] <= self.colptr@[j + 1]);
        assert(self.colptr@[j + 1] <= self.colptr@[self.ncols as int]);
    }

    /// A storage position lies in only one column.
    pub proof fn lemma_col_disjoint(&self, j1: int, j2: int, k: int)
        requires
            self.wf(),
            0 <= j1 < self.ncols,
            0 <= j2 < self.ncols,
            self.in_col(j1, k),
            self.in_col(j2, k),
        ensures
            j1 == j2,
    {
        if j1 < j2 {
            assert(self.colptr@[j1 + 1] <= self.colptr@[j2]);
        } else if j2 < j1 {
            assert(self.colptr@[j2 + 1] <= self.colptr@[j1]);
        }
    }

    /// Under the invariant, an entry of column `j` with row `i` is the
    /// unique entry at `(i, j)` and gives the entry word there.
    pub proof fn lemma_match_unique(&self, k: int, i: int, j: int)
        requires
            self.wf(),
            0 <= i < self.nrows,
            0 <= j < self.ncols,
            self.in_col(j, k),
            self.rowind@[k] == i,
        ensures
            self.stored(i, j),
            self.spec_index_of(i, j) == k,
            self.value_at(i, j) == self.values@[k],
            0 <= k < self.values@.len(),
    {
        self.lemma_col_range(j);
        assert(self.stored(i, j));
        let k0 = self.spec_index_of(i, j);
        assert(self.in_col(j, k0) && self.rowind@[k0] == i);
        if k0 < k {
            assert(false);
        } else if k < k0 {
            assert(false);
        }
    }

    /// Binary search for the entry at `(i, j)` within column `j`'s sorted
    /// row slice.
    fn get_container_index(&self, i: usize, j: usize) -> (r: Option<usize>)
        requires
            self.wf(),
            j < self.ncols,
        ensures
            match r {
                Some(k) => self.in_col(j as int, k as int) && self.rowind@[k as int] == i,
                None => !self.stored(i as int, j as int),
            },
    {
        proof {
            self.lemma_col_range(j as int);
        }
        let mut lo: usize = self.colptr[j];
        let mut hi: usize = self.colptr[j + 1];
        while lo < hi
            invariant
                self.wf(),
                j < self.ncols,
                self.colptr@[j as int] <= lo <= hi <= self.colptr@[j as int + 1],
                self.colptr@[j as int + 1] <= self.rowind@.len(),
                forall|k: int|
                    self.colptr@[j as int] <= k < lo ==> #[trigger] self.rowind@[k] < i,
                forall|k: int|
                    hi <= k < self.colptr@[j as int + 1] ==> #[trigger] self.rowind@[k] > i,
            decreases hi - lo,
        {
            let mid = lo + (hi - lo) / 2;
            if self.rowind[mid] == i {
                proof {
                    assert(self.in_col(j as int, mid as int));
                }
                return Some(mid);
            } else if self.rowind[mid] < i {
                proof {
                    assert forall|k: int|
                        self.colptr@[j as int] <= k < mid + 1 implies #[trigger] self.rowind@[k]
                        < i by {
                        if k < mid {
                            assert(self.in_col(j as int, k));
                            assert(self.in_col(j as int, mid as int));
                            assert(self.rowind@[k] < self.rowind@[mid as int]);
                        }
                    }
                }
                lo = mid + 1;
            } else {
                proof {
                    assert forall|k: int|
                        mid <= k < self.colptr@[j as int + 1] implies #[trigger] self.rowind@[k]
                        > i by {
                        if k > mid {
                            assert(self.in_col(j as int, mid as int));
                            assert(self.in_col(j as int, k));
                            assert(self.rowind@[mid as int] < self.rowind@[k]);
                        }
                    }
                }
                hi = mid;
            }
        }
        proof {
            if self.stored(i as int, j as int) {
                let k = choose|k: int| self.in_col(j as int, k) && self.rowind@[k] == i;
                assert(false);
            }
        }
        None
    }
}

impl SparseMatrixTrait for SparseCSC {
    open spec fn spec_nrows(&self) -> nat {
        self.nrows as nat
    }

    open spec fn spec_ncols(&self) -> nat {
        self.ncols as nat
    }

    open spec fn spec_nnz(&self) -> nat {
        self.rowind@.len()
    }

    open spec fn wf(&self) -> bool {
        &&& self.colptr@.len() == self.ncols + 1
        &&& self.colptr@[0] == 0
        &&& self.colptr@[self.ncols as int] == self.rowind@.len()
        &&& self.values@.len() == self.rowind@.len()
        &&& forall|j1: int, j2: int|
            #![trigger self.colptr@[j1], self.colptr@[j2]]
            0 <= j1 <= j2 <= self.ncols ==> self.colptr@[j1] <= self.colptr@[j2]
        &&& forall|j: int, k: int|
            #![trigger self.in_col(j, k), self.rowind@[k]]
            0 <= j < self.ncols && self.in_col(j, k) ==> self.rowind@[k] < self.nrows
        &&& forall|j: int, k1: int, k2: int|
            #![trigger self.in_col(j, k1), self.rowind@[k1], self.rowind@[k2]]
            0 <= j < self.ncols && self.in_col(j, k1) && self.in_col(j, k2) && k1 < k2
                ==> self.rowind@[k1] < self.rowind@[k2]
    }

    open spec fn stored(&self, i: int, j: int) -> bool {
        &&& 0 <= i < self.nrows
        &&& 0 <= j < self.ncols
        &&& exists|k: int| #[trigger] self.in_col(j, k) && self.rowind@[k] == i
    }

    open spec fn value_at(&self, i: int, j: int) -> u32 {
        if self.stored(i, j) {
            self.values@[self.spec_index_of(i, j)]
        } else {
            0
        }
    }

    open spec fn supports_insert() -> bool {
        false
    }

    fn new(nrows: usize, ncols: usize) -> (r: Self) {
        let mut colptr: Vec<usize> = Vec::new();
        let mut j: usize = 0;
        while j < ncols + 1
            invariant
                j <= ncols + 1,
                ncols + 1 <= usize::MAX,
                colptr@.len() == j,
                forall|t: int| 0 <= t < j ==> #[trigger] colptr@[t] == 0,
            decreases ncols + 1 - j,
        {
            colptr.push(0);
            j = j + 1;
        }
        let r = SparseCSC { nrows, ncols, colptr, rowind: Vec::new(), values: Vec::new() };
        proof {
            assert forall|i2: int, j2: int| !r.stored(i2, j2) by {
                if r.stored(i2, j2) {
                    let k = choose|k: int| #[trigger] r.in_col(j2, k) && r.rowind@[k] == i2;
                    assert(false);
                }
            }
        }
        r
    }

    fn random(nrows: usize, ncols: usize, density: u32, seed: u64) -> (r: Self) {
        Self::random_csc(nrows, ncols, density, seed)
    }

    fn from_dense(dense: Vec<Vec<u32>>) -> (r: Self) {
        Self::from_dense_csc(dense)
    }

    fn to_dense(&self) -> (r: Vec<Vec<u32>>) {
        let mut dense: Vec<Vec<u32>> = Vec::new();
        let mut i: usize = 0;
        while i < self.nrows
            invariant
                self.wf(),
                i <= self.nrows,
                dense@.len() == i,
                forall|i2: int| 0 <= i2 < i ==> (#[trigger] dense@[i2])@.len() == self.ncols,
                forall|i2: int, j2: int|
                    0 <= i2 < i && 0 <= j2 < self.ncols ==> dense@[i2]@[j2] == #[trigger] self
                        .value_at(i2, j2),
            decreases self.nrows - i,
        {
            let mut row: Vec<u32> = Vec::new();
            let mut j: usize = 0;
            while j < self.ncols
                invariant
                    self.wf(),
                    i < self.nrows,
                    j <= self.ncols,
                    row@.len() == j,
                    forall|j2: int|
                        0 <= j2 < j ==> #[trigger] row@[j2] == self.value_at(i as int, j2),
                decreases self.ncols - j,
            {
                let w = match self.get_container_index(i, j) {
                    Some(k) => {
                        proof {
                            self.lemma_match_unique(k as int, i as int, j as int);
                        }
                        self.values[k]
                    },
                    None => 0,
                };
                row.push(w);
                j = j + 1;
            }
            dense.push(row);
            i = i + 1;
        }
        proof {
            assert forall|i2: int|
                0 <= i2 < dense.deep_view().len() implies #[trigger] dense.deep_view()[i2].len()
                == self.spec_ncols() by {
                assert(dense.deep_view()[i2] =~= dense@[i2]@);
            }
            assert forall|i2: int, j2: int|
                0 <= i2 < self.spec_nrows() && 0 <= j2 < self.spec_ncols() implies dense.deep_view(
            )[i2][j2] == self.value_at(i2, j2) by {
                assert(dense.deep_view()[i2] =~= dense@[i2]@);
            }
        }
        dense
    }

    fn get(&self, i: usize, j: usize) -> (r: Result<u32, MatrixError>) {
        if i >= self.nrows || j >= self.ncols {
            return Err(MatrixError::OutOfBounds);
        }
        match self.get_container_index(i, j) {
            Some(k) => {
                proof {
                    self.lemma_match_unique(k as int, i as int, j as int);
                }
                Ok(self.values[k])
            },
            None => Ok(0),
        }
    }

    fn set(&mut self, i: usize, j: usize, value: u32) -> (r: Result<(), MatrixError>) {
        if i >= self.nrows || j >= self.ncols {
            return Err(MatrixError::OutOfBounds);
        }
        let ghost prev = *self;
        match self.get_container_index(i, j) {
            Some(k) => {
                proof {
                    prev.lemma_match_unique(k as int, i as int, j as int);
                }
                self.values.set(k, value);
                proof {
                    assert(self.colptr@ == prev.colptr@ && self.rowind@ == prev.rowind@);
                    assert(self.values@ == prev.values@.update(k as int, value));
                    assert forall|j2: int, k2: int|
                        #![trigger self.in_col(j2, k2), self.rowind@[k2]]
                        0 <= j2 < self.ncols && self.in_col(j2, k2) implies self.rowind@[k2]
                        < self.nrows by {
                        assert(prev.in_col(j2, k2));
                    }
                    assert forall|j2: int, k1: int, k2: int|
                        #![trigger self.in_col(j2, k1), self.rowind@[k1], self.rowind@[k2]]
                        0 <= j2 < self.ncols && self.in_col(j2, k1) && self.in_col(j2, k2) && k1
                            < k2 implies self.rowind@[k1] < self.rowind@[k2] by {
                        assert(prev.in_col(j2, k1) && prev.in_col(j2, k2));
                    }
                    assert(self.wf());
                    assert forall|i2: int, j2: int|
                        self.stored(i2, j2) <==> prev.stored(i2, j2) by {
                        if self.stored(i2, j2) {
                            let k2 = choose|k2: int|
                                #[trigger] self.in_col(j2, k2) && self.rowind@[k2] == i2;
                            assert(prev.in_col(j2, k2) && prev.rowind@[k2] == i2);
                        }
                        if prev.stored(i2, j2) {
                            let k2 = choose|k2: int|
                                #[trigger] prev.in_col(j2, k2) && prev.rowind@[k2] == i2;
                            assert(self.in_col(j2, k2) && self.rowind@[k2] == i2);
                        }
                    }
                    self.lemma_match_unique(k as int, i as int, j as int);
                    assert forall|i2: int, j2: int|
                        !(i2 == i as int && j2 == j as int) implies self.value_at(i2, j2)
                        == prev.value_at(i2, j2) by {
                        if prev.stored(i2, j2) {
                            let k2 = prev.spec_index_of(i2, j2);
                            assert(prev.in_col(j2, k2) && prev.rowind@[k2] == i2);
                            prev.lemma_match_unique(k2, i2, j2);
                            self.lemma_match_unique(k2, i2, j2);
                            if k2 == k as int {
                                self.lemma_col_disjoint(j2, j as int, k2);
                                assert(false);
                            }
                        }
                    }
                }
                Ok(())
            },
            None => Err(MatrixError::NotStored),
        }
    }

    fn size(&self) -> (r: (usize, usize)) {
        (self.nrows, self.ncols)
    }

    fn nnz(&self) -> (r: usize) {
        self.rowind.len()
    }
}

impl SparseCSC {
    /// Build a CSC matrix from row-major flat positions and their entry
    /// words: each position is remapped to its column-major encoding, the
    /// pairs are sorted by it, and the column boundaries re-derived from
    /// the sorted order, empty columns getting zero-width ranges.
    pub fn from_flat_indices(
        nrows: usize,
        ncols: usize,
        flat_indices: Vec<usize>,
        flat_values: Vec<u32>,
    ) -> (r: Self)
        requires
            flat_indices@.len() == flat_values@.len(),
            distinct_seq(flat_indices@),
            nrows * ncols <= usize::MAX,
            ncols + 1 <= usize::MAX,
            forall|t: int|
                0 <= t < flat_indices@.len() ==> (#[trigger] flat_indices@[t] as int) < (
                nrows as int) * (ncols as int),
        ensures
            r.wf(),
            r.spec_nrows() == nrows,
            r.spec_ncols() == ncols,
            r.spec_nnz() == flat_indices@.len(),
            forall|i: int, j: int|
                0 <= i < nrows && 0 <= j < ncols ==> (r.stored(i, j) <==> flat_indices@.contains(
                    ((i * ncols + j) as usize),
                )),
            forall|t: int|
                0 <= t < flat_indices@.len() ==> r.value_at(
                    row_of_flat(flat_indices@[t] as int, ncols as int),
                    col_of_flat(flat_indices@[t] as int, ncols as int),
                ) == flat_values@[t],
    {
        let ghost in_keys = flat_indices@;
        let ghost in_vals = flat_values@;
        let n = flat_indices.len();
        let mut keys: Vec<usize> = Vec::new();
        let mut t: usize = 0;
        while t < n
            invariant
                n == in_keys.len(),
                in_keys == flat_indices@,
                distinct_seq(in_keys),
                nrows * ncols <= usize::MAX,
                forall|t2: int|
                    0 <= t2 < in_keys.len() ==> (#[trigger] in_keys[t2] as int) < (nrows as int)
                        * (ncols as int),
                t <= n,
                keys@.len() == t,
                forall|t2: int|
                    0 <= t2 < t ==> (#[trigger] keys@[t2] as int) == column_major_flat(
                        row_of_flat(in_keys[t2] as int, ncols as int),
                        col_of_flat(in_keys[t2] as int, ncols as int),
                        nrows as int,
                    ),
                forall|t2: int|
                    0 <= t2 < t ==> (#[trigger] keys@[t2] as int) < (nrows as int) * (
                    ncols as int),
            decreases n - t,
        {
            let f = flat_indices[t];
            proof {
                assert(0 < nrows && 0 < ncols) by (nonlinear_arith)
                    requires
                        (f as int) < (nrows as int) * (ncols as int),
                        0 <= f as int,
                ;
            }
            let cm = flat_index_to_column_major(f, nrows, ncols);
            let ghost old_keys = keys@;
            keys.push(cm);
            proof {
                assert(forall|t2: int|
                    0 <= t2 < t ==> #[trigger] keys@[t2] == old_keys[t2]);
            }
            t = t + 1;
        }
        proof {
            assert forall|t1: int, t2: int|
                0 <= t1 < t2 < keys@.len() implies keys@[t1] != keys@[t2] by {
                if keys@[t1] == keys@[t2] {
                    assert(0 < nrows && 0 < ncols) by (nonlinear_arith)
                        requires
                            (in_keys[t1] as int) < (nrows as int) * (ncols as int),
                            0 <= in_keys[t1] as int,
                    ;
                    crate::indexing::lemma_flat_conversion_round_trip(
                        in_keys[t1] as int,
                        nrows as int,
                        ncols as int,
                    );
                    crate::indexing::lemma_flat_conversion_round_trip(
                        in_keys[t2] as int,
                        nrows as int,
                        ncols as int,
                    );
                    crate::indexing::lemma_flat_decode_bounds(
                        in_keys[t1] as int,
                        nrows as int,
                        ncols as int,
                    );
                    crate::indexing::lemma_flat_decode_bounds(
                        in_keys[t2] as int,
                        nrows as int,
                        ncols as int,
                    );
                    assert(row_of_flat(in_keys[t1] as int, ncols as int) == row_of_flat(
                        in_keys[t2] as int,
                        ncols as int,
                    ));
                    assert(col_of_flat(in_keys[t1] as int, ncols as int) == col_of_flat(
                        in_keys[t2] as int,
                        ncols as int,
                    ));
                    assert(in_keys[t1] as int == in_keys[t2] as int);
                    assert(false);
                }
            }
        }
        let mut vals = flat_values;
        let ghost cm_keys = keys@;
        sort_pairs(&mut keys, &mut vals);
        proof {
            assert forall|t2: int|
                0 <= t2 < keys@.len() implies (#[trigger] keys@[t2] as int) < (ncols as int) * (
            nrows as int) by {
                assert(pair_at(keys@, vals@, t2, keys@[t2], vals@[t2]));
                assert(has_pair(keys@, vals@, keys@[t2], vals@[t2]));
                let u = choose|u: int|
                    0 <= u < cm_keys.len() && #[trigger] pair_at(
                        cm_keys,
                        in_vals,
                        u,
                        keys@[t2],
                        vals@[t2],
                    );
                assert(cm_keys[u] == keys@[t2]);
                assert((cm_keys[u] as int) < (nrows as int) * (ncols as int));
                assert((nrows as int) * (ncols as int) == (ncols as int) * (nrows as int))
                    by (nonlinear_arith);
            }
            assert((ncols as int) * (nrows as int) == (nrows as int) * (ncols as int))
                by (nonlinear_arith);
            assert(ncols * nrows == nrows * ncols) by (nonlinear_arith);
        }
        let (colptr, rowind) = compress_sorted_flats(ncols, nrows, &keys);
        let r = SparseCSC { nrows, ncols, colptr, rowind, values: vals };
        proof {
            assert(r.wf()) by {
                assert forall|j: int, k: int|
                    #![trigger r.in_col(j, k), r.rowind@[k]]
                    0 <= j < ncols && r.in_col(j, k) implies r.rowind@[k] < r.nrows by {}
                assert forall|j: int, k1: int, k2: int|
                    #![trigger r.in_col(j, k1), r.rowind@[k1], r.rowind@[k2]]
                    0 <= j < ncols && r.in_col(j, k1) && r.in_col(j, k2) && k1 < k2 implies r
                    .rowind@[k1] < r.rowind@[k2] by {
                    assert(keys@[k1] < keys@[k2]);
                    assert((keys@[k1] as int) == j * (nrows as int) + r.rowind@[k1]);
                    assert((keys@[k2] as int) == j * (nrows as int) + r.rowind@[k2]);
                }
            }
            assert forall|i: int, j: int|
                0 <= i < nrows && 0 <= j < ncols implies (r.stored(i, j)
                <==> in_keys.contains(((i * ncols + j) as usize))) by {
                crate::indexing::lemma_row_major_flat_decode(i, j, ncols as int);
                crate::indexing::lemma_row_major_flat_bounds(i, j, nrows as int, ncols as int);
                crate::indexing::lemma_column_major_flat_decode(i, j, nrows as int);
                crate::indexing::lemma_column_major_flat_bounds(i, j, nrows as int, ncols as int);
                let f = ((i * ncols + j) as usize);
                let cmf = ((j * nrows + i) as usize);
                if r.stored(i, j) {
                    let k = choose|k: int| #[trigger] r.in_col(j, k) && r.rowind@[k] == i;
                    assert((keys@[k] as int) == j * (nrows as int) + r.rowind@[k]);
                    assert(keys@[k] == cmf);
                    assert(pair_at(keys@, vals@, k, keys@[k], vals@[k]));
                    assert(has_pair(keys@, vals@, keys@[k], vals@[k]));
                    let u = choose|u: int|
                        0 <= u < cm_keys.len() && #[trigger] pair_at(
                            cm_keys,
                            in_vals,
                            u,
                            keys@[k],
                            vals@[k],
                        );
                    assert(cm_keys[u] == cmf);
                    crate::indexing::lemma_flat_decode_bounds(
                        in_keys[u] as int,
                        nrows as int,
                        ncols as int,
                    );
                    crate::indexing::lemma_flat_conversion_round_trip(
                        in_keys[u] as int,
                        nrows as int,
                        ncols as int,
                    );
                    assert(row_of_flat(in_keys[u] as int, ncols as int) == i);
                    assert(col_of_flat(in_keys[u] as int, ncols as int) == j);
                    assert(in_keys[u] == f);
                    assert(in_keys.contains(f));
                }
                if in_keys.contains(f) {
                    let u = choose|u: int| 0 <= u < in_keys.len() && in_keys[u] == f;
                    assert((cm_keys[u] as int) == column_major_flat(
                        row_of_flat(f as int, ncols as int),
                        col_of_flat(f as int, ncols as int),
                        nrows as int,
                    ));
                    assert(cm_keys[u] == cmf);
                    assert(pair_at(cm_keys, in_vals, u, cmf, in_vals[u]));
                    assert(has_pair(cm_keys, in_vals, cmf, in_vals[u]));
                    let w = choose|w: int|
                        0 <= w < keys@.len() && #[trigger] pair_at(
                            keys@,
                            vals@,
                            w,
                            cmf,
                            in_vals[u],
                        );
                    assert((keys@[w] as int) / (nrows as int) == j);
                    assert(r.colptr@[j] <= w < r.colptr@[j + 1]);
                    assert(r.in_col(j, w));
                    assert((keys@[w] as int) == j * (nrows as int) + r.rowind@[w]);
                    assert(r.rowind@[w] == i);
                    assert(r.stored(i, j));
                }
            }
            assert forall|t2: int|
                0 <= t2 < in_keys.len() implies r.value_at(
                row_of_flat(in_keys[t2] as int, ncols as int),
                col_of_flat(in_keys[t2] as int, ncols as int),
            ) == in_vals[t2] by {
                let f = in_keys[t2];
                let v = in_vals[t2];
                assert(0 < nrows && 0 < ncols) by (nonlinear_arith)
                    requires
                        (f as int) < (nrows as int) * (ncols as int),
                        0 <= f as int,
                ;
                crate::indexing::lemma_flat_decode_bounds(f as int, nrows as int, ncols as int);
                crate::indexing::lemma_flat_conversion_round_trip(
                    f as int,
                    nrows as int,
                    ncols as int,
                );
                let i = row_of_flat(f as int, ncols as int);
                let j = col_of_flat(f as int, ncols as int);
                let cmf = cm_keys[t2];
                assert((cmf as int) == column_major_flat(i, j, nrows as int));
                assert(pair_at(cm_keys, in_vals, t2, cmf, v));
                assert(has_pair(cm_keys, in_vals, cmf, v));
                let w = choose|w: int|
                    0 <= w < keys@.len() && #[trigger] pair_at(keys@, vals@, w, cmf, v);
                assert((keys@[w] as int) / (nrows as int) == j) by {
                    crate::indexing::lemma_column_major_flat_decode(i, j, nrows as int);
                }
                assert(r.colptr@[j] <= w < r.colptr@[j + 1]);
                assert(r.in_col(j, w));
                assert((keys@[w] as int) == j * (nrows as int) + r.rowind@[w]);
                assert(r.rowind@[w] == i) by {
                    crate::indexing::lemma_column_major_flat_decode(i, j, nrows as int);
                    assert((keys@[w] as int) % (nrows as int) == r.rowind@[w]);
                }
                r.lemma_match_unique(w, i, j);
            }
        }
        r
    }

    /// See [`SparseMatrixTrait::from_dense`]: the nonzero cells are
    /// collected and laid out column-compressed through
    /// [`SparseCSC::from_flat_indices`].
    fn from_dense_csc(dense: Vec<Vec<u32>>) -> (r: Self)
        requires
            dense_wf(dense.deep_view()),
            dense.deep_view().len() + 1 <= usize::MAX,
            dense.deep_view()[0].len() + 1 <= usize::MAX,
            dense.deep_view().len() * dense.deep_view()[0].len() <= usize::MAX,
        ensures
            r.wf(),
            r.spec_nrows() == dense.deep_view().len(),
            r.spec_ncols() == dense.deep_view()[0].len(),
            r.spec_nnz() == dense_nnz(dense.deep_view()),
            forall|i: int, j: int|
                0 <= i < r.spec_nrows() && 0 <= j < r.spec_ncols() ==> (r.stored(i, j)
                    <==> dense.deep_view()[i][j] != 0),
            forall|i: int, j: int|
                0 <= i < r.spec_nrows() && 0 <= j < r.spec_ncols() ==> r.value_at(i, j)
                    == dense.deep_view()[i][j],
    {
        let ghost d = dense.deep_view();
        let nrows = dense.len();
        let ncols = dense[0].len();
        let (flats, vals) = crate::sparse_matrix::dense_nonzero_flats(&dense, nrows, ncols);
        let ghost flats_view = flats@;
        let ghost vals_view = vals@;
        let r = Self::from_flat_indices(nrows, ncols, flats, vals);
        proof {
            assert forall|i: int, j: int|
                0 <= i < r.spec_nrows() && 0 <= j < r.spec_ncols() implies (r.stored(i, j)
                <==> d[i][j] != 0) && r.value_at(i, j) == d[i][j] by {
                crate::indexing::lemma_row_major_flat_decode(i, j, ncols as int);
                crate::indexing::lemma_row_major_flat_bounds(i, j, nrows as int, ncols as int);
                let f = ((i * ncols + j) as usize);
                assert(f as int == i * ncols + j);
                if r.stored(i, j) {
                    assert(flats_view.contains(f));
                    let t = choose|t: int| 0 <= t < flats_view.len() && flats_view[t] == f;
                    assert(row_of_flat(flats_view[t] as int, ncols as int) == i);
                    assert(col_of_flat(flats_view[t] as int, ncols as int) == j);
                    assert(d[i][j] == vals_view[t] && vals_view[t] != 0);
                    assert(r.value_at(i, j) == vals_view[t]);
                } else {
                    if d[i][j] != 0 {
                        assert(flats_view.contains(f));
                        assert(r.stored(i, j));
                        assert(false);
                    }
                    assert(r.value_at(i, j) == 0);
                }
            }
        }
        r
    }

    /// See [`SparseMatrixTrait::random`]: distinct flat positions drawn
    /// without replacement from the index domain by fastrand, then laid
    /// out through [`SparseCSC::from_flat_indices`].
    fn random_csc(nrows: usize, ncols: usize, density: u32, seed: u64) -> (r: Self)
        requires
            nrows * ncols <= usize::MAX,
            ncols + 1 <= usize::MAX,
        ensures
            r.wf(),
            r.spec_nrows() == nrows,
            r.spec_ncols() == ncols,
            crate::scalar::density_count_of((nrows * ncols) as usize, density) <= nrows * ncols
                ==> r.spec_nnz() == crate::scalar::density_count_of(
                (nrows * ncols) as usize,
                density,
            ),
            crate::scalar::density_count_of((nrows * ncols) as usize, density) > nrows * ncols
                ==> r.spec_nnz() == nrows * ncols,
    {
        let total = nrows * ncols;
        let count = crate::scalar::density_count(total, density);
        let target = if count > total {
            total
        } else {
            count
        };
        let mut rng = crate::rng::rng_with_seed(seed);
        let flats = crate::rng::draw_distinct_indices(&mut rng, total, target);
        let mut vals: Vec<u32> = Vec::new();
        let mut k: usize = 0;
        while k < target
            invariant
                k <= target,
                vals@.len() == k,
            decreases target - k,
        {
            vals.push(crate::rng::random_unit_word(&mut rng));
            k = k + 1;
        }
        Self::from_flat_indices(nrows, ncols, flats, vals)
    }
}

/// Sorted-invariant law: under the CSC invariant — which every
/// constructor and conversion into the format establishes — the row
/// indices of each column's slice are strictly ascending.
pub proof fn lemma_csc_columns_sorted(m: &SparseCSC, j: int, k1: int, k2: int)
    requires
        m.wf(),
        0 <= j < m.ncols,
        m.in_col(j, k1),
        m.in_col(j, k2),
        k1 < k2,
    ensures
        m.rowind@[k1] < m.rowind@[k2],
{
}

impl SparseCSC {
    /// Number of stored entries in column `j`.
    pub fn num_nnz_in_column(&self, j: usize) -> (r: usize)
        requires
            self.wf(),
            j < self.ncols,
        ensures
            r == self.colptr@[j as int + 1] - self.colptr@[j as int],
    {
        proof {
            self.lemma_col_range(j as int);
        }
        self.colptr[j + 1] - self.colptr[j]
    }

    /// The storage range `[start, end)` of column `j`.
    pub fn get_column_range(&self, j: usize) -> (r: (usize, usize))
        requires
            self.wf(),
            j < self.ncols,
        ensures
            r.0 == self.colptr@[j as int],
            r.1 == self.colptr@[j as int + 1],
            r.0 <= r.1 <= self.rowind@.len(),
    {
        proof {
            self.lemma_col_range(j as int);
        }
        (self.colptr[j], self.colptr[j + 1])
    }

    /// The columns that hold at least one entry, ascending.
    pub fn nonzero_columns(&self) -> (r: Vec<usize>)
        requires
            self.wf(),
        ensures
            sorted_strict(r@),
            forall|t: int| 0 <= t < r@.len() ==> #[trigger] r@[t] < self.ncols,
            forall|t: int|
                0 <= t < r@.len() ==> self.colptr@[(#[trigger] r@[t]) as int + 1]
                    > self.colptr@[r@[t] as int],
            forall|j: int|
                #![trigger self.colptr@[j]]
                0 <= j < self.ncols && self.colptr@[j + 1] > self.colptr@[j] ==> r@.contains(
                    (j as usize),
                ),
    {
        let mut cols: Vec<usize> = Vec::new();
        let mut j: usize = 0;
        while j < self.ncols
            invariant
                self.wf(),
                j <= self.ncols,
                sorted_strict(cols@),
                forall|t: int| 0 <= t < cols@.len() ==> #[trigger] cols@[t] < j,
                forall|t: int|
                    0 <= t < cols@.len() ==> self.colptr@[(#[trigger] cols@[t]) as int + 1]
                        > self.colptr@[cols@[t] as int],
                forall|j2: int|
                    #![trigger self.colptr@[j2]]
                    0 <= j2 < j && self.colptr@[j2 + 1] > self.colptr@[j2] ==> cols@.contains(
                        (j2 as usize),
                    ),
            decreases self.ncols - j,
        {
            let ghost old_cols = cols@;
            if self.num_nnz_in_column(j) > 0 {
                cols.push(j);
                proof {
                    assert(forall|t: int|
                        0 <= t < old_cols.len() ==> #[trigger] cols@[t] == old_cols[t]);
                    assert(cols@[cols@.len() - 1] == j);
                }
            }
            j = j + 1;
            proof {
                assert forall|j2: int|
                    #![trigger self.colptr@[j2]]
                    0 <= j2 < j && self.colptr@[j2 + 1] > self.colptr@[j2] implies cols@.contains(
                    (j2 as usize),
                ) by {
                    if j2 == j - 1 {
                        assert(cols@[cols@.len() - 1] == (j2 as usize));
                    } else {
                        let t = choose|t: int|
                            0 <= t < old_cols.len() && old_cols[t] == (j2 as usize);
                        assert(cols@[t] == (j2 as usize));
                    }
                }
            }
        }
        cols
    }

    /// Convert to the coordinate-list format, preserving every entry.
    pub fn to_coo(&self) -> (r: SparseCOO)
        requires
            self.wf(),
            self.nrows * self.ncols <= usize::MAX,
        ensures
            r.wf(),
            r.spec_nrows() == self.spec_nrows(),
            r.spec_ncols() == self.spec_ncols(),
            r.spec_nnz() == self.spec_nnz(),
            forall|i: int, j: int|
                0 <= i < self.spec_nrows() && 0 <= j < self.spec_ncols() ==> (r.stored(i, j)
                    <==> self.stored(i, j)),
            forall|i: int, j: int|
                0 <= i < self.spec_nrows() && 0 <= j < self.spec_ncols() ==> r.value_at(i, j)
                    == self.value_at(i, j),
    {
        let mut flats: Vec<usize> = Vec::new();
        let mut vals: Vec<u32> = Vec::new();
        let mut j: usize = 0;
        while j < self.ncols
            invariant
                self.wf(),
                self.nrows * self.ncols <= usize::MAX,
                j <= self.ncols,
                flats@.len() == vals@.len(),
                flats@.len() == self.colptr@[j as int],
                forall|t1: int, t2: int|
                    #![trigger flats@[t1], flats@[t2]]
                    0 <= t1 < t2 < flats@.len() ==> column_major_flat(
                        row_of_flat(flats@[t1] as int, self.ncols as int),
                        col_of_flat(flats@[t1] as int, self.ncols as int),
                        self.nrows as int,
                    ) < column_major_flat(
                        row_of_flat(flats@[t2] as int, self.ncols as int),
                        col_of_flat(flats@[t2] as int, self.ncols as int),
                        self.nrows as int,
                    ),
                forall|t: int|
                    0 <= t < self.colptr@[j as int] ==> column_major_flat(
                        row_of_flat(#[trigger] flats@[t] as int, self.ncols as int),
                        col_of_flat(flats@[t] as int, self.ncols as int),
                        self.nrows as int,
                    ) < (j as int) * (self.nrows as int),
                forall|j2: int, k2: int|
                    #![trigger self.in_col(j2, k2), flats@[k2]]
                    0 <= j2 < j && self.in_col(j2, k2) ==> (flats@[k2] as int)
                        == self.rowind@[k2] * (self.ncols as int) + j2 && vals@[k2]
                        == self.values@[k2],
                forall|t: int|
                    0 <= t < flats@.len() ==> (#[trigger] flats@[t] as int) < (
                    self.nrows as int) * (self.ncols as int) && 0 <= row_of_flat(
                        flats@[t] as int,
                        self.ncols as int,
                    ) < self.nrows && 0 <= col_of_flat(flats@[t] as int, self.ncols as int)
                        < self.ncols && self.stored(
                        row_of_flat(flats@[t] as int, self.ncols as int),
                        col_of_flat(flats@[t] as int, self.ncols as int),
                    ) && self.value_at(
                        row_of_flat(flats@[t] as int, self.ncols as int),
                        col_of_flat(flats@[t] as int, self.ncols as int),
                    ) == vals@[t],
            decreases self.ncols - j,
        {
            proof {
                self.lemma_col_range(j as int);
            }
            let col_end = self.colptr[j + 1];
            let mut k: usize = self.colptr[j];
            while k < col_end
                invariant
                    self.wf(),
                    self.nrows * self.ncols <= usize::MAX,
                    j < self.ncols,
                    col_end == self.colptr@[j as int + 1],
                    self.colptr@[j as int] <= k <= col_end,
                    col_end <= self.rowind@.len(),
                    flats@.len() == vals@.len(),
                    flats@.len() == k,
                    forall|t1: int, t2: int|
                        #![trigger flats@[t1], flats@[t2]]
                        0 <= t1 < t2 < flats@.len() ==> column_major_flat(
                            row_of_flat(flats@[t1] as int, self.ncols as int),
                            col_of_flat(flats@[t1] as int, self.ncols as int),
                            self.nrows as int,
                        ) < column_major_flat(
                            row_of_flat(flats@[t2] as int, self.ncols as int),
                            col_of_flat(flats@[t2] as int, self.ncols as int),
                            self.nrows as int,
                        ),
                    forall|t: int|
                        0 <= t < self.colptr@[j as int] ==> column_major_flat(
                            row_of_flat(#[trigger] flats@[t] as int, self.ncols as int),
                            col_of_flat(flats@[t] as int, self.ncols as int),
                            self.nrows as int,
                        ) < (j as int) * (self.nrows as int),
                    forall|j2: int, k2: int|
                        #![trigger self.in_col(j2, k2), flats@[k2]]
                        0 <= j2 < j && self.in_col(j2, k2) ==> (flats@[k2] as int)
                            == self.rowind@[k2] * (self.ncols as int) + j2 && vals@[k2]
                            == self.values@[k2],
                    forall|k2: int|
                        self.colptr@[j as int] <= k2 < k ==> (#[trigger] flats@[k2] as int)
                            == self.rowind@[k2] * (self.ncols as int) + j as int && vals@[k2]
                            == self.values@[k2],
                    forall|t: int|
                        0 <= t < flats@.len() ==> (#[trigger] flats@[t] as int) < (
                        self.nrows as int) * (self.ncols as int) && 0 <= row_of_flat(
                            flats@[t] as int,
                            self.ncols as int,
                        ) < self.nrows && 0 <= col_of_flat(flats@[t] as int, self.ncols as int)
                            < self.ncols && self.stored(
                            row_of_flat(flats@[t] as int, self.ncols as int),
                            col_of_flat(flats@[t] as int, self.ncols as int),
                        ) && self.value_at(
                            row_of_flat(flats@[t] as int, self.ncols as int),
                            col_of_flat(flats@[t] as int, self.ncols as int),
                        ) == vals@[t],
                decreases col_end - k,
            {
                let i = self.rowind[k];
                proof {
                    assert(self.in_col(j as int, k as int));
                    crate::indexing::lemma_row_major_flat_bounds(
                        i as int,
                        j as int,
                        self.nrows as int,
                        self.ncols as int,
                    );
                    crate::indexing::lemma_row_major_flat_decode(
                        i as int,
                        j as int,
                        self.ncols as int,
                    );
                    self.lemma_match_unique(k as int, i as int, j as int);
                }
                let ghost old_flats = flats@;
                let ghost old_vals = vals@;
                flats.push(i * self.ncols + j);
                vals.push(self.values[k]);
                proof {
                    assert(forall|t: int|
                        0 <= t < old_flats.len() ==> #[trigger] flats@[t] == old_flats[t]);
                    assert(forall|t: int|
                        0 <= t < old_vals.len() ==> #[trigger] vals@[t] == old_vals[t]);
                    assert((flats@[k as int] as int) == (i as int) * (self.ncols as int)
                        + j as int);
                    assert(row_of_flat(flats@[k as int] as int, self.ncols as int) == i as int);
                    assert(col_of_flat(flats@[k as int] as int, self.ncols as int) == j as int);
                    assert(column_major_flat(i as int, j as int, self.nrows as int) == (
                    j as int) * (self.nrows as int) + i as int);
                    assert forall|j2: int, k2: int|
                        #![trigger self.in_col(j2, k2), flats@[k2]]
                        0 <= j2 < j && self.in_col(j2, k2) implies (flats@[k2] as int)
                        == self.rowind@[k2] * (self.ncols as int) + j2 && vals@[k2]
                        == self.values@[k2] by {
                        assert(self.colptr@[j2 + 1] <= self.colptr@[j as int]);
                        assert(k2 < old_flats.len());
                        assert(flats@[k2] == old_flats[k2] && vals@[k2] == old_vals[k2]);
                    }
                    assert forall|t1: int, t2: int|
                        #![trigger flats@[t1], flats@[t2]]
                        0 <= t1 < t2 < flats@.len() implies column_major_flat(
                        row_of_flat(flats@[t1] as int, self.ncols as int),
                        col_of_flat(flats@[t1] as int, self.ncols as int),
                        self.nrows as int,
                    ) < column_major_flat(
                        row_of_flat(flats@[t2] as int, self.ncols as int),
                        col_of_flat(flats@[t2] as int, self.ncols as int),
                        self.nrows as int,
                    ) by {
                        if t2 == k as int {
                            if t1 >= self.colptr@[j as int] {
                                assert(self.in_col(j as int, t1));
                                assert((flats@[t1] as int) == self.rowind@[t1] * (
                                self.ncols as int) + j as int);
                                crate::indexing::lemma_row_major_flat_decode(
                                    self.rowind@[t1] as int,
                                    j as int,
                                    self.ncols as int,
                                );
                                assert(self.rowind@[t1] < self.rowind@[k as int]);
                            } else {
                                assert(column_major_flat(
                                    row_of_flat(flats@[t1] as int, self.ncols as int),
                                    col_of_flat(flats@[t1] as int, self.ncols as int),
                                    self.nrows as int,
                                ) < (j as int) * (self.nrows as int));
                            }
                        }
                    }
                }
                k = k + 1;
            }
            j = j + 1;
            proof {
                assert forall|t: int|
                    0 <= t < self.colptr@[j as int] implies column_major_flat(
                    row_of_flat(#[trigger] flats@[t] as int, self.ncols as int),
                    col_of_flat(flats@[t] as int, self.ncols as int),
                    self.nrows as int,
                ) < (j as int) * (self.nrows as int) by {
                    assert((j as int - 1) * (self.nrows as int) + (self.nrows as int) == (
                    j as int) * (self.nrows as int)) by (nonlinear_arith);
                    if t >= self.colptr@[j - 1] {
                        assert(self.in_col(j - 1, t));
                        assert((flats@[t] as int) == self.rowind@[t] * (self.ncols as int) + (j
                            - 1));
                        crate::indexing::lemma_row_major_flat_decode(
                            self.rowind@[t] as int,
                            j - 1,
                            self.ncols as int,
                        );
                    }
                }
                assert forall|j2: int, k2: int|
                    #![trigger self.in_col(j2, k2), flats@[k2]]
                    0 <= j2 < j && self.in_col(j2, k2) implies (flats@[k2] as int)
                    == self.rowind@[k2] * (self.ncols as int) + j2 && vals@[k2]
                    == self.values@[k2] by {
                    if j2 == j - 1 {
                        assert(self.colptr@[j2] <= k2 < self.colptr@[j2 + 1]);
                        assert(k2 < k);
                        assert((flats@[k2] as int) == self.rowind@[k2] * (self.ncols as int) + (j
                            - 1));
                        assert(vals@[k2] == self.values@[k2]);
                    } else {
                        assert(0 <= j2 < j - 1 && self.in_col(j2, k2));
                        assert((flats@[k2] as int) == self.rowind@[k2] * (self.ncols as int)
                            + j2);
                        assert(vals@[k2] == self.values@[k2]);
                    }
                }
            }
        }
        let ghost flats_view = flats@;
        let ghost vals_view = vals@;
        proof {
            assert forall|t1: int, t2: int|
                0 <= t1 < t2 < flats_view.len() implies flats_view[t1] != flats_view[t2] by {
                if flats_view[t1] == flats_view[t2] {
                    assert(column_major_flat(
                        row_of_flat(flats_view[t1] as int, self.ncols as int),
                        col_of_flat(flats_view[t1] as int, self.ncols as int),
                        self.nrows as int,
                    ) < column_major_flat(
                        row_of_flat(flats_view[t2] as int, self.ncols as int),
                        col_of_flat(flats_view[t2] as int, self.ncols as int),
                        self.nrows as int,
                    ));
                    assert(false);
                }
            }
        }
        let r = SparseCOO::from_flat_indices(self.nrows, self.ncols, flats, vals);
        proof {
            assert forall|i: int, j2: int|
                0 <= i < self.spec_nrows() && 0 <= j2 < self.spec_ncols() implies (r.stored(
                i,
                j2,
            ) <==> self.stored(i, j2)) && r.value_at(i, j2) == self.value_at(i, j2) by {
                crate::indexing::lemma_row_major_flat_bounds(
                    i,
                    j2,
                    self.nrows as int,
                    self.ncols as int,
                );
                crate::indexing::lemma_row_major_flat_decode(i, j2, self.ncols as int);
                let f = ((i * self.ncols + j2) as usize);
                if self.stored(i, j2) {
                    let k2 = choose|k2: int| #[trigger] self.in_col(j2, k2) && self.rowind@[k2]
                        == i;
                    assert((flats_view[k2] as int) == i * (self.ncols as int) + j2);
                    assert(flats_view[k2] == f);
                    assert(flats_view.contains(f));
                    assert(r.stored(i, j2));
                    let t = choose|t: int|
                        0 <= t < flats_view.len() && flats_view[t] == f;
                    assert(r.value_at(i, j2) == vals_view[t]);
                    assert(self.value_at(i, j2) == vals_view[t]);
                } else {
                    if flats_view.contains(f) {
                        let t = choose|t: int|
                            0 <= t < flats_view.len() && flats_view[t] == f;
                        assert(self.stored(
                            row_of_flat(flats_view[t] as int, self.ncols as int),
                            col_of_flat(flats_view[t] as int, self.ncols as int),
                        ));
                        assert(false);
                    }
                    assert(!r.stored(i, j2));
                    assert(r.value_at(i, j2) == 0);
                    assert(self.value_at(i, j2) == 0);
                }
            }
        }
        r
    }
}

} // verus!
