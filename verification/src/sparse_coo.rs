//! Coordinate-list (COO) sparse format: an unordered list of
//! (row, column, value) triples.
//!
//! The invariant keeps every coordinate pair unique and in bounds; the
//! order of the triples is insignificant. Point lookup scans the list, so
//! `get` and `set` are O(nnz) by design — acceptable for construction-time
//! matrices. `set` appends when the coordinate is absent, so COO is the
//! one format that supports structural growth.

use vstd::prelude::*;

use crate::sparse_matrix::MatrixError;
use crate::sparse_matrix::SparseMatrixTrait;
use crate::sparse_matrix::dense_wf;
use crate::sparse_matrix::dense_nnz_to;
use crate::sparse_matrix::row_nnz_to;

verus! {

pub struct SparseCOO {
    pub nrows: usize,
    pub ncols: usize,
    pub rowind: Vec<usize>,
    pub colind: Vec<usize>,
    pub values: Vec<u32>,
}

impl SparseCOO {
    /// Triple `k` carries coordinate `(i, j)`.
    pub open spec fn matches_at(&self, k: int, i: int, j: int) -> bool {
        &&& self.rowind@[k] == i
        &&& self.colind@[k] == j
    }

    /// The index of the unique triple at `(i, j)`.
    pub open spec fn spec_index_of(&self, i: int, j: int) -> int {
        choose|k: int| 0 <= k < self.rowind@.len() && self.matches_at(k, i, j)
    }

    /// Under the invariant, a triple that carries `(i, j)` is the unique
    /// one, and gives the entry word at `(i, j)`.
    pub proof fn lemma_match_unique(&self, k: int, i: int, j: int)
        requires
            self.wf(),
            0 <= k < self.rowind@.len(),
            self.matches_at(k, i, j),
        ensures
            self.stored(i, j),
            self.spec_index_of(i, j) == k,
            self.value_at(i, j) == self.values@[k],
    {
        assert(self.stored(i, j));
        let k0 = self.spec_index_of(i, j);
        assert(0 <= k0 < self.rowind@.len() && self.matches_at(k0, i, j));
        if k0 < k {
            assert(false);
        } else if k < k0 {
            assert(false);
        }
    }

    /// Index of the triple at `(i, j)`, scanning the list.
    fn get_container_index(&self, i: usize, j: usize) -> (r: Option<usize>)
        requires
            self.wf(),
        ensures
            match r {
                Some(k) => k < self.rowind@.len() && self.matches_at(k as int, i as int, j as int),
                None => !self.stored(i as int, j as int),
            },
    {
        let n = self.rowind.len();
        let mut k: usize = 0;
        while k < n
            invariant
                self.wf(),
                n == self.rowind@.len(),
                k <= n,
                forall|t: int| 0 <= t < k ==> !self.matches_at(t, i as int, j as int),
            decreases n - k,
        {
            if self.rowind[k] == i && self.colind[k] == j {
                return Some(k);
            }
            k = k + 1;
        }
        None
    }
}

impl SparseMatrixTrait for SparseCOO {
    open spec fn spec_nrows(&self) -> nat {
        self.nrows as nat
    }

    open spec fn spec_ncols(&self) -> nat {
        self.ncols as nat
    }

    open spec fn spec_nnz(&self) -> nat {
        self.rowind@.len()
    }

    open spec fn wf(&self) -> bool {
        &&& self.colind@.len() == self.rowind@.len()
        &&& self.values@.len() == self.rowind@.len()
        &&& forall|k: int| 0 <= k < self.rowind@.len() ==> #[trigger] self.rowind@[k] < self.nrows
        &&& forall|k: int| 0 <= k < self.colind@.len() ==> #[trigger] self.colind@[k] < self.ncols
        &&& forall|k1: int, k2: int|
            0 <= k1 < k2 < self.rowind@.len() ==> ((#[trigger] self.rowind@[k1])
                != #[trigger] self.rowind@[k2] || self.colind@[k1] != self.colind@[k2])
    }

    open spec fn stored(&self, i: int, j: int) -> bool {
        exists|k: int| 0 <= k < self.rowind@.len() && #[trigger] self.matches_at(k, i, j)
    }

    open spec fn value_at(&self, i: int, j: int) -> u32 {
        if self.stored(i, j) {
            self.values@[self.spec_index_of(i, j)]
        } else {
            0
        }
    }

    open spec fn supports_insert() -> bool {
        true
    }

    fn new(nrows: usize, ncols: usize) -> (r: Self) {
        SparseCOO {
            nrows,
            ncols,
            rowind: Vec::new(),
            colind: Vec::new(),
            values: Vec::new(),
        }
    }

    fn random(nrows: usize, ncols: usize, density: u32, seed: u64) -> (r: Self) {
        Self::random_coo(nrows, ncols, density, seed)
    }

    fn from_dense(dense: Vec<Vec<u32>>) -> (r: Self) {
        let ghost d = dense.deep_view();
        let nrows = dense.len();
        let ncols = dense[0].len();
        let mut rowind: Vec<usize> = Vec::new();
        let mut colind: Vec<usize> = Vec::new();
        let mut values: Vec<u32> = Vec::new();
        proof {
            assert forall|i2: int| 0 <= i2 < d.len() implies #[trigger] d[i2] == dense@[i2]@ by {
                assert(d[i2] =~= dense@[i2]@);
            }
        }
        let mut i: usize = 0;
        while i < nrows
            invariant
                dense_wf(d),
                d == dense.deep_view(),
                nrows == d.len(),
                ncols == d[0].len(),
                forall|i2: int| 0 <= i2 < d.len() ==> #[trigger] d[i2] == dense@[i2]@,
                i <= nrows,
                colind@.len() == rowind@.len(),
                values@.len() == rowind@.len(),
                rowind@.len() == dense_nnz_to(d, i as int),
                forall|k: int| 0 <= k < rowind@.len() ==> #[trigger] rowind@[k] < i,
                forall|k: int| 0 <= k < colind@.len() ==> #[trigger] colind@[k] < ncols,
                forall|k: int|
                    0 <= k < rowind@.len() ==> d[rowind@[k] as int][colind@[k] as int]
                        == values@[k] && values@[k] != 0,
                forall|i2: int, j2: int|
                    0 <= i2 < i && 0 <= j2 < ncols && d[i2][j2] != 0 ==> exists|k: int|
                        0 <= k < rowind@.len() && rowind@[k] == i2 && #[trigger] colind@[k] == j2,
                forall|k1: int, k2: int|
                    0 <= k1 < k2 < rowind@.len() ==> ((#[trigger] rowind@[k1])
                        != #[trigger] rowind@[k2] || colind@[k1] != colind@[k2]),
            decreases nrows - i,
        {
            let mut j: usize = 0;
            while j < ncols
                invariant
                    dense_wf(d),
                    d == dense.deep_view(),
                    nrows == d.len(),
                    ncols == d[0].len(),
                    forall|i2: int| 0 <= i2 < d.len() ==> #[trigger] d[i2] == dense@[i2]@,
                    i < nrows,
                    j <= ncols,
                    colind@.len() == rowind@.len(),
                    values@.len() == rowind@.len(),
                    rowind@.len() == dense_nnz_to(d, i as int) + row_nnz_to(d[i as int], j as int),
                    forall|k: int| 0 <= k < rowind@.len() ==> #[trigger] rowind@[k] <= i,
                    forall|k: int| 0 <= k < colind@.len() ==> #[trigger] colind@[k] < ncols,
                    forall|k: int|
                        0 <= k < rowind@.len() ==> (#[trigger] rowind@[k] == i ==> colind@[k] < j),
                    forall|k: int|
                        0 <= k < rowind@.len() ==> d[rowind@[k] as int][colind@[k] as int]
                            == values@[k] && values@[k] != 0,
                    forall|i2: int, j2: int|
                        0 <= i2 < i && 0 <= j2 < ncols && d[i2][j2] != 0 ==> exists|k: int|
                            0 <= k < rowind@.len() && rowind@[k] == i2 && #[trigger] colind@[k]
                                == j2,
                    forall|j2: int|
                        0 <= j2 < j && d[i as int][j2] != 0 ==> exists|k: int|
                            0 <= k < rowind@.len() && rowind@[k] == i && #[trigger] colind@[k]
                                == j2,
                    forall|k1: int, k2: int|
                        0 <= k1 < k2 < rowind@.len() ==> ((#[trigger] rowind@[k1])
                            != #[trigger] rowind@[k2] || colind@[k1] != colind@[k2]),
                decreases ncols - j,
            {
                let value = dense[i][j];
                let ghost old_rowind = rowind@;
                let ghost old_colind = colind@;
                if value != 0 {
                    rowind.push(i);
                    colind.push(j);
                    values.push(value);
                }
                j = j + 1;
                proof {
                    assert forall|j2: int|
                        0 <= j2 < j && d[i as int][j2] != 0 implies exists|k: int|
                        0 <= k < rowind@.len() && rowind@[k] == i && #[trigger] colind@[k]
                            == j2 by {
                        if j2 == j - 1 {
                            assert(value != 0);
                            assert(rowind@[rowind@.len() - 1] == i && colind@[rowind@.len() - 1]
                                == j2);
                        } else {
                            let k = choose|k: int|
                                0 <= k < old_rowind.len() && old_rowind[k] == i
                                    && #[trigger] old_colind[k] == j2;
                            assert(rowind@[k] == i && colind@[k] == j2);
                        }
                    }
                    assert forall|i2: int, j2: int|
                        0 <= i2 < i && 0 <= j2 < ncols && d[i2][j2] != 0 implies exists|k: int|
                        0 <= k < rowind@.len() && rowind@[k] == i2 && #[trigger] colind@[k]
                            == j2 by {
                        let k = choose|k: int|
                            0 <= k < old_rowind.len() && old_rowind[k] == i2
                                && #[trigger] old_colind[k] == j2;
                        assert(rowind@[k] == i2 && colind@[k] == j2);
                    }
                }
            }
            i = i + 1;
        }
        let r = SparseCOO { nrows, ncols, rowind, colind, values };
        proof {
            assert forall|i2: int, j2: int|
                0 <= i2 < r.spec_nrows() && 0 <= j2 < r.spec_ncols() implies (r.stored(i2, j2)
                <==> d[i2][j2] != 0) && r.value_at(i2, j2) == d[i2][j2] by {
                if r.stored(i2, j2) {
                    let k = choose|k: int|
                        0 <= k < r.rowind@.len() && #[trigger] r.matches_at(k, i2, j2);
                    r.lemma_match_unique(k, i2, j2);
                    assert(d[i2][j2] == r.values@[k]);
                } else {
                    if d[i2][j2] != 0 {
                        let k = choose|k: int|
                            0 <= k < rowind@.len() && rowind@[k] == i2 && #[trigger] colind@[k]
                                == j2;
                        assert(r.matches_at(k, i2, j2));
                        assert(false);
                    }
                }
            }
        }
        r
    }

    fn to_dense(&self) -> (r: Vec<Vec<u32>>) {
        let mut dense: Vec<Vec<u32>> = Vec::new();
        let mut i: usize = 0;
        while i < self.nrows
            invariant
                self.wf(),
                i <= self.nrows,
                dense@.len() == i,
                forall|i2: int| 0 <= i2 < i ==> (#[trigger] dense@[i2])@.len() == self.ncols,
                forall|i2: int, j2: int|
                    0 <= i2 < i && 0 <= j2 < self.ncols ==> dense@[i2]@[j2] == #[trigger] self
                        .value_at(i2, j2),
            decreases self.nrows - i,
        {
            let mut row: Vec<u32> = Vec::new();
            let mut j: usize = 0;
            while j < self.ncols
                invariant
                    self.wf(),
                    i < self.nrows,
                    j <= self.ncols,
                    row@.len() == j,
                    forall|j2: int|
                        0 <= j2 < j ==> #[trigger] row@[j2] == self.value_at(i as int, j2),
                decreases self.ncols - j,
            {
                let w = match self.get_container_index(i, j) {
                    Some(k) => {
                        proof {
                            self.lemma_match_unique(k as int, i as int, j as int);
                        }
                        self.values[k]
                    },
                    None => 0,
                };
                row.push(w);
                j = j + 1;
            }
            dense.push(row);
            i = i + 1;
        }
        proof {
            assert forall|i2: int|
                0 <= i2 < dense.deep_view().len() implies #[trigger] dense.deep_view()[i2].len()
                == self.spec_ncols() by {
                assert(dense.deep_view()[i2] =~= dense@[i2]@);
            }
            assert forall|i2: int, j2: int|
                0 <= i2 < self.spec_nrows() && 0 <= j2 < self.spec_ncols() implies dense.deep_view(
            )[i2][j2] == self.value_at(i2, j2) by {
                assert(dense.deep_view()[i2] =~= dense@[i2]@);
            }
        }
        dense
    }

    fn get(&self, i: usize, j: usize) -> (r: Result<u32, MatrixError>) {
        if i >= self.nrows || j >= self.ncols {
            return Err(MatrixError::OutOfBounds);
        }
        match self.get_container_index(i, j) {
            Some(k) => {
                proof {
                    self.lemma_match_unique(k as int, i as int, j as int);
                }
                Ok(self.values[k])
            },
            None => Ok(0),
        }
    }

    fn set(&mut self, i: usize, j: usize, value: u32) -> (r: Result<(), MatrixError>) {
        if i >= self.nrows || j >= self.ncols {
            return Err(MatrixError::OutOfBounds);
        }
        let ghost prev = *self;
        match self.get_container_index(i, j) {
            Some(k) => {
                self.values.set(k, value);
                proof {
                    assert(self.rowind@ == prev.rowind@ && self.colind@ == prev.colind@);
                    assert(self.values@ == prev.values@.update(k as int, value));
                    assert(self.wf());
                    assert forall|i2: int, j2: int|
                        self.stored(i2, j2) <==> prev.stored(i2, j2) by {
                        if self.stored(i2, j2) {
                            let k2 = choose|k2: int|
                                0 <= k2 < self.rowind@.len() && #[trigger] self.matches_at(
                                    k2,
                                    i2,
                                    j2,
                                );
                            assert(prev.matches_at(k2, i2, j2));
                        }
                        if prev.stored(i2, j2) {
                            let k2 = choose|k2: int|
                                0 <= k2 < prev.rowind@.len() && #[trigger] prev.matches_at(
                                    k2,
                                    i2,
                                    j2,
                                );
                            assert(self.matches_at(k2, i2, j2));
                        }
                    }
                    self.lemma_match_unique(k as int, i as int, j as int);
                    assert forall|i2: int, j2: int|
                        !(i2 == i as int && j2 == j as int) implies self.value_at(i2, j2)
                        == prev.value_at(i2, j2) by {
                        if prev.stored(i2, j2) {
                            let k2 = prev.spec_index_of(i2, j2);
                            assert(0 <= k2 < prev.rowind@.len() && prev.matches_at(k2, i2, j2));
                            prev.lemma_match_unique(k2, i2, j2);
                            self.lemma_match_unique(k2, i2, j2);
                            assert(k2 != k as int);
                        }
                    }
                }
                Ok(())
            },
            None => {
                self.rowind.push(i);
                self.colind.push(j);
                self.values.push(value);
                proof {
                    let ghost n = prev.rowind@.len() as int;
                    assert(self.rowind@ == prev.rowind@.push(i));
                    assert(self.colind@ == prev.colind@.push(j));
                    assert(self.values@ == prev.values@.push(value));
                    assert(forall|t: int|
                        0 <= t < n ==> #[trigger] self.rowind@[t] == prev.rowind@[t]);
                    assert(forall|t: int|
                        0 <= t < n ==> #[trigger] self.colind@[t] == prev.colind@[t]);
                    assert(forall|t: int|
                        0 <= t < n ==> #[trigger] self.values@[t] == prev.values@[t]);
                    assert forall|k1: int| 0 <= k1 < n implies !self.matches_at(
                        k1,
                        i as int,
                        j as int,
                    ) by {
                        assert(prev.matches_at(k1, i as int, j as int) == self.matches_at(
                            k1,
                            i as int,
                            j as int,
                        ));
                    }
                    assert forall|k1: int, k2: int|
                        0 <= k1 < k2 < self.rowind@.len() implies (self.rowind@[k1]
                        != self.rowind@[k2] || self.colind@[k1] != self.colind@[k2]) by {
                        if k2 == n {
                            assert(!self.matches_at(k1, i as int, j as int));
                        } else {
                            assert(prev.rowind@[k1] != prev.rowind@[k2] || prev.colind@[k1]
                                != prev.colind@[k2]);
                        }
                    }
                    assert(self.wf());
                    assert(self.matches_at(n, i as int, j as int));
                    self.lemma_match_unique(n, i as int, j as int);
                    assert forall|i2: int, j2: int|
                        self.stored(i2, j2) <==> (prev.stored(i2, j2) || (i2 == i as int && j2
                            == j as int)) by {
                        if self.stored(i2, j2) {
                            let k2 = choose|k2: int|
                                0 <= k2 < self.rowind@.len() && #[trigger] self.matches_at(
                                    k2,
                                    i2,
                                    j2,
                                );
                            if k2 < n {
                                assert(prev.matches_at(k2, i2, j2));
                            }
                        }
                        if prev.stored(i2, j2) {
                            let k2 = choose|k2: int|
                                0 <= k2 < prev.rowind@.len() && #[trigger] prev.matches_at(
                                    k2,
                                    i2,
                                    j2,
                                );
                            assert(self.matches_at(k2, i2, j2));
                        }
                        if i2 == i as int && j2 == j as int {
                            assert(self.matches_at(n, i2, j2));
                        }
                    }
                    assert forall|i2: int, j2: int|
                        !(i2 == i as int && j2 == j as int) implies self.value_at(i2, j2)
                        == prev.value_at(i2, j2) by {
                        if prev.stored(i2, j2) {
                            let k2 = prev.spec_index_of(i2, j2);
                            assert(0 <= k2 < prev.rowind@.len() && prev.matches_at(k2, i2, j2));
                            prev.lemma_match_unique(k2, i2, j2);
                            assert(self.matches_at(k2, i2, j2));
                            self.lemma_match_unique(k2, i2, j2);
                        } else {
                            assert(!self.stored(i2, j2)) by {
                                if self.stored(i2, j2) {
                                    let k2 = choose|k2: int|
                                        0 <= k2 < self.rowind@.len()
                                            && #[trigger] self.matches_at(k2, i2, j2);
                                    assert(k2 == n ==> i2 == i as int && j2 == j as int);
                                    assert(k2 < n ==> prev.matches_at(k2, i2, j2));
                                    assert(false);
                                }
                            }
                        }
                    }
                }
                Ok(())
            },
        }
    }

    fn size(&self) -> (r: (usize, usize)) {
        (self.nrows, self.ncols)
    }

    fn nnz(&self) -> (r: usize) {
        self.rowind.len()
    }
}

impl SparseCOO {
    /// See [`SparseMatrixTrait::random`]: the distinct flat positions are
    /// drawn by rand's index sampler, the entry words by fastrand.
    fn random_coo(nrows: usize, ncols: usize, density: u32, seed: u64) -> (r: Self)
        requires
            nrows * ncols <= usize::MAX,
        ensures
            r.wf(),
            r.spec_nrows() == nrows,
            r.spec_ncols() == ncols,
            crate::scalar::density_count_of((nrows * ncols) as usize, density) <= nrows * ncols
                ==> r.spec_nnz() == crate::scalar::density_count_of(
                (nrows * ncols) as usize,
                density,
            ),
            crate::scalar::density_count_of((nrows * ncols) as usize, density) > nrows * ncols
                ==> r.spec_nnz() == nrows * ncols,
    {
        let total = nrows * ncols;
        let count = crate::scalar::density_count(total, density);
        let target = if count > total {
            total
        } else {
            count
        };
        let mut sampler = crate::rng::std_rng_from_seed(seed);
        let flat_indices = crate::rng::sample_distinct_indices(&mut sampler, total, target);
        let mut word_rng = crate::rng::rng_with_seed(seed);
        let mut rowind: Vec<usize> = Vec::new();
        let mut colind: Vec<usize> = Vec::new();
        let mut values: Vec<u32> = Vec::new();
        let mut k: usize = 0;
        while k < flat_indices.len()
            invariant
                flat_indices@.len() == target,
                target <= total,
                total == nrows * ncols,
                forall|t: int| 0 <= t < flat_indices@.len() ==> #[trigger] flat_indices@[t] < total,
                forall|t1: int, t2: int|
                    0 <= t1 < t2 < flat_indices@.len() ==> flat_indices@[t1] != flat_indices@[t2],
                k <= target,
                rowind@.len() == k,
                colind@.len() == k,
                values@.len() == k,
                forall|t: int|
                    0 <= t < k ==> #[trigger] rowind@[t] == (flat_indices@[t] as int) % (
                    nrows as int),
                forall|t: int|
                    0 <= t < k ==> #[trigger] colind@[t] == (flat_indices@[t] as int) / (
                    nrows as int),
                forall|t: int| 0 <= t < k ==> #[trigger] rowind@[t] < nrows,
                forall|t: int| 0 <= t < k ==> #[trigger] colind@[t] < ncols,
            decreases flat_indices@.len() - k,
        {
            let flat = flat_indices[k];
            proof {
                assert(total > 0);
                assert(nrows > 0 && ncols > 0) by (nonlinear_arith)
                    requires
                        total == nrows * ncols,
                        total > 0,
                ;
                crate::indexing::lemma_flat_decode_bounds(
                    flat as int,
                    ncols as int,
                    nrows as int,
                );
            }
            let ghost old_rowind = rowind@;
            let ghost old_colind = colind@;
            rowind.push(flat % nrows);
            colind.push(flat / nrows);
            values.push(crate::rng::random_unit_word(&mut word_rng));
            proof {
                assert(forall|t: int|
                    0 <= t < k ==> #[trigger] rowind@[t] == old_rowind[t] && #[trigger] colind@[t]
                        == old_colind[t]);
                assert(rowind@[k as int] == flat % nrows && colind@[k as int] == flat / nrows);
                assert((flat % nrows) as int == (flat as int) % (nrows as int));
                assert((flat / nrows) as int == (flat as int) / (nrows as int));
            }
            k = k + 1;
        }
        let r = SparseCOO { nrows, ncols, rowind, colind, values };
        proof {
            assert forall|k1: int, k2: int|
                0 <= k1 < k2 < r.rowind@.len() implies ((#[trigger] r.rowind@[k1])
                != #[trigger] r.rowind@[k2] || r.colind@[k1] != r.colind@[k2]) by {
                if r.rowind@[k1] == r.rowind@[k2] && r.colind@[k1] == r.colind@[k2] {
                    assert(flat_indices@[k1] as int == r.colind@[k1] * (nrows as int) + r.rowind@[k1])
                        by (nonlinear_arith)
                        requires
                            r.rowind@[k1] == (flat_indices@[k1] as int) % (nrows as int),
                            r.colind@[k1] == (flat_indices@[k1] as int) / (nrows as int),
                            nrows > 0,
                    ;
                    assert(flat_indices@[k2] as int == r.colind@[k2] * (nrows as int) + r.rowind@[k2])
                        by (nonlinear_arith)
                        requires
                            r.rowind@[k2] == (flat_indices@[k2] as int) % (nrows as int),
                            r.colind@[k2] == (flat_indices@[k2] as int) / (nrows as int),
                            nrows > 0,
                    ;
                    assert(false);
                }
            }
        }
        r
    }
}

impl SparseCOO {
    /// Build a COO matrix from row-major flat positions and their entry
    /// words, decoding each position into a (row, column, value) triple.
    pub fn from_flat_indices(
        nrows: usize,
        ncols: usize,
        flat_indices: Vec<usize>,
        values: Vec<u32>,
    ) -> (r: Self)
        requires
            flat_indices@.len() == values@.len(),
            crate::sorting::distinct_seq(flat_indices@),
            nrows * ncols <= usize::MAX,
            forall|t: int|
                0 <= t < flat_indices@.len() ==> (#[trigger] flat_indices@[t] as int) < (
                nrows as int) * (ncols as int),
        ensures
            r.wf(),
            r.spec_nrows() == nrows,
            r.spec_ncols() == ncols,
            r.spec_nnz() == flat_indices@.len(),
            forall|i: int, j: int|
                0 <= i < nrows && 0 <= j < ncols ==> (r.stored(i, j) <==> flat_indices@.contains(
                    ((i * ncols + j) as usize),
                )),
            forall|t: int|
                0 <= t < flat_indices@.len() ==> r.value_at(
                    crate::indexing::row_of_flat(flat_indices@[t] as int, ncols as int),
                    crate::indexing::col_of_flat(flat_indices@[t] as int, ncols as int),
                ) == values@[t],
    {
        let n = flat_indices.len();
        let mut rowind: Vec<usize> = Vec::new();
        let mut colind: Vec<usize> = Vec::new();
        let mut k: usize = 0;
        while k < n
            invariant
                n == flat_indices@.len(),
                crate::sorting::distinct_seq(flat_indices@),
                nrows * ncols <= usize::MAX,
                forall|t: int|
                    0 <= t < flat_indices@.len() ==> (#[trigger] flat_indices@[t] as int) < (
                    nrows as int) * (ncols as int),
                k <= n,
                rowind@.len() == k,
                colind@.len() == k,
                forall|t: int|
                    0 <= t < k ==> #[trigger] rowind@[t] == crate::indexing::row_of_flat(
                        flat_indices@[t] as int,
                        ncols as int,
                    ),
                forall|t: int|
                    0 <= t < k ==> #[trigger] colind@[t] == crate::indexing::col_of_flat(
                        flat_indices@[t] as int,
                        ncols as int,
                    ),
                forall|t: int| 0 <= t < k ==> #[trigger] rowind@[t] < nrows,
                forall|t: int| 0 <= t < k ==> #[trigger] colind@[t] < ncols,
            decreases n - k,
        {
            let f = flat_indices[k];
            proof {
                assert(0 < nrows && 0 < ncols) by (nonlinear_arith)
                    requires
                        (f as int) < (nrows as int) * (ncols as int),
                        0 <= f as int,
                ;
                crate::indexing::lemma_flat_decode_bounds(f as int, nrows as int, ncols as int);
            }
            let ghost old_rowind = rowind@;
            let ghost old_colind = colind@;
            rowind.push(f / ncols);
            colind.push(f % ncols);
            proof {
                assert(forall|t: int|
                    0 <= t < k ==> #[trigger] rowind@[t] == old_rowind[t] && #[trigger] colind@[t]
                        == old_colind[t]);
            }
            k = k + 1;
        }
        let r = SparseCOO { nrows, ncols, rowind, colind, values };
        proof {
            assert forall|k1: int, k2: int|
                0 <= k1 < k2 < r.rowind@.len() implies ((#[trigger] r.rowind@[k1])
                != #[trigger] r.rowind@[k2] || r.colind@[k1] != r.colind@[k2]) by {
                if r.rowind@[k1] == r.rowind@[k2] && r.colind@[k1] == r.colind@[k2] {
                    crate::indexing::lemma_flat_decode_bounds(
                        flat_indices@[k1] as int,
                        nrows as int,
                        ncols as int,
                    );
                    crate::indexing::lemma_flat_decode_bounds(
                        flat_indices@[k2] as int,
                        nrows as int,
                        ncols as int,
                    );
                    assert(flat_indices@[k1] == flat_indices@[k2]);
                    assert(false);
                }
            }
            assert(r.wf());
            assert forall|i: int, j: int|
                0 <= i < nrows && 0 <= j < ncols implies (r.stored(i, j)
                <==> flat_indices@.contains(((i * ncols + j) as usize))) by {
                crate::indexing::lemma_row_major_flat_decode(i, j, ncols as int);
                crate::indexing::lemma_row_major_flat_bounds(i, j, nrows as int, ncols as int);
                let f = ((i * ncols + j) as usize);
                if r.stored(i, j) {
                    let t = choose|t: int|
                        0 <= t < r.rowind@.len() && #[trigger] r.matches_at(t, i, j);
                    crate::indexing::lemma_flat_decode_bounds(
                        flat_indices@[t] as int,
                        nrows as int,
                        ncols as int,
                    );
                    assert(flat_indices@[t] == f);
                    assert(flat_indices@.contains(f));
                }
                if flat_indices@.contains(f) {
                    let t = choose|t: int|
                        0 <= t < flat_indices@.len() && flat_indices@[t] == f;
                    assert(r.matches_at(t, i, j));
                    assert(r.stored(i, j));
                }
            }
            assert forall|t: int|
                0 <= t < flat_indices@.len() implies r.value_at(
                crate::indexing::row_of_flat(flat_indices@[t] as int, ncols as int),
                crate::indexing::col_of_flat(flat_indices@[t] as int, ncols as int),
            ) == values@[t] by {
                assert(0 < nrows && 0 < ncols) by (nonlinear_arith)
                    requires
                        (flat_indices@[t] as int) < (nrows as int) * (ncols as int),
                        0 <= flat_indices@[t] as int,
                ;
                crate::indexing::lemma_flat_decode_bounds(
                    flat_indices@[t] as int,
                    nrows as int,
                    ncols as int,
                );
                let i = crate::indexing::row_of_flat(flat_indices@[t] as int, ncols as int);
                let j = crate::indexing::col_of_flat(flat_indices@[t] as int, ncols as int);
                assert(r.matches_at(t, i, j));
                r.lemma_match_unique(t, i, j);
            }
        }
        r
    }
}

impl SparseCOO {
    /// Flatten the triples to row-major flat positions, paired with their
    /// entry words.
    fn to_flat_pairs(&self) -> (r: (Vec<usize>, Vec<u32>))
        requires
            self.wf(),
            self.nrows * self.ncols <= usize::MAX,
        ensures
            r.0@.len() == self.spec_nnz(),
            r.1@.len() == self.spec_nnz(),
            crate::sorting::distinct_seq(r.0@),
            forall|t: int|
                0 <= t < r.0@.len() ==> (#[trigger] r.0@[t] as int) < (self.nrows as int) * (
                self.ncols as int),
            forall|t: int|
                0 <= t < r.0@.len() ==> (#[trigger] r.0@[t] as int) == self.rowind@[t] * (
                self.ncols as int) + self.colind@[t],
            forall|t: int| 0 <= t < r.1@.len() ==> #[trigger] r.1@[t] == self.values@[t],
    {
        let n = self.rowind.len();
        let mut flats: Vec<usize> = Vec::new();
        let mut vals: Vec<u32> = Vec::new();
        let mut k: usize = 0;
        while k < n
            invariant
                self.wf(),
                self.nrows * self.ncols <= usize::MAX,
                n == self.rowind@.len(),
                k <= n,
                flats@.len() == k,
                vals@.len() == k,
                forall|t: int|
                    0 <= t < k ==> (#[trigger] flats@[t] as int) < (self.nrows as int) * (
                    self.ncols as int),
                forall|t: int|
                    0 <= t < k ==> (#[trigger] flats@[t] as int) == self.rowind@[t] * (
                    self.ncols as int) + self.colind@[t],
                forall|t: int| 0 <= t < k ==> #[trigger] vals@[t] == self.values@[t],
            decreases n - k,
        {
            proof {
                crate::indexing::lemma_row_major_flat_bounds(
                    self.rowind@[k as int] as int,
                    self.colind@[k as int] as int,
                    self.nrows as int,
                    self.ncols as int,
                );
            }
            let ghost old_flats = flats@;
            let ghost old_vals = vals@;
            flats.push(self.rowind[k] * self.ncols + self.colind[k]);
            vals.push(self.values[k]);
            proof {
                assert(forall|t: int|
                    0 <= t < k ==> #[trigger] flats@[t] == old_flats[t] && #[trigger] vals@[t]
                        == old_vals[t]);
            }
            k = k + 1;
        }
        let ghost fv = flats@;
        let ghost vv = vals@;
        let r = (flats, vals);
        proof {
            assert(r.0@ == fv && r.1@ == vv);
            assert forall|t: int|
                0 <= t < r.0@.len() implies (#[trigger] r.0@[t] as int) == self.rowind@[t] * (
            self.ncols as int) + self.colind@[t] by {
                assert(r.0@[t] == fv[t]);
            }
            assert forall|t: int|
                0 <= t < r.1@.len() implies #[trigger] r.1@[t] == self.values@[t] by {
                assert(r.1@[t] == vv[t]);
            }
            assert forall|t1: int, t2: int|
                0 <= t1 < t2 < r.0@.len() implies r.0@[t1] != r.0@[t2] by {
                if r.0@[t1] == r.0@[t2] {
                    crate::indexing::lemma_row_major_flat_injective(
                        self.rowind@[t1] as int,
                        self.colind@[t1] as int,
                        self.rowind@[t2] as int,
                        self.colind@[t2] as int,
                        self.ncols as int,
                    );
                    assert(false);
                }
            }
        }
        r
    }

    /// Convert to the compressed sparse row format, preserving every
    /// entry.
    pub fn to_csr(&self) -> (r: crate::sparse_csr::SparseCSR)
        requires
            self.wf(),
            self.nrows * self.ncols <= usize::MAX,
            self.nrows + 1 <= usize::MAX,
        ensures
            r.wf(),
            r.spec_nrows() == self.spec_nrows(),
            r.spec_ncols() == self.spec_ncols(),
            r.spec_nnz() == self.spec_nnz(),
            forall|i: int, j: int|
                0 <= i < self.spec_nrows() && 0 <= j < self.spec_ncols() ==> (r.stored(i, j)
                    <==> self.stored(i, j)),
            forall|i: int, j: int|
                0 <= i < self.spec_nrows() && 0 <= j < self.spec_ncols() ==> r.value_at(i, j)
                    == self.value_at(i, j),
    {
        let (flats, vals) = self.to_flat_pairs();
        let ghost flats_view = flats@;
        let ghost vals_view = vals@;
        let r = crate::sparse_csr::SparseCSR::from_flat_indices(
            self.nrows,
            self.ncols,
            flats,
            vals,
        );
        proof {
            assert forall|i: int, j: int|
                0 <= i < self.spec_nrows() && 0 <= j < self.spec_ncols() implies (r.stored(i, j)
                <==> self.stored(i, j)) && r.value_at(i, j) == self.value_at(i, j) by {
                crate::indexing::lemma_row_major_flat_bounds(
                    i,
                    j,
                    self.nrows as int,
                    self.ncols as int,
                );
                crate::indexing::lemma_row_major_flat_decode(i, j, self.ncols as int);
                let f = ((i * self.ncols + j) as usize);
                if self.stored(i, j) {
                    let k = choose|k: int|
                        0 <= k < self.rowind@.len() && #[trigger] self.matches_at(k, i, j);
                    self.lemma_match_unique(k, i, j);
                    assert(flats_view[k] == f);
                    assert(flats_view.contains(f));
                    assert(r.stored(i, j));
                    assert(r.value_at(
                        crate::indexing::row_of_flat(flats_view[k] as int, self.ncols as int),
                        crate::indexing::col_of_flat(flats_view[k] as int, self.ncols as int),
                    ) == vals_view[k]);
                    assert(r.value_at(i, j) == vals_view[k]);
                    assert(self.value_at(i, j) == vals_view[k]);
                } else {
                    if flats_view.contains(f) {
                        let t = choose|t: int|
                            0 <= t < flats_view.len() && flats_view[t] == f;
                        crate::indexing::lemma_row_major_flat_injective(
                            self.rowind@[t] as int,
                            self.colind@[t] as int,
                            i,
                            j,
                            self.ncols as int,
                        );
                        assert(self.matches_at(t, i, j));
                        assert(false);
                    }
                    assert(!r.stored(i, j));
                    assert(r.value_at(i, j) == 0);
                    assert(self.value_at(i, j) == 0);
                }
            }
        }
        r
    }

    /// Convert to the compressed sparse column format, preserving every
    /// entry.
    pub fn to_csc(&self) -> (r: crate::sparse_csc::SparseCSC)
        requires
            self.wf(),
            self.nrows * self.ncols <= usize::MAX,
            self.ncols + 1 <= usize::MAX,
        ensures
            r.wf(),
            r.spec_nrows() == self.spec_nrows(),
            r.spec_ncols() == self.spec_ncols(),
            r.spec_nnz() == self.spec_nnz(),
            forall|i: int, j: int|
                0 <= i < self.spec_nrows() && 0 <= j < self.spec_ncols() ==> (r.stored(i, j)
                    <==> self.stored(i, j)),
            forall|i: int, j: int|
                0 <= i < self.spec_nrows() && 0 <= j < self.spec_ncols() ==> r.value_at(i, j)
                    == self.value_at(i, j),
    {
        let (flats, vals) = self.to_flat_pairs();
        let ghost flats_view = flats@;
        let ghost vals_view = vals@;
        let r = crate::sparse_csc::SparseCSC::from_flat_indices(
            self.nrows,
            self.ncols,
            flats,
            vals,
        );
        proof {
            assert forall|i: int, j: int|
                0 <= i < self.spec_nrows() && 0 <= j < self.spec_ncols() implies (r.stored(i, j)
                <==> self.stored(i, j)) && r.value_at(i, j) == self.value_at(i, j) by {
                crate::indexing::lemma_row_major_flat_bounds(
                    i,
                    j,
                    self.nrows as int,
                    self.ncols as int,
                );
                crate::indexing::lemma_row_major_flat_decode(i, j, self.ncols as int);
                let f = ((i * self.ncols + j) as usize);
                if self.stored(i, j) {
                    let k = choose|k: int|
                        0 <= k < self.rowind@.len() && #[trigger] self.matches_at(k, i, j);
                    self.lemma_match_unique(k, i, j);
                    assert(flats_view[k] == f);
                    assert(flats_view.contains(f));
                    assert(r.stored(i, j));
                    assert(r.value_at(
                        crate::indexing::row_of_flat(flats_view[k] as int, self.ncols as int),
                        crate::indexing::col_of_flat(flats_view[k] as int, self.ncols as int),
                    ) == vals_view[k]);
                    assert(r.value_at(i, j) == vals_view[k]);
                    assert(self.value_at(i, j) == vals_view[k]);
                } else {
                    if flats_view.contains(f) {
                        let t = choose|t: int|
                            0 <= t < flats_view.len() && flats_view[t] == f;
                        crate::indexing::lemma_row_major_flat_injective(
                            self.rowind@[t] as int,
                            self.colind@[t] as int,
                            i,
                            j,
                            self.ncols as int,
                        );
                        assert(self.matches_at(t, i, j));
                        assert(false);
                    }
                    assert(!r.stored(i, j));
                    assert(r.value_at(i, j) == 0);
                    assert(self.value_at(i, j) == 0);
                }
            }
        }
        r
    }
}


/// The (column, value) pairs of operand B's triples whose row is `r`,
/// among the first `n` triples, in storage order.
pub open spec fn row_pairs_to(b: &SparseCOO, r: int, n: int) -> Seq<(usize, u32)>
    decreases n,
{
    if n <= 0 {
        Seq::empty()
    } else {
        let pre = row_pairs_to(b, r, n - 1);
        if b.rowind@[n - 1] == r {
            pre.push((b.colind@[n - 1], b.values@[n - 1]))
        } else {
            pre
        }
    }
}

/// Fold one product into the accumulator map at flat position `f`: the
/// cell starts from the zero word when absent.
pub open spec fn cell_update(m: Map<int, u32>, f: int, p: u32) -> Map<int, u32> {
    m.insert(
        f,
        crate::scalar::add_bits(
            if m.dom().contains(f) {
                m[f]
            } else {
                0
            },
            p,
        ),
    )
}

/// Fold the products of one A-triple (row `ar`, value `av`) with the
/// first `n` matching B-pairs into the accumulator map, in order.
pub open spec fn accumulate_pairs_to(
    m: Map<int, u32>,
    ar: int,
    av: u32,
    pairs: Seq<(usize, u32)>,
    n: int,
    tc: int,
) -> Map<int, u32>
    decreases n,
{
    if n <= 0 {
        m
    } else {
        cell_update(
            accumulate_pairs_to(m, ar, av, pairs, n - 1, tc),
            ar * tc + pairs[n - 1].0,
            crate::scalar::mul_bits(av, pairs[n - 1].1),
        )
    }
}

/// The accumulator map after the first `n` triples of A have been joined
/// against B: for each A-triple in order, the products with B's matching
/// pairs are folded in, keyed by the row-major flat position of the
/// result cell.
pub open spec fn accumulate_to(a: &SparseCOO, b: &SparseCOO, tc: int, n: int) -> Map<int, u32>
    decreases n,
{
    if n <= 0 {
        Map::empty()
    } else {
        accumulate_pairs_to(
            accumulate_to(a, b, tc, n - 1),
            a.rowind@[n - 1] as int,
            a.values@[n - 1],
            row_pairs_to(b, a.colind@[n - 1] as int, b.rowind@.len() as int),
            row_pairs_to(b, a.colind@[n - 1] as int, b.rowind@.len() as int).len() as int,
            tc,
        )
    }
}

/// The full hash-join accumulation of the product of two COO matrices.
pub open spec fn multiply_accumulation(a: &SparseCOO, b: &SparseCOO) -> Map<int, u32> {
    accumulate_to(a, b, b.ncols as int, a.rowind@.len() as int)
}

/// Index of `f` in a key vector, scanning linearly.
fn find_key(keys: &Vec<usize>, f: usize) -> (r: Option<usize>)
    ensures
        match r {
            Some(t) => t < keys@.len() && keys@[t as int] == f,
            None => !keys@.contains(f),
        },
{
    let n = keys.len();
    let mut t: usize = 0;
    while t < n
        invariant
            n == keys@.len(),
            t <= n,
            forall|t2: int| 0 <= t2 < t ==> keys@[t2] != f,
        decreases n - t,
    {
        if keys[t] == f {
            return Some(t);
        }
        t = t + 1;
    }
    proof {
        if keys@.contains(f) {
            let t2 = choose|t2: int| 0 <= t2 < keys@.len() && keys@[t2] == f;
            assert(false);
        }
    }
    None
}

impl SparseCOO {
    /// Sparse hash-join multiply: a mapping from each row of `other` to
    /// its (column, value) pairs is built first; every triple of `self`
    /// is then joined against the pairs of the matching row, each product
    /// accumulated into a sparse mapping keyed by the result cell's
    /// row-major flat position; the accumulated cells become the result's
    /// triples. Zero-valued accumulations are not filtered out, so the
    /// result may hold explicit zero entries.
    pub fn multiply(&self, other: &SparseCOO) -> (r: SparseCOO)
        requires
            self.wf(),
            other.wf(),
            self.ncols == other.nrows,
            self.nrows * other.ncols <= usize::MAX,
        ensures
            r.wf(),
            r.spec_nrows() == self.spec_nrows(),
            r.spec_ncols() == other.spec_ncols(),
            forall|i: int, j: int|
                #![trigger r.stored(i, j)]
                0 <= i < self.nrows && 0 <= j < other.ncols ==> (r.stored(i, j)
                    <==> multiply_accumulation(self, other).dom().contains(
                    i * (other.ncols as int) + j,
                )),
            forall|i: int, j: int|
                #![trigger r.value_at(i, j)]
                0 <= i < self.nrows && 0 <= j < other.ncols && r.stored(i, j) ==> r.value_at(i, j)
                    == multiply_accumulation(self, other)[i * (other.ncols as int) + j],
    {
        let target_cols = other.ncols;
        let b_nnz = other.rowind.len();
        // build the mapping from each row of `other` to its pairs
        let mut other_row_map: Vec<Vec<(usize, u32)>> = Vec::new();
        let mut rr: usize = 0;
        while rr < other.nrows
            invariant
                other.wf(),
                b_nnz == other.rowind@.len(),
                rr <= other.nrows,
                other_row_map@.len() == rr,
                forall|r2: int|
                    0 <= r2 < rr ==> (#[trigger] other_row_map@[r2])@ == row_pairs_to(
                        other,
                        r2,
                        b_nnz as int,
                    ),
            decreases other.nrows - rr,
        {
            let mut list: Vec<(usize, u32)> = Vec::new();
            let mut m: usize = 0;
            while m < b_nnz
                invariant
                    other.wf(),
                    b_nnz == other.rowind@.len(),
                    rr < other.nrows,
                    m <= b_nnz,
                    list@ == row_pairs_to(other, rr as int, m as int),
                decreases b_nnz - m,
            {
                if other.rowind[m] == rr {
                    list.push((other.colind[m], other.values[m]));
                }
                m = m + 1;
            }
            other_row_map.push(list);
            rr = rr + 1;
        }
        // join every triple of `self` against the matching row's pairs
        let a_nnz = self.rowind.len();
        let mut keys: Vec<usize> = Vec::new();
        let mut vals: Vec<u32> = Vec::new();
        let mut k: usize = 0;
        while k < a_nnz
            invariant
                self.wf(),
                other.wf(),
                self.ncols == other.nrows,
                self.nrows * other.ncols <= usize::MAX,
                target_cols == other.ncols,
                b_nnz == other.rowind@.len(),
                a_nnz == self.rowind@.len(),
                other_row_map@.len() == other.nrows,
                forall|r2: int|
                    0 <= r2 < other.nrows ==> (#[trigger] other_row_map@[r2])@ == row_pairs_to(
                        other,
                        r2,
                        b_nnz as int,
                    ),
                k <= a_nnz,
                keys@.len() == vals@.len(),
                crate::sorting::distinct_seq(keys@),
                forall|t: int|
                    0 <= t < keys@.len() ==> (#[trigger] keys@[t] as int) < (self.nrows as int) * (
                    target_cols as int),
                forall|f: usize|
                    keys@.contains(f) <==> accumulate_to(
                        self,
                        other,
                        target_cols as int,
                        k as int,
                    ).dom().contains(f as int),
                forall|t: int|
                    0 <= t < keys@.len() ==> #[trigger] vals@[t] == accumulate_to(
                        self,
                        other,
                        target_cols as int,
                        k as int,
                    )[keys@[t] as int],
            decreases a_nnz - k,
        {
            let row = self.rowind[k];
            let col = self.colind[k];
            let value = self.values[k];
            let ghost pairs = row_pairs_to(other, col as int, b_nnz as int);
            let ghost base = accumulate_to(self, other, target_cols as int, k as int);
            let list_len = other_row_map[col].len();
            let mut m: usize = 0;
            while m < list_len
                invariant
                    self.wf(),
                    other.wf(),
                    self.ncols == other.nrows,
                    self.nrows * other.ncols <= usize::MAX,
                    target_cols == other.ncols,
                    b_nnz == other.rowind@.len(),
                    a_nnz == self.rowind@.len(),
                    other_row_map@.len() == other.nrows,
                    forall|r2: int|
                        0 <= r2 < other.nrows ==> (#[trigger] other_row_map@[r2])@
                            == row_pairs_to(other, r2, b_nnz as int),
                    k < a_nnz,
                    row == self.rowind@[k as int],
                    col == self.colind@[k as int],
                    value == self.values@[k as int],
                    col < other.nrows,
                    pairs == row_pairs_to(other, col as int, b_nnz as int),
                    base == accumulate_to(self, other, target_cols as int, k as int),
                    list_len == pairs.len(),
                    m <= list_len,
                    keys@.len() == vals@.len(),
                    crate::sorting::distinct_seq(keys@),
                    forall|t: int|
                        0 <= t < keys@.len() ==> (#[trigger] keys@[t] as int) < (
                        self.nrows as int) * (target_cols as int),
                    forall|f: usize|
                        keys@.contains(f) <==> accumulate_pairs_to(
                            base,
                            row as int,
                            value,
                            pairs,
                            m as int,
                            target_cols as int,
                        ).dom().contains(f as int),
                    forall|t: int|
                        0 <= t < keys@.len() ==> #[trigger] vals@[t] == accumulate_pairs_to(
                            base,
                            row as int,
                            value,
                            pairs,
                            m as int,
                            target_cols as int,
                        )[keys@[t] as int],
                decreases list_len - m,
            {
                let ghost before = accumulate_pairs_to(
                    base,
                    row as int,
                    value,
                    pairs,
                    m as int,
                    target_cols as int,
                );
                let pair = other_row_map[col][m];
                proof {
                    assert(pair == pairs[m as int]);
                    assert(pair.0 < other.ncols) by {
                        lemma_row_pairs_in_bounds(other, col as int, b_nnz as int, m as int);
                    }
                    crate::indexing::lemma_row_major_flat_bounds(
                        row as int,
                        pair.0 as int,
                        self.nrows as int,
                        target_cols as int,
                    );
                }
                let f = row * target_cols + pair.0;
                let p = crate::scalar::word_mul(value, pair.1);
                let ghost old_keys = keys@;
                let ghost old_vals = vals@;
                match find_key(&keys, f) {
                    Some(t) => {
                        let newv = crate::scalar::word_add(vals[t], p);
                        vals.set(t, newv);
                        proof {
                            assert(keys@.contains(f));
                            assert(before.dom().contains(f as int));
                            assert(vals@[t as int] == crate::scalar::add_bits(
                                before[f as int],
                                p,
                            ));
                            assert forall|t2: int|
                                0 <= t2 < keys@.len() implies #[trigger] vals@[t2]
                                == accumulate_pairs_to(
                                base,
                                row as int,
                                value,
                                pairs,
                                m + 1,
                                target_cols as int,
                            )[keys@[t2] as int] by {
                                if t2 != t as int {
                                    assert(keys@[t2] != keys@[t as int]);
                                    assert(vals@[t2] == old_vals[t2]);
                                }
                            }
                        }
                    },
                    None => {
                        keys.push(f);
                        vals.push(crate::scalar::word_add(0, p));
                        proof {
                            assert(!old_keys.contains(f));
                            assert(!before.dom().contains(f as int));
                            assert(forall|t2: int|
                                0 <= t2 < old_keys.len() ==> #[trigger] keys@[t2]
                                    == old_keys[t2]);
                            assert(forall|t2: int|
                                0 <= t2 < old_vals.len() ==> #[trigger] vals@[t2]
                                    == old_vals[t2]);
                            assert(keys@[old_keys.len() as int] == f);
                            assert forall|t2: int|
                                0 <= t2 < old_keys.len() implies keys@[t2] != f by {
                                assert(old_keys[t2] != f);
                            }
                            assert forall|f2: usize|
                                keys@.contains(f2) <==> accumulate_pairs_to(
                                base,
                                row as int,
                                value,
                                pairs,
                                m + 1,
                                target_cols as int,
                            ).dom().contains(f2 as int) by {
                                if keys@.contains(f2) {
                                    let t2 = choose|t2: int|
                                        0 <= t2 < keys@.len() && keys@[t2] == f2;
                                    if t2 < old_keys.len() {
                                        assert(old_keys.contains(f2));
                                    }
                                }
                                if old_keys.contains(f2) {
                                    let t2 = choose|t2: int|
                                        0 <= t2 < old_keys.len() && old_keys[t2] == f2;
                                    assert(keys@[t2] == f2);
                                    assert(keys@.contains(f2));
                                }
                                if f2 == f {
                                    assert(keys@.contains(f2));
                                }
                            }
                        }
                    },
                }
                m = m + 1;
            }
            proof {
                assert(accumulate_to(self, other, target_cols as int, k + 1)
                    == accumulate_pairs_to(
                    base,
                    row as int,
                    value,
                    pairs,
                    pairs.len() as int,
                    target_cols as int,
                ));
            }
            k = k + 1;
        }
        let ghost final_map = multiply_accumulation(self, other);
        proof {
            assert(final_map == accumulate_to(self, other, target_cols as int, a_nnz as int));
        }
        let ghost kv = keys@;
        let ghost vv = vals@;
        let r = SparseCOO::from_flat_indices(self.nrows, target_cols, keys, vals);
        proof {
            assert forall|i: int, j: int|
                #![trigger r.stored(i, j)]
                0 <= i < self.nrows && 0 <= j < target_cols implies (r.stored(i, j)
                <==> final_map.dom().contains(i * (target_cols as int) + j)) && (r.stored(i, j)
                ==> r.value_at(i, j) == final_map[i * (target_cols as int) + j]) by {
                crate::indexing::lemma_row_major_flat_bounds(
                    i,
                    j,
                    self.nrows as int,
                    target_cols as int,
                );
                crate::indexing::lemma_row_major_flat_decode(i, j, target_cols as int);
                let f = ((i * target_cols + j) as usize);
                assert(r.stored(i, j) <==> kv.contains(f));
                assert(kv.contains(f) <==> final_map.dom().contains(f as int));
                if kv.contains(f) {
                    let t = choose|t: int| 0 <= t < kv.len() && kv[t] == f;
                    assert(r.value_at(
                        crate::indexing::row_of_flat(kv[t] as int, target_cols as int),
                        crate::indexing::col_of_flat(kv[t] as int, target_cols as int),
                    ) == vv[t]);
                    assert(vv[t] == final_map[f as int]);
                }
            }
        }
        r
    }
}

/// Distinct-positions law: under the coordinate format's invariant —
/// which `random` and every other constructor establish — no two triples
/// carry the same (row, column) pair.
pub proof fn lemma_coo_positions_distinct(m: &SparseCOO, k1: int, k2: int)
    requires
        m.wf(),
        0 <= k1 < k2 < m.rowind@.len(),
    ensures
        m.rowind@[k1] != m.rowind@[k2] || m.colind@[k1] != m.colind@[k2],
{
}

/// Pairs collected from a row of B carry in-bounds column indices.
proof fn lemma_row_pairs_in_bounds(b: &SparseCOO, r: int, n: int, t: int)
    requires
        b.wf(),
        0 <= n <= b.rowind@.len(),
        0 <= t < row_pairs_to(b, r, n).len(),
    ensures
        row_pairs_to(b, r, n)[t].0 < b.ncols,
    decreases n,
{
    if n > 0 {
        if b.rowind@[n - 1] == r {
            if t < row_pairs_to(b, r, n - 1).len() {
                lemma_row_pairs_in_bounds(b, r, n - 1, t);
            }
        } else {
            lemma_row_pairs_in_bounds(b, r, n - 1, t);
        }
    }
}

} // verus!
