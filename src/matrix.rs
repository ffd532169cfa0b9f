//! Dense row-major matrices, generic over the element type; the arithmetic on
//! real-valued matrices lives with the numeric kernels.
use vstd::prelude::*;

verus! {

/// Why a matrix could not be formed.
#[derive(Debug, Clone, Copy, PartialEq, Eq)]
pub enum MatrixError {
    /// The data length is not a whole number of rows (or columns) of `minor` elements.
    Ragged { len: usize, minor: usize },
    /// A vector's length differs from the vectors before it.
    InconsistentLength { found: usize, expected: usize },
    /// The matrix lacks the last column (or the last row) that the split removes.
    TooSmall,
}

pub proof fn lemma_cell_below(r: int, c: int, nrows: int, ncols: int)
    requires
        0 <= r < nrows,
        0 <= c < ncols,
    ensures
        0 <= r * ncols + c < nrows * ncols,
        r * ncols + c + 1 <= (r + 1) * ncols,
{
    assert(r * ncols + ncols <= nrows * ncols) by (nonlinear_arith)
        requires
            r < nrows,
            ncols > 0,
    ;
    assert(0 <= r * ncols) by (nonlinear_arith)
        requires
            r >= 0,
            ncols > 0,
    ;
    assert((r + 1) * ncols == r * ncols + ncols) by (nonlinear_arith);
}

proof fn lemma_rows_apart(r1: int, c1: int, r2: int, c2: int, ncols: int)
    requires
        0 <= r1 < r2,
        0 <= c1 < ncols,
        0 <= c2 < ncols,
    ensures
        r1 * ncols + c1 < r2 * ncols + c2,
{
    assert(r1 * ncols + ncols <= r2 * ncols) by (nonlinear_arith)
        requires
            r1 < r2,
            ncols > 0,
    ;
}

/// A rectangular array stored row by row.
#[derive(Debug, Clone)]
pub struct Matrix<T> {
    data: Vec<T>,
    nrows: usize,
    ncols: usize,
}

impl<T> Matrix<T> {
    pub closed spec fn spec_data(&self) -> Seq<T> {
        self.data@
    }

    pub closed spec fn spec_nrows(&self) -> nat {
        self.nrows as nat
    }

    pub closed spec fn spec_ncols(&self) -> nat {
        self.ncols as nat
    }

    pub open spec fn wf(&self) -> bool {
        self.spec_data().len() == self.spec_nrows() * self.spec_ncols()
    }

    /// Element `(r, c)`.
    pub open spec fn at(&self, r: int, c: int) -> T {
        self.spec_data()[r * self.spec_ncols() + c]
    }

    pub fn nrows(&self) -> (r: usize)
        ensures
            r == self.spec_nrows(),
    {
        self.nrows
    }

    pub fn ncols(&self) -> (r: usize)
        ensures
            r == self.spec_ncols(),
    {
        self.ncols
    }

    /// The row-major data.
    pub fn data(&self) -> (r: &Vec<T>)
        ensures
            r@ == self.spec_data(),
    {
        &self.data
    }

    /// A matrix from row-major data with `ncols` columns; fails where `ncols` is zero
    /// or does not divide the data length.
    pub fn try_new(data: Vec<T>, ncols: usize) -> (r: Result<Self, MatrixError>)
        ensures
            r is Ok <==> ncols > 0 && data@.len() % (ncols as nat) == 0,
            r is Err ==> r->Err_0 == (MatrixError::Ragged { len: data@.len() as usize, minor: ncols }),
            r is Ok ==> r->Ok_0.wf() && r->Ok_0.spec_data() == data@ && r->Ok_0.spec_ncols() == ncols
                && r->Ok_0.spec_nrows() == data@.len() / (ncols as nat),
    {
        if ncols == 0 || data.len() % ncols != 0 {
            return Err(MatrixError::Ragged { len: data.len(), minor: ncols });
        }
        let nrows = data.len() / ncols;
        proof {
            let (l, n) = (data@.len() as int, ncols as int);
            assert(l == (l / n) * n) by (nonlinear_arith)
                requires
                    n > 0,
                    l % n == 0,
            ;
        }
        Ok(Matrix { data, nrows, ncols })
    }

    /// Element `(row, col)`; `None` outside the matrix.
    pub fn get(&self, row: usize, col: usize) -> (r: Option<&T>)
        requires
            self.wf(),
        ensures
            r is Some <==> row < self.spec_nrows() && col < self.spec_ncols(),
            r is Some ==> *r->0 == self.at(row as int, col as int),
    {
        if row >= self.nrows || col >= self.ncols {
            return None;
        }
        let len = self.data.len();
        proof {
            lemma_cell_below(row as int, col as int, self.nrows as int, self.ncols as int);
        }
        Some(&self.data[row * self.ncols + col])
    }
}

impl<T: Copy> Matrix<T> {
    /// A matrix from column-major data with `nrows` rows; fails where `nrows` is zero
    /// or does not divide the data length.
    pub fn try_new_colmaj(data: Vec<T>, nrows: usize) -> (r: Result<Self, MatrixError>)
        ensures
            r is Ok <==> nrows > 0 && data@.len() % (nrows as nat) == 0,
            r is Err ==> r->Err_0 == (MatrixError::Ragged { len: data@.len() as usize, minor: nrows }),
            r is Ok ==> {
                let m = r->Ok_0;
                &&& m.wf()
                &&& m.spec_nrows() == nrows
                &&& m.spec_ncols() == data@.len() / (nrows as nat)
                &&& forall|i: int, j: int| 0 <= i < m.spec_nrows() && 0 <= j < m.spec_ncols() ==> #[trigger] m.at(i, j)
                    == data@[j * nrows + i]
            },
    {
        if nrows == 0 || data.len() % nrows != 0 {
            return Err(MatrixError::Ragged { len: data.len(), minor: nrows });
        }
        let ncols = data.len() / nrows;
        proof {
            let (l, n) = (data@.len() as int, nrows as int);
            assert(l == (l / n) * n) by (nonlinear_arith)
                requires
                    n > 0,
                    l % n == 0,
            ;
            assert((l / n) * n == n * (l / n)) by (nonlinear_arith);
        }
        let out = gather_transposed(&data, ncols, nrows);
        Ok(Matrix { data: out, nrows, ncols })
    }

    /// The transposed matrix.
    pub fn transpose(&self) -> (r: Matrix<T>)
        requires
            self.wf(),
        ensures
            r.wf(),
            r.spec_nrows() == self.spec_ncols(),
            r.spec_ncols() == self.spec_nrows(),
            forall|i: int, j: int| 0 <= i < r.spec_nrows() && 0 <= j < r.spec_ncols() ==> #[trigger] r.at(i, j) == self.at(j, i),
    {
        proof {
            assert(self.nrows * self.ncols == self.ncols * self.nrows) by (nonlinear_arith);
        }
        let out = gather_transposed(&self.data, self.nrows, self.ncols);
        Matrix { data: out, nrows: self.ncols, ncols: self.nrows }
    }

    /// Copies of the rows, top to bottom.
    pub fn rows(&self) -> (r: Vec<Vec<T>>)
        requires
            self.wf(),
        ensures
            r.len() == self.spec_nrows(),
            forall|i: int| 0 <= i < self.spec_nrows() ==> (#[trigger] r@[i])@.len() == self.spec_ncols(),
            forall|i: int, j: int| 0 <= i < self.spec_nrows() && 0 <= j < self.spec_ncols() ==> #[trigger] r@[i]@[j]
                == self.at(i, j),
    {
        let mut out: Vec<Vec<T>> = Vec::with_capacity(self.nrows);
        let len = self.data.len();
        let mut i: usize = 0;
        while i < self.nrows
            invariant
                i <= self.nrows,
                len == self.data@.len(),
                self.wf(),
                out.len() == i,
                forall|a: int| 0 <= a < i ==> (#[trigger] out@[a])@.len() == self.ncols,
                forall|a: int, b: int| 0 <= a < i && 0 <= b < self.ncols ==> #[trigger] out@[a]@[b] == self.at(a, b),
            decreases self.nrows - i,
        {
            let mut row: Vec<T> = Vec::with_capacity(self.ncols);
            let mut j: usize = 0;
            while j < self.ncols
                invariant
                    i < self.nrows,
                    j <= self.ncols,
                    len == self.data@.len(),
                    self.wf(),
                    row@.len() == j,
                    forall|b: int| 0 <= b < j ==> #[trigger] row@[b] == self.at(i as int, b),
                decreases self.ncols - j,
            {
                proof {
                    lemma_cell_below(i as int, j as int, self.nrows as int, self.ncols as int);
                }
                row.push(self.data[i * self.ncols + j]);
                j = j + 1;
            }
            out.push(row);
            i = i + 1;
        }
        out
    }
}

/// Row-major data of the transpose of the `nrows` by `ncols` row-major `data`.
fn gather_transposed<T: Copy>(data: &Vec<T>, nrows: usize, ncols: usize) -> (r: Vec<T>)
    requires
        data@.len() == nrows * ncols,
    ensures
        r@.len() == ncols * nrows,
        forall|i: int, j: int| 0 <= i < ncols && 0 <= j < nrows ==> #[trigger] r@[i * nrows + j] == data@[j * ncols + i],
{
    let mut out: Vec<T> = Vec::with_capacity(data.len());
    let len = data.len();
    let mut i: usize = 0;
    while i < ncols
        invariant
            i <= ncols,
            len == data@.len(),
            data@.len() == nrows * ncols,
            out@.len() == i * nrows,
            forall|a: int, b: int| 0 <= a < i && 0 <= b < nrows ==> #[trigger] out@[a * nrows + b] == data@[b * ncols + a],
        decreases ncols - i,
    {
        let ghost start = out@;
        let mut j: usize = 0;
        while j < nrows
            invariant
                i < ncols,
                j <= nrows,
                len == data@.len(),
                data@.len() == nrows * ncols,
                out@.len() == i * nrows + j,
                out@.subrange(0, i * nrows) == start,
                start.len() == i * nrows,
                forall|b: int| 0 <= b < j ==> #[trigger] out@[i * nrows + b] == data@[b * ncols + i],
            decreases nrows - j,
        {
            proof {
                lemma_cell_below(j as int, i as int, nrows as int, ncols as int);
                lemma_cell_below(i as int, j as int, ncols as int, nrows as int);
                assert(nrows * ncols == ncols * nrows) by (nonlinear_arith);
            }
            let ghost before = out@;
            out.push(data[j * ncols + i]);
            proof {
                assert(out@.subrange(0, i * nrows) =~= before.subrange(0, i * nrows));
            }
            j = j + 1;
        }
        proof {
            assert forall|a: int, b: int| 0 <= a < i + 1 && 0 <= b < nrows implies #[trigger] out@[a * nrows + b]
                == data@[b * ncols + a] by {
                if a < i {
                    lemma_cell_below(a, b, i as int, nrows as int);
                    assert(out@[a * nrows + b] == out@.subrange(0, i * nrows)[a * nrows + b]);
                }
            }
            assert((i + 1) * nrows == i * nrows + nrows) by (nonlinear_arith);
        }
        i = i + 1;
    }
    out
}

/// Collects equally long vectors as the rows (or the columns) of a matrix.
#[derive(Debug, Clone)]
pub struct MatrixBuilder<T> {
    row_vecs: bool,
    dim_len: Option<usize>,
    n_vecs: usize,
    data: Vec<T>,
}

impl<T> Matrix<T> {
    /// A builder whose vectors are rows where `row_vecs`, else columns.
    pub fn builder(row_vecs: bool) -> (r: MatrixBuilder<T>)
        ensures
            r.wf(),
            r.spec_vecs().len() == 0,
            r.spec_row_vecs() == row_vecs,
    {
        MatrixBuilder { row_vecs, dim_len: None, n_vecs: 0, data: Vec::new() }
    }
}

impl<T> MatrixBuilder<T> {
    pub closed spec fn spec_row_vecs(&self) -> bool {
        self.row_vecs
    }

    pub closed spec fn spec_dim_len(&self) -> Option<usize> {
        self.dim_len
    }

    /// The vectors added so far, flattened.
    pub closed spec fn spec_vecs(&self) -> Seq<T> {
        self.data@
    }

    pub closed spec fn spec_n_vecs(&self) -> nat {
        self.n_vecs as nat
    }

    /// The number of vectors added so far.
    pub fn len(&self) -> (r: usize)
        ensures
            r == self.spec_n_vecs(),
    {
        self.n_vecs
    }

    pub open spec fn wf(&self) -> bool {
        &&& self.spec_dim_len() is None ==> self.spec_n_vecs() == 0 && self.spec_vecs().len() == 0
        &&& self.spec_dim_len() is Some ==> self.spec_vecs().len() == self.spec_n_vecs() * self.spec_dim_len()->0
    }
}

impl<T: Copy> MatrixBuilder<T> {
    /// Appends a vector; fails where its length differs from the first vector's.
    pub fn add_vec(&mut self, vec: &[T]) -> (r: Result<(), MatrixError>)
        requires
            old(self).wf(),
            old(self).spec_n_vecs() < usize::MAX,
        ensures
            final(self).wf(),
            final(self).spec_row_vecs() == old(self).spec_row_vecs(),
            r is Err <==> old(self).spec_dim_len() is Some && old(self).spec_dim_len()->0 != vec@.len(),
            r is Err ==> *final(self) == *old(self) && r->Err_0 == (MatrixError::InconsistentLength {
                found: vec@.len() as usize,
                expected: old(self).spec_dim_len()->0,
            }),
            r is Ok ==> final(self).spec_vecs() == old(self).spec_vecs() + vec@ && final(self).spec_dim_len() == Some(
                vec@.len() as usize,
            ) && final(self).spec_n_vecs() == old(self).spec_n_vecs() + 1,
    {
        match self.dim_len {
            Some(len) => {
                if len != vec.len() {
                    return Err(MatrixError::InconsistentLength { found: vec.len(), expected: len });
                }
            },
            None => {
                self.dim_len = Some(vec.len());
            },
        }
        let ghost before = self.data@;
        let n = self.n_vecs;
        let mut k: usize = 0;
        while k < vec.len()
            invariant
                k <= vec.len(),
                self.n_vecs == n,
                self.dim_len == Some(vec@.len() as usize),
                self.row_vecs == old(self).row_vecs,
                self.data@ == before + vec@.subrange(0, k as int),
            decreases vec.len() - k,
        {
            self.data.push(vec[k]);
            k = k + 1;
            proof {
                assert(self.data@ =~= before + vec@.subrange(0, k as int));
            }
        }
        proof {
            assert(vec@.subrange(0, vec@.len() as int) =~= vec@);
            let (n, d) = (self.n_vecs as int, vec@.len() as int);
            assert((n + 1) * d == n * d + d) by (nonlinear_arith);
            assert(0 * d == 0) by (nonlinear_arith);
            assert(before.len() == n * d);
        }
        self.n_vecs = n + 1;
        Ok(())
    }
}

impl<T: Copy> MatrixBuilder<T> {
    /// The matrix whose rows (or columns) are the vectors added, in order.
    pub fn build(self) -> (r: Matrix<T>)
        requires
            self.wf(),
        ensures
            r.wf(),
            ({
                let d: nat = match self.spec_dim_len() {
                    Some(d) => d as nat,
                    None => 0,
                };
                if self.spec_row_vecs() {
                    &&& r.spec_nrows() == self.spec_n_vecs()
                    &&& r.spec_ncols() == d
                    &&& r.spec_data() == self.spec_vecs()
                } else {
                    &&& r.spec_nrows() == d
                    &&& r.spec_ncols() == self.spec_n_vecs()
                    &&& forall|i: int, j: int| 0 <= i < d && 0 <= j < self.spec_n_vecs() ==> #[trigger] r.at(i, j)
                        == self.spec_vecs()[j * d + i]
                }
            }),
    {
        let d = match self.dim_len {
            Some(d) => d,
            None => 0,
        };
        let n = self.n_vecs;
        proof {
            assert(self.data@.len() == n * d) by {
                if self.dim_len is None {
                    assert(n * d == 0) by (nonlinear_arith)
                        requires
                            n == 0,
                    ;
                }
            }
        }
        if self.row_vecs {
            return Matrix { data: self.data, nrows: n, ncols: d };
        }
        if d == 0 {
            proof {
                assert(0 * n == 0) by (nonlinear_arith);
            }
            return Matrix { data: self.data, nrows: 0, ncols: n };
        }
        let out = gather_transposed(&self.data, n, d);
        Matrix { data: out, nrows: d, ncols: n }
    }
}

impl<T: Copy> Matrix<T> {
    /// The linear part and the translation of an affine map whose matrix holds the
    /// translation in its last column; where `augmented`, the last row (the
    /// `[0 ... 0 1]` row) is dropped as well. Fails where there is no last column,
    /// or no last row to drop.
    pub fn split_affine(&self, augmented: bool) -> (r: Result<(Matrix<T>, Vec<T>), MatrixError>)
        requires
            self.wf(),
        ensures
            r is Err <==> self.spec_ncols() == 0 || (augmented && self.spec_nrows() == 0),
            r is Err ==> r->Err_0 == MatrixError::TooSmall,
            r is Ok ==> {
                let (m, t) = r->Ok_0;
                let rows = if augmented { self.spec_nrows() - 1 } else { self.spec_nrows() as int };
                &&& m.wf()
                &&& m.spec_nrows() == rows
                &&& m.spec_ncols() == self.spec_ncols() - 1
                &&& t@.len() == rows
                &&& forall|i: int, j: int| 0 <= i < rows && 0 <= j < m.spec_ncols() ==> #[trigger] m.at(i, j)
                    == self.at(i, j)
                &&& forall|i: int| 0 <= i < rows ==> #[trigger] t@[i] == self.at(i, self.spec_ncols() - 1)
            },
    {
        if self.ncols == 0 || (augmented && self.nrows == 0) {
            return Err(MatrixError::TooSmall);
        }
        let rows = if augmented { self.nrows - 1 } else { self.nrows };
        let nc = self.ncols - 1;
        let len = self.data.len();
        let mut data: Vec<T> = Vec::new();
        let mut translation: Vec<T> = Vec::new();
        let mut i: usize = 0;
        while i < rows
            invariant
                i <= rows,
                rows <= self.nrows,
                nc + 1 == self.ncols,
                len == self.data@.len(),
                self.wf(),
                data@.len() == i * nc,
                translation@.len() == i,
                forall|a: int, b: int| 0 <= a < i && 0 <= b < nc ==> #[trigger] data@[a * nc + b] == self.at(a, b),
                forall|a: int| 0 <= a < i ==> #[trigger] translation@[a] == self.at(a, nc as int),
            decreases rows - i,
        {
            let ghost start = data@;
            let mut j: usize = 0;
            while j < nc
                invariant
                    i < rows,
                    rows <= self.nrows,
                    j <= nc,
                    nc + 1 == self.ncols,
                    len == self.data@.len(),
                    self.wf(),
                    start.len() == i * nc,
                    data@.len() == i * nc + j,
                    data@.subrange(0, i * nc) == start,
                    forall|b: int| 0 <= b < j ==> #[trigger] data@[i * nc + b] == self.at(i as int, b),
                decreases nc - j,
            {
                proof {
                    lemma_cell_below(i as int, j as int, self.nrows as int, self.ncols as int);
                }
                let ghost before = data@;
                data.push(self.data[i * self.ncols + j]);
                proof {
                    assert(data@.subrange(0, i * nc) =~= before.subrange(0, i * nc));
                }
                j = j + 1;
            }
            proof {
                lemma_cell_below(i as int, nc as int, self.nrows as int, self.ncols as int);
                assert forall|a: int, b: int| 0 <= a < i + 1 && 0 <= b < nc implies #[trigger] data@[a * nc + b]
                    == self.at(a, b) by {
                    if a < i {
                        lemma_cell_below(a, b, i as int, nc as int);
                        assert(data@[a * nc + b] == data@.subrange(0, i * nc)[a * nc + b]);
                    }
                }
                assert((i + 1) * nc == i * nc + nc) by (nonlinear_arith);
            }
            translation.push(self.data[i * self.ncols + nc]);
            i = i + 1;
        }
        Ok((Matrix { data, nrows: rows, ncols: nc }, translation))
    }
}

/// Position in the full matrix of index `idx` of a sub-matrix that leaves out the
/// indices in `skipped`: the `idx`-th index, from zero, that is not skipped.
pub fn rectify_idx(idx: usize, skipped: &[usize]) -> (r: usize)
    requires
        forall|a: int, b: int| 0 <= a < b < skipped@.len() ==> #[trigger] skipped@[a] < #[trigger] skipped@[b],
        idx + skipped@.len() <= usize::MAX,
    ensures
        !skipped@.contains(r),
        idx <= r <= idx + skipped@.len(),
        forall|j: int| 0 <= j < r - idx ==> #[trigger] skipped@[j] < r,
        forall|j: int| r - idx <= j < skipped@.len() ==> #[trigger] skipped@[j] > r,
{
    let mut cur = idx;
    let mut k: usize = 0;
    while k < skipped.len()
        invariant
            k <= skipped@.len(),
            cur == idx + k,
            idx + skipped@.len() <= usize::MAX,
            forall|a: int, b: int| 0 <= a < b < skipped@.len() ==> #[trigger] skipped@[a] < #[trigger] skipped@[b],
            forall|j: int| 0 <= j < k ==> #[trigger] skipped@[j] < cur,
        decreases skipped@.len() - k,
    {
        if skipped[k] > cur {
            proof {
                assert forall|j: int| k <= j < skipped@.len() implies #[trigger] skipped@[j] > cur by {
                    if j > k {
                        assert(skipped@[k as int] < skipped@[j]);
                    }
                }
                assert(!skipped@.contains(cur)) by {
                    if skipped@.contains(cur) {
                        let j = choose|j: int| 0 <= j < skipped@.len() && skipped@[j] == cur;
                        if j < k {
                            assert(skipped@[j] < cur);
                        } else {
                            assert(skipped@[j] > cur);
                        }
                    }
                }
            }
            return cur;
        }
        proof {
            assert forall|j: int| 0 <= j < k + 1 implies #[trigger] skipped@[j] < cur + 1 by {
                if j < k {
                    assert(skipped@[j] < cur);
                }
            }
        }
        cur = cur + 1;
        k = k + 1;
    }
    proof {
        assert(!skipped@.contains(cur)) by {
            if skipped@.contains(cur) {
                let j = choose|j: int| 0 <= j < skipped@.len() && skipped@[j] == cur;
                assert(skipped@[j] < cur);
            }
        }
    }
    cur
}

} // verus!
