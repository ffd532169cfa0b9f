//! Strided n-dimensional layouts and a `Vec`-backed array.
use vstd::prelude::*;
use crate::buffers::slice_to_vec;

verus! {

/// Number of elements of an array with the given extents.
pub open spec fn numel_of(shape: Seq<usize>) -> nat
    decreases shape.len(),
{
    if shape.len() == 0 {
        1
    } else {
        numel_of(shape.drop_last()) * (shape.last() as nat)
    }
}

/// Whether `index` addresses an element of an array with extents `shape`.
pub open spec fn in_bounds(index: Seq<usize>, shape: Seq<usize>) -> bool {
    &&& index.len() == shape.len()
    &&& forall|k: int| 0 <= k < shape.len() ==> #[trigger] index[k] < shape[k]
}

/// Offset of `index` when the last dimension is contiguous (C order).
pub open spec fn row_major_offset(shape: Seq<usize>, index: Seq<usize>) -> nat
    decreases shape.len(),
{
    if shape.len() == 0 || index.len() == 0 {
        0
    } else {
        row_major_offset(shape.drop_last(), index.drop_last()) * (shape.last() as nat)
            + (index.last() as nat)
    }
}

/// Offset of `index` when the first dimension is contiguous (Fortran order).
pub open spec fn column_major_offset(shape: Seq<usize>, index: Seq<usize>) -> nat
    decreases shape.len(),
{
    if shape.len() == 0 || index.len() == 0 {
        0
    } else {
        (index[0] as nat) + (shape[0] as nat) * column_major_offset(
            shape.drop_first(),
            index.drop_first(),
        )
    }
}

pub proof fn lemma_numel_split(shape: Seq<usize>, k: int)
    requires
        0 <= k <= shape.len(),
    ensures
        numel_of(shape) == numel_of(shape.subrange(0, k)) * numel_of(
            shape.subrange(k, shape.len() as int),
        ),
    decreases shape.len(),
{
    let n = shape.len() as int;
    if k == n {
        assert(shape.subrange(0, k) =~= shape);
        assert(numel_of(shape.subrange(k, n)) == 1);
    } else {
        let init = shape.drop_last();
        lemma_numel_split(init, k);
        assert(init.subrange(0, k) =~= shape.subrange(0, k));
        let tail = shape.subrange(k, n);
        assert(tail.drop_last() =~= init.subrange(k, n - 1));
        assert(tail.last() == shape.last());
        let a = numel_of(shape.subrange(0, k)) as int;
        let b = numel_of(init.subrange(k, n - 1)) as int;
        let c = shape.last() as int;
        assert(a * b * c == a * (b * c)) by (nonlinear_arith);
    }
}

pub proof fn lemma_numel_positive(shape: Seq<usize>)
    requires
        forall|k: int| 0 <= k < shape.len() ==> #[trigger] shape[k] >= 1,
    ensures
        numel_of(shape) >= 1,
    decreases shape.len(),
{
    if shape.len() > 0 {
        lemma_numel_positive(shape.drop_last());
        let a = numel_of(shape.drop_last()) as int;
        let c = shape.last() as int;
        assert(a * c >= 1) by (nonlinear_arith)
            requires
                a >= 1,
                c >= 1,
        ;
    }
}

proof fn lemma_row_offset_bound(shape: Seq<usize>, index: Seq<usize>)
    requires
        in_bounds(index, shape),
    ensures
        row_major_offset(shape, index) < numel_of(shape),
    decreases shape.len(),
{
    if shape.len() > 0 {
        let (s0, i0) = (shape.drop_last(), index.drop_last());
        assert(in_bounds(i0, s0)) by {
            assert forall|k: int| 0 <= k < s0.len() implies #[trigger] i0[k] < s0[k] by {
                assert(index[k] < shape[k]);
            }
        }
        lemma_row_offset_bound(s0, i0);
        let r = row_major_offset(s0, i0) as int;
        let m = numel_of(s0) as int;
        let s = shape.last() as int;
        let i = index.last() as int;
        assert(index[index.len() - 1] < shape[shape.len() - 1]);
        assert(r * s + i < m * s) by (nonlinear_arith)
            requires
                r < m,
                i < s,
                0 <= r,
                0 <= i,
        ;
    }
}

proof fn lemma_column_offset_bound(shape: Seq<usize>, index: Seq<usize>)
    requires
        in_bounds(index, shape),
    ensures
        column_major_offset(shape, index) < numel_of(shape),
    decreases shape.len(),
{
    if shape.len() > 0 {
        let (s1, i1) = (shape.drop_first(), index.drop_first());
        assert(in_bounds(i1, s1)) by {
            assert forall|k: int| 0 <= k < s1.len() implies #[trigger] i1[k] < s1[k] by {
                assert(index[k + 1] < shape[k + 1]);
            }
        }
        lemma_column_offset_bound(s1, i1);
        lemma_numel_split(shape, 1);
        assert(shape.subrange(1, shape.len() as int) =~= s1);
        let first = shape.subrange(0, 1);
        assert(first.drop_last() =~= Seq::<usize>::empty());
        assert(numel_of(first.drop_last()) == 1);
        assert(numel_of(first) == numel_of(first.drop_last()) * (first.last() as nat));
        assert(first.last() == shape[0]);
        let x = first.last() as nat;
        assert(numel_of(first) == 1 * x);
        assert(1 * x == x) by (nonlinear_arith);
        let r = column_major_offset(s1, i1) as int;
        let m = numel_of(s1) as int;
        let s = shape[0] as int;
        let i = index[0] as int;
        assert(index[0] < shape[0]);
        assert(i + s * r < s * m) by (nonlinear_arith)
            requires
                r < m,
                i < s,
                0 <= r,
                0 <= i,
        ;
    }
}

/// How the elements of an n-dimensional array are laid out in one dimension.
pub trait Layout {
    spec fn spec_shape(&self) -> Seq<usize>;

    /// Offset of an in-bounds index.
    spec fn spec_offset(&self, index: Seq<usize>) -> nat;

    spec fn spec_contiguous(&self) -> Option<usize>;

    /// Holds for every layout that can be built: the element count fits in `usize`.
    spec fn wf(&self) -> bool;

    fn shape(&self) -> (r: &[usize])
        ensures
            r@ == self.spec_shape(),
    ;

    fn ndim(&self) -> (r: usize)
        ensures
            r == self.spec_shape().len(),
    ;

    fn numel(&self) -> (r: usize)
        requires
            self.wf(),
        ensures
            r == numel_of(self.spec_shape()),
    ;

    /// The position of `index` in the flat data, or `None` where it is out of bounds.
    fn linear_idx(&self, index: &[usize]) -> (r: Option<usize>)
        requires
            self.wf(),
        ensures
            r is Some <==> in_bounds(index@, self.spec_shape()),
            r is Some ==> r->0 == self.spec_offset(index@),
            r is Some ==> r->0 < numel_of(self.spec_shape()),
    ;

    /// The dimension whose consecutive indices are adjacent in memory.
    fn contiguous_dimension(&self) -> (r: Option<usize>)
        ensures
            r == self.spec_contiguous(),
    ;

    proof fn lemma_offset_bound(&self, index: Seq<usize>)
        requires
            in_bounds(index, self.spec_shape()),
        ensures
            self.spec_offset(index) < numel_of(self.spec_shape()),
    ;
}

/// The element count of extents `shape`.
pub fn product_of(shape: &[usize]) -> (r: usize)
    requires
        numel_of(shape@) <= usize::MAX,
    ensures
        r == numel_of(shape@),
{
    let mut i: usize = 0;
    let mut total: usize = 1;
    let mut zero_at: Option<usize> = None;
    // first pass: find a zero extent, whose presence makes the product zero
    while i < shape.len()
        invariant
            i <= shape.len(),
            zero_at is Some ==> zero_at->0 < i && shape@[zero_at->0 as int] == 0,
            zero_at is None ==> forall|k: int| 0 <= k < i ==> #[trigger] shape@[k] >= 1,
        decreases shape.len() - i,
    {
        if shape[i] == 0 && zero_at.is_none() {
            zero_at = Some(i);
        }
        i = i + 1;
    }
    if zero_at.is_some() {
        proof {
            let z = zero_at->0 as int;
            lemma_numel_split(shape@, z + 1);
            let pre = shape@.subrange(0, z + 1);
            assert(pre.last() == 0);
            assert(numel_of(pre) == numel_of(pre.drop_last()) * (pre.last() as nat));
            assert(numel_of(pre) == 0);
            let b = numel_of(shape@.subrange(z + 1, shape.len() as int)) as int;
            assert(0 * b == 0) by (nonlinear_arith);
        }
        return 0;
    }
    i = 0;
    while i < shape.len()
        invariant
            i <= shape.len(),
            numel_of(shape@) <= usize::MAX,
            forall|k: int| 0 <= k < shape.len() ==> #[trigger] shape@[k] >= 1,
            total == numel_of(shape@.subrange(0, i as int)),
        decreases shape.len() - i,
    {
        proof {
            lemma_numel_split(shape@, i + 1);
            let rest = shape@.subrange(i + 1, shape.len() as int);
            assert forall|k: int| 0 <= k < rest.len() implies #[trigger] rest[k] >= 1 by {
                assert(rest[k] == shape@[k + i + 1]);
            }
            lemma_numel_positive(rest);
            let a = numel_of(shape@.subrange(0, i + 1)) as int;
            let b = numel_of(rest) as int;
            assert(a <= a * b) by (nonlinear_arith)
                requires
                    b >= 1,
                    a >= 0,
            ;
            assert(shape@.subrange(0, i + 1).drop_last() =~= shape@.subrange(0, i as int));
        }
        total = total * shape[i];
        i = i + 1;
    }
    proof {
        assert(shape@.subrange(0, shape.len() as int) =~= shape@);
    }
    total
}

/// The element count of extents `shape`, or `None` where it does not fit in `usize`.
pub fn checked_numel(shape: &[usize]) -> (r: Option<usize>)
    ensures
        r is Some <==> numel_of(shape@) <= usize::MAX,
        r is Some ==> r->0 == numel_of(shape@),
{
    let mut i: usize = 0;
    let mut has_zero = false;
    while i < shape.len()
        invariant
            i <= shape.len(),
            has_zero ==> exists|k: int| 0 <= k < shape.len() && #[trigger] shape@[k] == 0,
            !has_zero ==> forall|k: int| 0 <= k < i ==> #[trigger] shape@[k] >= 1,
        decreases shape.len() - i,
    {
        if shape[i] == 0 {
            has_zero = true;
        }
        i = i + 1;
    }
    if has_zero {
        proof {
            let z = choose|k: int| 0 <= k < shape.len() && #[trigger] shape@[k] == 0;
            lemma_numel_split(shape@, z + 1);
            let pre = shape@.subrange(0, z + 1);
            assert(pre.last() == 0);
            assert(numel_of(pre) == numel_of(pre.drop_last()) * (pre.last() as nat));
            let b = numel_of(shape@.subrange(z + 1, shape.len() as int)) as int;
            assert(0 * b == 0) by (nonlinear_arith);
        }
        return Some(product_of(shape));
    }
    let mut total: usize = 1;
    i = 0;
    while i < shape.len()
        invariant
            i <= shape.len(),
            forall|k: int| 0 <= k < shape.len() ==> #[trigger] shape@[k] >= 1,
            total == numel_of(shape@.subrange(0, i as int)),
        decreases shape.len() - i,
    {
        proof {
            assert(shape@.subrange(0, i + 1).drop_last() =~= shape@.subrange(0, i as int));
        }
        match total.checked_mul(shape[i]) {
            Some(t) => {
                total = t;
            },
            None => {
                proof {
                    lemma_numel_split(shape@, i + 1);
                    let rest = shape@.subrange(i + 1, shape.len() as int);
                    assert forall|k: int| 0 <= k < rest.len() implies #[trigger] rest[k] >= 1 by {
                        assert(rest[k] == shape@[k + i + 1]);
                    }
                    lemma_numel_positive(rest);
                    let a = numel_of(shape@.subrange(0, i + 1)) as int;
                    let b = numel_of(rest) as int;
                    assert(a <= a * b) by (nonlinear_arith)
                        requires
                            b >= 1,
                            a >= 0,
                    ;
                }
                return None;
            },
        }
        i = i + 1;
    }
    proof {
        assert(shape@.subrange(0, shape.len() as int) =~= shape@);
    }
    Some(total)
}

fn all_in_bounds(index: &[usize], shape: &[usize]) -> (r: bool)
    ensures
        r == in_bounds(index@, shape@),
{
    if index.len() != shape.len() {
        return false;
    }
    let mut k: usize = 0;
    while k < shape.len()
        invariant
            k <= shape.len(),
            index.len() == shape.len(),
            forall|j: int| 0 <= j < k ==> #[trigger] index@[j] < shape@[j],
        decreases shape.len() - k,
    {
        if index[k] >= shape[k] {
            return false;
        }
        k = k + 1;
    }
    true
}

/// An in-bounds index of a well-formed layout has an offset within its element count.
pub proof fn lemma_offset_in_layout<L: Layout>(layout: &L, index: Seq<usize>)
    requires
        layout.wf(),
        in_bounds(index, layout.spec_shape()),
    ensures
        layout.spec_offset(index) < numel_of(layout.spec_shape()),
{
    layout.lemma_offset_bound(index);
}

/// Layout in which the first dimension is contiguous.
#[derive(Debug, Clone)]
pub struct ColumnMajor {
    shape: Vec<usize>,
}

impl ColumnMajor {
    pub fn new(shape: &[usize]) -> (r: Self)
        requires
            numel_of(shape@) <= usize::MAX,
        ensures
            r.spec_shape() == shape@,
            r.wf(),
    {
        ColumnMajor { shape: slice_to_vec(shape) }
    }
}

impl Layout for ColumnMajor {
    closed spec fn spec_shape(&self) -> Seq<usize> {
        self.shape@
    }

    closed spec fn spec_offset(&self, index: Seq<usize>) -> nat {
        column_major_offset(self.shape@, index)
    }

    closed spec fn spec_contiguous(&self) -> Option<usize> {
        Some(0)
    }

    closed spec fn wf(&self) -> bool {
        numel_of(self.shape@) <= usize::MAX
    }

    fn shape(&self) -> (r: &[usize]) {
        self.shape.as_slice()
    }

    fn ndim(&self) -> (r: usize) {
        self.shape.len()
    }

    fn numel(&self) -> (r: usize) {
        product_of(self.shape.as_slice())
    }

    fn linear_idx(&self, index: &[usize]) -> (r: Option<usize>) {
        let shape = self.shape.as_slice();
        if !all_in_bounds(index, shape) {
            return None;
        }
        proof {
            lemma_column_offset_bound(shape@, index@);
        }
        let n = shape.len();
        let mut k: usize = n;
        let mut total: usize = 0;
        while k > 0
            invariant
                k <= n,
                n == shape@.len(),
                in_bounds(index@, shape@),
                numel_of(shape@) <= usize::MAX,
                total == column_major_offset(
                    shape@.subrange(k as int, n as int),
                    index@.subrange(k as int, n as int),
                ),
            decreases k,
        {
            let j = k - 1;
            proof {
                let (s, i) = (shape@.subrange(j as int, n as int), index@.subrange(j as int, n as int));
                assert(s.drop_first() =~= shape@.subrange(k as int, n as int));
                assert(i.drop_first() =~= index@.subrange(k as int, n as int));
                assert(in_bounds(i, s)) by {
                    assert forall|t: int| 0 <= t < s.len() implies #[trigger] i[t] < s[t] by {
                        assert(index@[t + j] < shape@[t + j]);
                    }
                }
                lemma_column_offset_bound(s, i);
                lemma_numel_split(shape@, j as int);
                let a = numel_of(shape@.subrange(0, j as int)) as int;
                let b = numel_of(s) as int;
                assert forall|t: int| 0 <= t < j implies #[trigger] shape@.subrange(0, j as int)[t] >= 1 by {
                    assert(index@[t] < shape@[t]);
                }
                lemma_numel_positive(shape@.subrange(0, j as int));
                assert(b <= a * b) by (nonlinear_arith)
                    requires
                        a >= 1,
                        b >= 0,
                ;
                assert(total * shape@[j as int] + index@[j as int] == index@[j as int] + shape@[j as int] * total) by (nonlinear_arith);
            }
            total = index[j] + shape[j] * total;
            k = j;
        }
        proof {
            assert(shape@.subrange(0, n as int) =~= shape@);
            assert(index@.subrange(0, n as int) =~= index@);
        }
        Some(total)
    }

    fn contiguous_dimension(&self) -> (r: Option<usize>) {
        Some(0)
    }

    proof fn lemma_offset_bound(&self, index: Seq<usize>) {
        lemma_column_offset_bound(self.shape@, index);
    }
}


/// Layout in which the last dimension is contiguous.
#[derive(Debug, Clone)]
pub struct RowMajor {
    shape: Vec<usize>,
}

impl RowMajor {
    pub fn new(shape: &[usize]) -> (r: Self)
        requires
            numel_of(shape@) <= usize::MAX,
        ensures
            r.spec_shape() == shape@,
            r.wf(),
    {
        RowMajor { shape: slice_to_vec(shape) }
    }
}

impl Layout for RowMajor {
    closed spec fn spec_shape(&self) -> Seq<usize> {
        self.shape@
    }

    closed spec fn spec_offset(&self, index: Seq<usize>) -> nat {
        row_major_offset(self.shape@, index)
    }

    closed spec fn spec_contiguous(&self) -> Option<usize> {
        if self.shape@.len() == 0 {
            None
        } else {
            Some((self.shape@.len() - 1) as usize)
        }
    }

    closed spec fn wf(&self) -> bool {
        numel_of(self.shape@) <= usize::MAX
    }

    fn shape(&self) -> (r: &[usize]) {
        self.shape.as_slice()
    }

    fn ndim(&self) -> (r: usize) {
        self.shape.len()
    }

    fn numel(&self) -> (r: usize) {
        product_of(self.shape.as_slice())
    }

    fn linear_idx(&self, index: &[usize]) -> (r: Option<usize>) {
        let shape = self.shape.as_slice();
        if !all_in_bounds(index, shape) {
            return None;
        }
        let n = shape.len();
        let mut k: usize = 0;
        let mut total: usize = 0;
        while k < n
            invariant
                k <= n,
                n == shape@.len(),
                in_bounds(index@, shape@),
                numel_of(shape@) <= usize::MAX,
                total == row_major_offset(
                    shape@.subrange(0, k as int),
                    index@.subrange(0, k as int),
                ),
            decreases n - k,
        {
            proof {
                let (s, i) = (shape@.subrange(0, k + 1), index@.subrange(0, k + 1));
                assert(s.drop_last() =~= shape@.subrange(0, k as int));
                assert(i.drop_last() =~= index@.subrange(0, k as int));
                assert(in_bounds(i, s)) by {
                    assert forall|t: int| 0 <= t < s.len() implies #[trigger] i[t] < s[t] by {
                        assert(index@[t] < shape@[t]);
                    }
                }
                lemma_row_offset_bound(s, i);
                lemma_numel_split(shape@, k + 1);
                let rest = shape@.subrange(k + 1, n as int);
                assert forall|t: int| 0 <= t < rest.len() implies #[trigger] rest[t] >= 1 by {
                    assert(index@[t + k + 1] < shape@[t + k + 1]);
                }
                lemma_numel_positive(rest);
                let a = numel_of(s) as int;
                let b = numel_of(rest) as int;
                assert(a <= a * b) by (nonlinear_arith)
                    requires
                        b >= 1,
                        a >= 0,
                ;
            }
            total = total * shape[k] + index[k];
            k = k + 1;
        }
        proof {
            assert(shape@.subrange(0, n as int) =~= shape@);
            assert(index@.subrange(0, n as int) =~= index@);
            lemma_row_offset_bound(shape@, index@);
        }
        Some(total)
    }

    fn contiguous_dimension(&self) -> (r: Option<usize>) {
        if self.shape.len() == 0 {
            None
        } else {
            Some(self.shape.len() - 1)
        }
    }

    proof fn lemma_offset_bound(&self, index: Seq<usize>) {
        lemma_row_offset_bound(self.shape@, index);
    }
}

/// An n-dimensional array whose elements are held, in `layout`'s order, in a `Vec`.
#[derive(Debug, Clone)]
pub struct VecNdArray<T, L: Layout> {
    data: Vec<T>,
    layout: L,
}

impl<T, L: Layout> VecNdArray<T, L> {
    pub closed spec fn spec_data(&self) -> Seq<T> {
        self.data@
    }

    pub closed spec fn spec_layout(&self) -> L {
        self.layout
    }

    /// The data has exactly one element per index of the layout.
    pub open spec fn wf(&self) -> bool {
        &&& self.spec_layout().wf()
        &&& self.spec_data().len() == numel_of(self.spec_layout().spec_shape())
    }

    pub fn new(data: Vec<T>, layout: L) -> (r: Result<Self, String>)
        requires
            layout.wf(),
        ensures
            r is Ok <==> data@.len() == numel_of(layout.spec_shape()),
            r is Ok ==> r->Ok_0.spec_data() == data@ && r->Ok_0.spec_layout() == layout
                && r->Ok_0.wf(),
    {
        if data.len() != layout.numel() {
            return Err("data does not match layout".to_owned());
        }
        Ok(Self::new_unchecked(data, layout))
    }

    pub fn new_unchecked(data: Vec<T>, layout: L) -> (r: Self)
        ensures
            r.spec_data() == data@,
            r.spec_layout() == layout,
    {
        VecNdArray { data, layout }
    }

    pub fn layout(&self) -> (r: &L)
        ensures
            *r == self.spec_layout(),
    {
        &self.layout
    }

    /// The element at position `idx` of the flat data.
    pub fn data_at(&self, idx: usize) -> (r: &T)
        requires
            idx < self.spec_data().len(),
        ensures
            *r == self.spec_data()[idx as int],
    {
        &self.data[idx]
    }

    /// The flat data, in layout order.
    pub fn data(&self) -> (r: &[T])
        ensures
            r@ == self.spec_data(),
    {
        self.data.as_slice()
    }

    pub fn into_data(self) -> (r: Vec<T>)
        ensures
            r@ == self.spec_data(),
    {
        self.data
    }
}

impl<T: Copy, L: Layout> VecNdArray<T, L> {
    /// The data cut into runs along the contiguous dimension, in memory order.
    ///
    /// `None` where the layout has no contiguous dimension or its extent is zero.
    pub fn chunks(&self) -> (r: Option<Vec<Vec<T>>>)
        requires
            self.wf(),
        ensures
            r is Some <==> (self.spec_layout().spec_contiguous() is Some && {
                let d = self.spec_layout().spec_contiguous()->0;
                d < self.spec_layout().spec_shape().len()
                    && self.spec_layout().spec_shape()[d as int] > 0
            }),
            r is Some ==> {
                let s = self.spec_layout().spec_shape()[self.spec_layout().spec_contiguous()->0 as int] as int;
                &&& r->0.len() * s == self.spec_data().len()
                &&& forall|i: int| 0 <= i < r->0.len() ==> (#[trigger] r->0@[i])@
                    == self.spec_data().subrange(i * s, i * s + s)
            },
    {
        let d = match self.layout.contiguous_dimension() {
            Some(d) => d,
            None => return None,
        };
        let shape = self.layout.shape();
        if d >= shape.len() || shape[d] == 0 {
            return None;
        }
        let s = shape[d];
        let n = self.data.len() / s;
        proof {
            lemma_numel_split(shape@, d as int);
            let pre = shape@.subrange(0, d as int);
            let post = shape@.subrange(d as int, shape@.len() as int);
            lemma_numel_split(post, 1);
            let first = post.subrange(0, 1);
            assert(first.drop_last() =~= Seq::<usize>::empty());
            assert(numel_of(first.drop_last()) == 1);
            assert(numel_of(first) == numel_of(first.drop_last()) * (first.last() as nat));
            let x = first.last() as nat;
            assert(1 * x == x) by (nonlinear_arith);
            let a = numel_of(pre) as int;
            let c = numel_of(post.subrange(1, post.len() as int)) as int;
            assert(a * (s * c) == (a * c) * s) by (nonlinear_arith);
            assert(self.data@.len() == (a * c) * s);
            assert(((a * c) * s) / (s as int) == a * c) by (nonlinear_arith)
                requires
                    s > 0,
            ;
        }
        let total_len = self.data.len();
        assert(n * s == total_len);
        let mut out: Vec<Vec<T>> = Vec::with_capacity(n);
        let mut i: usize = 0;
        while i < n
            invariant
                i <= n,
                s > 0,
                n * s == self.data@.len(),
                n * s <= usize::MAX,
                out.len() == i,
                forall|k: int| 0 <= k < i ==> (#[trigger] out@[k])@
                    == self.data@.subrange(k * s, k * s + s),
            decreases n - i,
        {
            assert((i + 1) * s <= n * s) by (nonlinear_arith)
                requires
                    i < n,
            ;
            assert((i + 1) * s == i * s + s) by (nonlinear_arith);
            assert(i * s <= n * s) by (nonlinear_arith)
                requires
                    i < n,
            ;
            let start = i * s;
            let mut chunk: Vec<T> = Vec::with_capacity(s);
            let mut j: usize = 0;
            while j < s
                invariant
                    j <= s,
                    start + s <= self.data@.len(),
                    self.data@.len() <= usize::MAX,
                    chunk@ == self.data@.subrange(start as int, start + j),
                decreases s - j,
            {
                chunk.push(self.data[start + j]);
                j = j + 1;
                proof {
                    assert(chunk@ =~= self.data@.subrange(start as int, start + j));
                }
            }
            out.push(chunk);
            i = i + 1;
        }
        Some(out)
    }
}

} // verus!
