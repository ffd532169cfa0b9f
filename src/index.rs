//! Value lookup by integer coordinates: bounded arrays, and the constant-extended
//! adapter that makes them total over signed coordinates.
use vstd::prelude::*;
use crate::ndarr::{in_bounds, Layout, VecNdArray};

verus! {

/// The point at position `i` of points stored one column per dimension.
pub open spec fn column_point<A>(columns: Seq<Vec<A>>, i: int) -> Seq<A> {
    Seq::new(columns.len(), |d: int| columns[d]@[i])
}

/// Every column holds `n` samples.
pub open spec fn columns_of_len<A>(columns: Seq<Vec<A>>, n: nat) -> bool {
    forall|d: int| 0 <= d < columns.len() ==> (#[trigger] columns[d])@.len() == n
}

/// An n-dimensional array of values addressed by unsigned coordinates within its extents.
pub trait BoundedIndex<T> {
    spec fn spec_extents(&self) -> Seq<usize>;

    /// The value at an in-bounds coordinate.
    spec fn spec_value(&self, coord: Seq<usize>) -> T;

    /// What the value holder needs to answer lookups.
    spec fn inv(&self) -> bool;


    fn get(&self, coord: &[usize]) -> (r: Option<T>)
        requires
            self.inv(),
        ensures
            r == (if in_bounds(coord@, self.spec_extents()) { Some(self.spec_value(coord@)) } else { None }),
    ;

    fn get_unchecked(&self, coord: &[usize]) -> (r: T)
        requires
            self.inv(),
            in_bounds(coord@, self.spec_extents()),
        ensures
            r == self.spec_value(coord@),
    ;

    fn extents(&self) -> (r: &[usize])
        ensures
            r@ == self.spec_extents(),
    ;

    fn ndim(&self) -> (r: usize)
        ensures
            r == self.spec_extents().len(),
    {
        self.extents().len()
    }

    fn bulk_get_into(&self, coords: &Vec<Vec<usize>>, buf: &mut Vec<Option<T>>)
        requires
            self.inv(),
            old(buf).len() == coords.len(),
        ensures
            final(buf).len() == coords.len(),
            forall|i: int| 0 <= i < coords.len() ==> #[trigger] final(buf)@[i] == (if in_bounds(coords@[i]@, self.spec_extents()) { Some(self.spec_value(coords@[i]@)) } else { None }),
    {
        let mut i: usize = 0;
        while i < coords.len()
            invariant
                self.inv(),
                i <= coords.len(),
                buf.len() == coords.len(),
                forall|k: int| 0 <= k < i ==> #[trigger] buf@[k] == (if in_bounds(coords@[k]@, self.spec_extents()) { Some(self.spec_value(coords@[k]@)) } else { None }),
            decreases coords.len() - i,
        {
            let v = self.get(coords[i].as_slice());
            buf.set(i, v);
            i = i + 1;
        }
    }

    fn bulk_get_into_unchecked(&self, coords: &Vec<Vec<usize>>, buf: &mut Vec<T>)
        requires
            self.inv(),
            old(buf).len() == coords.len(),
            forall|i: int| 0 <= i < coords.len() ==> in_bounds(#[trigger] coords@[i]@, self.spec_extents()),
        ensures
            final(buf).len() == coords.len(),
            forall|i: int| 0 <= i < coords.len() ==> #[trigger] final(buf)@[i] == self.spec_value(coords@[i]@),
    {
        let mut i: usize = 0;
        while i < coords.len()
            invariant
                self.inv(),
                i <= coords.len(),
                buf.len() == coords.len(),
                forall|k: int| 0 <= k < coords.len() ==> in_bounds(#[trigger] coords@[k]@, self.spec_extents()),
                forall|k: int| 0 <= k < i ==> #[trigger] buf@[k] == self.spec_value(coords@[k]@),
            decreases coords.len() - i,
        {
            let v = self.get_unchecked(coords[i].as_slice());
            buf.set(i, v);
            i = i + 1;
        }
    }

    /// Lookups of points given one column per dimension, one sample per entry of `buf`.
    fn column_get_into(&self, columns: &Vec<Vec<usize>>, buf: &mut Vec<Option<T>>)
        requires
            self.inv(),
            columns_of_len(columns@, old(buf).len() as nat),
        ensures
            final(buf).len() == old(buf).len(),
            forall|i: int| 0 <= i < old(buf).len() ==> #[trigger] final(buf)@[i] == (if in_bounds(column_point(columns@, i), self.spec_extents()) { Some(self.spec_value(column_point(columns@, i))) } else { None }),
    {
        let n = buf.len();
        let mut i: usize = 0;
        while i < n
            invariant
                self.inv(),
                i <= n,
                buf.len() == n,
                columns_of_len(columns@, n as nat),
                forall|k: int| 0 <= k < i ==> #[trigger] buf@[k] == (if in_bounds(column_point(columns@, k), self.spec_extents()) { Some(self.spec_value(column_point(columns@, k))) } else { None }),
            decreases n - i,
        {
            let coord = gather_column_point(columns, i);
            let v = self.get(coord.as_slice());
            buf.set(i, v);
            i = i + 1;
        }
    }

    fn column_get_into_unchecked(&self, columns: &Vec<Vec<usize>>, buf: &mut Vec<T>)
        requires
            self.inv(),
            columns_of_len(columns@, old(buf).len() as nat),
            forall|i: int| 0 <= i < old(buf).len() ==> in_bounds(#[trigger] column_point(columns@, i), self.spec_extents()),
        ensures
            final(buf).len() == old(buf).len(),
            forall|i: int| 0 <= i < old(buf).len() ==> #[trigger] final(buf)@[i] == self.spec_value(column_point(columns@, i)),
    {
        let n = buf.len();
        let mut i: usize = 0;
        while i < n
            invariant
                self.inv(),
                i <= n,
                buf.len() == n,
                columns_of_len(columns@, n as nat),
                forall|k: int| 0 <= k < n ==> in_bounds(#[trigger] column_point(columns@, k), self.spec_extents()),
                forall|k: int| 0 <= k < i ==> #[trigger] buf@[k] == self.spec_value(column_point(columns@, k)),
            decreases n - i,
        {
            let coord = gather_column_point(columns, i);
            let v = self.get_unchecked(coord.as_slice());
            buf.set(i, v);
            i = i + 1;
        }
    }
}

/// The point at sample `i` of columnar coordinates.
pub fn gather_column_point<A: Copy>(columns: &Vec<Vec<A>>, i: usize) -> (r: Vec<A>)
    requires
        forall|d: int| 0 <= d < columns.len() ==> i < (#[trigger] columns@[d])@.len(),
    ensures
        r@ == column_point(columns@, i as int),
{
    let mut r: Vec<A> = Vec::with_capacity(columns.len());
    let mut d: usize = 0;
    while d < columns.len()
        invariant
            d <= columns.len(),
            forall|e: int| 0 <= e < columns.len() ==> i < (#[trigger] columns@[e])@.len(),
            r@ == column_point(columns@, i as int).subrange(0, d as int),
        decreases columns.len() - d,
    {
        r.push(columns[d][i]);
        d = d + 1;
        proof {
            assert(r@ =~= column_point(columns@, i as int).subrange(0, d as int));
        }
    }
    proof {
        assert(r@ =~= column_point(columns@, i as int));
    }
    r
}

impl<T: Copy, L: Layout> BoundedIndex<T> for VecNdArray<T, L> {
    open spec fn spec_extents(&self) -> Seq<usize> {
        self.spec_layout().spec_shape()
    }

    open spec fn spec_value(&self, coord: Seq<usize>) -> T {
        self.spec_data()[self.spec_layout().spec_offset(coord) as int]
    }

    open spec fn inv(&self) -> bool {
        self.wf()
    }

    fn get(&self, coord: &[usize]) -> (r: Option<T>) {
        match self.layout().linear_idx(coord) {
            Some(idx) => Some(*self.data_at(idx)),
            None => None,
        }
    }

    fn get_unchecked(&self, coord: &[usize]) -> (r: T) {
        let idx = self.layout().linear_idx(coord);
        *self.data_at(idx.unwrap())
    }

    fn extents(&self) -> (r: &[usize]) {
        self.layout().shape()
    }
}


/// Whether each signed coordinate lies in `0..extent` of its dimension.
pub open spec fn signed_in_bounds(coord: Seq<isize>, extents: Seq<usize>) -> bool {
    &&& coord.len() == extents.len()
    &&& forall|k: int| 0 <= k < coord.len() ==> 0 <= #[trigger] coord[k] < extents[k]
}

/// The coordinate read as unsigned, element by element.
pub open spec fn to_unsigned(coord: Seq<isize>) -> Seq<usize> {
    Seq::new(coord.len(), |k: int| coord[k] as usize)
}

/// An n-dimensional array of values that answers every signed coordinate.
pub trait UnboundedIndex<T> {
    spec fn spec_ndim(&self) -> nat;

    spec fn spec_value(&self, coord: Seq<isize>) -> T;

    spec fn inv(&self) -> bool;

    fn get(&self, coord: &[isize]) -> (r: T)
        requires
            self.inv(),
            coord@.len() == self.spec_ndim(),
        ensures
            r == self.spec_value(coord@),
    ;

    fn ndim(&self) -> (r: usize)
        ensures
            r == self.spec_ndim(),
    ;

    fn bulk_get_into(&self, coords: &Vec<Vec<isize>>, buf: &mut Vec<T>)
        requires
            self.inv(),
            old(buf).len() == coords.len(),
            forall|i: int| 0 <= i < coords.len() ==> (#[trigger] coords@[i])@.len() == self.spec_ndim(),
        ensures
            final(buf).len() == coords.len(),
            forall|i: int| 0 <= i < coords.len() ==> #[trigger] final(buf)@[i] == self.spec_value(coords@[i]@),
    {
        let mut i: usize = 0;
        while i < coords.len()
            invariant
                self.inv(),
                i <= coords.len(),
                buf.len() == coords.len(),
                forall|k: int| 0 <= k < coords.len() ==> (#[trigger] coords@[k])@.len() == self.spec_ndim(),
                forall|k: int| 0 <= k < i ==> #[trigger] buf@[k] == self.spec_value(coords@[k]@),
            decreases coords.len() - i,
        {
            let v = self.get(coords[i].as_slice());
            buf.set(i, v);
            i = i + 1;
        }
    }

    fn column_get_into(&self, columns: &Vec<Vec<isize>>, buf: &mut Vec<T>)
        requires
            self.inv(),
            columns.len() == self.spec_ndim(),
            columns_of_len(columns@, old(buf).len() as nat),
        ensures
            final(buf).len() == old(buf).len(),
            forall|i: int| 0 <= i < old(buf).len() ==> #[trigger] final(buf)@[i] == self.spec_value(column_point(columns@, i)),
    {
        let n = buf.len();
        let mut i: usize = 0;
        while i < n
            invariant
                self.inv(),
                i <= n,
                buf.len() == n,
                columns.len() == self.spec_ndim(),
                columns_of_len(columns@, n as nat),
                forall|k: int| 0 <= k < i ==> #[trigger] buf@[k] == self.spec_value(column_point(columns@, k)),
            decreases n - i,
        {
            let coord = gather_column_point(columns, i);
            let v = self.get(coord.as_slice());
            buf.set(i, v);
            i = i + 1;
        }
    }
}

/// The unsigned form of `c` where it lies in `0..max`.
pub fn unbound_to_bound_elem(c: isize, max: usize) -> (r: Option<usize>)
    ensures
        r is Some <==> 0 <= c < max,
        r is Some ==> r->0 == c as usize,
{
    if c < 0 || c as usize >= max {
        return None;
    }
    Some(c as usize)
}

/// Writes the unsigned form of `coord` into `buf` and says whether it lies within `extents`.
pub fn unbound_to_bound_coord(coord: &[isize], extents: &[usize], buf: &mut Vec<usize>) -> (r: bool)
    requires
        coord.len() == extents.len(),
        old(buf).len() == coord.len(),
    ensures
        final(buf).len() == coord.len(),
        r == signed_in_bounds(coord@, extents@),
        r ==> final(buf)@ == to_unsigned(coord@),
{
    let mut k: usize = 0;
    while k < coord.len()
        invariant
            k <= coord.len(),
            coord.len() == extents.len(),
            buf.len() == coord.len(),
            forall|j: int| 0 <= j < k ==> 0 <= #[trigger] coord@[j] < extents@[j],
            forall|j: int| 0 <= j < k ==> #[trigger] buf@[j] == coord@[j] as usize,
        decreases coord.len() - k,
    {
        match unbound_to_bound_elem(coord[k], extents[k]) {
            Some(c) => buf.set(k, c),
            None => return false,
        }
        k = k + 1;
    }
    proof {
        assert(buf@ =~= to_unsigned(coord@));
    }
    true
}

/// Lifts a bounded index to every signed coordinate: outside the extents it gives
/// a fixed value.
pub struct Const<T: Copy, A: BoundedIndex<T>> {
    constant: T,
    bounded: A,
    extents: Vec<usize>,
}

impl<T: Copy, A: BoundedIndex<T>> Const<T, A> {
    pub closed spec fn spec_constant(&self) -> T {
        self.constant
    }

    pub closed spec fn spec_inner(&self) -> A {
        self.bounded
    }

    pub fn new(bounded: A, constant: T) -> (r: Self)
        ensures
            r.spec_inner() == bounded,
            r.spec_constant() == constant,
            r.inv() <== bounded.inv(),
    {
        let extents = crate::buffers::slice_to_vec(bounded.extents());
        Const { bounded, constant, extents }
    }
}

impl<T: Copy, A: BoundedIndex<T>> UnboundedIndex<T> for Const<T, A> {
    open spec fn spec_ndim(&self) -> nat {
        self.spec_inner().spec_extents().len()
    }

    open spec fn spec_value(&self, coord: Seq<isize>) -> T {
        if signed_in_bounds(coord, self.spec_inner().spec_extents()) {
            self.spec_inner().spec_value(to_unsigned(coord))
        } else {
            self.spec_constant()
        }
    }

    closed spec fn inv(&self) -> bool {
        &&& self.bounded.inv()
        &&& self.extents@ == self.bounded.spec_extents()
    }

    fn get(&self, coord: &[isize]) -> (r: T) {
        let mut new_coord = crate::buffers::filled(coord.len(), usize::MAX);
        if unbound_to_bound_coord(coord, self.extents.as_slice(), &mut new_coord) {
            proof {
                assert(in_bounds(new_coord@, self.bounded.spec_extents()));
            }
            self.bounded.get_unchecked(new_coord.as_slice())
        } else {
            self.constant
        }
    }

    fn ndim(&self) -> (r: usize) {
        self.bounded.ndim()
    }

    fn bulk_get_into(&self, coords: &Vec<Vec<isize>>, buf: &mut Vec<T>) {
        let mut new_coords: Vec<Vec<usize>> = Vec::with_capacity(coords.len());
        let mut indices: Vec<usize> = Vec::with_capacity(coords.len());
        let mut idx: usize = 0;
        while idx < coords.len()
            invariant
                self.inv(),
                idx <= coords.len(),
                buf.len() == coords.len(),
                forall|k: int| 0 <= k < coords.len() ==> (#[trigger] coords@[k])@.len() == self.spec_ndim(),
                new_coords.len() == indices.len(),
                forall|p: int| 0 <= p < indices.len() ==> {
                    &&& #[trigger] indices@[p] < idx
                    &&& signed_in_bounds(coords@[indices@[p] as int]@, self.extents@)
                    &&& new_coords@[p]@ == to_unsigned(coords@[indices@[p] as int]@)
                },
                forall|p: int, q: int| 0 <= p < q < indices.len() ==> #[trigger] indices@[p] < #[trigger] indices@[q],
                forall|j: int| 0 <= j < idx && signed_in_bounds(#[trigger] coords@[j]@, self.extents@)
                    ==> exists|p: int| 0 <= p < indices.len() && indices@[p] == j,
                forall|j: int| 0 <= j < idx && !signed_in_bounds(#[trigger] coords@[j]@, self.extents@)
                    ==> buf@[j] == self.constant,
            decreases coords.len() - idx,
        {
            let coord = coords[idx].as_slice();
            let mut new_coord = crate::buffers::filled(coord.len(), usize::MAX);
            let ghost old_ind = indices@;
            if unbound_to_bound_coord(coord, self.extents.as_slice(), &mut new_coord) {
                new_coords.push(new_coord);
                indices.push(idx);
                proof {
                    assert(indices@[indices.len() - 1] == idx);
                    assert forall|j: int| 0 <= j <= idx && signed_in_bounds(#[trigger] coords@[j]@, self.extents@)
                        implies exists|p: int| 0 <= p < indices.len() && indices@[p] == j by {
                        if j < idx {
                            let p = choose|p: int| 0 <= p < old_ind.len() && old_ind[p] == j;
                            assert(indices@[p] == j);
                        } else {
                            assert(indices@[indices.len() - 1] == j);
                        }
                    }
                }
            } else {
                buf.set(idx, self.constant);
            }
            idx = idx + 1;
        }
        if new_coords.len() == 0 {
            return;
        }
        let mut out_buf = crate::buffers::filled(new_coords.len(), self.constant);
        proof {
            assert forall|p: int| 0 <= p < new_coords.len() implies in_bounds(
                #[trigger] new_coords@[p]@,
                self.bounded.spec_extents(),
            ) by {
                assert(indices@[p] < coords.len());
            }
        }
        self.bounded.bulk_get_into_unchecked(&new_coords, &mut out_buf);
        let ghost before = buf@;
        let mut p: usize = 0;
        while p < indices.len()
            invariant
                p <= indices.len(),
                buf.len() == coords.len(),
                out_buf.len() == indices.len(),
                new_coords.len() == indices.len(),
                forall|q: int| 0 <= q < indices.len() ==> #[trigger] indices@[q] < coords.len(),
                forall|q: int, t: int| 0 <= q < t < indices.len() ==> #[trigger] indices@[q] < #[trigger] indices@[t],
                forall|q: int| 0 <= q < p ==> buf@[#[trigger] indices@[q] as int] == out_buf@[q],
                forall|j: int| 0 <= j < coords.len() && (forall|q: int| 0 <= q < p ==> #[trigger] indices@[q] != j)
                    ==> buf@[j] == before[j],
                before.len() == coords.len(),
            decreases indices.len() - p,
        {
            buf.set(indices[p], out_buf[p]);
            p = p + 1;
        }
        proof {
            assert forall|j: int| 0 <= j < coords.len() implies #[trigger] buf@[j] == self.spec_value(coords@[j]@) by {
                if signed_in_bounds(coords@[j]@, self.extents@) {
                    let q = choose|q: int| 0 <= q < indices.len() && indices@[q] == j;
                    assert(buf@[indices@[q] as int] == out_buf@[q]);
                } else {
                    assert forall|q: int| 0 <= q < indices.len() implies #[trigger] indices@[q] != j by {}
                }
            }
        }
    }

    fn column_get_into(&self, columns: &Vec<Vec<isize>>, buf: &mut Vec<T>) {
        let n = buf.len();
        let ndim = columns.len();
        // the samples within the extents, in order
        let mut indices: Vec<usize> = Vec::with_capacity(n);
        let mut idx: usize = 0;
        while idx < n
            invariant
                self.inv(),
                idx <= n,
                buf.len() == n,
                ndim == columns.len(),
                columns.len() == self.spec_ndim(),
                columns_of_len(columns@, n as nat),
                forall|p: int| 0 <= p < indices.len() ==> {
                    &&& #[trigger] indices@[p] < idx
                    &&& signed_in_bounds(column_point(columns@, indices@[p] as int), self.extents@)
                },
                forall|p: int, q: int| 0 <= p < q < indices.len() ==> #[trigger] indices@[p] < #[trigger] indices@[q],
                forall|j: int| 0 <= j < idx && signed_in_bounds(#[trigger] column_point(columns@, j), self.extents@)
                    ==> exists|p: int| 0 <= p < indices.len() && indices@[p] == j,
                forall|j: int| 0 <= j < idx && !signed_in_bounds(#[trigger] column_point(columns@, j), self.extents@)
                    ==> buf@[j] == self.constant,
            decreases n - idx,
        {
            let coord = gather_column_point(columns, idx);
            let mut new_coord = crate::buffers::filled(ndim, usize::MAX);
            let ghost old_ind = indices@;
            if unbound_to_bound_coord(coord.as_slice(), self.extents.as_slice(), &mut new_coord) {
                indices.push(idx);
                proof {
                    assert(indices@[indices.len() - 1] == idx);
                    assert forall|j: int| 0 <= j <= idx && signed_in_bounds(#[trigger] column_point(columns@, j), self.extents@)
                        implies exists|p: int| 0 <= p < indices.len() && indices@[p] == j by {
                        if j < idx {
                            let p = choose|p: int| 0 <= p < old_ind.len() && old_ind[p] == j;
                            assert(indices@[p] == j);
                        } else {
                            assert(indices@[indices.len() - 1] == j);
                        }
                    }
                }
            } else {
                buf.set(idx, self.constant);
            }
            idx = idx + 1;
        }
        let m = indices.len();
        if m == 0 {
            return;
        }
        // the in-bounds samples, column by column, as unsigned coordinates
        let mut new_cols: Vec<Vec<usize>> = Vec::with_capacity(ndim);
        let mut d: usize = 0;
        while d < ndim
            invariant
                d <= ndim,
                ndim == columns.len(),
                columns_of_len(columns@, n as nat),
                m == indices.len(),
                forall|p: int| 0 <= p < m ==> #[trigger] indices@[p] < n,
                new_cols.len() == d,
                forall|e: int| 0 <= e < d ==> (#[trigger] new_cols@[e])@.len() == m,
                forall|e: int, p: int| 0 <= e < d && 0 <= p < m ==> #[trigger] new_cols@[e]@[p]
                    == columns@[e]@[indices@[p] as int] as usize,
            decreases ndim - d,
        {
            let mut col: Vec<usize> = Vec::with_capacity(m);
            let mut p: usize = 0;
            while p < m
                invariant
                    p <= m,
                    d < ndim,
                    ndim == columns.len(),
                    columns_of_len(columns@, n as nat),
                    m == indices.len(),
                    forall|q: int| 0 <= q < m ==> #[trigger] indices@[q] < n,
                    col@.len() == p,
                    forall|q: int| 0 <= q < p ==> #[trigger] col@[q] == columns@[d as int]@[indices@[q] as int] as usize,
                decreases m - p,
            {
                col.push(columns[d][indices[p]] as usize);
                p = p + 1;
            }
            new_cols.push(col);
            d = d + 1;
        }
        proof {
            assert forall|p: int| 0 <= p < m implies #[trigger] column_point(new_cols@, p) == to_unsigned(
                column_point(columns@, indices@[p] as int),
            ) by {
                assert(column_point(new_cols@, p) =~= to_unsigned(column_point(columns@, indices@[p] as int)));
            }
            assert forall|p: int| 0 <= p < m implies in_bounds(
                #[trigger] column_point(new_cols@, p),
                self.bounded.spec_extents(),
            ) by {
                let c = column_point(columns@, indices@[p] as int);
                assert(signed_in_bounds(c, self.extents@));
                assert(column_point(new_cols@, p) == to_unsigned(c));
            }
        }
        let mut inner_buf = crate::buffers::filled(m, self.constant);
        self.bounded.column_get_into_unchecked(&new_cols, &mut inner_buf);
        let ghost before = buf@;
        let mut p: usize = 0;
        while p < m
            invariant
                p <= m,
                m == indices.len(),
                buf.len() == n,
                before.len() == n,
                inner_buf.len() == m,
                forall|q: int| 0 <= q < m ==> #[trigger] indices@[q] < n,
                forall|q: int, t: int| 0 <= q < t < m ==> #[trigger] indices@[q] < #[trigger] indices@[t],
                forall|q: int| 0 <= q < p ==> buf@[#[trigger] indices@[q] as int] == inner_buf@[q],
                forall|j: int| 0 <= j < n && (forall|q: int| 0 <= q < p ==> #[trigger] indices@[q] != j)
                    ==> buf@[j] == before[j],
            decreases m - p,
        {
            buf.set(indices[p], inner_buf[p]);
            p = p + 1;
        }
        proof {
            assert forall|j: int| 0 <= j < n implies #[trigger] buf@[j] == self.spec_value(column_point(columns@, j)) by {
                if signed_in_bounds(column_point(columns@, j), self.extents@) {
                    let q = choose|q: int| 0 <= q < indices.len() && indices@[q] == j;
                    assert(buf@[indices@[q] as int] == inner_buf@[q]);
                    assert(column_point(new_cols@, q) == to_unsigned(column_point(columns@, j)));
                } else {
                    assert forall|q: int| 0 <= q < indices.len() implies #[trigger] indices@[q] != j by {}
                }
            }
        }
    }
}

/// Reads real coordinates by rounding them to the nearest integer, ties to even,
/// and asking an unbounded index.
pub struct NearestNeighbour<T, U: UnboundedIndex<T>> {
    unbounded: U,
    _t: core::marker::PhantomData<T>,
}

impl<T, U: UnboundedIndex<T>> NearestNeighbour<T, U> {
    pub closed spec fn spec_inner(&self) -> U {
        self.unbounded
    }

    pub fn new(unbounded: U) -> (r: Self)
        ensures
            r.spec_inner() == unbounded,
    {
        NearestNeighbour { unbounded, _t: core::marker::PhantomData }
    }

    pub fn inner(&self) -> (r: &U)
        ensures
            *r == self.spec_inner(),
    {
        &self.unbounded
    }

    pub fn ndim(&self) -> (r: usize)
        ensures
            r == self.spec_inner().spec_ndim(),
    {
        self.unbounded.ndim()
    }
}

} // verus!
