//! Axis permutation.
use vstd::prelude::*;
use vstd::set_lib::{lemma_int_range, lemma_len_subset, lemma_subset_equality, set_int_range};

verus! {

/// `map` sends each of `0..map.len()` to a distinct position in that range.
pub open spec fn is_permutation(map: Seq<usize>) -> bool {
    &&& forall|i: int| 0 <= i < map.len() ==> #[trigger] map[i] < map.len()
    &&& forall|i: int, j: int| 0 <= i < j < map.len() ==> #[trigger] map[i] != #[trigger] map[j]
}

/// Output coordinate `i` is input coordinate `map[i]`.
pub open spec fn permute<T>(map: Seq<usize>, pt: Seq<T>) -> Seq<T> {
    Seq::new(map.len(), |i: int| pt[map[i] as int])
}

/// `inv` undoes `map`.
pub open spec fn is_inverse_of(inv: Seq<usize>, map: Seq<usize>) -> bool {
    &&& inv.len() == map.len()
    &&& forall|i: int| 0 <= i < map.len() ==> #[trigger] inv[map[i] as int] == i
}

/// Every position is the image of some index under a permutation.
pub proof fn lemma_permutation_onto(map: Seq<usize>, k: int)
    requires
        is_permutation(map),
        0 <= k < map.len(),
    ensures
        exists|i: int| 0 <= i < map.len() && map[i] == k,
{
    let n = map.len() as int;
    let ints = map.map_values(|x: usize| x as int);
    assert(ints.no_duplicates()) by {
        assert forall|i: int, j: int| 0 <= i < ints.len() && 0 <= j < ints.len() && i != j
            implies ints[i] != ints[j] by {
            if i < j {
                assert(map[i] != map[j]);
            } else {
                assert(map[j] != map[i]);
            }
        }
    }
    ints.unique_seq_to_set();
    lemma_int_range(0, n);
    let image = ints.to_set();
    assert(image.subset_of(set_int_range(0, n))) by {
        assert forall|x: int| image.contains(x) implies set_int_range(0, n).contains(x) by {
            let i = choose|i: int| 0 <= i < ints.len() && ints[i] == x;
            assert(map[i] < n);
        }
    }
    lemma_len_subset(image, set_int_range(0, n));
    lemma_subset_equality(image, set_int_range(0, n));
    assert(image.contains(k));
    let i = choose|i: int| 0 <= i < ints.len() && ints[i] == k;
    assert(map[i] == k);
}

/// Why a map of axes was refused.
#[derive(Debug, Clone, Copy, PartialEq, Eq)]
pub enum MapAxisError {
    /// Two output dimensions read the same input dimension.
    RepeatedAxis,
    /// Some output dimension is not one of the map's positions.
    MissingAxis,
}

/// Permute axes of the input point: index `i` of the output is `p[m[i]]`.
#[derive(Debug, Clone)]
pub struct MapAxis {
    map: Vec<usize>,
}

/// Whether two entries of `map` are equal.
pub open spec fn has_repeat(map: Seq<usize>) -> bool {
    exists|i: int, j: int| 0 <= i < j < map.len() && #[trigger] map[i] == #[trigger] map[j]
}

impl MapAxis {
    pub closed spec fn spec_map(&self) -> Seq<usize> {
        self.map@
    }

    pub open spec fn wf(&self) -> bool {
        is_permutation(self.spec_map())
    }

    /// Fails with `RepeatedAxis` where two entries are equal, else with
    /// `MissingAxis` where an entry is out of range.
    pub fn try_new(map: &[usize]) -> (r: Result<Self, MapAxisError>)
        ensures
            r is Ok <==> is_permutation(map@),
            r is Ok ==> r->Ok_0.spec_map() == map@,
            r == Err::<Self, _>(MapAxisError::RepeatedAxis) <==> has_repeat(map@),
            r == Err::<Self, _>(MapAxisError::MissingAxis) <==> !has_repeat(map@) && !is_permutation(map@),
    {
        let n = map.len();
        let mut i: usize = 0;
        while i < n
            invariant
                i <= n,
                n == map@.len(),
                forall|a: int, b: int| 0 <= a < b < n && a < i ==> #[trigger] map@[a] != #[trigger] map@[b],
            decreases n - i,
        {
            let mut j: usize = i + 1;
            while j < n
                invariant
                    i < j <= n,
                    n == map@.len(),
                    forall|a: int, b: int| 0 <= a < b < n && a < i ==> #[trigger] map@[a] != #[trigger] map@[b],
                    forall|b: int| i < b < j ==> map@[i as int] != #[trigger] map@[b],
                decreases n - j,
            {
                if map[i] == map[j] {
                    return Err(MapAxisError::RepeatedAxis);
                }
                j = j + 1;
            }
            i = i + 1;
        }
        assert(!has_repeat(map@)) by {
            assert forall|a: int, b: int| 0 <= a < b < n implies #[trigger] map@[a] != #[trigger] map@[b] by {}
        }
        let mut k: usize = 0;
        while k < n
            invariant
                k <= n,
                n == map@.len(),
                !has_repeat(map@),
                forall|a: int| 0 <= a < k ==> #[trigger] map@[a] < n,
            decreases n - k,
        {
            if map[k] >= n {
                return Err(MapAxisError::MissingAxis);
            }
            k = k + 1;
        }
        Ok(MapAxis { map: crate::buffers::slice_to_vec(map) })
    }

    pub fn map(&self) -> (r: &[usize])
        ensures
            r@ == self.spec_map(),
    {
        self.map.as_slice()
    }

    pub fn input_ndim(&self) -> (r: usize)
        ensures
            r == self.spec_map().len(),
    {
        self.map.len()
    }

    pub fn output_ndim(&self) -> (r: usize)
        ensures
            r == self.spec_map().len(),
    {
        self.map.len()
    }

    /// True exactly when every axis maps to itself.
    pub fn is_identity(&self) -> (r: bool)
        ensures
            r <==> forall|i: int| 0 <= i < self.spec_map().len() ==> #[trigger] self.spec_map()[i] == i,
    {
        let mut i: usize = 0;
        while i < self.map.len()
            invariant
                i <= self.map.len(),
                forall|k: int| 0 <= k < i ==> #[trigger] self.map@[k] == k,
            decreases self.map.len() - i,
        {
            if self.map[i] != i {
                assert(self.spec_map()[i as int] != i);
                return false;
            }
            i = i + 1;
        }
        true
    }

    /// The inverse permutation.
    pub fn invert(&self) -> (r: Option<MapAxis>)
        requires
            self.wf(),
        ensures
            r is Some,
            r->0.wf(),
            is_inverse_of(r->0.spec_map(), self.spec_map()),
    {
        let n = self.map.len();
        let mut inv = crate::buffers::filled(n, 0usize);
        let mut i: usize = 0;
        while i < n
            invariant
                i <= n,
                n == self.map@.len(),
                is_permutation(self.map@),
                inv@.len() == n,
                forall|k: int| 0 <= k < i ==> #[trigger] inv@[self.map@[k] as int] == k,
                forall|k: int| 0 <= k < n ==> #[trigger] inv@[k] < n || n == 0,
            decreases n - i,
        {
            let ghost prev = inv@;
            inv.set(self.map[i], i);
            proof {
                assert forall|k: int| 0 <= k < i + 1 implies #[trigger] inv@[self.map@[k] as int] == k by {
                    if k < i {
                        assert(self.map@[k] != self.map@[i as int]);
                    }
                }
            }
            i = i + 1;
        }
        proof {
            assert forall|a: int, b: int| 0 <= a < b < n implies #[trigger] inv@[a] != #[trigger] inv@[b] by {
                lemma_permutation_onto(self.map@, a);
                lemma_permutation_onto(self.map@, b);
                let ia = choose|i: int| 0 <= i < n && self.map@[i] == a;
                let ib = choose|i: int| 0 <= i < n && self.map@[i] == b;
                assert(inv@[self.map@[ia] as int] == ia);
                assert(inv@[self.map@[ib] as int] == ib);
            }
        }
        Some(MapAxis { map: inv })
    }

    /// Writes `pt[m[i]]` to `buf[i]` for each output axis `i`.
    pub fn transform_into<T: Copy>(&self, pt: &[T], buf: &mut Vec<T>)
        requires
            self.wf(),
            pt@.len() == self.spec_map().len(),
            old(buf)@.len() == self.spec_map().len(),
        ensures
            final(buf)@ == permute(self.spec_map(), pt@),
    {
        let n = self.map.len();
        let mut i: usize = 0;
        while i < n
            invariant
                i <= n,
                n == self.map@.len(),
                is_permutation(self.map@),
                pt@.len() == n,
                buf@.len() == n,
                forall|k: int| 0 <= k < i ==> #[trigger] buf@[k] == pt@[self.map@[k] as int],
            decreases n - i,
        {
            buf.set(i, pt[self.map[i]]);
            i = i + 1;
        }
        proof {
            assert(buf@ =~= permute(self.map@, pt@));
        }
    }

    /// The point form applied to each point of `pts`.
    pub fn bulk_transform_into<T: Copy>(&self, pts: &Vec<Vec<T>>, bufs: &mut Vec<Vec<T>>)
        requires
            self.wf(),
            old(bufs).len() == pts.len(),
            forall|i: int| 0 <= i < pts.len() ==> (#[trigger] pts@[i])@.len() == self.spec_map().len(),
        ensures
            final(bufs).len() == pts.len(),
            forall|i: int| 0 <= i < pts.len() ==> (#[trigger] final(bufs)@[i])@ == permute(
                self.spec_map(),
                pts@[i]@,
            ),
    {
        let mut i: usize = 0;
        while i < pts.len()
            invariant
                self.wf(),
                i <= pts.len(),
                bufs.len() == pts.len(),
                forall|k: int| 0 <= k < pts.len() ==> (#[trigger] pts@[k])@.len() == self.spec_map().len(),
                forall|k: int| 0 <= k < i ==> (#[trigger] bufs@[k])@ == permute(self.spec_map(), pts@[k]@),
            decreases pts.len() - i,
        {
            let mut out = crate::buffers::slice_to_vec(pts[i].as_slice());
            self.transform_into(pts[i].as_slice(), &mut out);
            bufs.set(i, out);
            i = i + 1;
        }
    }

    /// Output column `i` becomes a copy of input column `m[i]`.
    pub fn column_transform_into<T: Copy>(&self, columns: &Vec<Vec<T>>, bufs: &mut Vec<Vec<T>>)
        requires
            self.wf(),
            columns.len() == self.spec_map().len(),
            old(bufs).len() == self.spec_map().len(),
        ensures
            final(bufs).len() == columns.len(),
            forall|d: int| 0 <= d < columns.len() ==> (#[trigger] final(bufs)@[d])@
                == columns@[self.spec_map()[d] as int]@,
    {
        let n = self.map.len();
        let mut d: usize = 0;
        while d < n
            invariant
                d <= n,
                n == self.map@.len(),
                is_permutation(self.map@),
                columns.len() == n,
                bufs.len() == n,
                forall|k: int| 0 <= k < d ==> (#[trigger] bufs@[k])@ == columns@[self.map@[k] as int]@,
            decreases n - d,
        {
            bufs.set(d, crate::buffers::slice_to_vec(columns[self.map[d]].as_slice()));
            d = d + 1;
        }
    }
}

/// Permuting by a map and then by its inverse gives back the point.
pub proof fn lemma_map_axis_round_trip<T>(map: Seq<usize>, inv: Seq<usize>, pt: Seq<T>)
    requires
        is_permutation(map),
        is_inverse_of(inv, map),
        pt.len() == map.len(),
    ensures
        permute(inv, permute(map, pt)) == pt,
{
    assert forall|k: int| 0 <= k < pt.len() implies #[trigger] permute(inv, permute(map, pt))[k] == pt[k] by {
        lemma_permutation_onto(map, k);
        let i = choose|i: int| 0 <= i < map.len() && map[i] == k;
        assert(inv[map[i] as int] == i);
    }
    assert(permute(inv, permute(map, pt)) =~= pt);
}

} // verus!
