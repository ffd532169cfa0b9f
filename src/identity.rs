//! The identity transformation of one dimensionality.
use vstd::prelude::*;

verus! {

/// A transformation that hands every point back unchanged.
#[derive(Debug, Default, Clone, Copy, PartialEq, Eq)]
pub struct Identity(pub usize);

impl Identity {
    pub fn new(ndim: usize) -> (r: Self)
        ensures
            r.0 == ndim,
    {
        Identity(ndim)
    }

    pub fn input_ndim(&self) -> (r: usize)
        ensures
            r == self.0,
    {
        self.0
    }

    pub fn output_ndim(&self) -> (r: usize)
        ensures
            r == self.0,
    {
        self.0
    }

    pub fn is_identity(&self) -> (r: bool)
        ensures
            r,
    {
        true
    }

    /// The inverse: the same identity.
    pub fn invert(&self) -> (r: Option<Identity>)
        ensures
            r == Some(*self),
    {
        Some(*self)
    }

    /// Copies `pt` into `buf`.
    pub fn transform_into<T: Copy>(&self, pt: &[T], buf: &mut Vec<T>)
        requires
            pt@.len() == self.0,
            old(buf)@.len() == self.0,
        ensures
            final(buf)@ == pt@,
    {
        let mut i: usize = 0;
        while i < pt.len()
            invariant
                i <= pt.len(),
                buf@.len() == pt@.len(),
                forall|k: int| 0 <= k < i ==> #[trigger] buf@[k] == pt@[k],
            decreases pt.len() - i,
        {
            buf.set(i, pt[i]);
            i = i + 1;
        }
        proof {
            assert(buf@ =~= pt@);
        }
    }

    /// Copies every point of `pts` into the buffer at the same position.
    pub fn bulk_transform_into<T: Copy>(&self, pts: &Vec<Vec<T>>, bufs: &mut Vec<Vec<T>>)
        requires
            old(bufs).len() == pts.len(),
            forall|i: int| 0 <= i < pts.len() ==> (#[trigger] pts@[i])@.len() == self.0,
        ensures
            final(bufs).len() == pts.len(),
            forall|i: int| 0 <= i < pts.len() ==> (#[trigger] final(bufs)@[i])@ == pts@[i]@,
    {
        let mut i: usize = 0;
        while i < pts.len()
            invariant
                i <= pts.len(),
                bufs.len() == pts.len(),
                forall|k: int| 0 <= k < pts.len() ==> (#[trigger] pts@[k])@.len() == self.0,
                forall|k: int| 0 <= k < i ==> (#[trigger] bufs@[k])@ == pts@[k]@,
            decreases pts.len() - i,
        {
            let mut out = crate::buffers::slice_to_vec(pts[i].as_slice());
            self.transform_into(pts[i].as_slice(), &mut out);
            bufs.set(i, out);
            i = i + 1;
        }
    }

    /// Copies every column of `columns` into the output column at the same position.
    pub fn column_transform_into<T: Copy>(&self, columns: &Vec<Vec<T>>, bufs: &mut Vec<Vec<T>>)
        requires
            columns.len() == self.0,
            old(bufs).len() == self.0,
        ensures
            final(bufs).len() == columns.len(),
            forall|d: int| 0 <= d < columns.len() ==> (#[trigger] final(bufs)@[d])@ == columns@[d]@,
    {
        let mut d: usize = 0;
        while d < columns.len()
            invariant
                d <= columns.len(),
                bufs.len() == columns.len(),
                forall|k: int| 0 <= k < d ==> (#[trigger] bufs@[k])@ == columns@[k]@,
            decreases columns.len() - d,
        {
            bufs.set(d, crate::buffers::slice_to_vec(columns[d].as_slice()));
            d = d + 1;
        }
    }
}

} // verus!
