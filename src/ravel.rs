//! A flat buffer cut into equal chunks.
use vstd::prelude::*;

verus! {

/// Equal-length chunks stored back to back in one `Vec`.
#[derive(Debug, Clone)]
pub struct Ravelled<T> {
    data: Vec<T>,
    chunk_size: usize,
}

/// The `i`-th chunk of `data`, for chunks of `size` elements.
pub open spec fn chunk_of<T>(data: Seq<T>, size: nat, i: int) -> Seq<T> {
    data.subrange(i * size, i * size + size)
}

impl<T> Ravelled<T> {
    pub closed spec fn spec_data(&self) -> Seq<T> {
        self.data@
    }

    pub closed spec fn spec_chunk_size(&self) -> nat {
        self.chunk_size as nat
    }

    /// The data is a whole number of chunks.
    pub open spec fn wf(&self) -> bool {
        self.spec_chunk_size() == 0 ==> self.spec_data().len() == 0
            && (self.spec_chunk_size() > 0 ==> self.spec_data().len() % self.spec_chunk_size() == 0)
    }

    pub open spec fn spec_n_chunks(&self) -> nat {
        if self.spec_chunk_size() == 0 {
            0
        } else {
            self.spec_data().len() / self.spec_chunk_size()
        }
    }

    pub fn new_data(chunk_size: usize, data: Vec<T>) -> (r: Result<Self, String>)
        ensures
            r is Ok <==> (if chunk_size == 0 {
                data@.len() == 0
            } else {
                data@.len() % (chunk_size as nat) == 0
            }),
            r is Ok ==> r->Ok_0.spec_data() == data@ && r->Ok_0.spec_chunk_size() == chunk_size,
    {
        let ok = if chunk_size == 0 {
            data.len() == 0
        } else {
            data.len() % chunk_size == 0
        };
        if !ok {
            return Err("data vec is not a multiple of chunk size".to_owned());
        }
        Ok(Ravelled { data, chunk_size })
    }

    pub fn chunk_size(&self) -> (r: usize)
        ensures
            r == self.spec_chunk_size(),
    {
        self.chunk_size
    }

    pub fn data(&self) -> (r: &Vec<T>)
        ensures
            r@ == self.spec_data(),
    {
        &self.data
    }

    pub fn into_data(self) -> (r: Vec<T>)
        ensures
            r@ == self.spec_data(),
    {
        self.data
    }
}

impl<T: Copy> Ravelled<T> {
    pub fn new_full(chunk_size: usize, n_chunks: usize, fill: T) -> (r: Self)
        requires
            chunk_size * n_chunks <= usize::MAX,
        ensures
            r.spec_chunk_size() == chunk_size,
            r.spec_data() == Seq::new((chunk_size * n_chunks) as nat, |_i: int| fill),
    {
        Ravelled { data: crate::buffers::filled(chunk_size * n_chunks, fill), chunk_size }
    }

    /// Copies of the chunks, in order.
    pub fn chunks(&self) -> (r: Vec<Vec<T>>)
        requires
            self.spec_chunk_size() > 0,
        ensures
            r.len() == self.spec_data().len() / self.spec_chunk_size(),
            forall|i: int| 0 <= i < r.len() ==> (#[trigger] r@[i])@ == chunk_of(
                self.spec_data(),
                self.spec_chunk_size(),
                i,
            ),
    {
        let s = self.chunk_size;
        let n = self.data.len() / s;
        let total_len = self.data.len();
        proof {
            let (ni, si, ti) = (n as int, s as int, total_len as int);
            assert(ni * si <= ti) by (nonlinear_arith)
                requires
                    ni == ti / si,
                    si > 0,
                    ti >= 0,
            ;
        }
        let mut out: Vec<Vec<T>> = Vec::with_capacity(n);
        let mut i: usize = 0;
        while i < n
            invariant
                i <= n,
                s == self.chunk_size,
                s > 0,
                n == self.data@.len() / (s as nat),
                n * s <= self.data@.len(),
                self.data@.len() <= usize::MAX,
                out.len() == i,
                forall|k: int| 0 <= k < i ==> (#[trigger] out@[k])@ == chunk_of(self.data@, s as nat, k),
            decreases n - i,
        {
            assert((i + 1) * s <= n * s) by (nonlinear_arith)
                requires
                    i < n,
            ;
            assert((i + 1) * s == i * s + s) by (nonlinear_arith);
            assert(i * s <= n * s) by (nonlinear_arith)
                requires
                    i < n,
            ;
            let start = i * s;
            let mut chunk: Vec<T> = Vec::with_capacity(s);
            let mut j: usize = 0;
            while j < s
                invariant
                    j <= s,
                    start + s <= self.data@.len(),
                    self.data@.len() <= usize::MAX,
                    chunk@ == self.data@.subrange(start as int, start + j),
                decreases s - j,
            {
                chunk.push(self.data[start + j]);
                j = j + 1;
                proof {
                    assert(chunk@ =~= self.data@.subrange(start as int, start + j));
                }
            }
            out.push(chunk);
            i = i + 1;
        }
        out
    }

    /// Overwrites element `offset` of chunk `chunk`.
    pub fn set(&mut self, chunk: usize, offset: usize, value: T)
        requires
            offset < old(self).spec_chunk_size(),
            (chunk + 1) * old(self).spec_chunk_size() <= old(self).spec_data().len(),
        ensures
            final(self).spec_chunk_size() == old(self).spec_chunk_size(),
            final(self).spec_data() == old(self).spec_data().update(
                chunk * old(self).spec_chunk_size() + offset,
                value,
            ),
    {
        let len = self.data.len();
        proof {
            assert((chunk + 1) * self.chunk_size == chunk * self.chunk_size + self.chunk_size) by (nonlinear_arith);
            assert(chunk * self.chunk_size + offset < len);
        }
        self.data.set(chunk * self.chunk_size + offset, value);
    }
}

} // verus!
