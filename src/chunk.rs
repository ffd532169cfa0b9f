//! Locating a coordinate in a regular grid of equally shaped chunks.
use vstd::prelude::*;
use crate::buffers::slice_to_vec;
use crate::index::{columns_of_len, column_point, gather_column_point, BoundedIndex};
use crate::ndarr::{checked_numel, in_bounds, numel_of, Layout, RowMajor};
use vstd::arithmetic::div_mod::lemma_fundamental_div_mod;

verus! {

/// Where a coordinate falls: which chunk, and where inside it.
#[derive(Debug, Clone)]
pub struct ChunkOffset {
    pub chunk_id: Vec<usize>,
    pub offset_idx: Vec<usize>,
}

/// A grid of `n_chunks` chunks per dimension, each of extents `chunk_shape`.
#[derive(Debug, Clone)]
pub struct RegularChunker {
    chunk_shape: Vec<usize>,
    n_chunks: Vec<usize>,
}

impl RegularChunker {
    pub closed spec fn spec_chunk_shape(&self) -> Seq<usize> {
        self.chunk_shape@
    }

    pub closed spec fn spec_n_chunks(&self) -> Seq<usize> {
        self.n_chunks@
    }

    pub open spec fn wf(&self) -> bool {
        &&& self.spec_chunk_shape().len() == self.spec_n_chunks().len()
        &&& forall|d: int| 0 <= d < self.spec_chunk_shape().len() ==> #[trigger] self.spec_chunk_shape()[d] > 0
    }

    /// Whether `coord` lies in the chunk grid.
    pub open spec fn covers(&self, coord: Seq<usize>) -> bool {
        &&& coord.len() == self.spec_chunk_shape().len()
        &&& forall|d: int| 0 <= d < coord.len() ==> #[trigger] coord[d] / self.spec_chunk_shape()[d]
            < self.spec_n_chunks()[d]
    }

    /// Fails where the two lists differ in length or a chunk extent is zero.
    pub fn new(chunk_shape: &[usize], n_chunks: &[usize]) -> (r: Result<Self, String>)
        ensures
            r is Ok <==> (chunk_shape@.len() == n_chunks@.len() && forall|d: int|
                0 <= d < chunk_shape@.len() ==> #[trigger] chunk_shape@[d] > 0),
            r is Ok ==> r->Ok_0.spec_chunk_shape() == chunk_shape@ && r->Ok_0.spec_n_chunks()
                == n_chunks@ && r->Ok_0.wf(),
    {
        if chunk_shape.len() != n_chunks.len() {
            return Err("Inconsistent dimension".to_owned());
        }
        let mut d: usize = 0;
        while d < chunk_shape.len()
            invariant
                d <= chunk_shape.len(),
                forall|e: int| 0 <= e < d ==> #[trigger] chunk_shape@[e] > 0,
            decreases chunk_shape.len() - d,
        {
            if chunk_shape[d] == 0 {
                return Err("Chunk extents must be positive".to_owned());
            }
            d = d + 1;
        }
        Ok(RegularChunker { chunk_shape: slice_to_vec(chunk_shape), n_chunks: slice_to_vec(n_chunks) })
    }

    /// The chunk holding `coord` and the offset inside it; `None` outside the grid.
    pub fn get_chunk_idx(&self, coord: &[usize]) -> (r: Option<ChunkOffset>)
        requires
            self.wf(),
        ensures
            r is Some <==> self.covers(coord@),
            r is Some ==> {
                let co = r->0;
                &&& co.chunk_id@.len() == coord@.len()
                &&& co.offset_idx@.len() == coord@.len()
                &&& forall|d: int| 0 <= d < coord@.len() ==> {
                    &&& #[trigger] co.chunk_id@[d] == coord@[d] / self.spec_chunk_shape()[d]
                    &&& co.offset_idx@[d] == coord@[d] % self.spec_chunk_shape()[d]
                }
            },
    {
        if coord.len() != self.chunk_shape.len() {
            return None;
        }
        let mut chunk_id: Vec<usize> = Vec::with_capacity(coord.len());
        let mut offset_idx: Vec<usize> = Vec::with_capacity(coord.len());
        let mut d: usize = 0;
        while d < coord.len()
            invariant
                self.wf(),
                d <= coord.len(),
                coord.len() == self.chunk_shape@.len(),
                chunk_id@.len() == d,
                offset_idx@.len() == d,
                forall|e: int| 0 <= e < d ==> {
                    &&& #[trigger] chunk_id@[e] == coord@[e] / self.chunk_shape@[e]
                    &&& chunk_id@[e] < self.n_chunks@[e]
                    &&& offset_idx@[e] == coord@[e] % self.chunk_shape@[e]
                },
            decreases coord.len() - d,
        {
            let cs = self.chunk_shape[d];
            assert(cs > 0);
            let ci = coord[d] / cs;
            if ci >= self.n_chunks[d] {
                return None;
            }
            let ghost (old_c, old_o) = (chunk_id@, offset_idx@);
            chunk_id.push(ci);
            offset_idx.push(coord[d] % cs);
            proof {
                assert forall|e: int| 0 <= e < d + 1 implies {
                    &&& #[trigger] chunk_id@[e] == coord@[e] / self.chunk_shape@[e]
                    &&& chunk_id@[e] < self.n_chunks@[e]
                    &&& offset_idx@[e] == coord@[e] % self.chunk_shape@[e]
                } by {
                    if e < d {
                        assert(chunk_id@[e] == old_c[e] && offset_idx@[e] == old_o[e]);
                    }
                }
            }
            d = d + 1;
        }
        proof {
            assert forall|e: int| 0 <= e < coord@.len() implies #[trigger] coord@[e] / self.spec_chunk_shape()[e]
                < self.spec_n_chunks()[e] by {
                assert(chunk_id@[e] == coord@[e] / self.chunk_shape@[e]);
            }
        }
        Some(ChunkOffset { chunk_id, offset_idx })
    }
}

/// An array split into chunks, each a bounded index of its own.
pub trait ChunkedIndex<T, B: BoundedIndex<T>> {
    spec fn spec_extents(&self) -> Seq<usize>;

    /// The chunk id and the offset inside it of a coordinate, where it has them.
    spec fn spec_locate(&self, coord: Seq<usize>) -> Option<(Seq<usize>, Seq<usize>)>;

    /// The chunk with the given id, where there is one.
    spec fn spec_chunk(&self, chunk_id: Seq<usize>) -> Option<B>;

    spec fn inv(&self) -> bool;

    /// A coordinate lies within the extents exactly when it locates to a present
    /// chunk and within that chunk's extents.
    proof fn lemma_consistent(&self, coord: Seq<usize>)
        requires
            self.inv(),
        ensures
            in_bounds(coord, self.spec_extents()) <==> match self.spec_locate(coord) {
                Some((id, off)) => match self.spec_chunk(id) {
                    Some(b) => in_bounds(off, b.spec_extents()),
                    None => false,
                },
                None => false,
            },
            match self.spec_locate(coord) {
                Some((id, _off)) => match self.spec_chunk(id) {
                    Some(b) => b.inv(),
                    None => true,
                },
                None => true,
            },
    ;

    fn get_chunk_offset(&self, coord: &[usize]) -> (r: Option<ChunkOffset>)
        requires
            self.inv(),
        ensures
            r is Some <==> self.spec_locate(coord@) is Some,
            r is Some ==> (r->0.chunk_id@, r->0.offset_idx@) == self.spec_locate(coord@)->0,
    ;

    fn get_chunk(&self, chunk_id: &[usize]) -> (r: Option<&B>)
        requires
            self.inv(),
        ensures
            r is Some <==> self.spec_chunk(chunk_id@) is Some,
            r is Some ==> *r->0 == self.spec_chunk(chunk_id@)->0,
    ;

    fn extents(&self) -> (r: &[usize])
        ensures
            r@ == self.spec_extents(),
    ;
}

/// The chunk id of a location.
pub open spec fn loc_id(l: Option<(Seq<usize>, Seq<usize>)>) -> Seq<usize> {
    match l {
        Some((id, _off)) => id,
        None => Seq::empty(),
    }
}

/// The offset inside its chunk of a location.
pub open spec fn loc_off(l: Option<(Seq<usize>, Seq<usize>)>) -> Seq<usize> {
    match l {
        Some((_id, off)) => off,
        None => Seq::empty(),
    }
}

/// A bounded index over a chunked array: each lookup goes to the chunk holding
/// the coordinate.
pub struct ChunkedIndexer<T, B: BoundedIndex<T>, C: ChunkedIndex<T, B>> {
    chunked: C,
    _t: core::marker::PhantomData<T>,
    _b: core::marker::PhantomData<B>,
}

impl<T, B: BoundedIndex<T>, C: ChunkedIndex<T, B>> ChunkedIndexer<T, B, C> {
    pub closed spec fn spec_chunked(&self) -> C {
        self.chunked
    }

    pub fn new(chunked: C) -> (r: Self)
        ensures
            r.spec_chunked() == chunked,
    {
        ChunkedIndexer { chunked, _t: core::marker::PhantomData, _b: core::marker::PhantomData }
    }
}

impl<T, B: BoundedIndex<T>, C: ChunkedIndex<T, B>> BoundedIndex<T> for ChunkedIndexer<T, B, C> {
    open spec fn spec_extents(&self) -> Seq<usize> {
        self.spec_chunked().spec_extents()
    }

    open spec fn spec_value(&self, coord: Seq<usize>) -> T {
        match self.spec_chunked().spec_locate(coord) {
            Some((id, off)) => match self.spec_chunked().spec_chunk(id) {
                Some(b) => b.spec_value(off),
                None => arbitrary(),
            },
            None => arbitrary(),
        }
    }

    open spec fn inv(&self) -> bool {
        self.spec_chunked().inv()
    }

    fn get(&self, coord: &[usize]) -> (r: Option<T>) {
        proof {
            self.chunked.lemma_consistent(coord@);
        }
        let co = match self.chunked.get_chunk_offset(coord) {
            Some(co) => co,
            None => {
                return None;
            },
        };
        let c = match self.chunked.get_chunk(co.chunk_id.as_slice()) {
            Some(c) => c,
            None => {
                return None;
            },
        };
        c.get(co.offset_idx.as_slice())
    }

    fn get_unchecked(&self, coord: &[usize]) -> (r: T) {
        proof {
            self.chunked.lemma_consistent(coord@);
        }
        let co = self.chunked.get_chunk_offset(coord).unwrap();
        let c = self.chunked.get_chunk(co.chunk_id.as_slice()).unwrap();
        c.get_unchecked(co.offset_idx.as_slice())
    }

    fn extents(&self) -> (r: &[usize]) {
        self.chunked.extents()
    }

    /// Gathers the points from their columns and looks them up chunk by chunk.
    fn column_get_into(&self, columns: &Vec<Vec<usize>>, buf: &mut Vec<Option<T>>) {
        let n = buf.len();
        let mut coords: Vec<Vec<usize>> = Vec::with_capacity(n);
        let mut i: usize = 0;
        while i < n
            invariant
                i <= n,
                n == buf.len(),
                columns_of_len(columns@, n as nat),
                coords.len() == i,
                forall|k: int| 0 <= k < i ==> (#[trigger] coords@[k])@ == column_point(columns@, k),
            decreases n - i,
        {
            coords.push(gather_column_point(columns, i));
            i = i + 1;
        }
        self.bulk_get_into(&coords, buf);
    }

    /// Looks up the coordinates chunk by chunk: each chunk that holds some of them
    /// is fetched once and asked for all of its offsets in one call.
    fn bulk_get_into(&self, coords: &Vec<Vec<usize>>, buf: &mut Vec<Option<T>>) {
        let n = coords.len();
        let mut ids: Vec<Vec<usize>> = Vec::new();
        let mut group_of: Vec<usize> = Vec::with_capacity(n);
        let mut located: Vec<bool> = Vec::with_capacity(n);
        let mut offs: Vec<Vec<usize>> = Vec::with_capacity(n);
        let mut i: usize = 0;
        while i < n
            invariant
                self.inv(),
                i <= n,
                n == coords.len(),
                buf.len() == n,
                group_of.len() == i,
                located.len() == i,
                offs.len() == i,
                forall|j: int| 0 <= j < i ==> (#[trigger] located@[j] <==> self.chunked.spec_locate(coords@[j]@) is Some),
                forall|j: int| 0 <= j < i && #[trigger] located@[j] ==> group_of@[j] < ids.len()
                    && ids@[group_of@[j] as int]@ == loc_id(self.chunked.spec_locate(coords@[j]@))
                    && offs@[j]@ == loc_off(self.chunked.spec_locate(coords@[j]@)),
                forall|j: int| 0 <= j < i && !#[trigger] located@[j] ==> buf@[j] is None,
            decreases n - i,
        {
            match self.chunked.get_chunk_offset(coords[i].as_slice()) {
                None => {
                    buf.set(i, None);
                    located.push(false);
                    group_of.push(0);
                    offs.push(Vec::new());
                },
                Some(co) => {
                    let mut g: usize = 0;
                    while g < ids.len() && !same_extents(ids[g].as_slice(), co.chunk_id.as_slice())
                        invariant
                            g <= ids.len(),
                        decreases ids.len() - g,
                    {
                        g = g + 1;
                    }
                    if g == ids.len() {
                        ids.push(slice_to_vec(co.chunk_id.as_slice()));
                    }
                    located.push(true);
                    group_of.push(g);
                    offs.push(co.offset_idx);
                },
            }
            i = i + 1;
        }
        let mut g: usize = 0;
        while g < ids.len()
            invariant
                self.inv(),
                g <= ids.len(),
                n == coords.len(),
                buf.len() == n,
                group_of.len() == n,
                located.len() == n,
                offs.len() == n,
                forall|j: int| 0 <= j < n ==> (#[trigger] located@[j] <==> self.chunked.spec_locate(coords@[j]@) is Some),
                forall|j: int| 0 <= j < n && #[trigger] located@[j] ==> group_of@[j] < ids.len()
                    && ids@[group_of@[j] as int]@ == loc_id(self.chunked.spec_locate(coords@[j]@))
                    && offs@[j]@ == loc_off(self.chunked.spec_locate(coords@[j]@)),
                forall|j: int| 0 <= j < n && !#[trigger] located@[j] ==> buf@[j] is None,
                forall|j: int| 0 <= j < n && #[trigger] located@[j] && group_of@[j] < g ==> buf@[j] == (if in_bounds(
                    coords@[j]@,
                    self.spec_extents(),
                ) {
                    Some(self.spec_value(coords@[j]@))
                } else {
                    None
                }),
            decreases ids.len() - g,
        {
            // the coordinates that fall in chunk `g`, with their offsets
            let mut members: Vec<usize> = Vec::new();
            let mut member_offs: Vec<Vec<usize>> = Vec::new();
            let mut j: usize = 0;
            while j < n
                invariant
                    j <= n,
                    g < ids.len(),
                    group_of.len() == n,
                    located.len() == n,
                    offs.len() == n,
                    members.len() == member_offs.len(),
                    forall|p: int| 0 <= p < members.len() ==> {
                        &&& #[trigger] members@[p] < j
                        &&& located@[members@[p] as int]
                        &&& group_of@[members@[p] as int] == g
                        &&& member_offs@[p]@ == offs@[members@[p] as int]@
                    },
                    forall|p: int, q: int| 0 <= p < q < members.len() ==> #[trigger] members@[p] < #[trigger] members@[q],
                    forall|k: int| 0 <= k < j && #[trigger] located@[k] && group_of@[k] == g ==> exists|p: int|
                        0 <= p < members.len() && members@[p] == k,
                decreases n - j,
            {
                if located[j] && group_of[j] == g {
                    let ghost old_m = members@;
                    members.push(j);
                    member_offs.push(slice_to_vec(offs[j].as_slice()));
                    proof {
                        assert(members@[members.len() - 1] == j);
                        assert forall|k: int| 0 <= k <= j && #[trigger] located@[k] && group_of@[k] == g implies exists|p: int|
                            0 <= p < members.len() && members@[p] == k by {
                            if k < j {
                                let p = choose|p: int| 0 <= p < old_m.len() && old_m[p] == k;
                                assert(members@[p] == k);
                            } else {
                                assert(members@[members.len() - 1] == k);
                            }
                        }
                    }
                }
                j = j + 1;
            }
            let m = members.len();
            if m > 0 {
                let mut inner: Vec<Option<T>> = Vec::new();
                let chunk = self.chunked.get_chunk(ids[g].as_slice());
                proof {
                    let first = members@[0] as int;
                    self.chunked.lemma_consistent(coords@[first]@);
                }
                match chunk {
                    Some(c) => {
                        let mut k: usize = 0;
                        while k < m
                            invariant
                                k <= m,
                                inner.len() == k,
                            decreases m - k,
                        {
                            inner.push(None);
                            k = k + 1;
                        }
                        c.bulk_get_into(&member_offs, &mut inner);
                    },
                    None => {
                        let mut k: usize = 0;
                        while k < m
                            invariant
                                k <= m,
                                inner.len() == k,
                                forall|q: int| 0 <= q < k ==> #[trigger] inner@[q] is None,
                            decreases m - k,
                        {
                            inner.push(None);
                            k = k + 1;
                        }
                    },
                }
                proof {
                    assert forall|p: int| 0 <= p < m implies #[trigger] inner@[p] == (if in_bounds(
                        coords@[members@[p] as int]@,
                        self.spec_extents(),
                    ) {
                        Some(self.spec_value(coords@[members@[p] as int]@))
                    } else {
                        None
                    }) by {
                        let j = members@[p] as int;
                        self.chunked.lemma_consistent(coords@[j]@);
                        assert(ids@[g as int]@ == loc_id(self.chunked.spec_locate(coords@[j]@)));
                    }
                }
                let ghost before = buf@;
                let ghost values = inner@;
                let mut p: usize = m;
                while p > 0
                    invariant
                        p <= m,
                        m == members.len(),
                        values.len() == m,
                        inner@ == values.subrange(0, p as int),
                        buf.len() == n,
                        before.len() == n,
                        forall|q: int| 0 <= q < m ==> #[trigger] members@[q] < n,
                        forall|q: int, t: int| 0 <= q < t < m ==> #[trigger] members@[q] < #[trigger] members@[t],
                        forall|q: int| p <= q < m ==> buf@[#[trigger] members@[q] as int] == values[q],
                        forall|k: int| 0 <= k < n && (forall|q: int| p <= q < m ==> #[trigger] members@[q] != k)
                            ==> buf@[k] == before[k],
                    decreases p,
                {
                    p = p - 1;
                    let v = inner.pop().unwrap();
                    proof {
                        assert(v == values[p as int]);
                        assert(inner@ =~= values.subrange(0, p as int));
                    }
                    buf.set(members[p], v);
                }
                proof {
                    assert forall|k: int| 0 <= k < n && #[trigger] located@[k] && group_of@[k] < g + 1 implies buf@[k] == (if in_bounds(
                        coords@[k]@,
                        self.spec_extents(),
                    ) {
                        Some(self.spec_value(coords@[k]@))
                    } else {
                        None
                    }) by {
                        if group_of@[k] == g {
                            let q = choose|q: int| 0 <= q < members.len() && members@[q] == k;
                            assert(buf@[members@[q] as int] == values[q]);
                        } else {
                            assert forall|q: int| 0 <= q < m implies #[trigger] members@[q] != k by {}
                        }
                    }
                    assert forall|k: int| 0 <= k < n && !#[trigger] located@[k] implies buf@[k] is None by {
                        assert forall|q: int| 0 <= q < m implies #[trigger] members@[q] != k by {}
                    }
                }
            }
            g = g + 1;
        }
        proof {
            assert forall|j: int| 0 <= j < n implies #[trigger] buf@[j] == (if in_bounds(coords@[j]@, self.spec_extents()) {
                Some(self.spec_value(coords@[j]@))
            } else {
                None
            }) by {
                self.chunked.lemma_consistent(coords@[j]@);
                if located@[j] {
                    assert(group_of@[j] < ids.len());
                }
            }
        }
    }
}

/// `x` lies below `c * n` exactly when its quotient by `c` lies below `n`.
proof fn lemma_div_below(x: int, c: int, n: int)
    requires
        x >= 0,
        c > 0,
        n >= 0,
    ensures
        x < c * n <==> x / c < n,
        0 <= x % c < c,
{
    lemma_fundamental_div_mod(x, c);
    let (q, r) = (x / c, x % c);
    if q < n {
        assert(c * q + c <= c * n) by (nonlinear_arith)
            requires
                q < n,
                c > 0,
        ;
    } else {
        assert(c * q >= c * n) by (nonlinear_arith)
            requires
                q >= n,
                c > 0,
        ;
    }
}

/// Why chunks could not be assembled.
#[derive(Debug, Clone, Copy, PartialEq, Eq)]
pub enum ChunksError {
    /// The number of chunks differs from the grid's.
    ChunkCount { expected: usize, found: usize },
    /// A chunk's extents differ from the chunk shape.
    ChunkShape { chunk: usize },
    /// The whole array's extents do not fit in `usize`.
    TooLarge,
}

/// Equally shaped chunks on a regular grid, stored in row-major order of their ids.
pub struct RegularChunks<T, B: BoundedIndex<T>> {
    chunker: RegularChunker,
    grid: RowMajor,
    chunks: Vec<B>,
    extents: Vec<usize>,
    _t: core::marker::PhantomData<T>,
}

impl<T, B: BoundedIndex<T>> RegularChunks<T, B> {
    /// Fails where the chunk count, a chunk's extents or the overall size do not fit
    /// the chunker.
    pub fn new(chunker: RegularChunker, chunks: Vec<B>) -> (r: Result<Self, ChunksError>)
        requires
            chunker.wf(),
            forall|i: int| 0 <= i < chunks@.len() ==> (#[trigger] chunks@[i]).inv(),
        ensures
            r is Ok ==> r->Ok_0.inv(),
            r is Ok <==> ({
                &&& numel_of(chunker.spec_n_chunks()) == chunks@.len()
                &&& forall|i: int| 0 <= i < chunks@.len() ==> (#[trigger] chunks@[i]).spec_extents()
                    == chunker.spec_chunk_shape()
                &&& forall|d: int| 0 <= d < chunker.spec_n_chunks().len() ==> #[trigger] chunker.spec_chunk_shape()[d]
                    * chunker.spec_n_chunks()[d] <= usize::MAX
            }),
            r matches Err(ChunksError::ChunkCount { .. }) <==> numel_of(chunker.spec_n_chunks()) != chunks@.len(),
            r matches Err(ChunksError::ChunkShape { chunk }) ==> chunk < chunks@.len() && chunks@[chunk as int].spec_extents()
                != chunker.spec_chunk_shape(),
            r matches Err(ChunksError::ChunkShape { .. }) <==> numel_of(chunker.spec_n_chunks()) == chunks@.len()
                && exists|i: int| 0 <= i < chunks@.len() && (#[trigger] chunks@[i]).spec_extents()
                != chunker.spec_chunk_shape(),
    {
        let n_chunks = chunker.n_chunks.as_slice();
        let expected = match checked_numel(n_chunks) {
            Some(n) => n,
            None => {
                return Err(ChunksError::ChunkCount { expected: usize::MAX, found: chunks.len() });
            },
        };
        if expected != chunks.len() {
            return Err(ChunksError::ChunkCount { expected, found: chunks.len() });
        }
        let mut i: usize = 0;
        while i < chunks.len()
            invariant
                i <= chunks@.len(),
                numel_of(chunker.n_chunks@) == chunks@.len(),
                forall|j: int| 0 <= j < i ==> (#[trigger] chunks@[j]).spec_extents() == chunker.chunk_shape@,
            decreases chunks@.len() - i,
        {
            if !same_extents(chunks[i].extents(), chunker.chunk_shape.as_slice()) {
                return Err(ChunksError::ChunkShape { chunk: i });
            }
            i = i + 1;
        }
        let mut extents: Vec<usize> = Vec::with_capacity(n_chunks.len());
        let mut d: usize = 0;
        while d < n_chunks.len()
            invariant
                d <= n_chunks@.len(),
                n_chunks@ == chunker.n_chunks@,
                chunker.wf(),
                numel_of(chunker.n_chunks@) == chunks@.len(),
                forall|j: int| 0 <= j < chunks@.len() ==> (#[trigger] chunks@[j]).spec_extents() == chunker.chunk_shape@,
                extents@.len() == d,
                forall|e: int| 0 <= e < d ==> #[trigger] extents@[e] == chunker.chunk_shape@[e] * chunker.n_chunks@[e],
            decreases n_chunks@.len() - d,
        {
            match chunker.chunk_shape[d].checked_mul(n_chunks[d]) {
                Some(x) => extents.push(x),
                None => {
                    return Err(ChunksError::TooLarge);
                },
            }
            d = d + 1;
        }
        proof {
            assert forall|e: int| 0 <= e < chunker.spec_n_chunks().len() implies #[trigger] chunker.spec_chunk_shape()[e]
                * chunker.spec_n_chunks()[e] <= usize::MAX by {
                assert(extents@[e] == chunker.chunk_shape@[e] * chunker.n_chunks@[e]);
            }
        }
        let grid = RowMajor::new(n_chunks);
        Ok(RegularChunks { chunker, grid, chunks, extents, _t: core::marker::PhantomData })
    }
}

fn same_extents(a: &[usize], b: &[usize]) -> (r: bool)
    ensures
        r == (a@ == b@),
{
    if a.len() != b.len() {
        return false;
    }
    let mut i: usize = 0;
    while i < a.len()
        invariant
            i <= a@.len(),
            a@.len() == b@.len(),
            forall|j: int| 0 <= j < i ==> #[trigger] a@[j] == b@[j],
        decreases a@.len() - i,
    {
        if a[i] != b[i] {
            return false;
        }
        i = i + 1;
    }
    proof {
        assert(a@ =~= b@);
    }
    true
}

impl<T, B: BoundedIndex<T>> ChunkedIndex<T, B> for RegularChunks<T, B> {
    closed spec fn spec_extents(&self) -> Seq<usize> {
        self.extents@
    }

    closed spec fn spec_locate(&self, coord: Seq<usize>) -> Option<(Seq<usize>, Seq<usize>)> {
        if self.chunker.covers(coord) {
            let cs = self.chunker.spec_chunk_shape();
            Some((Seq::new(coord.len(), |d: int| (coord[d] / cs[d]) as usize), Seq::new(coord.len(), |d: int| (coord[d] % cs[d]) as usize)))
        } else {
            None
        }
    }

    closed spec fn spec_chunk(&self, chunk_id: Seq<usize>) -> Option<B> {
        if in_bounds(chunk_id, self.grid.spec_shape()) {
            Some(self.chunks@[self.grid.spec_offset(chunk_id) as int])
        } else {
            None
        }
    }

    closed spec fn inv(&self) -> bool {
        &&& self.chunker.wf()
        &&& self.grid.wf()
        &&& self.grid.spec_shape() == self.chunker.spec_n_chunks()
        &&& self.chunks@.len() == numel_of(self.chunker.spec_n_chunks())
        &&& forall|i: int| 0 <= i < self.chunks@.len() ==> (#[trigger] self.chunks@[i]).spec_extents()
            == self.chunker.spec_chunk_shape() && self.chunks@[i].inv()
        &&& self.extents@.len() == self.chunker.spec_n_chunks().len()
        &&& forall|d: int| 0 <= d < self.extents@.len() ==> #[trigger] self.extents@[d]
            == self.chunker.spec_chunk_shape()[d] * self.chunker.spec_n_chunks()[d]
    }

    proof fn lemma_consistent(&self, coord: Seq<usize>) {
        let cs = self.chunker.spec_chunk_shape();
        let nc = self.chunker.spec_n_chunks();
        assert forall|d: int| 0 <= d < coord.len() && coord.len() == cs.len() implies (#[trigger] coord[d]
            < self.extents@[d]) == (coord[d] / cs[d] < nc[d]) && coord[d] % cs[d] < cs[d] by {
            lemma_div_below(coord[d] as int, cs[d] as int, nc[d] as int);
        }
        if self.chunker.covers(coord) {
            let id = Seq::new(coord.len(), |d: int| (coord[d] / cs[d]) as usize);
            let off = Seq::new(coord.len(), |d: int| (coord[d] % cs[d]) as usize);
            assert(id.len() == coord.len());
            assert forall|d: int| 0 <= d < id.len() implies #[trigger] id[d] < nc[d] by {
                assert(0 <= d < coord.len());
                assert(coord[d] / self.chunker.spec_chunk_shape()[d] < self.chunker.spec_n_chunks()[d]);
            }
            assert forall|d: int| 0 <= d < off.len() implies #[trigger] off[d] < cs[d] by {
                assert(coord[d] % cs[d] < cs[d]);
            }
            assert(in_bounds(id, self.grid.spec_shape()));
            assert(in_bounds(off, cs));
            // the id addresses a stored chunk
            assert(self.grid.spec_offset(id) < numel_of(nc)) by {
                crate::ndarr::lemma_offset_in_layout(&self.grid, id);
            }
        }
        if in_bounds(coord, self.extents@) {
            assert(self.chunker.covers(coord));
        }
    }

    fn get_chunk_offset(&self, coord: &[usize]) -> (r: Option<ChunkOffset>) {
        let r = self.chunker.get_chunk_idx(coord);
        proof {
            if r is Some {
                let cs = self.chunker.spec_chunk_shape();
                let co = r->0;
                let qs = Seq::new(coord@.len(), |d: int| (coord@[d] / cs[d]) as usize);
                let rs = Seq::new(coord@.len(), |d: int| (coord@[d] % cs[d]) as usize);
                assert forall|d: int| 0 <= d < coord@.len() implies #[trigger] co.chunk_id@[d] == qs[d] && co.offset_idx@[d]
                    == rs[d] by {
                    assert(self.chunker.spec_chunk_shape()[d] > 0);
                    lemma_div_below(coord@[d] as int, cs[d] as int, 0);
                    assert(co.chunk_id@[d] == coord@[d] / cs[d]);
                }
                assert forall|d: int| 0 <= d < coord@.len() implies #[trigger] co.offset_idx@[d] == rs[d] by {
                    assert(co.chunk_id@[d] == qs[d]);
                }
                assert(co.chunk_id@ =~= qs);
                assert(co.offset_idx@ =~= rs);
            }
        }
        r
    }

    fn get_chunk(&self, chunk_id: &[usize]) -> (r: Option<&B>) {
        match self.grid.linear_idx(chunk_id) {
            Some(i) => Some(&self.chunks[i]),
            None => None,
        }
    }

    fn extents(&self) -> (r: &[usize]) {
        self.extents.as_slice()
    }
}

} // verus!
