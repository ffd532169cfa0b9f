//! The integer grid of every index of an array's extents, in row-major order,
//! laid out point by point or dimension by dimension.
use vstd::prelude::*;
use crate::ndarr::{in_bounds, lemma_numel_split, numel_of, row_major_offset};
use crate::ravel::{chunk_of, Ravelled};

verus! {

/// The index of `extents` that comes `i`-th in row-major order.
pub open spec fn is_grid_point(extents: Seq<usize>, point: Seq<usize>, i: int) -> bool {
    in_bounds(point, extents) && row_major_offset(extents, point) == i
}

/// Dimension `d`-column entry `i` of columnar data with `n` samples per column.
pub open spec fn column_sample(data: Seq<usize>, n: nat, ndim: nat, i: int) -> Seq<usize> {
    Seq::new(ndim, |d: int| data[d * n + i])
}

proof fn lemma_offset_of_last(shape: Seq<usize>, c: Seq<usize>)
    requires
        c.len() == shape.len(),
        forall|t: int| 0 <= t < shape.len() ==> #[trigger] c[t] + 1 == shape[t],
    ensures
        row_major_offset(shape, c) + 1 == numel_of(shape),
    decreases shape.len(),
{
    if shape.len() > 0 {
        let (s0, c0) = (shape.drop_last(), c.drop_last());
        assert forall|t: int| 0 <= t < s0.len() implies #[trigger] c0[t] + 1 == s0[t] by {
            assert(c[t] + 1 == shape[t]);
        }
        lemma_offset_of_last(s0, c0);
        let r = row_major_offset(s0, c0) as int;
        let m = numel_of(s0) as int;
        let s = shape.last() as int;
        assert(c[c.len() - 1] + 1 == shape[shape.len() - 1]);
        assert(r * s + (s - 1) + 1 == (r + 1) * s) by (nonlinear_arith);
    }
}

proof fn lemma_offset_step(shape: Seq<usize>, c: Seq<usize>, c2: Seq<usize>, j: int)
    requires
        c.len() == shape.len(),
        c2.len() == shape.len(),
        0 <= j < shape.len(),
        c2[j] == c[j] + 1,
        forall|u: int| 0 <= u < j ==> #[trigger] c2[u] == c[u],
        forall|u: int| j < u < shape.len() ==> #[trigger] c[u] + 1 == shape[u] && c2[u] == 0,
    ensures
        row_major_offset(shape, c2) == row_major_offset(shape, c) + 1,
    decreases shape.len(),
{
    let n = shape.len() as int;
    let (s0, a0, b0) = (shape.drop_last(), c.drop_last(), c2.drop_last());
    if j == n - 1 {
        assert(a0 =~= b0);
    } else {
        assert forall|u: int| 0 <= u < j implies #[trigger] b0[u] == a0[u] by {
            assert(c2[u] == c[u]);
        }
        assert forall|u: int| j < u < s0.len() implies #[trigger] a0[u] + 1 == s0[u] && b0[u] == 0 by {
            assert(c[u] + 1 == shape[u] && c2[u] == 0);
        }
        lemma_offset_step(s0, a0, b0, j);
        let r = row_major_offset(s0, a0) as int;
        let s = shape.last() as int;
        assert(c[n - 1] + 1 == shape[n - 1] && c2[n - 1] == 0);
        assert((r + 1) * s + 0 == r * s + (s - 1) + 1) by (nonlinear_arith);
    }
}

proof fn lemma_extents_positive(extents: Seq<usize>)
    requires
        numel_of(extents) > 0,
    ensures
        forall|t: int| 0 <= t < extents.len() ==> #[trigger] extents[t] >= 1,
{
    assert forall|t: int| 0 <= t < extents.len() implies #[trigger] extents[t] >= 1 by {
        if extents[t] == 0 {
            lemma_numel_split(extents, t + 1);
            let pre = extents.subrange(0, t + 1);
            assert(pre.last() == 0);
            assert(numel_of(pre) == numel_of(pre.drop_last()) * (pre.last() as nat));
            let b = numel_of(extents.subrange(t + 1, extents.len() as int)) as int;
            assert(0 * b == 0) by (nonlinear_arith);
        }
    }
}

/// Advances `coord` to the next index in row-major order, wrapping to all zeros
/// after the last one.
fn advance(coord: &mut Vec<usize>, extents: &[usize])
    requires
        old(coord).len() == extents.len(),
        in_bounds(old(coord)@, extents@),
    ensures
        final(coord).len() == extents.len(),
        in_bounds(final(coord)@, extents@),
        row_major_offset(extents@, old(coord)@) + 1 < numel_of(extents@) ==> row_major_offset(
            extents@,
            final(coord)@,
        ) == row_major_offset(extents@, old(coord)@) + 1,
{
    let ghost start = coord@;
    let n = extents.len();
    let mut t: usize = n;
    while t > 0
        invariant
            t <= n,
            n == extents@.len(),
            coord.len() == n,
            start.len() == n,
            start == old(coord)@,
            in_bounds(start, extents@),
            forall|u: int| 0 <= u < t ==> #[trigger] coord@[u] == start[u],
            forall|u: int| t <= u < n ==> #[trigger] start[u] + 1 == extents@[u] && coord@[u] == 0,
        decreases t,
    {
        let u = t - 1;
        assert(start[u as int] < extents@[u as int]);
        if coord[u] + 1 >= extents[u] {
            coord.set(u, 0);
            t = u;
        } else {
            let v = coord[u] + 1;
            coord.set(u, v);
            proof {
                assert(coord@[u as int] == start[u as int] + 1);
                lemma_offset_step(extents@, start, coord@, u as int);
                assert(row_major_offset(extents@, coord@) == row_major_offset(extents@, start) + 1);
                assert forall|w: int| 0 <= w < n implies #[trigger] coord@[w] < extents@[w] by {
                    assert(start[w] < extents@[w]);
                }
            }
            return;
        }
    }
    proof {
        lemma_offset_of_last(extents@, start);
        assert forall|w: int| 0 <= w < n implies #[trigger] coord@[w] < extents@[w] by {
            assert(start[w] + 1 == extents@[w]);
        }
    }
}

/// Every index of `extents`, one chunk per point, in row-major order.
pub fn row_base_coords(extents: &[usize]) -> (r: Ravelled<usize>)
    requires
        numel_of(extents@) * extents@.len() <= usize::MAX,
    ensures
        r.spec_chunk_size() == extents@.len(),
        r.spec_data().len() == numel_of(extents@) * extents@.len(),
        forall|i: int| 0 <= i < numel_of(extents@) ==> is_grid_point(
            extents@,
            #[trigger] chunk_of(r.spec_data(), extents@.len(), i),
            i,
        ),
{
    proof {
        if extents@.len() == 0 {
            assert(numel_of(extents@) == 1);
        } else {
            let (m, l) = (numel_of(extents@) as int, extents@.len() as int);
            assert(m <= m * l) by (nonlinear_arith)
                requires
                    l >= 1,
                    m >= 0,
            ;
        }
    }
    let n_coords = crate::ndarr::product_of(extents);
    let n_dim = extents.len();
    let mut data: Vec<usize> = Vec::new();
    let mut coord = crate::buffers::filled(n_dim, 0usize);
    if n_coords > 0 {
        proof {
            lemma_extents_positive(extents@);
            assert(row_major_offset(extents@, coord@) == 0) by {
                lemma_offset_zero(extents@, coord@);
            }
        }
    }
    let mut k: usize = 0;
    while k < n_coords
        invariant
            k <= n_coords,
            n_coords == numel_of(extents@),
            n_coords * n_dim <= usize::MAX,
            n_dim == extents@.len(),
            coord.len() == n_dim,
            k < n_coords ==> is_grid_point(extents@, coord@, k as int),
            data@.len() == k * n_dim,
            forall|i: int| 0 <= i < k ==> is_grid_point(
                extents@,
                #[trigger] chunk_of(data@, n_dim as nat, i),
                i,
            ),
        decreases n_coords - k,
    {
        let ghost before = data@;
        assert((k + 1) * n_dim <= n_coords * n_dim) by (nonlinear_arith)
            requires
                k < n_coords,
        ;
        assert((k + 1) * n_dim == k * n_dim + n_dim) by (nonlinear_arith);
        let mut t: usize = 0;
        while t < n_dim
            invariant
                t <= n_dim,
                coord.len() == n_dim,
                data@.len() == k * n_dim + t,
                data@.subrange(0, k * n_dim) == before,
                data@.subrange(k * n_dim, k * n_dim + t) == coord@.subrange(0, t as int),
                k * n_dim + n_dim <= usize::MAX,
            decreases n_dim - t,
        {
            data.push(coord[t]);
            t = t + 1;
            proof {
                assert(data@.subrange(0, k * n_dim) =~= before);
                assert(data@.subrange(k * n_dim, k * n_dim + t) =~= coord@.subrange(0, t as int));
            }
        }
        proof {
            assert(coord@.subrange(0, n_dim as int) =~= coord@);
            assert(chunk_of(data@, n_dim as nat, k as int) == coord@);
            assert forall|i: int| 0 <= i < k implies #[trigger] chunk_of(data@, n_dim as nat, i)
                == chunk_of(before, n_dim as nat, i) by {
                assert((i + 1) * n_dim <= k * n_dim) by (nonlinear_arith)
                    requires
                        i < k,
                ;
                assert((i + 1) * n_dim == i * n_dim + n_dim) by (nonlinear_arith);
                assert(chunk_of(data@, n_dim as nat, i) =~= chunk_of(before, n_dim as nat, i));
            }
        }
        advance(&mut coord, extents);
        k = k + 1;
    }
    proof {
        assert(data@.len() == n_coords * n_dim);
        if n_dim > 0 {
            assert((n_coords * n_dim) % (n_dim as int) == 0) by (nonlinear_arith)
                requires
                    n_dim > 0,
            ;
        }
    }
    let r = Ravelled::new_data(n_dim, data);
    r.unwrap()
}

proof fn lemma_cells_distinct(n: int, t: int, k: int, u: int, i: int)
    requires
        0 <= k < n,
        0 <= i < n,
        0 <= t,
        0 <= u,
        k != i,
    ensures
        t * n + k != u * n + i,
{
    if t < u {
        assert(t * n + n <= u * n) by (nonlinear_arith)
            requires
                t < u,
                n > 0,
        ;
    } else if t > u {
        assert(u * n + n <= t * n) by (nonlinear_arith)
            requires
                u < t,
                n > 0,
        ;
    }
}

proof fn lemma_cell_in_range(n: int, d: int, t: int, k: int)
    requires
        0 <= k < n,
        0 <= t < d,
    ensures
        0 <= t * n + k < d * n,
{
    assert(t * n + n <= d * n) by (nonlinear_arith)
        requires
            t < d,
            n > 0,
    ;
    assert(0 <= t * n) by (nonlinear_arith)
        requires
            t >= 0,
            n > 0,
    ;
}

/// Every index of `extents` in row-major order, one chunk per dimension holding
/// that coordinate of each point.
pub fn column_base_coords(extents: &[usize]) -> (r: Ravelled<usize>)
    requires
        numel_of(extents@) * extents@.len() <= usize::MAX,
    ensures
        r.spec_chunk_size() == numel_of(extents@),
        r.spec_data().len() == numel_of(extents@) * extents@.len(),
        forall|i: int| 0 <= i < numel_of(extents@) ==> is_grid_point(
            extents@,
            #[trigger] column_sample(r.spec_data(), numel_of(extents@), extents@.len(), i),
            i,
        ),
{
    proof {
        if extents@.len() == 0 {
            assert(numel_of(extents@) == 1);
        } else {
            let (m, l) = (numel_of(extents@) as int, extents@.len() as int);
            assert(m <= m * l) by (nonlinear_arith)
                requires
                    l >= 1,
                    m >= 0,
            ;
        }
    }
    let n_coords = crate::ndarr::product_of(extents);
    let n_dim = extents.len();
    assert(n_dim * n_coords == n_coords * n_dim) by (nonlinear_arith);
    let mut data = crate::buffers::filled(n_dim * n_coords, 0usize);
    let mut coord = crate::buffers::filled(n_dim, 0usize);
    if n_coords > 0 {
        proof {
            lemma_extents_positive(extents@);
            lemma_offset_zero(extents@, coord@);
        }
    }
    let mut k: usize = 0;
    while k < n_coords
        invariant
            k <= n_coords,
            n_coords == numel_of(extents@),
            n_dim * n_coords <= usize::MAX,
            n_dim == extents@.len(),
            coord.len() == n_dim,
            k < n_coords ==> is_grid_point(extents@, coord@, k as int),
            data@.len() == n_dim * n_coords,
            forall|i: int| 0 <= i < k ==> is_grid_point(
                extents@,
                #[trigger] column_sample(data@, n_coords as nat, n_dim as nat, i),
                i,
            ),
        decreases n_coords - k,
    {
        let ghost before = data@;
        let mut t: usize = 0;
        while t < n_dim
            invariant
                t <= n_dim,
                k < n_coords,
                coord.len() == n_dim,
                data@.len() == n_dim * n_coords,
                n_dim * n_coords <= usize::MAX,
                forall|u: int| 0 <= u < t ==> #[trigger] data@[u * n_coords + k] == coord@[u],
                forall|i: int| 0 <= i < k ==> #[trigger] column_sample(data@, n_coords as nat, n_dim as nat, i)
                    == column_sample(before, n_coords as nat, n_dim as nat, i),
            decreases n_dim - t,
        {
            proof {
                lemma_cell_in_range(n_coords as int, n_dim as int, t as int, k as int);
            }
            let ghost prev = data@;
            data.set(t * n_coords + k, coord[t]);
            proof {
                assert forall|u: int| 0 <= u < t + 1 implies #[trigger] data@[u * n_coords + k] == coord@[u] by {
                    if u < t {
                        lemma_cell_in_range(n_coords as int, n_dim as int, u, k as int);
                        assert(u * n_coords + k != t * n_coords + k) by (nonlinear_arith)
                            requires
                                u < t,
                                n_coords > 0,
                        ;
                        assert(data@[u * n_coords + k] == prev[u * n_coords + k]);
                    }
                }
                assert forall|i: int| 0 <= i < k implies #[trigger] column_sample(data@, n_coords as nat, n_dim as nat, i)
                    == column_sample(before, n_coords as nat, n_dim as nat, i) by {
                    assert forall|u: int| 0 <= u < n_dim implies #[trigger] data@[u * n_coords + i] == prev[u * n_coords + i] by {
                        lemma_cells_distinct(n_coords as int, t as int, k as int, u, i);
                        lemma_cell_in_range(n_coords as int, n_dim as int, u, i);
                    }
                    assert(column_sample(data@, n_coords as nat, n_dim as nat, i)
                        =~= column_sample(prev, n_coords as nat, n_dim as nat, i));
                }
            }
            t = t + 1;
        }
        proof {
            assert(column_sample(data@, n_coords as nat, n_dim as nat, k as int) =~= coord@);
            assert forall|i: int| 0 <= i < k + 1 implies is_grid_point(
                extents@,
                #[trigger] column_sample(data@, n_coords as nat, n_dim as nat, i),
                i,
            ) by {
                if i < k {
                    assert(column_sample(data@, n_coords as nat, n_dim as nat, i)
                        == column_sample(before, n_coords as nat, n_dim as nat, i));
                }
            }
        }
        advance(&mut coord, extents);
        k = k + 1;
    }
    proof {
        if n_coords > 0 {
            assert((n_dim * n_coords) % (n_coords as int) == 0) by (nonlinear_arith)
                requires
                    n_coords > 0,
            ;
        } else {
            assert(n_dim * n_coords == 0) by (nonlinear_arith)
                requires
                    n_coords == 0,
            ;
        }
    }
    let r = Ravelled::new_data(n_coords, data);
    r.unwrap()
}

proof fn lemma_offset_zero(shape: Seq<usize>, c: Seq<usize>)
    requires
        c.len() == shape.len(),
        forall|t: int| 0 <= t < c.len() ==> #[trigger] c[t] == 0,
    ensures
        row_major_offset(shape, c) == 0,
    decreases shape.len(),
{
    if shape.len() > 0 {
        let (s0, c0) = (shape.drop_last(), c.drop_last());
        assert forall|t: int| 0 <= t < c0.len() implies #[trigger] c0[t] == 0 by {
            assert(c[t] == 0);
        }
        lemma_offset_zero(s0, c0);
        assert(c[c.len() - 1] == 0);
        let s = shape.last() as int;
        assert(0 * s == 0) by (nonlinear_arith);
    }
}

} // verus!
