//! Small helpers for flat and nested coordinate buffers.
use vstd::prelude::*;

verus! {

/// A fresh vector holding the elements of `s`.
pub fn slice_to_vec<T: Copy>(s: &[T]) -> (r: Vec<T>)
    ensures
        r@ == s@,
{
    let mut r: Vec<T> = Vec::with_capacity(s.len());
    let mut i: usize = 0;
    while i < s.len()
        invariant
            i <= s.len(),
            r@ == s@.subrange(0, i as int),
        decreases s.len() - i,
    {
        r.push(s[i]);
        i = i + 1;
        proof {
            assert(r@ =~= s@.subrange(0, i as int));
        }
    }
    proof {
        assert(r@ =~= s@);
    }
    r
}

/// A vector of `len` copies of `val`.
pub fn filled<T: Copy>(len: usize, val: T) -> (r: Vec<T>)
    ensures
        r@ == Seq::new(len as nat, |_i: int| val),
{
    let mut r: Vec<T> = Vec::with_capacity(len);
    let mut i: usize = 0;
    while i < len
        invariant
            i <= len,
            r@ == Seq::new(i as nat, |_i: int| val),
        decreases len - i,
    {
        r.push(val);
        i = i + 1;
        proof {
            assert(r@ =~= Seq::new(i as nat, |_i: int| val));
        }
    }
    r
}

/// `outer_len` rows, each of `inner_len` copies of `val`.
pub fn vec_of_vec<T: Copy>(outer_len: usize, inner_len: usize, val: T) -> (r: Vec<Vec<T>>)
    ensures
        r.len() == outer_len,
        forall|i: int| 0 <= i < outer_len ==> (#[trigger] r@[i])@ == Seq::new(inner_len as nat, |_j: int| val),
{
    let mut r: Vec<Vec<T>> = Vec::with_capacity(outer_len);
    let mut i: usize = 0;
    while i < outer_len
        invariant
            i <= outer_len,
            r.len() == i,
            forall|k: int| 0 <= k < i ==> (#[trigger] r@[k])@ == Seq::new(inner_len as nat, |_j: int| val),
        decreases outer_len - i,
    {
        r.push(filled(inner_len, val));
        i = i + 1;
    }
    r
}

/// Copy each row of `input` over the row of `output` at the same position.
pub fn copy_into<T: Copy>(input: &Vec<Vec<T>>, output: &mut Vec<Vec<T>>)
    requires
        old(output).len() == input.len(),
        forall|i: int| 0 <= i < input.len() ==> (#[trigger] old(output)@[i]).len() == input@[i].len(),
    ensures
        final(output).len() == input.len(),
        forall|i: int| 0 <= i < input.len() ==> (#[trigger] final(output)@[i])@ == input@[i]@,
{
    let mut i: usize = 0;
    while i < input.len()
        invariant
            i <= input.len(),
            output.len() == input.len(),
            forall|k: int| 0 <= k < i ==> (#[trigger] output@[k])@ == input@[k]@,
        decreases input.len() - i,
    {
        output.set(i, slice_to_vec(input[i].as_slice()));
        i = i + 1;
    }
}

} // verus!
