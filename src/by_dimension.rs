//! Partitioned transformation: disjoint groups of input coordinates feed separate
//! transformations whose outputs land on disjoint groups of output coordinates.
use vstd::prelude::*;
use crate::buffers::slice_to_vec;
use crate::identity::Identity;

verus! {

/// Whether index `d` appears in one of the lists.
pub open spec fn listed(lists: Seq<Seq<usize>>, d: usize) -> bool
    decreases lists.len(),
{
    lists.len() > 0 && (listed(lists.drop_last(), d) || lists.last().contains(d))
}

/// No index appears twice, within a list or across lists.
pub open spec fn unique(lists: Seq<Seq<usize>>) -> bool
    decreases lists.len(),
{
    lists.len() == 0 || {
        &&& unique(lists.drop_last())
        &&& lists.last().no_duplicates()
        &&& forall|d: usize| lists.last().contains(d) ==> !listed(lists.drop_last(), d)
    }
}

/// Every index in the lists is below `n`.
pub open spec fn below(lists: Seq<Seq<usize>>, n: nat) -> bool
    decreases lists.len(),
{
    lists.len() == 0 || (below(lists.drop_last(), n) && forall|k: int|
        0 <= k < lists.last().len() ==> #[trigger] lists.last()[k] < n)
}

/// The lists use each of `0..n` exactly once.
pub open spec fn partitions(lists: Seq<Seq<usize>>, n: nat) -> bool {
    &&& unique(lists)
    &&& below(lists, n)
    &&& forall|d: usize| d < n ==> #[trigger] listed(lists, d)
}

/// `flags[d]` says that `d` is in none of the lists.
pub open spec fn tracks_unused(flags: Seq<bool>, lists: Seq<Seq<usize>>) -> bool {
    &&& unique(lists)
    &&& below(lists, flags.len())
    &&& forall|d: usize| d < flags.len() ==> (#[trigger] flags[d as int] <==> !listed(lists, d))
}

/// Why a partitioned transformation could not be formed.
#[derive(Debug, Clone, Copy, PartialEq, Eq)]
pub enum ByDimensionError {
    /// The output index is out of range, already assigned, or repeated.
    OutputUsed(usize),
    /// The input index is out of range, already assigned, or repeated.
    InputUsed(usize),
    /// The unassigned inputs and outputs cannot be paired by an identity.
    Unbalanced { inputs_left: usize, outputs_left: usize },
}

/// The transformation of one group.
#[derive(Debug, Clone)]
pub enum Part<X> {
    Given(X),
    /// Carries the coordinates that no given transformation claimed.
    Filler(Identity),
}

/// One group: its transformation, where its inputs come from and where its outputs go.
#[derive(Debug, Clone)]
pub struct SubTransform<X> {
    pub transform: Part<X>,
    pub in_dims: Vec<usize>,
    pub out_dims: Vec<usize>,
}

pub open spec fn in_lists<X>(subs: Seq<SubTransform<X>>) -> Seq<Seq<usize>> {
    subs.map_values(|s: SubTransform<X>| s.in_dims@)
}

pub open spec fn out_lists<X>(subs: Seq<SubTransform<X>>) -> Seq<Seq<usize>> {
    subs.map_values(|s: SubTransform<X>| s.out_dims@)
}

/// `list` holds distinct indices below `flags.len()` that are all flagged unused.
pub open spec fn fresh(list: Seq<usize>, flags: Seq<bool>) -> bool {
    &&& list.no_duplicates()
    &&& forall|k: int| 0 <= k < list.len() ==> #[trigger] list[k] < flags.len() && flags[list[k] as int]
}

proof fn lemma_push_lists<X>(subs: Seq<SubTransform<X>>, s: SubTransform<X>)
    ensures
        in_lists(subs.push(s)) == in_lists(subs).push(s.in_dims@),
        out_lists(subs.push(s)) == out_lists(subs).push(s.out_dims@),
{
    assert(in_lists(subs.push(s)) =~= in_lists(subs).push(s.in_dims@));
    assert(out_lists(subs.push(s)) =~= out_lists(subs).push(s.out_dims@));
}

/// Claiming a fresh list keeps the unused flags in step with the lists.
proof fn lemma_claim(flags: Seq<bool>, lists: Seq<Seq<usize>>, list: Seq<usize>, new_flags: Seq<bool>)
    requires
        tracks_unused(flags, lists),
        fresh(list, flags),
        new_flags.len() == flags.len(),
        forall|d: int| 0 <= d < flags.len() ==> #[trigger] new_flags[d] == (flags[d] && !list.contains(d as usize)),
    ensures
        tracks_unused(new_flags, lists.push(list)),
{
    let l2 = lists.push(list);
    assert(l2.drop_last() =~= lists);
    assert(l2.last() == list);
    assert forall|d: usize| list.contains(d) implies !listed(lists, d) by {
        let k = choose|k: int| 0 <= k < list.len() && list[k] == d;
        assert(flags[list[k] as int]);
    }
    assert forall|d: usize| d < new_flags.len() implies (#[trigger] new_flags[d as int] <==> !listed(l2, d)) by {
        assert(listed(l2, d) == (listed(lists, d) || list.contains(d)));
    }
}

/// Assembles a partitioned transformation group by group.
pub struct ByDimensionBuilder<X> {
    in_unused: Vec<bool>,
    out_unused: Vec<bool>,
    sub_transforms: Vec<SubTransform<X>>,
}

/// Partitioned transformation with its groups.
#[derive(Debug, Clone)]
pub struct ByDimension<X> {
    subs: Vec<SubTransform<X>>,
    in_ndim: usize,
    out_ndim: usize,
}

impl<X> ByDimensionBuilder<X> {
    pub closed spec fn spec_in_unused(&self) -> Seq<bool> {
        self.in_unused@
    }

    pub closed spec fn spec_out_unused(&self) -> Seq<bool> {
        self.out_unused@
    }

    pub closed spec fn spec_subs(&self) -> Seq<SubTransform<X>> {
        self.sub_transforms@
    }

    pub open spec fn wf(&self) -> bool {
        &&& tracks_unused(self.spec_in_unused(), in_lists(self.spec_subs()))
        &&& tracks_unused(self.spec_out_unused(), out_lists(self.spec_subs()))
    }

    pub fn new(in_ndim: usize, out_ndim: usize) -> (r: Self)
        ensures
            r.wf(),
            r.spec_in_unused().len() == in_ndim,
            r.spec_out_unused().len() == out_ndim,
            r.spec_subs().len() == 0,
    {
        let r = ByDimensionBuilder {
            in_unused: crate::buffers::filled(in_ndim, true),
            out_unused: crate::buffers::filled(out_ndim, true),
            sub_transforms: Vec::new(),
        };
        proof {
            assert(in_lists(r.sub_transforms@) =~= Seq::<Seq<usize>>::empty());
            assert(out_lists(r.sub_transforms@) =~= Seq::<Seq<usize>>::empty());
        }
        r
    }

    /// Adds a group; fails, leaving the builder as it was, where an index is out of
    /// range, already assigned or repeated (outputs are checked first).
    pub fn add_transform(&mut self, transform: X, in_dims: &[usize], out_dims: &[usize]) -> (r: Result<
        (),
        ByDimensionError,
    >)
        requires
            old(self).wf(),
        ensures
            final(self).wf(),
            r is Ok <==> fresh(out_dims@, old(self).spec_out_unused()) && fresh(
                in_dims@,
                old(self).spec_in_unused(),
            ),
            r is Err ==> *final(self) == *old(self),
            r matches Err(ByDimensionError::OutputUsed(_)) <==> !fresh(out_dims@, old(self).spec_out_unused()),
            r matches Err(ByDimensionError::InputUsed(_)) <==> fresh(out_dims@, old(self).spec_out_unused())
                && !fresh(in_dims@, old(self).spec_in_unused()),
            r matches Err(ByDimensionError::OutputUsed(d)) ==> out_dims@.contains(d),
            r matches Err(ByDimensionError::InputUsed(d)) ==> in_dims@.contains(d),
            r is Ok ==> final(self).spec_subs().len() == old(self).spec_subs().len() + 1
                && final(self).spec_subs().drop_last() == old(self).spec_subs()
                && final(self).spec_subs().last().transform == Part::Given(transform)
                && final(self).spec_subs().last().in_dims@ == in_dims@
                && final(self).spec_subs().last().out_dims@ == out_dims@ && final(self).spec_in_unused().len() == old(self).spec_in_unused().len()
                && final(self).spec_out_unused().len() == old(self).spec_out_unused().len(),
    {
        let outs = match claim(&self.out_unused, out_dims) {
            Ok(f) => f,
            Err(d) => {
                return Err(ByDimensionError::OutputUsed(d));
            }
        };
        let ins = match claim(&self.in_unused, in_dims) {
            Ok(f) => f,
            Err(d) => {
                return Err(ByDimensionError::InputUsed(d));
            }
        };
        let sub = SubTransform {
            transform: Part::Given(transform),
            in_dims: slice_to_vec(in_dims),
            out_dims: slice_to_vec(out_dims),
        };
        proof {
            lemma_push_lists(self.sub_transforms@, sub);
            lemma_claim(self.in_unused@, in_lists(self.sub_transforms@), in_dims@, ins@);
            lemma_claim(self.out_unused@, out_lists(self.sub_transforms@), out_dims@, outs@);
        }
        self.sub_transforms.push(sub);
        self.in_unused = ins;
        self.out_unused = outs;
        Ok(())
    }

    /// The partitioned transformation; the unassigned inputs and outputs, if any,
    /// form one identity group, which fails where their counts differ.
    pub fn build(self) -> (r: Result<ByDimension<X>, ByDimensionError>)
        requires
            self.wf(),
        ensures
            r is Ok <==> count_true(self.spec_in_unused()) == count_true(self.spec_out_unused()),
            r is Err ==> r->Err_0 == (ByDimensionError::Unbalanced {
                inputs_left: count_true(self.spec_in_unused()) as usize,
                outputs_left: count_true(self.spec_out_unused()) as usize,
            }),
            r is Ok ==> {
                let b = r->Ok_0;
                &&& b.wf()
                &&& b.spec_in_ndim() == self.spec_in_unused().len()
                &&& b.spec_out_ndim() == self.spec_out_unused().len()
                &&& b.spec_subs().subrange(0, self.spec_subs().len() as int) == self.spec_subs()
                &&& b.spec_subs().len() == self.spec_subs().len() + if count_true(self.spec_in_unused()) > 0 {
                    1int
                } else {
                    0
                }
                &&& count_true(self.spec_in_unused()) > 0 ==> {
                    let filler = b.spec_subs().last();
                    &&& filler.transform == Part::<X>::Filler(Identity(count_true(self.spec_in_unused()) as usize))
                    &&& filler.in_dims@ == true_positions_spec(self.spec_in_unused())
                    &&& filler.out_dims@ == true_positions_spec(self.spec_out_unused())
                }
            },
    {
        let ins = true_positions(&self.in_unused);
        let outs = true_positions(&self.out_unused);
        if ins.len() != outs.len() {
            return Err(ByDimensionError::Unbalanced { inputs_left: ins.len(), outputs_left: outs.len() });
        }
        let in_ndim = self.in_unused.len();
        let out_ndim = self.out_unused.len();
        let mut subs = self.sub_transforms;
        let ghost before = subs@;
        if ins.len() > 0 {
            let k = ins.len();
            let filler = SubTransform { transform: Part::Filler(Identity::new(k)), in_dims: ins, out_dims: outs };
            proof {
                lemma_push_lists(subs@, filler);
                lemma_fill(self.in_unused@, in_lists(subs@), filler.in_dims@);
                lemma_fill(self.out_unused@, out_lists(subs@), filler.out_dims@);
            }
            subs.push(filler);
        } else {
            proof {
                lemma_none_left(self.in_unused@, in_lists(subs@));
                lemma_none_left(self.out_unused@, out_lists(subs@));
            }
        }
        proof {
            assert(subs@.subrange(0, before.len() as int) =~= before);
        }
        Ok(ByDimension { subs, in_ndim, out_ndim })
    }
}

/// Number of `true` entries.
pub open spec fn count_true(flags: Seq<bool>) -> nat
    decreases flags.len(),
{
    if flags.len() == 0 {
        0
    } else {
        count_true(flags.drop_last()) + if flags.last() {
            1nat
        } else {
            0
        }
    }
}

/// The positions of the `true` entries, ascending.
pub open spec fn true_positions_spec(flags: Seq<bool>) -> Seq<usize>
    decreases flags.len(),
{
    if flags.len() == 0 {
        Seq::empty()
    } else if flags.last() {
        true_positions_spec(flags.drop_last()).push((flags.len() - 1) as usize)
    } else {
        true_positions_spec(flags.drop_last())
    }
}

proof fn lemma_true_positions(flags: Seq<bool>)
    requires
        flags.len() <= usize::MAX,
    ensures
        true_positions_spec(flags).len() == count_true(flags),
        true_positions_spec(flags).no_duplicates(),
        forall|k: int| 0 <= k < true_positions_spec(flags).len() ==> #[trigger] true_positions_spec(flags)[k]
            < flags.len(),
        forall|d: usize| d < flags.len() ==> (#[trigger] true_positions_spec(flags).contains(d) <==> flags[d as int]),
    decreases flags.len(),
{
    if flags.len() > 0 {
        let init = flags.drop_last();
        lemma_true_positions(init);
        let p = true_positions_spec(init);
        let n1 = (flags.len() - 1) as usize;
        if flags.last() {
            assert(!p.contains(n1));
            assert forall|d: usize| d < flags.len() implies (#[trigger] p.push(n1).contains(d) <==> flags[d as int]) by {
                if d < n1 {
                    assert(p.push(n1).contains(d) <==> p.contains(d)) by {
                        if p.push(n1).contains(d) {
                            let k = choose|k: int| 0 <= k < p.push(n1).len() && p.push(n1)[k] == d;
                            assert(k < p.len());
                        }
                        if p.contains(d) {
                            let k = choose|k: int| 0 <= k < p.len() && p[k] == d;
                            assert(p.push(n1)[k] == d);
                        }
                    }
                } else {
                    assert(p.push(n1)[p.len() as int] == d);
                }
            }
        } else {
            assert forall|d: usize| d < flags.len() implies (#[trigger] p.contains(d) <==> flags[d as int]) by {
                if d == n1 {
                    if p.contains(d) {
                        let k = choose|k: int| 0 <= k < p.len() && p[k] == d;
                    }
                }
            }
        }
    }
}

fn true_positions(flags: &Vec<bool>) -> (r: Vec<usize>)
    ensures
        r@ == true_positions_spec(flags@),
        r@.len() == count_true(flags@),
        r@.no_duplicates(),
        forall|k: int| 0 <= k < r@.len() ==> #[trigger] r@[k] < flags@.len(),
        forall|d: usize| d < flags@.len() ==> (#[trigger] r@.contains(d) <==> flags@[d as int]),
{
    let mut r: Vec<usize> = Vec::new();
    let mut i: usize = 0;
    while i < flags.len()
        invariant
            i <= flags.len(),
            r@ == true_positions_spec(flags@.subrange(0, i as int)),
        decreases flags.len() - i,
    {
        proof {
            assert(flags@.subrange(0, i + 1).drop_last() =~= flags@.subrange(0, i as int));
        }
        if flags[i] {
            r.push(i);
        }
        i = i + 1;
    }
    proof {
        assert(flags@.subrange(0, flags.len() as int) =~= flags@);
        lemma_true_positions(flags@);
    }
    r
}

proof fn lemma_fill(flags: Seq<bool>, lists: Seq<Seq<usize>>, rest: Seq<usize>)
    requires
        tracks_unused(flags, lists),
        rest.no_duplicates(),
        forall|k: int| 0 <= k < rest.len() ==> #[trigger] rest[k] < flags.len(),
        forall|d: usize| d < flags.len() ==> (#[trigger] rest.contains(d) <==> flags[d as int]),
    ensures
        partitions(lists.push(rest), flags.len()),
{
    let l2 = lists.push(rest);
    assert(l2.drop_last() =~= lists);
    assert forall|d: usize| rest.contains(d) implies !listed(lists, d) by {
        let k = choose|k: int| 0 <= k < rest.len() && rest[k] == d;
        assert(rest[k] < flags.len());
    }
    assert forall|d: usize| d < flags.len() implies #[trigger] listed(l2, d) by {
        assert(listed(l2, d) == (listed(lists, d) || rest.contains(d)));
    }
}

proof fn lemma_none_left(flags: Seq<bool>, lists: Seq<Seq<usize>>)
    requires
        flags.len() <= usize::MAX,
        tracks_unused(flags, lists),
        count_true(flags) == 0,
    ensures
        partitions(lists, flags.len()),
{
    lemma_true_positions(flags);
    assert forall|d: usize| d < flags.len() implies #[trigger] listed(lists, d) by {
        if !listed(lists, d) {
            assert(true_positions_spec(flags).contains(d));
        }
    }
}

/// The flags with every index of `list` marked used, where `list` is fresh; else
/// an index of `list` that cannot be claimed.
fn claim(flags: &Vec<bool>, list: &[usize]) -> (r: Result<Vec<bool>, usize>)
    ensures
        r is Ok <==> fresh(list@, flags@),
        r is Err ==> list@.contains(r->Err_0),
        r is Ok ==> r->Ok_0@.len() == flags@.len() && forall|d: int| 0 <= d < flags@.len() ==> #[trigger] r->Ok_0@[d]
            == (flags@[d] && !list@.contains(d as usize)),
{
    let mut f = crate::buffers::slice_to_vec(flags.as_slice());
    let mut k: usize = 0;
    while k < list.len()
        invariant
            k <= list.len(),
            f@.len() == flags@.len(),
            fresh(list@.subrange(0, k as int), flags@),
            forall|d: int| 0 <= d < flags@.len() ==> #[trigger] f@[d] == (flags@[d] && !list@.subrange(
                0,
                k as int,
            ).contains(d as usize)),
        decreases list.len() - k,
    {
        let d = list[k];
        let pre = Ghost(list@.subrange(0, k as int));
        let post = Ghost(list@.subrange(0, k + 1));
        proof {
            assert(post@ =~= pre@.push(d));
        }
        if d >= f.len() || !f[d] {
            proof {
                assert(!fresh(list@, flags@)) by {
                    if fresh(list@, flags@) {
                        if d < f.len() && flags@[d as int] {
                            let j = choose|j: int| 0 <= j < pre@.len() && pre@[j] == d;
                            assert(list@[j] == list@[k as int]);
                        }
                    }
                }
                assert(list@[k as int] == d);
            }
            return Err(d);
        }
        f.set(d, false);
        proof {
            assert(!pre@.contains(d));
            assert forall|a: int, b: int| 0 <= a < post@.len() && 0 <= b < post@.len() && a != b implies post@[a]
                != post@[b] by {
                if a < k && b < k {
                    assert(pre@[a] != pre@[b]);
                } else if a == k && b < k {
                    assert(pre@.contains(pre@[b]));
                } else if b == k && a < k {
                    assert(pre@.contains(pre@[a]));
                }
            }
            assert forall|e: int| 0 <= e < flags@.len() implies #[trigger] f@[e] == (flags@[e] && !post@.contains(
                e as usize,
            )) by {
                assert(post@[k as int] == d);
                if post@.contains(e as usize) && e != d {
                    let j = choose|j: int| 0 <= j < post@.len() && post@[j] == e as usize;
                    assert(pre@[j] == e);
                }
                if pre@.contains(e as usize) {
                    let j = choose|j: int| 0 <= j < pre@.len() && pre@[j] == e as usize;
                    assert(post@[j] == e);
                }
            }
        }
        k = k + 1;
    }
    proof {
        assert(list@.subrange(0, list.len() as int) =~= list@);
    }
    Ok(f)
}

impl<X> ByDimension<X> {
    pub closed spec fn spec_subs(&self) -> Seq<SubTransform<X>> {
        self.subs@
    }

    pub closed spec fn spec_in_ndim(&self) -> nat {
        self.in_ndim as nat
    }

    pub closed spec fn spec_out_ndim(&self) -> nat {
        self.out_ndim as nat
    }

    /// The groups use each input and each output index exactly once.
    pub open spec fn wf(&self) -> bool {
        &&& partitions(in_lists(self.spec_subs()), self.spec_in_ndim())
        &&& partitions(out_lists(self.spec_subs()), self.spec_out_ndim())
    }

    pub fn builder(in_ndim: usize, out_ndim: usize) -> (r: ByDimensionBuilder<X>)
        ensures
            r.wf(),
            r.spec_in_unused().len() == in_ndim,
            r.spec_out_unused().len() == out_ndim,
            r.spec_subs().len() == 0,
    {
        ByDimensionBuilder::new(in_ndim, out_ndim)
    }

    pub fn sub_transforms(&self) -> (r: &Vec<SubTransform<X>>)
        ensures
            r@ == self.spec_subs(),
    {
        &self.subs
    }

    pub fn input_ndim(&self) -> (r: usize)
        ensures
            r == self.spec_in_ndim(),
    {
        self.in_ndim
    }

    pub fn output_ndim(&self) -> (r: usize)
        ensures
            r == self.spec_out_ndim(),
    {
        self.out_ndim
    }

    /// The inverse, given the inverse of each group's transformation (entries for
    /// filler groups are not read): every group inverted with its input and output
    /// indices swapped, or `None` where a given group has no inverse.
    pub fn invert_with(&self, inverses: Vec<Option<X>>) -> (r: Option<ByDimension<X>>)
        requires
            self.wf(),
            inverses@.len() == self.spec_subs().len(),
        ensures
            r is Some <==> forall|e: int| 0 <= e < inverses@.len() && (#[trigger] self.spec_subs()[e]).transform is Given
                ==> inverses@[e] is Some,
            r is Some ==> {
                let inv = r->0;
                &&& inv.wf()
                &&& inv.spec_in_ndim() == self.spec_out_ndim()
                &&& inv.spec_out_ndim() == self.spec_in_ndim()
                &&& inv.spec_subs().len() == self.spec_subs().len()
                &&& forall|e: int| 0 <= e < inv.spec_subs().len() ==> {
                    &&& (#[trigger] inv.spec_subs()[e]).in_dims@ == self.spec_subs()[e].out_dims@
                    &&& inv.spec_subs()[e].out_dims@ == self.spec_subs()[e].in_dims@
                    &&& match self.spec_subs()[e].transform {
                        Part::Given(_) => inv.spec_subs()[e].transform == Part::Given(inverses@[e]->0),
                        Part::Filler(id) => inv.spec_subs()[e].transform == Part::<X>::Filler(id),
                    }
                }
            },
    {
        let n = self.subs.len();
        let mut rest = inverses;
        let ghost all = rest@;
        let mut out: Vec<SubTransform<X>> = Vec::with_capacity(n);
        let mut e: usize = 0;
        while e < n
            invariant
                n == self.subs@.len(),
                all == inverses@,
                all.len() == n,
                e <= n,
                rest@ == all.subrange(e as int, n as int),
                out@.len() == e,
                forall|j: int| 0 <= j < e && (#[trigger] self.subs@[j]).transform is Given ==> all[j] is Some,
                forall|j: int| 0 <= j < e ==> {
                    &&& (#[trigger] out@[j]).in_dims@ == self.subs@[j].out_dims@
                    &&& out@[j].out_dims@ == self.subs@[j].in_dims@
                    &&& match self.subs@[j].transform {
                        Part::Given(_) => out@[j].transform == Part::Given(all[j]->0),
                        Part::Filler(id) => out@[j].transform == Part::<X>::Filler(id),
                    }
                },
            decreases n - e,
        {
            let inv = rest.remove(0);
            proof {
                assert(inv == all[e as int]);
                assert(rest@ =~= all.subrange(e + 1, n as int));
            }
            let sub = &self.subs[e];
            let t = match &sub.transform {
                Part::Given(_) => match inv {
                    Some(x) => Part::Given(x),
                    None => {
                        return None;
                    }
                },
                Part::Filler(id) => Part::Filler(*id),
            };
            out.push(SubTransform {
                transform: t,
                in_dims: slice_to_vec(sub.out_dims.as_slice()),
                out_dims: slice_to_vec(sub.in_dims.as_slice()),
            });
            e = e + 1;
        }
        proof {
            assert(in_lists(out@) =~= out_lists(self.subs@));
            assert(out_lists(out@) =~= in_lists(self.subs@));
        }
        Some(ByDimension { subs: out, in_ndim: self.out_ndim, out_ndim: self.in_ndim })
    }
}

/// The coordinates of `pt` at positions `dims`, in that order.
pub fn gather<T: Copy>(pt: &[T], dims: &[usize]) -> (r: Vec<T>)
    requires
        forall|k: int| 0 <= k < dims@.len() ==> #[trigger] dims@[k] < pt@.len(),
    ensures
        r@ == Seq::new(dims@.len(), |k: int| pt@[dims@[k] as int]),
{
    let mut r: Vec<T> = Vec::with_capacity(dims.len());
    let mut k: usize = 0;
    while k < dims.len()
        invariant
            k <= dims.len(),
            forall|j: int| 0 <= j < dims@.len() ==> #[trigger] dims@[j] < pt@.len(),
            r@ == Seq::new(k as nat, |j: int| pt@[dims@[j] as int]),
        decreases dims.len() - k,
    {
        r.push(pt[dims[k]]);
        k = k + 1;
        proof {
            assert(r@ =~= Seq::new(k as nat, |j: int| pt@[dims@[j] as int]));
        }
    }
    r
}

/// Writes `vals[k]` to position `dims[k]` of `buf`, for each `k`.
pub fn scatter<T: Copy>(vals: &[T], dims: &[usize], buf: &mut Vec<T>)
    requires
        vals@.len() == dims@.len(),
        dims@.no_duplicates(),
        forall|k: int| 0 <= k < dims@.len() ==> #[trigger] dims@[k] < old(buf)@.len(),
    ensures
        final(buf)@.len() == old(buf)@.len(),
        forall|k: int| 0 <= k < dims@.len() ==> #[trigger] final(buf)@[dims@[k] as int] == vals@[k],
        forall|d: int| 0 <= d < old(buf)@.len() && !dims@.contains(d as usize) ==> #[trigger] final(buf)@[d]
            == old(buf)@[d],
{
    let ghost start = buf@;
    let mut k: usize = 0;
    while k < dims.len()
        invariant
            k <= dims.len(),
            vals@.len() == dims@.len(),
            dims@.no_duplicates(),
            start == old(buf)@,
            buf@.len() == start.len(),
            forall|j: int| 0 <= j < dims@.len() ==> #[trigger] dims@[j] < start.len(),
            forall|j: int| 0 <= j < k ==> #[trigger] buf@[dims@[j] as int] == vals@[j],
            forall|d: int| 0 <= d < start.len() && !dims@.contains(d as usize) ==> #[trigger] buf@[d] == start[d],
        decreases dims.len() - k,
    {
        proof {
            assert(dims@.contains(dims@[k as int]));
        }
        buf.set(dims[k], vals[k]);
        proof {
            assert forall|j: int| 0 <= j < k + 1 implies #[trigger] buf@[dims@[j] as int] == vals@[j] by {
                if j < k {
                    assert(dims@[j] != dims@[k as int]);
                }
            }
        }
        k = k + 1;
    }
}

/// The lists one after another.
pub open spec fn flat(lists: Seq<Seq<usize>>) -> Seq<usize>
    decreases lists.len(),
{
    if lists.len() == 0 {
        Seq::empty()
    } else {
        flat(lists.drop_last()) + lists.last()
    }
}

/// `order` after exchanging the entries at each pair of positions in turn.
pub open spec fn replay(order: Seq<usize>, swaps: Seq<(usize, usize)>) -> Seq<usize>
    decreases swaps.len(),
{
    if swaps.len() == 0 {
        order
    } else {
        let prev = replay(order, swaps.drop_last());
        let (a, b) = swaps.last();
        prev.update(a as int, prev[b as int]).update(b as int, prev[a as int])
    }
}

proof fn lemma_listed_member(lists: Seq<Seq<usize>>, e: int, k: int)
    requires
        0 <= e < lists.len(),
        0 <= k < lists[e].len(),
    ensures
        listed(lists, lists[e][k]),
    decreases lists.len(),
{
    if e == lists.len() - 1 {
        assert(lists.last().contains(lists[e][k]));
    } else {
        lemma_listed_member(lists.drop_last(), e, k);
        assert(lists.drop_last()[e] == lists[e]);
    }
}

/// In unique lists, equal entries sit at the same place.
proof fn lemma_unique_entries(lists: Seq<Seq<usize>>, e1: int, k1: int, e2: int, k2: int)
    requires
        unique(lists),
        0 <= e1 < lists.len(),
        0 <= k1 < lists[e1].len(),
        0 <= e2 < lists.len(),
        0 <= k2 < lists[e2].len(),
        lists[e1][k1] == lists[e2][k2],
    ensures
        e1 == e2 && k1 == k2,
    decreases lists.len(),
{
    let n = lists.len() - 1;
    let init = lists.drop_last();
    if e1 == n && e2 == n {
        assert(lists.last().no_duplicates());
    } else if e1 == n {
        assert(init[e2] == lists[e2]);
        lemma_listed_member(init, e2, k2);
        assert(lists.last().contains(lists[e1][k1]));
    } else if e2 == n {
        assert(init[e1] == lists[e1]);
        lemma_listed_member(init, e1, k1);
        assert(lists.last().contains(lists[e2][k2]));
    } else {
        assert(init[e1] == lists[e1] && init[e2] == lists[e2]);
        lemma_unique_entries(init, e1, k1, e2, k2);
    }
}

/// Every entry of the joined lists comes from one of the lists.
proof fn lemma_flat_entry(lists: Seq<Seq<usize>>, i: int)
    requires
        0 <= i < flat(lists).len(),
    ensures
        exists|e: int, k: int| 0 <= e < lists.len() && 0 <= k < lists[e].len() && #[trigger] lists[e][k] == flat(lists)[i],
    decreases lists.len(),
{
    let init = lists.drop_last();
    let head = flat(init);
    if i < head.len() {
        lemma_flat_entry(init, i);
        let (e, k) = choose|e: int, k: int| 0 <= e < init.len() && 0 <= k < init[e].len() && #[trigger] init[e][k] == head[i];
        assert(lists[e][k] == flat(lists)[i]);
    } else {
        let k = i - head.len();
        assert(lists[lists.len() - 1][k] == flat(lists)[i]);
    }
}

proof fn lemma_flat_prefix_entry(lists: Seq<Seq<usize>>, e: int, i: int)
    requires
        0 <= e <= lists.len(),
        0 <= i < flat(lists.subrange(0, e)).len(),
    ensures
        exists|e2: int, k: int| 0 <= e2 < e && 0 <= k < lists[e2].len() && #[trigger] lists[e2][k] == flat(lists.subrange(0, e))[i],
{
    let pre = lists.subrange(0, e);
    lemma_flat_entry(pre, i);
    let (e2, k) = choose|e2: int, k: int| 0 <= e2 < pre.len() && 0 <= k < pre[e2].len() && #[trigger] pre[e2][k] == flat(pre)[i];
    assert(lists[e2][k] == flat(pre)[i]);
}

impl<X> ByDimension<X> {
    /// Exchanges of output positions that, made in turn on the columns
    /// `0..output_ndim`, line up every group's output columns, group after group,
    /// in the order of the groups' output indices. Making them in reverse order
    /// afterwards restores the columns.
    pub fn column_swaps(&self) -> (r: Vec<(usize, usize)>)
        requires
            self.wf(),
        ensures
            forall|i: int| 0 <= i < r@.len() ==> (#[trigger] r@[i]).0 < self.spec_out_ndim() && r@[i].1
                < self.spec_out_ndim(),
            replay(Seq::new(self.spec_out_ndim(), |i: int| i as usize), r@).subrange(
                0,
                flat(out_lists(self.spec_subs())).len() as int,
            ) == flat(out_lists(self.spec_subs())),
    {
        let n = self.out_ndim;
        let ghost lists = out_lists(self.subs@);
        let ghost ident = Seq::new(n as nat, |i: int| i as usize);
        let mut order: Vec<usize> = Vec::with_capacity(n);
        let mut place: Vec<usize> = Vec::with_capacity(n);
        let mut i: usize = 0;
        while i < n
            invariant
                i <= n,
                ident == Seq::new(n as nat, |i: int| i as usize),
                order@ == ident.subrange(0, i as int),
                place@ == ident.subrange(0, i as int),
            decreases n - i,
        {
            order.push(i);
            place.push(i);
            i = i + 1;
            proof {
                assert(order@ =~= ident.subrange(0, i as int));
                assert(place@ =~= ident.subrange(0, i as int));
            }
        }
        proof {
            assert(order@ =~= ident);
            assert(lists.subrange(0, 0) =~= Seq::<Seq<usize>>::empty());
        }
        let mut swaps: Vec<(usize, usize)> = Vec::new();
        let mut pos: usize = 0;
        let mut e: usize = 0;
        while e < self.subs.len()
            invariant
                e <= self.subs@.len(),
                lists == out_lists(self.subs@),
                partitions(lists, n as nat),
                n == self.out_ndim,
                order@.len() == n,
                place@.len() == n,
                forall|v: int| 0 <= v < n ==> #[trigger] place@[v] < n && order@[place@[v] as int] == v,
                forall|j: int| 0 <= j < n ==> #[trigger] order@[j] < n && place@[order@[j] as int] == j,
                order@ == replay(ident, swaps@),
                forall|j: int| 0 <= j < swaps@.len() ==> (#[trigger] swaps@[j]).0 < n && swaps@[j].1 < n,
                pos == flat(lists.subrange(0, e as int)).len(),
                pos <= n,
                order@.subrange(0, pos as int) == flat(lists.subrange(0, e as int)),
            decreases self.subs@.len() - e,
        {
            let dims = &self.subs[e].out_dims;
            let ghost start = pos;
            let mut k: usize = 0;
            while k < dims.len()
                invariant
                    e < self.subs@.len(),
                    *dims == self.subs@[e as int].out_dims,
                    lists == out_lists(self.subs@),
                    lists[e as int] == dims@,
                    partitions(lists, n as nat),
                    n == self.out_ndim,
                    k <= dims@.len(),
                    order@.len() == n,
                    place@.len() == n,
                    forall|v: int| 0 <= v < n ==> #[trigger] place@[v] < n && order@[place@[v] as int] == v,
                    forall|j: int| 0 <= j < n ==> #[trigger] order@[j] < n && place@[order@[j] as int] == j,
                    order@ == replay(ident, swaps@),
                    forall|j: int| 0 <= j < swaps@.len() ==> (#[trigger] swaps@[j]).0 < n && swaps@[j].1 < n,
                    start == flat(lists.subrange(0, e as int)).len(),
                    pos == start + k,
                    pos <= n,
                    order@.subrange(0, pos as int) == flat(lists.subrange(0, e as int)) + dims@.subrange(0, k as int),
                decreases dims@.len() - k,
            {
                let d = dims[k];
                proof {
                    assert(lists[e as int][k as int] == d);
                    assert(below(lists, n as nat));
                    lemma_below_entry(lists, e as int, k as int, n as nat);
                }
                let at = place[d];
                proof {
                    // `d` is not among the columns already lined up
                    if (at as int) < (pos as int) {
                        let prefix = order@.subrange(0, pos as int);
                        assert(prefix[at as int] == d);
                        let head = flat(lists.subrange(0, e as int));
                        if (at as int) < head.len() {
                            lemma_flat_prefix_entry(lists, e as int, at as int);
                            let (e2, k2) = choose|e2: int, k2: int| 0 <= e2 < e && 0 <= k2 < lists[e2].len() && #[trigger] lists[e2][k2] == head[at as int];
                            assert(head[at as int] == prefix[at as int]);
                            lemma_unique_entries(lists, e2, k2, e as int, k as int);
                        } else {
                            let k2 = at - head.len();
                            assert(prefix[at as int] == dims@[k2]);
                            lemma_unique_entries(lists, e as int, k2, e as int, k as int);
                        }
                    }
                }
                assert(at >= pos);
                assert(order@[at as int] == d);
                if at != pos {
                    let a = order[pos];
                    let ghost before = order@;
                    let ghost old_swaps = swaps@;
                    order.set(pos, d);
                    order.set(at, a);
                    place.set(d, pos);
                    place.set(a, at);
                    swaps.push((pos, at));
                    proof {
                        assert(swaps@.drop_last() =~= old_swaps);
                        assert(order@ =~= before.update(pos as int, before[at as int]).update(at as int, before[pos as int]));
                        assert(forall|j: int| 0 <= j < pos ==> order@[j] == before[j]);
                    }
                }
                proof {
                    let head = flat(lists.subrange(0, e as int));
                    assert(order@[pos as int] == d);
                    assert(order@.subrange(0, pos as int) == head + dims@.subrange(0, k as int));
                    assert(order@.subrange(0, pos + 1) =~= order@.subrange(0, pos as int).push(d));
                    assert(dims@.subrange(0, k + 1) =~= dims@.subrange(0, k as int).push(d));
                    assert(order@.subrange(0, pos + 1) =~= head + dims@.subrange(0, k + 1));
                }
                pos = pos + 1;
                k = k + 1;
            }
            proof {
                let pre = lists.subrange(0, e + 1);
                assert(pre.drop_last() =~= lists.subrange(0, e as int));
                assert(pre.last() == dims@);
                assert(dims@.subrange(0, dims@.len() as int) =~= dims@);
            }
            e = e + 1;
        }
        proof {
            assert(lists.subrange(0, self.subs@.len() as int) =~= lists);
        }
        swaps
    }
}

proof fn lemma_below_entry(lists: Seq<Seq<usize>>, e: int, k: int, n: nat)
    requires
        below(lists, n),
        0 <= e < lists.len(),
        0 <= k < lists[e].len(),
    ensures
        lists[e][k] < n,
    decreases lists.len(),
{
    if e < lists.len() - 1 {
        assert(lists.drop_last()[e] == lists[e]);
        lemma_below_entry(lists.drop_last(), e, k, n);
    } else {
        assert(lists.last() == lists[e]);
        assert(lists.last()[k] < n);
    }
}

} // verus!
