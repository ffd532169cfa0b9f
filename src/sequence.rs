//! A pipeline of transformations applied one after another.
use vstd::prelude::*;
use crate::identity::Identity;
use crate::stage::{chained, shapes_wf, Stage, TransformShape};

verus! {

/// Why a sequence could not be formed.
#[derive(Debug, Clone, Copy, PartialEq, Eq)]
pub enum SequenceError {
    /// A stage's input dimensionality differs from the previous stage's output.
    DimensionMismatch { expected: usize, found: usize },
    /// A sequence needs at least two stages.
    TooShort,
    /// No stage was given.
    Empty,
}

/// The largest input dimensionality of the stages after the first.
pub open spec fn max_inner<X>(stages: Seq<Stage<X>>) -> nat
    decreases stages.len(),
{
    if stages.len() <= 1 {
        0
    } else {
        let rest = max_inner(stages.drop_last());
        let d = stages.last().shape.input_ndim as nat;
        if d > rest {
            d
        } else {
            rest
        }
    }
}

/// Two or more chained transformations applied in order.
#[derive(Debug, Clone)]
pub struct Sequence<X> {
    stages: Vec<Stage<X>>,
    max_inner_ndim: usize,
}

impl<X> Sequence<X> {
    pub closed spec fn spec_stages(&self) -> Seq<Stage<X>> {
        self.stages@
    }

    pub closed spec fn spec_max_inner_ndim(&self) -> nat {
        self.max_inner_ndim as nat
    }

    pub open spec fn wf(&self) -> bool {
        &&& self.spec_stages().len() >= 2
        &&& chained(self.spec_stages())
        &&& shapes_wf(self.spec_stages())
        &&& self.spec_max_inner_ndim() == max_inner(self.spec_stages())
    }

    fn try_new(stages: Vec<Stage<X>>) -> (r: Result<Self, SequenceError>)
        requires
            chained(stages@),
            shapes_wf(stages@),
        ensures
            r is Ok <==> stages@.len() >= 2,
            r is Err ==> r->Err_0 == SequenceError::TooShort,
            r is Ok ==> r->Ok_0.spec_stages() == stages@ && r->Ok_0.wf(),
    {
        if stages.len() < 2 {
            return Err(SequenceError::TooShort);
        }
        let mut m: usize = 0;
        let mut i: usize = 1;
        while i < stages.len()
            invariant
                1 <= i <= stages.len(),
                m == max_inner(stages@.subrange(0, i as int)),
            decreases stages.len() - i,
        {
            proof {
                let s = stages@.subrange(0, i + 1);
                assert(s.drop_last() =~= stages@.subrange(0, i as int));
            }
            let d = stages[i].shape.input_ndim;
            if d > m {
                m = d;
            }
            i = i + 1;
        }
        proof {
            assert(stages@.subrange(0, stages.len() as int) =~= stages@);
        }
        Ok(Sequence { stages, max_inner_ndim: m })
    }

    /// An empty builder.
    pub fn builder() -> (r: SequenceBuilder<X>)
        ensures
            r.spec_stages().len() == 0,
            r.wf(),
    {
        SequenceBuilder::new()
    }

    pub fn stages(&self) -> (r: &Vec<Stage<X>>)
        ensures
            r@ == self.spec_stages(),
    {
        &self.stages
    }

    /// Width of the scratch buffers that carry a point between stages.
    pub fn max_inner_ndim(&self) -> (r: usize)
        ensures
            r == self.spec_max_inner_ndim(),
    {
        self.max_inner_ndim
    }

    pub fn input_ndim(&self) -> (r: usize)
        requires
            self.wf(),
        ensures
            r == self.spec_stages()[0].shape.input_ndim,
    {
        self.stages[0].shape.input_ndim
    }

    pub fn output_ndim(&self) -> (r: usize)
        requires
            self.wf(),
        ensures
            r == self.spec_stages().last().shape.output_ndim,
    {
        self.stages[self.stages.len() - 1].shape.output_ndim
    }

    /// True exactly when every stage is an identity.
    pub fn is_identity(&self) -> (r: bool)
        ensures
            r <==> forall|i: int| 0 <= i < self.spec_stages().len() ==> (#[trigger] self.spec_stages()[i]).shape.is_identity,
    {
        let mut i: usize = 0;
        while i < self.stages.len()
            invariant
                i <= self.stages.len(),
                forall|k: int| 0 <= k < i ==> (#[trigger] self.stages@[k]).shape.is_identity,
            decreases self.stages.len() - i,
        {
            if !self.stages[i].shape.is_identity {
                assert(!self.spec_stages()[i as int].shape.is_identity);
                return false;
            }
            i = i + 1;
        }
        true
    }

    /// The inverse sequence, given the inverse of each stage in forward order:
    /// the inverses in reverse order, or `None` where some stage has none.
    pub fn invert_with(&self, inverses: Vec<Option<Stage<X>>>) -> (r: Option<Sequence<X>>)
        requires
            self.wf(),
            inverses@.len() == self.spec_stages().len(),
            forall|i: int| 0 <= i < inverses@.len() && (#[trigger] inverses@[i]) is Some ==> inverses@[i]->0.shape
                == self.spec_stages()[i].shape.swapped(),
        ensures
            r is Some <==> forall|i: int| 0 <= i < inverses@.len() ==> (#[trigger] inverses@[i]) is Some,
            r is Some ==> r->0.wf() && r->0.spec_stages().len() == self.spec_stages().len() && forall|i: int|
                0 <= i < inverses@.len() ==> #[trigger] r->0.spec_stages()[i] == inverses@[inverses@.len()
                    - 1 - i]->0,
    {
        let n = inverses.len();
        let mut rest = inverses;
        let mut out: Vec<Stage<X>> = Vec::with_capacity(n);
        let ghost all = rest@;
        while rest.len() > 0
            invariant
                n == all.len(),
                all == inverses@,
                n == self.spec_stages().len(),
                self.wf(),
                rest.len() + out.len() == n,
                rest@ == all.subrange(0, rest.len() as int),
                forall|i: int| 0 <= i < all.len() && (#[trigger] all[i]) is Some ==> all[i]->0.shape
                    == self.spec_stages()[i].shape.swapped(),
                forall|i: int| rest.len() <= i < n ==> (#[trigger] all[i]) is Some,
                forall|k: int| 0 <= k < out.len() ==> #[trigger] out@[k] == all[n - 1 - k]->0,
            decreases rest.len(),
        {
            let ghost idx = rest.len() - 1;
            let last = rest.pop().unwrap();
            proof {
                assert(last == all[idx]);
                assert(rest@ =~= all.subrange(0, idx));
            }
            match last {
                Some(st) => {
                    out.push(st);
                }
                None => {
                    assert(all[idx] is None);
                    return None;
                }
            }
        }
        proof {
            let stages = self.spec_stages();
            assert forall|k: int| 0 < k < out.len() implies (#[trigger] out@[k]).shape.input_ndim
                == out@[k - 1].shape.output_ndim by {
                let j = n - 1 - k;
                assert(stages[j + 1].shape.input_ndim == stages[j].shape.output_ndim);
                assert(out@[k] == all[j]->0);
                assert(out@[k - 1] == all[j + 1]->0);
            }
            assert forall|k: int| 0 <= k < out.len() implies (#[trigger] out@[k]).shape.wf() by {
                assert(stages[n - 1 - k].shape.wf());
                assert(out@[k] == all[n - 1 - k]->0);
            }
        }
        match Sequence::try_new(out) {
            Ok(s) => Some(s),
            Err(_) => None,
        }
    }
}

/// What the best-effort build returns.
#[derive(Debug, Clone)]
pub enum Built<X> {
    /// Every stage was an identity.
    Identity(Identity),
    /// Exactly one stage was not an identity.
    Single(Stage<X>),
    /// The stages that are not identities, in order.
    Sequence(Sequence<X>),
}

/// Accumulates chained stages.
#[derive(Debug, Clone)]
pub struct SequenceBuilder<X> {
    stages: Vec<Stage<X>>,
}

/// The stages that are not identities, in order.
pub open spec fn non_identities<X>(stages: Seq<Stage<X>>) -> Seq<Stage<X>> {
    stages.filter(|s: Stage<X>| is_kept(s))
}

/// A stage that the best-effort build keeps.
pub open spec fn is_kept<X>(s: Stage<X>) -> bool {
    !s.shape.is_identity
}

impl<X> SequenceBuilder<X> {
    pub closed spec fn spec_stages(&self) -> Seq<Stage<X>> {
        self.stages@
    }

    pub open spec fn wf(&self) -> bool {
        chained(self.spec_stages()) && shapes_wf(self.spec_stages())
    }

    pub fn new() -> (r: Self)
        ensures
            r.spec_stages().len() == 0,
            r.wf(),
    {
        SequenceBuilder { stages: Vec::new() }
    }

    pub fn with_capacity(capacity: usize) -> (r: Self)
        ensures
            r.spec_stages().len() == 0,
            r.wf(),
    {
        SequenceBuilder { stages: Vec::with_capacity(capacity) }
    }

    /// Appends a stage; fails where its input dimensionality is not the previous
    /// stage's output dimensionality.
    pub fn add_transform(&mut self, transform: X, shape: TransformShape) -> (r: Result<(), SequenceError>)
        requires
            old(self).wf(),
            shape.wf(),
        ensures
            final(self).wf(),
            r is Err <==> old(self).spec_stages().len() > 0 && old(self).spec_stages().last().shape.output_ndim
                != shape.input_ndim,
            r is Err ==> r->Err_0 == (SequenceError::DimensionMismatch {
                expected: old(self).spec_stages().last().shape.output_ndim,
                found: shape.input_ndim,
            }) && final(self).spec_stages() == old(self).spec_stages(),
            r is Ok ==> final(self).spec_stages() == old(self).spec_stages().push(
                Stage { transform, shape },
            ),
    {
        let n = self.stages.len();
        if n > 0 {
            let last = self.stages[n - 1].shape.output_ndim;
            if last != shape.input_ndim {
                return Err(SequenceError::DimensionMismatch { expected: last, found: shape.input_ndim });
            }
        }
        self.stages.push(Stage { transform, shape });
        proof {
            assert forall|i: int| 0 < i < self.stages@.len() implies (#[trigger] self.stages@[i]).shape.input_ndim
                == self.stages@[i - 1].shape.output_ndim by {}
        }
        Ok(())
    }

    /// A sequence of all the stages, identities included; fails with fewer than two.
    pub fn build(self) -> (r: Result<Sequence<X>, SequenceError>)
        requires
            self.wf(),
        ensures
            r is Ok <==> self.spec_stages().len() >= 2,
            r is Err ==> r->Err_0 == SequenceError::TooShort,
            r is Ok ==> r->Ok_0.spec_stages() == self.spec_stages() && r->Ok_0.wf(),
    {
        Sequence::try_new(self.stages)
    }

    /// The simplest transformation for the stages: an identity where all of them
    /// are identities, the one stage that is not where there is one, else a
    /// sequence of those that are not. Fails where no stage was given.
    pub fn build_any(self) -> (r: Result<Built<X>, SequenceError>)
        requires
            self.wf(),
        ensures
            r is Err <==> self.spec_stages().len() == 0,
            r is Err ==> r->Err_0 == SequenceError::Empty,
            r is Ok ==> match r->Ok_0 {
                Built::Identity(id) => non_identities(self.spec_stages()).len() == 0 && id.0
                    == self.spec_stages().last().shape.input_ndim,
                Built::Single(st) => non_identities(self.spec_stages()) == seq![st],
                Built::Sequence(s) => s.wf() && s.spec_stages() == non_identities(
                    self.spec_stages(),
                ),
            },
    {
        let n = self.stages.len();
        if n == 0 {
            return Err(SequenceError::Empty);
        }
        let ndim = self.stages[n - 1].shape.input_ndim;
        let ghost all = self.stages@;
        let mut src = self.stages;
        let mut kept: Vec<Stage<X>> = Vec::new();
        let mut i: usize = 0;
        while src.len() > 0
            invariant
                n == all.len(),
                chained(all),
                shapes_wf(all),
                i + src.len() == n,
                src@ == all.subrange(i as int, n as int),
                kept@ == non_identities(all.subrange(0, i as int)),
                chained(kept@),
                shapes_wf(kept@),
                kept@.len() > 0 ==> i > 0 && kept@.last().shape.output_ndim == all[i - 1].shape.output_ndim,
            decreases src.len(),
        {
            let st = src.remove(0);
            proof {
                assert(st == all[i as int]);
                assert(src@ =~= all.subrange(i + 1, n as int));
                let pre = all.subrange(0, i + 1);
                assert(pre.drop_last() =~= all.subrange(0, i as int));
                assert(pre.last() == st);
                reveal(Seq::filter);
                assert(all[i as int].shape.wf());
                if i > 0 {
                    assert(all[i as int].shape.input_ndim == all[i - 1].shape.output_ndim);
                }
            }
            if !st.shape.is_identity {
                kept.push(st);
            }
            i = i + 1;
        }
        proof {
            assert(all.subrange(0, n as int) =~= all);
        }
        let m = kept.len();
        if m == 0 {
            return Ok(Built::Identity(Identity::new(ndim)));
        }
        if m == 1 {
            let st = kept.pop().unwrap();
            proof {
                assert(kept@.push(st) =~= seq![st]);
            }
            return Ok(Built::Single(st));
        }
        match Sequence::try_new(kept) {
            Ok(s) => Ok(Built::Sequence(s)),
            Err(e) => Err(e),
        }
    }
}

} // verus!
