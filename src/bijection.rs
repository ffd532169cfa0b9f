//! A transformation paired with an explicitly given inverse.
use vstd::prelude::*;
use crate::stage::Stage;

verus! {

/// The dimensionalities of the two directions do not mirror each other.
#[derive(Debug, Clone, Copy, PartialEq, Eq)]
pub struct BijectionError;

/// A forward transformation and its reverse.
#[derive(Debug, Clone)]
pub struct Bijection<X> {
    forward: Stage<X>,
    reverse: Stage<X>,
}

impl<X> Bijection<X> {
    pub closed spec fn spec_forward(&self) -> Stage<X> {
        self.forward
    }

    pub closed spec fn spec_reverse(&self) -> Stage<X> {
        self.reverse
    }

    /// Fails where the reverse does not map the forward's output space back onto
    /// its input space.
    pub fn try_new(forward: Stage<X>, reverse: Stage<X>) -> (r: Result<Self, BijectionError>)
        ensures
            r is Ok <==> forward.shape.input_ndim == reverse.shape.output_ndim && reverse.shape.input_ndim
                == forward.shape.output_ndim,
            r is Ok ==> r->Ok_0.spec_forward() == forward && r->Ok_0.spec_reverse() == reverse,
    {
        if forward.shape.input_ndim != reverse.shape.output_ndim || reverse.shape.input_ndim != forward.shape.output_ndim {
            return Err(BijectionError);
        }
        Ok(Bijection { forward, reverse })
    }

    /// The direction that points are transformed by.
    pub fn forward(&self) -> (r: &Stage<X>)
        ensures
            *r == self.spec_forward(),
    {
        &self.forward
    }

    pub fn reverse(&self) -> (r: &Stage<X>)
        ensures
            *r == self.spec_reverse(),
    {
        &self.reverse
    }

    pub fn input_ndim(&self) -> (r: usize)
        ensures
            r == self.spec_forward().shape.input_ndim,
    {
        self.forward.shape.input_ndim
    }

    pub fn output_ndim(&self) -> (r: usize)
        ensures
            r == self.spec_forward().shape.output_ndim,
    {
        self.forward.shape.output_ndim
    }

    /// True where both directions are identities.
    pub fn is_identity(&self) -> (r: bool)
        ensures
            r == (self.spec_forward().shape.is_identity && self.spec_reverse().shape.is_identity),
    {
        self.forward.shape.is_identity && self.reverse.shape.is_identity
    }

    /// The inverse: the same pair with the roles swapped.
    pub fn invert(self) -> (r: Bijection<X>)
        ensures
            r.spec_forward() == self.spec_reverse(),
            r.spec_reverse() == self.spec_forward(),
    {
        Bijection { forward: self.reverse, reverse: self.forward }
    }
}

} // verus!
