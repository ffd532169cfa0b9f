//! What the composite transformations and the graph need to know about a
//! transformation they hold: its dimensionalities and whether it is an identity.
use vstd::prelude::*;

verus! {

/// Dimensionalities of a transformation, and whether it is known to be an identity.
#[derive(Debug, Clone, Copy, PartialEq, Eq)]
pub struct TransformShape {
    pub input_ndim: usize,
    pub output_ndim: usize,
    /// `true` only where the transformation certainly leaves every point unchanged.
    pub is_identity: bool,
}

impl TransformShape {
    /// An identity maps a space onto itself.
    pub open spec fn wf(self) -> bool {
        self.is_identity ==> self.input_ndim == self.output_ndim
    }

    /// The shape of the inverse transformation.
    pub open spec fn swapped(self) -> TransformShape {
        TransformShape {
            input_ndim: self.output_ndim,
            output_ndim: self.input_ndim,
            is_identity: self.is_identity,
        }
    }

    pub fn new(input_ndim: usize, output_ndim: usize, is_identity: bool) -> (r: Self)
        ensures
            r.input_ndim == input_ndim,
            r.output_ndim == output_ndim,
            r.is_identity == is_identity,
    {
        TransformShape { input_ndim, output_ndim, is_identity }
    }
}

/// A transformation together with its shape.
#[derive(Debug, Clone)]
pub struct Stage<X> {
    pub transform: X,
    pub shape: TransformShape,
}

/// Each stage reads the space that the one before it writes.
pub open spec fn chained<X>(stages: Seq<Stage<X>>) -> bool {
    forall|i: int| 0 < i < stages.len() ==> (#[trigger] stages[i]).shape.input_ndim
        == stages[i - 1].shape.output_ndim
}

/// Every stage's shape is well formed.
pub open spec fn shapes_wf<X>(stages: Seq<Stage<X>>) -> bool {
    forall|i: int| 0 <= i < stages.len() ==> (#[trigger] stages[i]).shape.wf()
}

} // verus!
