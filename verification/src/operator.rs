//! What every shape operator offers.
use crate::affine::Affine;
use crate::shape::{udim, Shape};
use smallvec::SmallVec;
use vstd::prelude::*;

verus! {

/// The results of a shape operator: for each, the shape of the result and the
/// map from its index space.
///
/// Holds a `smallvec::SmallVec`, which the verifier sees only through
/// [`parts_items`].
#[verifier::external_body]
pub struct Parts {
    items: SmallVec<[(Shape, Affine); 1]>,
}

/// The results that a `Parts` holds, in order.
pub uninterp spec fn parts_items(parts: Parts) -> Seq<(Shape, Affine)>;

impl View for Parts {
    type V = Seq<(Shape, Affine)>;

    open spec fn view(&self) -> Seq<(Shape, Affine)> {
        parts_items(*self)
    }
}

/// Calls `SmallVec::from_buf` on an array of one item, which moves the array
/// into a new vector: the vector holds that item and nothing else.
#[verifier::external_body]
fn small_from_one(shape: Shape, affine: Affine) -> (parts: Parts)
    ensures
        parts_items(parts) == seq![(shape, affine)],
{
    Parts { items: SmallVec::from_buf([(shape, affine)]) }
}

/// Calls `SmallVec::as_slice`, which lends the whole contents: the slice holds
/// the items in their order.
#[verifier::external_body]
fn small_as_slice(parts: &Parts) -> (items: &[(Shape, Affine)])
    ensures
        items@ == parts_items(*parts),
{
    parts.items.as_slice()
}

impl Parts {
    /// A single result.
    pub fn one(shape: Shape, affine: Affine) -> (parts: Parts)
        ensures
            parts@ == seq![(shape, affine)],
    {
        small_from_one(shape, affine)
    }

    /// The results.
    pub fn as_slice(&self) -> (items: &[(Shape, Affine)])
        ensures
            items@ == self@,
    {
        small_as_slice(self)
    }
}

/// An operator on shapes.
pub trait Operator {
    /// The input shapes that the operator can be applied to.
    spec fn accepts(&self, input: Seq<udim>) -> bool;

    /// Whether `output` is the result of the operator on `input`.
    spec fn produces(&self, input: Seq<udim>, output: Seq<(Shape, Affine)>) -> bool;

    /// Applies the operator to a shape.
    fn build(&self, input: &[udim]) -> (parts: Parts)
        requires
            self.accepts(input@),
        ensures
            self.produces(input@, parts@),
    ;
}

} // verus!
