//! Axis lengths, kept in `smallvec`'s inline-first vector.
use smallvec::SmallVec;
use vstd::prelude::*;

verus! {

/// Length of a tensor axis.
#[allow(non_camel_case_types)]
pub type udim = u32;

/// Entry of an affine map between tensor indices.
#[allow(non_camel_case_types)]
pub type idim = i32;

/// The lengths of the axes of a tensor, outermost first.
///
/// Holds a `smallvec::SmallVec`, which the verifier sees only through
/// [`shape_dims`].
#[verifier::external_body]
pub struct Shape {
    dims: SmallVec<[udim; 4]>,
}

/// The axis lengths that a `Shape` holds, in order.
pub uninterp spec fn shape_dims(shape: Shape) -> Seq<udim>;

impl View for Shape {
    type V = Seq<udim>;

    open spec fn view(&self) -> Seq<udim> {
        shape_dims(*self)
    }
}

/// Calls `SmallVec::from_slice`, which copies the slice into a new vector: the
/// shape holds the elements of the slice in their order.
#[verifier::external_body]
fn small_from_slice(dims: &[udim]) -> (shape: Shape)
    ensures
        shape_dims(shape) == dims@,
{
    Shape { dims: SmallVec::from_slice(dims) }
}

/// Calls `SmallVec::as_slice`, which lends the whole contents: the slice holds
/// the elements of the shape in their order.
#[verifier::external_body]
fn small_as_slice(shape: &Shape) -> (dims: &[udim])
    ensures
        dims@ == shape_dims(*shape),
{
    shape.dims.as_slice()
}

impl Shape {
    /// A shape with the given axis lengths.
    pub fn from_slice(dims: &[udim]) -> (shape: Shape)
        ensures
            shape@ == dims@,
    {
        small_from_slice(dims)
    }

    /// The axis lengths.
    pub fn as_slice(&self) -> (dims: &[udim])
        ensures
            dims@ == self@,
    {
        small_as_slice(self)
    }
}

} // verus!
