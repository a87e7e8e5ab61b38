//! Types of tensor elements.
use vstd::prelude::*;

verus! {

/// The type of the elements of a tensor.
#[derive(Clone, Copy, Debug, PartialEq, Eq, Structural)]
pub enum DataType {
    /// Unsigned 32-bit integer.
    U32,
    /// IEEE half precision.
    F16,
    /// Truncated single precision.
    BF16,
    /// IEEE single precision.
    F32,
}

impl DataType {
    /// Number of bytes of an element.
    pub open spec fn bytes(self) -> nat {
        match self {
            DataType::F16 | DataType::BF16 => 2,
            DataType::U32 | DataType::F32 => 4,
        }
    }

    /// Number of bytes of an element.
    pub fn size(self) -> (n: usize)
        ensures
            n == self.bytes(),
            self is F16 || self is BF16 <==> n == 2,
            self is F32 || self is U32 <==> n == 4,
    {
        match self {
            DataType::F16 | DataType::BF16 => 2,
            DataType::U32 | DataType::F32 => 4,
        }
    }
}

} // verus!
