//! Element types of tensors.
use vstd::prelude::*;

verus! {

/// The element type of a tensor.
#[derive(Clone, Copy, Debug, PartialEq, Eq, Structural)]
pub enum DType {
    F32,
    F64,
    I32,
    I64,
    U8,
}

impl DType {
    /// The size of one element, in bytes.
    pub open spec fn size_spec(self) -> nat {
        match self {
            DType::F32 => 4,
            DType::F64 => 8,
            DType::I32 => 4,
            DType::I64 => 8,
            DType::U8 => 1,
        }
    }

    /// The size of one element, in bytes.
    pub fn size_in_bytes(&self) -> (n: usize)
        ensures
            n == self.size_spec(),
            1 <= n <= 8,
    {
        match self {
            DType::F32 => 4,
            DType::F64 => 8,
            DType::I32 => 4,
            DType::I64 => 8,
            DType::U8 => 1,
        }
    }
}

} // verus!
