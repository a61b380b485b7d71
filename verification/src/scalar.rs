use vstd::prelude::*;

verus! {

/// A double-precision floating-point value, held as its IEEE-754 bit pattern.
///
/// The library stores and moves such values but never computes with them, so it
/// keeps the exact 64-bit encoding; callers convert to and from native floats.
#[derive(Clone, Copy, Debug, PartialEq, Eq, Structural)]
pub struct Real {
    pub bits: u64,
}

impl Real {
    /// Wraps an IEEE-754 bit pattern.
    pub fn from_bits(bits: u64) -> (r: Real)
        ensures
            r.bits == bits,
    {
        Real { bits }
    }

    /// The IEEE-754 bit pattern of this value.
    pub fn to_bits(self) -> (bits: u64)
        ensures
            bits == self.bits,
    {
        self.bits
    }
}

} // verus!
