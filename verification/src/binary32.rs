//! Binary32 floating-point numbers as bit patterns.

use vstd::prelude::*;

verus! {

/// The weight of the sign bit.
pub const SIGN_BIT: u32 = 0x8000_0000;

/// The bits of positive infinity. Larger magnitudes are not numbers.
pub const INFINITY_BITS: u32 = 0x7f80_0000;

/// A binary32 number, by its bits.
#[derive(Clone, Copy, Debug)]
pub struct F32 {
    pub bits: u32,
}

impl F32 {
    pub open spec fn magnitude(self) -> u32 {
        self.bits % SIGN_BIT
    }

    pub open spec fn nan(self) -> bool {
        self.magnitude() > INFINITY_BITS
    }

    /// `self == other` as numbers: the two zeros are equal, a NaN equals nothing,
    /// and otherwise numbers are equal if their bits are.
    pub open spec fn same_number(self, other: F32) -> bool {
        !self.nan() && !other.nan() && (self == other || (self.magnitude() == 0
            && other.magnitude() == 0))
    }

    /// The number with the given bits.
    pub fn from_bits(bits: u32) -> (r: F32)
        ensures
            r.bits == bits,
    {
        F32 { bits }
    }

    /// The bits of the number.
    pub fn to_bits(self) -> (r: u32)
        ensures
            r == self.bits,
    {
        self.bits
    }
}

impl PartialEq for F32 {
    fn eq(&self, other: &F32) -> (r: bool) {
        let a: u32 = self.bits % SIGN_BIT;
        let b: u32 = other.bits % SIGN_BIT;
        a <= INFINITY_BITS && b <= INFINITY_BITS && (self.bits == other.bits || (a == 0 && b == 0))
    }
}

impl vstd::std_specs::cmp::PartialEqSpecImpl for F32 {
    open spec fn obeys_eq_spec() -> bool {
        true
    }

    open spec fn eq_spec(&self, other: &F32) -> bool {
        self.same_number(*other)
    }
}

} // verus!
