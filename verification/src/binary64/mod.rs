//! Binary64 floating-point numbers as bit patterns.
//!
//! [`F64`] holds the 64 bits of a number in the IEEE 754 binary64 format, the
//! format of Rust's own double-precision type. Its operations are integer
//! computations on those bits, and each contract says which real number the
//! result is: the exact value, rounded to the nearest representable number
//! with ties going to the even one.
//!
//! The model of a finite number is an integer, [`F64::units`]: every finite
//! binary64 number is a whole multiple of the smallest positive one, two to the
//! power -1074, and `units` is that multiple.

use vstd::prelude::*;
use vstd::arithmetic::power2::*;

pub mod arith;
pub mod cast;
pub mod decimal;
pub mod error;
pub mod exact;
pub mod excess;
pub mod laws;
pub mod order;
pub mod root;
pub mod round;

verus! {

/// The weight of the sign bit.
pub const SIGN_BIT: u64 = 0x8000_0000_0000_0000;

/// The bits of positive infinity. Larger magnitudes are not numbers.
pub const INFINITY_BITS: u64 = 0x7ff0_0000_0000_0000;

/// The bits of the quiet not-a-number that the operations return.
pub const NAN_BITS: u64 = 0x7ff8_0000_0000_0000;

/// Two to the power 52: the weight of the lowest exponent bit, and the implicit
/// leading bit of a normal significand.
pub const HIDDEN_BIT: u64 = 0x0010_0000_0000_0000;

/// A binary64 number, by its bits.
#[derive(Clone, Copy, Debug)]
pub struct F64 {
    pub bits: u64,
}

/// The value, in units, of the non-negative number with the bits `magnitude`.
///
/// At `INFINITY_BITS` it continues the pattern of the finite numbers: two to the
/// power 1024, the first value that is out of range.
pub open spec fn scale(magnitude: nat) -> nat {
    let exponent = magnitude / HIDDEN_BIT as nat;
    let fraction = magnitude % HIDDEN_BIT as nat;
    if exponent == 0 {
        fraction
    } else {
        (HIDDEN_BIT + fraction) as nat * pow2((exponent - 1) as nat)
    }
}

/// The number with the given sign and the bits `magnitude` below the sign bit.
pub open spec fn signed(negative: bool, magnitude: nat) -> F64 {
    F64 { bits: (if negative { SIGN_BIT + magnitude } else { magnitude as int }) as u64 }
}

impl F64 {
    pub open spec fn magnitude(self) -> nat {
        (self.bits % SIGN_BIT) as nat
    }

    pub open spec fn negative(self) -> bool {
        self.bits >= SIGN_BIT
    }

    pub open spec fn nan(self) -> bool {
        self.magnitude() > INFINITY_BITS
    }

    pub open spec fn infinite(self) -> bool {
        self.magnitude() == INFINITY_BITS
    }

    pub open spec fn finite(self) -> bool {
        self.magnitude() < INFINITY_BITS
    }

    /// The number as a multiple of two to the power -1074. The infinities stand
    /// beyond all finite numbers; it means nothing for a NaN.
    pub open spec fn units(self) -> int {
        if self.negative() {
            -(scale(self.magnitude()) as int)
        } else {
            scale(self.magnitude()) as int
        }
    }

    /// `self < other` as numbers; nothing is below or above a NaN.
    pub open spec fn below(self, other: F64) -> bool {
        !self.nan() && !other.nan() && self.units() < other.units()
    }

    /// `self <= other` as numbers.
    pub open spec fn at_most(self, other: F64) -> bool {
        !self.nan() && !other.nan() && self.units() <= other.units()
    }

    /// The number without its sign.
    pub open spec fn unsigned(self) -> F64 {
        signed(false, self.magnitude())
    }

    /// The smaller of two numbers, or the one that is a number.
    pub open spec fn lesser(self, other: F64) -> F64 {
        if self.nan() || other.below(self) { other } else { self }
    }

    /// The larger of two numbers, or the one that is a number.
    pub open spec fn greater(self, other: F64) -> F64 {
        if self.nan() || self.below(other) { other } else { self }
    }

    /// `self == other` as numbers: the two zeros are equal, a NaN equals nothing.
    pub open spec fn same_number(self, other: F64) -> bool {
        !self.nan() && !other.nan() && self.units() == other.units()
    }
}

/// Consecutive magnitudes are apart by a power of two.
pub proof fn lemma_scale_step(m: nat)
    ensures
        scale(m + 1) == scale(m) + pow2(
            if m / HIDDEN_BIT as nat == 0 { 0 } else { (m / HIDDEN_BIT as nat - 1) as nat },
        ),
{
    let h = HIDDEN_BIT as nat;
    let e = m / h;
    let f = m % h;
    lemma2_to64();
    if f + 1 < h {
        assert((m + 1) / h == e && (m + 1) % h == f + 1);
        if e > 0 {
            let p = pow2((e - 1) as nat);
            assert((h + f + 1) * p == (h + f) * p + p) by (nonlinear_arith);
        }
    } else {
        assert((m + 1) / h == e + 1 && (m + 1) % h == 0);
        if e > 0 {
            let p = pow2((e - 1) as nat);
            lemma_pow2_unfold(e);
            assert(pow2(e) == 2 * p);
            assert(h * (2 * p) == (h + (h - 1)) * p + p) by (nonlinear_arith);
        }
    }
}

/// Larger magnitudes are larger numbers.
pub proof fn lemma_scale_increases(m: nat, n: nat)
    requires
        m < n,
    ensures
        scale(m) < scale(n),
    decreases n - m,
{
    let prev = (n - 1) as nat;
    lemma_scale_step(prev);
    let k = if prev / HIDDEN_BIT as nat == 0 { 0 } else { (prev / HIDDEN_BIT as nat - 1) as nat };
    lemma_pow2_pos(k);
    if m < prev {
        lemma_scale_increases(m, prev);
    }
}

/// The order of magnitudes is the order of values, and only the magnitude zero
/// has the value zero.
pub proof fn lemma_scale_order(m: nat, n: nat)
    ensures
        m < n <==> scale(m) < scale(n),
        m == n <==> scale(m) == scale(n),
        scale(m) == 0 <==> m == 0,
{
    if m < n {
        lemma_scale_increases(m, n);
    } else if n < m {
        lemma_scale_increases(n, m);
    }
    if m > 0 {
        lemma_scale_increases(0, m);
    }
    assert(scale(0) == 0);
}

/// A number of the given sign and magnitude.
pub(crate) fn make(negative: bool, magnitude: u64) -> (r: F64)
    requires
        magnitude <= INFINITY_BITS,
    ensures
        r == signed(negative, magnitude as nat),
{
    if negative {
        F64 { bits: SIGN_BIT + magnitude }
    } else {
        F64 { bits: magnitude }
    }
}

impl F64 {
    /// The number with the given bits.
    pub fn from_bits(bits: u64) -> (r: F64)
        ensures
            r.bits == bits,
    {
        F64 { bits }
    }

    /// The bits of the number.
    pub fn to_bits(self) -> (r: u64)
        ensures
            r == self.bits,
    {
        self.bits
    }

    pub fn is_nan(self) -> (r: bool)
        ensures
            r == self.nan(),
    {
        self.bits % SIGN_BIT > INFINITY_BITS
    }

    /// Whether the number is neither infinite nor a NaN.
    pub fn is_finite(self) -> (r: bool)
        ensures
            r == self.finite(),
    {
        self.bits % SIGN_BIT < INFINITY_BITS
    }

    /// `self < other`.
    pub fn lt(self, other: F64) -> (r: bool)
        ensures
            r == self.below(other),
    {
        let a: u64 = self.bits % SIGN_BIT;
        let b: u64 = other.bits % SIGN_BIT;
        proof {
            lemma_scale_order(a as nat, b as nat);
            lemma_scale_order(b as nat, a as nat);
        }
        if a > INFINITY_BITS || b > INFINITY_BITS {
            false
        } else if self.bits >= SIGN_BIT {
            if other.bits >= SIGN_BIT {
                b < a
            } else {
                a > 0 || b > 0
            }
        } else {
            other.bits < SIGN_BIT && a < b
        }
    }

    /// The absolute value.
    pub fn abs(self) -> (r: F64)
        ensures
            r == self.unsigned(),
    {
        F64 { bits: self.bits % SIGN_BIT }
    }

    /// The smaller of two numbers; a NaN gives way to a number.
    pub fn min(self, other: F64) -> (r: F64)
        ensures
            r == self.lesser(other),
    {
        if self.is_nan() || other.lt(self) { other } else { self }
    }

    /// The larger of two numbers; a NaN gives way to a number.
    pub fn max(self, other: F64) -> (r: F64)
        ensures
            r == self.greater(other),
    {
        if self.is_nan() || self.lt(other) { other } else { self }
    }

    /// `self <= other`.
    pub fn le(self, other: F64) -> (r: bool)
        ensures
            r == self.at_most(other),
    {
        !self.is_nan() && !other.is_nan() && !other.lt(self)
    }
}

impl PartialEq for F64 {
    fn eq(&self, other: &F64) -> (r: bool) {
        !self.is_nan() && !other.is_nan() && !self.lt(*other) && !other.lt(*self)
    }
}

impl vstd::std_specs::cmp::PartialEqSpecImpl for F64 {
    open spec fn obeys_eq_spec() -> bool {
        true
    }

    open spec fn eq_spec(&self, other: &F64) -> bool {
        self.same_number(*other)
    }
}

} // verus!
