//! Degrees and radians.

use vstd::prelude::*;
use vstd::arithmetic::power2::*;
use crate::binary64::{F64, HIDDEN_BIT};
use crate::binary64::arith;
use crate::binary64::cast;
use crate::binary64::exact;

verus! {

/// The bits of the number nearest to pi over 180.
pub const RADIANS_PER_DEGREE_BITS: u64 = 0x3f91_df46_a252_9d39;

/// The bits of the number nearest to pi over 4.
pub const QUARTER_PI_BITS: u64 = 0x3fe9_21fb_5444_2d18;

/// An angle in radians, given in degrees.
pub open spec fn radians(degrees: F64) -> F64 {
    arith::product(degrees, F64 { bits: RADIANS_PER_DEGREE_BITS })
}

/// Converts degrees to radians.
pub fn to_radians(degrees: F64) -> (r: F64)
    ensures
        r == radians(degrees),
{
    degrees.times(F64::from_bits(RADIANS_PER_DEGREE_BITS))
}

/// Whether a value is `parts` parts of pi, of which there are `of` in all, to fifteen
/// digits.
pub open spec fn is_part_of_pi(v: int, parts: int, of: int) -> bool {
    314_159_265_358_979 * cast::one() * parts <= 100_000_000_000_000 * v * of
        <= 314_159_265_358_980 * cast::one() * parts
}

/// A degree in radians is pi over 180, and the angle that a Mercator projection adds is pi
/// over 4.
pub proof fn law_angles_are_parts_of_pi()
    ensures
        (F64 { bits: RADIANS_PER_DEGREE_BITS }).finite(),
        (F64 { bits: QUARTER_PI_BITS }).finite(),
        is_part_of_pi((F64 { bits: RADIANS_PER_DEGREE_BITS }).units(), 1, 180),
        is_part_of_pi((F64 { bits: QUARTER_PI_BITS }).units(), 1, 4),
{
    lemma2_to64();
    lemma2_to64_rest();
    lemma_pow2_adds(1016, 58);
    lemma_pow2_adds(1021, 53);
    lemma_pow2_pos(1016);
    lemma_pow2_pos(1021);
    let (p, q) = (pow2(1016) as int, pow2(1021) as int);
    let o = cast::one();
    let (a, b) = (F64 { bits: RADIANS_PER_DEGREE_BITS }, F64 { bits: QUARTER_PI_BITS });
    let h = HIDDEN_BIT as nat;
    assert(a.magnitude() == 0x3f91_df46_a252_9d39);
    assert(a.magnitude() / h == 1017 && a.magnitude() % h == 0x1_df46_a252_9d39);
    assert(b.magnitude() == 0x3fe9_21fb_5444_2d18);
    assert(b.magnitude() / h == 1022 && b.magnitude() % h == 0x9_21fb_5444_2d18);
    let (u, v) = (a.units(), b.units());
    assert(u == 0x11_df46_a252_9d39 * p);
    assert(v == 0x19_21fb_5444_2d18 * q);
    assert(o == p * 0x400_0000_0000_0000);
    assert(o == q * 0x20_0000_0000_0000);
    assert(is_part_of_pi(u, 1, 180)) by (nonlinear_arith)
        requires
            u == 0x11_df46_a252_9d39 * p,
            o == p * 0x400_0000_0000_0000,
            o == cast::one(),
            p > 0,
    ;
    assert(is_part_of_pi(v, 1, 4)) by (nonlinear_arith)
        requires
            v == 0x19_21fb_5444_2d18 * q,
            o == q * 0x20_0000_0000_0000,
            o == cast::one(),
            q > 0,
    ;
}

/// Degrees in radians are the number nearest to the degrees times pi over 180.
pub proof fn law_degrees_in_radians(degrees: F64, r: F64) -> (rho: int)
    requires
        degrees.finite(),
        call_ensures(to_radians, (degrees,), r),
    ensures
        is_part_of_pi(rho, 1, 180),
        exact::is_nearest_number(r, degrees.units() * rho, cast::one()),
{
    law_angles_are_parts_of_pi();
    let f = F64 { bits: RADIANS_PER_DEGREE_BITS };
    exact::lemma_product(degrees, f);
    f.units()
}

} // verus!
