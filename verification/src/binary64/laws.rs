//! Laws of the arithmetic: what holds of all numbers, in spite of rounding.

use vstd::prelude::*;
use vstd::arithmetic::power2::*;
use crate::binary64;
use crate::binary64::{F64, HIDDEN_BIT, INFINITY_BITS, SIGN_BIT};
use crate::binary64::arith;
use crate::binary64::cast;
use crate::binary64::round;

verus! {

/// A sign and a magnitude make the number that has them.
pub proof fn lemma_signed(negative: bool, m: nat)
    requires
        m < SIGN_BIT,
    ensures
        binary64::signed(negative, m).magnitude() == m,
        binary64::signed(negative, m).negative() == negative,
{
}

/// Every number is made of its sign and its magnitude.
pub proof fn lemma_made_of_parts(a: F64)
    ensures
        binary64::signed(a.negative(), a.magnitude()) == a,
        a.magnitude() < SIGN_BIT,
{
}

/// The value of the magnitude that starts the exponent `e`.
pub proof fn lemma_scale_power(e: nat)
    requires
        e > 0,
    ensures
        binary64::scale(e * HIDDEN_BIT as nat) == pow2(e + 51),
{
    let h = HIDDEN_BIT as nat;
    vstd::arithmetic::div_mod::lemma_fundamental_div_mod_converse(
        (e * h) as int,
        h as int,
        e as int,
        0,
    );
    lemma2_to64_rest();
    lemma_pow2_adds(52, (e - 1) as nat);
}

/// The nearest number to an integer below two to the power `k` is no larger than
/// that power.
pub proof fn lemma_integer_bound(i: int, k: nat)
    requires
        arith::absolute(i) <= pow2(k),
        k <= 1000,
    ensures
        cast::of_integer(i).magnitude() <= (1023 + k) * HIDDEN_BIT,
        cast::of_integer(i).finite(),
        cast::of_integer(i).negative() == (i < 0),
        cast::one() > 0,
{
    let h = HIDDEN_BIT as nat;
    let e = 1023 + k;
    lemma_scale_power(e);
    lemma_pow2_adds(k, 1074);
    lemma_pow2_pos(1074);
    assert(e * h < INFINITY_BITS) by (nonlinear_arith)
        requires
            e <= 2023,
            h == 0x10_0000_0000_0000,
            INFINITY_BITS == 0x7ff0_0000_0000_0000u64,
    ;
    let n = arith::absolute(i) * cast::one();
    let p = pow2(k) as int;
    let a = arith::absolute(i);
    let o = cast::one();
    assert(0 <= a * o <= p * o) by (nonlinear_arith)
        requires
            0 <= a <= p,
            o > 0,
    ;
    arith::lemma_nearest_exact(e * h);
    round::lemma_nearest_monotone(n, 1, binary64::scale(e * h) as int, 1);
}

/// Larger integers make larger numbers.
pub proof fn law_integers_keep_order(i: int, j: int)
    requires
        0 <= i <= j,
    ensures
        cast::of_integer(i).at_most(cast::of_integer(j)),
{
    lemma_pow2_pos(1074);
    let o = cast::one();
    assert(0 <= i * o <= j * o) by (nonlinear_arith)
        requires
            0 <= i <= j,
            o > 0,
    ;
    round::lemma_nearest_monotone(i * o, 1, j * o, 1);
    round::lemma_nearest_exists(i * o, 1);
    round::lemma_nearest_exists(j * o, 1);
    lemma_signed(false, round::nearest(i * o, 1));
    lemma_signed(false, round::nearest(j * o, 1));
    binary64::lemma_scale_order(round::nearest(j * o, 1), round::nearest(i * o, 1));
}

/// Adding a larger number to the same finite number gives no smaller sum.
pub proof fn law_sums_keep_order(a: F64, x: F64, y: F64)
    requires
        a.finite(),
        x.at_most(y),
    ensures
        arith::sum(a, x).at_most(arith::sum(a, y)),
{
    lemma_sum_value(a, x);
    lemma_sum_value(a, y);
    lemma_infinity_tops(a);
    lemma_infinity_tops(x);
    lemma_infinity_tops(y);
    lemma_infinity_tops(arith::sum(a, x));
    lemma_infinity_tops(arith::sum(a, y));
    if x.finite() && y.finite() {
        lemma_signed_order(a.units() + x.units(), a.units() + y.units());
    }
}

/// No number lies beyond the infinities.
proof fn lemma_infinity_tops(a: F64)
    requires
        !a.nan(),
    ensures
        -(binary64::scale(INFINITY_BITS as nat) as int) <= a.units() <= binary64::scale(
            INFINITY_BITS as nat,
        ),
        a.finite() ==> -(binary64::scale(INFINITY_BITS as nat) as int) < a.units()
            < binary64::scale(INFINITY_BITS as nat),
        a.infinite() ==> a.units() == (if a.negative() {
            -(binary64::scale(INFINITY_BITS as nat) as int)
        } else {
            binary64::scale(INFINITY_BITS as nat) as int
        }),
{
    binary64::lemma_scale_order(a.magnitude(), INFINITY_BITS as nat);
}

/// A value of either sign, rounded.
spec fn rounded_units(s: int) -> int {
    let m = binary64::scale(round::nearest(arith::absolute(s), 1)) as int;
    if s < 0 { -m } else { m }
}

proof fn lemma_signed_order(s: int, t: int)
    requires
        s <= t,
    ensures
        rounded_units(s) <= rounded_units(t),
{
    let a = arith::absolute(s);
    let b = arith::absolute(t);
    if s >= 0 {
        round::lemma_nearest_monotone(a, 1, b, 1);
        binary64::lemma_scale_order(round::nearest(b, 1), round::nearest(a, 1));
    } else if t < 0 {
        round::lemma_nearest_monotone(b, 1, a, 1);
        binary64::lemma_scale_order(round::nearest(a, 1), round::nearest(b, 1));
    }
}

/// The sum of two numbers, one of them finite, is a number.
proof fn lemma_sum_value(a: F64, x: F64)
    requires
        a.finite(),
        !x.nan(),
    ensures
        !arith::sum(a, x).nan(),
        x.finite() ==> arith::sum(a, x).units() == rounded_units(a.units() + x.units()),
        x.infinite() ==> arith::sum(a, x) == x,
{
    if x.finite() {
        let s = a.units() + x.units();
        let n = arith::absolute(s);
        round::lemma_nearest_exists(n, 1);
        if s == 0 {
            arith::lemma_nearest_zero(1);
            lemma_signed(a.negative() && x.negative(), 0);
            assert(binary64::scale(0) == 0);
        } else {
            lemma_signed(s < 0, round::nearest(n, 1));
        }
    }
}

/// A larger factor beside the same factor gives no smaller product.
pub proof fn law_products_keep_order(a: F64, x: F64, y: F64)
    requires
        a.finite() && x.finite() && y.finite(),
        !a.negative() && !x.negative() && !y.negative(),
        x.at_most(y),
    ensures
        arith::product(a, x).at_most(arith::product(a, y)),
        !arith::product(a, x).negative(),
{
    let p = pow2(1074) as int;
    lemma_pow2_pos(1074);
    let u = a.units();
    let v = x.units();
    let w = y.units();
    assert(0 <= u * v <= u * w) by (nonlinear_arith)
        requires
            0 <= u,
            0 <= v <= w,
    ;
    assert((u * v) * p <= (u * w) * p) by (nonlinear_arith)
        requires
            u * v <= u * w,
            p > 0,
    ;
    round::lemma_nearest_monotone(u * v, p, u * w, p);
    round::lemma_nearest_exists(u * v, p);
    round::lemma_nearest_exists(u * w, p);
    lemma_signed(false, round::nearest(u * v, p));
    lemma_signed(false, round::nearest(u * w, p));
    binary64::lemma_scale_order(round::nearest(u * w, p), round::nearest(u * v, p));
}

/// Adding a zero changes no number.
pub proof fn law_zero_adds_nothing(a: F64, z: F64)
    requires
        a.finite(),
        z.magnitude() == 0,
    ensures
        arith::sum(a, z).same_number(a),
        a.magnitude() != 0 ==> arith::sum(a, z) == a,
{
    assert(binary64::scale(0) == 0);
    lemma_sum_value(a, z);
    arith::lemma_nearest_exact(a.magnitude());
    binary64::lemma_scale_order(a.magnitude(), 0);
    lemma_made_of_parts(a);
}

/// A finite number less itself is zero.
pub proof fn law_difference_with_itself(a: F64)
    requires
        a.finite(),
    ensures
        arith::difference(a, a) == binary64::signed(false, 0),
{
    lemma_made_of_parts(a);
    lemma_signed(!a.negative(), a.magnitude());
}

/// The number one.
pub proof fn lemma_one()
    ensures
        cast::of_integer(1).finite(),
        cast::of_integer(1).magnitude() != 0,
        !cast::of_integer(1).negative(),
        cast::of_integer(1).units() == cast::one(),
        cast::one() > 0,
{
    let h = HIDDEN_BIT as nat;
    lemma_scale_power(1023);
    lemma_pow2_pos(1074);
    arith::lemma_nearest_exact(1023 * h);
    assert(1 * cast::one() == cast::one());
    lemma_signed(false, 1023 * h);
}

/// A finite number other than zero over itself is one.
pub proof fn law_quotient_with_itself(a: F64)
    requires
        a.finite(),
        a.magnitude() != 0,
    ensures
        arith::quotient(a, a) == cast::of_integer(1),
{
    let u = arith::absolute(a.units());
    let o = cast::one();
    binary64::lemma_scale_order(a.magnitude(), 0);
    lemma_one();
    assert(u * o >= 0) by (nonlinear_arith)
        requires
            u > 0,
            o > 0,
    ;
    assert((u * o) * 1 == o * u) by (nonlinear_arith);
    round::lemma_nearest_monotone(u * o, u, o, 1);
    round::lemma_nearest_monotone(o, 1, u * o, u);
    assert(1 * o == o);
}

/// Zero over a finite number other than zero is zero.
pub proof fn law_zero_quotient(z: F64, a: F64)
    requires
        z.magnitude() == 0,
        a.finite(),
        a.magnitude() != 0,
    ensures
        arith::quotient(z, a).magnitude() == 0,
{
    binary64::lemma_scale_order(a.magnitude(), 0);
    arith::lemma_nearest_zero(arith::absolute(a.units()));
    assert(binary64::scale(0) == 0);
    assert(0 * pow2(1074) == 0);
    lemma_signed(z.negative() != a.negative(), 0);
}

/// Zero times a finite number is zero.
pub proof fn law_zero_product(z: F64, a: F64)
    requires
        z.magnitude() == 0,
        a.finite(),
    ensures
        arith::product(z, a).magnitude() == 0,
        arith::product(a, z).magnitude() == 0,
{
    lemma_pow2_pos(1074);
    arith::lemma_nearest_zero(pow2(1074) as int);
    assert(binary64::scale(0) == 0);
    let u = arith::absolute(a.units());
    assert(0 * u == 0 && u * 0 == 0);
    lemma_signed(z.negative() != a.negative(), 0);
}

/// One times a finite number is that number.
pub proof fn law_one_product(a: F64)
    requires
        a.finite(),
    ensures
        arith::product(cast::of_integer(1), a) == a,
{
    let u = arith::absolute(a.units());
    let o = cast::one();
    lemma_one();
    assert(o * u >= 0) by (nonlinear_arith)
        requires
            u >= 0,
            o > 0,
    ;
    assert((o * u) * 1 == u * o) by (nonlinear_arith);
    round::lemma_nearest_monotone(o * u, o, u, 1);
    round::lemma_nearest_monotone(u, 1, o * u, o);
    arith::lemma_nearest_exact(a.magnitude());
    lemma_made_of_parts(a);
}

/// One less a zero is one.
pub proof fn law_one_less_zero(z: F64)
    requires
        z.magnitude() == 0,
    ensures
        arith::difference(cast::of_integer(1), z) == cast::of_integer(1),
{
    lemma_one();
    lemma_signed(!z.negative(), 0);
    law_zero_adds_nothing(cast::of_integer(1), arith::negation(z));
}

/// A difference is zero only where the numbers are the same.
pub proof fn law_difference_of_distinct(a: F64, b: F64)
    requires
        a.finite() && b.finite(),
        a.below(b),
    ensures
        arith::difference(b, a).magnitude() != 0,
        !arith::difference(b, a).nan(),
        !arith::difference(b, a).negative(),
{
    lemma_made_of_parts(a);
    lemma_signed(!a.negative(), a.magnitude());
    let s = b.units() - a.units();
    assert(arith::negation(a).units() == -a.units());
    lemma_sum_value(b, arith::negation(a));
    round::lemma_nearest_exists(s, 1);
    binary64::lemma_scale_step(0);
    lemma2_to64();
    assert(binary64::scale(0) == 0);
    arith::lemma_nearest_exact(1);
    round::lemma_nearest_monotone(1, 1, s, 1);
    lemma_signed(false, round::nearest(s, 1));
}

} // verus!
