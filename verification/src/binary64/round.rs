//! Rounding an exact value to the nearest binary64 number.

use vstd::prelude::*;
use vstd::arithmetic::power2::*;
use vstd::arithmetic::mul::*;
use crate::binary64;
use crate::binary64::{HIDDEN_BIT, INFINITY_BITS};

verus! {

/// Whether `m` is the magnitude of the binary64 number nearest to `n / d` units,
/// where `n >= 0` and `d > 0`.
///
/// The value lies between the midpoints on either side of `m`; a value on a
/// midpoint belongs to the even magnitude. What lies past the midpoint between
/// the largest finite number and two to the power 1024 rounds to infinity.
pub open spec fn is_nearest(n: int, d: int, m: nat) -> bool {
    &&& m <= INFINITY_BITS
    &&& m > 0 ==> {
        let low = (binary64::scale((m - 1) as nat) + binary64::scale(m)) * d;
        if m % 2 == 0 { low <= 2 * n } else { low < 2 * n }
    }
    &&& m < INFINITY_BITS ==> {
        let high = (binary64::scale(m) + binary64::scale(m + 1)) * d;
        if m % 2 == 0 { 2 * n <= high } else { 2 * n < high }
    }
}

/// The magnitude of the binary64 number nearest to `n / d` units, ties to even.
pub open spec fn nearest(n: int, d: int) -> nat {
    choose|m: nat| is_nearest(n, d, m)
}

/// A value has no two nearest numbers.
pub proof fn lemma_nearest_unique(n: int, d: int, a: nat, b: nat)
    requires
        d > 0,
        is_nearest(n, d, a),
        is_nearest(n, d, b),
    ensures
        a == b,
{
    if a < b {
        lemma_nearest_ordered(n, d, a, b);
    } else {
        lemma_nearest_ordered(n, d, b, a);
    }
}

proof fn lemma_nearest_ordered(n: int, d: int, a: nat, b: nat)
    requires
        d > 0,
        a <= b,
        is_nearest(n, d, a),
        is_nearest(n, d, b),
    ensures
        a == b,
{
    let high = binary64::scale(a) + binary64::scale(a + 1);
    let low = binary64::scale((b - 1) as nat) + binary64::scale(b);
    if a + 1 < b {
        binary64::lemma_scale_increases(a, (b - 1) as nat);
        binary64::lemma_scale_increases(a + 1, b);
        assert(high * d < low * d) by (nonlinear_arith)
            requires
                high < low,
                d > 0,
        ;
    }
}

/// Pins `nearest` down: the magnitude that is nearest is the one it returns.
pub proof fn lemma_nearest_is(n: int, d: int, m: nat)
    requires
        d > 0,
        is_nearest(n, d, m),
    ensures
        nearest(n, d) == m,
{
    lemma_nearest_unique(n, d, m, nearest(n, d));
}

/// The magnitude whose value is the last that is not above `n / d`.
proof fn lemma_last_not_above(n: int, d: int, m: nat) -> (t: nat)
    requires
        n >= 0,
        d > 0,
        n < binary64::scale(m) * d,
    ensures
        t < m,
        binary64::scale(t) * d <= n < binary64::scale(t + 1) * d,
    decreases m,
{
    assert(binary64::scale(0) == 0);
    assert(0 * d == 0);
    let p = (m - 1) as nat;
    if n < binary64::scale(p) * d {
        lemma_last_not_above(n, d, p)
    } else {
        p
    }
}

/// Every value has a nearest number.
pub proof fn lemma_nearest_exists(n: int, d: int)
    requires
        n >= 0,
        d > 0,
    ensures
        is_nearest(n, d, nearest(n, d)),
{
    let i = INFINITY_BITS as nat;
    if n < binary64::scale(i) * d {
        let t = lemma_last_not_above(n, d, i);
        let s = binary64::scale(t);
        let s1 = binary64::scale(t + 1);
        binary64::lemma_scale_increases(t, t + 1);
        binary64::lemma_scale_increases(t + 1, t + 2);
        let mid = (s + s1) * d;
        if mid < 2 * n || (mid == 2 * n && t % 2 == 1) {
            let high = s1 + binary64::scale(t + 2);
            assert(2 * n < high * d) by (nonlinear_arith)
                requires
                    n < s1 * d,
                    high > 2 * s1,
                    d > 0,
            ;
            assert(is_nearest(n, d, t + 1));
        } else {
            if t > 0 {
                binary64::lemma_scale_increases((t - 1) as nat, t);
                let low = binary64::scale((t - 1) as nat) + s;
                assert(low * d < 2 * n) by (nonlinear_arith)
                    requires
                        s * d <= n,
                        low < 2 * s,
                        d > 0,
                ;
            }
            assert(is_nearest(n, d, t));
        }
    } else {
        binary64::lemma_scale_increases((i - 1) as nat, i);
        let low = binary64::scale((i - 1) as nat) + binary64::scale(i);
        let s = binary64::scale(i);
        assert(low * d < 2 * n) by (nonlinear_arith)
            requires
                s * d <= n,
                low < 2 * s,
                d > 0,
        ;
        assert(is_nearest(n, d, i));
    }
}

/// Rounding keeps the order of values.
pub proof fn lemma_nearest_monotone(n1: int, d1: int, n2: int, d2: int)
    requires
        n1 >= 0,
        d1 > 0,
        n2 >= 0,
        d2 > 0,
        n1 * d2 <= n2 * d1,
    ensures
        nearest(n1, d1) <= nearest(n2, d2),
{
    lemma_nearest_exists(n1, d1);
    lemma_nearest_exists(n2, d2);
    let a = nearest(n1, d1);
    let b = nearest(n2, d2);
    if a > b {
        let low = binary64::scale((a - 1) as nat) + binary64::scale(a);
        let high = binary64::scale(b) + binary64::scale(b + 1);
        binary64::lemma_scale_order((a - 1) as nat, b);
        binary64::lemma_scale_order(a, b + 1);
        if a > b + 1 {
            binary64::lemma_scale_order(b, (a - 1) as nat);
            binary64::lemma_scale_order(b + 1, a);
        }
        assert(high <= low);
        assert(2 * n1 * d2 >= low * d1 * d2) by (nonlinear_arith)
            requires
                low * d1 <= 2 * n1,
                d2 > 0,
        ;
        assert(2 * n2 * d1 <= high * d1 * d2) by (nonlinear_arith)
            requires
                2 * n2 <= high * d2,
                d1 > 0,
        ;
        assert(high * d1 * d2 <= low * d1 * d2) by (nonlinear_arith)
            requires
                high <= low,
                d1 > 0,
                d2 > 0,
        ;
        if a > b + 1 {
            assert(high < low);
            assert(high * d1 * d2 < low * d1 * d2) by (nonlinear_arith)
                requires
                    high < low,
                    d1 > 0,
                    d2 > 0,
            ;
        } else if a % 2 == 1 {
            assert(2 * n1 * d2 > low * d1 * d2) by (nonlinear_arith)
                requires
                    low * d1 < 2 * n1,
                    d2 > 0,
            ;
        } else {
            assert(2 * n2 * d1 < high * d1 * d2) by (nonlinear_arith)
                requires
                    2 * n2 < high * d2,
                    d1 > 0,
            ;
        }
        assert(2 * n1 * d2 == 2 * (n1 * d2) && 2 * n2 * d1 == 2 * (n2 * d1)) by (nonlinear_arith);
    }
}

/// Where exponents start, so that all of them are natural numbers: an exponent
/// `x` stands for a weight of two to the power `x - BIAS` units.
pub const BIAS: u128 = 0x10_0000_0000_0000_0000_0000_0000;

/// What is known of the part of a value below its integer digits.
#[derive(Clone, Copy, PartialEq, Eq, Structural)]
pub enum Rest {
    Zero,
    BelowHalf,
    Half,
    AboveHalf,
    /// More than zero and less than one.
    Between,
}

/// Whether `n / d` units is `t` and the part `rest`, both with the weight of the
/// exponent `x`.
pub open spec fn splits(n: int, d: int, t: nat, x: nat, rest: Rest) -> bool {
    let v = n * pow2(BIAS as nat);
    let q = pow2(x) * d;
    match rest {
        Rest::Zero => v == t * q,
        Rest::BelowHalf => t * q < v && 2 * v < (2 * t + 1) * q,
        Rest::Half => 2 * v == (2 * t + 1) * q,
        Rest::AboveHalf => (2 * t + 1) * q < 2 * v && v < (t + 1) * q,
        Rest::Between => t * q < v && v < (t + 1) * q,
    }
}

/// Halving the digits doubles their weight and moves the lowest one to the rest.
pub proof fn lemma_halve(n: int, d: int, t: nat, x: nat, rest: Rest)
    requires
        d > 0,
        splits(n, d, t, x, rest),
    ensures
        splits(
            n,
            d,
            t / 2,
            x + 1,
            if rest == Rest::Zero {
                if t % 2 == 0 { Rest::Zero } else { Rest::Half }
            } else {
                if t % 2 == 0 { Rest::BelowHalf } else { Rest::AboveHalf }
            },
        ),
{
    let v = n * pow2(BIAS as nat);
    let p = pow2(x);
    let q = p * d;
    lemma_pow2_unfold(x + 1);
    lemma_pow2_pos(x);
    let q2 = pow2(x + 1) * d;
    assert(q2 == 2 * q) by (nonlinear_arith)
        requires
            q2 == (2 * p) * d,
            q == p * d,
    ;
    assert(q > 0) by (nonlinear_arith)
        requires
            q == p * d,
            p > 0,
            d > 0,
    ;
    let h = t / 2;
    if t % 2 == 0 {
        assert(t == 2 * h);
        assert(t * q == h * q2) by (nonlinear_arith)
            requires
                t == 2 * h,
                q2 == 2 * q,
        ;
        assert((t + 1) * q == t * q + q) by (nonlinear_arith);
        assert((2 * t + 1) * q == 2 * (t * q) + q) by (nonlinear_arith);
        assert((2 * h + 1) * q2 == 2 * (h * q2) + q2) by (nonlinear_arith);
    } else {
        assert(t == 2 * h + 1);
        assert(t * q == h * q2 + q) by (nonlinear_arith)
            requires
                t == 2 * h + 1,
                q2 == 2 * q,
        ;
        assert((t + 1) * q == t * q + q) by (nonlinear_arith);
        assert((2 * t + 1) * q == 2 * (t * q) + q) by (nonlinear_arith);
        assert((2 * h + 1) * q2 == 2 * (h * q2) + q2) by (nonlinear_arith);
        assert((h + 1) * q2 == h * q2 + q2) by (nonlinear_arith);
    }
}

/// Doubling the digits of an exact value halves their weight.
proof fn lemma_double(n: int, d: int, t: nat, x: nat)
    requires
        x > 0,
        splits(n, d, t, x, Rest::Zero),
    ensures
        splits(n, d, 2 * t, (x - 1) as nat, Rest::Zero),
{
    lemma_pow2_unfold(x);
    let p = pow2((x - 1) as nat);
    assert((2 * t) * (p * d) == t * ((2 * p) * d)) by (nonlinear_arith);
}

/// The value of the digits that fit a significand, as a magnitude.
proof fn lemma_scale_of_digits(t: nat, shift: nat)
    requires
        t < 2 * HIDDEN_BIT,
        t >= HIDDEN_BIT || shift == 0,
    ensures
        binary64::scale(shift * HIDDEN_BIT as nat + t) == t * pow2(shift),
        binary64::scale(shift * HIDDEN_BIT as nat + t + 1) == (t + 1) * pow2(shift),
{
    let h = HIDDEN_BIT as nat;
    let m = shift * h + t;
    lemma2_to64();
    if t < h {
        assert(m == t);
        assert(m / h == 0);
        assert(t * pow2(0) == t) by (nonlinear_arith)
            requires
                pow2(0) == 1,
        ;
        assert((t + 1) * pow2(0) == t + 1) by (nonlinear_arith)
            requires
                pow2(0) == 1,
        ;
    } else {
        assert(m == (shift + 1) * h + (t - h)) by (nonlinear_arith)
            requires
                m == shift * h + t,
        ;
        vstd::arithmetic::div_mod::lemma_fundamental_div_mod_converse(
            m as int,
            h as int,
            shift as int + 1,
            t - h,
        );
        assert(m / h == shift + 1 && m % h == t - h);
        let p = pow2(shift);
        assert((t + 1) * p == t * p + p) by (nonlinear_arith);
    }
    binary64::lemma_scale_step(m);
}

/// The last step: the digits `t` fit a significand, and the rest decides whether
/// the magnitude below or the one above is nearest.
proof fn lemma_round_digits(n: int, d: int, t: nat, x: nat, rest: Rest, up: bool)
    requires
        d > 0,
        t < 2 * HIDDEN_BIT,
        x >= BIAS,
        t >= HIDDEN_BIT || x == BIAS,
        rest != Rest::Between,
        splits(n, d, t, x, rest),
        up == (rest == Rest::AboveHalf || (rest == Rest::Half && t % 2 == 1)),
    ensures
        ({
            let m = (x - BIAS) as nat * HIDDEN_BIT as nat + t;
            if m >= INFINITY_BITS {
                is_nearest(n, d, INFINITY_BITS as nat)
            } else {
                is_nearest(n, d, if up { m + 1 } else { m })
            }
        }),
{
    let shift = (x - BIAS) as nat;
    let b = pow2(BIAS as nat);
    let p = pow2(shift);
    let v = n * b;
    let q = pow2(x) * d;
    let m = shift * HIDDEN_BIT as nat + t;
    lemma_pow2_adds(BIAS as nat, shift);
    lemma_pow2_pos(BIAS as nat);
    lemma_pow2_pos(shift);
    assert(q == (b * p) * d);
    assert(q > 0) by (nonlinear_arith)
        requires
            q == (b * p) * d,
            b > 0,
            p > 0,
            d > 0,
    ;
    lemma_scale_of_digits(t, shift);
    assert(m % 2 == t % 2) by (nonlinear_arith)
        requires
            m == shift * 0x10_0000_0000_0000 + t,
    ;
    // n / d is at least the value of m, and less than that of m + 1.
    let s = binary64::scale(m);
    let s1 = binary64::scale(m + 1);
    assert(t * q <= v && v < (t + 1) * q) by {
        assert((t + 1) * q == t * q + q) by (nonlinear_arith);
        assert((2 * t + 1) * q == 2 * (t * q) + q) by (nonlinear_arith);
    }
    assert(s * d <= n) by (nonlinear_arith)
        requires
            s == t * p,
            t * q <= v,
            q == (b * p) * d,
            v == n * b,
            b > 0,
    ;
    assert(n < s1 * d) by (nonlinear_arith)
        requires
            s1 == (t + 1) * p,
            v < (t + 1) * q,
            q == (b * p) * d,
            v == n * b,
            b > 0,
    ;
    // The midpoint of the two, against the value.
    let mid = (s + s1) * d;
    assert(s + s1 == (2 * t + 1) * p) by (nonlinear_arith)
        requires
            s == t * p,
            s1 == (t + 1) * p,
    ;
    let tq = (2 * t + 1) * q;
    assert(mid * b == tq) by (nonlinear_arith)
        requires
            mid == ((2 * t + 1) * p) * d,
            tq == (2 * t + 1) * ((b * p) * d),
    ;
    assert(2 * v == (2 * n) * b) by (nonlinear_arith)
        requires
            v == n * b,
    ;
    assert(tq < 2 * v ==> mid < 2 * n) by (nonlinear_arith)
        requires
            mid * b == tq,
            2 * v == (2 * n) * b,
            b > 0,
    ;
    assert(tq == 2 * v ==> mid == 2 * n) by (nonlinear_arith)
        requires
            mid * b == tq,
            2 * v == (2 * n) * b,
            b > 0,
    ;
    assert(tq > 2 * v ==> mid > 2 * n) by (nonlinear_arith)
        requires
            mid * b == tq,
            2 * v == (2 * n) * b,
            b > 0,
    ;
    if m >= INFINITY_BITS {
        let i = INFINITY_BITS as nat;
        binary64::lemma_scale_increases((i - 1) as nat, i);
        binary64::lemma_scale_order(i, m);
        let low = binary64::scale((i - 1) as nat) + binary64::scale(i);
        assert(low * d <= 2 * n) by (nonlinear_arith)
            requires
                low <= 2 * s,
                s * d <= n,
                d > 0,
        ;
    } else if up {
        assert((2 * t + 1) * q == tq);
        if m + 1 < INFINITY_BITS {
            binary64::lemma_scale_increases(m + 1, m + 2);
            let high = s1 + binary64::scale(m + 2);
            assert(2 * n < high * d) by (nonlinear_arith)
                requires
                    2 * s1 < high,
                    n < s1 * d,
                    d > 0,
            ;
        }
    } else {
        if m > 0 {
            binary64::lemma_scale_increases((m - 1) as nat, m);
            let low = binary64::scale((m - 1) as nat) + s;
            assert(low * d < 2 * n) by (nonlinear_arith)
                requires
                    low < 2 * s,
                    s * d <= n,
                    d > 0,
            ;
        }
        assert((2 * t + 1) * q == 2 * (t * q) + q) by (nonlinear_arith);
    }
}

/// The magnitude of the binary64 number nearest to the exact value `n / d`,
/// given by its leading digits `digits`, their exponent and the rest.
pub fn round(digits: u128, exponent: u128, rest: Rest, Ghost(n): Ghost<int>, Ghost(d): Ghost<int>) -> (r: u64)
    requires
        d > 0,
        0 < digits < 0x4000_0000_0000_0000_0000_0000_0000_0000,
        128 <= exponent < 2 * BIAS,
        splits(n, d, digits as nat, exponent as nat, rest),
        rest != Rest::Zero ==> digits >= 2 * HIDDEN_BIT,
    ensures
        is_nearest(n, d, r as nat),
        r == nearest(n, d),
{
    let mut t: u128 = digits;
    let mut x: u128 = exponent;
    let mut rest: Rest = rest;
    let mut left: u128 = 64;
    while left > 0 && rest == Rest::Zero && t < 2 * (HIDDEN_BIT as u128)
        invariant
            d > 0,
            0 < t < 0x4000_0000_0000_0000_0000_0000_0000_0000,
            left <= 64,
            64 + left <= x < 2 * BIAS,
            splits(n, d, t as nat, x as nat, rest),
            rest != Rest::Zero ==> t >= 2 * HIDDEN_BIT,
            left < 64 ==> t >= pow2((64 - left) as nat),
        decreases left,
    {
        proof {
            lemma_double(n, d, t as nat, x as nat);
            lemma_pow2_unfold((65 - left) as nat);
            lemma2_to64();
            lemma2_to64_rest();
        }
        t = t * 2;
        x = x - 1;
        left = left - 1;
    }
    proof {
        lemma2_to64_rest();
    }
    assert(t >= 2 * HIDDEN_BIT);
    while t >= 2 * (HIDDEN_BIT as u128) || x < BIAS
        invariant
            d > 0,
            x + t <= 2 * BIAS + 0x4000_0000_0000_0000_0000_0000_0000_0000,
            t >= HIDDEN_BIT || x <= BIAS,
            t < 2 * HIDDEN_BIT ==> rest != Rest::Between,
            splits(n, d, t as nat, x as nat, rest),
        decreases (if x < BIAS { BIAS - x } else { 0 }) + t,
    {
        proof {
            lemma_halve(n, d, t as nat, x as nat, rest);
        }
        if t % 2 == 0 {
            rest = if rest == Rest::Zero { Rest::Zero } else { Rest::BelowHalf };
        } else {
            rest = if rest == Rest::Zero { Rest::Half } else { Rest::AboveHalf };
        }
        t = t / 2;
        x = x + 1;
    }
    let up: bool = rest == Rest::AboveHalf || (rest == Rest::Half && t % 2 == 1);
    proof {
        lemma_round_digits(n, d, t as nat, x as nat, rest, up);
    }
    let shift: u128 = x - BIAS;
    if shift >= 2047 {
        proof {
            let m = shift as nat * HIDDEN_BIT as nat + t as nat;
            assert(m >= INFINITY_BITS) by (nonlinear_arith)
                requires
                    m == shift * 0x10_0000_0000_0000 + t,
                    shift >= 2047,
                    INFINITY_BITS == 0x7ff0_0000_0000_0000u64,
            ;
            lemma_nearest_is(n, d, INFINITY_BITS as nat);
        }
        INFINITY_BITS
    } else {
        let m: u64 = (shift as u64) * HIDDEN_BIT + (t as u64);
        if m >= INFINITY_BITS {
            proof {
                lemma_nearest_is(n, d, INFINITY_BITS as nat);
            }
            INFINITY_BITS
        } else if up {
            proof {
                lemma_nearest_is(n, d, m as nat + 1);
            }
            m + 1
        } else {
            proof {
                lemma_nearest_is(n, d, m as nat);
            }
            m
        }
    }
}

} // verus!
