//! How far rounding takes a result from the exact value.

use vstd::prelude::*;
use vstd::arithmetic::power2::*;
use crate::binary64;
use crate::binary64::{F64, HIDDEN_BIT, INFINITY_BITS};
use crate::binary64::arith;
use crate::binary64::cast;
use crate::binary64::laws;
use crate::binary64::round;

verus! {

/// Whether `v / d` is as near to `n / d` as rounding takes it: within the part
/// two to the power -53 of it, or half a unit.
pub open spec fn is_close(v: int, n: int, d: int) -> bool {
    let size = arith::absolute(n) + HIDDEN_BIT * d;
    (v - n) * (2 * HIDDEN_BIT) <= size && (n - v) * (2 * HIDDEN_BIT) <= size
}

/// Reads closeness as a bound on the distance.
pub proof fn lemma_distance(v: int, n: int, d: int, size: int)
    requires
        is_close(v, n, d),
        arith::absolute(n) + HIDDEN_BIT * d <= 2 * size,
    ensures
        arith::absolute(v - n) * HIDDEN_BIT <= size,
{
    let h = HIDDEN_BIT as int;
    assert((v - n) * (2 * h) == 2 * ((v - n) * h)) by (nonlinear_arith);
    assert((n - v) * (2 * h) == 2 * ((n - v) * h)) by (nonlinear_arith);
}

/// What is known of the numbers next to a number.
pub proof fn lemma_neighbours(m: nat)
    requires
        m > 0,
    ensures
        ({
            let h = HIDDEN_BIT as int;
            let s = binary64::scale(m) as int;
            let up = binary64::scale(m + 1) - s;
            let down = s - binary64::scale((m - 1) as nat);
            &&& up >= 1
            &&& down >= 1
            &&& up == 1 || h * up <= s
            &&& down == 1 || (2 * h + 1) * down <= 2 * s
        }),
{
    let h = HIDDEN_BIT as nat;
    let e = m / h;
    let f = m % h;
    let p = (m - 1) as nat;
    binary64::lemma_scale_step(m);
    binary64::lemma_scale_step(p);
    let k = if e == 0 { 0nat } else { (e - 1) as nat };
    lemma_pow2_pos(k);
    lemma2_to64();
    if e > 0 {
        let w = pow2(k) as int;
        let s = binary64::scale(m) as int;
        assert(s == (h + f) * w);
        assert(h * w <= (h + f) * w) by (nonlinear_arith)
            requires
                w > 0,
                f >= 0,
        ;
        if f > 0 {
            assert(p / h == e && p % h == f - 1);
            assert((2 * h + 1) * w <= 2 * ((h + f) * w)) by (nonlinear_arith)
                requires
                    w > 0,
                    f >= 1,
            ;
        } else {
            assert(p / h == e - 1);
            if e > 1 {
                lemma_pow2_unfold((e - 1) as nat);
                let v = pow2((e - 2) as nat) as int;
                lemma_pow2_pos((e - 2) as nat);
                assert(w == 2 * v);
                assert((2 * h + 1) * v <= 2 * (h * (2 * v))) by (nonlinear_arith)
                    requires
                        v > 0,
                        h >= 1,
                ;
                assert((h + 0) * w == h * (2 * v));
            }
        }
    }
}

/// Rounding takes a value to one that is close.
pub proof fn lemma_rounding_error(n: int, d: int)
    requires
        n >= 0,
        d > 0,
        round::nearest(n, d) < INFINITY_BITS,
    ensures
        is_close(binary64::scale(round::nearest(n, d)) * d, n, d),
{
    round::lemma_nearest_exists(n, d);
    let m = round::nearest(n, d);
    let h = HIDDEN_BIT as int;
    let s = binary64::scale(m) as int;
    let up = binary64::scale(m + 1) - s;
    assert((s + (s + up)) * d == 2 * (s * d) + up * d) by (nonlinear_arith);
    if m == 0 {
        binary64::lemma_scale_step(0);
        lemma2_to64();
        assert(binary64::scale(0) == 0);
        lemma_above(n, d, h, s, up);
        assert(0 * d == 0);
        assert((0 - n) * (2 * h) <= 0) by (nonlinear_arith)
            requires
                n >= 0,
                h > 0,
        ;
        assert(h * d >= 0) by (nonlinear_arith)
            requires
                h > 0,
                d > 0,
        ;
    } else {
        let down = s - binary64::scale((m - 1) as nat);
        lemma_neighbours(m);
        assert(((s - down) + s) * d == 2 * (s * d) - down * d) by (nonlinear_arith);
        lemma_above(n, d, h, s, up);
        lemma_below(n, d, h, s, down);
    }
}

proof fn lemma_above(n: int, d: int, h: int, s: int, up: int)
    requires
        n >= 0,
        d > 0,
        h >= 1,
        s >= 0,
        2 * n <= 2 * (s * d) + up * d,
        up == 1 || h * up <= s,
    ensures
        (n - s * d) * (2 * h) <= n + h * d,
{
    let v = s * d;
    assert((n - v) * (2 * h) <= h * (up * d)) by (nonlinear_arith)
        requires
            2 * (n - v) <= up * d,
            h >= 1,
    ;
    assert(h * d >= 0) by (nonlinear_arith)
        requires
            h >= 1,
            d > 0,
    ;
    if up != 1 {
        assert(h * (up * d) <= v) by (nonlinear_arith)
            requires
                h * up <= s,
                d > 0,
                v == s * d,
        ;
        if n < v {
            assert((n - v) * (2 * h) <= 0) by (nonlinear_arith)
                requires
                    n < v,
                    h >= 1,
            ;
        }
    }
}

proof fn lemma_below(n: int, d: int, h: int, s: int, down: int)
    requires
        n >= 0,
        d > 0,
        h >= 1,
        s >= 0,
        2 * (s * d) - down * d <= 2 * n,
        down == 1 || (2 * h + 1) * down <= 2 * s,
    ensures
        (s * d - n) * (2 * h) <= n + h * d,
{
    let v = s * d;
    assert((v - n) * (2 * h) <= h * (down * d)) by (nonlinear_arith)
        requires
            2 * (v - n) <= down * d,
            h >= 1,
    ;
    assert(h * d >= 0) by (nonlinear_arith)
        requires
            h >= 1,
            d > 0,
    ;
    if down != 1 {
        assert((2 * h + 1) * (down * d) <= 2 * v) by (nonlinear_arith)
            requires
                (2 * h + 1) * down <= 2 * s,
                d > 0,
                v == s * d,
        ;
        assert((2 * h + 1) * (down * d) == 2 * (h * (down * d)) + down * d) by (nonlinear_arith);
    }
}

/// A bound on the size of results here: two to the power 60, in units.
pub open spec fn limit() -> int {
    pow2(1134) as int
}

/// The nearest number to a value within the limit is finite.
proof fn lemma_within_limit(n: int, d: int)
    requires
        n >= 0,
        d > 0,
        n <= limit() * d,
    ensures
        round::nearest(n, d) < INFINITY_BITS,
{
    let h = HIDDEN_BIT as nat;
    laws::lemma_scale_power(1083);
    arith::lemma_nearest_exact(1083 * h);
    lemma_pow2_pos(1134);
    assert(n * 1 <= limit() * d);
    round::lemma_nearest_monotone(n, d, limit(), 1);
}

/// A sum is close to the exact one.
pub proof fn lemma_sum_close(a: F64, b: F64)
    requires
        a.finite() && b.finite(),
        -limit() <= a.units() + b.units() <= limit(),
    ensures
        arith::sum(a, b).finite(),
        is_close(arith::sum(a, b).units(), a.units() + b.units(), 1),
{
    let s = a.units() + b.units();
    let n = arith::absolute(s);
    assert(limit() * 1 == limit());
    lemma_within_limit(n, 1);
    lemma_rounding_error(n, 1);
    let m = round::nearest(n, 1);
    assert(binary64::scale(m) * 1 == binary64::scale(m));
    laws::lemma_signed(s < 0, m);
    if s == 0 {
        laws::lemma_signed(a.negative() && b.negative(), 0);
        assert(binary64::scale(0) == 0);
    }
}

/// A difference is close to the exact one.
pub proof fn lemma_difference_close(a: F64, b: F64)
    requires
        a.finite() && b.finite(),
        -limit() <= a.units() - b.units() <= limit(),
    ensures
        arith::difference(a, b).finite(),
        is_close(arith::difference(a, b).units(), a.units() - b.units(), 1),
{
    laws::lemma_made_of_parts(b);
    laws::lemma_signed(!b.negative(), b.magnitude());
    lemma_sum_close(a, arith::negation(b));
}

/// A product is close to the exact one.
pub proof fn lemma_product_close(a: F64, b: F64)
    requires
        a.finite() && b.finite(),
        arith::absolute(a.units()) * arith::absolute(b.units()) <= limit() * cast::one(),
    ensures
        arith::product(a, b).finite(),
        is_close(
            arith::product(a, b).units() * cast::one(),
            a.units() * b.units(),
            cast::one(),
        ),
{
    let o = cast::one();
    lemma_pow2_pos(1074);
    let (u, v) = (a.units(), b.units());
    let n = arith::absolute(u) * arith::absolute(v);
    assert(n >= 0) by (nonlinear_arith)
        requires
            n == arith::absolute(u) * arith::absolute(v),
            arith::absolute(u) >= 0,
            arith::absolute(v) >= 0,
    ;
    lemma_within_limit(n, o);
    lemma_rounding_error(n, o);
    let m = round::nearest(n, o);
    let negative = a.negative() != b.negative();
    laws::lemma_signed(negative, m);
    let r = arith::product(a, b).units();
    let w = binary64::scale(m) as int;
    assert((-w) * o == -(w * o)) by (nonlinear_arith);
    assert((-u) * v == -(u * v) && u * (-v) == -(u * v) && (-u) * (-v) == u * v)
        by (nonlinear_arith);
    if n == 0 {
        arith::lemma_nearest_zero(o);
        assert(binary64::scale(0) == 0);
        assert(0 * o == 0);
        assert(u * v == 0) by {
            assert(u == 0 || v == 0) by (nonlinear_arith)
                requires
                    arith::absolute(u) * arith::absolute(v) == 0,
                    arith::absolute(u) == u || arith::absolute(u) == -u,
                    arith::absolute(v) == v || arith::absolute(v) == -v,
            ;
            if u == 0 {
                assert(0 * v == 0);
            } else {
                assert(u * 0 == 0);
            }
        }
    } else {
        assert(u * v == (if negative { -n } else { n })) by {
            if u == 0 {
                assert(0 * arith::absolute(v) == 0);
            }
            if v == 0 {
                assert(arith::absolute(u) * 0 == 0);
            }
        }
    }
}

/// A quotient by a positive number is close to the exact one.
pub proof fn lemma_quotient_close(a: F64, b: F64)
    requires
        a.finite() && b.finite(),
        b.units() > 0,
        arith::absolute(a.units()) * cast::one() <= limit() * b.units(),
    ensures
        arith::quotient(a, b).finite(),
        is_close(
            arith::quotient(a, b).units() * b.units(),
            a.units() * cast::one(),
            b.units(),
        ),
{
    let o = cast::one();
    lemma_pow2_pos(1074);
    let (u, d) = (a.units(), b.units());
    let n = arith::absolute(u) * o;
    assert(n >= 0) by (nonlinear_arith)
        requires
            n == arith::absolute(u) * o,
            arith::absolute(u) >= 0,
            o > 0,
    ;
    binary64::lemma_scale_order(b.magnitude(), 0);
    lemma_within_limit(n, d);
    lemma_rounding_error(n, d);
    let m = round::nearest(n, d);
    laws::lemma_signed(a.negative(), m);
    let w = binary64::scale(m) as int;
    assert((-w) * d == -(w * d)) by (nonlinear_arith);
    assert((-u) * o == -(u * o)) by (nonlinear_arith);
    if n == 0 {
        arith::lemma_nearest_zero(d);
        assert(binary64::scale(0) == 0);
        assert(0 * d == 0);
        assert(u == 0) by (nonlinear_arith)
            requires
                arith::absolute(u) * o == 0,
                o > 0,
                arith::absolute(u) == u || arith::absolute(u) == -u,
        ;
    } else {
        if u == 0 {
            assert(0 * o == 0);
        }
    }
}

/// Integers up to two to the power 53 are numbers themselves.
pub proof fn lemma_integer_exact(i: nat, e: nat)
    requires
        e <= 52,
        i == 0 || pow2(e) <= i < pow2(e + 1),
    ensures
        round::nearest(i * cast::one(), 1) < INFINITY_BITS,
        binary64::scale(round::nearest(i * cast::one(), 1)) == i * cast::one(),
{
    let o = cast::one();
    lemma_pow2_pos(1074);
    if i == 0 {
        assert(0 * o == 0);
        arith::lemma_nearest_zero(1);
        assert(binary64::scale(0) == 0);
    } else {
        let h = HIDDEN_BIT as nat;
        let p = pow2((52 - e) as nat);
        lemma2_to64_rest();
        lemma_pow2_adds(e, (52 - e) as nat);
        lemma_pow2_adds(e + 1, (52 - e) as nat);
        lemma_pow2_unfold(53);
        lemma_pow2_pos((52 - e) as nat);
        let f = i * p;
        assert(h <= f < 2 * h) by (nonlinear_arith)
            requires
                f == i * p,
                pow2(e) <= i < pow2(e + 1),
                pow2(e) * p == h,
                pow2(e + 1) * p == 2 * h,
                p > 0,
        ;
        let m = (1023 + e) * h + (f - h);
        vstd::arithmetic::div_mod::lemma_fundamental_div_mod_converse(
            m as int,
            h as int,
            1023 + e as int,
            f - h as int,
        );
        lemma_pow2_adds((52 - e) as nat, 1022 + e);
        assert(binary64::scale(m as nat) == f * pow2(1022 + e));
        assert(f * pow2(1022 + e) == i * (p * pow2(1022 + e))) by (nonlinear_arith)
            requires
                f == i * p,
        ;
        assert(m < INFINITY_BITS) by (nonlinear_arith)
            requires
                m == (1023 + e) * h + (f - h),
                e <= 52,
                f < 2 * h,
                h == 0x10_0000_0000_0000,
                INFINITY_BITS == 0x7ff0_0000_0000_0000u64,
        ;
        arith::lemma_nearest_exact(m as nat);
    }
}

/// The power of two that starts the range of an integer.
proof fn lemma_leading_power(i: nat, k: nat) -> (e: nat)
    requires
        0 < i < pow2(k),
    ensures
        e < k,
        pow2(e) <= i < pow2(e + 1),
    decreases k,
{
    lemma2_to64();
    if k == 0 {
        0
    } else if i < pow2((k - 1) as nat) {
        lemma_leading_power(i, (k - 1) as nat)
    } else {
        (k - 1) as nat
    }
}

/// An integer below two to the power 53 is the value of its number.
pub proof fn lemma_integer_value(i: int)
    requires
        -pow2(53) < i < pow2(53),
    ensures
        cast::of_integer(i).finite(),
        cast::of_integer(i).units() == i * cast::one(),
        cast::of_integer(i).negative() == (i < 0),
        round::nearest(arith::absolute(i) * cast::one(), 1) < INFINITY_BITS,
        binary64::scale(round::nearest(arith::absolute(i) * cast::one(), 1)) == arith::absolute(i)
            * cast::one(),
{
    let n = arith::absolute(i) as nat;
    let e = if n == 0 { 0nat } else { lemma_leading_power(n, 53) };
    lemma_integer_exact(n, e);
    laws::lemma_signed(i < 0, round::nearest(n * cast::one(), 1));
    assert((-i) * cast::one() == -(i * cast::one())) by (nonlinear_arith);
}

} // verus!
