//! What the operations return, measured against the exact values.

use vstd::prelude::*;
use vstd::arithmetic::div_mod::*;
use vstd::arithmetic::power2::*;
use crate::binary64;
use crate::binary64::{F64, INFINITY_BITS};
use crate::binary64::arith;
use crate::binary64::cast;
use crate::binary64::error;
use crate::binary64::excess;
use crate::binary64::laws;
use crate::binary64::root;
use crate::binary64::round;

verus! {

/// Whether `r` is the number nearest to `n / d` units: every other number lies on the far
/// side of the middle between it and `r`, and of two that are as near `r` is the even one.
/// What is infinite counts as two to the power 1024 here.
#[verifier::opaque]
pub open spec fn is_nearest_number(r: F64, n: int, d: int) -> bool {
    &&& !r.nan()
    &&& forall|y: F64|
        #![trigger y.units()]
        !y.nan() ==> {
            &&& y.units() < r.units() ==> (y.units() + r.units()) * d <= 2 * n
            &&& y.units() > r.units() ==> (y.units() + r.units()) * d >= 2 * n
            &&& y.units() != r.units() && (y.units() + r.units()) * d == 2 * n ==> r.bits % 2 == 0
        }
}

/// The nearest magnitude against any other.
proof fn lemma_nearest_of_all(n: int, d: int, k: nat)
    requires
        n >= 0,
        d > 0,
        k <= INFINITY_BITS,
    ensures
        ({
            let m = round::nearest(n, d);
            let middle = (binary64::scale(k) + binary64::scale(m)) * d;
            &&& m <= INFINITY_BITS
            &&& k < m ==> middle <= 2 * n
            &&& k > m ==> middle >= 2 * n
            &&& k != m && middle == 2 * n ==> m % 2 == 0
        }),
{
    let m = round::nearest(n, d);
    round::lemma_nearest_exists(n, d);
    let (s, t) = (binary64::scale(k) as int, binary64::scale(m) as int);
    if k < m {
        let b = (m - 1) as nat;
        binary64::lemma_scale_order(k, b);
        binary64::lemma_scale_order(b, k);
        let u = binary64::scale(b) as int;
        assert((s + t) * d <= (u + t) * d) by (nonlinear_arith)
            requires
                s <= u,
                d > 0,
        ;
    } else if k > m {
        binary64::lemma_scale_order(k, m + 1);
        binary64::lemma_scale_order(m + 1, k);
        let u = binary64::scale(m + 1) as int;
        assert((s + t) * d >= (u + t) * d) by (nonlinear_arith)
            requires
                s >= u,
                d > 0,
        ;
    }
}

/// A nearest magnitude with a sign is the nearest number.
pub proof fn lemma_nearest_number(negative: bool, n: int, d: int)
    requires
        n >= 0,
        d > 0,
    ensures
        is_nearest_number(
            binary64::signed(negative, round::nearest(n, d)),
            if negative { -n } else { n },
            d,
        ),
{
    reveal(is_nearest_number);
    let m = round::nearest(n, d);
    lemma_nearest_of_all(n, d, 0);
    let r = binary64::signed(negative, m);
    let e = if negative { -n } else { n };
    laws::lemma_signed(negative, m);
    assert(binary64::scale(0) == 0);
    let v = binary64::scale(m) as int;
    assert(r.bits % 2 == m % 2);
    assert forall|y: F64| #![trigger y.units()] !y.nan() implies {
        &&& y.units() < r.units() ==> (y.units() + r.units()) * d <= 2 * e
        &&& y.units() > r.units() ==> (y.units() + r.units()) * d >= 2 * e
        &&& y.units() != r.units() && (y.units() + r.units()) * d == 2 * e ==> r.bits % 2 == 0
    } by {
        let k = y.magnitude();
        lemma_nearest_of_all(n, d, k);
        binary64::lemma_scale_order(k, m);
        binary64::lemma_scale_order(m, k);
        binary64::lemma_scale_order(m, 0);
        let s = binary64::scale(k) as int;
        assert((-s + v) * d <= v * d && (s - v) * d >= -(v * d) && (-s - v) * d == -((s + v) * d)
            && (0 + v) * d == v * d) by (nonlinear_arith)
            requires
                s >= 0,
                d > 0,
        ;
        if y.negative() != negative && s > 0 {
            assert((-s + v) * d < v * d && (s - v) * d > -(v * d)) by (nonlinear_arith)
                requires
                    s > 0,
                    d > 0,
            ;
        }
    }
}

/// A sum is the number nearest to the exact sum.
pub proof fn law_sums_are_nearest(a: F64, b: F64, r: F64)
    requires
        a.finite() && b.finite(),
        call_ensures(F64::plus, (a, b), r),
    ensures
        is_nearest_number(r, a.units() + b.units(), 1),
{
    lemma_sum(a, b);
}

/// The sum of two numbers.
pub proof fn lemma_sum(a: F64, b: F64)
    requires
        a.finite() && b.finite(),
    ensures
        is_nearest_number(arith::sum(a, b), a.units() + b.units(), 1),
{
    let s = a.units() + b.units();
    if s == 0 {
        arith::lemma_nearest_zero(1);
        lemma_nearest_number(a.negative() && b.negative(), 0, 1);
    } else {
        lemma_nearest_number(s < 0, arith::absolute(s), 1);
    }
}

/// A difference is the number nearest to the exact difference.
pub proof fn law_differences_are_nearest(a: F64, b: F64, r: F64)
    requires
        a.finite() && b.finite(),
        call_ensures(F64::minus, (a, b), r),
    ensures
        is_nearest_number(r, a.units() - b.units(), 1),
{
    lemma_difference(a, b);
}

/// The difference of two numbers.
pub proof fn lemma_difference(a: F64, b: F64)
    requires
        a.finite() && b.finite(),
    ensures
        is_nearest_number(arith::difference(a, b), a.units() - b.units(), 1),
{
    laws::lemma_made_of_parts(b);
    laws::lemma_signed(!b.negative(), b.magnitude());
    let c = arith::negation(b);
    let s = a.units() + c.units();
    assert(s == a.units() - b.units());
    if s == 0 {
        arith::lemma_nearest_zero(1);
        lemma_nearest_number(a.negative() && c.negative(), 0, 1);
    } else {
        lemma_nearest_number(s < 0, arith::absolute(s), 1);
    }
}

/// A product is the number nearest to the exact product.
pub proof fn law_products_are_nearest(a: F64, b: F64, r: F64)
    requires
        a.finite() && b.finite(),
        call_ensures(F64::times, (a, b), r),
    ensures
        is_nearest_number(r, a.units() * b.units(), cast::one()),
{
    lemma_product(a, b);
}

/// The product of two numbers.
pub proof fn lemma_product(a: F64, b: F64)
    requires
        a.finite() && b.finite(),
    ensures
        is_nearest_number(arith::product(a, b), a.units() * b.units(), cast::one()),
{
    lemma_pow2_pos(1074);
    let (u, v) = (a.units(), b.units());
    let n = arith::absolute(u) * arith::absolute(v);
    lemma_sign_of_product(u, v);
    let negative = a.negative() != b.negative();
    lemma_nearest_number(negative, n, cast::one());
    if u == 0 || v == 0 {
        assert(n == 0 && u * v == 0) by (nonlinear_arith)
            requires
                u == 0 || v == 0,
                n == arith::absolute(u) * arith::absolute(v),
                arith::absolute(u) == u || arith::absolute(u) == -u,
                arith::absolute(v) == v || arith::absolute(v) == -v,
        ;
    }
}

proof fn lemma_sign_of_product(u: int, v: int)
    ensures
        arith::absolute(u) * arith::absolute(v) >= 0,
        u * v == (if (u < 0) != (v < 0) {
            -(arith::absolute(u) * arith::absolute(v))
        } else {
            arith::absolute(u) * arith::absolute(v)
        }),
{
    let (x, y) = (arith::absolute(u), arith::absolute(v));
    assert((-u) * v == -(u * v) && u * (-v) == -(u * v) && (-u) * (-v) == u * v)
        by (nonlinear_arith);
    assert(x * y >= 0) by (nonlinear_arith)
        requires
            x >= 0,
            y >= 0,
    ;
}

/// A quotient is the number nearest to the exact quotient.
pub proof fn law_quotients_are_nearest(a: F64, b: F64, r: F64)
    requires
        a.finite() && b.finite(),
        b.units() != 0,
        call_ensures(F64::over, (a, b), r),
    ensures
        b.units() > 0 ==> is_nearest_number(r, a.units() * cast::one(), b.units()),
        b.units() < 0 ==> is_nearest_number(r, -(a.units() * cast::one()), -b.units()),
{
    lemma_quotient(a, b);
}

/// The quotient of two numbers.
pub proof fn lemma_quotient(a: F64, b: F64)
    requires
        a.finite() && b.finite(),
        b.units() != 0,
    ensures
        b.units() > 0 ==> is_nearest_number(arith::quotient(a, b), a.units() * cast::one(), b.units()),
        b.units() < 0 ==> is_nearest_number(arith::quotient(a, b), -(a.units() * cast::one()), -b.units()),
{
    lemma_pow2_pos(1074);
    let o = cast::one();
    let (u, v) = (a.units(), b.units());
    assert(binary64::scale(0) == 0);
    let n = arith::absolute(u) * o;
    lemma_sign_of_product(u, o);
    let negative = a.negative() != b.negative();
    binary64::lemma_scale_order(b.magnitude(), 0);
    lemma_nearest_number(negative, n, arith::absolute(v));
    if u == 0 {
        assert(0 * o == 0);
    }
}

/// Sums and products of what is no number are no numbers, and neither is the difference of
/// two infinities or a division of zero by zero.
pub proof fn law_no_numbers(a: F64, b: F64, sum: F64, product: F64, quotient: F64)
    requires
        call_ensures(F64::plus, (a, b), sum),
        call_ensures(F64::times, (a, b), product),
        call_ensures(F64::over, (a, b), quotient),
    ensures
        a.finite() && b.finite() ==> !sum.nan() && !product.nan(),
        a.nan() || b.nan() ==> sum.nan() && product.nan() && quotient.nan(),
        a.infinite() && b.finite() ==> sum == a,
        a.finite() && b.infinite() ==> sum == b,
        a.infinite() && b.infinite() ==> (sum.nan() <==> a.negative() != b.negative()),
        a.finite() && b.finite() && a.magnitude() == 0 && b.magnitude() == 0 ==> quotient.nan(),
        a.finite() && a.magnitude() != 0 && b.magnitude() == 0 ==> quotient.infinite(),
{
    reveal(is_nearest_number);
    if a.finite() && b.finite() {
        law_sums_are_nearest(a, b, sum);
        law_products_are_nearest(a, b, product);
    }
    laws::lemma_signed(a.negative() != b.negative(), INFINITY_BITS as nat);
}

/// Whether `r` is the number nearest to the root of `a`: every other number from zero up
/// lies on the far side of the middle between it and the root. The root of zero is zero.
#[verifier::opaque]
pub open spec fn is_root(r: F64, a: F64) -> bool {
    let n = a.units() * cast::one();
    if a.units() == 0 {
        !r.nan() && r.units() == 0
    } else {
        &&& r.finite() && r.units() > 0
        &&& forall|y: F64|
            #![trigger y.units()]
            !y.nan() && y.units() >= 0 ==> {
                let m = y.units() + r.units();
                &&& y.units() < r.units() ==> m * m <= 4 * n
                &&& y.units() > r.units() ==> m * m >= 4 * n
                &&& y.units() != r.units() && m * m == 4 * n ==> r.bits % 2 == 0
            }
    }
}

/// Roots are the numbers nearest to the exact roots. What is below zero has none.
pub proof fn law_roots_are_nearest(a: F64, r: F64)
    requires
        a.finite(),
        call_ensures(F64::sqrt, (a,), r),
    ensures
        a.units() >= 0 ==> is_root(r, a),
        a.units() < 0 ==> r.nan(),
{
    assert(binary64::scale(0) == 0);
    if a.units() >= 0 {
        lemma_root(a);
    }
}

/// The root of a number.
pub proof fn lemma_root(a: F64)
    requires
        a.finite(),
        a.units() >= 0,
    ensures
        is_root(root::square_root(a), a),
{
    reveal(is_root);
    assert(binary64::scale(0) == 0);
    binary64::lemma_scale_order(a.magnitude(), 0);
    if a.units() > 0 {
        let r = root::square_root(a);
        let n = a.units() * cast::one();
        lemma_positive_root(a, a);
        assert forall|y: F64| #![trigger y.units()] !y.nan() && y.units() >= 0 implies {
            let m = y.units() + r.units();
            &&& y.units() < r.units() ==> m * m <= 4 * n
            &&& y.units() > r.units() ==> m * m >= 4 * n
            &&& y.units() != r.units() && m * m == 4 * n ==> r.bits % 2 == 0
        } by {
            lemma_positive_root(a, y);
        }
    }
}

proof fn lemma_positive_root(a: F64, y: F64)
    requires
        a.finite(),
        a.units() > 0,
        !y.nan(),
        y.units() >= 0,
    ensures
        ({
            let r = root::square_root(a);
            let (m, n) = (y.units() + r.units(), a.units() * cast::one());
            &&& r.finite()
            &&& r.units() > 0
            &&& y.units() < r.units() ==> m * m <= 4 * n
            &&& y.units() > r.units() ==> m * m >= 4 * n
            &&& y.units() != r.units() && m * m == 4 * n ==> r.bits % 2 == 0
        }),
{
    let r = root::square_root(a);
    let o = cast::one();
    let n = a.units() * o;
    let top = INFINITY_BITS as nat;
    lemma_pow2_pos(1074);
    assert(binary64::scale(0) == 0);
    binary64::lemma_scale_order(a.magnitude(), 0);
    binary64::lemma_scale_order(a.magnitude(), top);
    laws::lemma_scale_power(2047);
    lemma_pow2_adds(2098, 1074);
    lemma_pow2_adds(1586, 1586);
    let u = a.units();
    assert(1 <= n < pow2(2098) * o) by (nonlinear_arith)
        requires
            n == u * o,
            0 < u < pow2(2098),
            o > 0,
    ;
    excess::lemma_root_exists(n, 1535);
    let m = root::nearest_root(n);
    laws::lemma_signed(false, m);
    let k = y.magnitude();
    binary64::lemma_scale_order(m, 0);
    binary64::lemma_scale_order(k, 0);
    binary64::lemma_scale_order(k, m);
    binary64::lemma_scale_order(m, k);
    let (s, t) = (binary64::scale(k) as int, binary64::scale(m) as int);
    assert(y.units() == s);
    assert(r.bits % 2 == m % 2);
    if k < m {
        let b = (m - 1) as nat;
        binary64::lemma_scale_order(k, b);
        binary64::lemma_scale_order(b, k);
        let v = binary64::scale(b) as int;
        assert((s + t) * (s + t) <= (v + t) * (v + t)) by (nonlinear_arith)
            requires
                0 <= s <= v,
                t >= 0,
        ;
    } else if k > m {
        binary64::lemma_scale_order(k, m + 1);
        binary64::lemma_scale_order(m + 1, k);
        let v = binary64::scale(m + 1) as int;
        assert((s + t) * (s + t) >= (v + t) * (v + t)) by (nonlinear_arith)
            requires
                s >= v >= 0,
                t >= 0,
        ;
    }
}

/// The floor of a number is the largest integer that is not above it, and the ceiling the
/// smallest that is not below it.
pub proof fn law_floors_and_ceilings(a: F64, floor: F64, ceiling: F64)
    requires
        a.finite(),
        arith::absolute(a.units()) <= 0x1_0000_0000_0000 * cast::one(),
        call_ensures(F64::floor, (a,), floor),
        call_ensures(F64::ceil, (a,), ceiling),
    ensures
        floor.finite() && ceiling.finite(),
        floor.units() % cast::one() == 0 && ceiling.units() % cast::one() == 0,
        floor.units() <= a.units() < floor.units() + cast::one(),
        ceiling.units() - cast::one() < a.units() <= ceiling.units(),
{
    let o = cast::one();
    let u = a.units();
    lemma_pow2_pos(1074);
    let k = u / o;
    let c = -((-u) / o);
    lemma_fundamental_div_mod(u, o);
    lemma_fundamental_div_mod(-u, o);
    assert(o * k == k * o && o * ((-u) / o) == -(c * o)) by (nonlinear_arith)
        requires
            c == -((-u) / o),
    ;
    assert((k - 1) * o == k * o - o && (k + 1) * o == k * o + o && (c - 1) * o == c * o - o && (c
        + 1) * o == c * o + o) by (nonlinear_arith);
    lemma_whole_number(a, k);
    lemma_whole_number(a, c);
}

/// A whole number that is made of a number next to it.
pub proof fn lemma_whole_number(a: F64, k: int)
    requires
        a.finite(),
        arith::absolute(a.units()) <= 0x1_0000_0000_0000 * cast::one(),
        (k - 1) * cast::one() < a.units() < (k + 1) * cast::one(),
    ensures
        cast::with_whole(a, k).finite(),
        cast::with_whole(a, k).units() == k * cast::one(),
        (k * cast::one()) % cast::one() == 0,
{
    let o = cast::one();
    let u = a.units();
    lemma_pow2_pos(1074);
    lemma2_to64_rest();
    assert(-0x1_0000_0000_0001 <= k <= 0x1_0000_0000_0001) by (nonlinear_arith)
        requires
            (k - 1) * o < u < (k + 1) * o,
            -0x1_0000_0000_0000 * o <= u <= 0x1_0000_0000_0000 * o,
            o > 0,
    ;
    assert(u < 0 ==> k <= 0) by (nonlinear_arith)
        requires
            (k - 1) * o < u,
            o > 0,
    ;
    assert(u >= 0 ==> k >= 0) by (nonlinear_arith)
        requires
            u < (k + 1) * o,
            o > 0,
    ;
    error::lemma_integer_value(k);
    laws::lemma_signed(a.negative(), round::nearest(arith::absolute(k) * o, 1));
    assert((-k) * o == -(k * o)) by (nonlinear_arith);
    if a.negative() {
        assert(u <= 0);
        assert(k <= 0) by (nonlinear_arith)
            requires
                (k - 1) * o < u <= 0,
                o > 0,
        ;
    }
    lemma_mod_multiples_basic(k, o);
}

/// Rounding takes a number to an integer that is at most one half away; of two that are as
/// near it takes the one farther from zero.
pub proof fn law_rounding_goes_to_the_nearest(a: F64, r: F64)
    requires
        a.finite(),
        arith::absolute(a.units()) <= 0x1_0000_0000_0000 * cast::one(),
        call_ensures(F64::round, (a,), r),
    ensures
        r.finite(),
        r.units() % cast::one() == 0,
        2 * arith::absolute(r.units() - a.units()) <= cast::one(),
        2 * arith::absolute(r.units() - a.units()) == cast::one() ==> arith::absolute(r.units())
            > arith::absolute(a.units()),
{
    lemma_rounding(a);
}

/// A number that is rounded to an integer.
pub proof fn lemma_rounding(a: F64)
    requires
        a.finite(),
        arith::absolute(a.units()) <= 0x1_0000_0000_0000 * cast::one(),
    ensures
        ({
            let r = cast::with_whole(a, cast::rounded(a));
            &&& r.finite()
            &&& r.units() == cast::rounded(a) * cast::one()
            &&& r.units() % cast::one() == 0
            &&& 2 * arith::absolute(r.units() - a.units()) <= cast::one()
            &&& 2 * arith::absolute(r.units() - a.units()) == cast::one() ==> arith::absolute(
                r.units(),
            ) > arith::absolute(a.units())
        }),
{
    let o = cast::one();
    let u = a.units();
    lemma_pow2_pos(1074);
    let v = binary64::scale(a.magnitude()) as int;
    let w = (2 * v + o) / (2 * o);
    lemma_fundamental_div_mod(2 * v + o, 2 * o);
    assert((2 * o) * w == 2 * (w * o)) by (nonlinear_arith);
    let k = if a.negative() { -w } else { w };
    assert((w - 1) * o == w * o - o && (w + 1) * o == w * o + o && (-w - 1) * o == -(w * o) - o && (
    -w + 1) * o == -(w * o) + o && (-w) * o == -(w * o)) by (nonlinear_arith);
    lemma_whole_number(a, k);
    assert(w >= 0) by (nonlinear_arith)
        requires
            2 * v + o < 2 * (w * o) + 2 * o,
            v >= 0,
            o > 0,
    ;
    assert(w * o >= 0) by (nonlinear_arith)
        requires
            w >= 0,
            o > 0,
    ;
}

/// An integer is the same number, and comes back when it is cut to an integer.
pub proof fn law_integers_come_back(i: i32, a: F64, back: i32)
    requires
        call_ensures(F64::from_i32, (i,), a),
        call_ensures(F64::to_i32, (a,), back),
    ensures
        a.finite(),
        a.units() == i * cast::one(),
        back == i,
{
    let o = cast::one();
    lemma_pow2_pos(1074);
    lemma2_to64_rest();
    error::lemma_integer_value(i as int);
    let v = binary64::scale(a.magnitude()) as int;
    let n = arith::absolute(i as int);
    assert((-i) * o == -(i * o)) by (nonlinear_arith);
    assert(v == n * o);
    lemma_div_multiples_vanish(n, o);
    assert(o * n == n * o) by (nonlinear_arith);
}

/// Cutting a number to an integer goes towards zero. What is too large goes to the last
/// integer, and what is no number to zero.
pub proof fn law_numbers_are_cut_towards_zero(a: F64, r: i32)
    requires
        call_ensures(F64::to_i32, (a,), r),
    ensures
        a.nan() ==> r == 0,
        !a.nan() && a.units() >= 0x8000_0000 * cast::one() ==> r == i32::MAX,
        !a.nan() && a.units() <= -0x8000_0000 * cast::one() ==> r == i32::MIN,
        !a.nan() && 0 <= a.units() < 0x8000_0000 * cast::one() ==> r * cast::one() <= a.units() < (r
            + 1) * cast::one(),
        !a.nan() && -0x8000_0000 * cast::one() < a.units() < 0 ==> (r - 1) * cast::one() < a.units()
            <= r * cast::one(),
{
    let o = cast::one();
    lemma_pow2_pos(1074);
    let v = binary64::scale(a.magnitude()) as int;
    let t = v / o;
    lemma_fundamental_div_mod(v, o);
    assert(o * t == t * o) by (nonlinear_arith);
    assert((t + 1) * o == t * o + o && (-t - 1) * o == -(t * o) - o && (-t) * o == -(t * o))
        by (nonlinear_arith);
    let k = 0x8000_0000int;
    assert(v >= k * o ==> t >= k) by (nonlinear_arith)
        requires
            v < t * o + o,
            o > 0,
    ;
    assert(t >= k ==> v >= k * o) by (nonlinear_arith)
        requires
            t * o <= v,
            o > 0,
    ;
    assert(t >= 0) by (nonlinear_arith)
        requires
            v < t * o + o,
            v >= 0,
            o > 0,
    ;
}

/// The smaller and the larger of two numbers are these two, in order; a number wins over
/// what is none.
pub proof fn law_smaller_and_larger(a: F64, b: F64, min: F64, max: F64)
    requires
        call_ensures(F64::min, (a, b), min),
        call_ensures(F64::max, (a, b), max),
    ensures
        min == a || min == b,
        max == a || max == b,
        a.nan() ==> min == b && max == b,
        b.nan() && !a.nan() ==> min == a && max == a,
        !a.nan() && !b.nan() ==> min.units() <= a.units() && min.units() <= b.units() && max.units()
            >= a.units() && max.units() >= b.units(),
{
}

/// What bits stand for: the bits below two to the power 53 count units, and every step of the
/// exponent doubles what they count. The highest bit is the sign.
pub proof fn law_bits_are_numbers(a: F64, b: F64)
    ensures
        a.bits < 0x20_0000_0000_0000 ==> a.units() == a.bits,
        0x10_0000_0000_0000 <= a.bits < 0x7fe0_0000_0000_0000 && b.bits == a.bits
            + 0x10_0000_0000_0000 ==> b.units() == 2 * a.units(),
        a.bits < 0x8000_0000_0000_0000 && b.bits == a.bits + 0x8000_0000_0000_0000 ==> b.units()
            == -a.units(),
        a.nan() <==> a.bits % 0x8000_0000_0000_0000 > 0x7ff0_0000_0000_0000,
        a.finite() <==> a.bits % 0x8000_0000_0000_0000 < 0x7ff0_0000_0000_0000,
{
    lemma2_to64();
    let h = binary64::HIDDEN_BIT as nat;
    let m = a.magnitude();
    if a.bits < 0x20_0000_0000_0000 {
        if m >= h {
            assert(m / h == 1 && m % h == m - h);
            assert((h + (m - h)) * pow2(0) == m) by (nonlinear_arith)
                requires
                    pow2(0) == 1,
            ;
        } else {
            assert(m / h == 0 && m % h == m);
        }
    }
    if 0x10_0000_0000_0000 <= a.bits < 0x7fe0_0000_0000_0000 && b.bits == a.bits
        + 0x10_0000_0000_0000 {
        let n = b.magnitude();
        assert(n == m + h);
        let (e, f) = (m / h, m % h);
        lemma_fundamental_div_mod(m as int, h as int);
        assert(h * e == e * h) by (nonlinear_arith);
        assert((e + 1) * h == e * h + h) by (nonlinear_arith);
        lemma_fundamental_div_mod_converse(n as int, h as int, e as int + 1, f as int);
        assert(e >= 1);
        lemma_pow2_unfold(e);
        let (p, k) = (pow2((e - 1) as nat) as int, (h + f) as int);
        assert(k * (2 * p) == 2 * (k * p)) by (nonlinear_arith);
    }
}

/// Comparisons go by the numbers: what is no number is neither below nor above anything, and
/// equals nothing.
pub proof fn law_comparisons(a: F64, b: F64, less: bool, at_most: bool, equal: bool)
    requires
        call_ensures(F64::lt, (a, b), less),
        call_ensures(F64::le, (a, b), at_most),
        call_ensures(F64::eq, (&a, &b), equal),
    ensures
        a.nan() || b.nan() ==> !less && !at_most && !equal,
        !a.nan() && !b.nan() ==> (less <==> a.units() < b.units()) && (at_most <==> a.units()
            <= b.units()) && (equal <==> a.units() == b.units()),
{
}

/// The negative of a number and the number without its sign.
pub proof fn law_signs(a: F64, negative: F64, size: F64)
    requires
        call_ensures(F64::neg, (a,), negative),
        call_ensures(F64::abs, (a,), size),
    ensures
        negative.units() == -a.units(),
        size.units() == arith::absolute(a.units()),
        negative.nan() == a.nan() && size.nan() == a.nan(),
        negative.negative() != a.negative() && !size.negative(),
{
    laws::lemma_made_of_parts(a);
    laws::lemma_signed(!a.negative(), a.magnitude());
    laws::lemma_signed(false, a.magnitude());
}

/// A count becomes the number nearest to it, and a number the count that is left without
/// what follows the point, from zero to the largest.
pub proof fn law_counts(i: usize, a: F64, b: F64, r: usize)
    requires
        call_ensures(F64::from_usize, (i,), a),
        call_ensures(F64::to_usize, (b,), r),
    ensures
        is_nearest_number(a, i * cast::one(), 1),
        b.nan() ==> r == 0,
        !b.nan() && b.units() < cast::one() ==> r == 0,
        !b.nan() && b.units() >= usize::MAX * cast::one() ==> r == usize::MAX,
        !b.nan() && 0 <= b.units() < usize::MAX * cast::one() ==> r * cast::one() <= b.units() < (r
            + 1) * cast::one(),
{
    let o = cast::one();
    lemma_pow2_pos(1074);
    assert(i * o >= 0) by (nonlinear_arith)
        requires
            i >= 0,
            o > 0,
    ;
    lemma_nearest_number(false, i * o, 1);
    let v = binary64::scale(b.magnitude()) as int;
    let t = v / o;
    lemma_fundamental_div_mod(v, o);
    assert(o * t == t * o && (t + 1) * o == t * o + o) by (nonlinear_arith);
    let k = usize::MAX as int;
    assert(t >= 0) by (nonlinear_arith)
        requires
            v < t * o + o,
            v >= 0,
            o > 0,
    ;
    assert(v >= k * o ==> t >= k) by (nonlinear_arith)
        requires
            v < t * o + o,
            o > 0,
    ;
    assert(t >= k ==> v >= k * o) by (nonlinear_arith)
        requires
            t * o <= v,
            o > 0,
            k >= 0,
    ;
    assert(v < o ==> t <= 0) by (nonlinear_arith)
        requires
            t * o <= v,
            o > 0,
    ;
}

} // verus!
