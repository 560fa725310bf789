//! Laws of the arithmetic: operations that keep the order of numbers.

use vstd::prelude::*;
use vstd::arithmetic::power2::*;
use crate::binary64;
use crate::binary64::{F64, INFINITY_BITS};
use crate::binary64::arith;
use crate::binary64::cast;
use crate::binary64::laws;
use crate::binary64::round;

verus! {

/// The value of the number nearest to `n / d`, with the sign of `n`.
spec fn signed_nearest(n: int, d: int) -> int {
    let v = binary64::scale(round::nearest(arith::absolute(n), d)) as int;
    if n < 0 { -v } else { v }
}

proof fn lemma_signed_nearest_order(m: int, n: int, d: int)
    requires
        d > 0,
        m <= n,
    ensures
        signed_nearest(m, d) <= signed_nearest(n, d),
{
    let (a, b) = (arith::absolute(m), arith::absolute(n));
    let (p, q) = (round::nearest(a, d), round::nearest(b, d));
    if m >= 0 {
        assert(a * d <= b * d) by (nonlinear_arith)
            requires
                a <= b,
                d > 0,
        ;
        round::lemma_nearest_monotone(a, d, b, d);
        binary64::lemma_scale_order(p, q);
        binary64::lemma_scale_order(q, p);
    } else if n < 0 {
        assert(b * d <= a * d) by (nonlinear_arith)
            requires
                b <= a,
                d > 0,
        ;
        round::lemma_nearest_monotone(b, d, a, d);
        binary64::lemma_scale_order(p, q);
        binary64::lemma_scale_order(q, p);
    }
}

/// The nearest number to a value is one.
proof fn lemma_result(n: int, d: int, negative: bool)
    requires
        n >= 0,
        d > 0,
    ensures
        ({
            let r = binary64::signed(negative, round::nearest(n, d));
            &&& !r.nan()
            &&& r.magnitude() == round::nearest(n, d)
            &&& r.negative() == negative
        }),
{
    round::lemma_nearest_exists(n, d);
    laws::lemma_signed(negative, round::nearest(n, d));
}

/// The value of a product by a factor that is not negative.
proof fn lemma_product_value(a: F64, x: F64)
    requires
        a.finite() && x.finite(),
        !a.negative(),
    ensures
        !arith::product(a, x).nan(),
        arith::product(a, x).units() == signed_nearest(a.units() * x.units(), cast::one()),
        arith::product(x, a) == arith::product(a, x),
{
    let o = cast::one();
    lemma_pow2_pos(1074);
    let (u, v) = (a.units(), x.units());
    let n = arith::absolute(u) * arith::absolute(v);
    assert(n >= 0) by (nonlinear_arith)
        requires
            n == arith::absolute(u) * arith::absolute(v),
            arith::absolute(u) >= 0,
            arith::absolute(v) >= 0,
    ;
    vstd::arithmetic::mul::lemma_mul_is_commutative(arith::absolute(u), arith::absolute(v));
    lemma_result(n, o, x.negative());
    assert(u * (-v) == -(u * v)) by (nonlinear_arith);
    assert(arith::absolute(u * v) == n) by {
        if v < 0 {
            assert(u * v <= 0) by (nonlinear_arith)
                requires
                    u >= 0,
                    v < 0,
            ;
        } else {
            assert(u * v >= 0) by (nonlinear_arith)
                requires
                    u >= 0,
                    v >= 0,
            ;
        }
    }
    if n == 0 {
        arith::lemma_nearest_zero(o);
        assert(binary64::scale(0) == 0);
    } else {
        if v == 0 {
            assert(arith::absolute(u) * 0 == 0);
        }
        if u == 0 {
            assert(0 * arith::absolute(v) == 0);
        }
        if v < 0 {
            assert(u * v < 0) by (nonlinear_arith)
                requires
                    u > 0,
                    v < 0,
            ;
        } else {
            assert(u * v >= 0) by (nonlinear_arith)
                requires
                    u > 0,
                    v >= 0,
            ;
        }
    }
}

/// An infinity is beyond every number.
proof fn lemma_beyond(a: F64)
    requires
        !a.nan(),
    ensures
        -(binary64::scale(INFINITY_BITS as nat) as int) <= a.units() <= binary64::scale(
            INFINITY_BITS as nat,
        ),
{
    binary64::lemma_scale_order(INFINITY_BITS as nat, a.magnitude());
}

/// A product by a positive number, of a number that may be infinite.
proof fn lemma_product_of_any(a: F64, x: F64)
    requires
        a.finite(),
        !a.negative(),
        a.magnitude() != 0,
        !x.nan(),
    ensures
        !arith::product(a, x).nan(),
        arith::product(x, a) == arith::product(a, x),
        x.finite() ==> arith::product(a, x).units() == signed_nearest(
            a.units() * x.units(),
            cast::one(),
        ),
        x.infinite() ==> arith::product(a, x) == x,
{
    if x.finite() {
        lemma_product_value(a, x);
    } else {
        laws::lemma_made_of_parts(x);
    }
}

/// Products by a positive number keep the order.
pub proof fn law_products_by_a_positive_number_keep_order(a: F64, x: F64, y: F64)
    requires
        a.finite(),
        !a.negative(),
        a.magnitude() != 0,
        x.at_most(y),
    ensures
        arith::product(a, x).at_most(arith::product(a, y)),
        arith::product(x, a).at_most(arith::product(y, a)),
{
    lemma_product_of_any(a, x);
    lemma_product_of_any(a, y);
    lemma_beyond(arith::product(a, x));
    lemma_beyond(arith::product(a, y));
    lemma_beyond(x);
    lemma_beyond(y);
    let (u, v, w) = (a.units(), x.units(), y.units());
    if x.finite() && y.finite() {
        lemma_pow2_pos(1074);
        assert(u * v <= u * w) by (nonlinear_arith)
            requires
                u >= 0,
                v <= w,
        ;
        lemma_signed_nearest_order(u * v, u * w, cast::one());
    } else if x.infinite() && !x.negative() {
        lemma_only_infinity(y);
    } else if y.infinite() && y.negative() {
        lemma_only_infinity(x);
    }
}

/// Only an infinity has the value of one.
proof fn lemma_only_infinity(y: F64)
    requires
        !y.nan(),
        y.units() >= binary64::scale(INFINITY_BITS as nat) || y.units() <= -(binary64::scale(
            INFINITY_BITS as nat,
        ) as int),
    ensures
        y.infinite(),
        y.negative() == (y.units() < 0),
{
    binary64::lemma_scale_order(y.magnitude(), INFINITY_BITS as nat);
    binary64::lemma_scale_order(INFINITY_BITS as nat, 0);
}

/// Products by a negative number turn the order round.
pub proof fn law_products_by_a_negative_number_turn_order(a: F64, x: F64, y: F64)
    requires
        a.finite(),
        !a.negative(),
        a.magnitude() != 0,
        x.finite() && y.finite(),
        x.at_most(y),
    ensures
        arith::product(arith::negation(a), y).at_most(arith::product(arith::negation(a), x)),
{
    law_products_by_a_positive_number_keep_order(a, x, y);
    lemma_product_of_negation(a, x);
    lemma_product_of_negation(a, y);
}

proof fn lemma_product_of_negation(a: F64, x: F64)
    requires
        a.finite() && x.finite(),
    ensures
        !arith::product(arith::negation(a), x).nan(),
        arith::product(arith::negation(a), x).units() == -arith::product(a, x).units(),
{
    lemma_negation(a);
    let o = cast::one();
    lemma_pow2_pos(1074);
    let n = arith::absolute(a.units()) * arith::absolute(x.units());
    assert(n >= 0) by (nonlinear_arith)
        requires
            n == arith::absolute(a.units()) * arith::absolute(x.units()),
            arith::absolute(a.units()) >= 0,
            arith::absolute(x.units()) >= 0,
    ;
    lemma_result(n, o, a.negative() != x.negative());
    lemma_result(n, o, a.negative() == x.negative());
}

/// Quotients by a positive number keep the order, of infinities too.
pub proof fn law_quotients_by_a_positive_number_keep_order(x: F64, y: F64, b: F64)
    requires
        b.finite(),
        !b.negative(),
        b.magnitude() != 0,
        x.at_most(y),
    ensures
        arith::quotient(x, b).at_most(arith::quotient(y, b)),
{
    if x.finite() {
        lemma_quotient_value(x, b);
    } else {
        laws::lemma_made_of_parts(x);
        laws::lemma_signed(x.negative(), INFINITY_BITS as nat);
    }
    if y.finite() {
        lemma_quotient_value(y, b);
    } else {
        laws::lemma_made_of_parts(y);
        laws::lemma_signed(y.negative(), INFINITY_BITS as nat);
    }
    lemma_beyond(arith::quotient(x, b));
    lemma_beyond(arith::quotient(y, b));
    if x.finite() && y.finite() {
        lemma_quotients_keep_order(x, y, b);
    } else if x.infinite() && !x.negative() {
        lemma_beyond(y);
        lemma_only_infinity(y);
    } else if y.infinite() && y.negative() {
        lemma_beyond(x);
        lemma_only_infinity(x);
    }
}

/// Quotients by a positive number keep the order.
proof fn lemma_quotients_keep_order(x: F64, y: F64, b: F64)
    requires
        x.finite() && y.finite() && b.finite(),
        !b.negative(),
        b.magnitude() != 0,
        x.at_most(y),
    ensures
        arith::quotient(x, b).at_most(arith::quotient(y, b)),
{
    let o = cast::one();
    lemma_pow2_pos(1074);
    binary64::lemma_scale_order(b.magnitude(), 0);
    let d = b.units();
    lemma_quotient_value(x, b);
    lemma_quotient_value(y, b);
    let (u, v) = (x.units(), y.units());
    assert(u * o <= v * o) by (nonlinear_arith)
        requires
            u <= v,
            o > 0,
    ;
    lemma_signed_nearest_order(u * o, v * o, d);
}

proof fn lemma_quotient_value(x: F64, b: F64)
    requires
        x.finite() && b.finite(),
        !b.negative(),
        b.magnitude() != 0,
    ensures
        !arith::quotient(x, b).nan(),
        arith::quotient(x, b).units() == signed_nearest(x.units() * cast::one(), b.units()),
{
    let o = cast::one();
    lemma_pow2_pos(1074);
    binary64::lemma_scale_order(b.magnitude(), 0);
    let (u, d) = (x.units(), b.units());
    let n = arith::absolute(u) * o;
    assert(n >= 0) by (nonlinear_arith)
        requires
            n == arith::absolute(u) * o,
            arith::absolute(u) >= 0,
            o > 0,
    ;
    lemma_result(n, d, x.negative());
    assert((-u) * o == -(u * o)) by (nonlinear_arith);
    if u == 0 {
        assert(0 * o == 0);
        arith::lemma_nearest_zero(d);
        assert(binary64::scale(0) == 0);
    } else {
        assert(u * o < 0 <==> u < 0) by (nonlinear_arith)
            requires
                o > 0,
                u != 0,
        ;
    }
}

/// The order of terms does not matter.
pub proof fn law_sums_commute(a: F64, b: F64)
    ensures
        arith::sum(a, b) == arith::sum(b, a),
{
    if a.infinite() && b.infinite() && a.negative() == b.negative() {
        laws::lemma_made_of_parts(a);
        laws::lemma_made_of_parts(b);
    }
}

/// Numbers keep their order when the same is taken off.
pub proof fn law_differences_keep_order(x: F64, y: F64, a: F64)
    requires
        a.finite(),
        x.at_most(y),
    ensures
        arith::difference(x, a).at_most(arith::difference(y, a)),
{
    laws::lemma_made_of_parts(a);
    laws::lemma_signed(!a.negative(), a.magnitude());
    let b = arith::negation(a);
    laws::law_sums_keep_order(b, x, y);
    law_sums_commute(b, x);
    law_sums_commute(b, y);
}

/// Taking more off leaves no more.
pub proof fn law_taking_off_more_leaves_no_more(a: F64, x: F64, y: F64)
    requires
        a.finite(),
        x.at_most(y),
    ensures
        arith::difference(a, y).at_most(arith::difference(a, x)),
{
    lemma_negation(x);
    lemma_negation(y);
    laws::law_sums_keep_order(a, arith::negation(y), arith::negation(x));
}

proof fn lemma_negation(x: F64)
    requires
        !x.nan(),
    ensures
        !arith::negation(x).nan(),
        arith::negation(x).units() == -x.units(),
        arith::negation(x).magnitude() == x.magnitude(),
        arith::negation(x).negative() == !x.negative(),
{
    laws::lemma_made_of_parts(x);
    laws::lemma_signed(!x.negative(), x.magnitude());
}

/// What numbers become as 32-bit integers is in the same order.
pub proof fn law_integer_parts_keep_order(x: F64, y: F64)
    requires
        x.at_most(y),
    ensures
        cast::as_i32(x) <= cast::as_i32(y),
{
    let o = cast::one();
    lemma_pow2_pos(1074);
    let (a, b) = (
        binary64::scale(x.magnitude()) as int,
        binary64::scale(y.magnitude()) as int,
    );
    vstd::arithmetic::div_mod::lemma_div_pos_is_pos(a, o);
    vstd::arithmetic::div_mod::lemma_div_pos_is_pos(b, o);
    if a <= b {
        vstd::arithmetic::div_mod::lemma_div_is_ordered(a, b, o);
    }
    if b <= a {
        vstd::arithmetic::div_mod::lemma_div_is_ordered(b, a, o);
    }
    if a == 0 || b == 0 {
        vstd::arithmetic::div_mod::lemma_div_of0(o);
    }
}

proof fn lemma_itself(a: F64)
    requires
        a.finite(),
    ensures
        signed_nearest(a.units(), 1) == a.units(),
{
    arith::lemma_nearest_exact(a.magnitude());
    binary64::lemma_scale_order(a.magnitude(), 0);
}

/// A number made of an integer part has the integer's nearest value.
proof fn lemma_whole_value(a: F64, whole: int)
    requires
        a.finite(),
        a.negative() ==> whole <= 0,
        !a.negative() ==> whole >= 0,
    ensures
        !cast::with_whole(a, whole).nan(),
        cast::with_whole(a, whole).units() == signed_nearest(whole * cast::one(), 1),
{
    let o = cast::one();
    lemma_pow2_pos(1074);
    let n = arith::absolute(whole) * o;
    assert(n >= 0) by (nonlinear_arith)
        requires
            n == arith::absolute(whole) * o,
            arith::absolute(whole) >= 0,
            o > 0,
    ;
    lemma_result(n, 1, a.negative());
    assert((-whole) * o == -(whole * o)) by (nonlinear_arith);
    if whole == 0 {
        assert(0 * o == 0);
        arith::lemma_nearest_zero(1);
        assert(binary64::scale(0) == 0);
    } else {
        assert(whole * o < 0 <==> whole < 0) by (nonlinear_arith)
            requires
                o > 0,
                whole != 0,
        ;
    }
}

/// A number rounded down is not above the number.
pub proof fn law_floors_are_not_above(a: F64)
    requires
        !a.nan(),
    ensures
        cast::with_whole(a, cast::floored(a)).at_most(a),
{
    if a.finite() {
        let o = cast::one();
        let k = cast::floored(a);
        lemma_pow2_pos(1074);
        vstd::arithmetic::div_mod::lemma_fundamental_div_mod(a.units(), o);
        assert(o * k == k * o) by (nonlinear_arith);
        assert(a.units() >= 0 ==> k >= 0) by {
            if a.units() >= 0 {
                vstd::arithmetic::div_mod::lemma_div_pos_is_pos(a.units(), o);
            }
        }
        assert(a.units() <= 0 ==> k <= 0) by (nonlinear_arith)
            requires
                k * o <= a.units(),
                o > 0,
        ;
        lemma_whole_value(a, k);
        lemma_itself(a);
        lemma_signed_nearest_order(k * o, a.units(), 1);
    }
}

/// A number rounded up is not below the number.
pub proof fn law_ceilings_are_not_below(a: F64)
    requires
        !a.nan(),
    ensures
        a.at_most(cast::with_whole(a, cast::ceiled(a))),
{
    if a.finite() {
        let o = cast::one();
        let k = cast::ceiled(a);
        let u = -a.units();
        lemma_pow2_pos(1074);
        vstd::arithmetic::div_mod::lemma_fundamental_div_mod(u, o);
        assert(o * (-k) == -(k * o)) by (nonlinear_arith);
        assert(u >= 0 ==> k <= 0) by {
            if u >= 0 {
                vstd::arithmetic::div_mod::lemma_div_pos_is_pos(u, o);
            }
        }
        assert(u <= 0 ==> k >= 0) by (nonlinear_arith)
            requires
                k * o >= -u,
                o > 0,
        ;
        lemma_whole_value(a, k);
        lemma_itself(a);
        lemma_signed_nearest_order(a.units(), k * o, 1);
    }
}

} // verus!
