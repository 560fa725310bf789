//! Distances on the globe, by the haversine formula.
//!
//! Of two points on one meridian, or on one parallel, the formula takes the sine
//! of half the angle between them, makes of it the two sides of a right triangle,
//! and takes the angle of that. The sine, the cosine of a parallel's latitude and
//! the angle of the triangle are the caller's part.

use vstd::prelude::*;
use crate::binary64::{F64, HIDDEN_BIT};
use crate::binary64::arith;
use crate::binary64::cast;
use crate::binary64::error;
use crate::binary64::exact;
use crate::binary64::excess;
use crate::binary64::laws;
use crate::binary64::root;
use crate::coordinate_system::angle;
use crate::coordinate_system::geographic::llpoint;
use crate::coordinate_system::positions;
use crate::coordinate_system::projection;
use crate::coordinate_system::transformation::EARTH_RADIUS;

verus! {

/// Half the angle from one coordinate to another, in radians.
pub open spec fn half_angle(from: F64, to: F64) -> F64 {
    arith::quotient(angle::radians(arith::difference(to, from)), cast::of_integer(2))
}

/// The sides of the triangle whose squares are `h` and what `h` leaves of one.
pub open spec fn sides(h: F64) -> (F64, F64) {
    (root::square_root(h), root::square_root(arith::difference(cast::of_integer(1), h)))
}

/// The haversine of an angle, by the sine of half of it: on a meridian.
pub open spec fn on_meridian(sine: F64) -> F64 {
    arith::product(sine, sine)
}

/// The haversine of an angle along the parallel at the latitude with the given
/// cosine, by the sine of half of it.
pub open spec fn on_parallel(cosine: F64, sine: F64) -> F64 {
    arith::product(arith::product(arith::product(cosine, cosine), sine), sine)
}

/// The length in meters of an arc, by half its angle.
pub open spec fn arc(half: F64) -> F64 {
    arith::product(
        cast::of_integer(EARTH_RADIUS as int),
        arith::product(cast::of_integer(2), half),
    )
}

/// Computes half the angle from one coordinate to another.
pub fn to_half_angle(from: F64, to: F64) -> (r: F64)
    ensures
        r == half_angle(from, to),
{
    angle::to_radians(to.minus(from)).over(F64::from_i32(2))
}

fn to_sides(h: F64) -> (r: (F64, F64))
    ensures
        r == sides(h),
{
    (h.sqrt(), F64::from_i32(1).minus(h).sqrt())
}

/// The sides of the triangle for two points on a meridian, by the sine of half
/// the angle between them.
pub fn lat_sides(sine: F64) -> (r: (F64, F64))
    ensures
        r == sides(on_meridian(sine)),
{
    to_sides(sine.times(sine))
}

/// The sides of the triangle for two points on a parallel, by the cosine of its
/// latitude and the sine of half the angle between them.
pub fn lon_sides(cosine: F64, sine: F64) -> (r: (F64, F64))
    ensures
        r == sides(on_parallel(cosine, sine)),
{
    to_sides(cosine.times(cosine).times(sine).times(sine))
}

/// The length in meters of an arc, by half its angle: that of the triangle.
pub fn arc_meters(half: F64) -> (r: F64)
    ensures
        r == arc(half),
{
    F64::from_i32(EARTH_RADIUS).times(F64::from_i32(2).times(half))
}

/// From a coordinate to itself the angle is zero.
pub proof fn law_no_angle_to_itself(a: F64)
    requires
        a.finite(),
    ensures
        half_angle(a, a).magnitude() == 0,
{
    laws::law_difference_with_itself(a);
    let zero = arith::difference(a, a);
    laws::lemma_signed(false, 0);
    laws::law_zero_product(zero, F64 { bits: angle::RADIANS_PER_DEGREE_BITS });
    vstd::arithmetic::power2::lemma2_to64();
    laws::lemma_integer_bound(2, 2);
    laws::law_integers_keep_order(1, 2);
    laws::lemma_one();
    crate::binary64::lemma_scale_order(cast::of_integer(2).magnitude(), 0);
    laws::law_zero_quotient(angle::radians(zero), cast::of_integer(2));
}

/// The half angle from one coordinate to another is half the degrees between them, in
/// radians; `rho` is a degree in radians.
pub proof fn law_half_angles(from: F64, to: F64, r: F64) -> (rho: int)
    requires
        llpoint::is_longitude(from) && llpoint::is_longitude(to),
        call_ensures(to_half_angle, (from, to), r),
    ensures
        angle::is_part_of_pi(rho, 1, 180),
        r.finite(),
        positions::is_about(
            2 * (r.units() * cast::one()),
            (to.units() - from.units()) * rho,
            40 * (cast::one() * cast::one()),
        ),
{
    let (o, h) = (cast::one(), HIDDEN_BIT as int);
    excess::lemma_weight_of_one();
    angle::law_angles_are_parts_of_pi();
    llpoint::lemma_of_degrees(from, 180);
    llpoint::lemma_of_degrees(to, 180);
    let f = F64 { bits: angle::RADIANS_PER_DEGREE_BITS };
    let (rho, n) = (f.units(), to.units() - from.units());
    assert(0 < rho && 57 * rho <= o) by (nonlinear_arith)
        requires
            314_159_265_358_979 * o * 1 <= 100_000_000_000_000 * rho * 180
                <= 314_159_265_358_980 * o * 1,
            o > 0,
    ;
    error::lemma_difference_close(to, from);
    let d = arith::difference(to, from);
    error::lemma_distance(d.units(), n, 1, 181 * o);
    let e = arith::absolute(d.units() - n);
    assert(e <= o) by (nonlinear_arith)
        requires
            e * h <= 181 * o,
            h >= 181,
            e >= 0,
            o > 0,
    ;
    let a = arith::absolute(d.units());
    assert(a * rho <= 7 * (o * o) && a * rho >= 0) by (nonlinear_arith)
        requires
            0 <= a <= 361 * o,
            0 < rho,
            57 * rho <= o,
            o > 0,
    ;
    assert(arith::absolute(d.units() * rho) == a * rho) by {
        assert((-d.units()) * rho == -(d.units() * rho)) by (nonlinear_arith);
    }
    assert(7 * (o * o) <= error::limit() * o && 7 * (o * o) + h * o <= 2 * (4 * (o * o)))
        by (nonlinear_arith)
        requires
            error::limit() == o * 0x1000_0000_0000_0000,
            h <= o,
            o > 0,
    ;
    error::lemma_product_close(d, f);
    let p = angle::radians(d);
    let v = p.units();
    error::lemma_distance(v * o, d.units() * rho, o, 4 * (o * o));
    positions::lemma_scaled(d.units(), n, 181 * o, rho);
    assert((181 * o) * rho <= 4 * (o * o)) by (nonlinear_arith)
        requires
            57 * rho <= o,
            0 < rho,
            o > 0,
    ;
    positions::lemma_allowed(d.units() * rho, n * rho, (181 * o) * rho, 4 * (o * o));
    positions::lemma_two_steps(v * o, d.units() * rho, n * rho, 4 * (o * o), 4 * (o * o));
    let b = arith::absolute(v);
    let g = arith::absolute(v * o - d.units() * rho);
    assert(g <= o * o) by (nonlinear_arith)
        requires
            g * h <= 4 * (o * o),
            h >= 4,
            g >= 0,
            o > 0,
    ;
    assert(arith::absolute(v * o) == b * o) by {
        assert((-v) * o == -(v * o)) by (nonlinear_arith);
        assert(b * o >= 0) by (nonlinear_arith)
            requires
                b >= 0,
                o > 0,
        ;
    }
    assert(b <= 8 * o) by (nonlinear_arith)
        requires
            b * o <= 8 * (o * o),
            o > 0,
    ;
    projection::lemma_half_of(p, b);
    positions::lemma_allowed(2 * r.units(), v, b + o, 9 * o);
    positions::lemma_scaled(2 * r.units(), v, 9 * o, o);
    assert((2 * r.units()) * o == 2 * (r.units() * o) && (9 * o) * o == 9 * (o * o))
        by (nonlinear_arith);
    positions::lemma_two_steps(2 * (r.units() * o), v * o, n * rho, 9 * (o * o), 8 * (o * o));
    positions::lemma_allowed(2 * (r.units() * o), n * rho, 17 * (o * o), 40 * (o * o));
    rho
}

/// An arc is as long as the earth's radius times twice its half angle.
pub proof fn law_arcs(half: F64, r: F64)
    requires
        half.finite(),
        -4 * cast::one() <= half.units() <= 4 * cast::one(),
        call_ensures(arc_meters, (half,), r),
    ensures
        r.finite(),
        positions::is_about(
            r.units(),
            2 * 6_371_000 * half.units(),
            20 * (6_371_000 * cast::one()),
        ),
{
    let (o, h, e) = (cast::one(), HIDDEN_BIT as int, 6_371_000int);
    excess::lemma_weight_of_one();
    vstd::arithmetic::power2::lemma2_to64_rest();
    error::lemma_integer_value(2);
    error::lemma_integer_value(6_371_000);
    lemma_factor(2, half, 4 * o, 5);
    let t = arith::product(cast::of_integer(2), half);
    let u = t.units();
    let d = arith::absolute(u - 2 * half.units());
    assert(d <= o) by (nonlinear_arith)
        requires
            d * h <= 5 * (2 * o),
            h >= 10,
            d >= 0,
            o > 0,
    ;
    lemma_factor(e, t, 9 * o, 10);
    positions::lemma_scaled(u, 2 * half.units(), 5 * (2 * o), e);
    assert(u * e == e * u && (2 * half.units()) * e == 2 * e * half.units() && (5 * (2 * o)) * e
        == 10 * (e * o) && 10 * (e * o) + 10 * (e * o) == 20 * (e * o)) by (nonlinear_arith);
    positions::lemma_two_steps(
        r.units(),
        e * u,
        2 * e * half.units(),
        10 * (e * o),
        10 * (e * o),
    );
}

/// A number times an integer.
proof fn lemma_factor(k: int, a: F64, bound: int, parts: int)
    requires
        k == 2 || k == 6_371_000,
        a.finite(),
        arith::absolute(a.units()) <= bound,
        bound == (parts - 1) * cast::one(),
        5 <= parts <= 10,
    ensures
        ({
            let r = arith::product(cast::of_integer(k), a);
            r.finite() && positions::is_about(r.units(), k * a.units(), parts * (k * cast::one()))
        }),
{
    let (o, h) = (cast::one(), HIDDEN_BIT as int);
    excess::lemma_weight_of_one();
    vstd::arithmetic::power2::lemma2_to64_rest();
    error::lemma_integer_value(k);
    let f = cast::of_integer(k);
    let (u, v) = (a.units(), arith::absolute(a.units()));
    assert(k * o > 0) by (nonlinear_arith)
        requires
            k > 0,
            o > 0,
    ;
    assert((parts - 1) * o <= 9 * o) by (nonlinear_arith)
        requires
            parts <= 10,
            o > 0,
    ;
    assert((k * o) * v <= error::limit() * o && (k * o) * v >= 0) by (nonlinear_arith)
        requires
            0 < k <= 6_371_000,
            0 <= v <= 9 * o,
            error::limit() == o * 0x1000_0000_0000_0000,
            o > 0,
    ;
    error::lemma_product_close(f, a);
    let r = arith::product(f, a).units();
    assert(arith::absolute((k * o) * u) == (k * o) * v) by {
        assert((k * o) * (-u) == -((k * o) * u)) by (nonlinear_arith);
    }
    assert((k * o) * v + h * o <= 2 * ((parts * (k * o)) * o)) by (nonlinear_arith)
        requires
            0 <= v <= (parts - 1) * o,
            k >= 1,
            parts >= 5,
            h <= o,
            o > 0,
    ;
    error::lemma_distance(r * o, (k * o) * u, o, (parts * (k * o)) * o);
    assert((k * o) * u == (k * u) * o) by (nonlinear_arith);
    positions::lemma_unscaled(r, k * u, parts * (k * o), o);
}

/// What is at most one in size stays so when it is multiplied by such a number.
proof fn lemma_product_of_ones(a: F64, b: F64)
    requires
        a.finite() && b.finite(),
        -cast::one() <= a.units() <= cast::one(),
        -cast::one() <= b.units() <= cast::one(),
    ensures
        ({
            let r = arith::product(a, b);
            &&& r.finite()
            &&& -cast::one() <= r.units() <= cast::one()
            &&& exact::is_nearest_number(r, a.units() * b.units(), cast::one())
            &&& a.units() * b.units() >= 0 ==> r.units() >= 0
            &&& a.units() * b.units() <= 0 ==> r.units() <= 0
        }),
{
    let o = cast::one();
    excess::lemma_weight_of_one();
    vstd::arithmetic::power2::lemma2_to64_rest();
    exact::lemma_product(a, b);
    reveal(exact::is_nearest_number);
    let (u, v) = (a.units(), b.units());
    let (x, y) = (arith::absolute(u), arith::absolute(v));
    assert(-(o * o) <= u * v <= o * o) by (nonlinear_arith)
        requires
            -o <= u <= o,
            -o <= v <= o,
    ;
    assert(0 <= x * y <= o * o) by (nonlinear_arith)
        requires
            0 <= x <= o,
            0 <= y <= o,
    ;
    assert(o * o <= error::limit() * o) by (nonlinear_arith)
        requires
            error::limit() == o * 0x1000_0000_0000_0000,
            o > 0,
    ;
    error::lemma_product_close(a, b);
    let r = arith::product(a, b);
    error::lemma_integer_value(1);
    error::lemma_integer_value(-1);
    error::lemma_integer_value(0);
    let (one, minus, zero) = (cast::of_integer(1), cast::of_integer(-1), cast::of_integer(0));
    assert(1 * o == o && (-1) * o == -o && 0 * o == 0) by (nonlinear_arith);
    let w = r.units();
    assert(!one.nan() && !minus.nan() && !zero.nan());
    assert(one.units() == o && minus.units() == -o && zero.units() == 0);
    if w > o {
        assert(false) by (nonlinear_arith)
            requires
                (o + w) * o <= 2 * (o * o),
                w > o,
                o > 0,
        ;
    }
    if w < -o {
        assert(false) by (nonlinear_arith)
            requires
                (-o + w) * o >= -2 * (o * o),
                w < -o,
                o > 0,
        ;
    }
    if u * v >= 0 && w < 0 {
        assert(false) by (nonlinear_arith)
            requires
                (0 + w) * o >= 0,
                w < 0,
                o > 0,
        ;
    }
    if u * v <= 0 && w > 0 {
        assert(false) by (nonlinear_arith)
            requires
                (0 + w) * o <= 0,
                w > 0,
                o > 0,
        ;
    }
}

/// The sides of a triangle, by the square of the first.
proof fn lemma_sides(h: F64) -> (rest: F64)
    requires
        h.finite(),
        0 <= h.units() <= cast::one(),
    ensures
        exact::is_nearest_number(rest, cast::one() - h.units(), 1),
        exact::is_root(sides(h).0, h),
        exact::is_root(sides(h).1, rest),
{
    excess::lemma_weight_of_one();
    vstd::arithmetic::power2::lemma2_to64_rest();
    error::lemma_integer_value(1);
    error::lemma_integer_value(0);
    assert(1 * cast::one() == cast::one() && 0 * cast::one() == 0);
    let one = cast::of_integer(1);
    exact::lemma_difference(one, h);
    reveal(exact::is_nearest_number);
    error::lemma_difference_close(one, h);
    let g = arith::difference(one, h);
    let zero = cast::of_integer(0);
    assert(!zero.nan() && zero.units() == 0);
    exact::lemma_root(h);
    exact::lemma_root(g);
    g
}

/// For two points on a meridian the first side is the root of the square of the sine of
/// half the angle, and the other the root of what that leaves of one.
pub proof fn law_sides_on_a_meridian(sine: F64, r: (F64, F64)) -> (squares: (F64, F64))
    requires
        sine.finite(),
        -cast::one() <= sine.units() <= cast::one(),
        call_ensures(lat_sides, (sine,), r),
    ensures
        exact::is_nearest_number(squares.0, sine.units() * sine.units(), cast::one()),
        exact::is_nearest_number(squares.1, cast::one() - squares.0.units(), 1),
        exact::is_root(r.0, squares.0),
        exact::is_root(r.1, squares.1),
{
    let u = sine.units();
    lemma_product_of_ones(sine, sine);
    assert(u * u >= 0) by (nonlinear_arith);
    let h = arith::product(sine, sine);
    let g = lemma_sides(h);
    (h, g)
}

/// For two points on a parallel the square of the first side is the square of the cosine of
/// the latitude times the square of the sine of half the angle, multiplied one by one.
pub proof fn law_sides_on_a_parallel(cosine: F64, sine: F64, r: (F64, F64)) -> (squares: (
    F64,
    F64,
    F64,
    F64,
))
    requires
        sine.finite() && cosine.finite(),
        -cast::one() <= sine.units() <= cast::one(),
        -cast::one() <= cosine.units() <= cast::one(),
        call_ensures(lon_sides, (cosine, sine), r),
    ensures
        exact::is_nearest_number(squares.0, cosine.units() * cosine.units(), cast::one()),
        exact::is_nearest_number(squares.1, squares.0.units() * sine.units(), cast::one()),
        exact::is_nearest_number(squares.2, squares.1.units() * sine.units(), cast::one()),
        exact::is_nearest_number(squares.3, cast::one() - squares.2.units(), 1),
        exact::is_root(r.0, squares.2),
        exact::is_root(r.1, squares.3),
{
    let (u, v) = (cosine.units(), sine.units());
    lemma_product_of_ones(cosine, cosine);
    assert(u * u >= 0) by (nonlinear_arith);
    let a = arith::product(cosine, cosine);
    lemma_product_of_ones(a, sine);
    let b = arith::product(a, sine);
    let (x, y) = (a.units(), b.units());
    if v >= 0 {
        assert(x * v >= 0) by (nonlinear_arith)
            requires
                x >= 0,
                v >= 0,
        ;
        assert(y * v >= 0) by (nonlinear_arith)
            requires
                y >= 0,
                v >= 0,
        ;
    } else {
        assert(x * v <= 0) by (nonlinear_arith)
            requires
                x >= 0,
                v <= 0,
        ;
        assert(y * v >= 0) by (nonlinear_arith)
            requires
                y <= 0,
                v <= 0,
        ;
    }
    lemma_product_of_ones(b, sine);
    let h = arith::product(b, sine);
    let g = lemma_sides(h);
    (a, b, h, g)
}

} // verus!
