//! Where points lie in the world, in terms of their coordinates.
//!
//! In local mode a position is the share of the area that lies west or north of the
//! point, times the blocks of the area. Under a projection it is a distance from the
//! middle of the area. What is stated here holds but for rounding.

use vstd::prelude::*;
use vstd::arithmetic::power2::*;
use crate::binary64;
use crate::binary64::{F64, HIDDEN_BIT};
use crate::binary64::arith;
use crate::binary64::cast;
use crate::binary64::error;
use crate::binary64::excess;
use crate::coordinate_system::angle;
use crate::coordinate_system::cartesian;
use crate::coordinate_system::cartesian::{Blocks, XZBBox, XZPoint};
use crate::coordinate_system::cutting;
use crate::coordinate_system::geographic::llbbox::{Edges, LLBBox};
use crate::coordinate_system::geographic::llpoint;
use crate::coordinate_system::geographic::llpoint::LLPoint;
use crate::coordinate_system::transformation;
use crate::coordinate_system::transformation::{CoordTransformer, Corners, Frame};

verus! {

/// Whether `v` is `n` but for the part two to the power -52 of `size`.
pub open spec fn is_about(v: int, n: int, size: int) -> bool {
    arith::absolute(v - n) * HIDDEN_BIT <= size
}

/// The errors of two steps add up.
pub proof fn lemma_two_steps(v: int, n: int, m: int, a: int, b: int)
    requires
        is_about(v, n, a),
        is_about(n, m, b),
    ensures
        is_about(v, m, a + b),
{
    let h = HIDDEN_BIT as int;
    let (x, y, z) = (arith::absolute(v - n), arith::absolute(n - m), arith::absolute(v - m));
    assert(z * h <= (x + y) * h) by (nonlinear_arith)
        requires
            z <= x + y,
            h > 0,
    ;
    assert((x + y) * h == x * h + y * h) by (nonlinear_arith);
}

/// An error grows with the scale.
pub proof fn lemma_scaled(v: int, n: int, e: int, k: int)
    requires
        is_about(v, n, e),
    ensures
        is_about(v * k, n * k, e * arith::absolute(k)),
{
    let h = HIDDEN_BIT as int;
    let (x, a) = (arith::absolute(v - n), arith::absolute(k));
    assert(v * k - n * k == (v - n) * k) by (nonlinear_arith);
    assert(arith::absolute((v - n) * k) == x * a) by {
        let d = v - n;
        assert((-d) * k == -(d * k) && d * (-k) == -(d * k) && (-d) * (-k) == d * k)
            by (nonlinear_arith);
        assert(x * a >= 0) by (nonlinear_arith)
            requires
                x >= 0,
                a >= 0,
        ;
    }
    assert((x * a) * h <= e * a) by (nonlinear_arith)
        requires
            x * h <= e,
            a >= 0,
    ;
}

/// A larger error can be allowed.
pub proof fn lemma_allowed(v: int, n: int, e: int, f: int)
    requires
        is_about(v, n, e),
        e <= f,
    ensures
        is_about(v, n, f),
{
}

/// The same can be added on both sides.
pub proof fn lemma_shifted(v: int, n: int, e: int, k: int)
    requires
        is_about(v, n, e),
    ensures
        is_about(k + v, k + n, e),
{
}

/// A factor of both sides can be dropped.
pub proof fn lemma_unscaled(v: int, n: int, e: int, k: int)
    requires
        is_about(v * k, n * k, e * k),
        k > 0,
    ensures
        is_about(v, n, e),
{
    let h = HIDDEN_BIT as int;
    let x = arith::absolute(v - n);
    assert(v * k - n * k == (v - n) * k) by (nonlinear_arith);
    assert(arith::absolute((v - n) * k) == x * k) by {
        let d = v - n;
        assert((-d) * k == -(d * k)) by (nonlinear_arith);
        assert(x * k >= 0) by (nonlinear_arith)
            requires
                x >= 0,
                k > 0,
        ;
    }
    assert(x * h <= e) by (nonlinear_arith)
        requires
            (x * k) * h <= e * k,
            k > 0,
    ;
}

/// A product of numbers of bounded size.
proof fn lemma_product(a: F64, b: F64, m: int, n: int)
    requires
        a.finite() && b.finite(),
        arith::absolute(a.units()) <= m,
        arith::absolute(b.units()) <= n,
        m * n <= error::limit() * cast::one(),
        HIDDEN_BIT * cast::one() <= m * n,
    ensures
        ({
            let o = cast::one();
            let p = arith::product(a, b);
            &&& p.finite()
            &&& is_about(p.units() * o, a.units() * b.units(), m * n)
            &&& arith::absolute(p.units()) * o <= 2 * (m * n)
        }),
{
    let o = cast::one();
    let h = HIDDEN_BIT as int;
    excess::lemma_weight_of_one();
    let (u, v) = (a.units(), b.units());
    let (x, y) = (arith::absolute(u), arith::absolute(v));
    assert(0 <= x * y <= m * n) by (nonlinear_arith)
        requires
            0 <= x <= m,
            0 <= y <= n,
    ;
    error::lemma_product_close(a, b);
    assert(arith::absolute(u * v) == x * y) by {
        assert((-u) * v == -(u * v) && u * (-v) == -(u * v) && (-u) * (-v) == u * v)
            by (nonlinear_arith);
    }
    let p = arith::product(a, b).units();
    error::lemma_distance(p * o, u * v, o, m * n);
    let e = arith::absolute(p * o - u * v);
    assert(e <= m * n) by (nonlinear_arith)
        requires
            e * h <= m * n,
            h >= 1,
            e >= 0,
    ;
    assert(arith::absolute(p) * o == arith::absolute(p * o)) by {
        assert((-p) * o == -(p * o)) by (nonlinear_arith);
        assert(arith::absolute(p) * o >= 0) by (nonlinear_arith)
            requires
                arith::absolute(p) >= 0,
                o > 0,
        ;
    }
}

/// Drops the weight of one from a bound.
proof fn lemma_bound(p: int, o: int, m: int)
    requires
        o > 0,
        arith::absolute(p) * o <= m * o,
    ensures
        arith::absolute(p) <= m,
{
    let x = arith::absolute(p);
    assert(x <= m) by (nonlinear_arith)
        requires
            x * o <= m * o,
            o > 0,
    ;
}

/// A product of bounds is within what products are exact for.
proof fn lemma_fits(m: int, n: int, k: int, o: int)
    requires
        o >= HIDDEN_BIT,
        error::limit() == o * 0x1000_0000_0000_0000,
        o <= m,
        HIDDEN_BIT <= n,
        0 < k,
        m <= k * o,
        k * n <= 0x1000_0000_0000_0000 * o,
    ensures
        m * n <= error::limit() * o,
        HIDDEN_BIT * o <= m * n,
{
    let h = HIDDEN_BIT as int;
    let t = 0x1000_0000_0000_0000int;
    assert(m * n <= (k * o) * n) by (nonlinear_arith)
        requires
            m <= k * o,
            n > 0,
    ;
    assert((k * o) * n == (k * n) * o) by (nonlinear_arith);
    assert((k * n) * o <= (t * o) * o) by (nonlinear_arith)
        requires
            k * n <= t * o,
            o > 0,
    ;
    assert((o * t) * o == (t * o) * o) by (nonlinear_arith);
    assert(h * o <= m * n) by (nonlinear_arith)
        requires
            h <= n,
            o <= m,
            h > 0,
            o > 0,
    ;
}

/// The factor from degrees to radians, as a value.
pub open spec fn degree() -> int {
    (F64 { bits: angle::RADIANS_PER_DEGREE_BITS }).units()
}

/// A degree is the part 1 / 180 of pi, to fifteen digits.
pub proof fn law_degree_is_a_part_of_pi()
    ensures
        314_159_265_358_979 * cast::one() <= 18_000_000_000_000_000 * degree()
            <= 314_159_265_358_980 * cast::one(),
{
    angle::law_angles_are_parts_of_pi();
}

proof fn lemma_degree()
    ensures
        (F64 { bits: angle::RADIANS_PER_DEGREE_BITS }).finite(),
        HIDDEN_BIT <= degree(),
        32 * degree() <= cast::one() <= 64 * degree(),
{
    let f = F64 { bits: angle::RADIANS_PER_DEGREE_BITS };
    let h = HIDDEN_BIT as nat;
    let m = f.magnitude();
    crate::binary64::laws::lemma_scale_power(1017);
    crate::binary64::laws::lemma_scale_power(1018);
    binary64::lemma_scale_order(1017 * h, m);
    binary64::lemma_scale_order(m, 1018 * h);
    lemma2_to64();
    lemma2_to64_rest();
    lemma_pow2_adds(1069, 5);
    lemma_pow2_adds(1068, 6);
    lemma_pow2_adds(52, 1016);
    lemma_pow2_pos(1016);
    assert(pow2(52) * pow2(1016) >= pow2(52)) by (nonlinear_arith)
        requires
            pow2(1016) >= 1,
    ;
}

/// A distance along x under a projection, step by step.
proof fn lemma_projected_x(lng: F64, origin: F64, cosine: F64, scale: F64)
    requires
        lng.finite() && origin.finite() && cosine.finite() && scale.finite(),
        arith::absolute(lng.units()) <= 181 * cast::one(),
        arith::absolute(origin.units()) <= 181 * cast::one(),
        arith::absolute(cosine.units()) <= cast::one(),
        HIDDEN_BIT <= scale.units() <= 0x1000_0000 * cast::one(),
    ensures
        ({
            let (o, s, c) = (cast::one(), scale.units(), cosine.units());
            let earth = 6_371_000int;
            let x = arith::product(
                arith::product(
                    arith::product(
                        cast::of_integer(earth),
                        angle::radians(arith::difference(lng, origin)),
                    ),
                    cosine,
                ),
                scale,
            );
            &&& x.finite()
            &&& is_about(
                x.units() * o * o * o,
                (earth * degree()) * (lng.units() - origin.units()) * c * s,
                5700 * (earth * degree()) * s * o * o,
            )
        }),
{
    let (o, s, c) = (cast::one(), scale.units(), cosine.units());
    let h = HIDDEN_BIT as int;
    let (earth, rho) = (6_371_000int, degree());
    lemma2_to64_rest();
    excess::lemma_weight_of_one();
    lemma_degree();
    error::lemma_integer_value(earth);
    let g = earth * rho;
    let e0 = lng.units() - origin.units();
    // The difference of the longitudes.
    error::lemma_difference_close(lng, origin);
    let d = arith::difference(lng, origin);
    error::lemma_distance(d.units(), e0, 1, 182 * o);
    assert(is_about(d.units(), e0, 182 * o));
    assert(arith::absolute(d.units()) <= 363 * o) by (nonlinear_arith)
        requires
            arith::absolute(d.units() - e0) * h <= 182 * o,
            arith::absolute(d.units()) <= arith::absolute(e0) + arith::absolute(d.units() - e0),
            arith::absolute(e0) <= 362 * o,
            h >= 182,
            o > 0,
    ;
    // In radians.
    let factor = F64 { bits: angle::RADIANS_PER_DEGREE_BITS };
    let m2 = (363 * o) * rho;
    lemma_fits(363 * o, rho, 363, o);
    lemma_product(d, factor, 363 * o, rho);
    let a = angle::radians(d);
    let a0 = e0 * rho;
    assert(m2 == (363 * rho) * o) by (nonlinear_arith)
        requires
            m2 == (363 * o) * rho,
    ;
    assert(arith::absolute(a.units()) * o <= (726 * rho) * o) by (nonlinear_arith)
        requires
            arith::absolute(a.units()) * o <= 2 * m2,
            m2 == (363 * rho) * o,
    ;
    lemma_bound(a.units(), o, 726 * rho);
    lemma_scaled(d.units(), e0, 182 * o, rho);
    lemma_two_steps(a.units() * o, d.units() * rho, a0, m2, (182 * o) * rho);
    assert(m2 + (182 * o) * rho == (545 * rho) * o) by (nonlinear_arith)
        requires
            m2 == (363 * rho) * o,
    ;
    // Times the radius.
    let m3 = (earth * o) * (726 * rho);
    assert(m3 == (726 * g) * o) by (nonlinear_arith)
        requires
            m3 == (earth * o) * (726 * rho),
            g == earth * rho,
    ;
    assert(g == 6_371_000 * rho);
    lemma_fits(earth * o, 726 * rho, earth, o);
    lemma_product(cast::of_integer(earth), a, earth * o, 726 * rho);
    let b = arith::product(cast::of_integer(earth), a);
    assert(arith::absolute(b.units()) * o <= (1452 * g) * o) by (nonlinear_arith)
        requires
            arith::absolute(b.units()) * o <= 2 * m3,
            m3 == (726 * g) * o,
    ;
    lemma_bound(b.units(), o, 1452 * g);
    // b * o is about earth * o * a, and earth * a * o is about earth * a0.
    lemma_scaled(a.units() * o, a0, (545 * rho) * o, earth);
    assert((earth * o) * a.units() == (a.units() * o) * earth) by (nonlinear_arith);
    lemma_two_steps(
        b.units() * o,
        (a.units() * o) * earth,
        a0 * earth,
        m3,
        ((545 * rho) * o) * earth,
    );
    assert(m3 + ((545 * rho) * o) * earth == (1271 * g) * o) by (nonlinear_arith)
        requires
            m3 == (726 * g) * o,
            g == earth * rho,
    ;
    let b0 = g * e0;
    assert(a0 * earth == b0) by (nonlinear_arith)
        requires
            a0 == e0 * rho,
            b0 == g * e0,
            g == earth * rho,
    ;
    lemma_projected_x_rest(b, cosine, scale, g, b0);
}

/// The last steps of a distance along x under a projection.
proof fn lemma_projected_x_rest(b: F64, cosine: F64, scale: F64, g: int, b0: int)
    requires
        b.finite() && cosine.finite() && scale.finite(),
        cast::one() <= g <= 200_000 * cast::one(),
        arith::absolute(b.units()) <= 1452 * g,
        arith::absolute(cosine.units()) <= cast::one(),
        HIDDEN_BIT <= scale.units() <= 0x1000_0000 * cast::one(),
        is_about(b.units() * cast::one(), b0, (1271 * g) * cast::one()),
    ensures
        ({
            let (o, s, c) = (cast::one(), scale.units(), cosine.units());
            let x = arith::product(arith::product(b, cosine), scale);
            &&& x.finite()
            &&& is_about(x.units() * o * o * o, b0 * c * s, 5700 * g * s * o * o)
        }),
{
    let (o, s, c) = (cast::one(), scale.units(), cosine.units());
    let h = HIDDEN_BIT as int;
    excess::lemma_weight_of_one();
    // Times the cosine.
    let m4 = (1452 * g) * o;
    lemma_fits(1452 * g, o, 290_400_000, o);
    lemma_product(b, cosine, 1452 * g, o);
    let p = arith::product(b, cosine);
    assert(arith::absolute(p.units()) * o <= (2904 * g) * o) by (nonlinear_arith)
        requires
            arith::absolute(p.units()) * o <= 2 * m4,
            m4 == (1452 * g) * o,
    ;
    lemma_bound(p.units(), o, 2904 * g);
    lemma_scaled(p.units() * o, b.units() * c, m4, o);
    lemma_scaled(b.units() * o, b0, (1271 * g) * o, c);
    assert((b.units() * o) * c == (b.units() * c) * o) by (nonlinear_arith);
    let (e4, e3) = (m4 * o, ((1271 * g) * o) * arith::absolute(c));
    assert(e3 <= ((1271 * g) * o) * o) by (nonlinear_arith)
        requires
            e3 == ((1271 * g) * o) * arith::absolute(c),
            0 <= arith::absolute(c) <= o,
            g > 0,
            o > 0,
    ;
    lemma_two_steps((p.units() * o) * o, (b.units() * c) * o, b0 * c, e4, e3);
    let k = (2723 * g) * o * o;
    assert(e4 + ((1271 * g) * o) * o == k) by (nonlinear_arith)
        requires
            e4 == m4 * o,
            m4 == (1452 * g) * o,
            k == (2723 * g) * o * o,
    ;
    lemma_allowed((p.units() * o) * o, b0 * c, e4 + e3, k);
    // Times the scale.
    let m5 = (2904 * g) * s;
    lemma_fits(2904 * g, s, 580_800_000, o);
    lemma_product(p, scale, 2904 * g, s);
    let x = arith::product(p, scale);
    lemma_scaled(x.units() * o, p.units() * s, m5, o);
    lemma_scaled((x.units() * o) * o, (p.units() * s) * o, m5 * o, o);
    lemma_scaled((p.units() * o) * o, b0 * c, k, s);
    assert(((p.units() * s) * o) * o == ((p.units() * o) * o) * s) by (nonlinear_arith);
    lemma_two_steps(
        ((x.units() * o) * o) * o,
        ((p.units() * s) * o) * o,
        (b0 * c) * s,
        (m5 * o) * o,
        k * s,
    );
    assert((m5 * o) * o + k * s <= 5700 * g * s * o * o) by (nonlinear_arith)
        requires
            m5 == (2904 * g) * s,
            k == (2723 * g) * o * o,
            g > 0,
            s > 0,
            o > 0,
    {
        let y = g * s * o * o;
        assert((((2904 * g) * s) * o) * o == 2904 * y) by (nonlinear_arith)
            requires
                y == g * s * o * o,
        ;
        assert(((2723 * g) * o * o) * s == 2723 * y) by (nonlinear_arith)
            requires
                y == g * s * o * o,
        ;
        assert(5700 * g * s * o * o == 5700 * y) by (nonlinear_arith)
            requires
                y == g * s * o * o,
        ;
        assert(y >= 0) by (nonlinear_arith)
            requires
                y == g * s * o * o,
                g > 0,
                s > 0,
                o > 0,
        ;
    }
}

/// A logarithm times the radius, with a sign, and the scale.
proof fn lemma_projected_part(sign: int, log: F64, scale: F64)
    requires
        sign == 1 || sign == -1,
        log.finite() && scale.finite(),
        arith::absolute(log.units()) <= 64 * cast::one(),
        HIDDEN_BIT <= scale.units() <= 0x1000_0000 * cast::one(),
    ensures
        ({
            let (o, s) = (cast::one(), scale.units());
            let earth = 6_371_000int;
            let n = arith::product(arith::product(cast::of_integer(sign * earth), log), scale);
            &&& n.finite()
            &&& arith::absolute(n.units()) <= 256 * (earth * s)
            &&& is_about(n.units() * o, sign * (earth * log.units() * s), 192 * (earth * s) * o)
        }),
{
    let (o, s, l) = (cast::one(), scale.units(), log.units());
    let earth = 6_371_000int;
    let r = sign * earth;
    lemma2_to64_rest();
    excess::lemma_weight_of_one();
    error::lemma_integer_value(r);
    assert(arith::absolute(r * o) == earth * o) by {
        assert((-earth) * o == -(earth * o)) by (nonlinear_arith);
    }
    lemma_fits(earth * o, 64 * o, earth, o);
    let f = cast::of_integer(r);
    lemma_product(f, log, earth * o, 64 * o);
    let m = arith::product(f, log);
    let e1 = (earth * o) * (64 * o);
    assert(e1 == ((64 * earth) * o) * o) by (nonlinear_arith)
        requires
            e1 == (earth * o) * (64 * o),
    ;
    assert(arith::absolute(m.units()) * o <= ((128 * earth) * o) * o) by (nonlinear_arith)
        requires
            arith::absolute(m.units()) * o <= 2 * e1,
            e1 == ((64 * earth) * o) * o,
    ;
    lemma_bound(m.units(), o, (128 * earth) * o);
    assert((r * o) * l == (r * l) * o) by (nonlinear_arith);
    lemma_unscaled(m.units(), r * l, (64 * earth) * o, o);
    lemma_fits((128 * earth) * o, s, 128 * earth, o);
    lemma_product(m, scale, (128 * earth) * o, s);
    let n = arith::product(m, scale);
    let e2 = ((128 * earth) * o) * s;
    assert(e2 == (128 * (earth * s)) * o) by (nonlinear_arith)
        requires
            e2 == ((128 * earth) * o) * s,
    ;
    assert(arith::absolute(n.units()) * o <= (256 * (earth * s)) * o) by (nonlinear_arith)
        requires
            arith::absolute(n.units()) * o <= 2 * e2,
            e2 == (128 * (earth * s)) * o,
    ;
    lemma_bound(n.units(), o, 256 * (earth * s));
    lemma_scaled(m.units(), r * l, (64 * earth) * o, s);
    lemma_two_steps(n.units() * o, m.units() * s, (r * l) * s, e2, ((64 * earth) * o) * s);
    assert(e2 + ((64 * earth) * o) * s == 192 * (earth * s) * o) by (nonlinear_arith)
        requires
            e2 == (128 * (earth * s)) * o,
    ;
    assert((r * l) * s == sign * (earth * l * s)) by (nonlinear_arith)
        requires
            r == sign * earth,
    ;
}

/// The middle of two longitudes lies halfway between them.
pub proof fn lemma_halfway(a: F64, b: F64)
    requires
        a.finite() && b.finite(),
        arith::absolute(a.units()) <= 180 * cast::one(),
        arith::absolute(b.units()) <= 180 * cast::one(),
    ensures
        ({
            let m = transformation::halfway(a, b);
            &&& m.finite()
            &&& arith::absolute(m.units()) <= 181 * cast::one()
            &&& is_about(2 * m.units(), a.units() + b.units(), 366 * cast::one())
        }),
{
    let o = cast::one();
    let h = HIDDEN_BIT as int;
    lemma2_to64_rest();
    excess::lemma_weight_of_one();
    error::lemma_integer_value(2);
    error::lemma_sum_close(a, b);
    let t = arith::sum(a, b);
    let n = a.units() + b.units();
    let u = t.units();
    error::lemma_distance(u, n, 1, 181 * o);
    let e = arith::absolute(u - n);
    assert(e <= o / 4) by (nonlinear_arith)
        requires
            e * h <= 181 * o,
            h == 0x10_0000_0000_0000,
            e >= 0,
            o > 0x1000,
    ;
    let two = cast::of_integer(2);
    let x = arith::absolute(u);
    assert(x * o <= error::limit() * (2 * o)) by (nonlinear_arith)
        requires
            0 <= x <= 361 * o,
            error::limit() == o * 0x1000_0000_0000_0000,
            o > 0,
    ;
    error::lemma_quotient_close(t, two);
    let m = transformation::halfway(a, b).units();
    assert(arith::absolute(u * o) == x * o) by {
        assert((-u) * o == -(u * o)) by (nonlinear_arith);
        assert(x * o >= 0) by (nonlinear_arith)
            requires
                x >= 0,
                o > 0,
        ;
    }
    assert(x * o + h * (2 * o) <= 2 * ((182 * o) * o)) by (nonlinear_arith)
        requires
            x <= 361 * o,
            h * 2 <= o,
            o > 0,
    ;
    error::lemma_distance(m * (2 * o), u * o, 2 * o, (182 * o) * o);
    assert(m * (2 * o) == (2 * m) * o) by (nonlinear_arith);
    lemma_unscaled(2 * m, u, 182 * o, o);
    lemma_two_steps(2 * m, u, n, 182 * o, 181 * o);
    lemma_allowed(2 * m, n, 363 * o, 366 * o);
    let g = arith::absolute(2 * m - n);
    assert(g <= o) by (nonlinear_arith)
        requires
            g * h <= 366 * o,
            h >= 366,
            g >= 0,
            o > 0,
    ;
}

/// The scale of a projection that numbers can hold: a normal number, and at most two to
/// the power 28 blocks to the meter.
pub open spec fn is_scale(scale: F64) -> bool {
    scale.finite() && HIDDEN_BIT <= scale.units() <= 0x1000_0000 * cast::one()
}

/// Whether a number is a cosine.
pub open spec fn is_cosine(c: F64) -> bool {
    c.finite() && -cast::one() <= c.units() <= cast::one()
}

/// Whether a number can be the logarithm of the tangent of a Mercator angle: these are
/// no larger than 64 for any latitude but the poles.
pub open spec fn is_log_tan(l: F64) -> bool {
    l.finite() && -64 * cast::one() <= l.units() <= 64 * cast::one()
}

/// Under a projection a position along x is the way from the middle of the area to the
/// point's longitude: the earth's radius times the angle, times the cosine of the middle
/// latitude, times the scale. A position along z is, towards the south, the radius times
/// what the logarithm is less than that of the middle latitude, times the scale.
#[verifier::spinoff_prover]
pub proof fn law_projected_positions_are_distances(
    edges: Edges,
    scale: F64,
    b: Blocks,
    cosine: F64,
    log_tan: F64,
    lat: F64,
    lng: F64,
    point_log_tan: F64,
)
    requires
        edges.valid(),
        llpoint::is_longitude(lng),
        is_scale(scale),
        is_cosine(cosine),
        is_log_tan(log_tan),
        is_log_tan(point_log_tan),
    ensures
        ({
            let f = transformation::projected_frame(edges, scale, b, cosine, log_tan);
            let (x, z) = f.position(lat, lng, point_log_tan);
            let (o, s) = (cast::one(), scale.units());
            let per_degree = 6_371_000 * degree();
            &&& x.finite() && z.finite()
            &&& is_about(
                2 * (x.units() * o * o * o),
                per_degree * (2 * lng.units() - edges.min_lng.units() - edges.max_lng.units())
                    * cosine.units() * s,
                12_000 * per_degree * s * o * o,
            )
            &&& is_about(
                z.units() * o,
                6_371_000 * (log_tan.units() - point_log_tan.units()) * s,
                650 * (6_371_000 * s) * o,
            )
        }),
{
    let f = transformation::projected_frame(edges, scale, b, cosine, log_tan);
    let (x, z) = f.position(lat, lng, point_log_tan);
    let origin = transformation::halfway(edges.min_lng, edges.max_lng);
    assert(x == projected_x(lng, origin, cosine, scale));
    lemma_way_from_the_middle(edges, scale, cosine, lng);
    lemma_projected_z(scale, log_tan, point_log_tan);
}

/// A position along x, as it is computed.
spec fn projected_x(lng: F64, origin: F64, cosine: F64, scale: F64) -> F64 {
    arith::product(
        arith::product(
            arith::product(
                cast::of_integer(6_371_000),
                angle::radians(arith::difference(lng, origin)),
            ),
            cosine,
        ),
        scale,
    )
}

#[verifier::spinoff_prover]
proof fn lemma_way_from_the_middle(edges: Edges, scale: F64, cosine: F64, lng: F64)
    requires
        edges.valid(),
        llpoint::is_longitude(lng),
        is_scale(scale),
        is_cosine(cosine),
    ensures
        ({
            let origin = transformation::halfway(edges.min_lng, edges.max_lng);
            let x = projected_x(lng, origin, cosine, scale);
            let (o, s) = (cast::one(), scale.units());
            let per_degree = 6_371_000 * degree();
            x.finite() && is_about(
                2 * (x.units() * o * o * o),
                per_degree * (2 * lng.units() - edges.min_lng.units() - edges.max_lng.units())
                    * cosine.units() * s,
                12_000 * per_degree * s * o * o,
            )
        }),
{
    let (s, c) = (scale.units(), cosine.units());
    lemma_longitude(lng);
    lemma_longitude(edges.min_lng);
    lemma_longitude(edges.max_lng);
    lemma_halfway(edges.min_lng, edges.max_lng);
    let origin = transformation::halfway(edges.min_lng, edges.max_lng);
    lemma_projected_x(lng, origin, cosine, scale);
    let x = projected_x(lng, origin, cosine, scale);
    let n = edges.min_lng.units() + edges.max_lng.units();
    lemma_from_the_middle(x.units(), lng.units(), origin.units(), n, c, s);
    assert(2 * lng.units() - n == 2 * lng.units() - edges.min_lng.units() - edges.max_lng.units());
}

/// A longitude is a finite number.
proof fn lemma_longitude(a: F64)
    requires
        llpoint::is_longitude(a),
    ensures
        a.finite(),
        arith::absolute(a.units()) <= 180 * cast::one(),
{
    lemma2_to64_rest();
    error::lemma_integer_value(180);
    error::lemma_integer_value(-180);
    assert((-180) * cast::one() == -(180 * cast::one())) by (nonlinear_arith);
    let top = binary64::INFINITY_BITS as nat;
    binary64::lemma_scale_order(a.magnitude(), top);
    binary64::lemma_scale_order(cast::of_integer(180).magnitude(), top);
    binary64::lemma_scale_order(cast::of_integer(-180).magnitude(), top);
}

proof fn lemma_from_the_middle(x: int, lng: int, origin: int, n: int, c: int, s: int)
    requires
        is_about(2 * origin, n, 366 * cast::one()),
        arith::absolute(c) <= cast::one(),
        s > 0,
        is_about(
            x * cast::one() * cast::one() * cast::one(),
            (6_371_000 * degree()) * (lng - origin) * c * s,
            5700 * (6_371_000 * degree()) * s * cast::one() * cast::one(),
        ),
    ensures
        is_about(
            2 * (x * cast::one() * cast::one() * cast::one()),
            6_371_000 * degree() * (2 * lng - n) * c * s,
            12_000 * (6_371_000 * degree()) * s * cast::one() * cast::one(),
        ),
{
    let o = cast::one();
    let g = 6_371_000 * degree();
    excess::lemma_weight_of_one();
    lemma_degree();
    let v = x * o * o * o;
    let e = 5700 * g * s * o * o;
    let m = g * (lng - origin) * c * s;
    lemma_scaled(v, m, e, 2);
    assert(v * 2 == 2 * v && m * 2 == g * (2 * lng - 2 * origin) * c * s) by (nonlinear_arith)
        requires
            m == g * (lng - origin) * c * s,
    ;
    let k = g * c * s;
    let a = arith::absolute(k);
    lemma_scaled(2 * origin, n, 366 * o, -k);
    assert((2 * origin) * (-k) + (2 * lng) * k == g * (2 * lng - 2 * origin) * c * s)
        by (nonlinear_arith)
        requires
            k == g * c * s,
    ;
    assert(n * (-k) + (2 * lng) * k == g * (2 * lng - n) * c * s) by (nonlinear_arith)
        requires
            k == g * c * s,
    ;
    let (p, q) = (g * (2 * lng - 2 * origin) * c * s, g * (2 * lng - n) * c * s);
    assert(p - q == (2 * origin) * (-k) - n * (-k));
    assert(is_about(p, q, (366 * o) * a));
    assert(a <= g * s * o) by (nonlinear_arith)
        requires
            k == g * c * s,
            a == k || a == -k,
            -o <= c <= o,
            g > 0,
            s > 0,
    {
        let t = g * s;
        assert(t > 0) by (nonlinear_arith)
            requires
                t == g * s,
                g > 0,
                s > 0,
        ;
        assert(k == t * c) by (nonlinear_arith)
            requires
                k == g * c * s,
                t == g * s,
        ;
        assert(-(t * o) <= t * c <= t * o) by (nonlinear_arith)
            requires
                t > 0,
                -o <= c <= o,
        ;
    }
    assert((366 * o) * a <= 366 * g * s * o * o) by (nonlinear_arith)
        requires
            a <= g * s * o,
            o > 0,
    ;
    lemma_allowed(p, q, (366 * o) * a, 366 * g * s * o * o);
    lemma_two_steps(2 * v, p, q, e * 2, 366 * g * s * o * o);
    assert(e * 2 + 366 * g * s * o * o <= 12_000 * g * s * o * o) by (nonlinear_arith)
        requires
            e == 5700 * g * s * o * o,
            g > 0,
            s > 0,
            o > 0,
    {
        let y = g * s * o * o;
        assert(y >= 0) by (nonlinear_arith)
            requires
                y == g * s * o * o,
                g > 0,
                s > 0,
                o > 0,
        ;
        assert(5700 * g * s * o * o == 5700 * y && 366 * g * s * o * o == 366 * y && 12_000 * g * s
            * o * o == 12_000 * y) by (nonlinear_arith)
            requires
                y == g * s * o * o,
        ;
    }
    lemma_allowed(2 * v, q, e * 2 + 366 * g * s * o * o, 12_000 * g * s * o * o);
}

proof fn lemma_projected_z(scale: F64, log_tan: F64, log: F64)
    requires
        is_scale(scale),
        is_log_tan(log_tan),
        is_log_tan(log),
    ensures
        ({
            let (o, s) = (cast::one(), scale.units());
            let z = arith::sum(
                arith::product(arith::product(cast::of_integer(-6_371_000), log), scale),
                arith::product(arith::product(cast::of_integer(6_371_000), log_tan), scale),
            );
            &&& z.finite()
            &&& is_about(
                z.units() * o,
                6_371_000 * (log_tan.units() - log.units()) * s,
                650 * (6_371_000 * s) * o,
            )
        }),
{
    let (o, s) = (cast::one(), scale.units());
    let h = HIDDEN_BIT as int;
    let t = 6_371_000 * s;
    excess::lemma_weight_of_one();
    lemma_projected_part(-1, log, scale);
    lemma_projected_part(1, log_tan, scale);
    let a = arith::product(arith::product(cast::of_integer(-6_371_000), log), scale);
    let b = arith::product(arith::product(cast::of_integer(6_371_000), log_tan), scale);
    let (u, v) = (a.units(), b.units());
    error::lemma_sum_close(a, b);
    let z = arith::sum(a, b).units();
    error::lemma_distance(z, u + v, 1, 257 * t);
    lemma_scaled(z, u + v, 257 * t, o);
    let (x, y) = (-(6_371_000 * log.units() * s), 6_371_000 * log_tan.units() * s);
    assert(is_about(u * o, x, 192 * t * o));
    assert(is_about(v * o, y, 192 * t * o));
    assert((u + v) * o == u * o + v * o) by (nonlinear_arith);
    let (p, q, w) = (
        arith::absolute(u * o - x),
        arith::absolute(v * o - y),
        arith::absolute((u + v) * o - (x + y)),
    );
    assert(w * h <= p * h + q * h) by (nonlinear_arith)
        requires
            w <= p + q,
            h > 0,
    ;
    lemma_two_steps(z * o, (u + v) * o, x + y, (257 * t) * o, 192 * t * o + 192 * t * o);
    assert((257 * t) * o + (192 * t * o + 192 * t * o) <= 650 * t * o) by (nonlinear_arith)
        requires
            t > 0,
            o > 0,
    {
        let r = t * o;
        assert(r > 0) by (nonlinear_arith)
            requires
                r == t * o,
                t > 0,
                o > 0,
        ;
        assert((257 * t) * o == 257 * r && 192 * t * o == 192 * r && 650 * t * o == 650 * r)
            by (nonlinear_arith)
            requires
                r == t * o,
        ;
    }
    lemma_allowed(z * o, x + y, (257 * t) * o + (192 * t * o + 192 * t * o), 650 * t * o);
    assert(x + y == 6_371_000 * (log_tan.units() - log.units()) * s) by (nonlinear_arith)
        requires
            x == -(6_371_000 * log.units() * s),
            y == 6_371_000 * log_tan.units() * s,
    ;
}

/// Under a projection the distance along x of two positions is the earth's radius times
/// the angle between their longitudes, times the cosine of the middle latitude, times the
/// scale; so at twice the scale it is twice as long.
pub proof fn law_projected_distances(
    edges: Edges,
    scale: F64,
    b: Blocks,
    cosine: F64,
    log_tan: F64,
    p: (F64, F64, F64),
    q: (F64, F64, F64),
)
    requires
        edges.valid(),
        llpoint::is_longitude(p.1) && llpoint::is_longitude(q.1),
        is_scale(scale),
        is_cosine(cosine),
        is_log_tan(log_tan) && is_log_tan(p.2) && is_log_tan(q.2),
    ensures
        ({
            let f = transformation::projected_frame(edges, scale, b, cosine, log_tan);
            let (x, z) = f.position(p.0, p.1, p.2);
            let (u, w) = f.position(q.0, q.1, q.2);
            let (o, s) = (cast::one(), scale.units());
            let per_degree = 6_371_000 * degree();
            &&& is_about(
                2 * (u.units() * o * o * o) - 2 * (x.units() * o * o * o),
                per_degree * (2 * q.1.units() - 2 * p.1.units()) * cosine.units() * s,
                24_000 * per_degree * s * o * o,
            )
            &&& is_about(
                w.units() * o - z.units() * o,
                6_371_000 * (p.2.units() - q.2.units()) * s,
                1300 * (6_371_000 * s) * o,
            )
        }),
{
    let f = transformation::projected_frame(edges, scale, b, cosine, log_tan);
    let (x, z) = f.position(p.0, p.1, p.2);
    let (u, w) = f.position(q.0, q.1, q.2);
    let (o, s, c) = (cast::one(), scale.units(), cosine.units());
    let g = 6_371_000 * degree();
    law_projected_positions_are_distances(edges, scale, b, cosine, log_tan, p.0, p.1, p.2);
    law_projected_positions_are_distances(edges, scale, b, cosine, log_tan, q.0, q.1, q.2);
    let n = edges.min_lng.units() + edges.max_lng.units();
    let (a, d) = (2 * p.1.units() - edges.min_lng.units() - edges.max_lng.units(), 2 * q.1.units()
        - edges.min_lng.units() - edges.max_lng.units());
    assert(g * d * c * s - g * a * c * s == g * (d - a) * c * s) by (nonlinear_arith);
    lemma_apart(
        2 * (u.units() * o * o * o),
        g * d * c * s,
        2 * (x.units() * o * o * o),
        g * a * c * s,
        12_000 * g * s * o * o,
    );
    assert(2 * (12_000 * g * s * o * o) == 24_000 * g * s * o * o) by (nonlinear_arith);
    let l = log_tan.units();
    let (i, j) = (6_371_000 * (l - p.2.units()) * s, 6_371_000 * (l - q.2.units()) * s);
    assert(j - i == 6_371_000 * (p.2.units() - q.2.units()) * s) by (nonlinear_arith)
        requires
            i == 6_371_000 * (l - p.2.units()) * s,
            j == 6_371_000 * (l - q.2.units()) * s,
    ;
    lemma_apart(w.units() * o, j, z.units() * o, i, 650 * (6_371_000 * s) * o);
    assert(2 * (650 * (6_371_000 * s) * o) == 1300 * (6_371_000 * s) * o) by (nonlinear_arith);
}

/// Under a projection a point lies in the block that its distances from the middle of the
/// area are cut to: for every scale the way along x is the earth's radius times the angle
/// from the middle longitude, times the cosine of the middle latitude, times the scale, and
/// the way along z the radius times the difference of the logarithms, times the scale.
pub proof fn law_points_are_projected(
    llbbox: LLBBox,
    scale: F64,
    corners: Corners,
    cosine: F64,
    log_tan: F64,
    made: (CoordTransformer, XZBBox),
    point: LLPoint,
    point_log_tan: F64,
    block: XZPoint,
)
    requires
        llbbox@.valid(),
        llpoint::is_longitude(point@.lng),
        is_scale(scale),
        is_cosine(cosine),
        is_log_tan(log_tan),
        is_log_tan(point_log_tan),
        call_ensures(
            CoordTransformer::with_projection,
            (&llbbox, scale, &corners, cosine, log_tan),
            Ok(made),
        ),
        call_ensures(
            CoordTransformer::transform_point,
            (&made.0, point, point_log_tan),
            block,
        ),
    ensures
        ({
            let (o, s) = (cast::one(), scale.units());
            let per_degree = 6_371_000 * degree();
            let from_middle = 2 * point@.lng.units() - llbbox@.min_lng.units()
                - llbbox@.max_lng.units();
            &&& exists|x: F64| #[trigger]
                is_cut(x, block.x as int) && x.finite() && is_about(
                    2 * (x.units() * o * o * o),
                    per_degree * from_middle * cosine.units() * s,
                    12_000 * per_degree * s * o * o,
                )
            &&& exists|z: F64| #[trigger]
                is_cut(z, block.z as int) && z.finite() && is_about(
                    z.units() * o,
                    6_371_000 * (log_tan.units() - point_log_tan.units()) * s,
                    650 * (6_371_000 * s) * o,
                )
        }),
{
    let b = corners.blocks();
    let f = transformation::projected_frame(llbbox@, scale, b, cosine, log_tan);
    law_projected_positions_are_distances(
        llbbox@,
        scale,
        b,
        cosine,
        log_tan,
        point@.lat,
        point@.lng,
        point_log_tan,
    );
    law_blocks_are_cut_positions(f, point@.lat, point@.lng, point_log_tan);
    let (x, z) = f.position(point@.lat, point@.lng, point_log_tan);
    assert(is_cut(x, block.x as int) && is_cut(z, block.z as int));
}

/// Differences are off by the sum of the errors.
proof fn lemma_apart(v: int, n: int, w: int, m: int, e: int)
    requires
        is_about(v, n, e),
        is_about(w, m, e),
    ensures
        is_about(v - w, n - m, 2 * e),
{
    let h = HIDDEN_BIT as int;
    let (x, y, z) = (
        arith::absolute(v - n),
        arith::absolute(w - m),
        arith::absolute((v - w) - (n - m)),
    );
    assert(z * h <= x * h + y * h) by (nonlinear_arith)
        requires
            z <= x + y,
            h > 0,
    ;
}

/// Whether the block `k` is what is left of a position when what follows the point is
/// dropped. Positions beyond all blocks are at the last one, and what is no number is at
/// zero.
pub open spec fn is_cut(a: F64, k: int) -> bool {
    let (u, o) = (a.units(), cast::one());
    if a.nan() {
        k == 0
    } else if u >= 0x8000_0000 * o {
        k == 0x7fff_ffff
    } else if u <= -0x8000_0000 * o {
        k == -0x8000_0000
    } else if u >= 0 {
        k * o <= u < (k + 1) * o
    } else {
        (k - 1) * o < u <= k * o
    }
}

/// The block of a point is its position, cut to an integer.
pub proof fn law_blocks_are_cut_positions(f: Frame, lat: F64, lng: F64, log_tan: F64)
    ensures
        is_cut(f.position(lat, lng, log_tan).0, f.block(lat, lng, log_tan).x as int),
        is_cut(f.position(lat, lng, log_tan).1, f.block(lat, lng, log_tan).z as int),
{
    let (x, z) = f.position(lat, lng, log_tan);
    lemma_cut(x);
    lemma_cut(z);
}

/// Cutting a number to an integer.
pub proof fn lemma_cut(a: F64)
    ensures
        is_cut(a, cast::as_i32(a)),
        i32::MIN <= cast::as_i32(a) <= i32::MAX,
{
    let o = cast::one();
    excess::lemma_weight_of_one();
    let v = binary64::scale(a.magnitude()) as int;
    let t = v / o;
    vstd::arithmetic::div_mod::lemma_fundamental_div_mod(v, o);
    assert(o * t == t * o) by (nonlinear_arith);
    assert((t + 1) * o == t * o + o && (-t - 1) * o == -(t * o) - o && (-t) * o == -(t * o))
        by (nonlinear_arith);
    let k = 0x8000_0000int;
    assert(v >= k * o ==> t >= k) by (nonlinear_arith)
        requires
            v < t * o + o,
            o > 0,
    ;
    assert(t >= k ==> v >= k * o) by (nonlinear_arith)
        requires
            t * o <= v,
            o > 0,
    ;
    assert(t >= 0) by (nonlinear_arith)
        requires
            v < t * o + o,
            v >= 0,
            o > 0,
    ;
    if !a.nan() && v > k * o {
        assert(t >= k);
    }
}

/// The blocks that an area spans: the whole meters of its length, times the scale.
pub proof fn law_lengths_are_whole_meters_scaled(
    edges: Edges,
    scale: F64,
    south_north: F64,
    west_east: F64,
)
    requires
        scale.finite() && south_north.finite() && west_east.finite(),
        0 <= scale.units() <= 0x1000_0000 * cast::one(),
        0 <= south_north.units() < 0x1_0000_0000 * cast::one(),
        0 <= west_east.units() < 0x1_0000_0000 * cast::one(),
    ensures
        ({
            let f = transformation::local_frame(edges, scale, south_north, west_east);
            let o = cast::one();
            let (north, east) = (south_north.units() / o, west_east.units() / o);
            &&& error::is_close(f.scale_factor_x.units(), east * scale.units(), 1)
            &&& error::is_close(f.scale_factor_z.units(), north * scale.units(), 1)
        }),
{
    lemma_scaled_length(south_north, scale);
    lemma_scaled_length(west_east, scale);
}

proof fn lemma_scaled_length(meters: F64, scale: F64)
    requires
        scale.finite() && meters.finite(),
        0 <= scale.units() <= 0x1000_0000 * cast::one(),
        0 <= meters.units() < 0x1_0000_0000 * cast::one(),
    ensures
        error::is_close(
            transformation::scaled_length(meters, scale).units(),
            (meters.units() / cast::one()) * scale.units(),
            1,
        ),
{
    let o = cast::one();
    let h = HIDDEN_BIT as int;
    excess::lemma_weight_of_one();
    lemma2_to64_rest();
    let k = meters.units() / o;
    vstd::arithmetic::div_mod::lemma_fundamental_div_mod(meters.units(), o);
    assert(o * k == k * o) by (nonlinear_arith);
    assert(0 <= k < 0x1_0000_0000) by (nonlinear_arith)
        requires
            k * o <= meters.units() < k * o + o,
            0 <= meters.units() < 0x1_0000_0000 * o,
            o > 0,
    ;
    error::lemma_integer_value(k);
    let whole = cast::with_whole(meters, cast::floored(meters));
    crate::binary64::laws::lemma_signed(
        meters.negative(),
        crate::binary64::round::nearest(k * o, 1),
    );
    if meters.negative() {
        assert(meters.units() == 0);
        assert(k == 0) by {
            vstd::arithmetic::div_mod::lemma_div_of0(o);
        }
        assert(0 * o == 0);
    }
    assert(whole.finite() && whole.units() == k * o);
    let u = scale.units();
    assert(0 <= k * o) by (nonlinear_arith)
        requires
            k >= 0,
            o > 0,
    ;
    assert(0 <= (k * o) * u <= error::limit() * o) by (nonlinear_arith)
        requires
            0 <= k < 0x1_0000_0000,
            0 <= u <= 0x1000_0000 * o,
            error::limit() == o * 0x1000_0000_0000_0000,
            o > 0,
    {
        assert(k * u <= 0x1000_0000_0000_0000 * o) by (nonlinear_arith)
            requires
                0 <= k < 0x1_0000_0000,
                0 <= u <= 0x1000_0000 * o,
        ;
        assert((k * o) * u == (k * u) * o) by (nonlinear_arith);
        assert((k * u) * o <= (0x1000_0000_0000_0000 * o) * o) by (nonlinear_arith)
            requires
                k * u <= 0x1000_0000_0000_0000 * o,
                o > 0,
        ;
        assert(k * u >= 0) by (nonlinear_arith)
            requires
                k >= 0,
                u >= 0,
        ;
        assert((k * u) * o >= 0) by (nonlinear_arith)
            requires
                k * u >= 0,
                o > 0,
        ;
        assert((o * 0x1000_0000_0000_0000) * o == (0x1000_0000_0000_0000 * o) * o)
            by (nonlinear_arith);
    }
    error::lemma_product_close(whole, scale);
    let r = transformation::scaled_length(meters, scale).units();
    let n = k * u;
    assert((k * o) * u == n * o) by (nonlinear_arith)
        requires
            n == k * u,
    ;
    assert(n >= 0) by (nonlinear_arith)
        requires
            n == k * u,
            k >= 0,
            u >= 0,
    ;
    assert((r - n) * (2 * h) <= n + h * 1 && (n - r) * (2 * h) <= n + h * 1) by (nonlinear_arith)
        requires
            (r * o - n * o) * (2 * h) <= n * o + h * o,
            (n * o - r * o) * (2 * h) <= n * o + h * o,
            o > 0,
    {
        assert((r * o - n * o) * (2 * h) == ((r - n) * (2 * h)) * o) by (nonlinear_arith);
        assert((n * o - r * o) * (2 * h) == ((n - r) * (2 * h)) * o) by (nonlinear_arith);
        assert(n * o + h * o == (n + h) * o) by (nonlinear_arith);
        assert((r - n) * (2 * h) <= n + h) by (nonlinear_arith)
            requires
                ((r - n) * (2 * h)) * o <= (n + h) * o,
                o > 0,
        ;
        assert((n - r) * (2 * h) <= n + h) by (nonlinear_arith)
            requires
                ((n - r) * (2 * h)) * o <= (n + h) * o,
                o > 0,
        ;
    }
}

/// What is known of an axis of an area: from `min`, `full` units long, and `len` as
/// computed, in `s` units of blocks, with a point `v` from its start. `m` bounds the
/// length and the way to the point.
spec fn is_on_axis(full: int, len: int, s: int, v: int, m: int, o: int) -> bool {
    &&& HIDDEN_BIT <= full <= m <= 800 * o
    &&& arith::absolute(v) <= m <= 0x10_0000 * full
    &&& full <= 2 * len && len <= 2 * full
    &&& is_about(len, full, full)
    &&& HIDDEN_BIT <= s <= 0x8000_0000 * o
}

/// The share of an axis that lies before a point.
proof fn lemma_share(d: F64, len: F64, full: int, s: int, v: int, m: int)
    requires
        d.finite() && len.finite(),
        is_on_axis(full, len.units(), s, v, m, cast::one()),
        is_about(d.units(), v, m),
    ensures
        ({
            let o = cast::one();
            let q = arith::quotient(d, len);
            &&& q.finite()
            &&& is_about(q.units() * len.units(), v * o, 4 * m * o)
            &&& arith::absolute(q.units() * len.units()) <= 3 * m * o
            &&& arith::absolute(q.units()) <= 0x80_0000 * o
        }),
{
    let o = cast::one();
    let h = HIDDEN_BIT as int;
    let (u, l) = (d.units(), len.units());
    excess::lemma_weight_of_one();
    let e = arith::absolute(u - v);
    assert(e <= m) by (nonlinear_arith)
        requires
            e * h <= m,
            h >= 1,
            e >= 0,
    ;
    let a = arith::absolute(u);
    assert(a <= 2 * m);
    assert(a * o <= error::limit() * l) by (nonlinear_arith)
        requires
            0 <= a <= 2 * m,
            m <= 0x10_0000 * full,
            full <= 2 * l,
            error::limit() == o * 0x1000_0000_0000_0000,
            o > 0,
            l > 0,
    {
        assert(a <= 0x40_0000 * l);
        assert(a * o <= (0x40_0000 * l) * o) by (nonlinear_arith)
            requires
                a <= 0x40_0000 * l,
                o > 0,
        ;
        assert((0x40_0000 * l) * o <= (o * 0x1000_0000_0000_0000) * l) by (nonlinear_arith)
            requires
                l > 0,
                o > 0,
        ;
    }
    error::lemma_quotient_close(d, len);
    let q = arith::quotient(d, len).units();
    assert(arith::absolute(u * o) == a * o) by {
        assert((-u) * o == -(u * o)) by (nonlinear_arith);
        assert(a * o >= 0) by (nonlinear_arith)
            requires
                a >= 0,
                o > 0,
        ;
    }
    assert(a * o + h * l <= 2 * (2 * m * o)) by (nonlinear_arith)
        requires
            a <= 2 * m,
            l <= 2 * m,
            0 < h <= o,
            l > 0,
            m > 0,
    {
        assert(a * o <= (2 * m) * o) by (nonlinear_arith)
            requires
                a <= 2 * m,
                o > 0,
        ;
        assert(h * l <= o * (2 * m)) by (nonlinear_arith)
            requires
                0 < h <= o,
                0 < l <= 2 * m,
        ;
        assert(o * (2 * m) == 2 * m * o && (2 * m) * o == 2 * m * o) by (nonlinear_arith);
    }
    error::lemma_distance(q * l, u * o, l, 2 * m * o);
    lemma_scaled(u, v, m, o);
    lemma_two_steps(q * l, u * o, v * o, 2 * m * o, m * o);
    assert(2 * m * o + m * o <= 4 * m * o) by (nonlinear_arith)
        requires
            m > 0,
            o > 0,
    ;
    lemma_allowed(q * l, v * o, 2 * m * o + m * o, 4 * m * o);
    let g = arith::absolute(q * l - u * o);
    let mo = m * o;
    assert(2 * m * o == 2 * mo && 3 * m * o == 3 * mo && a * o <= 2 * mo) by (nonlinear_arith)
        requires
            mo == m * o,
            a <= 2 * m,
            o > 0,
    ;
    assert(mo > 0) by (nonlinear_arith)
        requires
            mo == m * o,
            m > 0,
            o > 0,
    ;
    assert(g <= mo) by (nonlinear_arith)
        requires
            g * h <= 2 * mo,
            h >= 2,
            g >= 0,
            mo > 0,
    ;
    let w = arith::absolute(q);
    assert(arith::absolute(q * l) == w * l) by {
        assert((-q) * l == -(q * l)) by (nonlinear_arith);
        assert(w * l >= 0) by (nonlinear_arith)
            requires
                w >= 0,
                l > 0,
        ;
    }
    assert(w <= 0x80_0000 * o) by (nonlinear_arith)
        requires
            w * l <= 3 * mo,
            mo == m * o,
            m <= 0x20_0000 * l,
            l > 0,
            o > 0,
            w >= 0,
    {
        assert(mo <= (0x20_0000 * l) * o) by (nonlinear_arith)
            requires
                mo == m * o,
                m <= 0x20_0000 * l,
                o > 0,
        ;
        if w > 0x80_0000 * o {
            assert(w * l > (0x80_0000 * o) * l) by (nonlinear_arith)
                requires
                    w > 0x80_0000 * o,
                    l > 0,
            ;
            assert((0x80_0000 * o) * l == 4 * ((0x20_0000 * l) * o)) by (nonlinear_arith);
        }
    }
}

/// A share of an axis in blocks: `t` is about the share of `n` units, and not more than
/// `k` times the bound.
proof fn lemma_share_in_blocks(t: F64, blocks: F64, l: int, full: int, v: int, m: int, n: int, k: int)
    requires
        t.finite() && blocks.finite(),
        is_on_axis(full, l, blocks.units(), v, m, cast::one()),
        arith::absolute(t.units()) <= 0x100_0000 * cast::one(),
        is_about(t.units() * l, n * cast::one(), k * m * cast::one()),
        arith::absolute(t.units() * l) <= k * m * cast::one(),
        1 <= k <= 12,
    ensures
        ({
            let r = arith::product(t, blocks);
            r.finite() && is_about(
                r.units() * full,
                n * blocks.units(),
                (8 * k + 8) * m * blocks.units(),
            )
        }),
{
    let o = cast::one();
    let h = HIDDEN_BIT as int;
    let (u, s) = (t.units(), blocks.units());
    excess::lemma_weight_of_one();
    let a = arith::absolute(u);
    assert(a * s <= error::limit() * o) by (nonlinear_arith)
        requires
            0 <= a <= 0x100_0000 * o,
            0 < s <= 0x8000_0000 * o,
            error::limit() == o * 0x1000_0000_0000_0000,
            o > 0,
    ;
    error::lemma_product_close(t, blocks);
    let r = arith::product(t, blocks).units();
    let us = u * s;
    assert(arith::absolute(us) == a * s) by {
        assert((-u) * s == -(u * s)) by (nonlinear_arith);
        assert(a * s >= 0) by (nonlinear_arith)
            requires
                a >= 0,
                s > 0,
        ;
    }
    let b = arith::absolute(us);
    assert(arith::absolute(u * l) == a * l) by {
        assert((-u) * l == -(u * l)) by (nonlinear_arith);
        assert(a * l >= 0) by (nonlinear_arith)
            requires
                a >= 0,
                l > 0,
        ;
    }
    // The error of the product, times the length.
    error::lemma_distance(r * o, us, o, b + h * o);
    assert(h * o >= 0) by (nonlinear_arith)
        requires
            h > 0,
            o > 0,
    ;
    lemma_scaled(r * o, us, b + h * o, l);
    let mos = m * o * s;
    assert(mos > 0) by (nonlinear_arith)
        requires
            mos == m * o * s,
            m > 0,
            o > 0,
            s > 0,
    ;
    assert((b + h * o) * l <= (k + 2) * mos) by (nonlinear_arith)
        requires
            b == a * s,
            a * l <= k * m * o,
            l <= 2 * m,
            0 < h <= s,
            mos == m * o * s,
            l > 0,
            o > 0,
            s > 0,
    {
        assert(b * l == (a * l) * s) by (nonlinear_arith)
            requires
                b == a * s,
        ;
        assert((a * l) * s <= (k * m * o) * s) by (nonlinear_arith)
            requires
                a * l <= k * m * o,
                s > 0,
        ;
        assert((k * m * o) * s == k * mos) by (nonlinear_arith)
            requires
                mos == m * o * s,
        ;
        assert((h * o) * l <= (s * o) * (2 * m)) by (nonlinear_arith)
            requires
                0 < h <= s,
                0 < l <= 2 * m,
                o > 0,
        ;
        assert((s * o) * (2 * m) == 2 * mos) by (nonlinear_arith)
            requires
                mos == m * o * s,
        ;
        assert((b + h * o) * l == b * l + (h * o) * l) by (nonlinear_arith);
        assert((k + 2) * mos == k * mos + 2 * mos) by (nonlinear_arith);
    }
    lemma_allowed((r * o) * l, us * l, (b + h * o) * l, (k + 2) * mos);
    // The error of the share, times the blocks.
    lemma_scaled(u * l, n * o, k * m * o, s);
    assert((k * m * o) * s == k * mos) by (nonlinear_arith)
        requires
            mos == m * o * s,
    ;
    assert((u * l) * s == us * l) by (nonlinear_arith)
        requires
            us == u * s,
    ;
    lemma_two_steps((r * o) * l, us * l, (n * o) * s, (k + 2) * mos, k * mos);
    // The error of the length.
    let x = arith::absolute(r);
    let f = arith::absolute((r * o) * l - us * l);
    assert(f <= (k + 2) * mos) by (nonlinear_arith)
        requires
            f * h <= (k + 2) * mos,
            h >= 1,
            f >= 0,
    ;
    assert((r * o) * l == (r * l) * o) by (nonlinear_arith);
    assert(arith::absolute(us * l) <= k * mos) by {
        let y = u * l;
        assert(arith::absolute(y * s) == arith::absolute(y) * s) by {
            assert((-y) * s == -(y * s)) by (nonlinear_arith);
            assert(arith::absolute(y) * s >= 0) by (nonlinear_arith)
                requires
                    arith::absolute(y) >= 0,
                    s > 0,
            ;
        }
        assert(arith::absolute(y) * s <= (k * m * o) * s) by (nonlinear_arith)
            requires
                arith::absolute(y) <= k * m * o,
                s > 0,
        ;
    }
    let z = (2 * k + 2) * mos;
    assert(arith::absolute((r * l) * o) <= z) by {
        assert((k + 2) * mos + k * mos == z) by (nonlinear_arith)
            requires
                z == (2 * k + 2) * mos,
        ;
    }
    assert(arith::absolute((r * l) * o) == (x * l) * o) by {
        let y = r * l;
        assert((-r) * l == -(r * l)) by (nonlinear_arith);
        assert((-y) * o == -(y * o)) by (nonlinear_arith);
        assert(x * l >= 0) by (nonlinear_arith)
            requires
                x >= 0,
                l > 0,
        ;
        assert((x * l) * o >= 0) by (nonlinear_arith)
            requires
                x * l >= 0,
                o > 0,
        ;
    }
    assert(x * l <= (2 * k + 2) * m * s) by (nonlinear_arith)
        requires
            (x * l) * o <= z,
            z == (2 * k + 2) * mos,
            mos == m * o * s,
            o > 0,
    {
        assert(z == ((2 * k + 2) * m * s) * o) by (nonlinear_arith)
            requires
                z == (2 * k + 2) * mos,
                mos == m * o * s,
        ;
        assert(x * l <= (2 * k + 2) * m * s) by (nonlinear_arith)
            requires
                (x * l) * o <= ((2 * k + 2) * m * s) * o,
                o > 0,
        ;
    }
    lemma_length_error(r, x, l, full, m, s, o, k, mos);
    lemma_two_steps(
        (r * full) * o,
        (r * l) * o,
        (n * o) * s,
        (4 * k + 4) * mos,
        (k + 2) * mos + k * mos,
    );
    assert((4 * k + 4) * mos + ((k + 2) * mos + k * mos) <= ((8 * k + 8) * m * s) * o)
        by (nonlinear_arith)
        requires
            mos == m * o * s,
            mos > 0,
            k >= 1,
    {
        assert(((8 * k + 8) * m * s) * o == (8 * k + 8) * mos) by (nonlinear_arith)
            requires
                mos == m * o * s,
        ;
        assert((4 * k + 4) * mos + ((k + 2) * mos + k * mos) == (6 * k + 6) * mos)
            by (nonlinear_arith);
        assert((6 * k + 6) * mos <= (8 * k + 8) * mos) by (nonlinear_arith)
            requires
                mos > 0,
                k >= 1,
        ;
    }
    assert((n * o) * s == (n * s) * o) by (nonlinear_arith);
    lemma_allowed(
        (r * full) * o,
        (n * s) * o,
        (4 * k + 4) * mos + ((k + 2) * mos + k * mos),
        ((8 * k + 8) * m * s) * o,
    );
    lemma_unscaled(r * full, n * s, (8 * k + 8) * m * s, o);
}

proof fn lemma_length_error(
    r: int,
    x: int,
    l: int,
    full: int,
    m: int,
    s: int,
    o: int,
    k: int,
    mos: int,
)
    requires
        x == arith::absolute(r),
        x * l <= (2 * k + 2) * m * s,
        is_about(l, full, full),
        full <= 2 * l,
        mos == m * o * s,
        o > 0,
    ensures
        is_about((r * full) * o, (r * l) * o, (4 * k + 4) * mos),
{
    lemma_scaled(l, full, full, r);
    assert(l * r == r * l && full * r == r * full) by (nonlinear_arith);
    let e = full * x;
    assert(e <= (4 * k + 4) * m * s) by (nonlinear_arith)
        requires
            e == full * x,
            full <= 2 * l,
            x >= 0,
            x * l <= (2 * k + 2) * m * s,
    {
        assert(full * x <= (2 * l) * x) by (nonlinear_arith)
            requires
                full <= 2 * l,
                x >= 0,
        ;
        assert((2 * l) * x == 2 * (x * l)) by (nonlinear_arith);
        assert(2 * ((2 * k + 2) * m * s) == (4 * k + 4) * m * s) by (nonlinear_arith);
    }
    assert(is_about(r * full, r * l, e));
    lemma_scaled(r * full, r * l, e, o);
    assert(e * o <= (4 * k + 4) * mos) by (nonlinear_arith)
        requires
            e <= (4 * k + 4) * m * s,
            mos == m * o * s,
            o > 0,
    {
        assert(e * o <= ((4 * k + 4) * m * s) * o) by (nonlinear_arith)
            requires
                e <= (4 * k + 4) * m * s,
                o > 0,
        ;
        assert(((4 * k + 4) * m * s) * o == (4 * k + 4) * mos) by (nonlinear_arith)
            requires
                mos == m * o * s,
        ;
    }
    lemma_allowed((r * full) * o, (r * l) * o, e * o, (4 * k + 4) * mos);
}

/// The rest of one, as a share.
proof fn lemma_rest(q: F64, l: int, full: int, s: int, v: int, m: int)
    requires
        q.finite(),
        is_on_axis(full, l, s, v, m, cast::one()),
        is_about(q.units() * l, v * cast::one(), 4 * m * cast::one()),
        arith::absolute(q.units() * l) <= 3 * m * cast::one(),
        arith::absolute(q.units()) <= 0x80_0000 * cast::one(),
    ensures
        ({
            let o = cast::one();
            let t = arith::difference(cast::of_integer(1), q);
            &&& t.finite()
            &&& arith::absolute(t.units()) <= 0x100_0000 * o
            &&& is_about(t.units() * l, (full - v) * o, 12 * m * o)
            &&& arith::absolute(t.units() * l) <= 12 * m * o
        }),
{
    let o = cast::one();
    let h = HIDDEN_BIT as int;
    let u = q.units();
    excess::lemma_weight_of_one();
    crate::binary64::laws::lemma_one();
    let one = cast::of_integer(1);
    error::lemma_difference_close(one, q);
    let t = arith::difference(one, q).units();
    let n = o - u;
    let a = arith::absolute(n);
    error::lemma_distance(t, n, 1, a + h);
    let e = arith::absolute(t - n);
    assert(e <= o) by (nonlinear_arith)
        requires
            e * h <= a + h,
            a <= 0x80_0001 * o,
            h == 0x10_0000_0000_0000,
            h <= o,
            e >= 0,
    ;
    let mo = m * o;
    assert(mo > 0) by (nonlinear_arith)
        requires
            mo == m * o,
            m > 0,
            o > 0,
    ;
    assert(3 * m * o == 3 * mo && 4 * m * o == 4 * mo && 12 * m * o == 12 * mo)
        by (nonlinear_arith)
        requires
            mo == m * o,
    ;
    assert(n * l == o * l - u * l) by (nonlinear_arith)
        requires
            n == o - u,
    ;
    assert(0 < o * l <= 2 * mo) by (nonlinear_arith)
        requires
            0 < l <= 2 * m,
            mo == m * o,
            o > 0,
    ;
    assert(arith::absolute(n * l) <= 5 * mo);
    assert(arith::absolute(n * l) == a * l) by {
        assert((-n) * l == -(n * l)) by (nonlinear_arith);
        assert(a * l >= 0) by (nonlinear_arith)
            requires
                a >= 0,
                l > 0,
        ;
    }
    lemma_scaled(t, n, a + h, l);
    assert((a + h) * l <= 7 * mo) by (nonlinear_arith)
        requires
            a * l <= 5 * mo,
            h <= o,
            o * l <= 2 * mo,
            l > 0,
    {
        assert((a + h) * l == a * l + h * l) by (nonlinear_arith);
        assert(h * l <= o * l) by (nonlinear_arith)
            requires
                h <= o,
                l > 0,
        ;
    }
    lemma_allowed(t * l, n * l, (a + h) * l, 7 * mo);
    // The length and the share, in place of the exact ones.
    lemma_scaled(l, full, full, o);
    assert(l * o == o * l && full * o <= mo) by (nonlinear_arith)
        requires
            full <= m,
            mo == m * o,
            o > 0,
    ;
    assert((full - v) * o == full * o - v * o) by (nonlinear_arith);
    let (x, y, z) = (
        arith::absolute(o * l - full * o),
        arith::absolute(u * l - v * o),
        arith::absolute(n * l - (full - v) * o),
    );
    assert(z * h <= x * h + y * h) by (nonlinear_arith)
        requires
            z <= x + y,
            h > 0,
    ;
    assert(is_about(n * l, (full - v) * o, 5 * mo));
    lemma_two_steps(t * l, n * l, (full - v) * o, 7 * mo, 5 * mo);
    let w = t - n;
    assert(t * l == n * l + w * l) by (nonlinear_arith)
        requires
            w == t - n,
    ;
    assert(-(o * l) <= w * l <= o * l) by (nonlinear_arith)
        requires
            -o <= w <= o,
            l > 0,
    ;
}

/// An axis is far from nothing.
proof fn lemma_length_is_large(l: int, full: int, o: int)
    requires
        o <= cutting::MOST_BLOCKS * l,
        o >= 0x1_0000_0000_0000_0000_0000_0000_0000_0000_0000_0000_0000_0000int,
        error::is_close(l, full, 1),
        full > 0,
    ensures
        HIDDEN_BIT <= full,
{
    let h = HIDDEN_BIT as int;
    assert(h * 4 <= l) by (nonlinear_arith)
        requires
            o <= cutting::MOST_BLOCKS * l,
            cutting::MOST_BLOCKS == 0x40_0000_0000u64,
            o >= 0x1_0000_0000_0000_0000_0000_0000_0000_0000_0000_0000_0000_0000int,
            h == 0x10_0000_0000_0000,
    ;
    assert(h <= full) by (nonlinear_arith)
        requires
            (l - full) * (2 * h) <= full + h,
            h * 4 <= l,
            full > 0,
            h == 0x10_0000_0000_0000,
    ;
}

/// What is known of an axis of an area with a point on it or beside it.
proof fn lemma_axis(min: F64, max: F64, a: F64, blocks: F64, bound: int)
    requires
        bound == 90 || bound == 180,
        llpoint::within(min, bound),
        llpoint::within(max, bound),
        llpoint::within(a, bound),
        min.below(max),
        cartesian::is_length(blocks),
        cutting::is_spanned(blocks, arith::difference(max, min)),
        is_beside(min, max, a),
    ensures
        ({
            let full = max.units() - min.units();
            let v = a.units() - min.units();
            let m = full + arith::absolute(v);
            let (len, d) = (arith::difference(max, min), arith::difference(a, min));
            &&& len.finite() && d.finite() && blocks.finite()
            &&& is_on_axis(full, len.units(), blocks.units(), v, m, cast::one())
            &&& is_about(d.units(), v, m)
        }),
{
    let o = cast::one();
    let h = HIDDEN_BIT as int;
    lemma2_to64_rest();
    excess::lemma_weight_of_one();
    lemma_within(min, bound);
    lemma_within(max, bound);
    lemma_within(a, bound);
    transformation::lemma_length_is_finite(blocks);
    error::lemma_integer_value(i32::MAX as int);
    assert(0x7fff_ffff * o <= 0x8000_0000 * o) by (nonlinear_arith)
        requires
            o > 0,
    ;
    let full = max.units() - min.units();
    let v = a.units() - min.units();
    let m = full + arith::absolute(v);
    error::lemma_difference_close(max, min);
    error::lemma_difference_close(a, min);
    let (len, d) = (arith::difference(max, min), arith::difference(a, min));
    let l = len.units();
    lemma_length_is_large(l, full, o);
    error::lemma_distance(l, full, 1, full);
    error::lemma_distance(d.units(), v, 1, m);
    let e = arith::absolute(l - full);
    assert(2 * e <= full) by (nonlinear_arith)
        requires
            e * h <= full,
            h >= 2,
            e >= 0,
            full > 0,
    ;
}

proof fn lemma_within(a: F64, bound: int)
    requires
        bound == 90 || bound == 180,
        llpoint::within(a, bound),
    ensures
        a.finite(),
        arith::absolute(a.units()) <= bound * cast::one(),
        bound * cast::one() <= 180 * cast::one(),
{
    excess::lemma_weight_of_one();
    lemma2_to64_rest();
    error::lemma_integer_value(bound);
    error::lemma_integer_value(-bound);
    assert((-bound) * cast::one() == -(bound * cast::one())) by (nonlinear_arith);
    let top = binary64::INFINITY_BITS as nat;
    binary64::lemma_scale_order(a.magnitude(), top);
    binary64::lemma_scale_order(cast::of_integer(bound).magnitude(), top);
    binary64::lemma_scale_order(cast::of_integer(-bound).magnitude(), top);
}

/// Whether a coordinate is not farther from an area than a million times its length.
pub open spec fn is_beside(min: F64, max: F64, a: F64) -> bool {
    arith::absolute(a.units() - min.units()) <= 1_000_000 * (max.units() - min.units())
}

/// In local mode a position is in proportion: along x it is to the blocks of the area as
/// the way from the western edge to the point is to the width of the area, and along z as
/// the way from the northern edge is to its height. This holds beside the area, too.
pub proof fn law_local_positions_are_in_proportion(
    edges: Edges,
    scale: F64,
    south_north: F64,
    west_east: F64,
    lat: F64,
    lng: F64,
    log_tan: F64,
)
    requires
        edges.valid(),
        llpoint::is_latitude(lat),
        llpoint::is_longitude(lng),
        is_beside(edges.min_lat, edges.max_lat, lat),
        is_beside(edges.min_lng, edges.max_lng, lng),
        ({
            let f = transformation::local_frame(edges, scale, south_north, west_east);
            &&& transformation::is_local(f, scale)
            &&& cutting::is_spanned(f.scale_factor_x, f.len_lng)
            &&& cutting::is_spanned(f.scale_factor_z, f.len_lat)
        }),
    ensures
        ({
            let f = transformation::local_frame(edges, scale, south_north, west_east);
            let (x, z) = f.position(lat, lng, log_tan);
            let (width, height) = (
                edges.max_lng.units() - edges.min_lng.units(),
                edges.max_lat.units() - edges.min_lat.units(),
            );
            let (east, north) = (
                lng.units() - edges.min_lng.units(),
                lat.units() - edges.min_lat.units(),
            );
            let (sx, sz) = (f.scale_factor_x.units(), f.scale_factor_z.units());
            &&& x.finite() && z.finite()
            &&& is_about(
                x.units() * width,
                east * sx,
                40 * (width + arith::absolute(east)) * sx,
            )
            &&& is_about(
                z.units() * height,
                (height - north) * sz,
                104 * (height + arith::absolute(north)) * sz,
            )
        }),
{
    let f = transformation::local_frame(edges, scale, south_north, west_east);
    lemma_local_x(edges.min_lng, edges.max_lng, lng, f.scale_factor_x);
    lemma_local_z(edges.min_lat, edges.max_lat, lat, f.scale_factor_z);
}

/// In local mode a point lies in the block that its position is cut to: along x this is to
/// the blocks of the area as the way from the western edge to the point is to the width of
/// the area, and along z as the way from the northern edge is to its height.
pub proof fn law_points_are_in_proportion(
    bbox: LLBBox,
    scale: F64,
    distance: (F64, F64),
    made: (CoordTransformer, XZBBox),
    point: LLPoint,
    log_tan: F64,
    block: XZPoint,
)
    requires
        bbox@.valid(),
        llpoint::is_latitude(point@.lat),
        llpoint::is_longitude(point@.lng),
        is_beside(bbox@.min_lat, bbox@.max_lat, point@.lat),
        is_beside(bbox@.min_lng, bbox@.max_lng, point@.lng),
        call_ensures(CoordTransformer::llbbox_to_xzbbox, (&bbox, scale, distance), Ok(made)),
        cutting::is_spanned(made.0@.scale_factor_x, made.0@.len_lng),
        cutting::is_spanned(made.0@.scale_factor_z, made.0@.len_lat),
        call_ensures(CoordTransformer::transform_point, (&made.0, point, log_tan), block),
    ensures
        ({
            let (width, height) = (
                bbox@.max_lng.units() - bbox@.min_lng.units(),
                bbox@.max_lat.units() - bbox@.min_lat.units(),
            );
            let (east, north) = (
                point@.lng.units() - bbox@.min_lng.units(),
                point@.lat.units() - bbox@.min_lat.units(),
            );
            let (sx, sz) = (made.0@.scale_factor_x.units(), made.0@.scale_factor_z.units());
            &&& exists|x: F64| #[trigger]
                is_cut(x, block.x as int) && x.finite() && is_about(
                    x.units() * width,
                    east * sx,
                    40 * (width + arith::absolute(east)) * sx,
                )
            &&& exists|z: F64| #[trigger]
                is_cut(z, block.z as int) && z.finite() && is_about(
                    z.units() * height,
                    (height - north) * sz,
                    104 * (height + arith::absolute(north)) * sz,
                )
        }),
{
    let f = transformation::local_frame(bbox@, scale, distance.0, distance.1);
    law_local_positions_are_in_proportion(
        bbox@,
        scale,
        distance.0,
        distance.1,
        point@.lat,
        point@.lng,
        log_tan,
    );
    law_blocks_are_cut_positions(f, point@.lat, point@.lng, log_tan);
    let (x, z) = f.position(point@.lat, point@.lng, log_tan);
    assert(is_cut(x, block.x as int) && is_cut(z, block.z as int));
}

proof fn lemma_local_x(min: F64, max: F64, lng: F64, blocks: F64)
    requires
        llpoint::is_longitude(min) && llpoint::is_longitude(max) && llpoint::is_longitude(lng),
        min.below(max),
        cartesian::is_length(blocks),
        cutting::is_spanned(blocks, arith::difference(max, min)),
        is_beside(min, max, lng),
    ensures
        ({
            let (width, east) = (max.units() - min.units(), lng.units() - min.units());
            let x = arith::product(
                arith::quotient(arith::difference(lng, min), arith::difference(max, min)),
                blocks,
            );
            x.finite() && is_about(
                x.units() * width,
                east * blocks.units(),
                40 * (width + arith::absolute(east)) * blocks.units(),
            )
        }),
{
    lemma_axis(min, max, lng, blocks, 180);
    let (width, east) = (max.units() - min.units(), lng.units() - min.units());
    let m = width + arith::absolute(east);
    let (d, len) = (arith::difference(lng, min), arith::difference(max, min));
    lemma_share(d, len, width, blocks.units(), east, m);
    let q = arith::quotient(d, len);
    assert(3 * m * cast::one() <= 4 * m * cast::one()) by (nonlinear_arith)
        requires
            m > 0,
            cast::one() > 0,
    ;
    lemma_share_in_blocks(q, blocks, len.units(), width, east, m, east, 4);
}

proof fn lemma_local_z(min: F64, max: F64, lat: F64, blocks: F64)
    requires
        llpoint::is_latitude(min) && llpoint::is_latitude(max) && llpoint::is_latitude(lat),
        min.below(max),
        cartesian::is_length(blocks),
        cutting::is_spanned(blocks, arith::difference(max, min)),
        is_beside(min, max, lat),
    ensures
        ({
            let (height, north) = (max.units() - min.units(), lat.units() - min.units());
            let z = arith::product(
                arith::difference(
                    cast::of_integer(1),
                    arith::quotient(arith::difference(lat, min), arith::difference(max, min)),
                ),
                blocks,
            );
            z.finite() && is_about(
                z.units() * height,
                (height - north) * blocks.units(),
                104 * (height + arith::absolute(north)) * blocks.units(),
            )
        }),
{
    lemma_axis(min, max, lat, blocks, 90);
    let (height, north) = (max.units() - min.units(), lat.units() - min.units());
    let m = height + arith::absolute(north);
    let (d, len) = (arith::difference(lat, min), arith::difference(max, min));
    lemma_share(d, len, height, blocks.units(), north, m);
    let r = arith::quotient(d, len);
    lemma_rest(r, len.units(), height, blocks.units(), north, m);
    let t = arith::difference(cast::of_integer(1), r);
    lemma_share_in_blocks(t, blocks, len.units(), height, north, m, height - north, 12);
}

} // verus!
