//! Cutting an area where blocks start.
//!
//! The edge of a block, taken to a coordinate and back, is off by what rounding
//! does on the way. As long as blocks are not too small that is less than half a
//! block.

use vstd::prelude::*;
use vstd::arithmetic::power2::*;
use crate::binary64;
use crate::binary64::{F64, HIDDEN_BIT};
use crate::binary64::arith;
use crate::binary64::cast;
use crate::binary64::error;
use crate::binary64::laws;
use crate::binary64::round;
use crate::coordinate_system::cartesian;
use crate::coordinate_system::geographic::llbbox::Edges;
use crate::coordinate_system::geographic::llpoint;
use crate::coordinate_system::geographic::tiling;
use crate::coordinate_system::transformation;

verus! {

/// The most blocks to a degree: two to the power 38, some millions to the meter.
pub const MOST_BLOCKS: u64 = 0x40_0000_0000;

/// Whether an axis that spans `len` degrees in `blocks` blocks has at least one,
/// and no more to the degree than coordinates can tell apart.
pub open spec fn is_distinct(blocks: F64, len: F64) -> bool {
    cast::of_integer(1).at_most(blocks) && blocks.units() <= MOST_BLOCKS * len.units()
}

/// Whether an axis has a length in blocks that is a normal number, and is at least two
/// to the power -38 degrees long, far less than a millimeter.
pub open spec fn is_spanned(blocks: F64, len: F64) -> bool {
    HIDDEN_BIT <= blocks.units() && cast::one() <= MOST_BLOCKS * len.units()
}

/// Whether two positions are less than half a block apart.
pub open spec fn is_near(a: F64, b: F64) -> bool {
    a.finite() && b.finite() && 2 * arith::absolute(a.units() - b.units()) < cast::one()
}

/// The distance of two values.
spec fn gap(a: int, b: int) -> int {
    arith::absolute(a - b)
}

/// Reads closeness as a bound on the distance.
proof fn lemma_gap(v: int, n: int, d: int, size: int)
    requires
        error::is_close(v, n, d),
        arith::absolute(n) + HIDDEN_BIT * d <= 2 * size,
    ensures
        gap(v, n) * HIDDEN_BIT <= size,
{
    error::lemma_distance(v, n, d, size);
}

/// What is known of the weight of one.
proof fn lemma_one_is_large()
    ensures
        cast::one() > 0,
        HIDDEN_BIT <= cast::one(),
        HIDDEN_BIT * MOST_BLOCKS <= cast::one(),
        error::limit() == cast::one() * 0x1000_0000_0000_0000,
{
    lemma2_to64_rest();
    lemma2_to64();
    lemma_pow2_pos(1074);
    lemma_pow2_adds(90, 984);
    lemma_pow2_adds(52, 38);
    lemma_pow2_pos(984);
    lemma_pow2_adds(1074, 60);
    let (a, b) = (pow2(90) as int, pow2(984) as int);
    assert(a * b >= a) by (nonlinear_arith)
        requires
            a >= 0,
            b >= 1,
    ;
}

/// What is known of an axis.
spec fn is_axis(m: int, l: int, s: int, o: int) -> bool {
    &&& -180 * o <= m <= 180 * o
    &&& 0 < l <= 512 * o
    &&& o <= MOST_BLOCKS * l
    &&& HIDDEN_BIT <= s <= 0x8000_0000 * o
}

/// An offset from the edge, added to the edge and taken off again, and then
/// divided by the length of the axis.
proof fn lemma_there_and_back(min: F64, p: F64, len: F64, s: int)
    requires
        min.finite() && p.finite() && len.finite(),
        is_axis(min.units(), len.units(), s, cast::one()),
        -5 * len.units() <= p.units() <= 5 * len.units(),
    ensures
        ({
            let o = cast::one();
            let q = arith::quotient(arith::difference(arith::sum(min, p), min), len);
            &&& q.finite()
            &&& -7 * o <= q.units() <= 7 * o
            &&& gap(q.units() * len.units(), p.units() * o) * HIDDEN_BIT <= 4 * (len.units() * o)
                + 0x1000 * (o * o)
        }),
{
    let o = cast::one();
    let h = HIDDEN_BIT as int;
    let (m, l, v) = (min.units(), len.units(), p.units());
    lemma_one_is_large();
    error::lemma_sum_close(min, p);
    let g = arith::sum(min, p);
    lemma_gap(g.units(), m + v, 1, 0x800 * o);
    let e1 = gap(g.units(), m + v);
    assert(e1 <= o) by (nonlinear_arith)
        requires
            e1 * h <= 0x800 * o,
            h == 0x10_0000_0000_0000,
            o > 0,
            e1 >= 0,
    ;
    error::lemma_difference_close(g, min);
    let d = arith::difference(g, min);
    lemma_gap(d.units(), g.units() - m, 1, 0x800 * o);
    let e2 = gap(d.units(), g.units() - m);
    let e = gap(d.units(), v);
    assert(e <= e1 + e2);
    assert(e * h <= 0x1000 * o) by (nonlinear_arith)
        requires
            e <= e1 + e2,
            e1 * h <= 0x800 * o,
            e2 * h <= 0x800 * o,
            h > 0,
    ;
    assert(4 * e <= l) by (nonlinear_arith)
        requires
            e * h <= 0x1000 * o,
            o <= MOST_BLOCKS * l,
            h == 0x10_0000_0000_0000,
            MOST_BLOCKS == 0x40_0000_0000u64,
            l > 0,
    ;
    let w = d.units();
    assert(-6 * l <= w <= 6 * l);
    let a = arith::absolute(w);
    assert(a * o <= (6 * l) * o) by (nonlinear_arith)
        requires
            a <= 6 * l,
            o > 0,
    ;
    assert((6 * l) * o == 6 * (l * o)) by (nonlinear_arith);
    assert((o * 0x1000_0000_0000_0000) * l == 0x1000_0000_0000_0000 * (l * o)) by (nonlinear_arith);
    assert(l * o >= 0) by (nonlinear_arith)
        requires
            l > 0,
            o > 0,
    ;
    error::lemma_quotient_close(d, len);
    let q = arith::quotient(d, len).units();
    assert(h * l <= l * o) by (nonlinear_arith)
        requires
            h <= o,
            l > 0,
    ;
    assert(arith::absolute(w * o) == a * o) by {
        assert((-w) * o == -(w * o)) by (nonlinear_arith);
        assert(a * o >= 0) by (nonlinear_arith)
            requires
                a >= 0,
                o > 0,
        ;
    }
    lemma_gap(q * l, w * o, l, 4 * (l * o));
    let e3 = gap(q * l, w * o);
    assert(-7 * o <= q <= 7 * o) by (nonlinear_arith)
        requires
            e3 * h <= 4 * (l * o),
            h >= 4,
            q * l - w * o <= e3,
            w * o - q * l <= e3,
            -6 * l <= w <= 6 * l,
            l > 0,
            o > 0,
            e3 >= 0,
    {
        assert(e3 <= l * o) by (nonlinear_arith)
            requires
                e3 * h <= 4 * (l * o),
                h >= 4,
                l * o >= 0,
        ;
        assert(w * o <= 6 * (l * o)) by (nonlinear_arith)
            requires
                w <= 6 * l,
                o > 0,
        ;
        assert(w * o >= -6 * (l * o)) by (nonlinear_arith)
            requires
                w >= -6 * l,
                o > 0,
        ;
        assert(q * l <= (7 * o) * l) by (nonlinear_arith)
            requires
                q * l <= 7 * (l * o),
        ;
        assert(q * l >= (-7 * o) * l) by (nonlinear_arith)
            requires
                q * l >= -7 * (l * o),
        ;
    }
    let total = gap(q * l, v * o);
    let e4 = e * o;
    assert(gap(w * o, v * o) <= e4) by (nonlinear_arith)
        requires
            e4 == e * o,
            w - v <= e,
            v - w <= e,
            o > 0,
            gap(w * o, v * o) == w * o - v * o || gap(w * o, v * o) == v * o - w * o,
    ;
    assert(e4 * h <= 0x1000 * (o * o)) by (nonlinear_arith)
        requires
            e4 == e * o,
            e * h <= 0x1000 * o,
            o > 0,
    ;
    assert(total <= e3 + e4);
    assert(total * h <= 4 * (l * o) + 0x1000 * (o * o)) by (nonlinear_arith)
        requires
            total <= e3 + e4,
            e3 * h <= 4 * (l * o),
            e4 * h <= 0x1000 * (o * o),
            h > 0,
    ;
}

/// The share of an axis that a block number is.
proof fn lemma_share(x: F64, blocks: F64)
    requires
        x.finite() && blocks.finite(),
        0 <= x.units() <= blocks.units(),
        0 < blocks.units(),
    ensures
        ({
            let o = cast::one();
            let q = arith::quotient(x, blocks);
            &&& q.finite()
            &&& -2 * o <= q.units() <= 2 * o
            &&& gap(q.units() * blocks.units(), x.units() * o) * HIDDEN_BIT <= blocks.units() * o
        }),
{
    let o = cast::one();
    let h = HIDDEN_BIT as int;
    let (u, s) = (x.units(), blocks.units());
    lemma_one_is_large();
    assert(0 <= u * o <= s * o) by (nonlinear_arith)
        requires
            0 <= u <= s,
            o > 0,
    ;
    assert((o * 0x1000_0000_0000_0000) * s == 0x1000_0000_0000_0000 * (s * o)) by (nonlinear_arith);
    error::lemma_quotient_close(x, blocks);
    let q = arith::quotient(x, blocks).units();
    assert(h * s <= s * o) by (nonlinear_arith)
        requires
            h <= o,
            s > 0,
    ;
    lemma_gap(q * s, u * o, s, s * o);
    let e = gap(q * s, u * o);
    assert(e <= s * o) by (nonlinear_arith)
        requires
            e * h <= s * o,
            h >= 1,
            e >= 0,
    ;
    assert(-2 * o <= q <= 2 * o) by (nonlinear_arith)
        requires
            q * s <= 2 * (s * o),
            q * s >= -(s * o),
            s > 0,
            o > 0,
    {
        if q > 2 * o {
            assert(q * s > (2 * o) * s) by (nonlinear_arith)
                requires
                    q > 2 * o,
                    s > 0,
            ;
        }
        if q < -2 * o {
            assert(q * s < (-2 * o) * s) by (nonlinear_arith)
                requires
                    q < -2 * o,
                    s > 0,
            ;
        }
    }
}

/// A share of an axis in degrees.
proof fn lemma_offset(t: F64, len: F64)
    requires
        t.finite() && len.finite(),
        -4 * cast::one() <= t.units() <= 4 * cast::one(),
        0 < len.units() <= 512 * cast::one(),
        HIDDEN_BIT <= len.units(),
    ensures
        ({
            let o = cast::one();
            let p = arith::product(t, len);
            &&& p.finite()
            &&& -5 * len.units() <= p.units() <= 5 * len.units()
            &&& gap(p.units() * o, t.units() * len.units()) * HIDDEN_BIT <= 3 * (len.units() * o)
        }),
{
    let o = cast::one();
    let h = HIDDEN_BIT as int;
    let (u, l) = (t.units(), len.units());
    let a = arith::absolute(u);
    lemma_one_is_large();
    assert(a * l <= 4 * (l * o)) by (nonlinear_arith)
        requires
            a <= 4 * o,
            l > 0,
    ;
    assert(l * o <= 512 * (o * o)) by (nonlinear_arith)
        requires
            l <= 512 * o,
            o > 0,
    ;
    assert((o * 0x1000_0000_0000_0000) * o == 0x1000_0000_0000_0000 * (o * o)) by (nonlinear_arith);
    assert(o * o >= 0) by (nonlinear_arith);
    error::lemma_product_close(t, len);
    let p = arith::product(t, len).units();
    assert(h * o <= l * o) by (nonlinear_arith)
        requires
            h <= l,
            o > 0,
    ;
    assert(arith::absolute(u * l) == a * l) by {
        assert((-u) * l == -(u * l)) by (nonlinear_arith);
        assert(a * l >= 0) by (nonlinear_arith)
            requires
                a >= 0,
                l > 0,
        ;
    }
    assert(l * o >= 0) by (nonlinear_arith)
        requires
            l > 0,
            o > 0,
    ;
    lemma_gap(p * o, u * l, o, 3 * (l * o));
    let e = gap(p * o, u * l);
    assert(e <= l * o) by (nonlinear_arith)
        requires
            e * h <= 3 * (l * o),
            h >= 3,
            e >= 0,
            l * o >= 0,
    ;
    assert(-5 * (l * o) <= p * o <= 5 * (l * o));
    if p > 5 * l {
        assert(p * o > (5 * l) * o) by (nonlinear_arith)
            requires
                p > 5 * l,
                o > 0,
        ;
        assert((5 * l) * o == 5 * (l * o)) by (nonlinear_arith);
    }
    if p < -5 * l {
        assert(p * o < (-5 * l) * o) by (nonlinear_arith)
            requires
                p < -5 * l,
                o > 0,
        ;
        assert((-5 * l) * o == -5 * (l * o)) by (nonlinear_arith);
    }
}

/// A share of an axis in blocks.
proof fn lemma_blocks(t: F64, blocks: F64)
    requires
        t.finite() && blocks.finite(),
        -9 * cast::one() <= t.units() <= 9 * cast::one(),
        HIDDEN_BIT <= blocks.units() <= 0x8000_0000 * cast::one(),
    ensures
        ({
            let o = cast::one();
            let r = arith::product(t, blocks);
            &&& r.finite()
            &&& gap(r.units() * o, t.units() * blocks.units()) * HIDDEN_BIT <= 5 * (blocks.units()
                * o)
        }),
{
    let o = cast::one();
    let h = HIDDEN_BIT as int;
    let (u, s) = (t.units(), blocks.units());
    let a = arith::absolute(u);
    lemma_one_is_large();
    assert(a * s <= 9 * (s * o)) by (nonlinear_arith)
        requires
            a <= 9 * o,
            s > 0,
    ;
    assert(s * o <= 0x8000_0000 * (o * o)) by (nonlinear_arith)
        requires
            s <= 0x8000_0000 * o,
            o > 0,
    ;
    assert((o * 0x1000_0000_0000_0000) * o == 0x1000_0000_0000_0000 * (o * o)) by (nonlinear_arith);
    assert(o * o >= 0) by (nonlinear_arith);
    error::lemma_product_close(t, blocks);
    let r = arith::product(t, blocks).units();
    assert(h * o <= s * o) by (nonlinear_arith)
        requires
            h <= s,
            o > 0,
    ;
    assert(arith::absolute(u * s) == a * s) by {
        assert((-u) * s == -(u * s)) by (nonlinear_arith);
        assert(a * s >= 0) by (nonlinear_arith)
            requires
                a >= 0,
                s > 0,
        ;
    }
    lemma_gap(r * o, u * s, o, 5 * (s * o));
}

/// A distance of shares, in blocks, times the length of the axis.
proof fn lemma_scaled_gap(q: int, t: int, l: int, s: int, o: int, h: int)
    requires
        gap(q * l, t * l) * h <= 7 * (l * o) + 0x1000 * (o * o),
        l > 0,
        s > 0,
    ensures
        gap(q * s, t * s) * h * l <= (7 * l + 0x1000 * o) * (s * o),
{
    let c = gap(q, t);
    lemma_gap_times(q, t, l);
    lemma_gap_times(q, t, s);
    let y = c * l * h;
    let k = 7 * (l * o) + 0x1000 * (o * o);
    assert(y * s <= k * s) by (nonlinear_arith)
        requires
            y <= k,
            s > 0,
    ;
    assert(c * s * h * l == y * s) by (nonlinear_arith)
        requires
            y == c * l * h,
    ;
    assert(k * s == (7 * l + 0x1000 * o) * (s * o)) by (nonlinear_arith)
        requires
            k == 7 * (l * o) + 0x1000 * (o * o),
    ;
}

/// Distances grow with the scale.
proof fn lemma_gap_times(a: int, b: int, s: int)
    requires
        s > 0,
    ensures
        gap(a * s, b * s) == gap(a, b) * s,
{
    let c = gap(a, b);
    assert(a * s - b * s == (a - b) * s) by (nonlinear_arith);
    assert((-(a - b)) * s == -((a - b) * s)) by (nonlinear_arith);
    assert(c * s >= 0) by (nonlinear_arith)
        requires
            c >= 0,
            s > 0,
    ;
}

/// A position within half a block of a block's edge rounds to that block.
proof fn lemma_rounds_to(r: F64, x: int)
    requires
        r.finite(),
        0 <= x <= 0x7fff_ffff,
        2 * gap(r.units(), x * cast::one()) < cast::one(),
    ensures
        transformation::rounded_block(r) == x,
{
    let o = cast::one();
    lemma_one_is_large();
    let v = binary64::scale(r.magnitude()) as int;
    lemma2_to64();
    lemma2_to64_rest();
    error::lemma_integer_value(x);
    error::lemma_integer_value(0);
    if r.negative() {
        assert(x == 0) by (nonlinear_arith)
            requires
                x * o < o,
                x >= 0,
                o > 0,
        ;
        assert(0 * o == 0);
        assert((2 * v + o) / (2 * o) == 0) by {
            vstd::arithmetic::div_mod::lemma_basic_div(2 * v + o, 2 * o);
        }
    } else {
        assert(2 * v + o == x * (2 * o) + (2 * v + o - 2 * (x * o))) by {
            assert(x * (2 * o) == 2 * (x * o)) by (nonlinear_arith);
        }
        vstd::arithmetic::div_mod::lemma_fundamental_div_mod_converse(
            2 * v + o,
            2 * o,
            x,
            2 * v + o - 2 * (x * o),
        );
    }
    assert(cast::rounded(r) == x);
    let w = cast::with_whole(r, x);
    let m = round::nearest(arith::absolute(x) * o, 1);
    laws::lemma_signed(r.negative(), m);
    assert(binary64::scale(w.magnitude()) == x * o);
    vstd::arithmetic::div_mod::lemma_div_multiples_vanish(x, o);
    assert(x * o == o * x) by (nonlinear_arith);
}

/// Whether a position `r` is another one `x`, along an axis that spans `len` degrees in
/// `blocks` blocks, but for rounding: as shares of the axis they are no more apart
/// than 20 parts in two to the power 52, and two to the power -40 degrees, make up.
pub open spec fn comes_back(r: F64, x: F64, blocks: F64, len: F64) -> bool {
    &&& r.finite() && x.finite()
    &&& arith::absolute(r.units() - x.units()) * HIDDEN_BIT * len.units() <= blocks.units() * (20
        * len.units() + 0x1000 * cast::one())
}

/// From a distance in squares of one to a distance.
proof fn lemma_comes_back(r: int, x: int, l: int, s: int, o: int, total: int)
    requires
        o > 0,
        l > 0,
        s > 0,
        gap(r * o, x * o) <= total,
        total * HIDDEN_BIT * l <= (20 * l + 0x1000 * o) * (s * o),
    ensures
        gap(r, x) * HIDDEN_BIT * l <= s * (20 * l + 0x1000 * o),
{
    let h = HIDDEN_BIT as int;
    let c = gap(r, x);
    let k = 20 * l + 0x1000 * o;
    lemma_gap_times(r, x, o);
    assert((c * o) * h * l <= total * h * l) by (nonlinear_arith)
        requires
            c * o <= total,
            h > 0,
            l > 0,
    ;
    assert((c * o) * h * l == (c * h * l) * o) by (nonlinear_arith);
    assert(k * (s * o) == (s * k) * o) by (nonlinear_arith);
    assert(c * h * l <= s * k) by (nonlinear_arith)
        requires
            (c * h * l) * o <= (s * k) * o,
            o > 0,
    ;
}

/// The errors of the way there and back, added up.
proof fn lemma_total(total: int, rest: int, f: int, n: int, l: int, s: int, o: int)
    requires
        total == rest + f,
        rest * HIDDEN_BIT <= n * (s * o),
        f * HIDDEN_BIT * l <= (7 * l + 0x1000 * o) * (s * o),
        n <= 13,
        l > 0,
        s > 0,
        o > 0,
    ensures
        total * HIDDEN_BIT * l <= (20 * l + 0x1000 * o) * (s * o),
{
    let h = HIDDEN_BIT as int;
    let so = s * o;
    assert(so > 0) by (nonlinear_arith)
        requires
            so == s * o,
            s > 0,
            o > 0,
    ;
    assert((rest * h) * l <= (n * so) * l) by (nonlinear_arith)
        requires
            rest * h <= n * so,
            l > 0,
    ;
    assert((n * so) * l <= (13 * l) * so) by (nonlinear_arith)
        requires
            n <= 13,
            so > 0,
            l > 0,
    ;
    assert(total * h * l == (rest * h) * l + f * h * l) by (nonlinear_arith)
        requires
            total == rest + f,
    ;
    assert((13 * l) * so + (7 * l + 0x1000 * o) * so == (20 * l + 0x1000 * o) * so)
        by (nonlinear_arith);
}

/// A position along x, as a longitude, comes back.
proof fn lemma_x_returns(min: F64, len: F64, blocks: F64, x: F64)
    requires
        min.finite() && len.finite() && blocks.finite() && x.finite(),
        is_axis(min.units(), len.units(), blocks.units(), cast::one()),
        0 <= x.units() <= blocks.units(),
    ensures
        ({
            let lng = arith::sum(min, arith::product(arith::quotient(x, blocks), len));
            let back = arith::quotient(arith::difference(lng, min), len);
            comes_back(arith::product(back, blocks), x, blocks, len)
        }),
{
    let o = cast::one();
    let h = HIDDEN_BIT as int;
    let (l, s) = (len.units(), blocks.units());
    lemma_one_is_large();
    let u = x.units();
    lemma_share(x, blocks);
    let q1 = arith::quotient(x, blocks);
    lemma_length_is_large(l, o);
    lemma_offset(q1, len);
    let p = arith::product(q1, len);
    lemma_there_and_back(min, p, len, s);
    let q2 = arith::quotient(arith::difference(arith::sum(min, p), min), len);
    lemma_blocks(q2, blocks);
    let r = arith::product(q2, blocks);
    let (a, b) = (q1.units(), q2.units());
    let e1 = gap(b * l, p.units() * o);
    let e2 = gap(p.units() * o, a * l);
    let e3 = gap(b * l, a * l);
    assert(e3 <= e1 + e2);
    assert(e3 * h <= (e1 + e2) * h) by (nonlinear_arith)
        requires
            e3 <= e1 + e2,
            h > 0,
    ;
    assert((e1 + e2) * h == e1 * h + e2 * h) by (nonlinear_arith);
    lemma_scaled_gap(b, a, l, s, o, h);
    let f1 = gap(r.units() * o, b * s);
    let f2 = gap(b * s, a * s);
    let f3 = gap(a * s, u * o);
    let rest = f1 + f3;
    assert(rest * h == f1 * h + f3 * h) by (nonlinear_arith)
        requires
            rest == f1 + f3,
    ;
    lemma_total(rest + f2, rest, f2, 6, l, s, o);
    lemma_comes_back(r.units(), u, l, s, o, rest + f2);
}

/// Axes are not so short that their length would round badly.
proof fn lemma_length_is_large(l: int, o: int)
    requires
        o == cast::one(),
        o <= MOST_BLOCKS * l,
    ensures
        HIDDEN_BIT <= l,
{
    lemma_one_is_large();
    if l < HIDDEN_BIT {
        assert(MOST_BLOCKS * l < HIDDEN_BIT * MOST_BLOCKS) by (nonlinear_arith)
            requires
                l < HIDDEN_BIT,
                MOST_BLOCKS == 0x40_0000_0000u64,
        ;
    }
}

/// What is left of one.
proof fn lemma_rest_of_one(q: F64, k: int)
    requires
        q.finite(),
        -k * cast::one() <= q.units() <= k * cast::one(),
        1 <= k <= 7,
    ensures
        ({
            let o = cast::one();
            let t = arith::difference(cast::of_integer(1), q);
            &&& t.finite()
            &&& -(k + 2) * o <= t.units() <= (k + 2) * o
            &&& gap(t.units(), o - q.units()) * HIDDEN_BIT <= 5 * o
            &&& k == 2 ==> gap(t.units(), o - q.units()) * HIDDEN_BIT <= 2 * o
        }),
{
    let o = cast::one();
    let h = HIDDEN_BIT as int;
    lemma_one_is_large();
    laws::lemma_one();
    let u = q.units();
    assert(k * o <= 7 * o) by (nonlinear_arith)
        requires
            k <= 7,
            o > 0,
    ;
    assert((k + 2) * o == k * o + 2 * o) by (nonlinear_arith);
    assert(-k * o == -(k * o)) by (nonlinear_arith);
    assert(-(k + 2) * o == -((k + 2) * o)) by (nonlinear_arith);
    error::lemma_difference_close(cast::of_integer(1), q);
    let t = arith::difference(cast::of_integer(1), q);
    lemma_gap(t.units(), o - u, 1, 5 * o);
    if k == 2 {
        lemma_gap(t.units(), o - u, 1, 2 * o);
    }
    let e = gap(t.units(), o - u);
    assert(e <= o) by (nonlinear_arith)
        requires
            e * h <= 5 * o,
            h >= 5,
            e >= 0,
            o > 0,
    ;
}

/// A distance times the blocks of an axis.
proof fn lemma_times_blocks(a: int, b: int, s: int, o: int, h: int, k: int)
    requires
        gap(a, b) * h <= k * o,
        0 < s,
    ensures
        gap(a * s, b * s) * h <= k * (s * o),
{
    let c = gap(a, b);
    lemma_gap_times(a, b, s);
    assert((c * s) * h <= (k * o) * s) by (nonlinear_arith)
        requires
            c * h <= k * o,
            s > 0,
    ;
    assert((k * o) * s == k * (s * o)) by (nonlinear_arith);
}

/// A position along z, as a latitude, comes back.
proof fn lemma_z_returns(min: F64, len: F64, blocks: F64, z: F64)
    requires
        min.finite() && len.finite() && blocks.finite() && z.finite(),
        is_axis(min.units(), len.units(), blocks.units(), cast::one()),
        0 <= z.units() <= blocks.units(),
    ensures
        ({
            let one = cast::of_integer(1);
            let t = arith::difference(one, arith::quotient(z, blocks));
            let lat = arith::sum(min, arith::product(t, len));
            let back = arith::quotient(arith::difference(lat, min), len);
            comes_back(arith::product(arith::difference(one, back), blocks), z, blocks, len)
        }),
{
    let o = cast::one();
    let h = HIDDEN_BIT as int;
    let one = cast::of_integer(1);
    let (l, s) = (len.units(), blocks.units());
    lemma_one_is_large();
    let u = z.units();
    lemma_share(z, blocks);
    let q1 = arith::quotient(z, blocks);
    lemma_rest_of_one(q1, 2);
    let t = arith::difference(one, q1);
    lemma_length_is_large(l, o);
    lemma_offset(t, len);
    let p = arith::product(t, len);
    lemma_there_and_back(min, p, len, s);
    let q2 = arith::quotient(arith::difference(arith::sum(min, p), min), len);
    lemma_rest_of_one(q2, 7);
    let w = arith::difference(one, q2);
    lemma_blocks(w, blocks);
    let r = arith::product(w, blocks);
    let (a, b, c, d) = (q1.units(), t.units(), q2.units(), w.units());
    let e1 = gap(c * l, p.units() * o);
    let e2 = gap(p.units() * o, b * l);
    let e3 = gap(c * l, b * l);
    assert(e3 <= e1 + e2);
    assert(e3 * h <= (e1 + e2) * h) by (nonlinear_arith)
        requires
            e3 <= e1 + e2,
            h > 0,
    ;
    assert((e1 + e2) * h == e1 * h + e2 * h) by (nonlinear_arith);
    lemma_scaled_gap(c, b, l, s, o, h);
    lemma_times_blocks(d, o - c, s, o, h, 5);
    lemma_times_blocks(b, o - a, s, o, h, 2);
    let f1 = gap(r.units() * o, d * s);
    let f2 = gap(d * s, (o - c) * s);
    let f3 = gap(c * s, b * s);
    let f4 = gap(b * s, (o - a) * s);
    let f5 = gap(a * s, u * o);
    assert((o - c) * s == o * s - c * s) by (nonlinear_arith);
    assert((o - a) * s == o * s - a * s) by (nonlinear_arith);
    let rest = f1 + f2 + f4 + f5;
    assert(rest * h == f1 * h + f2 * h + f4 * h + f5 * h) by (nonlinear_arith)
        requires
            rest == f1 + f2 + f4 + f5,
    ;
    assert(gap(r.units() * o, u * o) <= rest + f3);
    lemma_total(rest + f3, rest, f3, 13, l, s, o);
    lemma_comes_back(r.units(), u, l, s, o, rest + f3);
}

/// What is known of a coordinate axis of an area.
proof fn lemma_axis(min: F64, max: F64, blocks: F64, bound: int)
    requires
        0 <= bound <= 180,
        llpoint::within(min, bound),
        llpoint::within(max, bound),
        min.below(max),
        cartesian::is_length(blocks),
        is_spanned(blocks, arith::difference(max, min)),
    ensures
        min.finite() && arith::difference(max, min).finite() && blocks.finite(),
        is_axis(min.units(), arith::difference(max, min).units(), blocks.units(), cast::one()),
{
    let o = cast::one();
    let h = HIDDEN_BIT as int;
    lemma_one_is_large();
    lemma2_to64_rest();
    tiling::lemma_span(min, max, bound);
    transformation::lemma_length_is_finite(blocks);
    error::lemma_integer_value(bound);
    error::lemma_integer_value(-bound);
    error::lemma_integer_value(1);
    error::lemma_integer_value(i32::MAX as int);
    assert(bound * o <= 180 * o) by (nonlinear_arith)
        requires
            bound <= 180,
            o > 0,
    ;
    assert((-bound) * o == -(bound * o)) by (nonlinear_arith);
    error::lemma_difference_close(max, min);
    let l = arith::difference(max, min).units();
    lemma_gap(l, max.units() - min.units(), 1, 256 * o);
    let e = gap(l, max.units() - min.units());
    assert(e <= o) by (nonlinear_arith)
        requires
            e * h <= 256 * o,
            h >= 256,
            e >= 0,
            o > 0,
    ;
    binary64::lemma_scale_order(arith::difference(max, min).magnitude(), 0);
    assert(1 * o == o && 0x7fff_ffff * o <= 0x8000_0000 * o) by (nonlinear_arith)
        requires
            o > 0,
    ;
}

/// The way back: a position in the area, taken to its coordinates and from these to
/// a position again, comes back but for rounding.
pub proof fn law_way_back(
    edges: Edges,
    scale: F64,
    south_north: F64,
    west_east: F64,
    x: F64,
    z: F64,
)
    requires
        edges.valid(),
        ({
            let f = transformation::local_frame(edges, scale, south_north, west_east);
            &&& transformation::is_local(f, scale)
            &&& is_spanned(f.scale_factor_x, f.len_lng)
            &&& is_spanned(f.scale_factor_z, f.len_lat)
            &&& cast::of_integer(0).at_most(x) && x.at_most(f.scale_factor_x)
            &&& cast::of_integer(0).at_most(z) && z.at_most(f.scale_factor_z)
        }),
    ensures
        ({
            let f = transformation::local_frame(edges, scale, south_north, west_east);
            &&& comes_back(f.local_x(f.lng_at(x)), x, f.scale_factor_x, f.len_lng)
            &&& comes_back(f.local_z(f.lat_at(z)), z, f.scale_factor_z, f.len_lat)
        }),
{
    let f = transformation::local_frame(edges, scale, south_north, west_east);
    lemma2_to64_rest();
    lemma_axis(edges.min_lng, edges.max_lng, f.scale_factor_x, 180);
    lemma_axis(edges.min_lat, edges.max_lat, f.scale_factor_z, 90);
    error::lemma_integer_value(0);
    assert(0 * cast::one() == 0);
    lemma_finite_between(x, f.scale_factor_x);
    lemma_finite_between(z, f.scale_factor_z);
    lemma_x_returns(f.min_lng, f.len_lng, f.scale_factor_x, x);
    lemma_z_returns(f.min_lat, f.len_lat, f.scale_factor_z, z);
}

/// Where blocks are not so small that coordinates cannot tell them apart, a position
/// comes back to within half a block.
pub proof fn law_positions_come_back(
    edges: Edges,
    scale: F64,
    south_north: F64,
    west_east: F64,
    x: F64,
    z: F64,
)
    requires
        edges.valid(),
        ({
            let f = transformation::local_frame(edges, scale, south_north, west_east);
            &&& transformation::is_local(f, scale)
            &&& is_distinct(f.scale_factor_x, f.len_lng)
            &&& is_distinct(f.scale_factor_z, f.len_lat)
            &&& cast::of_integer(0).at_most(x) && x.at_most(f.scale_factor_x)
            &&& cast::of_integer(0).at_most(z) && z.at_most(f.scale_factor_z)
        }),
    ensures
        ({
            let f = transformation::local_frame(edges, scale, south_north, west_east);
            &&& is_near(f.local_x(f.lng_at(x)), x)
            &&& is_near(f.local_z(f.lat_at(z)), z)
        }),
{
    let f = transformation::local_frame(edges, scale, south_north, west_east);
    lemma_one_is_large();
    laws::lemma_one();
    lemma_distinct_is_spanned(f.scale_factor_x, f.len_lng);
    lemma_distinct_is_spanned(f.scale_factor_z, f.len_lat);
    lemma_axis(edges.min_lng, edges.max_lng, f.scale_factor_x, 180);
    lemma_axis(edges.min_lat, edges.max_lat, f.scale_factor_z, 90);
    law_way_back(edges, scale, south_north, west_east, x, z);
    lemma_near(f.local_x(f.lng_at(x)), x, f.scale_factor_x, f.len_lng);
    lemma_near(f.local_z(f.lat_at(z)), z, f.scale_factor_z, f.len_lat);
}

proof fn lemma_distinct_is_spanned(blocks: F64, len: F64)
    requires
        is_distinct(blocks, len),
    ensures
        is_spanned(blocks, len),
{
    lemma_one_is_large();
    laws::lemma_one();
}

/// On an axis of distinct blocks, what rounding makes up is less than half a block.
proof fn lemma_near(r: F64, x: F64, blocks: F64, len: F64)
    requires
        comes_back(r, x, blocks, len),
        is_distinct(blocks, len),
        0 < len.units(),
        blocks.units() <= 0x8000_0000 * cast::one(),
    ensures
        is_near(r, x),
{
    let o = cast::one();
    let h = HIDDEN_BIT as int;
    let (s, l) = (blocks.units(), len.units());
    let c = arith::absolute(r.units() - x.units());
    lemma_one_is_large();
    assert(s * (20 * l + 0x1000 * o) <= (0x8_0000_0000_0000 * o) * l - l) by (nonlinear_arith)
        requires
            s <= 0x8000_0000 * o,
            s <= MOST_BLOCKS * l,
            MOST_BLOCKS == 0x40_0000_0000u64,
            l > 0,
            o >= 1,
    {
        assert(s * (20 * l) <= (20 * (0x8000_0000 * o)) * l) by (nonlinear_arith)
            requires
                s <= 0x8000_0000 * o,
                l > 0,
        ;
        assert(s * (0x1000 * o) <= (0x1000 * (0x40_0000_0000 * o)) * l) by (nonlinear_arith)
            requires
                s <= 0x40_0000_0000 * l,
                o > 0,
        ;
        assert(s * (20 * l + 0x1000 * o) == s * (20 * l) + s * (0x1000 * o)) by (nonlinear_arith);
        assert(o * l >= l) by (nonlinear_arith)
            requires
                o >= 1,
                l > 0,
        ;
        assert((20 * (0x8000_0000 * o)) * l == 0xa_0000_0000 * (o * l)) by (nonlinear_arith);
        assert((0x1000 * (0x40_0000_0000 * o)) * l == 0x4_0000_0000_0000 * (o * l))
            by (nonlinear_arith);
        assert((0x8_0000_0000_0000 * o) * l == 0x8_0000_0000_0000 * (o * l)) by (nonlinear_arith);
    }
    assert(c * h <= 0x8_0000_0000_0000 * o - 1) by (nonlinear_arith)
        requires
            c * h * l <= (0x8_0000_0000_0000 * o) * l - l,
            l > 0,
    ;
}

/// A number from zero to a finite one is finite.
proof fn lemma_finite_between(x: F64, top: F64)
    requires
        top.finite(),
        x.at_most(top),
        0 <= x.units(),
    ensures
        x.finite(),
{
    let i = binary64::INFINITY_BITS as nat;
    binary64::lemma_scale_order(x.magnitude(), i);
    binary64::lemma_scale_order(top.magnitude(), i);
    binary64::lemma_scale_order(i, 0);
}

/// The corners of the world are the corners of the area: position zero along x is
/// the western edge, and the last along z the southern one; the last along x is the
/// eastern edge, and position zero along z the northern one, up to rounding in the
/// last digits.
pub proof fn law_edges_come_back(edges: Edges, scale: F64, south_north: F64, west_east: F64)
    requires
        edges.valid(),
        ({
            let f = transformation::local_frame(edges, scale, south_north, west_east);
            &&& transformation::is_local(f, scale)
            &&& f.scale_factor_x.magnitude() != 0
            &&& f.scale_factor_z.magnitude() != 0
        }),
    ensures
        ({
            let f = transformation::local_frame(edges, scale, south_north, west_east);
            let zero = cast::of_integer(0);
            &&& f.lng_at(zero).same_number(edges.min_lng)
            &&& f.lat_at(f.scale_factor_z).same_number(edges.min_lat)
            &&& is_coordinate(f.lng_at(f.scale_factor_x), edges.max_lng)
            &&& is_coordinate(f.lat_at(zero), edges.max_lat)
        }),
{
    let f = transformation::local_frame(edges, scale, south_north, west_east);
    let zero = cast::of_integer(0);
    let one = cast::of_integer(1);
    let (sx, sz) = (f.scale_factor_x, f.scale_factor_z);
    lemma2_to64_rest();
    arith::lemma_nearest_zero(1);
    assert(0 * cast::one() == 0);
    laws::lemma_signed(false, 0);
    laws::lemma_one();
    tiling::lemma_span(edges.min_lat, edges.max_lat, 90);
    tiling::lemma_span(edges.min_lng, edges.max_lng, 180);
    transformation::lemma_length_is_finite(sx);
    transformation::lemma_length_is_finite(sz);
    // From the western edge.
    laws::law_zero_quotient(zero, sx);
    let q = arith::quotient(zero, sx);
    laws::law_zero_product(q, f.len_lng);
    laws::law_zero_adds_nothing(f.min_lng, arith::product(q, f.len_lng));
    // To the southern one.
    laws::law_quotient_with_itself(sz);
    laws::law_difference_with_itself(one);
    let rest = arith::difference(one, one);
    laws::law_zero_product(rest, f.len_lat);
    laws::law_zero_adds_nothing(f.min_lat, arith::product(rest, f.len_lat));
    // To the eastern one.
    laws::law_quotient_with_itself(sx);
    laws::law_one_product(f.len_lng);
    lemma_far_edge(edges.min_lng, edges.max_lng, 180);
    // From the northern one.
    laws::law_zero_quotient(zero, sz);
    laws::law_one_less_zero(arith::quotient(zero, sz));
    laws::law_one_product(f.len_lat);
    lemma_far_edge(edges.min_lat, edges.max_lat, 90);
}

/// Whether two coordinates are the same but for two to the power -43 of a degree.
pub open spec fn is_coordinate(a: F64, b: F64) -> bool {
    a.finite() && b.finite() && arith::absolute(a.units() - b.units()) * 0x800_0000_0000
        <= cast::one()
}

/// The length of an axis, added to its near edge.
proof fn lemma_far_edge(min: F64, max: F64, bound: int)
    requires
        0 <= bound <= 180,
        llpoint::within(min, bound),
        llpoint::within(max, bound),
        min.below(max),
    ensures
        is_coordinate(arith::sum(min, arith::difference(max, min)), max),
{
    let o = cast::one();
    let h = HIDDEN_BIT as int;
    lemma_one_is_large();
    lemma2_to64_rest();
    tiling::lemma_span(min, max, bound);
    error::lemma_integer_value(bound);
    error::lemma_integer_value(-bound);
    assert(bound * o <= 180 * o) by (nonlinear_arith)
        requires
            bound <= 180,
            o > 0,
    ;
    assert((-bound) * o == -(bound * o)) by (nonlinear_arith);
    error::lemma_difference_close(max, min);
    let len = arith::difference(max, min);
    lemma_gap(len.units(), max.units() - min.units(), 1, 200 * o);
    let e = gap(len.units(), max.units() - min.units());
    assert(e <= o) by (nonlinear_arith)
        requires
            e * h <= 200 * o,
            h >= 200,
            e >= 0,
            o > 0,
    ;
    error::lemma_sum_close(min, len);
    let s = arith::sum(min, len);
    lemma_gap(s.units(), min.units() + len.units(), 1, 300 * o);
    let d = gap(s.units(), min.units() + len.units());
    let total = arith::absolute(s.units() - max.units());
    assert(total <= d + e);
    assert(total * h <= 512 * o) by (nonlinear_arith)
        requires
            total <= d + e,
            d * h <= 300 * o,
            e * h <= 200 * o,
            h > 0,
            o > 0,
    ;
    assert(total * 0x800_0000_0000 <= o) by (nonlinear_arith)
        requires
            total * h <= 512 * o,
            h == 0x10_0000_0000_0000,
    ;
}

/// An area that is cut where a block starts has its corner on that block: the
/// west edge and the north edge of a block, as coordinates, are rounded back to
/// the block.
///
/// Blocks must not be so small that coordinates cannot tell them apart.
pub proof fn law_cuts_land_on_their_blocks(
    edges: Edges,
    scale: F64,
    south_north: F64,
    west_east: F64,
    x: i32,
    z: i32,
)
    requires
        edges.valid(),
        ({
            let f = transformation::local_frame(edges, scale, south_north, west_east);
            &&& transformation::is_local(f, scale)
            &&& is_distinct(f.scale_factor_x, f.len_lng)
            &&& is_distinct(f.scale_factor_z, f.len_lat)
            &&& 0 <= x && cast::of_integer(x as int).at_most(f.scale_factor_x)
            &&& 0 <= z && cast::of_integer(z as int).at_most(f.scale_factor_z)
        }),
    ensures
        ({
            let f = transformation::local_frame(edges, scale, south_north, west_east);
            let lng = f.lng_at(cast::of_integer(x as int));
            let lat = f.lat_at(cast::of_integer(z as int));
            &&& transformation::rounded_block(f.local_x(lng)) == x
            &&& transformation::rounded_block(f.local_z(lat)) == z
        }),
{
    let f = transformation::local_frame(edges, scale, south_north, west_east);
    lemma2_to64_rest();
    let (u, v) = (cast::of_integer(x as int), cast::of_integer(z as int));
    error::lemma_integer_value(x as int);
    error::lemma_integer_value(z as int);
    laws::law_integers_keep_order(0, x as int);
    laws::law_integers_keep_order(0, z as int);
    law_positions_come_back(edges, scale, south_north, west_east, u, v);
    lemma_rounds_to(f.local_x(f.lng_at(u)), x as int);
    lemma_rounds_to(f.local_z(f.lat_at(v)), z as int);
}

} // verus!
