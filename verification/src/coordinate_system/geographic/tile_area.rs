//! How large tiles are.
//!
//! Tiles are within the limit where they are widest: either a measure says so, or
//! they are cut there with sides whose square is the limit. What rounding adds to
//! their area is less than the thousandth part of the limit, as long as a side is not
//! so small that the rounding of coordinates alone could make up that part.

use vstd::prelude::*;
use vstd::arithmetic::power2::*;
use crate::binary64;
use crate::binary64::{F64, HIDDEN_BIT};
use crate::binary64::arith;
use crate::binary64::cast;
use crate::binary64::error;
use crate::binary64::excess;
use crate::binary64::laws;
use crate::binary64::order;
use crate::binary64::round;
use crate::coordinate_system::geographic::llbbox::Edges;
use crate::coordinate_system::geographic::llpoint;
use crate::coordinate_system::geographic::tiling;
use crate::coordinate_system::geographic::tiling::Grid;

verus! {

/// The most tiles to a degree: two to the power 32, each a fortieth of a millimeter
/// long.
pub const MOST_TILES: u64 = 0x1_0000_0000;

/// Whether a step is so large that the rounding of the coordinates at its ends is less
/// than the thousandth part of the limit.
pub open spec fn is_coarse(step: F64) -> bool {
    cast::one() <= MOST_TILES * step.units()
}

impl Grid {
    /// Whether no side of a tile is too small, and the counts are not cut off at what
    /// a machine can hold.
    pub open spec fn is_coarse(self) -> bool {
        &&& is_coarse(tiling::step(self.edges.min_lat, self.edges.max_lat, self.rows))
        &&& is_coarse(tiling::step(self.edges.min_lng, self.edges.max_lng, self.cols))
        &&& self.rows < usize::MAX
        &&& self.cols < usize::MAX
    }
}

/// What rounding adds to a step between cuts, in parts, on an axis of coordinates
/// up to `bound`.
spec fn cut_parts(bound: int) -> int {
    7 * bound / 2 + 4
}

/// What is known of an axis that is cut: its edges in units, the length as computed,
/// the step and the count. `w` is half the largest coordinate.
spec fn is_axis(m: int, e: int, l: int, s: int, count: int, w: int, o: int) -> bool {
    &&& 0 <= w <= 90 * o
    &&& -2 * w <= m < e <= 2 * w
    &&& 0 < l <= 361 * o
    &&& arith::absolute(l - (e - m)) * HIDDEN_BIT <= 2 * w + o
    &&& o <= MOST_TILES * s
    &&& 1 <= count <= 0x800_0000_0000
    &&& arith::absolute(s * count - l) * HIDDEN_BIT <= 2 * w + o
    &&& s * count <= 3 * l
    &&& excess::within_parts(s * count, l, 1)
}

/// The counts of a coarse grid are small.
proof fn lemma_count_is_small(s: int, v: int, l: int, o: int)
    requires
        o > 0,
        v >= o,
        0 < l <= 361 * o,
        o <= MOST_TILES * s,
        error::is_close(s * v, l * o, v),
    ensures
        v <= 0x800_0000_0000 * o,
        s * v <= 3 * (l * o),
{
    let h = HIDDEN_BIT as int;
    let (x, y) = (s * v, l * o);
    assert(s > 0) by (nonlinear_arith)
        requires
            o <= MOST_TILES * s,
            o > 0,
            MOST_TILES == 0x1_0000_0000u64,
    ;
    assert(x >= v) by (nonlinear_arith)
        requires
            x == s * v,
            s >= 1,
            v > 0,
    ;
    assert(y >= 0) by (nonlinear_arith)
        requires
            y == l * o,
            l > 0,
            o > 0,
    ;
    assert(x <= 3 * y) by (nonlinear_arith)
        requires
            (x - y) * (2 * h) <= y + h * v,
            x >= v,
            y >= 0,
            h == 0x10_0000_0000_0000,
    ;
    assert(y <= 361 * (o * o)) by (nonlinear_arith)
        requires
            y == l * o,
            l <= 361 * o,
            o > 0,
    ;
    assert(v * o <= MOST_TILES * x) by (nonlinear_arith)
        requires
            x == s * v,
            o <= MOST_TILES * s,
            v > 0,
    ;
    assert(v <= 0x800_0000_0000 * o) by (nonlinear_arith)
        requires
            v * o <= MOST_TILES * x,
            x <= 1083 * (o * o),
            MOST_TILES == 0x1_0000_0000u64,
            o > 0,
    ;
}

proof fn lemma_axis(start: F64, end: F64, bound: int, count: int, w: int)
    requires
        0 <= bound <= 180,
        2 * w == bound * cast::one(),
        llpoint::within(start, bound),
        llpoint::within(end, bound),
        start.below(end),
        1 <= count <= usize::MAX,
        is_coarse(tiling::step(start, end, count)),
    ensures
        start.finite() && end.finite(),
        arith::difference(end, start).finite(),
        !arith::difference(end, start).negative(),
        tiling::step(start, end, count).finite(),
        is_axis(
            start.units(),
            end.units(),
            arith::difference(end, start).units(),
            tiling::step(start, end, count).units(),
            count,
            w,
            cast::one(),
        ),
{
    let o = cast::one();
    let h = HIDDEN_BIT as int;
    lemma2_to64_rest();
    excess::lemma_weight_of_one();
    error::lemma_integer_value(bound);
    error::lemma_integer_value(-bound);
    tiling::lemma_span(start, end, bound);
    let (m, e) = (start.units(), end.units());
    assert((-bound) * o == -(bound * o)) by (nonlinear_arith);
    assert(0 <= bound * o <= 180 * o) by (nonlinear_arith)
        requires
            0 <= bound <= 180,
            o > 0,
    ;
    let span = arith::difference(end, start);
    let l = span.units();
    error::lemma_difference_close(end, start);
    error::lemma_distance(l, e - m, 1, 2 * w + o);
    binary64::lemma_scale_order(span.magnitude(), 0);
    let short = 4 * w + o / 8;
    assert(l <= short) by (nonlinear_arith)
        requires
            (l - (e - m)) * h <= 2 * w + o,
            e - m <= 4 * w,
            w <= 90 * o,
            short == 4 * w + o / 8,
            h == 0x10_0000_0000_0000,
            o > 0x1_0000,
    ;
    let n = cast::of_integer(count);
    let v = n.units();
    laws::lemma_integer_bound(count, 64);
    laws::law_integers_keep_order(1, count);
    laws::lemma_one();
    assert(l * o <= error::limit() * v) by (nonlinear_arith)
        requires
            l <= 361 * o,
            error::limit() == o * 0x1000_0000_0000_0000,
            v >= o,
            o > 0,
            l > 0,
    ;
    error::lemma_quotient_close(span, n);
    let s = tiling::step(start, end, count).units();
    lemma_count_is_small(s, v, l, o);
    let most = 0x800_0000_0000int;
    if count > most {
        laws::law_integers_keep_order(most + 1, count);
        error::lemma_integer_value(most + 1);
        assert((most + 1) * o > most * o) by (nonlinear_arith)
            requires
                o > 0,
        ;
    }
    error::lemma_integer_value(count);
    assert(v == count * o);
    let p = s * count;
    assert(s * v == p * o) by (nonlinear_arith)
        requires
            v == count * o,
            p == s * count,
    ;
    assert(p <= 3 * l) by (nonlinear_arith)
        requires
            p * o <= 3 * (l * o),
            o > 0,
    ;
    // The step is close to the exact one.
    assert(l * o > 0) by (nonlinear_arith)
        requires
            l > 0,
            o > 0,
    ;
    let size = 2 * w + o;
    assert(l * o + h * v <= 2 * (size * o)) by (nonlinear_arith)
        requires
            l <= 4 * w + o,
            size == 2 * w + o,
            v <= 0x800_0000_0000 * o,
            h == 0x10_0000_0000_0000,
            o >= 0x1_0000_0000_0000_0000_0000_0000_0000_0000_0000_0000_0000_0000int,
    {
        assert(l * o <= (4 * w + o) * o) by (nonlinear_arith)
            requires
                l <= 4 * w + o,
                o > 0,
        ;
        assert((4 * w + o) * o + o * o == 2 * (size * o)) by (nonlinear_arith)
            requires
                size == 2 * w + o,
        ;
        assert(h * v <= o * o) by (nonlinear_arith)
            requires
                v <= 0x800_0000_0000 * o,
                h == 0x10_0000_0000_0000,
                o >= 0x1_0000_0000_0000_0000_0000_0000_0000_0000_0000_0000_0000_0000int,
        ;
    }
    error::lemma_distance(p * o, l * o, v, size * o);
    let g = arith::absolute(p - l);
    assert(arith::absolute(p * o - l * o) == g * o) by {
        assert(p * o - l * o == (p - l) * o) by (nonlinear_arith);
        assert((-(p - l)) * o == -((p - l) * o)) by (nonlinear_arith);
        assert(g * o >= 0) by (nonlinear_arith)
            requires
                g >= 0,
                o > 0,
        ;
    }
    assert(g * h <= size) by (nonlinear_arith)
        requires
            (g * o) * h <= size * o,
            o > 0,
    ;
    // The count is far smaller than the length in units.
    assert(h * v <= l * o) by (nonlinear_arith)
        requires
            v == count * o,
            s * count <= 3 * l,
            o <= MOST_TILES * s,
            MOST_TILES == 0x1_0000_0000u64,
            h == 0x10_0000_0000_0000,
            o >= 0x1_0000_0000_0000_0000_0000_0000_0000_0000_0000_0000_0000_0000int,
            count >= 1,
    {
        assert(o * count <= (MOST_TILES * s) * count) by (nonlinear_arith)
            requires
                o <= MOST_TILES * s,
                count >= 1,
        ;
        assert((MOST_TILES * s) * count == MOST_TILES * (s * count)) by (nonlinear_arith);
        let big = 0x1_0000_0000_0000_0000_0000_0000_0000_0000_0000_0000_0000_0000int;
        assert(big * count <= o * count) by (nonlinear_arith)
            requires
                big <= o,
                count >= 1,
        ;
        assert(h * count <= l);
        assert(h * (count * o) == (h * count) * o) by (nonlinear_arith);
        assert((h * count) * o <= l * o) by (nonlinear_arith)
            requires
                h * count <= l,
                o > 0,
        ;
    }
    excess::lemma_not_above(l * o, l * o, 0);
    excess::lemma_close_above(p * o, l * o, v, l * o, 0);
    excess::lemma_cancel(p, l, 1, o);
}

/// A cut lies where it should but for rounding.
proof fn lemma_cut_is_near(start: F64, d: F64, k: int, w: int)
    requires
        start.finite() && d.finite(),
        0 <= w <= 90 * cast::one(),
        0 <= k <= 0x800_0000_0000,
        0 < d.units(),
        -2 * w <= start.units() <= 2 * w,
        d.units() * k <= 4 * w + cast::one() / 2,
        start.units() + d.units() * k <= 2 * w + cast::one() / 2,
    ensures
        ({
            let a = arith::sum(start, arith::product(d, cast::of_integer(k)));
            &&& a.finite()
            &&& arith::absolute(a.units() - (start.units() + d.units() * k)) * HIDDEN_BIT <= 3 * w
                + 2 * cast::one()
        }),
{
    let o = cast::one();
    let h = HIDDEN_BIT as int;
    let (m, s) = (start.units(), d.units());
    lemma2_to64_rest();
    excess::lemma_weight_of_one();
    error::lemma_integer_value(k);
    let i = cast::of_integer(k);
    let x = s * k;
    let size = 2 * w + o;
    assert(x >= 0) by (nonlinear_arith)
        requires
            x == s * k,
            s > 0,
            k >= 0,
    ;
    assert(s * (k * o) == x * o) by (nonlinear_arith)
        requires
            x == s * k,
    ;
    assert(k * o >= 0) by (nonlinear_arith)
        requires
            k >= 0,
            o > 0,
    ;
    assert(h * o <= o * o) by (nonlinear_arith)
        requires
            h <= o,
            o > 0,
    ;
    assert(0 <= x * o && x * o + o * o <= 2 * (size * o)) by (nonlinear_arith)
        requires
            0 <= x,
            x <= 4 * w + o,
            size == 2 * w + o,
            o > 0,
    {
        assert(x * o <= (4 * w + o) * o) by (nonlinear_arith)
            requires
                x <= 4 * w + o,
                o > 0,
        ;
        assert((4 * w + o) * o + o * o == 2 * (size * o)) by (nonlinear_arith)
            requires
                size == 2 * w + o,
        ;
    }
    assert(size * o <= 181 * (o * o)) by (nonlinear_arith)
        requires
            size <= 181 * o,
            o > 0,
    ;
    assert(error::limit() * o == 0x1000_0000_0000_0000 * (o * o)) by (nonlinear_arith)
        requires
            error::limit() == o * 0x1000_0000_0000_0000,
    ;
    assert(o * o >= 0) by (nonlinear_arith);
    error::lemma_product_close(d, i);
    let p = arith::product(d, i);
    let v = p.units();
    error::lemma_distance(v * o, x * o, o, size * o);
    let g = arith::absolute(v - x);
    assert(arith::absolute(v * o - x * o) == g * o) by {
        assert(v * o - x * o == (v - x) * o) by (nonlinear_arith);
        assert((-(v - x)) * o == -((v - x) * o)) by (nonlinear_arith);
        assert(g * o >= 0) by (nonlinear_arith)
            requires
                g >= 0,
                o > 0,
        ;
    }
    assert(g * h <= size) by (nonlinear_arith)
        requires
            (g * o) * h <= size * o,
            o > 0,
    ;
    assert(g <= o / 2) by (nonlinear_arith)
        requires
            g * h <= size,
            size <= 181 * o,
            h == 0x10_0000_0000_0000,
            g >= 0,
            o > 0x1_0000,
    ;
    error::lemma_sum_close(start, p);
    let a = arith::sum(start, p).units();
    error::lemma_distance(a, m + v, 1, w + o);
    let f = arith::absolute(a - (m + v));
    let t = arith::absolute(a - (m + x));
    assert(t * h <= 3 * w + 2 * o) by (nonlinear_arith)
        requires
            t <= f + g,
            f * h <= w + o,
            g * h <= 2 * w + o,
            h > 0,
    ;
}

/// Cuts lie within the axis but for rounding, and the last is one step from its end.
proof fn lemma_cuts_on_axis(m: int, e: int, l: int, s: int, count: int, i: int, w: int, o: int)
    requires
        o > 0x1_0000,
        is_axis(m, e, l, s, count, w, o),
        0 <= i < count,
    ensures
        s > 0,
        0 <= s * i,
        s * (i + 1) == s * i + s,
        s * (i + 1) <= s * count,
        s * i + s <= 4 * w + o / 2,
        m + s * i + s <= 2 * w + o / 2,
        i + 1 == count ==> s * count == s * i + s,
{
    let h = HIDDEN_BIT as int;
    let p = s * count;
    assert(s > 0) by (nonlinear_arith)
        requires
            o <= MOST_TILES * s,
            o > 0,
            MOST_TILES == 0x1_0000_0000u64,
    ;
    assert(s * (i + 1) == s * i + s) by (nonlinear_arith);
    assert(0 <= s * i && s * (i + 1) <= p) by (nonlinear_arith)
        requires
            p == s * count,
            0 <= i,
            i + 1 <= count,
            s > 0,
    ;
    let (g, k) = (arith::absolute(l - (e - m)), arith::absolute(p - l));
    assert(g <= o / 8 && k <= o / 8) by (nonlinear_arith)
        requires
            g * h <= 2 * w + o,
            k * h <= 2 * w + o,
            w <= 90 * o,
            h == 0x10_0000_0000_0000,
            g >= 0,
            k >= 0,
            o > 0x1_0000,
    ;
}

/// Cuts next to each other are apart by the step but for rounding.
proof fn lemma_cuts_apart(start: F64, end: F64, bound: int, count: int, i: int, w: int)
    requires
        bound == 90 || bound == 180,
        2 * w == bound * cast::one(),
        llpoint::within(start, bound),
        llpoint::within(end, bound),
        start.below(end),
        1 <= count <= usize::MAX,
        is_coarse(tiling::step(start, end, count)),
        0 <= i < count,
        tiling::cut(start, end, count, i).below(tiling::cut(start, end, count, i + 1)),
    ensures
        ({
            let low = tiling::cut(start, end, count, i);
            let high = tiling::cut(start, end, count, i + 1);
            let s = tiling::step(start, end, count).units();
            &&& low.finite() && high.finite()
            &&& (high.units() - low.units()) * HIDDEN_BIT <= s * HIDDEN_BIT + 7 * w + 4
                * cast::one()
        }),
{
    let o = cast::one();
    let h = HIDDEN_BIT as int;
    excess::lemma_weight_of_one();
    lemma_axis(start, end, bound, count, w);
    let d = tiling::step(start, end, count);
    let (m, e, s) = (start.units(), end.units(), d.units());
    let l = arith::difference(end, start).units();
    let p = s * count;
    lemma_cuts_on_axis(m, e, l, s, count, i, w, o);
    lemma_cut_is_near(start, d, i, w);
    let low = tiling::cut(start, end, count, i);
    let high = tiling::cut(start, end, count, i + 1);
    let a = arith::sum(start, arith::product(d, cast::of_integer(i)));
    let x = s * i;
    let f = arith::absolute(a.units() - (m + x));
    assert(high.at_most(end) && high.finite()) by {
        if i + 1 < count {
            lemma_cut_is_near(start, d, i + 1, w);
        }
    }
    assert(low == a);
    let gap = high.units() - low.units();
    assert(gap * h <= s * h + 7 * w + 4 * o) by {
        if i + 1 < count {
            let b = arith::sum(start, arith::product(d, cast::of_integer(i + 1)));
            lemma_cut_is_near(start, d, i + 1, w);
            let g = arith::absolute(b.units() - (m + (x + s)));
            assert(gap <= s + f + g);
            assert(gap * h <= s * h + 7 * w + 4 * o) by (nonlinear_arith)
                requires
                    gap <= s + f + g,
                    f * h <= 3 * w + 2 * o,
                    g * h <= 3 * w + 2 * o,
                    w >= 0,
                    h > 0,
            ;
        } else {
            let g = arith::absolute(l - (e - m));
            let k = arith::absolute(p - l);
            assert(gap <= s + f + g + k);
            assert(gap * h <= s * h + 7 * w + 4 * o) by (nonlinear_arith)
                requires
                    gap <= s + f + g + k,
                    f * h <= 3 * w + 2 * o,
                    g * h <= 2 * w + o,
                    k * h <= 2 * w + o,
                    h > 0,
            ;
        }
    }
}

/// The span of a piece is not above the step but for rounding.
proof fn lemma_piece(start: F64, end: F64, bound: int, count: int, i: int)
    requires
        bound == 90 || bound == 180,
        llpoint::within(start, bound),
        llpoint::within(end, bound),
        start.below(end),
        1 <= count <= usize::MAX,
        is_coarse(tiling::step(start, end, count)),
        0 <= i < count,
        tiling::cut(start, end, count, i).below(tiling::cut(start, end, count, i + 1)),
    ensures
        ({
            let t = arith::difference(
                tiling::cut(start, end, count, i + 1),
                tiling::cut(start, end, count, i),
            );
            let d = tiling::step(start, end, count);
            let l = arith::difference(end, start).units();
            &&& arith::difference(end, start).finite()
            &&& !arith::difference(end, start).negative()
            &&& t.finite() && !t.negative()
            &&& 0 <= t.units() <= 401 * cast::one()
            &&& d.finite() && !d.negative()
            &&& 0 < d.units() <= 361 * cast::one()
            &&& excess::within_parts(t.units(), d.units(), cut_parts(bound) + 1)
            &&& excess::within_parts(t.units() * count, l, cut_parts(bound) + 3)
            &&& cast::one() * count <= 0x4_0000_0000 * l
            &&& l <= 361 * cast::one()
            &&& count <= 0x800_0000_0000
        }),
{
    let o = cast::one();
    let h = HIDDEN_BIT as int;
    let w = if bound == 90 { 45 * o } else { 90 * o };
    let j = cut_parts(bound);
    assert(2 * w == bound * o && 7 * w + 4 * o == j * o) by {
        if bound == 90 {
            assert(j == 319);
            assert(90 * o == 2 * (45 * o) && 319 * o == 7 * (45 * o) + 4 * o);
        } else {
            assert(j == 634);
            assert(180 * o == 2 * (90 * o) && 634 * o == 7 * (90 * o) + 4 * o);
        }
    }
    excess::lemma_weight_of_one();
    lemma_axis(start, end, bound, count, w);
    let d = tiling::step(start, end, count);
    let (m, e, s) = (start.units(), end.units(), d.units());
    let l = arith::difference(end, start).units();
    let p = s * count;
    lemma_cuts_on_axis(m, e, l, s, count, i, w, o);
    lemma_cuts_apart(start, end, bound, count, i, w);
    let low = tiling::cut(start, end, count, i);
    let high = tiling::cut(start, end, count, i + 1);
    let gap = high.units() - low.units();
    assert(gap * 0x10_0000 <= s * (0x10_0000 + j)) by (nonlinear_arith)
        requires
            gap * h <= s * h + j * o,
            o <= MOST_TILES * s,
            MOST_TILES == 0x1_0000_0000u64,
            h == 0x10_0000_0000_0000,
            j >= 0,
    {
        assert(j * o <= j * (0x1_0000_0000 * s)) by (nonlinear_arith)
            requires
                o <= 0x1_0000_0000 * s,
                j >= 0,
        ;
        assert(j * (0x1_0000_0000 * s) == 0x1_0000_0000 * (j * s)) by (nonlinear_arith);
        assert(s * (0x10_0000 + j) == 0x10_0000 * s + j * s) by (nonlinear_arith);
    }
    assert(s <= 361 * o);
    assert(gap <= 400 * o) by (nonlinear_arith)
        requires
            gap * h <= s * h + 7 * w + 4 * o,
            s <= 361 * o,
            w <= 90 * o,
            h == 0x10_0000_0000_0000,
            o > 0,
    ;
    lemma_piece_span(low, high, gap, s, j, o);
    let t = arith::difference(high, low);
    excess::lemma_times(t.units(), s, j + 1, count);
    excess::lemma_chain(t.units() * count, p, l, j + 1, 1);
    lemma_length_is_large(s, count, l, o);
}

proof fn lemma_piece_span(low: F64, high: F64, gap: int, s: int, j: int, o: int)
    requires
        o == cast::one(),
        0 <= j <= 700,
        low.finite() && high.finite(),
        low.below(high),
        gap == high.units() - low.units(),
        excess::within_parts(gap, s, j),
        gap <= 400 * o,
        o <= MOST_TILES * s,
    ensures
        ({
            let t = arith::difference(high, low);
            &&& t.finite() && !t.negative()
            &&& 0 <= t.units() <= 401 * o
            &&& excess::within_parts(t.units(), s, j + 1)
        }),
{
    let h = HIDDEN_BIT as int;
    excess::lemma_weight_of_one();
    error::lemma_difference_close(high, low);
    laws::law_difference_of_distinct(low, high);
    let t = arith::difference(high, low);
    assert(h * 1 <= s) by (nonlinear_arith)
        requires
            o <= MOST_TILES * s,
            MOST_TILES == 0x1_0000_0000u64,
            h == 0x10_0000_0000_0000,
            o >= 0x1_0000_0000_0000_0000_0000_0000_0000_0000_0000_0000_0000_0000int,
    ;
    excess::lemma_close_above(t.units(), gap, 1, s, j);
    error::lemma_distance(t.units(), gap, 1, 0x200 * o);
    let u = t.units();
    assert(u <= 401 * o) by (nonlinear_arith)
        requires
            (u - gap) * h <= 0x200 * o,
            gap <= 400 * o,
            h == 0x10_0000_0000_0000,
            o > 0,
    ;
}

proof fn lemma_length_is_large(s: int, count: int, l: int, o: int)
    requires
        o > 0,
        o <= MOST_TILES * s,
        s * count <= 3 * l,
        count >= 1,
    ensures
        o * count <= 0x4_0000_0000 * l,
{
    assert(o * count <= (MOST_TILES * s) * count) by (nonlinear_arith)
        requires
            o <= MOST_TILES * s,
            count >= 1,
    ;
    assert((MOST_TILES * s) * count == MOST_TILES * (s * count)) by (nonlinear_arith);
}

/// The pieces in meters.
proof fn lemma_piece_in_meters(t: F64, span: F64, count: int, j: int)
    requires
        0 <= j <= 700,
        t.finite() && !t.negative(),
        span.finite() && !span.negative(),
        t.units() <= 401 * cast::one(),
        span.units() <= 361 * cast::one(),
        excess::within_parts(t.units() * count, span.units(), j),
        cast::one() * count <= 0x4_0000_0000 * span.units(),
        count >= 1,
    ensures
        ({
            let (f, w) = (tiling::meters(t), tiling::meters(span));
            &&& f.finite() && !f.negative()
            &&& w.finite() && !w.negative()
            &&& 0 <= f.units() <= 0x400_0000 * cast::one()
            &&& 0 <= w.units() <= 0x400_0000 * cast::one()
            &&& excess::within_parts(f.units() * count, w.units(), j + 3)
            &&& cast::one() * count <= 0x4_0000_0000 * w.units()
        }),
{
    let o = cast::one();
    let h = HIDDEN_BIT as int;
    let c = tiling::METERS_PER_DEGREE as int;
    lemma2_to64_rest();
    excess::lemma_weight_of_one();
    error::lemma_integer_value(c);
    let (f, w) = (tiling::meters(t), tiling::meters(span));
    let (a, l) = (t.units(), span.units());
    lemma_meters(t);
    lemma_meters(span);
    let k = c * o;
    let (x, y) = (f.units(), w.units());
    assert(a * k >= 0 && l * k >= 0) by (nonlinear_arith)
        requires
            a >= 0,
            l >= 0,
            k == c * o,
            c > 0,
            o > 0,
    ;
    excess::lemma_close_times(x * o, a * k, o, count);
    excess::lemma_times(a * count, l, j, k);
    assert((a * count) * k == (a * k) * count) by (nonlinear_arith);
    assert((x * o) * count == (x * count) * o) by (nonlinear_arith);
    assert(h * (o * count) <= l * k) by (nonlinear_arith)
        requires
            o * count <= 0x4_0000_0000 * l,
            k == c * o,
            c == 111_320,
            h == 0x10_0000_0000_0000,
            o >= 0x1_0000_0000_0000_0000_0000_0000_0000_0000_0000_0000_0000_0000int,
            count >= 1,
    {
        let big = 0x1_0000_0000_0000_0000_0000_0000_0000_0000_0000_0000_0000_0000int;
        assert(big * count <= o * count) by (nonlinear_arith)
            requires
                big <= o,
                count >= 1,
        ;
        assert(h * count <= l);
        assert(h * (o * count) == (h * count) * o) by (nonlinear_arith);
        assert((h * count) * o <= l * o) by (nonlinear_arith)
            requires
                h * count <= l,
                o > 0,
        ;
        assert(l * o <= l * (c * o)) by (nonlinear_arith)
            requires
                l > 0,
                o > 0,
                c >= 1,
        ;
    }
    assert((a * k) * count >= 0) by (nonlinear_arith)
        requires
            a * k >= 0,
            count >= 1,
    ;
    excess::lemma_close_above((x * count) * o, (a * k) * count, o * count, l * k, j);
    assert(h * o <= h * (o * count)) by (nonlinear_arith)
        requires
            count >= 1,
            o > 0,
            h > 0,
    ;
    excess::lemma_close_below(y * o, l * k, o);
    assert(y * o >= 0) by (nonlinear_arith)
        requires
            y >= 0,
            o > 0,
    ;
    excess::lemma_chain((x * count) * o, l * k, y * o, j + 1, 1);
    excess::lemma_cancel(x * count, y, j + 3, o);
    // A length in meters is no smaller than in degrees.
    assert(l <= y) by (nonlinear_arith)
        requires
            (l * k) * 0x10_0000 <= (y * o) * (0x10_0000 + 1),
            k == c * o,
            c == 111_320,
            o > 0,
            l > 0,
    {
        assert((l * (c * o)) * 0x10_0000 == ((l * c) * 0x10_0000) * o) by (nonlinear_arith);
        assert((y * o) * 0x10_0001 == (y * 0x10_0001) * o) by (nonlinear_arith);
        assert((l * c) * 0x10_0000 <= y * 0x10_0001) by (nonlinear_arith)
            requires
                ((l * c) * 0x10_0000) * o <= (y * 0x10_0001) * o,
                o > 0,
        ;
    }
}

/// A length of at most a turn, in meters.
proof fn lemma_meters(t: F64)
    requires
        t.finite() && !t.negative(),
        t.units() <= 401 * cast::one(),
    ensures
        ({
            let f = tiling::meters(t);
            let k = tiling::METERS_PER_DEGREE * cast::one();
            &&& f.finite() && !f.negative()
            &&& 0 <= f.units() <= 0x400_0000 * cast::one()
            &&& error::is_close(f.units() * cast::one(), t.units() * k, cast::one())
        }),
{
    let o = cast::one();
    let h = HIDDEN_BIT as int;
    let c = tiling::METERS_PER_DEGREE as int;
    lemma2_to64_rest();
    excess::lemma_weight_of_one();
    error::lemma_integer_value(c);
    let a = t.units();
    let k = c * o;
    assert(0 <= a * k <= 44_639_320 * (o * o)) by (nonlinear_arith)
        requires
            0 <= a <= 401 * o,
            k == 111_320 * o,
            o > 0,
    ;
    assert(k >= 0) by (nonlinear_arith)
        requires
            k == c * o,
            c > 0,
            o > 0,
    ;
    assert((o * 0x1000_0000_0000_0000) * o == 0x1000_0000_0000_0000 * (o * o)) by (nonlinear_arith);
    assert(o * o >= 0) by (nonlinear_arith);
    let n = cast::of_integer(c);
    assert(n.units() == k);
    assert(a * k <= error::limit() * o);
    error::lemma_product_close(t, n);
    let f = tiling::meters(t);
    let x = f.units();
    lemma_product_sign(t, n);
    assert(h * o <= o * o) by (nonlinear_arith)
        requires
            h <= o,
            o > 0,
    ;
    assert(x <= 0x400_0000 * o) by (nonlinear_arith)
        requires
            (x * o - a * k) * (2 * h) <= a * k + h * o,
            a * k <= 44_639_320 * (o * o),
            h * o <= o * o,
            h == 0x10_0000_0000_0000,
            o > 0,
    {
        let y = x * o;
        let q = o * o;
        assert(y <= 0x400_0000 * q);
        assert(x <= 0x400_0000 * o) by (nonlinear_arith)
            requires
                x * o <= 0x400_0000 * (o * o),
                o > 0,
        ;
    }
}

/// A product of numbers that are not negative is not negative.
proof fn lemma_product_sign(a: F64, b: F64)
    requires
        a.finite() && b.finite(),
        !a.negative() && !b.negative(),
        arith::product(a, b).finite(),
    ensures
        !arith::product(a, b).negative(),
{
    laws::lemma_made_of_parts(a);
    laws::law_products_keep_order(a, b, b);
}

/// A count that is made of a number by rounding up, and that fits a machine, is not
/// below the number.
proof fn lemma_count_covers(q: F64, count: int)
    requires
        !q.nan(),
        q.units() >= 0,
        cast::as_usize(cast::with_whole(q, cast::ceiled(q))) <= count,
        1 <= count < usize::MAX,
        count <= 0x800_0000_0000,
    ensures
        q.finite(),
        q.units() <= count * cast::one(),
{
    let o = cast::one();
    excess::lemma_weight_of_one();
    lemma2_to64_rest();
    order::law_ceilings_are_not_below(q);
    let k = cast::ceiled(q);
    let w = cast::with_whole(q, k);
    let u = w.units();
    assert(w.negative() ==> u == 0);
    let size = binary64::scale(w.magnitude()) as int;
    assert(size == u);
    vstd::arithmetic::div_mod::lemma_fundamental_div_mod(size, o);
    let t = size / o;
    if w.negative() {
        vstd::arithmetic::div_mod::lemma_div_basics(o);
    }
    assert(t <= count);
    assert(o * t <= o * count) by (nonlinear_arith)
        requires
            t <= count,
            o > 0,
    ;
    assert(o * count == count * o) by (nonlinear_arith);
    assert(u < count * o + o);
    if !q.finite() {
        lemma_infinity_is_large();
        assert(count * o <= 0x800_0000_0000 * o) by (nonlinear_arith)
            requires
                count <= 0x800_0000_0000,
                o > 0,
        ;
        assert(w == q);
        assert(false);
    }
    // The whole number is exact.
    let v = q.units();
    vstd::arithmetic::div_mod::lemma_fundamental_div_mod(-v, o);
    assert(o * (-k) == -(k * o)) by (nonlinear_arith);
    assert(k * o < v + o && v <= k * o);
    assert(0 <= k <= count + 1) by (nonlinear_arith)
        requires
            k * o < v + o,
            v <= k * o,
            0 <= v < count * o + o,
            o > 0,
    ;
    error::lemma_integer_value(k);
    laws::lemma_signed(q.negative(), round::nearest(k * o, 1));
    assert(size == k * o);
    assert(t == k) by {
        vstd::arithmetic::div_mod::lemma_div_by_multiple(k, o);
    }
    assert(k * o <= count * o) by (nonlinear_arith)
        requires
            k <= count,
            o > 0,
    ;
}

/// An infinity stands far beyond what is counted here.
proof fn lemma_infinity_is_large()
    ensures
        binary64::scale(binary64::INFINITY_BITS as nat) >= error::limit(),
        error::limit() > 0x1000_0000_0000 * cast::one(),
{
    let h = HIDDEN_BIT as nat;
    excess::lemma_weight_of_one();
    laws::lemma_scale_power(1083);
    binary64::lemma_scale_order(1083 * h, binary64::INFINITY_BITS as nat);
}

/// That many sides make up the length but for rounding.
proof fn lemma_pieces(length: F64, side: F64)
    requires
        length.finite() && !length.negative(),
        side.finite() && !side.negative(),
        0 < side.units() <= 0x8000_0000 * cast::one(),
        0x1_0000_0000_0000_0000_0000_0000int <= length.units(),
        tiling::pieces(length, side) < usize::MAX,
        tiling::pieces(length, side) <= 0x800_0000_0000,
    ensures
        excess::within_parts(
            length.units(),
            tiling::pieces(length, side) * side.units(),
            1,
        ),
{
    let o = cast::one();
    let h = HIDDEN_BIT as int;
    excess::lemma_weight_of_one();
    let (l, s) = (length.units(), side.units());
    let q = arith::quotient(length, side);
    let count = tiling::pieces(length, side);
    let n = l * o;
    assert(n > 0) by (nonlinear_arith)
        requires
            n == l * o,
            l > 0,
            o > 0,
    ;
    binary64::lemma_scale_order(side.magnitude(), 0);
    binary64::lemma_scale_order(length.magnitude(), 0);
    let m = round::nearest(n, s);
    round::lemma_nearest_exists(n, s);
    assert(q == binary64::signed(false, m));
    lemma_nearest_is_no_nan(n, s);
    laws::lemma_signed(false, m);
    lemma_count_covers(q, count);
    if n > error::limit() * s {
        let a = 1083 * HIDDEN_BIT as nat;
        laws::lemma_scale_power(1083);
        arith::lemma_nearest_exact(a);
        assert(error::limit() * s <= n * 1);
        round::lemma_nearest_monotone(error::limit(), 1, n, s);
        binary64::lemma_scale_order(m, a);
        lemma_infinity_is_large();
        assert(count * o <= 0x800_0000_0000 * o) by (nonlinear_arith)
            requires
                count <= 0x800_0000_0000,
                o > 0,
        ;
        assert(false);
    }
    error::lemma_quotient_close(length, side);
    let x = q.units();
    assert(h * s <= n) by (nonlinear_arith)
        requires
            s <= 0x8000_0000 * o,
            h == 0x10_0000_0000_0000,
            0x1_0000_0000_0000_0000_0000_0000int <= l,
            n == l * o,
            o > 0,
    {
        let big = 0x1_0000_0000_0000_0000_0000_0000int;
        assert(big * o <= l * o) by (nonlinear_arith)
            requires
                big <= l,
                o > 0,
        ;
        assert(h * s <= h * (0x8000_0000 * o)) by (nonlinear_arith)
            requires
                s <= 0x8000_0000 * o,
                h > 0,
        ;
    }
    excess::lemma_close_below(x * s, n, s);
    assert(x * s <= (count * s) * o) by (nonlinear_arith)
        requires
            x <= count * o,
            s > 0,
    ;
    excess::lemma_larger_bound(n, x * s, (count * s) * o, 1);
    excess::lemma_cancel(l, count * s, 1, o);
}

/// Rounding gives no NaN.
proof fn lemma_nearest_is_no_nan(n: int, d: int)
    requires
        n >= 0,
        d > 0,
    ensures
        round::nearest(n, d) <= binary64::INFINITY_BITS,
{
    round::lemma_nearest_exists(n, d);
}

/// The product of two sides from bounds on them.
proof fn lemma_ground(width: F64, height: F64, b1: int, j1: int, b2: int, j2: int)
    requires
        width.finite() && !width.negative(),
        height.finite() && !height.negative(),
        width.units() <= 0x400_0001 * cast::one(),
        height.units() <= 0x400_0000 * cast::one(),
        excess::within_parts(width.units(), b1, j1),
        excess::within_parts(height.units(), b2, j2),
        0 <= j1 && 0 <= j2,
        j1 + j2 <= 990,
        b1 >= 0,
        b2 >= 0,
        HIDDEN_BIT * cast::one() <= b1 * b2,
    ensures
        ({
            let p = arith::product(width, height);
            &&& p.finite() && !p.negative()
            &&& p.units() <= 0x40_0000_0000_0000 * cast::one()
            &&& excess::within_parts(p.units() * cast::one(), b1 * b2, j1 + j2 + 2)
        }),
{
    let o = cast::one();
    let h = HIDDEN_BIT as int;
    excess::lemma_weight_of_one();
    let (x, y) = (width.units(), height.units());
    let q = o * o;
    assert(0 <= x * y <= 0x20_0000_0000_0000 * q) by (nonlinear_arith)
        requires
            0 <= x <= 0x400_0001 * o,
            0 <= y <= 0x400_0000 * o,
            o > 0,
            q == o * o,
    ;
    assert(error::limit() * o == 0x1000_0000_0000_0000 * q) by (nonlinear_arith)
        requires
            error::limit() == o * 0x1000_0000_0000_0000,
            q == o * o,
    ;
    assert(h * o <= q) by (nonlinear_arith)
        requires
            h <= o,
            o > 0,
            q == o * o,
    ;
    assert(q >= 0) by (nonlinear_arith)
        requires
            q == o * o,
    ;
    error::lemma_product_close(width, height);
    let a = arith::product(width, height).units();
    lemma_product_sign(width, height);
    excess::lemma_both(x, b1, y, b2, j1, j2);
    excess::lemma_close_above(a * o, x * y, o, b1 * b2, j1 + j2 + 1);
    let (v, n) = (a * o, x * y);
    assert(v <= 0x40_0000_0000_0000 * q) by (nonlinear_arith)
        requires
            (v - n) * (2 * h) <= n + h * o,
            n <= 0x20_0000_0000_0000 * q,
            h * o <= q,
            h == 0x10_0000_0000_0000,
            q >= 0,
    ;
    assert(a <= 0x40_0000_0000_0000 * o) by (nonlinear_arith)
        requires
            a * o <= 0x40_0000_0000_0000 * (o * o),
            o > 0,
    ;
}

/// The area of a box from bounds on its sides in meters.
proof fn lemma_area(edges: Edges, c: F64, b1: int, j1: int, b2: int, j2: int)
    requires
        ({
            let width = arith::product(tiling::meters(edges.lng_span()), c);
            let height = tiling::meters(edges.lat_span());
            &&& width.finite() && !width.negative()
            &&& height.finite() && !height.negative()
            &&& width.units() <= 0x400_0001 * cast::one()
            &&& height.units() <= 0x400_0000 * cast::one()
            &&& excess::within_parts(width.units(), b1, j1)
            &&& excess::within_parts(height.units(), b2, j2)
        }),
        0 <= j1 && 0 <= j2,
        j1 + j2 <= 990,
        b1 >= 0,
        b2 >= 0,
        HIDDEN_BIT * (1_000_000 * cast::one()) <= b1 * b2,
    ensures
        edges.area(c).finite(),
        excess::within_parts(
            edges.area(c).units() * (1_000_000 * cast::one()),
            b1 * b2,
            j1 + j2 + 3,
        ),
{
    let o = cast::one();
    let h = HIDDEN_BIT as int;
    lemma2_to64_rest();
    excess::lemma_weight_of_one();
    error::lemma_integer_value(1_000_000);
    let width = arith::product(tiling::meters(edges.lng_span()), c);
    let height = tiling::meters(edges.lat_span());
    let b = b1 * b2;
    assert(h * o <= h * (1_000_000 * o)) by (nonlinear_arith)
        requires
            h > 0,
            o > 0,
    ;
    lemma_ground(width, height, b1, j1, b2, j2);
    let p = arith::product(width, height);
    let a = p.units();
    laws::lemma_made_of_parts(p);
    assert(p.unsigned() == p);
    let k = 1_000_000 * o;
    assert(a * o <= error::limit() * k) by (nonlinear_arith)
        requires
            a <= 0x40_0000_0000_0000 * o,
            error::limit() == o * 0x1000_0000_0000_0000,
            k == 1_000_000 * o,
            o > 0,
    ;
    error::lemma_quotient_close(p, cast::of_integer(1_000_000));
    assert(a * o >= 0) by (nonlinear_arith)
        requires
            a >= 0,
            o > 0,
    ;
    excess::lemma_close_above(edges.area(c).units() * k, a * o, k, b, j1 + j2 + 2);
}

/// A length times the cosine of a latitude.
proof fn lemma_width(g: F64, c: F64)
    requires
        g.finite() && !g.negative(),
        c.finite() && !c.negative(),
        g.units() <= 0x400_0000 * cast::one(),
        c.units() <= cast::one(),
    ensures
        ({
            let w = arith::product(g, c);
            &&& w.finite() && !w.negative()
            &&& w.units() <= 0x400_0001 * cast::one()
            &&& error::is_close(w.units() * cast::one(), g.units() * c.units(), cast::one())
            &&& 0 <= g.units() * c.units() <= g.units() * cast::one()
        }),
{
    let o = cast::one();
    let h = HIDDEN_BIT as int;
    excess::lemma_weight_of_one();
    let (x, y) = (g.units(), c.units());
    let q = o * o;
    assert(0 <= x * y <= x * o) by (nonlinear_arith)
        requires
            0 <= x,
            0 <= y <= o,
    ;
    assert(x * o <= 0x400_0000 * q) by (nonlinear_arith)
        requires
            x <= 0x400_0000 * o,
            o > 0,
            q == o * o,
    ;
    assert(error::limit() * o == 0x1000_0000_0000_0000 * q) by (nonlinear_arith)
        requires
            error::limit() == o * 0x1000_0000_0000_0000,
            q == o * o,
    ;
    assert(h * o <= q) by (nonlinear_arith)
        requires
            h <= o,
            o > 0,
            q == o * o,
    ;
    assert(q >= 0) by (nonlinear_arith)
        requires
            q == o * o,
    ;
    error::lemma_product_close(g, c);
    lemma_product_sign(g, c);
    let a = arith::product(g, c).units();
    let (v, n) = (a * o, x * y);
    assert(v <= 0x400_0001 * q) by (nonlinear_arith)
        requires
            (v - n) * (2 * h) <= n + h * o,
            n <= 0x400_0000 * q,
            h * o <= q,
            h == 0x10_0000_0000_0000,
            q >= 0,
    ;
    assert(a <= 0x400_0001 * o) by (nonlinear_arith)
        requires
            a * o <= 0x400_0001 * (o * o),
            o > 0,
    ;
}

/// A piece of a row at a latitude that is no nearer to the equator.
proof fn lemma_piece_width(f: F64, g: F64, c: F64, widest: F64, count: int, j: int)
    requires
        0 <= j <= 700,
        f.finite() && !f.negative(),
        g.finite() && !g.negative(),
        c.finite() && !c.negative(),
        widest.finite() && !widest.negative(),
        f.units() <= 0x400_0000 * cast::one(),
        g.units() <= 0x400_0000 * cast::one(),
        c.units() <= widest.units() <= cast::one(),
        cast::one() <= 0x10_0000 * widest.units(),
        excess::within_parts(f.units() * count, g.units(), j),
        cast::one() * count <= 0x4_0000_0000 * g.units(),
        count >= 1,
    ensures
        ({
            let (w, v) = (arith::product(f, c), arith::product(g, widest));
            &&& w.finite() && !w.negative()
            &&& v.finite() && !v.negative()
            &&& w.units() <= 0x400_0001 * cast::one()
            &&& v.units() <= 0x400_0001 * cast::one()
            &&& excess::within_parts(w.units() * count, v.units(), j + 3)
            &&& 0x4000_0000_0000_0000_0000_0000_0000int <= v.units()
        }),
{
    let o = cast::one();
    let h = HIDDEN_BIT as int;
    let big = 0x1_0000_0000_0000_0000_0000_0000_0000_0000_0000_0000_0000_0000int;
    excess::lemma_weight_of_one();
    lemma_width(f, c);
    lemma_width(g, widest);
    let (x, y) = (f.units(), g.units());
    let (a, b) = (c.units(), widest.units());
    let (w, v) = (arith::product(f, c).units(), arith::product(g, widest).units());
    assert(big * count <= o * count) by (nonlinear_arith)
        requires
            big <= o,
            count >= 1,
    ;
    // The whole width is far from nothing.
    let k = 0x1_0000_0000_0000_0000_0000_0000_0000int * count;
    assert(k * o <= y * b) by (nonlinear_arith)
        requires
            0x10_0000 * k <= y,
            o <= 0x10_0000 * b,
            k >= 0,
            o > 0,
    {
        assert((0x10_0000 * k) * b <= y * b) by (nonlinear_arith)
            requires
                0x10_0000 * k <= y,
                b >= 0,
        ;
        assert((0x10_0000 * k) * b == k * (0x10_0000 * b)) by (nonlinear_arith);
        assert(k * o <= k * (0x10_0000 * b)) by (nonlinear_arith)
            requires
                k >= 0,
                o <= 0x10_0000 * b,
        ;
    }
    excess::lemma_close_times(w * o, x * a, o, count);
    excess::lemma_times(x * count, y, j, b);
    assert((x * a) * count <= (x * count) * b) by (nonlinear_arith)
        requires
            x >= 0,
            a <= b,
            count >= 1,
    ;
    assert((x * a) * count >= 0) by (nonlinear_arith)
        requires
            x * a >= 0,
            count >= 1,
    ;
    assert(((x * a) * count) * 0x10_0000 <= ((x * count) * b) * 0x10_0000);
    assert(h * (o * count) <= k * o) by (nonlinear_arith)
        requires
            h * count <= k,
            o > 0,
    ;
    excess::lemma_close_above((w * o) * count, (x * a) * count, o * count, y * b, j);
    assert(h * o <= h * (o * count)) by (nonlinear_arith)
        requires
            count >= 1,
            o > 0,
            h > 0,
    ;
    excess::lemma_close_below(v * o, y * b, o);
    assert((w * o) * count == (w * count) * o) by (nonlinear_arith);
    assert(v * o >= 0) by (nonlinear_arith)
        requires
            v >= 0,
            o > 0,
    ;
    excess::lemma_chain((w * count) * o, y * b, v * o, j + 1, 1);
    excess::lemma_cancel(w * count, v, j + 3, o);
    assert(k <= 2 * v) by (nonlinear_arith)
        requires
            k * o <= y * b,
            (y * b) * 0x10_0000 <= (v * o) * (0x10_0000 + 1),
            v * o >= 0,
            o > 0,
    {
        assert(k * o <= 2 * (v * o));
        assert(2 * (v * o) == (2 * v) * o) by (nonlinear_arith);
        assert(k <= 2 * v) by (nonlinear_arith)
            requires
                k * o <= (2 * v) * o,
                o > 0,
        ;
    }
}

/// The limit in square meters, and the side of its square.
proof fn lemma_side(max_area: F64)
    requires
        max_area.finite(),
        0 < max_area.units() <= 0x4000_0000 * cast::one(),
    ensures
        ({
            let o = cast::one();
            let t = arith::product(
                max_area,
                cast::of_integer(tiling::SQUARE_METERS as int),
            ).units();
            let s = tiling::side(max_area);
            &&& s.finite() && !s.negative()
            &&& 0 < s.units() <= 0x8000_0000 * o
            &&& t >= 0
            &&& excess::within_parts(s.units() * s.units(), t * o, 1)
            &&& error::is_close(t * o, max_area.units() * (1_000_000 * o), o)
        }),
{
    let o = cast::one();
    let h = HIDDEN_BIT as int;
    lemma2_to64_rest();
    excess::lemma_weight_of_one();
    error::lemma_integer_value(1_000_000);
    let n = cast::of_integer(1_000_000);
    let x = max_area.units();
    let k = 1_000_000 * o;
    let q = o * o;
    let p = x * k;
    assert(1_000_000 * o <= p <= 0x4_0000_0000_0000 * q) by (nonlinear_arith)
        requires
            p == x * k,
            k == 1_000_000 * o,
            q == o * o,
            0 < x <= 0x4000_0000 * o,
            o > 0,
    ;
    assert(error::limit() * o == 0x1000_0000_0000_0000 * q) by (nonlinear_arith)
        requires
            error::limit() == o * 0x1000_0000_0000_0000,
            q == o * o,
    ;
    assert(h * o <= q) by (nonlinear_arith)
        requires
            h <= o,
            o > 0,
            q == o * o,
    ;
    error::lemma_product_close(max_area, n);
    let a = arith::product(max_area, n);
    let t = a.units();
    lemma_product_sign(max_area, n);
    let v = t * o;
    assert(0 < v <= 0x8_0000_0000_0000 * q) by (nonlinear_arith)
        requires
            (v - p) * (2 * h) <= p + h * o,
            (p - v) * (2 * h) <= p + h * o,
            1_000_000 * o <= p <= 0x4_0000_0000_0000 * q,
            h * o <= q,
            h == 0x10_0000_0000_0000,
            o > 0,
    ;
    assert(0 < t <= 0x8_0000_0000_0000 * o) by (nonlinear_arith)
        requires
            0 < t * o <= 0x8_0000_0000_0000 * (o * o),
            o > 0,
    ;
    excess::lemma_root_above(a);
    let s = tiling::side(max_area).units();
    let w = s * s;
    assert(w <= 0x10_0000_0000_0000 * q) by (nonlinear_arith)
        requires
            w * 0x10_0000 <= v * (0x10_0000 + 1),
            0 < v <= 0x8_0000_0000_0000 * q,
    ;
    assert(s <= 0x8000_0000 * o) by (nonlinear_arith)
        requires
            s * s <= 0x10_0000_0000_0000 * (o * o),
            o > 0,
            s > 0,
    {
        if s > 0x8000_0000 * o {
            assert(s * s > (0x8000_0000 * o) * (0x8000_0000 * o)) by (nonlinear_arith)
                requires
                    s > 0x8000_0000 * o,
                    o > 0,
            ;
            assert((0x8000_0000 * o) * (0x8000_0000 * o) == 0x4000_0000_0000_0000 * (o * o))
                by (nonlinear_arith);
        }
    }
}

/// The smallest cosine, as a value.
proof fn lemma_smallest_cosine()
    ensures
        ({
            let c = F64 { bits: tiling::SMALLEST_COSINE_BITS };
            &&& c.finite() && !c.negative()
            &&& cast::one() <= 0x10_0000 * c.units()
            &&& c.units() <= cast::one()
        }),
{
    let c = F64 { bits: tiling::SMALLEST_COSINE_BITS };
    let h = HIDDEN_BIT as nat;
    let m = c.magnitude();
    laws::lemma_scale_power(1003);
    laws::lemma_scale_power(1023);
    binary64::lemma_scale_order(1003 * h, m);
    binary64::lemma_scale_order(m, 1023 * h);
    lemma2_to64();
    lemma_pow2_adds(1054, 20);
}

/// A cosine that is kept away from zero.
proof fn lemma_safe_cosine(c: F64)
    requires
        c.finite(),
        0 <= c.units() <= cast::one(),
    ensures
        ({
            let w = tiling::safe(c);
            &&& w.finite() && !w.negative()
            &&& c.units() <= w.units() <= cast::one()
            &&& cast::one() <= 0x10_0000 * w.units()
        }),
{
    lemma_smallest_cosine();
    laws::lemma_signed(false, c.magnitude());
    laws::lemma_made_of_parts(c);
    assert(binary64::scale(c.magnitude()) == c.units());
}

/// A side that the counts were made with is not too small.
proof fn lemma_side_is_large(s: int, count: int, l: int, o: int)
    requires
        s > 0,
        count >= 1,
        o >= 0x1_0000_0000_0000_0000_0000_0000_0000_0000_0000_0000_0000_0000int,
        o * count <= 0x4_0000_0000 * l,
        excess::within_parts(l, count * s, 1),
    ensures
        HIDDEN_BIT * (1_000_000 * o) <= s * s,
        s * s * 0x40_0000_0000_0000_0000 >= o * o,
{
    let h = HIDDEN_BIT as int;
    let p = count * s;
    assert(p >= 0) by (nonlinear_arith)
        requires
            p == count * s,
            count >= 1,
            s > 0,
    ;
    assert(l <= 2 * p);
    assert(o * count <= 0x8_0000_0000 * p);
    assert(o <= 0x8_0000_0000 * s) by (nonlinear_arith)
        requires
            o * count <= 0x8_0000_0000 * (count * s),
            count >= 1,
    ;
    assert(o * o <= (0x8_0000_0000 * s) * (0x8_0000_0000 * s)) by (nonlinear_arith)
        requires
            0 < o <= 0x8_0000_0000 * s,
    ;
    assert((0x8_0000_0000 * s) * (0x8_0000_0000 * s) == s * s * 0x40_0000_0000_0000_0000) by (nonlinear_arith);
    assert(h * (1_000_000 * o) * 0x40_0000_0000_0000_0000 <= o * o) by (nonlinear_arith)
        requires
            h == 0x10_0000_0000_0000,
            o >= 0x1_0000_0000_0000_0000_0000_0000_0000_0000_0000_0000_0000_0000int,
    ;
}

/// A box is no larger than the globe.
proof fn lemma_any_area(edges: Edges, c: F64)
    requires
        edges.valid(),
        c.finite() && !c.negative(),
        c.units() <= cast::one(),
    ensures
        edges.area(c).finite(),
        edges.area(c).units() <= 0x4000_0000 * cast::one(),
{
    let o = cast::one();
    let h = HIDDEN_BIT as int;
    excess::lemma_weight_of_one();
    let height = tiling::meters(edges.lat_span());
    let g = tiling::meters(edges.lng_span());
    lemma_length(edges.min_lat, edges.max_lat, 90);
    lemma_length(edges.min_lng, edges.max_lng, 180);
    lemma_width(g, c);
    let w = arith::product(g, c).units();
    let (x, y) = (g.units(), c.units());
    let (b1, b2) = (40_075_200 * o, 20_037_600 * o);
    excess::lemma_times(x, b1, 2, o);
    assert((x * y) * 0x10_0000 <= (x * o) * 0x10_0000);
    assert(h * o <= b1 * o) by (nonlinear_arith)
        requires
            h <= b1,
            o > 0,
    ;
    excess::lemma_close_above(w * o, x * y, o, b1 * o, 2);
    excess::lemma_cancel(w, b1, 3, o);
    assert(h * (1_000_000 * o) <= b1 * b2) by (nonlinear_arith)
        requires
            b1 == 40_075_200 * o,
            b2 == 20_037_600 * o,
            h <= o,
            o > 0,
    ;
    lemma_area(edges, c, b1, 3, b2, 2);
    let a = edges.area(c).units();
    assert(a <= 0x4000_0000 * o) by (nonlinear_arith)
        requires
            (a * (1_000_000 * o)) * 0x10_0000 <= (b1 * b2) * (0x10_0000 + 8),
            b1 == 40_075_200 * o,
            b2 == 20_037_600 * o,
            o > 0,
    {
        let q = o * o;
        assert(b1 * b2 == 803_010_827_520_000 * q) by (nonlinear_arith)
            requires
                b1 == 40_075_200 * o,
                b2 == 20_037_600 * o,
                q == o * o,
        ;
        assert(a * (1_000_000 * o) == 1_000_000 * (a * o)) by (nonlinear_arith);
        assert(q >= 0) by (nonlinear_arith)
            requires
                q == o * o,
        ;
        assert(a * o <= 0x4000_0000 * q);
        assert(a <= 0x4000_0000 * o) by (nonlinear_arith)
            requires
                a * o <= 0x4000_0000 * (o * o),
                o > 0,
        ;
    }
}

/// The length of an axis in meters is no more than that of the globe.
proof fn lemma_length(start: F64, end: F64, bound: int)
    requires
        bound == 90 || bound == 180,
        llpoint::within(start, bound),
        llpoint::within(end, bound),
        start.below(end),
    ensures
        ({
            let f = tiling::meters(arith::difference(end, start));
            &&& f.finite() && !f.negative()
            &&& 0 <= f.units() <= 0x400_0000 * cast::one()
            &&& excess::within_parts(f.units(), (bound * 222_640) * cast::one(), 2)
        }),
{
    let o = cast::one();
    let h = HIDDEN_BIT as int;
    let c = tiling::METERS_PER_DEGREE as int;
    lemma2_to64_rest();
    excess::lemma_weight_of_one();
    error::lemma_integer_value(bound);
    error::lemma_integer_value(-bound);
    tiling::lemma_span(start, end, bound);
    let n = end.units() - start.units();
    let top = (2 * bound) * o;
    assert(n <= top) by (nonlinear_arith)
        requires
            n <= bound * o - (-bound) * o,
            top == (2 * bound) * o,
    ;
    assert(o <= top) by (nonlinear_arith)
        requires
            top == (2 * bound) * o,
            bound >= 1,
            o > 0,
    ;
    error::lemma_difference_close(end, start);
    let span = arith::difference(end, start);
    let l = span.units();
    excess::lemma_not_above(n, top, 0);
    excess::lemma_close_above(l, n, 1, top, 0);
    assert(l <= 401 * o);
    lemma_meters(span);
    let f = tiling::meters(span).units();
    let k = c * o;
    excess::lemma_times(l, top, 1, k);
    let b = (bound * 222_640) * o;
    assert(top * k == b * o) by (nonlinear_arith)
        requires
            top == (2 * bound) * o,
            k == 111_320 * o,
            b == (bound * 222_640) * o,
    ;
    assert(o <= b) by (nonlinear_arith)
        requires
            b == (bound * 222_640) * o,
            bound >= 1,
            o > 0,
    ;
    assert(h * o <= b * o) by (nonlinear_arith)
        requires
            h <= b,
            o > 0,
    ;
    assert(l * k >= 0) by (nonlinear_arith)
        requires
            l >= 0,
            k == 111_320 * o,
            o > 0,
    ;
    excess::lemma_close_above(f * o, l * k, o, b * o, 1);
    excess::lemma_cancel(f, b, 2, o);
}

/// From the side of a tile to the limit.
proof fn lemma_from_side_to_limit(a: int, s: int, t: int, x: int, o: int)
    requires
        o >= 0x1_0000_0000_0000_0000_0000_0000_0000_0000_0000_0000_0000_0000int,
        x > 0,
        t >= 0,
        s * s * 0x40_0000_0000_0000_0000 >= o * o,
        excess::within_parts(a * (1_000_000 * o), s * s, 975),
        excess::within_parts(s * s, t * o, 1),
        error::is_close(t * o, x * (1_000_000 * o), o),
    ensures
        a * 1000 <= x * 1001,
{
    let h = HIDDEN_BIT as int;
    let k = 1_000_000 * o;
    let (v, n, q) = (t * o, x * k, s * s);
    assert(v >= 0) by (nonlinear_arith)
        requires
            v == t * o,
            t >= 0,
            o > 0,
    ;
    assert(n >= 0) by (nonlinear_arith)
        requires
            n == x * k,
            x > 0,
            k == 1_000_000 * o,
            o > 0,
    ;
    excess::lemma_chain(a * k, q, v, 975, 1);
    assert(h * o * 0x1000_0000_0000_0000_0000 <= o * o) by (nonlinear_arith)
        requires
            h == 0x10_0000_0000_0000,
            o >= 0x1_0000_0000_0000_0000_0000_0000_0000_0000_0000_0000_0000_0000int,
    ;
    assert(h * o <= n) by (nonlinear_arith)
        requires
            (v - n) * (2 * h) <= n + h * o,
            q * 0x10_0000 <= v * (0x10_0000 + 1),
            q * 0x40_0000_0000_0000_0000 >= o * o,
            h * o * 0x1000_0000_0000_0000_0000 <= o * o,
            h == 0x10_0000_0000_0000,
            n >= 0,
    ;
    excess::lemma_not_above(n, n, 0);
    excess::lemma_close_above(v, n, o, n, 0);
    excess::lemma_chain(a * k, v, n, 977, 1);
    excess::lemma_cancel(a, x, 979, k);
    assert(a * 1000 <= x * 1001) by (nonlinear_arith)
        requires
            a * 0x10_0000 <= x * (0x10_0000 + 979),
            x > 0,
    ;
}

/// A tile of a grid that was made for a limit below the area of the globe.
proof fn lemma_tile_of_small_limit(
    edges: Edges,
    max_area: F64,
    mid: F64,
    widest: F64,
    c: F64,
    r: int,
    i: int,
)
    requires
        edges.valid(),
        max_area.finite(),
        0 < max_area.units() <= 0x4000_0000 * cast::one(),
        c.finite() && !c.negative(),
        widest.finite(),
        c.units() <= widest.units() <= cast::one(),
        ({
            let grid = Grid::of(edges, max_area, mid, widest);
            &&& grid.is_coarse()
            &&& grid.cols == tiling::cols_at(edges, max_area, widest)
            &&& 0 <= r < grid.rows
            &&& 0 <= i < grid.cols
            &&& grid.cell(r, i).valid()
        }),
    ensures
        ({
            let a = Grid::of(edges, max_area, mid, widest).cell(r, i).area(c);
            a.finite() && a.units() * 1000 <= max_area.units() * 1001
        }),
{
    let o = cast::one();
    let grid = Grid::of(edges, max_area, mid, widest);
    let cell = grid.cell(r, i);
    let (rows, cols) = (grid.rows, grid.cols);
    let w = tiling::safe(widest);
    excess::lemma_weight_of_one();
    lemma_safe_cosine(widest);
    lemma_side(max_area);
    let d = tiling::side(max_area);
    let s = d.units();
    // The height.
    lemma_piece(edges.min_lat, edges.max_lat, 90, rows, r);
    lemma_piece_in_meters(cell.lat_span(), edges.lat_span(), rows, 322);
    let (f, l) = (tiling::meters(cell.lat_span()), tiling::meters(edges.lat_span()));
    assert(o * 1 <= o * rows) by (nonlinear_arith)
        requires
            rows >= 1,
            o > 0,
    ;
    lemma_pieces(l, d);
    lemma_side_is_large(s, rows, l.units(), o);
    lemma_share(f.units(), rows, l.units(), s, 325);
    // The width.
    lemma_piece(edges.min_lng, edges.max_lng, 180, cols, i);
    lemma_piece_in_meters(cell.lng_span(), edges.lng_span(), cols, 637);
    let (g, m) = (tiling::meters(cell.lng_span()), tiling::meters(edges.lng_span()));
    lemma_piece_width(g, m, c, w, cols, 640);
    let (x, y) = (arith::product(g, c), arith::product(m, w));
    lemma_pieces(y, d);
    lemma_share(x.units(), cols, y.units(), s, 643);
    lemma_area(cell, c, s, 645, s, 327);
    let t = arith::product(max_area, cast::of_integer(tiling::SQUARE_METERS as int)).units();
    lemma_from_side_to_limit(cell.area(c).units(), s, t, max_area.units(), o);
}

/// A tile of a grid whose tiles fit as they are: the measure that was taken of its
/// steps bounds the tile.
proof fn lemma_tile_of_fitting_steps(grid: Grid, max_area: F64, widest: F64, c: F64, r: int, i: int)
    requires
        grid.valid(),
        grid.is_coarse(),
        c.finite() && !c.negative(),
        widest.finite(),
        c.units() <= widest.units() <= cast::one(),
        tiling::fits(grid.edges, grid.rows, grid.cols, max_area, widest),
        0 <= r < grid.rows,
        0 <= i < grid.cols,
        grid.cell(r, i).valid(),
    ensures
        ({
            let a = grid.cell(r, i).area(c);
            a.finite() && a.units() * 1000 <= max_area.units() * 1001
        }),
{
    let o = cast::one();
    let edges = grid.edges;
    let cell = grid.cell(r, i);
    let w = tiling::safe(widest);
    excess::lemma_weight_of_one();
    lemma_safe_cosine(widest);
    let d = tiling::step(edges.min_lat, edges.max_lat, grid.rows);
    let e = tiling::step(edges.min_lng, edges.max_lng, grid.cols);
    lemma_piece(edges.min_lat, edges.max_lat, 90, grid.rows, r);
    lemma_piece(edges.min_lng, edges.max_lng, 180, grid.cols, i);
    assert(o * 1 == o);
    lemma_piece_in_meters(cell.lat_span(), d, 1, 320);
    lemma_piece_in_meters(cell.lng_span(), e, 1, 635);
    let (f, m) = (tiling::meters(cell.lng_span()), tiling::meters(e));
    lemma_piece_width(f, m, c, w, 1, 638);
    let (v, y) = (arith::product(m, w), tiling::meters(d));
    let (b1, b2) = (v.units(), y.units());
    lemma_product_is_large(b1, b2, o);
    lemma_area(cell, c, b1, 641, b2, 323);
    lemma_measure(v, y, e, d, w);
    let k = 1_000_000 * o;
    let (a, q) = (cell.area(c).units(), tiling::ground(e, d, w).units());
    assert(q * k >= 0) by (nonlinear_arith)
        requires
            q >= 0,
            k > 0,
    ;
    excess::lemma_chain(a * k, b1 * b2, q * k, 967, 3);
    excess::lemma_cancel(a, q, 971, k);
    assert(a * 1000 <= max_area.units() * 1001) by (nonlinear_arith)
        requires
            a * 0x10_0000 <= q * (0x10_0000 + 971),
            0 <= q <= max_area.units(),
    ;
}

proof fn lemma_product_is_large(b1: int, b2: int, o: int)
    requires
        o > 0,
        0x4000_0000_0000_0000_0000_0000_0000int <= b1,
        o <= 0x4_0000_0000 * b2,
    ensures
        HIDDEN_BIT * (1_000_000 * o) * 8 <= b1 * b2,
        HIDDEN_BIT * (1_000_000 * o) <= b1 * b2,
        HIDDEN_BIT * o <= b1 * b2,
{
    let big = 0x4000_0000_0000_0000_0000_0000_0000int;
    assert(big * b2 <= b1 * b2) by (nonlinear_arith)
        requires
            big <= b1,
            b2 > 0,
    ;
    assert(HIDDEN_BIT * (1_000_000 * o) == (HIDDEN_BIT * 1_000_000) * o) by (nonlinear_arith);
}

/// The measure of a tile is not below the exact one but for rounding.
proof fn lemma_measure(v: F64, y: F64, e: F64, d: F64, w: F64)
    requires
        v == arith::product(tiling::meters(e), w),
        y == tiling::meters(d),
        v.finite() && !v.negative(),
        y.finite() && !y.negative(),
        v.units() <= 0x400_0001 * cast::one(),
        y.units() <= 0x400_0000 * cast::one(),
        HIDDEN_BIT * (1_000_000 * cast::one()) * 8 <= v.units() * y.units(),
        HIDDEN_BIT * cast::one() <= v.units() * y.units(),
    ensures
        ({
            let q = tiling::ground(e, d, w);
            &&& q.finite() && !q.negative()
            &&& excess::within_parts(
                v.units() * y.units(),
                q.units() * (1_000_000 * cast::one()),
                3,
            )
        }),
{
    let o = cast::one();
    let h = HIDDEN_BIT as int;
    let k = 1_000_000 * o;
    lemma2_to64_rest();
    excess::lemma_weight_of_one();
    error::lemma_integer_value(1_000_000);
    let (b1, b2) = (v.units(), y.units());
    let b = b1 * b2;
    excess::lemma_not_above(b1, b1, 0);
    excess::lemma_not_above(b2, b2, 0);
    lemma_ground(v, y, b1, 0, b2, 0);
    let p = arith::product(v, y);
    let a = p.units();
    assert(b <= error::limit() * o) by (nonlinear_arith)
        requires
            b == b1 * b2,
            0 <= b1 <= 0x400_0001 * o,
            0 <= b2 <= 0x400_0000 * o,
            error::limit() == o * 0x1000_0000_0000_0000,
            o > 0,
    ;
    error::lemma_product_close(v, y);
    excess::lemma_close_below(a * o, b, o);
    laws::lemma_made_of_parts(p);
    assert(p.unsigned() == p);
    assert(a * o <= error::limit() * k) by (nonlinear_arith)
        requires
            a <= 0x40_0000_0000_0000 * o,
            error::limit() == o * 0x1000_0000_0000_0000,
            k == 1_000_000 * o,
            o > 0,
    ;
    let n = cast::of_integer(1_000_000);
    error::lemma_quotient_close(p, n);
    let q = tiling::ground(e, d, w);
    assert(a * o >= 0) by (nonlinear_arith)
        requires
            a >= 0,
            o > 0,
    ;
    assert(h * k <= a * o) by (nonlinear_arith)
        requires
            h * k * 8 <= b,
            b * 0x10_0000 <= (a * o) * (0x10_0000 + 1),
            a * o >= 0,
    ;
    excess::lemma_close_below(q.units() * k, a * o, k);
    lemma_nearest_is_no_nan(a * o, k);
    binary64::lemma_scale_order(n.magnitude(), 0);
    laws::lemma_signed(false, round::nearest(a * o, k));
    assert(q == binary64::signed(false, round::nearest(a * o, k)));
    assert(q.units() * k >= 0) by (nonlinear_arith)
        requires
            q.units() >= 0,
            k > 0,
    ;
    excess::lemma_chain(b, a * o, q.units() * k, 1, 1);
}

/// A piece of a length that was cut into as many pieces as sides cover it.
proof fn lemma_share(x: int, count: int, l: int, s: int, j: int)
    requires
        count >= 1,
        s > 0,
        0 <= j <= 700,
        excess::within_parts(x * count, l, j),
        excess::within_parts(l, count * s, 1),
    ensures
        excess::within_parts(x, s, j + 2),
{
    assert(count * s == s * count) by (nonlinear_arith);
    assert(s * count >= 0) by (nonlinear_arith)
        requires
            s > 0,
            count >= 1,
    ;
    excess::lemma_chain(x * count, l, s * count, j, 1);
    excess::lemma_cancel(x, s, j + 2, count);
}

/// No tile is larger than the limit by more than its thousandth part, wherever its
/// width is measured: at any latitude that is no nearer to the equator than the one
/// whose cosine the grid was made with.
pub proof fn law_tiles_are_within_the_limit(
    edges: Edges,
    max_area: F64,
    cos_mid: F64,
    cos_widest: F64,
    cosine: F64,
    t: int,
)
    requires
        edges.valid(),
        cast::of_integer(0).below(max_area),
        cast::of_integer(0).at_most(cosine),
        cosine.at_most(cos_widest),
        cos_widest.at_most(cast::of_integer(1)),
        Grid::of(edges, max_area, cos_mid, cos_widest).is_coarse(),
        0 <= t < Grid::of(edges, max_area, cos_mid, cos_widest).all().len(),
    ensures
        ({
            let area = Grid::of(edges, max_area, cos_mid, cos_widest).all()[t].area(cosine);
            area.finite() && area.units() * 1000 <= max_area.units() * 1001
        }),
{
    let o = cast::one();
    let grid = Grid::of(edges, max_area, cos_mid, cos_widest);
    let tile = grid.all()[t];
    excess::lemma_weight_of_one();
    lemma2_to64();
    lemma2_to64_rest();
    error::lemma_integer_value(0);
    assert(0 * o == 0);
    laws::lemma_one();
    let (row, col) = grid.lemma_tile_place(t);
    lemma_infinity_is_large();
    assert(cosine.finite() && cos_widest.finite());
    if cosine.magnitude() == 0 {
        lemma_length(tile.min_lat, tile.max_lat, 90);
        lemma_length(tile.min_lng, tile.max_lng, 180);
        lemma_no_width(tile, cosine);
    } else {
        binary64::lemma_scale_order(cosine.magnitude(), 0);
        let cols = tiling::cols_at(edges, max_area, cos_mid);
        if tiling::fits(edges, grid.rows, cols, max_area, cos_widest) {
            lemma_tile_of_fitting_steps(grid, max_area, cos_widest, cosine, row, col);
        } else if max_area.units() > 0x4000_0000 * o {
            lemma_any_area(tile, cosine);
        } else {
            lemma_tile_of_small_limit(edges, max_area, cos_mid, cos_widest, cosine, row, col);
        }
    }
}

/// A box without a width has no area.
proof fn lemma_no_width(edges: Edges, c: F64)
    requires
        c.magnitude() == 0,
        tiling::meters(edges.lng_span()).finite(),
        tiling::meters(edges.lat_span()).finite(),
    ensures
        edges.area(c).finite(),
        edges.area(c).units() == 0,
{
    lemma2_to64_rest();
    excess::lemma_weight_of_one();
    let g = tiling::meters(edges.lng_span());
    let h = tiling::meters(edges.lat_span());
    laws::law_zero_product(c, g);
    let w = arith::product(g, c);
    laws::law_zero_product(w, h);
    let p = arith::product(w, h);
    laws::lemma_signed(false, 0);
    error::lemma_integer_value(1_000_000);
    let n = cast::of_integer(1_000_000);
    binary64::lemma_scale_order(n.magnitude(), 0);
    laws::law_zero_quotient(p.unsigned(), n);
    assert(binary64::scale(0) == 0);
}

} // verus!
