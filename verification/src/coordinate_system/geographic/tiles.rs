//! What cutting a box gives: tiles that make up the box, few and even.

use vstd::prelude::*;
use vstd::arithmetic::power2::*;
use crate::binary64;
use crate::binary64::{F64, HIDDEN_BIT};
use crate::binary64::arith;
use crate::binary64::cast;
use crate::binary64::error;
use crate::binary64::exact;
use crate::binary64::excess;
use crate::binary64::laws;
use crate::coordinate_system::angle;
use crate::coordinate_system::geographic::llbbox::{Edges, LLBBox};
use crate::coordinate_system::geographic::llpoint;
use crate::coordinate_system::geographic::tile_area;
use crate::coordinate_system::geographic::tiling;
use crate::coordinate_system::geographic::tiling::Grid;
use crate::coordinate_system::positions;
use crate::coordinate_system::transformation;

verus! {

/// The tiles of a box make up the box: every point of the box lies in a tile, a point of a
/// tile lies in the box, and what lies inside a tile lies in no other. The first starts in
/// the south-west corner of the box, and the last ends in the north-east corner.
pub proof fn law_tiles_make_up_the_box(
    bbox: LLBBox,
    max_area: F64,
    cos_mid: F64,
    cos_widest: F64,
    tiles: Vec<LLBBox>,
    s: int,
    t: int,
    lat: F64,
    lng: F64,
)
    requires
        bbox@.valid(),
        call_ensures(LLBBox::split_into_grid, (&bbox, max_area, cos_mid, cos_widest), tiles),
    ensures
        tiles@.len() > 0,
        bbox@.covers(lat, lng) ==> exists|i: int|
            0 <= i < tiles@.len() && (#[trigger] tiles@[i])@.covers(lat, lng),
        0 <= t < tiles@.len() && tiles@[t]@.covers(lat, lng) ==> bbox@.covers(lat, lng),
        0 <= s < tiles@.len() && 0 <= t < tiles@.len() && s != t && tiles@[s]@.encloses(lat, lng)
            ==> !tiles@[t]@.covers(lat, lng),
        tiles@[0]@.min_lat.same_number(bbox@.min_lat),
        tiles@[0]@.min_lng.same_number(bbox@.min_lng),
        tiles@.last()@.max_lat.same_number(bbox@.max_lat),
        tiles@.last()@.max_lng.same_number(bbox@.max_lng),
{
    let e = tiling::edges_of(tiles@);
    assert(e.len() == tiles@.len());
    assert forall|i: int| 0 <= i < tiles@.len() implies #[trigger] e[i] == tiles@[i]@ by {}
    let g = Grid::of(bbox@, max_area, cos_mid, cos_widest);
    tiling::law_grid_of_a_box_is_valid(bbox@, max_area, cos_mid, cos_widest);
    if e == g.all() {
        g.law_tiles_start_and_end_with_the_box();
        if bbox@.covers(lat, lng) {
            g.law_tiles_leave_no_gap(lat, lng);
            let i = choose|i: int| 0 <= i < g.all().len() && (#[trigger] g.all()[i]).covers(lat, lng);
            assert(tiles@[i]@ == e[i]);
        }
        if 0 <= t < tiles@.len() && tiles@[t]@.covers(lat, lng) {
            assert(e[t] == tiles@[t]@);
            g.law_tiles_stay_inside(t, lat, lng);
        }
        if 0 <= s < tiles@.len() && 0 <= t < tiles@.len() && s != t && tiles@[s]@.encloses(lat, lng) {
            assert(e[t] == tiles@[t]@ && e[s] == tiles@[s]@);
            g.law_tiles_do_not_overlap(s, t, lat, lng);
        }
        assert(e[0] == tiles@[0]@);
        assert(e.last() == tiles@.last()@);
    } else {
        assert(e[0] == bbox@);
        assert(tiles@[0]@ == bbox@);
    }
}

/// A box is its own only tile if its area, as it is measured, is within the limit, or if the
/// limit is not positive.
pub proof fn law_small_boxes_are_their_only_tile(
    bbox: LLBBox,
    max_area: F64,
    cos_mid: F64,
    cos_widest: F64,
    area: F64,
    tiles: Vec<LLBBox>,
)
    requires
        !max_area.nan(),
        call_ensures(LLBBox::area_km2, (&bbox, cos_mid), area),
        call_ensures(LLBBox::split_into_grid, (&bbox, max_area, cos_mid, cos_widest), tiles),
        max_area.units() <= 0 || (!area.nan() && area.units() <= max_area.units()),
    ensures
        tiles@.len() == 1,
        tiles@[0]@ == bbox@,
{
    lemma2_to64_rest();
    error::lemma_integer_value(0);
    assert(0 * cast::one() == 0);
    let e = tiling::edges_of(tiles@);
    assert(e.len() == tiles@.len());
    assert(e[0] == bbox@);
}

/// No tile of a box that is larger than the limit is larger than the limit by more than its
/// thousandth part, measured at any latitude that is no nearer to the equator than the
/// widest row.
pub proof fn law_tiles_are_small(
    bbox: LLBBox,
    max_area: F64,
    cos_mid: F64,
    cos_widest: F64,
    whole: F64,
    tiles: Vec<LLBBox>,
    t: int,
    cosine: F64,
    area: F64,
)
    requires
        bbox@.valid(),
        cast::of_integer(0).below(max_area),
        cast::of_integer(0).at_most(cosine),
        cosine.at_most(cos_widest),
        cos_widest.at_most(cast::of_integer(1)),
        Grid::of(bbox@, max_area, cos_mid, cos_widest).is_coarse(),
        call_ensures(LLBBox::area_km2, (&bbox, cos_mid), whole),
        !whole.at_most(max_area),
        call_ensures(LLBBox::split_into_grid, (&bbox, max_area, cos_mid, cos_widest), tiles),
        0 <= t < tiles@.len(),
        call_ensures(LLBBox::area_km2, (&tiles@[t], cosine), area),
    ensures
        area.finite(),
        area.units() * 1000 <= max_area.units() * 1001,
{
    let e = tiling::edges_of(tiles@);
    let g = Grid::of(bbox@, max_area, cos_mid, cos_widest);
    assert(e.len() == tiles@.len());
    assert(e[t] == tiles@[t]@);
    assert(e == g.all());
    tile_area::law_tiles_are_within_the_limit(bbox@, max_area, cos_mid, cos_widest, cosine, t);
}

/// Whether `count` pieces are as few as cover `q` sides, at least one.
pub open spec fn is_fewest(count: int, q: F64) -> bool {
    let o = cast::one();
    &&& count >= 1
    &&& count == 1 || (count - 1) * o < q.units()
    &&& q.units() <= count * o
}

proof fn lemma_pieces(length: F64, side: F64)
    requires
        arith::quotient(length, side).finite(),
        arith::absolute(arith::quotient(length, side).units()) <= 0xffff_ffff * cast::one(),
    ensures
        is_fewest(tiling::pieces(length, side), arith::quotient(length, side)),
{
    let q = arith::quotient(length, side);
    let (o, u) = (cast::one(), q.units());
    excess::lemma_weight_of_one();
    let c = cast::ceiled(q);
    vstd::arithmetic::div_mod::lemma_fundamental_div_mod(-u, o);
    assert(o * ((-u) / o) == -(c * o)) by (nonlinear_arith)
        requires
            c == -((-u) / o),
    ;
    assert((c - 1) * o == c * o - o && (c + 1) * o == c * o + o) by (nonlinear_arith);
    assert(0xffff_ffff * o <= 0x1_0000_0000_0000 * o) by (nonlinear_arith)
        requires
            o > 0,
    ;
    exact::lemma_whole_number(q, c);
    let w = cast::with_whole(q, c);
    assert(c <= 0xffff_ffff) by (nonlinear_arith)
        requires
            c * o - o < u <= 0xffff_ffff * o,
            o > 0,
    ;
    let v = binary64::scale(w.magnitude()) as int;
    let n = arith::absolute(c);
    assert((-c) * o == -(c * o)) by (nonlinear_arith);
    assert(v == n * o);
    vstd::arithmetic::div_mod::lemma_div_multiples_vanish(n, o);
    assert(o * n == n * o) by (nonlinear_arith);
    assert(cast::truncated(w) == c) by {
        if c != 0 {
            assert(c * o != 0) by (nonlinear_arith)
                requires
                    c != 0,
                    o > 0,
            ;
        }
    }
    if c < 1 {
        assert(c * o <= 0) by (nonlinear_arith)
            requires
                c <= 0,
                o > 0,
        ;
        assert(1 * o == o);
    }
}

/// The number nearest to a value is not past an integer that the value is not past.
proof fn lemma_no_further(r: F64, n: int, d: int, k: int)
    requires
        exact::is_nearest_number(r, n, d),
        d > 0,
        -0x1_0000_0000_0000 <= k <= 0x1_0000_0000_0000,
    ensures
        !r.nan(),
        n <= (k * cast::one()) * d ==> r.units() <= k * cast::one(),
        n >= (k * cast::one()) * d ==> r.units() >= k * cast::one(),
{
    reveal(exact::is_nearest_number);
    lemma2_to64_rest();
    error::lemma_integer_value(k);
    let y = cast::of_integer(k);
    let (u, v) = (y.units(), r.units());
    assert(!y.nan());
    if n <= u * d && v > u {
        assert(false) by (nonlinear_arith)
            requires
                (u + v) * d <= 2 * n,
                n <= u * d,
                v > u,
                d > 0,
        ;
    }
    if n >= u * d && v < u {
        assert(false) by (nonlinear_arith)
            requires
                (u + v) * d >= 2 * n,
                n >= u * d,
                v < u,
                d > 0,
        ;
    }
}

/// What lies between integers is finite.
proof fn lemma_between_integers(r: F64, k: int)
    requires
        !r.nan(),
        0 <= r.units() <= k * cast::one(),
        0 <= k <= 0x1_0000_0000_0000,
    ensures
        r.finite(),
{
    lemma2_to64_rest();
    error::lemma_integer_value(k);
    let top = binary64::INFINITY_BITS as nat;
    binary64::lemma_scale_order(r.magnitude(), top);
    binary64::lemma_scale_order(cast::of_integer(k).magnitude(), top);
}

/// The side of a square of the limit's area, step by step: the area in square meters, and
/// its root.
proof fn lemma_side(max_area: F64) -> (square: F64)
    requires
        is_limit(max_area),
    ensures
        exact::is_nearest_number(
            square,
            max_area.units() * (1_000_000 * cast::one()),
            cast::one(),
        ),
        exact::is_root(tiling::side(max_area), square),
        tiling::side(max_area).finite(),
        tiling::side(max_area).units() >= cast::one(),
{
    let o = cast::one();
    excess::lemma_weight_of_one();
    lemma2_to64_rest();
    error::lemma_integer_value(1_000_000);
    error::lemma_integer_value(1);
    assert(1 * o == o);
    let million = cast::of_integer(1_000_000);
    let u = max_area.units();
    exact::lemma_product(max_area, million);
    let square = arith::product(max_area, million);
    let n = u * (1_000_000 * o);
    assert(n >= (1 * o) * o && n <= (0xf_4240_0000_0000 * o) * o) by (nonlinear_arith)
        requires
            n == u * (1_000_000 * o),
            o <= 1000 * u,
            u <= 0x1_0000_0000 * o,
            o > 0,
    ;
    lemma_no_further(square, n, o, 1);
    let v = square.units();
    assert(u * (1_000_000 * o) <= error::limit() * o) by (nonlinear_arith)
        requires
            0 < u <= 0x1_0000_0000 * o,
            error::limit() == o * 0x1000_0000_0000_0000,
            o > 0,
    ;
    error::lemma_product_close(max_area, million);
    exact::lemma_root(square);
    reveal(exact::is_root);
    let r = tiling::side(max_area);
    let one = cast::of_integer(1);
    assert(!one.nan() && one.units() == o);
    let w = r.units();
    if w < o {
        assert(false) by (nonlinear_arith)
            requires
                (o + w) * (o + w) >= 4 * (v * o),
                0 < w < o,
                v >= o,
                o > 0,
        ;
    }
    square
}

/// Whether an area is a limit that tiles can be cut to: a thousandth of a square kilometer
/// to four billion.
pub open spec fn is_limit(max_area: F64) -> bool {
    &&& max_area.finite()
    &&& cast::one() <= 1000 * max_area.units()
    &&& max_area.units() <= 0x1_0000_0000 * cast::one()
}

/// The length of an axis in meters, step by step: the degrees, and their meters.
proof fn lemma_meters(min: F64, max: F64, bound: int)
    requires
        bound == 90 || bound == 180,
        llpoint::within(min, bound),
        llpoint::within(max, bound),
        min.below(max),
    ensures
        ({
            let span = arith::difference(max, min);
            let length = tiling::meters(span);
            &&& exact::is_nearest_number(span, max.units() - min.units(), 1)
            &&& exact::is_nearest_number(
                length,
                span.units() * (111_320 * cast::one()),
                cast::one(),
            )
            &&& length.finite()
            &&& 0 <= length.units() <= 40_075_200 * cast::one()
        }),
{
    let o = cast::one();
    excess::lemma_weight_of_one();
    lemma2_to64_rest();
    error::lemma_integer_value(111_320);
    llpoint::lemma_of_degrees(min, bound);
    llpoint::lemma_of_degrees(max, bound);
    tiling::lemma_span(min, max, bound);
    let span = arith::difference(max, min);
    exact::lemma_difference(max, min);
    let n = max.units() - min.units();
    assert(0 <= n <= (360 * o) * 1) by (nonlinear_arith)
        requires
            -bound * o <= min.units() < max.units() <= bound * o,
            bound <= 180,
            n == max.units() - min.units(),
            o > 0,
    ;
    lemma_no_further(span, n, 1, 360);
    lemma_no_further(span, n, 1, 0);
    let f = cast::of_integer(111_320);
    exact::lemma_product(span, f);
    let u = span.units();
    let m = u * (111_320 * o);
    assert(0 <= m <= (40_075_200 * o) * o && m >= (0 * o) * o) by (nonlinear_arith)
        requires
            m == u * (111_320 * o),
            0 <= u <= 360 * o,
            o > 0,
    ;
    let length = tiling::meters(span);
    lemma_no_further(length, m, o, 40_075_200);
    lemma_no_further(length, m, o, 0);
    lemma_between_integers(length, 40_075_200);
}

/// How many sides a length is, which is then rounded up.
proof fn lemma_count(length: F64, side: F64)
    requires
        length.finite() && side.finite(),
        0 <= length.units() <= 40_075_200 * cast::one(),
        side.units() >= cast::one(),
    ensures
        exact::is_nearest_number(
            arith::quotient(length, side),
            length.units() * cast::one(),
            side.units(),
        ),
        is_fewest(tiling::pieces(length, side), arith::quotient(length, side)),
{
    let o = cast::one();
    excess::lemma_weight_of_one();
    exact::lemma_quotient(length, side);
    let q = arith::quotient(length, side);
    let (u, s) = (length.units(), side.units());
    assert(u * o <= (40_075_200 * o) * s && u * o >= (0 * o) * s) by (nonlinear_arith)
        requires
            0 <= u <= 40_075_200 * o,
            s >= o,
            o > 0,
    ;
    lemma_no_further(q, u * o, s, 40_075_200);
    lemma_no_further(q, u * o, s, 0);
    lemma_between_integers(q, 40_075_200);
    assert(40_075_200 * o <= 0xffff_ffff * o) by (nonlinear_arith)
        requires
            o > 0,
    ;
    lemma_pieces(length, side);
}

/// A box is cut into the fewest rows that are no higher than the side of a square of the
/// limit's area. The steps are that area in square meters, the side, the degrees and the
/// meters from south to north, and how many sides these are.
pub proof fn law_rows_are_few(
    edges: Edges,
    max_area: F64,
    cos_mid: F64,
    cos_widest: F64,
) -> (steps: (F64, F64, F64, F64, F64))
    requires
        edges.valid(),
        is_limit(max_area),
    ensures
        ({
            let (square, side, degrees, meters, sides) = steps;
            let o = cast::one();
            &&& exact::is_nearest_number(square, max_area.units() * (1_000_000 * o), o)
            &&& exact::is_root(side, square)
            &&& exact::is_nearest_number(degrees, edges.max_lat.units() - edges.min_lat.units(), 1)
            &&& exact::is_nearest_number(meters, degrees.units() * (111_320 * o), o)
            &&& exact::is_nearest_number(sides, meters.units() * o, side.units())
            &&& is_fewest(Grid::of(edges, max_area, cos_mid, cos_widest).rows, sides)
        }),
{
    let square = lemma_side(max_area);
    let side = tiling::side(max_area);
    lemma_meters(edges.min_lat, edges.max_lat, 90);
    let span = arith::difference(edges.max_lat, edges.min_lat);
    let length = tiling::meters(span);
    lemma_count(length, side);
    (square, side, span, length, arith::quotient(length, side))
}

/// Whether `c` is the size of a cosine, but not less than a millionth.
pub open spec fn is_kept_cosine(c: F64, cosine: F64) -> bool {
    let (o, u) = (cast::one(), arith::absolute(cosine.units()));
    &&& c.finite()
    &&& c.units() == u || (u < c.units() && arith::absolute(1_000_000 * c.units() - o)
        * HIDDEN_BIT <= o)
    &&& 2_000_000 * c.units() >= o
}

/// The cosine that a width is computed with.
proof fn lemma_safe(cosine: F64)
    requires
        cosine.finite(),
        -cast::one() <= cosine.units() <= cast::one(),
    ensures
        is_kept_cosine(tiling::safe(cosine), cosine),
        0 <= tiling::safe(cosine).units() <= cast::one(),
{
    let o = cast::one();
    let f = F64 { bits: tiling::SMALLEST_COSINE_BITS };
    let h = HIDDEN_BIT as nat;
    lemma2_to64();
    lemma2_to64_rest();
    lemma_pow2_adds(1002, 60);
    lemma_pow2_adds(1062, 12);
    lemma_pow2_pos(1002);
    let p = pow2(1002) as int;
    assert(f.magnitude() == 0x3eb0_c6f7_a0b5_ed8d);
    assert(f.magnitude() / h == 1003 && f.magnitude() % h == 0xc6f7_a0b5_ed8d);
    let u = f.units();
    assert(u == 0x10_c6f7_a0b5_ed8d * p);
    assert(o == p * 0x1000_0000_0000_0000 * 4096);
    let d = 1_000_000 * u - o;
    assert(-(o) <= d * 0x10_0000_0000_0000 <= o && 2_000_000 * u >= o && u <= o) by (nonlinear_arith)
        requires
            d == 1_000_000 * u - o,
            u == 0x10_c6f7_a0b5_ed8d * p,
            o == p * 0x1000_0000_0000_0000 * 4096,
            p > 0,
    ;
    laws::lemma_signed(false, cosine.magnitude());
    assert((-d) * 0x10_0000_0000_0000 == -(d * 0x10_0000_0000_0000)) by (nonlinear_arith);
}

/// Columns at a latitude are the fewest that are no wider there than the side of a square
/// of the limit's area. The steps are that area in square meters, the side, the degrees and
/// the meters on the equator from west to east, the cosine of the latitude as it is used,
/// the meters there, and how many sides these are.
pub proof fn law_columns_are_few(edges: Edges, max_area: F64, cosine: F64) -> (steps: (
    F64,
    F64,
    F64,
    F64,
    F64,
    F64,
    F64,
))
    requires
        edges.valid(),
        is_limit(max_area),
        cosine.finite(),
        -cast::one() <= cosine.units() <= cast::one(),
    ensures
        ({
            let (square, side, degrees, meters, kept, width, sides) = steps;
            let o = cast::one();
            &&& exact::is_nearest_number(square, max_area.units() * (1_000_000 * o), o)
            &&& exact::is_root(side, square)
            &&& exact::is_nearest_number(degrees, edges.max_lng.units() - edges.min_lng.units(), 1)
            &&& exact::is_nearest_number(meters, degrees.units() * (111_320 * o), o)
            &&& is_kept_cosine(kept, cosine)
            &&& exact::is_nearest_number(width, meters.units() * kept.units(), o)
            &&& exact::is_nearest_number(sides, width.units() * o, side.units())
            &&& is_fewest(tiling::cols_at(edges, max_area, cosine), sides)
        }),
{
    let o = cast::one();
    excess::lemma_weight_of_one();
    let square = lemma_side(max_area);
    let side = tiling::side(max_area);
    lemma_meters(edges.min_lng, edges.max_lng, 180);
    let span = arith::difference(edges.max_lng, edges.min_lng);
    let meters = tiling::meters(span);
    lemma_safe(cosine);
    let kept = tiling::safe(cosine);
    exact::lemma_product(meters, kept);
    let width = arith::product(meters, kept);
    let (u, c) = (meters.units(), kept.units());
    assert(0 <= u * c <= (40_075_200 * o) * o && u * c >= (0 * o) * o) by (nonlinear_arith)
        requires
            0 <= u <= 40_075_200 * o,
            0 <= c <= o,
            o > 0,
    ;
    lemma_no_further(width, u * c, o, 40_075_200);
    lemma_no_further(width, u * c, o, 0);
    lemma_between_integers(width, 40_075_200);
    lemma_count(width, side);
    (square, side, span, meters, kept, width, arith::quotient(width, side))
}

/// Columns are counted at the middle latitude. Only where tiles of these would be larger
/// than the limit at the widest row, they are counted there.
pub proof fn law_columns_are_counted_in_the_middle(
    edges: Edges,
    max_area: F64,
    cos_mid: F64,
    cos_widest: F64,
)
    ensures
        ({
            let g = Grid::of(edges, max_area, cos_mid, cos_widest);
            let (mid, widest) = (
                tiling::cols_at(edges, max_area, cos_mid),
                tiling::cols_at(edges, max_area, cos_widest),
            );
            let tile = tiling::ground(
                arith::quotient(
                    arith::difference(edges.max_lng, edges.min_lng),
                    cast::of_integer(mid),
                ),
                arith::quotient(
                    arith::difference(edges.max_lat, edges.min_lat),
                    cast::of_integer(g.rows),
                ),
                tiling::safe(cos_widest),
            );
            if tile.at_most(max_area) {
                g.cols == mid
            } else {
                g.cols == widest
            }
        }),
{
}

/// The cuts of an axis lie evenly: cut `i` of `count` lies `i` parts of the way from the
/// start to the end.
pub proof fn law_cuts_are_even(start: F64, end: F64, bound: int, count: int, i: int)
    requires
        bound == 90 || bound == 180,
        llpoint::within(start, bound),
        llpoint::within(end, bound),
        start.below(end),
        1 <= count <= 0x1_0000_0000_0000,
        0 <= i <= count,
    ensures
        ({
            let c = tiling::cut(start, end, count, i);
            let n = start.units() * count + i * (end.units() - start.units());
            &&& c.finite()
            &&& positions::is_about(c.units() * count, n, 2000 * (cast::one() * count))
        }),
{
    let (o, h) = (cast::one(), HIDDEN_BIT as int);
    excess::lemma_weight_of_one();
    lemma2_to64_rest();
    llpoint::lemma_of_degrees(start, bound);
    llpoint::lemma_of_degrees(end, bound);
    let (a, b) = (start.units(), end.units());
    let span = b - a;
    assert(-180 * o <= a < b <= 180 * o) by (nonlinear_arith)
        requires
            -bound * o <= a < b <= bound * o,
            bound <= 180,
            o > 0,
    ;
    let n = a * count + i * span;
    if i == count {
        assert(b * count == n) by (nonlinear_arith)
            requires
                n == a * count + i * span,
                i == count,
                span == b - a,
        ;
        assert(2000 * (o * count) >= 0) by (nonlinear_arith)
            requires
                o > 0,
                count > 0,
        ;
        assert(0 * h == 0);
    } else {
        lemma_step(start, end, count);
        let s = tiling::step(start, end, count);
        lemma_steps(s, count, i);
        let t = arith::product(s, cast::of_integer(i));
        let (u, w) = (s.units(), t.units());
        // From the exact value on.
        positions::lemma_scaled(u * count, span, 600 * o, i);
        assert((u * count) * i == (u * i) * count && span * i == i * span) by (nonlinear_arith);
        assert((600 * o) * i <= 600 * (o * count)) by (nonlinear_arith)
            requires
                0 <= i <= count,
                o > 0,
        ;
        positions::lemma_allowed((u * i) * count, i * span, (600 * o) * i, 600 * (o * count));
        positions::lemma_scaled(w, u * i, 500 * o, count);
        assert((500 * o) * count == 500 * (o * count)) by (nonlinear_arith);
        positions::lemma_two_steps(
            w * count,
            (u * i) * count,
            i * span,
            500 * (o * count),
            600 * (o * count),
        );
        error::lemma_sum_close(start, t);
        let v = arith::sum(start, t);
        error::lemma_distance(v.units(), a + w, 1, 500 * o);
        positions::lemma_scaled(v.units(), a + w, 500 * o, count);
        assert((a + w) * count == a * count + w * count) by (nonlinear_arith);
        positions::lemma_shifted(w * count, i * span, 1100 * (o * count), a * count);
        positions::lemma_two_steps(
            v.units() * count,
            (a + w) * count,
            n,
            500 * (o * count),
            1100 * (o * count),
        );
        positions::lemma_allowed(v.units() * count, n, 1600 * (o * count), 2000 * (o * count));
        // The end bounds the cut, and the exact value too.
        if b < v.units() {
            assert(n <= b * count) by (nonlinear_arith)
                requires
                    n == a * count + i * span,
                    span == b - a,
                    span > 0,
                    i <= count,
            ;
            let x = arith::absolute(v.units() * count - n);
            let y = arith::absolute(b * count - n);
            assert(b * count <= v.units() * count) by (nonlinear_arith)
                requires
                    b <= v.units(),
                    count > 0,
            ;
            assert(y * h <= x * h) by (nonlinear_arith)
                requires
                    y <= x,
                    h > 0,
            ;
        }
    }
}

/// A step between cuts.
proof fn lemma_step(start: F64, end: F64, count: int)
    requires
        start.finite() && end.finite(),
        -180 * cast::one() <= start.units() < end.units() <= 180 * cast::one(),
        1 <= count <= 0x1_0000_0000_0000,
    ensures
        ({
            let s = tiling::step(start, end, count);
            &&& s.finite()
            &&& positions::is_about(
                s.units() * count,
                end.units() - start.units(),
                600 * cast::one(),
            )
            &&& arith::absolute(s.units() * count) <= 400 * cast::one()
        }),
{
    let (o, h) = (cast::one(), HIDDEN_BIT as int);
    excess::lemma_weight_of_one();
    lemma2_to64_rest();
    error::lemma_integer_value(count);
    let n = end.units() - start.units();
    error::lemma_difference_close(end, start);
    let d = arith::difference(end, start);
    let u = d.units();
    error::lemma_distance(u, n, 1, 181 * o);
    let e = arith::absolute(u - n);
    assert(e <= o) by (nonlinear_arith)
        requires
            e * h <= 181 * o,
            h >= 181,
            e >= 0,
            o > 0,
    ;
    let f = cast::of_integer(count);
    let a = arith::absolute(u);
    assert(count * o > 0 && a * o <= error::limit() * (count * o)) by (nonlinear_arith)
        requires
            0 <= a <= 361 * o,
            count >= 1,
            error::limit() == o * 0x1000_0000_0000_0000,
            o > 0,
    ;
    error::lemma_quotient_close(d, f);
    let s = tiling::step(start, end, count).units();
    assert(arith::absolute(u * o) == a * o) by {
        assert((-u) * o == -(u * o)) by (nonlinear_arith);
        assert(a * o >= 0) by (nonlinear_arith)
            requires
                a >= 0,
                o > 0,
        ;
    }
    assert(h * (count * o) <= o * o) by (nonlinear_arith)
        requires
            count <= 0x1_0000_0000_0000,
            h == 0x10_0000_0000_0000,
            o >= 0x1_0000_0000_0000_0000_0000_0000_0000_0000_0000_0000_0000_0000int,
    ;
    assert(a * o + h * (count * o) <= 2 * ((200 * o) * o)) by (nonlinear_arith)
        requires
            a <= 361 * o,
            h * (count * o) <= o * o,
            o > 0,
    ;
    error::lemma_distance(s * (count * o), u * o, count * o, (200 * o) * o);
    assert(s * (count * o) == (s * count) * o) by (nonlinear_arith);
    positions::lemma_unscaled(s * count, u, 200 * o, o);
    positions::lemma_two_steps(s * count, u, n, 200 * o, 181 * o);
    positions::lemma_allowed(s * count, n, 381 * o, 600 * o);
    let g = arith::absolute(s * count - n);
    assert(g <= o) by (nonlinear_arith)
        requires
            g * h <= 381 * o,
            h >= 381,
            g >= 0,
            o > 0,
    ;
}

/// Some steps on.
proof fn lemma_steps(s: F64, count: int, i: int)
    requires
        s.finite(),
        arith::absolute(s.units() * count) <= 400 * cast::one(),
        1 <= count <= 0x1_0000_0000_0000,
        0 <= i < count,
    ensures
        ({
            let t = arith::product(s, cast::of_integer(i));
            &&& t.finite()
            &&& positions::is_about(t.units(), s.units() * i, 500 * cast::one())
            &&& arith::absolute(t.units()) <= 401 * cast::one()
        }),
{
    let (o, h) = (cast::one(), HIDDEN_BIT as int);
    excess::lemma_weight_of_one();
    lemma2_to64_rest();
    error::lemma_integer_value(i);
    let f = cast::of_integer(i);
    let u = s.units();
    let a = arith::absolute(u);
    assert(a * i <= 400 * o && a * i >= 0) by {
        assert(arith::absolute(u * count) == a * count) by {
            assert((-u) * count == -(u * count)) by (nonlinear_arith);
            assert(a * count >= 0) by (nonlinear_arith)
                requires
                    a >= 0,
                    count >= 1,
            ;
        }
        assert(0 <= a * i <= a * count) by (nonlinear_arith)
            requires
                a >= 0,
                0 <= i <= count,
        ;
    }
    assert(i * o >= 0) by (nonlinear_arith)
        requires
            i >= 0,
            o > 0,
    ;
    assert(a * (i * o) == (a * i) * o) by (nonlinear_arith);
    assert((a * i) * o <= error::limit() * o) by (nonlinear_arith)
        requires
            a * i <= 400 * o,
            error::limit() == o * 0x1000_0000_0000_0000,
            o > 0,
    ;
    error::lemma_product_close(s, f);
    let t = arith::product(s, f).units();
    assert(u * (i * o) == (u * i) * o) by (nonlinear_arith);
    assert(arith::absolute((u * i) * o) == (a * i) * o) by {
        assert((-u) * i == -(u * i)) by (nonlinear_arith);
        assert((-(u * i)) * o == -((u * i) * o)) by (nonlinear_arith);
        assert((a * i) * o >= 0) by (nonlinear_arith)
            requires
                a * i >= 0,
                o > 0,
        ;
    }
    assert((a * i) * o + h * o <= 2 * ((300 * o) * o)) by (nonlinear_arith)
        requires
            a * i <= 400 * o,
            h <= o,
            o > 0,
    ;
    error::lemma_distance(t * o, (u * i) * o, o, (300 * o) * o);
    positions::lemma_unscaled(t, u * i, 300 * o, o);
    positions::lemma_allowed(t, u * i, 300 * o, 500 * o);
    let g = arith::absolute(t - u * i);
    assert(g <= o) by (nonlinear_arith)
        requires
            g * h <= 300 * o,
            h >= 300,
            g >= 0,
            o > 0,
    ;
    assert(arith::absolute(u * i) == a * i) by {
        assert((-u) * i == -(u * i)) by (nonlinear_arith);
    }
}

/// Every tile of a grid lies in a row and a column: its edges are the cuts around it.
pub proof fn law_tiles_lie_in_rows_and_columns(grid: Grid, t: int) -> (place: (int, int))
    requires
        grid.valid(),
        grid.rows <= 0x1_0000_0000_0000 && grid.cols <= 0x1_0000_0000_0000,
        0 <= t < grid.all().len(),
    ensures
        ({
            let (r, c) = place;
            let (e, tile) = (grid.edges, grid.all()[t]);
            let (height, width) = (
                e.max_lat.units() - e.min_lat.units(),
                e.max_lng.units() - e.min_lng.units(),
            );
            let (rows, cols, o) = (grid.rows, grid.cols, cast::one());
            &&& 0 <= r < rows && 0 <= c < cols
            &&& positions::is_about(
                tile.min_lat.units() * rows,
                e.min_lat.units() * rows + r * height,
                2000 * (o * rows),
            )
            &&& positions::is_about(
                tile.max_lat.units() * rows,
                e.min_lat.units() * rows + (r + 1) * height,
                2000 * (o * rows),
            )
            &&& positions::is_about(
                tile.min_lng.units() * cols,
                e.min_lng.units() * cols + c * width,
                2000 * (o * cols),
            )
            &&& positions::is_about(
                tile.max_lng.units() * cols,
                e.min_lng.units() * cols + (c + 1) * width,
                2000 * (o * cols),
            )
        }),
{
    let (r, c) = grid.lemma_tile_place(t);
    let e = grid.edges;
    law_cuts_are_even(e.min_lat, e.max_lat, 90, grid.rows, r);
    law_cuts_are_even(e.min_lat, e.max_lat, 90, grid.rows, r + 1);
    law_cuts_are_even(e.min_lng, e.max_lng, 180, grid.cols, c);
    law_cuts_are_even(e.min_lng, e.max_lng, 180, grid.cols, c + 1);
    (r, c)
}

/// The product of a number with the meters of a degree.
proof fn lemma_degrees_to_meters(d: F64, parts: int)
    requires
        d.finite(),
        1 <= parts <= 400,
        arith::absolute(d.units()) <= parts * cast::one(),
    ensures
        ({
            let m = tiling::meters(d);
            let k = 111_320int;
            &&& m.finite()
            &&& positions::is_about(m.units(), k * d.units(), (parts + 1) * (k * cast::one()))
            &&& arith::absolute(m.units()) <= (parts + 1) * (k * cast::one())
        }),
{
    let (o, h, k) = (cast::one(), HIDDEN_BIT as int, 111_320int);
    excess::lemma_weight_of_one();
    lemma2_to64_rest();
    error::lemma_integer_value(k);
    let f = cast::of_integer(k);
    let (u, v) = (d.units(), arith::absolute(d.units()));
    assert(v * (k * o) <= error::limit() * o && v * (k * o) >= 0) by (nonlinear_arith)
        requires
            0 <= v <= parts * o,
            parts <= 400,
            k == 111_320,
            error::limit() == o * 0x1000_0000_0000_0000,
            o > 0,
    ;
    error::lemma_product_close(d, f);
    let m = tiling::meters(d).units();
    assert(u * (k * o) == (k * u) * o) by (nonlinear_arith);
    assert(arith::absolute(u * (k * o)) == v * (k * o)) by {
        assert((-u) * (k * o) == -(u * (k * o))) by (nonlinear_arith);
    }
    assert(v * (k * o) + h * o <= 2 * (((parts + 1) * (k * o)) * o)) by (nonlinear_arith)
        requires
            0 <= v <= parts * o,
            parts >= 1,
            k == 111_320,
            h <= o,
            o > 0,
    ;
    error::lemma_distance(m * o, (k * u) * o, o, ((parts + 1) * (k * o)) * o);
    positions::lemma_unscaled(m, k * u, (parts + 1) * (k * o), o);
    let g = arith::absolute(m - k * u);
    assert(g <= k * o) by (nonlinear_arith)
        requires
            g * h <= (parts + 1) * (k * o),
            parts <= 400,
            h >= 401,
            g >= 0,
            k * o > 0,
    ;
    assert(arith::absolute(k * u) == k * v);
    assert(k * v + k * o <= (parts + 1) * (k * o)) by (nonlinear_arith)
        requires
            v <= parts * o,
            k == 111_320,
            o > 0,
    ;
}

/// The degrees between two edges.
proof fn lemma_degrees_between(min: F64, max: F64, bound: int)
    requires
        bound == 90 || bound == 180,
        llpoint::within(min, bound),
        llpoint::within(max, bound),
        min.below(max),
    ensures
        ({
            let d = arith::difference(max, min);
            let n = max.units() - min.units();
            &&& d.finite()
            &&& positions::is_about(d.units(), n, 181 * cast::one())
            &&& 0 < n <= (2 * bound) * cast::one()
            &&& arith::absolute(d.units()) <= (2 * bound + 1) * cast::one()
        }),
{
    let (o, h) = (cast::one(), HIDDEN_BIT as int);
    excess::lemma_weight_of_one();
    llpoint::lemma_of_degrees(min, bound);
    llpoint::lemma_of_degrees(max, bound);
    let (a, b) = (min.units(), max.units());
    let n = b - a;
    assert(0 < n <= (2 * bound) * o && (2 * bound) * o <= 360 * o && (2 * bound + 1) * o == (2
        * bound) * o + o) by (nonlinear_arith)
        requires
            -bound * o <= a < b <= bound * o,
            bound <= 180,
            n == b - a,
            o > 0,
    ;
    error::lemma_difference_close(max, min);
    let d = arith::difference(max, min).units();
    error::lemma_distance(d, n, 1, 181 * o);
    let e = arith::absolute(d - n);
    assert(e <= o) by (nonlinear_arith)
        requires
            e * h <= 181 * o,
            h >= 181,
            e >= 0,
            o > 0,
    ;
}

/// The product of two numbers of known sizes.
proof fn lemma_sized_product(a: F64, b: F64, x: int, y: int)
    requires
        a.finite() && b.finite(),
        arith::absolute(a.units()) <= x * cast::one(),
        arith::absolute(b.units()) <= y * cast::one(),
        1 <= x <= 0x400_0000,
        1 <= y <= 0x400_0000,
    ensures
        ({
            let p = arith::product(a, b);
            let o = cast::one();
            &&& p.finite()
            &&& positions::is_about(p.units() * o, a.units() * b.units(), (x * y) * (o * o))
            &&& arith::absolute(p.units()) <= (x * y + 1) * o
        }),
{
    let (o, h) = (cast::one(), HIDDEN_BIT as int);
    excess::lemma_weight_of_one();
    let (u, v) = (a.units(), b.units());
    let (s, t) = (arith::absolute(u), arith::absolute(v));
    assert(0 <= s * t <= (x * y) * (o * o)) by (nonlinear_arith)
        requires
            0 <= s <= x * o,
            0 <= t <= y * o,
            x >= 1,
            y >= 1,
            o > 0,
    ;
    assert(1 <= x * y <= 0x10_0000_0000_0000) by (nonlinear_arith)
        requires
            1 <= x <= 0x400_0000,
            1 <= y <= 0x400_0000,
    ;
    let z = x * y;
    assert(z * (o * o) <= error::limit() * o && z * (o * o) + h * o <= 2 * (z * (o * o)))
        by (nonlinear_arith)
        requires
            1 <= z <= 0x10_0000_0000_0000,
            error::limit() == o * 0x1000_0000_0000_0000,
            h <= o,
            o > 0,
    ;
    error::lemma_product_close(a, b);
    let p = arith::product(a, b).units();
    assert((-u) * v == -(u * v) && u * (-v) == -(u * v) && (-u) * (-v) == u * v)
        by (nonlinear_arith);
    assert(arith::absolute(u * v) == s * t);
    error::lemma_distance(p * o, u * v, o, z * (o * o));
    let g = arith::absolute(p * o - u * v);
    assert(g <= o * o) by (nonlinear_arith)
        requires
            g * h <= z * (o * o),
            z <= h,
            g >= 0,
            h > 0,
            o > 0,
    ;
    let q = arith::absolute(p);
    assert(arith::absolute(p * o) == q * o) by {
        assert((-p) * o == -(p * o)) by (nonlinear_arith);
        assert(q * o >= 0) by (nonlinear_arith)
            requires
                q >= 0,
                o > 0,
        ;
    }
    assert(q <= (z + 1) * o) by (nonlinear_arith)
        requires
            q * o <= z * (o * o) + o * o,
            o > 0,
    ;
}

/// Sizes are no farther apart than the values.
proof fn lemma_sizes(v: int, n: int, e: int)
    requires
        positions::is_about(v, n, e),
    ensures
        positions::is_about(arith::absolute(v), arith::absolute(n), e),
{
    let h = HIDDEN_BIT as int;
    let (x, y) = (
        arith::absolute(v - n),
        arith::absolute(arith::absolute(v) - arith::absolute(n)),
    );
    assert(y * h <= x * h) by (nonlinear_arith)
        requires
            y <= x,
            h > 0,
    ;
}

/// One of two factors is replaced by what it is about.
proof fn lemma_replaced(v: int, n: int, e: int, f: int, bound: int, total: int)
    requires
        positions::is_about(v, n, e),
        arith::absolute(f) <= bound,
        e >= 0,
        e * bound <= total,
    ensures
        positions::is_about(v * f, n * f, total),
{
    positions::lemma_scaled(v, n, e, f);
    let g = arith::absolute(f);
    assert(e * g <= e * bound) by (nonlinear_arith)
        requires
            g <= bound,
            e >= 0,
    ;
    positions::lemma_allowed(v * f, n * f, e * g, total);
}

/// A number over a million.
proof fn lemma_over_a_million(p: F64)
    requires
        p.finite(),
        0 <= p.units() <= 0x20_0000_0000_0000 * cast::one(),
    ensures
        ({
            let r = arith::quotient(p, cast::of_integer(1_000_000));
            &&& r.finite()
            &&& positions::is_about(1_000_000 * r.units(), p.units(), p.units() + cast::one())
        }),
{
    let (o, h, k) = (cast::one(), HIDDEN_BIT as int, 1_000_000int);
    excess::lemma_weight_of_one();
    lemma2_to64_rest();
    error::lemma_integer_value(k);
    let f = cast::of_integer(k);
    let u = p.units();
    assert(u * o <= error::limit() * (k * o) && u * o >= 0) by (nonlinear_arith)
        requires
            0 <= u <= 0x20_0000_0000_0000 * o,
            k == 1_000_000,
            error::limit() == o * 0x1000_0000_0000_0000,
            o > 0,
    ;
    error::lemma_quotient_close(p, f);
    let r = arith::quotient(p, f).units();
    assert(u * o + h * (k * o) <= 2 * ((u + o) * o)) by (nonlinear_arith)
        requires
            h * k <= o,
            u >= 0,
            o > 0,
    ;
    error::lemma_distance(r * (k * o), u * o, k * o, (u + o) * o);
    assert(r * (k * o) == (k * r) * o) by (nonlinear_arith);
    positions::lemma_unscaled(k * r, u, u + o, o);
}

/// The sizes of the factors of an area.
proof fn lemma_area_bounds(c: int, e: int, w: int)
    requires
        arith::absolute(c) <= cast::one(),
        arith::absolute(e) <= 20_260_240 * cast::one(),
        0 < w <= 360 * cast::one(),
    ensures
        ({
            let (o, k) = (cast::one(), 111_320int);
            &&& arith::absolute(c * e) <= 20_260_240 * (o * o)
            &&& arith::absolute(k * (c * e)) <= 2_255_369_916_800 * (o * o)
            &&& arith::absolute(k * (c * w)) <= 40_075_200 * (o * o)
            &&& arith::absolute(k * (k * (c * w))) <= 4_461_171_264_000 * (o * o)
        }),
{
    let (o, k) = (cast::one(), 111_320int);
    excess::lemma_weight_of_one();
    let (x, y) = (arith::absolute(c), arith::absolute(e));
    assert(0 <= x * y <= 20_260_240 * (o * o)) by (nonlinear_arith)
        requires
            0 <= x <= o,
            0 <= y <= 20_260_240 * o,
            o > 0,
    ;
    assert((-c) * e == -(c * e) && c * (-e) == -(c * e) && (-c) * (-e) == c * e)
        by (nonlinear_arith);
    assert(arith::absolute(c * e) == x * y);
    assert(0 <= x * w <= 360 * (o * o)) by (nonlinear_arith)
        requires
            0 <= x <= o,
            0 < w <= 360 * o,
            o > 0,
    ;
    assert((-c) * w == -(c * w)) by (nonlinear_arith);
    assert(arith::absolute(c * w) == x * w);
}

/// The area of a box in square kilometers: the degrees from west to east times the degrees
/// from south to north, each times 111320 meters, times the cosine of the latitude, over a
/// million. What rounding adds or takes is less than two square meters.
pub proof fn law_areas(bbox: LLBBox, cosine: F64, r: F64)
    requires
        bbox@.valid(),
        cosine.finite(),
        -cast::one() <= cosine.units() <= cast::one(),
        call_ensures(LLBBox::area_km2, (&bbox, cosine), r),
    ensures
        ({
            let o = cast::one();
            let (width, height) = (
                bbox@.max_lng.units() - bbox@.min_lng.units(),
                bbox@.max_lat.units() - bbox@.min_lat.units(),
            );
            let c = arith::absolute(cosine.units());
            &&& r.finite()
            &&& positions::is_about(
                (1_000_000 * r.units()) * (o * o),
                (111_320 * width) * (111_320 * height) * c,
                6_500_000_000_000_000 * (o * (o * o)),
            )
        }),
{
    let b = bbox@;
    let (o, k) = (cast::one(), 111_320int);
    excess::lemma_weight_of_one();
    let (w, g) = (b.max_lng.units() - b.min_lng.units(), b.max_lat.units() - b.min_lat.units());
    let c = cosine.units();
    lemma_signed_area(b, cosine);
    let fp = arith::product(
        arith::product(tiling::meters(b.lng_span()), cosine),
        tiling::meters(b.lat_span()),
    );
    let p = fp.unsigned();
    laws::lemma_signed(false, fp.magnitude());
    let x = p.units();
    let vp = fp.units();
    assert(x == arith::absolute(vp));
    let t = o * (o * o);
    let goal = (k * w) * (k * g) * c;
    lemma_sizes(vp * (o * o), goal, 5_000_000_000_000_000 * t);
    lemma_size_of_product(vp, o * o);
    lemma_size_of_area(k * w, k * g, c);
    lemma_over_a_million(p);
    let y = (1_000_000 * r.units()) * (o * o);
    assert(o * o > 0) by (nonlinear_arith)
        requires
            o > 0,
    ;
    lemma_replaced(
        1_000_000 * r.units(),
        x,
        x + o,
        o * o,
        o * o,
        1_000_000_000_000_000 * t,
    );
    positions::lemma_two_steps(
        y,
        x * (o * o),
        arith::absolute(goal),
        1_000_000_000_000_000 * t,
        5_000_000_000_000_000 * t,
    );
    positions::lemma_allowed(
        y,
        arith::absolute(goal),
        6_000_000_000_000_000 * t,
        6_500_000_000_000_000 * t,
    );
}

proof fn lemma_size_of_product(v: int, k: int)
    requires
        k >= 0,
    ensures
        arith::absolute(v * k) == arith::absolute(v) * k,
{
    let x = arith::absolute(v);
    assert((-v) * k == -(v * k)) by (nonlinear_arith);
    assert(x * k >= 0) by (nonlinear_arith)
        requires
            x >= 0,
            k >= 0,
    ;
}

proof fn lemma_size_of_area(a: int, b: int, c: int)
    requires
        a >= 0,
        b >= 0,
    ensures
        arith::absolute(a * b * c) == a * b * arith::absolute(c),
{
    let q = a * b;
    assert(q >= 0) by (nonlinear_arith)
        requires
            q == a * b,
            a >= 0,
            b >= 0,
    ;
    lemma_size_of_product(c, q);
    assert(c * q == q * c && arith::absolute(c) * q == q * arith::absolute(c)) by (nonlinear_arith);
}

/// The area in square meters, with its sign.
proof fn lemma_signed_area(b: Edges, cosine: F64)
    requires
        b.valid(),
        cosine.finite(),
        -cast::one() <= cosine.units() <= cast::one(),
    ensures
        ({
            let (o, k) = (cast::one(), 111_320int);
            let (w, g) = (
                b.max_lng.units() - b.min_lng.units(),
                b.max_lat.units() - b.min_lat.units(),
            );
            let p = arith::product(
                arith::product(tiling::meters(b.lng_span()), cosine),
                tiling::meters(b.lat_span()),
            );
            let x = arith::absolute(p.units());
            &&& p.finite()
            &&& w > 0 && g > 0
            &&& x <= 0x20_0000_0000_0000 * o
            &&& (x + o) * (o * o) <= 1_000_000_000_000_000 * (o * (o * o))
            &&& positions::is_about(
                p.units() * (o * o),
                (k * w) * (k * g) * cosine.units(),
                5_000_000_000_000_000 * (o * (o * o)),
            )
        }),
{
    let (o, k) = (cast::one(), 111_320int);
    excess::lemma_weight_of_one();
    let (w, g) = (b.max_lng.units() - b.min_lng.units(), b.max_lat.units() - b.min_lat.units());
    lemma_degrees_between(b.min_lng, b.max_lng, 180);
    lemma_degrees_between(b.min_lat, b.max_lat, 90);
    let (fa, fd) = (b.lng_span(), b.lat_span());
    lemma_degrees_to_meters(fa, 361);
    lemma_degrees_to_meters(fd, 181);
    let (fb, fe) = (tiling::meters(fa), tiling::meters(fd));
    assert(362 * (k * o) == 40_297_840 * o && 182 * (k * o) == 20_260_240 * o);
    assert(1 * o == o);
    lemma_sized_product(fb, cosine, 40_297_840, 1);
    let fc = arith::product(fb, cosine);
    lemma_sized_product(fc, fe, 40_297_841, 20_260_240);
    let fp = arith::product(fc, fe);
    lemma_area_bounds(cosine.units(), fe.units(), w);
    lemma_area_chain(
        fa.units(),
        fb.units(),
        fc.units(),
        fd.units(),
        fe.units(),
        fp.units(),
        w,
        g,
        cosine.units(),
    );
    let x = arith::absolute(fp.units());
    assert(40_297_841 * 20_260_240 + 1 == 816443930141841);
    assert(x <= 0x20_0000_0000_0000 * o && (x + o) * (o * o) <= 1_000_000_000_000_000 * (o * (o
        * o))) by (nonlinear_arith)
        requires
            x <= 816443930141841 * o,
            o > 0,
    ;
}

/// The steps from the product that is computed to the exact one.
proof fn lemma_area_chain(
    va: int,
    vb: int,
    vc: int,
    vd: int,
    ve: int,
    vp: int,
    w: int,
    g: int,
    c: int,
)
    requires
        ({
            let (o, k) = (cast::one(), 111_320int);
            &&& positions::is_about(va, w, 181 * o)
            &&& positions::is_about(vd, g, 181 * o)
            &&& positions::is_about(vb, k * va, 362 * (k * o))
            &&& positions::is_about(ve, k * vd, 182 * (k * o))
            &&& positions::is_about(vc * o, vb * c, (40_297_840 * 1) * (o * o))
            &&& positions::is_about(vp * o, vc * ve, (40_297_841 * 20_260_240) * (o * o))
            &&& arith::absolute(ve) <= 20_260_240 * o
            &&& arith::absolute(c * ve) <= 20_260_240 * (o * o)
            &&& arith::absolute(k * (c * ve)) <= 2_255_369_916_800 * (o * o)
            &&& arith::absolute(k * (c * w)) <= 40_075_200 * (o * o)
            &&& arith::absolute(k * (k * (c * w))) <= 4_461_171_264_000 * (o * o)
        }),
    ensures
        ({
            let (o, k) = (cast::one(), 111_320int);
            positions::is_about(
                vp * (o * o),
                (k * w) * (k * g) * c,
                5_000_000_000_000_000 * (o * (o * o)),
            )
        }),
{
    let (o, k) = (cast::one(), 111_320int);
    excess::lemma_weight_of_one();
    let t = o * (o * o);
    let u = 820_000_000_000_000 * t;
    assert(((40_297_841 * 20_260_240) * (o * o)) * o <= u && ((40_297_840 * 1) * (o * o)) * (
    20_260_240 * o) <= u && (362 * (k * o)) * (20_260_240 * (o * o)) <= u && (181 * o) * (
    2_255_369_916_800 * (o * o)) <= u && (182 * (k * o)) * (40_075_200 * (o * o)) <= u && (181 * o)
        * (4_461_171_264_000 * (o * o)) <= u) by (nonlinear_arith)
        requires
            u == 820_000_000_000_000 * t,
            t == o * (o * o),
            k == 111_320,
            o > 0,
    ;
    assert(o * o >= 0) by (nonlinear_arith);
    lemma_replaced(vp * o, vc * ve, (40_297_841 * 20_260_240) * (o * o), o, o, u);
    lemma_replaced(vc * o, vb * c, (40_297_840 * 1) * (o * o), ve, 20_260_240 * o, u);
    lemma_replaced(vb, k * va, 362 * (k * o), c * ve, 20_260_240 * (o * o), u);
    lemma_replaced(va, w, 181 * o, k * (c * ve), 2_255_369_916_800 * (o * o), u);
    lemma_replaced(ve, k * vd, 182 * (k * o), k * (c * w), 40_075_200 * (o * o), u);
    lemma_replaced(vd, g, 181 * o, k * (k * (c * w)), 4_461_171_264_000 * (o * o), u);
    let (s0, s1, s2, s3, s4, s5, s6) = (
        vp * (o * o),
        (vc * ve) * o,
        (vb * c) * ve,
        (k * va) * (c * ve),
        w * (k * (c * ve)),
        (k * vd) * (k * (c * w)),
        (k * w) * (k * g) * c,
    );
    assert((vp * o) * o == s0) by (nonlinear_arith)
        requires
            s0 == vp * (o * o),
    ;
    assert((vc * o) * ve == s1) by (nonlinear_arith)
        requires
            s1 == (vc * ve) * o,
    ;
    assert(vb * (c * ve) == s2) by (nonlinear_arith)
        requires
            s2 == (vb * c) * ve,
    ;
    assert(va * (k * (c * ve)) == s3) by (nonlinear_arith)
        requires
            s3 == (k * va) * (c * ve),
    ;
    assert(ve * (k * (c * w)) == s4) by (nonlinear_arith)
        requires
            s4 == w * (k * (c * ve)),
    ;
    assert(vd * (k * (k * (c * w))) == s5) by (nonlinear_arith)
        requires
            s5 == (k * vd) * (k * (c * w)),
    ;
    assert(g * (k * (k * (c * w))) == s6) by (nonlinear_arith)
        requires
            s6 == (k * w) * (k * g) * c,
    ;
    positions::lemma_two_steps(s0, s1, s2, u, u);
    positions::lemma_two_steps(s0, s2, s3, 2 * u, u);
    positions::lemma_two_steps(s0, s3, s4, 3 * u, u);
    positions::lemma_two_steps(s0, s4, s5, 4 * u, u);
    positions::lemma_two_steps(s0, s5, s6, 5 * u, u);
    positions::lemma_allowed(s0, s6, 6 * u, 5_000_000_000_000_000 * t);
}

/// The latitude that a box is measured at is half the sum of its southern and its northern
/// edge, in radians; `rho` is a degree in radians.
pub proof fn law_middle_latitudes(bbox: LLBBox, r: F64) -> (rho: int)
    requires
        bbox@.valid(),
        call_ensures(LLBBox::mid_lat_radians, (&bbox,), r),
    ensures
        angle::is_part_of_pi(rho, 1, 180),
        r.finite(),
        positions::is_about(
            2 * (r.units() * cast::one()),
            (bbox@.min_lat.units() + bbox@.max_lat.units()) * rho,
            40 * (cast::one() * cast::one()),
        ),
{
    let b = bbox@;
    let (o, h) = (cast::one(), HIDDEN_BIT as int);
    excess::lemma_weight_of_one();
    angle::law_angles_are_parts_of_pi();
    llpoint::lemma_of_degrees(b.min_lat, 90);
    llpoint::lemma_of_degrees(b.max_lat, 90);
    assert(90 * o <= 180 * o && -90 * o >= -180 * o) by (nonlinear_arith)
        requires
            o > 0,
    ;
    positions::lemma_halfway(b.min_lat, b.max_lat);
    let m = transformation::halfway(b.min_lat, b.max_lat);
    let f = F64 { bits: angle::RADIANS_PER_DEGREE_BITS };
    let (rho, u, n) = (f.units(), m.units(), b.min_lat.units() + b.max_lat.units());
    assert(0 < rho && 57 * rho <= o) by (nonlinear_arith)
        requires
            314_159_265_358_979 * o * 1 <= 100_000_000_000_000 * rho * 180
                <= 314_159_265_358_980 * o * 1,
            o > 0,
    ;
    let a = arith::absolute(u);
    assert(a * rho <= 4 * (o * o) && a * rho >= 0) by (nonlinear_arith)
        requires
            0 <= a <= 181 * o,
            0 < rho,
            57 * rho <= o,
            o > 0,
    ;
    lemma_size_of_product(u, rho);
    assert(4 * (o * o) <= error::limit() * o && 4 * (o * o) + h * o <= 2 * (4 * (o * o)))
        by (nonlinear_arith)
        requires
            error::limit() == o * 0x1000_0000_0000_0000,
            h <= o,
            o > 0,
    ;
    error::lemma_product_close(m, f);
    error::lemma_distance(r.units() * o, u * rho, o, 4 * (o * o));
    positions::lemma_scaled(r.units() * o, u * rho, 4 * (o * o), 2);
    assert((r.units() * o) * 2 == 2 * (r.units() * o) && (u * rho) * 2 == (2 * u) * rho)
        by (nonlinear_arith);
    positions::lemma_scaled(2 * u, n, 366 * o, rho);
    assert((366 * o) * rho <= 7 * (o * o)) by (nonlinear_arith)
        requires
            57 * rho <= o,
            0 < rho,
            o > 0,
    ;
    positions::lemma_allowed((2 * u) * rho, n * rho, (366 * o) * rho, 7 * (o * o));
    positions::lemma_two_steps(
        2 * (r.units() * o),
        (2 * u) * rho,
        n * rho,
        4 * (o * o) * 2,
        7 * (o * o),
    );
    positions::lemma_allowed(
        2 * (r.units() * o),
        n * rho,
        4 * (o * o) * 2 + 7 * (o * o),
        40 * (o * o),
    );
    rho
}

} // verus!
