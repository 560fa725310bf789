//! What a projection starts from: the corners of an area, its middle, and the box of blocks
//! that holds what the corners are taken to.

use vstd::prelude::*;
use vstd::arithmetic::power2::*;
use crate::binary64::{F64, HIDDEN_BIT};
use crate::binary64::arith;
use crate::binary64::cast;
use crate::binary64::error;
use crate::binary64::exact;
use crate::binary64::excess;
use crate::coordinate_system::angle;
use crate::coordinate_system::cartesian::{XZBBox, XZPoint};
use crate::coordinate_system::geographic::llbbox::LLBBox;
use crate::coordinate_system::geographic::llpoint;
use crate::coordinate_system::geographic::llpoint::LLPoint;
use crate::coordinate_system::positions;
use crate::coordinate_system::transformation;
use crate::coordinate_system::transformation::{CoordTransformer, CornerPoints, Corners};

verus! {

/// Of the corners of an area the northern ones lie north of the southern ones and the
/// eastern ones east of the western ones; corners on one side share its coordinate. The
/// area lies between the south-west corner and the north-east one.
pub proof fn law_corners_of_an_area(
    bbox: LLBBox,
    corners: CornerPoints,
    min: LLPoint,
    max: LLPoint,
)
    requires
        bbox@.valid(),
        call_ensures(transformation::corner_points, (&bbox,), corners),
        call_ensures(LLBBox::min, (&bbox,), min),
        call_ensures(LLBBox::max, (&bbox,), max),
    ensures
        corners.sw@ == min@,
        corners.ne@ == max@,
        corners.nw@.lat == corners.ne@.lat && corners.sw@.lat == corners.se@.lat,
        corners.nw@.lng == corners.sw@.lng && corners.ne@.lng == corners.se@.lng,
        corners.sw@.lat.units() < corners.nw@.lat.units(),
        corners.nw@.lng.units() < corners.ne@.lng.units(),
{
}

/// The middle of two coordinates is half their sum, and the middle latitude of an area is
/// that of its southern and its northern edge.
pub proof fn law_middles(a: F64, b: F64, r: F64, bbox: LLBBox, lat: F64)
    requires
        llpoint::is_longitude(a) && llpoint::is_longitude(b),
        call_ensures(transformation::middle, (a, b), r),
        bbox@.valid(),
        call_ensures(transformation::origin_lat, (&bbox,), lat),
    ensures
        r.finite() && lat.finite(),
        positions::is_about(2 * r.units(), a.units() + b.units(), 366 * cast::one()),
        positions::is_about(
            2 * lat.units(),
            bbox@.min_lat.units() + bbox@.max_lat.units(),
            366 * cast::one(),
        ),
{
    excess::lemma_weight_of_one();
    llpoint::lemma_of_degrees(a, 180);
    llpoint::lemma_of_degrees(b, 180);
    llpoint::lemma_of_degrees(bbox@.min_lat, 90);
    llpoint::lemma_of_degrees(bbox@.max_lat, 90);
    let o = cast::one();
    assert(90 * o <= 180 * o && -90 * o >= -180 * o) by (nonlinear_arith)
        requires
            o > 0,
    ;
    positions::lemma_halfway(a, b);
    positions::lemma_halfway(bbox@.min_lat, bbox@.max_lat);
}

/// The angle that a Mercator projection takes of a latitude is pi over 4 and half the
/// latitude: `rho` is a degree in radians and `quarter` pi over 4.
pub proof fn law_mercator_angles(lat: F64, r: F64) -> (parts: (int, int))
    requires
        llpoint::is_latitude(lat),
        call_ensures(transformation::to_mercator_angle, (lat,), r),
    ensures
        ({
            let (rho, quarter) = parts;
            &&& angle::is_part_of_pi(rho, 1, 180)
            &&& angle::is_part_of_pi(quarter, 1, 4)
            &&& r.finite()
            &&& positions::is_about(
                2 * (r.units() * cast::one()),
                2 * (quarter * cast::one()) + lat.units() * rho,
                40 * (cast::one() * cast::one()),
            )
        }),
{
    let (o, h) = (cast::one(), HIDDEN_BIT as int);
    excess::lemma_weight_of_one();
    lemma2_to64_rest();
    angle::law_angles_are_parts_of_pi();
    llpoint::lemma_of_degrees(lat, 90);
    let f = F64 { bits: angle::RADIANS_PER_DEGREE_BITS };
    let g = F64 { bits: angle::QUARTER_PI_BITS };
    let (rho, quarter, u) = (f.units(), g.units(), lat.units());
    assert(0 < rho && 57 * rho <= o) by (nonlinear_arith)
        requires
            314_159_265_358_979 * o * 1 <= 100_000_000_000_000 * rho * 180
                <= 314_159_265_358_980 * o * 1,
            o > 0,
    ;
    assert(0 < quarter <= o) by (nonlinear_arith)
        requires
            314_159_265_358_979 * o * 1 <= 100_000_000_000_000 * quarter * 4
                <= 314_159_265_358_980 * o * 1,
            o > 0,
    ;
    let a = arith::absolute(u);
    assert(a * rho <= 2 * (o * o) && a * rho >= 0) by (nonlinear_arith)
        requires
            0 <= a <= 90 * o,
            0 < rho,
            57 * rho <= o,
            o > 0,
    ;
    assert(arith::absolute(u * rho) == a * rho) by {
        assert((-u) * rho == -(u * rho)) by (nonlinear_arith);
    }
    assert(2 * (o * o) <= error::limit() * o) by (nonlinear_arith)
        requires
            error::limit() == o * 0x1000_0000_0000_0000,
            o > 0,
    ;
    error::lemma_product_close(lat, f);
    let p = angle::radians(lat);
    let v = p.units();
    assert(2 * (o * o) + h * o <= 2 * (2 * (o * o))) by (nonlinear_arith)
        requires
            h <= o,
            o > 0,
    ;
    error::lemma_distance(v * o, u * rho, o, 2 * (o * o));
    let b = arith::absolute(v);
    let d = arith::absolute(v * o - u * rho);
    assert(d <= o * o) by (nonlinear_arith)
        requires
            d * h <= 2 * (o * o),
            h >= 2,
            d >= 0,
            o > 0,
    ;
    assert(arith::absolute(v * o) == b * o) by {
        assert((-v) * o == -(v * o)) by (nonlinear_arith);
        assert(b * o >= 0) by (nonlinear_arith)
            requires
                b >= 0,
                o > 0,
        ;
    }
    assert(b <= 3 * o) by (nonlinear_arith)
        requires
            b * o <= 3 * (o * o),
            o > 0,
    ;
    lemma_half_of(p, b);
    let q = arith::quotient(p, cast::of_integer(2));
    let w = q.units();
    error::lemma_sum_close(g, q);
    error::lemma_distance(r.units(), quarter + w, 1, 3 * o);
    // Twice, in square units.
    positions::lemma_scaled(r.units(), quarter + w, 3 * o, 2 * o);
    positions::lemma_scaled(2 * w, v, 4 * o, o);
    let (n, m) = (2 * (quarter * o), u * rho);
    assert(r.units() * (2 * o) == 2 * (r.units() * o) && (quarter + w) * (2 * o) == n + (2 * w) * o
        && (3 * o) * (2 * o) == 6 * (o * o) && (4 * o) * o == 4 * (o * o)) by (nonlinear_arith)
        requires
            n == 2 * (quarter * o),
    ;
    assert(positions::is_about(n + (2 * w) * o, n + v * o, 4 * (o * o)));
    assert(positions::is_about(n + v * o, n + m, 2 * (o * o)));
    positions::lemma_two_steps(2 * (r.units() * o), n + (2 * w) * o, n + v * o, 6 * (o * o), 4 * (o
        * o));
    positions::lemma_two_steps(2 * (r.units() * o), n + v * o, n + m, 10 * (o * o), 2 * (o * o));
    positions::lemma_allowed(2 * (r.units() * o), n + m, 12 * (o * o), 40 * (o * o));
    (rho, quarter)
}

/// Half of a number.
pub proof fn lemma_half_of(p: F64, b: int)
    requires
        p.finite(),
        b == arith::absolute(p.units()),
        b <= 400 * cast::one(),
    ensures
        ({
            let q = arith::quotient(p, cast::of_integer(2));
            &&& q.finite()
            &&& positions::is_about(2 * q.units(), p.units(), b + cast::one())
            &&& arith::absolute(q.units()) <= b + cast::one()
        }),
{
    let (o, h) = (cast::one(), HIDDEN_BIT as int);
    excess::lemma_weight_of_one();
    lemma2_to64_rest();
    error::lemma_integer_value(2);
    let two = cast::of_integer(2);
    let v = p.units();
    assert(b * o <= error::limit() * (2 * o)) by (nonlinear_arith)
        requires
            0 <= b <= 400 * o,
            error::limit() == o * 0x1000_0000_0000_0000,
            o > 0,
    ;
    error::lemma_quotient_close(p, two);
    let w = arith::quotient(p, two).units();
    assert(arith::absolute(v * o) == b * o) by {
        assert((-v) * o == -(v * o)) by (nonlinear_arith);
        assert(b * o >= 0) by (nonlinear_arith)
            requires
                b >= 0,
                o > 0,
        ;
    }
    assert(b * o + h * (2 * o) <= 2 * ((b + o) * o)) by (nonlinear_arith)
        requires
            h <= o,
            b >= 0,
            o > 0,
    ;
    error::lemma_distance(w * (2 * o), v * o, 2 * o, (b + o) * o);
    assert(w * (2 * o) == (2 * w) * o) by (nonlinear_arith);
    positions::lemma_unscaled(2 * w, v, b + o, o);
    let e = arith::absolute(2 * w - v);
    assert(e <= b + o) by (nonlinear_arith)
        requires
            e * h <= b + o,
            h >= 1,
            e >= 0,
    ;
}

/// Whether a number is a position that blocks can be counted to.
pub open spec fn is_position(a: F64) -> bool {
    a.finite() && -0x7fff_ffff * cast::one() <= a.units() <= 0x7fff_ffff * cast::one()
}

/// Whether the blocks from `lo` to `hi` are the fewest that hold four positions: none lies
/// outside, and one lies within a block of either end.
pub open spec fn is_tight(a: F64, b: F64, c: F64, d: F64, lo: int, hi: int) -> bool {
    let o = cast::one();
    let (t, u, v, w) = (a.units(), b.units(), c.units(), d.units());
    &&& lo * o <= t <= hi * o && lo * o <= u <= hi * o
    &&& lo * o <= v <= hi * o && lo * o <= w <= hi * o
    &&& t < (lo + 1) * o || u < (lo + 1) * o || v < (lo + 1) * o || w < (lo + 1) * o
    &&& t > (hi - 1) * o || u > (hi - 1) * o || v > (hi - 1) * o || w > (hi - 1) * o
}

/// The block of a floor and that of a ceiling.
proof fn lemma_whole_blocks(a: F64)
    requires
        is_position(a),
    ensures
        ({
            let o = cast::one();
            let lo = cast::as_i32(cast::with_whole(a, cast::floored(a)));
            let hi = cast::as_i32(cast::with_whole(a, cast::ceiled(a)));
            &&& lo * o <= a.units() < (lo + 1) * o
            &&& (hi - 1) * o < a.units() <= hi * o
            &&& i32::MIN <= lo <= i32::MAX
            &&& i32::MIN <= hi <= i32::MAX
        }),
{
    let (o, u) = (cast::one(), a.units());
    excess::lemma_weight_of_one();
    let k = u / o;
    let c = -((-u) / o);
    vstd::arithmetic::div_mod::lemma_fundamental_div_mod(u, o);
    vstd::arithmetic::div_mod::lemma_fundamental_div_mod(-u, o);
    assert(o * k == k * o && o * ((-u) / o) == -(c * o)) by (nonlinear_arith)
        requires
            c == -((-u) / o),
    ;
    assert((k - 1) * o == k * o - o && (k + 1) * o == k * o + o && (c - 1) * o == c * o - o && (c
        + 1) * o == c * o + o) by (nonlinear_arith);
    assert(0x7fff_ffff * o <= 0x1_0000_0000_0000 * o && -0x7fff_ffff * o >= -0x1_0000_0000_0000 * o)
        by (nonlinear_arith)
        requires
            o > 0,
    ;
    exact::lemma_whole_number(a, k);
    exact::lemma_whole_number(a, c);
    assert(-0x7fff_ffff <= k <= 0x7fff_ffff) by (nonlinear_arith)
        requires
            k * o <= u < k * o + o,
            -0x7fff_ffff * o <= u <= 0x7fff_ffff * o,
            o > 0,
    ;
    assert(-0x7fff_ffff <= c <= 0x7fff_ffff) by (nonlinear_arith)
        requires
            c * o - o < u <= c * o,
            -0x7fff_ffff * o <= u <= 0x7fff_ffff * o,
            o > 0,
    ;
    lemma_whole_block(cast::with_whole(a, k), k);
    lemma_whole_block(cast::with_whole(a, c), c);
}

pub proof fn lemma_whole_block(a: F64, k: int)
    requires
        a.finite(),
        a.units() == k * cast::one(),
        -0x7fff_ffff <= k <= 0x7fff_ffff,
    ensures
        cast::as_i32(a) == k,
{
    let (o, u) = (cast::one(), a.units());
    excess::lemma_weight_of_one();
    positions::lemma_cut(a);
    let j = cast::as_i32(a);
    assert(-0x8000_0000 * o < u < 0x8000_0000 * o) by (nonlinear_arith)
        requires
            u == k * o,
            -0x7fff_ffff <= k <= 0x7fff_ffff,
            o > 0,
    ;
    if u >= 0 {
        assert(j == k) by (nonlinear_arith)
            requires
                j * o <= k * o < (j + 1) * o,
                o > 0,
        ;
    } else {
        assert(j == k) by (nonlinear_arith)
            requires
                (j - 1) * o < k * o <= j * o,
                o > 0,
        ;
    }
}

/// The least and the greatest of four positions.
proof fn lemma_four(a: F64, b: F64, c: F64, d: F64)
    requires
        is_position(a) && is_position(b) && is_position(c) && is_position(d),
    ensures
        ({
            let least = transformation::least(a, b, c, d);
            let greatest = transformation::greatest(a, b, c, d);
            is_tight(
                a,
                b,
                c,
                d,
                cast::as_i32(cast::with_whole(least, cast::floored(least))),
                cast::as_i32(cast::with_whole(greatest, cast::ceiled(greatest))),
            )
        }),
{
    let least = transformation::least(a, b, c, d);
    let greatest = transformation::greatest(a, b, c, d);
    assert(least == a || least == b || least == c || least == d);
    assert(greatest == a || greatest == b || greatest == c || greatest == d);
    lemma_whole_blocks(least);
    lemma_whole_blocks(greatest);
}

/// The envelope of four corners holds them all along both axes, and no block more.
pub proof fn law_envelope_is_tight(c: Corners, r: (XZPoint, XZPoint))
    requires
        call_ensures(Corners::envelope, (&c,), r),
        is_position(c.nw.0) && is_position(c.ne.0) && is_position(c.se.0) && is_position(c.sw.0),
        is_position(c.nw.1) && is_position(c.ne.1) && is_position(c.se.1) && is_position(c.sw.1),
    ensures
        is_tight(c.nw.0, c.sw.0, c.ne.0, c.se.0, r.0.x as int, r.1.x as int),
        is_tight(c.nw.1, c.sw.1, c.ne.1, c.se.1, r.0.z as int, r.1.z as int),
{
    lemma_four(c.nw.0, c.sw.0, c.ne.0, c.se.0);
    lemma_four(c.nw.1, c.sw.1, c.ne.1, c.se.1);
    lemma_bounds(c);
}

proof fn lemma_bounds(c: Corners)
    ensures
        ({
            let (l, g) = (
                transformation::least(c.nw.0, c.sw.0, c.ne.0, c.se.0),
                transformation::greatest(c.nw.0, c.sw.0, c.ne.0, c.se.0),
            );
            let (m, h) = (
                transformation::least(c.nw.1, c.sw.1, c.ne.1, c.se.1),
                transformation::greatest(c.nw.1, c.sw.1, c.ne.1, c.se.1),
            );
            let b = c.blocks();
            &&& b.min.x == cast::as_i32(cast::with_whole(l, cast::floored(l)))
            &&& b.max.x == cast::as_i32(cast::with_whole(g, cast::ceiled(g)))
            &&& b.min.z == cast::as_i32(cast::with_whole(m, cast::floored(m)))
            &&& b.max.z == cast::as_i32(cast::with_whole(h, cast::ceiled(h)))
        }),
{
    let (l, g) = (
        transformation::least(c.nw.0, c.sw.0, c.ne.0, c.se.0),
        transformation::greatest(c.nw.0, c.sw.0, c.ne.0, c.se.0),
    );
    let (m, h) = (
        transformation::least(c.nw.1, c.sw.1, c.ne.1, c.se.1),
        transformation::greatest(c.nw.1, c.sw.1, c.ne.1, c.se.1),
    );
    positions::lemma_cut(cast::with_whole(l, cast::floored(l)));
    positions::lemma_cut(cast::with_whole(g, cast::ceiled(g)));
    positions::lemma_cut(cast::with_whole(m, cast::floored(m)));
    positions::lemma_cut(cast::with_whole(h, cast::ceiled(h)));
}

/// A projection of corners that blocks can be counted to succeeds if and only if the scale
/// is not zero or less. Its box is the envelope of the corners, and its transformer spans as
/// many blocks as there are from the first to the last.
pub proof fn law_projected_boxes(
    bbox: LLBBox,
    scale: F64,
    c: Corners,
    cosine: F64,
    log_tan: F64,
    r: Result<(CoordTransformer, XZBBox), transformation::TransformError>,
)
    requires
        call_ensures(
            CoordTransformer::with_projection,
            (&bbox, scale, &c, cosine, log_tan),
            r,
        ),
        scale.finite(),
        is_position(c.nw.0) && is_position(c.ne.0) && is_position(c.se.0) && is_position(c.sw.0),
        is_position(c.nw.1) && is_position(c.ne.1) && is_position(c.se.1) && is_position(c.sw.1),
    ensures
        r is Ok <==> scale.units() > 0,
        scale.units() <= 0 ==> r == Err::<
            (CoordTransformer, XZBBox),
            transformation::TransformError,
        >(transformation::TransformError::Scale(scale)),
        r matches Ok((t, b)) ==> {
            let (min, max) = (b@.min, b@.max);
            &&& is_tight(c.nw.0, c.sw.0, c.ne.0, c.se.0, min.x as int, max.x as int)
            &&& is_tight(c.nw.1, c.sw.1, c.ne.1, c.se.1, min.z as int, max.z as int)
            &&& max.x - min.x <= i32::MAX ==> t@.scale_factor_x.units() == (max.x - min.x)
                * cast::one()
            &&& max.z - min.z <= i32::MAX ==> t@.scale_factor_z.units() == (max.z - min.z)
                * cast::one()
        },
{
    let o = cast::one();
    excess::lemma_weight_of_one();
    lemma2_to64_rest();
    error::lemma_integer_value(0);
    assert(0 * o == 0);
    lemma_four(c.nw.0, c.sw.0, c.ne.0, c.se.0);
    lemma_four(c.nw.1, c.sw.1, c.ne.1, c.se.1);
    lemma_bounds(c);
    let b = c.blocks();
    let (t, u) = (c.nw.0.units(), c.nw.1.units());
    assert(b.min.x <= b.max.x) by (nonlinear_arith)
        requires
            b.min.x * o <= t <= b.max.x * o,
            o > 0,
    ;
    assert(b.min.z <= b.max.z) by (nonlinear_arith)
        requires
            b.min.z * o <= u <= b.max.z * o,
            o > 0,
    ;
    error::lemma_integer_value(b.max.x - b.min.x);
    error::lemma_integer_value(b.max.z - b.min.z);
}

/// The box of an area in local mode starts at the origin and ends in the blocks that the
/// lengths of the area in blocks are cut to. There is none if and only if the scale is not
/// positive, or a length is not from zero to the largest block.
pub proof fn law_local_boxes(
    bbox: LLBBox,
    scale: F64,
    distance: (F64, F64),
    r: Result<(CoordTransformer, XZBBox), transformation::TransformError>,
)
    requires
        call_ensures(CoordTransformer::llbbox_to_xzbbox, (&bbox, scale, distance), r),
        scale.finite() && distance.0.finite() && distance.1.finite(),
        scale.units() <= 0x1000_0000 * cast::one(),
        0 <= distance.0.units() < 0x1_0000_0000 * cast::one(),
        0 <= distance.1.units() < 0x1_0000_0000 * cast::one(),
    ensures
        scale.units() <= 0 ==> r == Err::<
            (CoordTransformer, XZBBox),
            transformation::TransformError,
        >(transformation::TransformError::Scale(scale)),
        r matches Ok((t, b)) ==> {
            let (o, s) = (cast::one(), scale.units());
            let (x, z) = (t@.scale_factor_x, t@.scale_factor_z);
            &&& s > 0
            &&& 0 <= x.units() <= 0x7fff_ffff * o && 0 <= z.units() <= 0x7fff_ffff * o
            &&& error::is_close(x.units(), (distance.1.units() / o) * s, 1)
            &&& error::is_close(z.units(), (distance.0.units() / o) * s, 1)
            &&& b@.min == (XZPoint { x: 0, z: 0 })
            &&& positions::is_cut(x, b@.max.x as int)
            &&& positions::is_cut(z, b@.max.z as int)
        },
        r matches Err(e) ==> scale.units() <= 0 || ({
            let f = transformation::local_frame(bbox@, scale, distance.0, distance.1);
            let o = cast::one();
            !(0 <= f.scale_factor_x.units() <= 0x7fff_ffff * o) || !(0 <= f.scale_factor_z.units()
                <= 0x7fff_ffff * o) || f.scale_factor_x.nan() || f.scale_factor_z.nan()
        }),
{
    let f = transformation::local_frame(bbox@, scale, distance.0, distance.1);
    lemma2_to64_rest();
    excess::lemma_weight_of_one();
    error::lemma_integer_value(0);
    error::lemma_integer_value(0x7fff_ffff);
    assert(0 * cast::one() == 0);
    positions::lemma_cut(f.scale_factor_x);
    positions::lemma_cut(f.scale_factor_z);
    if scale.units() > 0 {
        positions::law_lengths_are_whole_meters_scaled(bbox@, scale, distance.0, distance.1);
    }
}

} // verus!
