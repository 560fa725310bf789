//! Positions and coordinates step by step: what each is rounded from, whatever the scale.

use vstd::prelude::*;
use crate::binary64::F64;
use crate::binary64::arith;
use crate::binary64::cast;
use crate::binary64::error;
use crate::binary64::exact;
use crate::binary64::excess;
use crate::coordinate_system::angle;
use crate::coordinate_system::cartesian::{XZBBox, XZPoint};
use crate::coordinate_system::geographic::llbbox::LLBBox;
use crate::coordinate_system::geographic::llpoint;
use crate::coordinate_system::geographic::llpoint::LLPoint;
use crate::coordinate_system::geographic::tiling;
use crate::coordinate_system::positions;
use crate::coordinate_system::transformation;
use crate::coordinate_system::transformation::{CoordTransformer, Corners, TransformError};

verus! {

/// A sum whose terms are within a thousand.
proof fn lemma_small_difference(a: F64, b: F64)
    requires
        a.finite() && b.finite(),
        arith::absolute(a.units()) <= 200 * cast::one(),
        arith::absolute(b.units()) <= 200 * cast::one(),
    ensures
        arith::difference(a, b).finite(),
        arith::absolute(arith::difference(a, b).units()) <= 401 * cast::one(),
        exact::is_nearest_number(arith::difference(a, b), a.units() - b.units(), 1),
{
    let (o, h) = (cast::one(), crate::binary64::HIDDEN_BIT as int);
    excess::lemma_weight_of_one();
    exact::lemma_difference(a, b);
    error::lemma_difference_close(a, b);
    let (d, n) = (arith::difference(a, b).units(), a.units() - b.units());
    error::lemma_distance(d, n, 1, 201 * o);
    let e = arith::absolute(d - n);
    assert(e <= o) by (nonlinear_arith)
        requires
            e * h <= 201 * o,
            h >= 201,
            e >= 0,
            o > 0,
    ;
}

/// A product of numbers that are not large.
proof fn lemma_small_product(a: F64, b: F64, x: int, y: int)
    requires
        a.finite() && b.finite(),
        1 <= x <= 0x1000_0000,
        1 <= y <= 0x1000_0000,
        arith::absolute(a.units()) <= x * cast::one(),
        arith::absolute(b.units()) <= y * cast::one(),
    ensures
        arith::product(a, b).finite(),
        arith::absolute(arith::product(a, b).units()) <= (2 * (x * y)) * cast::one(),
        exact::is_nearest_number(arith::product(a, b), a.units() * b.units(), cast::one()),
{
    let (o, h) = (cast::one(), crate::binary64::HIDDEN_BIT as int);
    excess::lemma_weight_of_one();
    exact::lemma_product(a, b);
    let (u, v) = (a.units(), b.units());
    let (s, t, z) = (arith::absolute(u), arith::absolute(v), x * y);
    assert(1 <= z <= 0x100_0000_0000_0000) by (nonlinear_arith)
        requires
            z == x * y,
            1 <= x <= 0x1000_0000,
            1 <= y <= 0x1000_0000,
    ;
    assert(0 <= s * t <= z * (o * o)) by (nonlinear_arith)
        requires
            0 <= s <= x * o,
            0 <= t <= y * o,
            z == x * y,
            x >= 1,
            y >= 1,
            o > 0,
    ;
    assert(z * (o * o) <= error::limit() * o && z * (o * o) + h * o <= 2 * (z * (o * o)))
        by (nonlinear_arith)
        requires
            1 <= z <= 0x100_0000_0000_0000,
            error::limit() == o * 0x1000_0000_0000_0000,
            h <= o,
            o > 0,
    ;
    error::lemma_product_close(a, b);
    let p = arith::product(a, b).units();
    assert((-u) * v == -(u * v) && u * (-v) == -(u * v) && (-u) * (-v) == u * v)
        by (nonlinear_arith);
    assert(arith::absolute(u * v) == s * t);
    error::lemma_distance(p * o, u * v, o, z * (o * o));
    let (g, q) = (arith::absolute(p * o - u * v), arith::absolute(p));
    assert(g <= z * (o * o)) by (nonlinear_arith)
        requires
            g * h <= z * (o * o),
            h >= 1,
            g >= 0,
    ;
    assert(arith::absolute(p * o) == q * o) by {
        assert((-p) * o == -(p * o)) by (nonlinear_arith);
        assert(q * o >= 0) by (nonlinear_arith)
            requires
                q >= 0,
                o > 0,
        ;
    }
    assert(q <= (2 * z) * o) by (nonlinear_arith)
        requires
            q * o <= 2 * (z * (o * o)),
            o > 0,
    ;
}

/// Under a projection the block along x of a point is cut from a position that is the scale
/// times the cosine times the earth's radius times the angle from the middle longitude, each
/// product rounded once, for every scale there is. The steps are the middle longitude, the
/// degrees from it, these in radians, the way along the equator, the way along the parallel
/// of the middle latitude, and the position.
pub proof fn law_projected_steps_along_x(
    bbox: LLBBox,
    scale: F64,
    corners: Corners,
    cosine: F64,
    log_tan: F64,
    made: (CoordTransformer, XZBBox),
    point: LLPoint,
    point_log_tan: F64,
    block: XZPoint,
) -> (steps: (F64, F64, F64, F64, F64, F64))
    requires
        bbox@.valid(),
        llpoint::is_longitude(point@.lng),
        scale.finite(),
        positions::is_cosine(cosine),
        call_ensures(
            CoordTransformer::with_projection,
            (&bbox, scale, &corners, cosine, log_tan),
            Ok(made),
        ),
        call_ensures(CoordTransformer::transform_point, (&made.0, point, point_log_tan), block),
    ensures
        ({
            let (middle, degrees, angle, way, narrowed, x) = steps;
            let o = cast::one();
            &&& positions::is_about(
                2 * middle.units(),
                bbox@.min_lng.units() + bbox@.max_lng.units(),
                366 * o,
            )
            &&& exact::is_nearest_number(degrees, point@.lng.units() - middle.units(), 1)
            &&& exact::is_nearest_number(angle, degrees.units() * positions::degree(), o)
            &&& exact::is_nearest_number(way, (6_371_000 * o) * angle.units(), o)
            &&& exact::is_nearest_number(narrowed, way.units() * cosine.units(), o)
            &&& exact::is_nearest_number(x, narrowed.units() * scale.units(), o)
            &&& positions::is_cut(x, block.x as int)
        }),
{
    let b = bbox@;
    let (steps, x) = lemma_projected_steps(b.min_lng, b.max_lng, cosine, scale, point@.lng);
    let f = transformation::projected_frame(b, scale, corners.blocks(), cosine, log_tan);
    positions::law_blocks_are_cut_positions(f, point@.lat, point@.lng, point_log_tan);
    assert(f.position(point@.lat, point@.lng, point_log_tan).0 == x);
    (steps.0, steps.1, steps.2, steps.3, steps.4, x)
}

/// The steps of a position along x under a projection.
#[verifier::spinoff_prover]
proof fn lemma_projected_steps(min: F64, max: F64, cosine: F64, scale: F64, lng: F64) -> (r: (
    (F64, F64, F64, F64, F64),
    F64,
))
    requires
        llpoint::is_longitude(min) && llpoint::is_longitude(max) && llpoint::is_longitude(lng),
        scale.finite(),
        positions::is_cosine(cosine),
    ensures
        ({
            let ((middle, degrees, angle, way, narrowed), x) = r;
            let o = cast::one();
            &&& positions::is_about(2 * middle.units(), min.units() + max.units(), 366 * o)
            &&& exact::is_nearest_number(degrees, lng.units() - middle.units(), 1)
            &&& exact::is_nearest_number(angle, degrees.units() * positions::degree(), o)
            &&& exact::is_nearest_number(way, (6_371_000 * o) * angle.units(), o)
            &&& exact::is_nearest_number(narrowed, way.units() * cosine.units(), o)
            &&& exact::is_nearest_number(x, narrowed.units() * scale.units(), o)
            &&& x == arith::product(
                arith::product(
                    arith::product(
                        cast::of_integer(6_371_000),
                        angle::radians(
                            arith::difference(lng, transformation::halfway(min, max)),
                        ),
                    ),
                    cosine,
                ),
                scale,
            )
        }),
{
    let o = cast::one();
    excess::lemma_weight_of_one();
    vstd::arithmetic::power2::lemma2_to64_rest();
    llpoint::lemma_of_degrees(min, 180);
    llpoint::lemma_of_degrees(max, 180);
    llpoint::lemma_of_degrees(lng, 180);
    positions::lemma_halfway(min, max);
    let middle = transformation::halfway(min, max);
    assert(180 * o <= 200 * o && 181 * o <= 200 * o) by (nonlinear_arith)
        requires
            o > 0,
    ;
    lemma_small_difference(lng, middle);
    let degrees = arith::difference(lng, middle);
    let way = lemma_way(degrees);
    lemma_finite_times_one(way, cosine);
    exact::lemma_product(way, cosine);
    let narrowed = arith::product(way, cosine);
    exact::lemma_product(narrowed, scale);
    ((middle, degrees, angle::radians(degrees), way, narrowed), arith::product(narrowed, scale))
}

/// The way along the equator for some degrees.
#[verifier::spinoff_prover]
proof fn lemma_way(degrees: F64) -> (way: F64)
    requires
        degrees.finite(),
        arith::absolute(degrees.units()) <= 401 * cast::one(),
    ensures
        ({
            let (o, turned) = (cast::one(), angle::radians(degrees));
            &&& exact::is_nearest_number(turned, degrees.units() * positions::degree(), o)
            &&& way == arith::product(cast::of_integer(6_371_000), turned)
            &&& exact::is_nearest_number(way, (6_371_000 * o) * turned.units(), o)
            &&& way.finite()
            &&& arith::absolute(way.units()) <= 0x100_0000_0000_0000 * o
        }),
{
    let o = cast::one();
    excess::lemma_weight_of_one();
    vstd::arithmetic::power2::lemma2_to64_rest();
    angle::law_angles_are_parts_of_pi();
    let f = F64 { bits: angle::RADIANS_PER_DEGREE_BITS };
    let rho = f.units();
    assert(0 < rho <= o) by (nonlinear_arith)
        requires
            314_159_265_358_979 * o * 1 <= 100_000_000_000_000 * rho * 180
                <= 314_159_265_358_980 * o * 1,
            o > 0,
    ;
    assert(1 * o == o);
    lemma_small_product(degrees, f, 401, 1);
    let turned = angle::radians(degrees);
    error::lemma_integer_value(6_371_000);
    let radius = cast::of_integer(6_371_000);
    lemma_small_product(radius, turned, 6_371_000, 802);
    let way = arith::product(radius, turned);
    assert((2 * (6_371_000 * 802)) * o <= 0x100_0000_0000_0000 * o) by (nonlinear_arith)
        requires
            o > 0,
    ;
    way
}

/// Under a projection the block along z of a point is cut from a position that is the sum of
/// two ways, each rounded step by step, for every scale there is: the earth's radius times
/// the logarithm of the point, to the north, and the radius times that of the middle latitude,
/// back to the south, each times the scale. The steps are the two ways, the two in blocks, and
/// the position.
pub proof fn law_projected_steps_along_z(
    bbox: LLBBox,
    scale: F64,
    corners: Corners,
    cosine: F64,
    log_tan: F64,
    made: (CoordTransformer, XZBBox),
    point: LLPoint,
    point_log_tan: F64,
    block: XZPoint,
) -> (steps: (F64, F64, F64, F64, F64))
    requires
        bbox@.valid(),
        scale.finite(),
        positions::is_log_tan(log_tan),
        positions::is_log_tan(point_log_tan),
        call_ensures(
            CoordTransformer::with_projection,
            (&bbox, scale, &corners, cosine, log_tan),
            Ok(made),
        ),
        call_ensures(CoordTransformer::transform_point, (&made.0, point, point_log_tan), block),
    ensures
        ({
            let (north, south, up, down, z) = steps;
            let o = cast::one();
            &&& exact::is_nearest_number(north, (-6_371_000 * o) * point_log_tan.units(), o)
            &&& exact::is_nearest_number(south, (6_371_000 * o) * log_tan.units(), o)
            &&& exact::is_nearest_number(up, north.units() * scale.units(), o)
            &&& exact::is_nearest_number(down, south.units() * scale.units(), o)
            &&& up.finite() && down.finite() ==> exact::is_nearest_number(
                z,
                up.units() + down.units(),
                1,
            )
            &&& positions::is_cut(z, block.z as int)
        }),
{
    let b = bbox@;
    let f = transformation::projected_frame(b, scale, corners.blocks(), cosine, log_tan);
    let (north, up) = lemma_radius_times(-6_371_000, point_log_tan, scale);
    let (south, down) = lemma_radius_times(6_371_000, log_tan, scale);
    let z = arith::sum(up, down);
    if up.finite() && down.finite() {
        exact::lemma_sum(up, down);
    }
    positions::law_blocks_are_cut_positions(f, point@.lat, point@.lng, point_log_tan);
    assert(f.position(point@.lat, point@.lng, point_log_tan).1 == z);
    (north, south, up, down, z)
}

/// The radius times a logarithm, in meters and in blocks.
#[verifier::spinoff_prover]
proof fn lemma_radius_times(radius: int, log: F64, scale: F64) -> (r: (F64, F64))
    requires
        radius == 6_371_000 || radius == -6_371_000,
        positions::is_log_tan(log),
        scale.finite(),
    ensures
        r.0 == arith::product(cast::of_integer(radius), log),
        r.1 == arith::product(r.0, scale),
        exact::is_nearest_number(r.0, (radius * cast::one()) * log.units(), cast::one()),
        exact::is_nearest_number(r.1, r.0.units() * scale.units(), cast::one()),
{
    let o = cast::one();
    excess::lemma_weight_of_one();
    vstd::arithmetic::power2::lemma2_to64_rest();
    error::lemma_integer_value(radius);
    let f = cast::of_integer(radius);
    assert(arith::absolute(f.units()) <= 6_371_000 * o) by (nonlinear_arith)
        requires
            f.units() == radius * o,
            radius == 6_371_000 || radius == -6_371_000,
            o > 0,
    ;
    lemma_small_product(f, log, 6_371_000, 64);
    let a = arith::product(f, log);
    exact::lemma_product(a, scale);
    (a, arith::product(a, scale))
}

/// A finite number times one of at most one is finite.
proof fn lemma_finite_times_one(a: F64, c: F64)
    requires
        a.finite() && c.finite(),
        arith::absolute(a.units()) <= 0x100_0000_0000_0000 * cast::one(),
        arith::absolute(c.units()) <= cast::one(),
    ensures
        arith::product(a, c).finite(),
{
    let o = cast::one();
    excess::lemma_weight_of_one();
    let (x, y) = (arith::absolute(a.units()), arith::absolute(c.units()));
    assert(x * y <= error::limit() * o) by (nonlinear_arith)
        requires
            0 <= x <= 0x100_0000_0000_0000 * o,
            0 <= y <= o,
            error::limit() == o * 0x1000_0000_0000_0000,
            o > 0,
    ;
    error::lemma_product_close(a, c);
}

/// In local mode the blocks of a point are cut from positions that are rounded step by step,
/// however far the point lies from the area: along x the degrees from the western edge, the
/// share of the area's width that they are, and that share of the blocks; along z the degrees
/// from the southern edge, the share of the area's height, what that leaves of one, and that
/// share of the blocks.
pub proof fn law_local_steps(
    bbox: LLBBox,
    scale: F64,
    distance: (F64, F64),
    made: (CoordTransformer, XZBBox),
    point: LLPoint,
    log_tan: F64,
    block: XZPoint,
) -> (steps: ((F64, F64, F64), (F64, F64, F64, F64)))
    requires
        bbox@.valid(),
        llpoint::is_latitude(point@.lat) && llpoint::is_longitude(point@.lng),
        call_ensures(CoordTransformer::llbbox_to_xzbbox, (&bbox, scale, distance), Ok(made)),
        call_ensures(CoordTransformer::transform_point, (&made.0, point, log_tan), block),
    ensures
        ({
            let ((east, share, x), (north, part, rest, z)) = steps;
            let (f, b, o) = (made.0@, bbox@, cast::one());
            &&& f.len_lng.units() > 0 && f.len_lat.units() > 0
            &&& exact::is_nearest_number(east, point@.lng.units() - b.min_lng.units(), 1)
            &&& exact::is_nearest_number(north, point@.lat.units() - b.min_lat.units(), 1)
            &&& east.finite() ==> exact::is_nearest_number(
                share,
                east.units() * o,
                f.len_lng.units(),
            )
            &&& north.finite() ==> exact::is_nearest_number(
                part,
                north.units() * o,
                f.len_lat.units(),
            )
            &&& share.finite() ==> exact::is_nearest_number(
                x,
                share.units() * f.scale_factor_x.units(),
                o,
            )
            &&& part.finite() ==> exact::is_nearest_number(rest, o - part.units(), 1)
            &&& rest.finite() ==> exact::is_nearest_number(
                z,
                rest.units() * f.scale_factor_z.units(),
                o,
            )
            &&& positions::is_cut(x, block.x as int)
            &&& positions::is_cut(z, block.z as int)
        }),
{
    let (f, b) = (made.0@, bbox@);
    tiling::lemma_span(b.min_lng, b.max_lng, 180);
    tiling::lemma_span(b.min_lat, b.max_lat, 90);
    crate::binary64::lemma_scale_order(f.len_lng.magnitude(), 0);
    crate::binary64::lemma_scale_order(f.len_lat.magnitude(), 0);
    transformation::lemma_length_is_finite(f.scale_factor_x);
    transformation::lemma_length_is_finite(f.scale_factor_z);
    llpoint::lemma_of_degrees(b.min_lng, 180);
    llpoint::lemma_of_degrees(b.min_lat, 90);
    llpoint::lemma_of_degrees(point@.lng, 180);
    llpoint::lemma_of_degrees(point@.lat, 90);
    let east = lemma_east(point@.lng, b.min_lng, f.len_lng, f.scale_factor_x);
    let north = lemma_north(point@.lat, b.min_lat, f.len_lat, f.scale_factor_z);
    positions::law_blocks_are_cut_positions(f, point@.lat, point@.lng, log_tan);
    assert(f.position(point@.lat, point@.lng, log_tan) == (east.2, north.3));
    (east, north)
}

/// The steps along x.
#[verifier::spinoff_prover]
proof fn lemma_east(lng: F64, min: F64, len: F64, blocks: F64) -> (r: (F64, F64, F64))
    requires
        lng.finite() && min.finite() && len.finite() && blocks.finite(),
        len.units() > 0,
    ensures
        r.0 == arith::difference(lng, min),
        r.1 == arith::quotient(r.0, len),
        r.2 == arith::product(r.1, blocks),
        exact::is_nearest_number(r.0, lng.units() - min.units(), 1),
        r.0.finite() ==> exact::is_nearest_number(r.1, r.0.units() * cast::one(), len.units()),
        r.1.finite() ==> exact::is_nearest_number(
            r.2,
            r.1.units() * blocks.units(),
            cast::one(),
        ),
{
    exact::lemma_difference(lng, min);
    let d = arith::difference(lng, min);
    if d.finite() {
        exact::lemma_quotient(d, len);
    }
    let q = arith::quotient(d, len);
    if q.finite() {
        exact::lemma_product(q, blocks);
    }
    (d, q, arith::product(q, blocks))
}

/// The steps along z.
#[verifier::spinoff_prover]
proof fn lemma_north(lat: F64, min: F64, len: F64, blocks: F64) -> (r: (F64, F64, F64, F64))
    requires
        lat.finite() && min.finite() && len.finite() && blocks.finite(),
        len.units() > 0,
    ensures
        r.0 == arith::difference(lat, min),
        r.1 == arith::quotient(r.0, len),
        r.2 == arith::difference(cast::of_integer(1), r.1),
        r.3 == arith::product(r.2, blocks),
        exact::is_nearest_number(r.0, lat.units() - min.units(), 1),
        r.0.finite() ==> exact::is_nearest_number(r.1, r.0.units() * cast::one(), len.units()),
        r.1.finite() ==> exact::is_nearest_number(r.2, cast::one() - r.1.units(), 1),
        r.2.finite() ==> exact::is_nearest_number(
            r.3,
            r.2.units() * blocks.units(),
            cast::one(),
        ),
{
    vstd::arithmetic::power2::lemma2_to64_rest();
    error::lemma_integer_value(1);
    assert(1 * cast::one() == cast::one());
    let one = cast::of_integer(1);
    exact::lemma_difference(lat, min);
    let d = arith::difference(lat, min);
    if d.finite() {
        exact::lemma_quotient(d, len);
    }
    let q = arith::quotient(d, len);
    if q.finite() {
        exact::lemma_difference(one, q);
    }
    let t = arith::difference(one, q);
    if t.finite() {
        exact::lemma_product(t, blocks);
    }
    (d, q, t, arith::product(t, blocks))
}

/// The blocks that an area spans are its whole meters times the scale, rounded once, for
/// every scale there is: from west to east, and from south to north.
pub proof fn law_lengths_step_by_step(
    bbox: LLBBox,
    scale: F64,
    distance: (F64, F64),
    made: (CoordTransformer, XZBBox),
    x: F64,
    z: F64,
)
    requires
        scale.finite(),
        is_distance(distance.0) && is_distance(distance.1),
        call_ensures(CoordTransformer::llbbox_to_xzbbox, (&bbox, scale, distance), Ok(made)),
        call_ensures(CoordTransformer::scale_factor_x, (&made.0,), x),
        call_ensures(CoordTransformer::scale_factor_z, (&made.0,), z),
    ensures
        ({
            let o = cast::one();
            let (north, east) = (distance.0.units() / o, distance.1.units() / o);
            &&& exact::is_nearest_number(x, (east * o) * scale.units(), o)
            &&& exact::is_nearest_number(z, (north * o) * scale.units(), o)
        }),
{
    lemma_length_steps(distance.0, scale);
    lemma_length_steps(distance.1, scale);
}

/// Whether a number is a distance in meters: from zero to some hundred billion kilometers.
pub open spec fn is_distance(a: F64) -> bool {
    a.finite() && 0 <= a.units() <= 0x1_0000_0000_0000 * cast::one()
}

proof fn lemma_length_steps(meters: F64, scale: F64)
    requires
        scale.finite(),
        is_distance(meters),
    ensures
        exact::is_nearest_number(
            transformation::scaled_length(meters, scale),
            ((meters.units() / cast::one()) * cast::one()) * scale.units(),
            cast::one(),
        ),
{
    let (o, u) = (cast::one(), meters.units());
    excess::lemma_weight_of_one();
    let k = u / o;
    vstd::arithmetic::div_mod::lemma_fundamental_div_mod(u, o);
    assert(o * k == k * o && (k - 1) * o == k * o - o && (k + 1) * o == k * o + o)
        by (nonlinear_arith);
    exact::lemma_whole_number(meters, k);
    exact::lemma_product(cast::with_whole(meters, k), scale);
}

/// A run over a part of an area fails just where a run over the whole area does, with the
/// same error.
pub proof fn law_parts_fail_with_the_whole(
    whole: LLBBox,
    part: LLBBox,
    scale: F64,
    distance: (F64, F64),
    of_whole: Result<(CoordTransformer, XZBBox), TransformError>,
    of_part: Result<(CoordTransformer, XZBBox), TransformError>,
)
    requires
        call_ensures(CoordTransformer::llbbox_to_xzbbox, (&whole, scale, distance), of_whole),
        call_ensures(
            CoordTransformer::llbbox_to_xzbbox_with_reference,
            (&whole, &part, scale, distance),
            of_part,
        ),
    ensures
        of_whole is Ok <==> of_part is Ok,
        of_whole is Err ==> of_part == of_whole,
        of_whole matches Ok(w) ==> (of_part matches Ok(p) && p.0@ == w.0@),
{
}

} // verus!
