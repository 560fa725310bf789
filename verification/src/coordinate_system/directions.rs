//! Where points lie in the world relative to one another.

use vstd::prelude::*;
use vstd::arithmetic::power2::*;
use crate::binary64;
use crate::binary64::F64;
use crate::binary64::arith;
use crate::binary64::cast;
use crate::binary64::error;
use crate::binary64::laws;
use crate::binary64::order;
use crate::binary64::round;
use crate::coordinate_system::angle;
use crate::coordinate_system::cartesian;
use crate::coordinate_system::cartesian::{Blocks, XZPoint};
use crate::coordinate_system::geographic::llbbox::Edges;
use crate::coordinate_system::geographic::llpoint;
use crate::coordinate_system::geographic::tiling;
use crate::coordinate_system::transformation;
use crate::coordinate_system::transformation::{Corners, Frame, ProjectionMode, EARTH_RADIUS};

verus! {

/// Whether a number is finite and above zero.
pub open spec fn is_positive(a: F64) -> bool {
    a.finite() && !a.negative() && a.magnitude() != 0
}

/// Whether a number is finite and not below zero.
pub open spec fn is_extent(a: F64) -> bool {
    a.finite() && (!a.negative() || a.magnitude() == 0)
}

/// Whether the numbers that a frame works with are such that its directions make
/// sense.
pub open spec fn is_directed(f: Frame) -> bool {
    match f.mode {
        ProjectionMode::Local => {
            &&& f.min_lat.finite() && f.min_lng.finite()
            &&& is_positive(f.len_lat) && is_positive(f.len_lng)
            &&& is_extent(f.scale_factor_x) && is_extent(f.scale_factor_z)
        },
        ProjectionMode::WebMercator { origin_lon, scale, cos_lat_ref, z_offset, .. } => {
            &&& origin_lon.finite() && z_offset.finite()
            &&& is_positive(scale) && is_positive(cos_lat_ref)
        },
    }
}

/// Every local transformer has a frame with directions.
pub proof fn law_local_frames_are_directed(
    edges: Edges,
    scale: F64,
    south_north: F64,
    west_east: F64,
)
    requires
        edges.valid(),
        transformation::is_local(
            transformation::local_frame(edges, scale, south_north, west_east),
            scale,
        ),
    ensures
        is_directed(transformation::local_frame(edges, scale, south_north, west_east)),
{
    let f = transformation::local_frame(edges, scale, south_north, west_east);
    tiling::lemma_span(edges.min_lat, edges.max_lat, 90);
    tiling::lemma_span(edges.min_lng, edges.max_lng, 180);
    lemma_length_is_extent(f.scale_factor_x);
    lemma_length_is_extent(f.scale_factor_z);
}

proof fn lemma_length_is_extent(a: F64)
    requires
        cartesian::is_length(a),
    ensures
        is_extent(a),
{
    transformation::lemma_length_is_finite(a);
    lemma2_to64_rest();
    error::lemma_integer_value(0);
    assert(0 * cast::one() == 0);
    binary64::lemma_scale_order(a.magnitude(), 0);
}

/// Every projected transformer of an area whose middle latitude has a positive
/// cosine, and a finite logarithm of the tangent of its Mercator angle, has a frame
/// with directions, unless the scale is so large that the offset along z overflows.
pub proof fn law_projected_frames_are_directed(
    edges: Edges,
    scale: F64,
    b: Blocks,
    cosine: F64,
    log_tan: F64,
)
    requires
        edges.valid(),
        is_positive(scale),
        is_positive(cosine),
        arith::product(
            arith::product(cast::of_integer(EARTH_RADIUS as int), log_tan),
            scale,
        ).finite(),
    ensures
        is_directed(transformation::projected_frame(edges, scale, b, cosine, log_tan)),
{
    lemma_halfway_is_finite(edges.min_lng, edges.max_lng, 180);
}

/// What is known of the constants.
proof fn lemma_constants()
    ensures
        is_positive(cast::of_integer(EARTH_RADIUS as int)),
        is_positive(F64 { bits: angle::RADIANS_PER_DEGREE_BITS }),
        cast::of_integer(-(EARTH_RADIUS as int)) == arith::negation(
            cast::of_integer(EARTH_RADIUS as int),
        ),
{
    lemma2_to64();
    laws::lemma_integer_bound(EARTH_RADIUS as int, 32);
    laws::lemma_integer_bound(-(EARTH_RADIUS as int), 32);
    let r = cast::of_integer(EARTH_RADIUS as int);
    laws::law_integers_keep_order(1, EARTH_RADIUS as int);
    laws::lemma_one();
    assert(r.units() > 0);
    binary64::lemma_scale_order(r.magnitude(), 0);
    let m = round::nearest(EARTH_RADIUS * cast::one(), 1);
    lemma_pow2_pos(1074);
    round::lemma_nearest_exists(EARTH_RADIUS * cast::one(), 1);
    laws::lemma_signed(false, m);
}

/// Under a projection positions along x keep the order of longitudes.
proof fn lemma_projected_x(f: Frame, west: F64, east: F64)
    requires
        is_directed(f),
        f.mode is WebMercator,
        west.at_most(east),
    ensures
        ({
            let any = cast::of_integer(0);
            f.position(any, west, any).0.at_most(f.position(any, east, any).0)
        }),
{
    if let ProjectionMode::WebMercator { origin_lon, scale, cos_lat_ref, z_offset, .. } = f.mode {
        lemma_constants();
        let earth = cast::of_integer(EARTH_RADIUS as int);
        let degree = F64 { bits: angle::RADIANS_PER_DEGREE_BITS };
        order::law_differences_keep_order(west, east, origin_lon);
        let (a, b) = (arith::difference(west, origin_lon), arith::difference(east, origin_lon));
        order::law_products_by_a_positive_number_keep_order(degree, a, b);
        let (a, b) = (angle::radians(a), angle::radians(b));
        order::law_products_by_a_positive_number_keep_order(earth, a, b);
        let (a, b) = (arith::product(earth, a), arith::product(earth, b));
        order::law_products_by_a_positive_number_keep_order(cos_lat_ref, a, b);
        let (a, b) = (arith::product(a, cos_lat_ref), arith::product(b, cos_lat_ref));
        order::law_products_by_a_positive_number_keep_order(scale, a, b);
    }
}

/// Under a projection positions along z turn the order of the logarithms round.
proof fn lemma_projected_z(f: Frame, south: F64, north: F64)
    requires
        is_directed(f),
        f.mode is WebMercator,
        south.finite() && north.finite(),
        south.at_most(north),
    ensures
        ({
            let any = cast::of_integer(0);
            f.position(any, any, north).1.at_most(f.position(any, any, south).1)
        }),
{
    if let ProjectionMode::WebMercator { origin_lon, scale, cos_lat_ref, z_offset, .. } = f.mode {
        lemma_constants();
        let earth = cast::of_integer(EARTH_RADIUS as int);
        let minus = cast::of_integer(-(EARTH_RADIUS as int));
        order::law_products_by_a_negative_number_turn_order(earth, south, north);
        let (a, b) = (arith::product(minus, north), arith::product(minus, south));
        order::law_products_by_a_positive_number_keep_order(scale, a, b);
        let (a, b) = (arith::product(a, scale), arith::product(b, scale));
        laws::law_sums_keep_order(z_offset, a, b);
        order::law_sums_commute(z_offset, a);
        order::law_sums_commute(z_offset, b);
    }
}

/// Shares of an axis, in blocks, keep their order as integers. An axis may have no
/// blocks at all.
proof fn lemma_shares_in_blocks(q: F64, r: F64, blocks: F64)
    requires
        q.at_most(r),
        is_extent(blocks),
    ensures
        cast::as_i32(arith::product(q, blocks)) <= cast::as_i32(arith::product(r, blocks)),
{
    if blocks.magnitude() == 0 {
        lemma_nothing_left(q, blocks);
        lemma_nothing_left(r, blocks);
        transformation::lemma_nothing_is_in_block_zero(arith::product(q, blocks));
        transformation::lemma_nothing_is_in_block_zero(arith::product(r, blocks));
    } else {
        order::law_products_by_a_positive_number_keep_order(blocks, q, r);
        order::law_integer_parts_keep_order(arith::product(q, blocks), arith::product(r, blocks));
    }
}

/// Anything times zero is zero, or no number.
proof fn lemma_nothing_left(a: F64, zero: F64)
    requires
        zero.magnitude() == 0,
    ensures
        arith::product(a, zero).magnitude() == 0 || arith::product(a, zero).nan(),
{
    if a.finite() {
        laws::law_zero_product(zero, a);
    }
}

/// Positions along x depend on the longitude only, and a point that is farther east
/// does not lie farther west in the world.
pub proof fn law_east_is_not_less_x(
    f: Frame,
    p_lat: F64,
    p_lng: F64,
    p_log_tan: F64,
    q_lat: F64,
    q_lng: F64,
    q_log_tan: F64,
)
    requires
        is_directed(f),
        llpoint::is_longitude(p_lng),
        llpoint::is_longitude(q_lng),
        p_lng.at_most(q_lng),
    ensures
        f.block(p_lat, p_lng, p_log_tan).x <= f.block(q_lat, q_lng, q_log_tan).x,
        p_lng == q_lng ==> f.block(p_lat, p_lng, p_log_tan).x == f.block(q_lat, q_lng, q_log_tan).x,
{
    let any = cast::of_integer(0);
    match f.mode {
        ProjectionMode::Local => {
            order::law_differences_keep_order(p_lng, q_lng, f.min_lng);
            let (a, b) = (
                arith::difference(p_lng, f.min_lng),
                arith::difference(q_lng, f.min_lng),
            );
            order::law_quotients_by_a_positive_number_keep_order(a, b, f.len_lng);
            lemma_shares_in_blocks(
                arith::quotient(a, f.len_lng),
                arith::quotient(b, f.len_lng),
                f.scale_factor_x,
            );
        },
        ProjectionMode::WebMercator { .. } => {
            lemma_projected_x(f, p_lng, q_lng);
            order::law_integer_parts_keep_order(
                f.position(any, p_lng, any).0,
                f.position(any, q_lng, any).0,
            );
        },
    }
}

/// Positions along z depend on the latitude only, and a point that is farther north
/// does not lie farther south in the world. Under a projection the latitude shows
/// in the logarithm of the tangent of its Mercator angle.
pub proof fn law_north_is_not_more_z(
    f: Frame,
    p_lat: F64,
    p_lng: F64,
    p_log_tan: F64,
    q_lat: F64,
    q_lng: F64,
    q_log_tan: F64,
)
    requires
        is_directed(f),
        llpoint::is_latitude(p_lat),
        llpoint::is_latitude(q_lat),
        p_lat.at_most(q_lat),
        f.mode is WebMercator ==> p_log_tan.finite() && q_log_tan.finite() && p_log_tan.at_most(
            q_log_tan,
        ),
    ensures
        f.block(q_lat, q_lng, q_log_tan).z <= f.block(p_lat, p_lng, p_log_tan).z,
        p_lat == q_lat && p_log_tan == q_log_tan ==> f.block(p_lat, p_lng, p_log_tan).z == f.block(
            q_lat,
            q_lng,
            q_log_tan,
        ).z,
{
    let any = cast::of_integer(0);
    match f.mode {
        ProjectionMode::Local => {
            order::law_differences_keep_order(p_lat, q_lat, f.min_lat);
            let (a, b) = (
                arith::difference(p_lat, f.min_lat),
                arith::difference(q_lat, f.min_lat),
            );
            order::law_quotients_by_a_positive_number_keep_order(a, b, f.len_lat);
            let (a, b) = (arith::quotient(a, f.len_lat), arith::quotient(b, f.len_lat));
            laws::lemma_one();
            let one = cast::of_integer(1);
            order::law_taking_off_more_leaves_no_more(one, a, b);
            lemma_shares_in_blocks(
                arith::difference(one, b),
                arith::difference(one, a),
                f.scale_factor_z,
            );
        },
        ProjectionMode::WebMercator { .. } => {
            lemma_projected_z(f, p_log_tan, q_log_tan);
            order::law_integer_parts_keep_order(
                f.position(any, any, q_log_tan).1,
                f.position(any, any, p_log_tan).1,
            );
        },
    }
}

/// Under a projection the middle of the area lies in block zero, whatever the
/// functions of its latitude come out as.
pub proof fn law_origin_lies_in_block_zero(
    edges: Edges,
    scale: F64,
    b: Blocks,
    cosine: F64,
    log_tan: F64,
)
    requires
        edges.valid(),
    ensures
        transformation::projected_frame(edges, scale, b, cosine, log_tan).block(
            transformation::halfway(edges.min_lat, edges.max_lat),
            transformation::halfway(edges.min_lng, edges.max_lng),
            log_tan,
        ) == (XZPoint { x: 0, z: 0 }),
{
    lemma_halfway_is_finite(edges.min_lng, edges.max_lng, 180);
    lemma_origin_x(transformation::halfway(edges.min_lng, edges.max_lng), cosine, scale);
    lemma_origin_z(log_tan, scale);
}

proof fn lemma_origin_x(lon: F64, cosine: F64, scale: F64)
    requires
        lon.finite(),
    ensures
        cast::as_i32(
            arith::product(
                arith::product(
                    arith::product(
                        cast::of_integer(EARTH_RADIUS as int),
                        angle::radians(arith::difference(lon, lon)),
                    ),
                    cosine,
                ),
                scale,
            ),
        ) == 0,
{
    lemma_constants();
    let zero = binary64::signed(false, 0);
    laws::lemma_signed(false, 0);
    laws::law_difference_with_itself(lon);
    let degree = F64 { bits: angle::RADIANS_PER_DEGREE_BITS };
    let earth = cast::of_integer(EARTH_RADIUS as int);
    laws::law_zero_product(zero, degree);
    let r = angle::radians(zero);
    laws::law_zero_product(r, earth);
    let a = arith::product(earth, r);
    lemma_nothing(a, cosine);
    let b = arith::product(a, cosine);
    lemma_nothing(b, scale);
    transformation::lemma_nothing_is_in_block_zero(arith::product(b, scale));
}

proof fn lemma_origin_z(log_tan: F64, scale: F64)
    ensures
        cast::as_i32(
            arith::sum(
                arith::product(
                    arith::product(cast::of_integer(-(EARTH_RADIUS as int)), log_tan),
                    scale,
                ),
                arith::product(
                    arith::product(cast::of_integer(EARTH_RADIUS as int), log_tan),
                    scale,
                ),
            ),
        ) == 0,
{
    lemma_constants();
    let earth = cast::of_integer(EARTH_RADIUS as int);
    let minus = cast::of_integer(-(EARTH_RADIUS as int));
    laws::lemma_made_of_parts(earth);
    laws::lemma_signed(true, earth.magnitude());
    lemma_opposite_products(minus, earth, log_tan);
    let (a, b) = (arith::product(minus, log_tan), arith::product(earth, log_tan));
    lemma_opposite_products(a, b, scale);
    let (u, v) = (arith::product(a, scale), arith::product(b, scale));
    lemma_opposites_cancel(u, v);
    transformation::lemma_nothing_is_in_block_zero(arith::sum(u, v));
}

/// Zero, or a number that is none, times anything is such a number again.
proof fn lemma_nothing(a: F64, b: F64)
    requires
        a.magnitude() == 0 || a.nan(),
    ensures
        arith::product(a, b).magnitude() == 0 || arith::product(a, b).nan(),
{
    if a.magnitude() == 0 && b.finite() {
        laws::law_zero_product(a, b);
    }
}

/// Whether two numbers are opposite, or neither is a number.
spec fn is_opposite(a: F64, b: F64) -> bool {
    (a.nan() && b.nan()) || (!a.nan() && !b.nan() && a.magnitude() == b.magnitude()
        && a.negative() != b.negative())
}

proof fn lemma_opposite_products(a: F64, b: F64, c: F64)
    requires
        is_opposite(a, b),
    ensures
        is_opposite(arith::product(a, c), arith::product(b, c)),
{
    let (u, v, w) = (
        arith::absolute(a.units()),
        arith::absolute(b.units()),
        arith::absolute(c.units()),
    );
    if a.finite() && c.finite() {
        let o = cast::one();
        lemma_pow2_pos(1074);
        assert(u * w >= 0) by (nonlinear_arith)
            requires
                u >= 0,
                w >= 0,
        ;
        round::lemma_nearest_exists(u * w, o);
        let m = round::nearest(u * w, o);
        laws::lemma_signed(true, m);
        laws::lemma_signed(false, m);
    }
}

proof fn lemma_opposites_cancel(a: F64, b: F64)
    requires
        is_opposite(a, b),
    ensures
        arith::sum(a, b).magnitude() == 0 || arith::sum(a, b).nan(),
{
    laws::lemma_signed(false, 0);
    laws::lemma_signed(true, 0);
}

/// The middle of two coordinates is a finite number.
proof fn lemma_halfway_is_finite(a: F64, b: F64, bound: int)
    requires
        0 <= bound <= 180,
        llpoint::within(a, bound),
        llpoint::within(b, bound),
        a.below(b),
    ensures
        transformation::halfway(a, b).finite(),
{
    let o = cast::one();
    lemma2_to64_rest();
    lemma2_to64();
    lemma_pow2_pos(1074);
    lemma_pow2_adds(1074, 60);
    tiling::lemma_span(a, b, bound);
    error::lemma_integer_value(bound);
    error::lemma_integer_value(-bound);
    error::lemma_integer_value(2);
    assert(bound * o <= 180 * o) by (nonlinear_arith)
        requires
            bound <= 180,
            o > 0,
    ;
    assert((-bound) * o == -(bound * o)) by (nonlinear_arith);
    let limit = error::limit();
    error::lemma_sum_close(a, b);
    let s = arith::sum(a, b);
    let two = cast::of_integer(2);
    let h = binary64::HIDDEN_BIT as int;
    lemma_pow2_adds(52, 1022);
    lemma_pow2_pos(1022);
    assert(h <= o) by (nonlinear_arith)
        requires
            o == h * pow2(1022),
            pow2(1022) >= 1,
            h > 0,
    ;
    let n = a.units() + b.units();
    assert(arith::absolute(s.units()) <= 1000 * o) by {
        let e = arith::absolute(s.units() - n);
        assert(e <= o) by (nonlinear_arith)
            requires
                (s.units() - n) * (2 * h) <= 400 * o + h,
                (n - s.units()) * (2 * h) <= 400 * o + h,
                e == s.units() - n || e == n - s.units(),
                h <= o,
                h >= 1000,
                o > 0,
        ;
    }
    let t = arith::absolute(s.units());
    assert(t * o <= limit * two.units()) by (nonlinear_arith)
        requires
            0 <= t <= 1000 * o,
            limit == o * 0x1000_0000_0000_0000,
            two.units() == 2 * o,
            o > 0,
    ;
    error::lemma_quotient_close(s, two);
}

/// The blocks of the corners' envelope hold every corner.
pub proof fn law_envelope_holds_the_corners(c: Corners, x: F64, z: F64)
    requires
        (x, z) == c.nw || (x, z) == c.se || (x, z) == c.ne || (x, z) == c.sw,
        !x.nan() && !z.nan(),
    ensures
        c.blocks().min.x <= cast::as_i32(x) <= c.blocks().max.x,
        c.blocks().min.z <= cast::as_i32(z) <= c.blocks().max.z,
{
    lemma_between(c.nw.0, c.sw.0, c.ne.0, c.se.0, x);
    lemma_between(c.nw.1, c.sw.1, c.ne.1, c.se.1, z);
}

/// Where the corners that a box is made of are the positions that the frame itself
/// gives the area's corners, and numbers, the box holds the block of every corner.
pub proof fn law_corners_lie_in_their_box(
    edges: Edges,
    scale: F64,
    c: Corners,
    cosine: F64,
    log_tan: F64,
    south: F64,
    north: F64,
)
    requires
        !c.nw.0.nan() && !c.nw.1.nan(),
        !c.se.0.nan() && !c.se.1.nan(),
        ({
            let f = transformation::projected_frame(edges, scale, c.blocks(), cosine, log_tan);
            &&& c.nw == f.position(edges.max_lat, edges.min_lng, north)
            &&& c.ne == f.position(edges.max_lat, edges.max_lng, north)
            &&& c.se == f.position(edges.min_lat, edges.max_lng, south)
            &&& c.sw == f.position(edges.min_lat, edges.min_lng, south)
        }),
    ensures
        ({
            let f = transformation::projected_frame(edges, scale, c.blocks(), cosine, log_tan);
            &&& holds(c.blocks(), f.block(edges.max_lat, edges.min_lng, north))
            &&& holds(c.blocks(), f.block(edges.max_lat, edges.max_lng, north))
            &&& holds(c.blocks(), f.block(edges.min_lat, edges.max_lng, south))
            &&& holds(c.blocks(), f.block(edges.min_lat, edges.min_lng, south))
        }),
{
    let f = transformation::projected_frame(edges, scale, c.blocks(), cosine, log_tan);
    law_envelope_holds_the_corners(c, c.nw.0, c.nw.1);
    law_envelope_holds_the_corners(c, c.ne.0, c.ne.1);
    law_envelope_holds_the_corners(c, c.se.0, c.se.1);
    law_envelope_holds_the_corners(c, c.sw.0, c.sw.1);
}

/// In a frame with directions the positions of points are numbers.
pub proof fn law_positions_are_numbers(f: Frame, lat: F64, lng: F64, log_tan: F64)
    requires
        is_directed(f),
        f.mode is WebMercator,
        !lng.nan(),
        log_tan.finite(),
    ensures
        !f.position(lat, lng, log_tan).0.nan(),
        !f.position(lat, lng, log_tan).1.nan(),
{
    lemma_projected_x(f, lng, lng);
    lemma_projected_z(f, log_tan, log_tan);
}

/// Whether a block is one of those from the first to the last.
pub open spec fn holds(b: Blocks, p: XZPoint) -> bool {
    b.min.x <= p.x <= b.max.x && b.min.z <= p.z <= b.max.z
}

proof fn lemma_between(a: F64, b: F64, c: F64, d: F64, x: F64)
    requires
        x == a || x == b || x == c || x == d,
        !x.nan(),
    ensures
        ({
            let least = transformation::least(a, b, c, d);
            let greatest = transformation::greatest(a, b, c, d);
            &&& cast::as_i32(cast::with_whole(least, cast::floored(least))) <= cast::as_i32(x)
            &&& cast::as_i32(x) <= cast::as_i32(cast::with_whole(greatest, cast::ceiled(greatest)))
        }),
{
    let least = transformation::least(a, b, c, d);
    let greatest = transformation::greatest(a, b, c, d);
    assert(least.at_most(x) && x.at_most(greatest));
    order::law_floors_are_not_above(least);
    order::law_ceilings_are_not_below(greatest);
    order::law_integer_parts_keep_order(cast::with_whole(least, cast::floored(least)), x);
    order::law_integer_parts_keep_order(x, cast::with_whole(greatest, cast::ceiled(greatest)));
}

} // verus!
