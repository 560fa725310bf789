//! The blocks of a part of an area, in the frame of the whole.

use vstd::prelude::*;
use vstd::arithmetic::power2::*;
use crate::binary64;
use crate::binary64::F64;
use crate::binary64::arith;
use crate::binary64::cast;
use crate::binary64::error;
use crate::binary64::exact;
use crate::binary64::excess;
use crate::binary64::laws;
use crate::binary64::order;
use crate::binary64::round;
use crate::coordinate_system::cartesian;
use crate::coordinate_system::cartesian::{XZBBox, XZPoint};
use crate::coordinate_system::cutting;
use crate::coordinate_system::directions;
use crate::coordinate_system::geographic::llbbox::{Edges, LLBBox};
use crate::coordinate_system::geographic::llpoint;
use crate::coordinate_system::geographic::llpoint::LLPoint;
use crate::coordinate_system::geographic::tiling;
use crate::coordinate_system::positions;
use crate::coordinate_system::projection;
use crate::coordinate_system::transformation;
use crate::coordinate_system::transformation::{CoordTransformer, Frame};

verus! {

/// Whether `k` is the integer nearest to a number.
pub open spec fn is_nearest_block(a: F64, k: int) -> bool {
    2 * arith::absolute(k * cast::one() - a.units()) <= cast::one()
}

/// Rounding a position to a block.
proof fn lemma_rounded(a: F64)
    requires
        !a.nan(),
        0 <= a.units() <= 0x7fff_ffff * cast::one(),
    ensures
        is_nearest_block(a, transformation::rounded_block(a) as int),
        cast::as_i32(a) <= transformation::rounded_block(a) <= cast::as_i32(a) + 1,
{
    let o = cast::one();
    excess::lemma_weight_of_one();
    lemma2_to64();
    lemma2_to64_rest();
    let v = binary64::scale(a.magnitude()) as int;
    assert(v == a.units());
    let top = binary64::INFINITY_BITS as nat;
    error::lemma_integer_value(0x7fff_ffff);
    binary64::lemma_scale_order(a.magnitude(), top);
    binary64::lemma_scale_order(cast::of_integer(0x7fff_ffff).magnitude(), top);
    assert(a.finite());
    let k = (2 * v + o) / (2 * o);
    vstd::arithmetic::div_mod::lemma_fundamental_div_mod(2 * v + o, 2 * o);
    assert((2 * o) * k == 2 * (k * o)) by (nonlinear_arith);
    assert(2 * arith::absolute(k * o - v) <= o);
    assert(0 <= k <= 0x7fff_ffff) by (nonlinear_arith)
        requires
            2 * (k * o) <= 2 * v + o < 2 * (k * o) + 2 * o,
            0 <= v <= 0x7fff_ffff * o,
            o > 0,
    ;
    error::lemma_integer_value(k);
    if a.negative() {
        assert(v == 0);
        assert(k == 0) by {
            vstd::arithmetic::div_mod::lemma_basic_div(o, 2 * o);
        }
    }
    assert(cast::rounded(a) == k);
    let w = cast::with_whole(a, k);
    laws::lemma_signed(a.negative(), round::nearest(k * o, 1));
    assert(binary64::scale(w.magnitude()) == k * o);
    vstd::arithmetic::div_mod::lemma_div_multiples_vanish(k, o);
    assert(k * o == o * k) by (nonlinear_arith);
    if a.negative() {
        assert(0 * o == 0);
    }
    assert(transformation::rounded_block(a) == k);
    positions::lemma_cut(a);
    let t = cast::as_i32(a);
    assert(t <= k <= t + 1) by (nonlinear_arith)
        requires
            t * o <= v < (t + 1) * o,
            2 * (k * o) <= 2 * v + o < 2 * (k * o) + 2 * o,
            o > 0,
    ;
}

/// The share of an axis that lies before a point of it is between zero and one.
proof fn lemma_share(min: F64, max: F64, a: F64, bound: int)
    requires
        bound == 90 || bound == 180,
        llpoint::within(min, bound),
        llpoint::within(max, bound),
        min.below(max),
        min.at_most(a) && a.at_most(max),
    ensures
        ({
            let q = arith::quotient(arith::difference(a, min), arith::difference(max, min));
            &&& q.finite()
            &&& 0 <= q.units() <= cast::one()
        }),
{
    tiling::lemma_span(min, max, bound);
    let len = arith::difference(max, min);
    laws::law_difference_with_itself(min);
    laws::lemma_signed(false, 0);
    let zero = arith::difference(min, min);
    order::law_differences_keep_order(min, a, min);
    order::law_differences_keep_order(a, max, min);
    let d = arith::difference(a, min);
    order::law_quotients_by_a_positive_number_keep_order(zero, d, len);
    order::law_quotients_by_a_positive_number_keep_order(d, len, len);
    laws::law_zero_quotient(zero, len);
    laws::law_quotient_with_itself(len);
    laws::lemma_one();
    assert(binary64::scale(0) == 0);
    let q = arith::quotient(d, len);
    let top = binary64::INFINITY_BITS as nat;
    binary64::lemma_scale_order(q.magnitude(), top);
    binary64::lemma_scale_order(cast::of_integer(1).magnitude(), top);
}

/// What is left of one of such a share is one, too.
proof fn lemma_rest(q: F64)
    requires
        q.finite(),
        0 <= q.units() <= cast::one(),
    ensures
        ({
            let t = arith::difference(cast::of_integer(1), q);
            &&& t.finite()
            &&& 0 <= t.units() <= cast::one()
        }),
{
    let one = cast::of_integer(1);
    let zero = binary64::signed(false, 0);
    laws::lemma_signed(false, 0);
    assert(binary64::scale(0) == 0);
    laws::lemma_one();
    order::law_taking_off_more_leaves_no_more(one, zero, q);
    order::law_taking_off_more_leaves_no_more(one, q, one);
    laws::law_one_less_zero(zero);
    laws::law_difference_with_itself(one);
    let t = arith::difference(one, q);
    let top = binary64::INFINITY_BITS as nat;
    binary64::lemma_scale_order(t.magnitude(), top);
    binary64::lemma_scale_order(one.magnitude(), top);
}

/// Such a share of an axis, in blocks, is on the axis.
proof fn lemma_blocks(q: F64, blocks: F64)
    requires
        q.finite(),
        0 <= q.units() <= cast::one(),
        cartesian::is_length(blocks),
    ensures
        ({
            let x = arith::product(q, blocks);
            &&& !x.nan()
            &&& 0 <= x.units() <= 0x7fff_ffff * cast::one()
        }),
{
    lemma2_to64_rest();
    error::lemma_integer_value(0);
    error::lemma_integer_value(0x7fff_ffff);
    assert(0 * cast::one() == 0);
    transformation::lemma_length_is_finite(blocks);
    binary64::lemma_scale_order(blocks.magnitude(), 0);
    excess::lemma_weight_of_one();
    assert(binary64::scale(0) == 0);
    if blocks.magnitude() == 0 {
        laws::law_zero_product(blocks, q);
    } else {
        let zero = binary64::signed(false, 0);
        laws::lemma_signed(false, 0);
        laws::lemma_one();
        let one = cast::of_integer(1);
        order::law_products_by_a_positive_number_keep_order(blocks, zero, q);
        order::law_products_by_a_positive_number_keep_order(blocks, q, one);
        laws::law_zero_product(zero, blocks);
        laws::law_one_product(blocks);
    }
}

/// Positions of an area's points lie between zero and the largest block there is.
proof fn lemma_on_axis(f: Frame, edges: Edges, lat: F64, lng: F64)
    requires
        edges.valid(),
        edges.covers(lat, lng),
        f.min_lat == edges.min_lat && f.min_lng == edges.min_lng,
        f.len_lat == edges.lat_span() && f.len_lng == edges.lng_span(),
        cartesian::is_length(f.scale_factor_x),
        cartesian::is_length(f.scale_factor_z),
    ensures
        !f.local_x(lng).nan() && !f.local_z(lat).nan(),
        0 <= f.local_x(lng).units() <= 0x7fff_ffff * cast::one(),
        0 <= f.local_z(lat).units() <= 0x7fff_ffff * cast::one(),
{
    lemma_share(edges.min_lng, edges.max_lng, lng, 180);
    lemma_share(edges.min_lat, edges.max_lat, lat, 90);
    let q = arith::quotient(arith::difference(lng, f.min_lng), f.len_lng);
    let r = arith::quotient(arith::difference(lat, f.min_lat), f.len_lat);
    lemma_blocks(q, f.scale_factor_x);
    lemma_rest(r);
    lemma_blocks(arith::difference(cast::of_integer(1), r), f.scale_factor_z);
}

/// The box of a part starts with the block nearest to the part's north-west corner, and
/// ends with the block of its south-east corner, unless that comes before the start.
///
/// So it holds the block of every point that the part covers, but for the rounding of its
/// start; points west or north of the part come no later than its start, and points east or
/// south of it no earlier than its end.
pub proof fn law_part_box_holds_just_its_points(
    edges: Edges,
    scale: F64,
    south_north: F64,
    west_east: F64,
    part: Edges,
    lat: F64,
    lng: F64,
    log_tan: F64,
)
    requires
        edges.valid(),
        part.valid(),
        transformation::is_local(
            transformation::local_frame(edges, scale, south_north, west_east),
            scale,
        ),
        edges.covers(part.min_lat, part.min_lng),
        edges.covers(part.max_lat, part.max_lng),
        llpoint::is_latitude(lat),
        llpoint::is_longitude(lng),
    ensures
        ({
            let f = transformation::local_frame(edges, scale, south_north, west_east);
            let r = transformation::part_blocks(f, part);
            let p = f.block(lat, lng, log_tan);
            let end = f.block(part.min_lat, part.max_lng, log_tan);
            &&& is_nearest_block(f.position(part.max_lat, part.min_lng, log_tan).0, r.min.x as int)
            &&& is_nearest_block(f.position(part.max_lat, part.min_lng, log_tan).1, r.min.z as int)
            &&& r.max.x == end.x || (r.max.x == r.min.x && end.x < r.min.x)
            &&& r.max.z == end.z || (r.max.z == r.min.z && end.z < r.min.z)
            &&& part.covers(lat, lng) ==> r.min.x - 1 <= p.x <= r.max.x && r.min.z - 1 <= p.z
                <= r.max.z
            &&& lng.at_most(part.min_lng) ==> p.x <= r.min.x
            &&& part.max_lat.at_most(lat) ==> p.z <= r.min.z
            &&& part.max_lng.at_most(lng) ==> p.x >= r.max.x || r.max.x == r.min.x
            &&& lat.at_most(part.min_lat) ==> p.z >= r.max.z || r.max.z == r.min.z
        }),
{
    let f = transformation::local_frame(edges, scale, south_north, west_east);
    directions::law_local_frames_are_directed(edges, scale, south_north, west_east);
    lemma_on_axis(f, edges, part.max_lat, part.min_lng);
    lemma_rounded(f.local_x(part.min_lng));
    lemma_rounded(f.local_z(part.max_lat));
    positions::lemma_cut(f.local_x(part.min_lng));
    positions::lemma_cut(f.local_z(part.max_lat));
    positions::lemma_cut(f.local_x(part.max_lng));
    positions::lemma_cut(f.local_z(part.min_lat));
    positions::lemma_cut(f.local_x(lng));
    positions::lemma_cut(f.local_z(lat));
    let (nw_lat, nw_lng) = (part.max_lat, part.min_lng);
    let (se_lat, se_lng) = (part.min_lat, part.max_lng);
    if nw_lng.at_most(lng) {
        directions::law_east_is_not_less_x(f, nw_lat, nw_lng, log_tan, lat, lng, log_tan);
    }
    if lng.at_most(nw_lng) {
        directions::law_east_is_not_less_x(f, lat, lng, log_tan, nw_lat, nw_lng, log_tan);
    }
    if lng.at_most(se_lng) {
        directions::law_east_is_not_less_x(f, lat, lng, log_tan, se_lat, se_lng, log_tan);
    }
    if se_lng.at_most(lng) {
        directions::law_east_is_not_less_x(f, se_lat, se_lng, log_tan, lat, lng, log_tan);
    }
    if nw_lat.at_most(lat) {
        directions::law_north_is_not_more_z(f, nw_lat, nw_lng, log_tan, lat, lng, log_tan);
    }
    if lat.at_most(nw_lat) {
        directions::law_north_is_not_more_z(f, lat, lng, log_tan, nw_lat, nw_lng, log_tan);
    }
    if lat.at_most(se_lat) {
        directions::law_north_is_not_more_z(f, lat, lng, log_tan, se_lat, se_lng, log_tan);
    }
    if se_lat.at_most(lat) {
        directions::law_north_is_not_more_z(f, se_lat, se_lng, log_tan, lat, lng, log_tan);
    }
}

/// A part whose corners are handed over as the coordinates of blocks has a box that
/// starts on the first block and ends within a block of the last.
pub proof fn law_part_box_lies_between_its_blocks(
    edges: Edges,
    scale: F64,
    south_north: F64,
    west_east: F64,
    first: (i32, i32),
    last: (i32, i32),
)
    requires
        edges.valid(),
        0 <= first.0 <= last.0 && 0 <= first.1 <= last.1,
        ({
            let f = transformation::local_frame(edges, scale, south_north, west_east);
            &&& transformation::is_local(f, scale)
            &&& cutting::is_distinct(f.scale_factor_x, f.len_lng)
            &&& cutting::is_distinct(f.scale_factor_z, f.len_lat)
            &&& cast::of_integer(last.0 as int).at_most(f.scale_factor_x)
            &&& cast::of_integer(last.1 as int).at_most(f.scale_factor_z)
        }),
    ensures
        ({
            let f = transformation::local_frame(edges, scale, south_north, west_east);
            let part = Edges {
                min_lat: f.lat_at(cast::of_integer(last.1 as int)),
                min_lng: f.lng_at(cast::of_integer(first.0 as int)),
                max_lat: f.lat_at(cast::of_integer(first.1 as int)),
                max_lng: f.lng_at(cast::of_integer(last.0 as int)),
            };
            let r = transformation::part_blocks(f, part);
            &&& (r.min.x, r.min.z) == first
            &&& last.0 - 1 <= r.max.x <= last.0
            &&& last.1 - 1 <= r.max.z <= last.1
        }),
{
    let f = transformation::local_frame(edges, scale, south_north, west_east);
    let (x0, z0) = (cast::of_integer(first.0 as int), cast::of_integer(first.1 as int));
    let (x1, z1) = (cast::of_integer(last.0 as int), cast::of_integer(last.1 as int));
    lemma2_to64_rest();
    excess::lemma_weight_of_one();
    laws::law_integers_keep_order(first.0 as int, last.0 as int);
    laws::law_integers_keep_order(first.1 as int, last.1 as int);
    laws::law_integers_keep_order(0, last.0 as int);
    laws::law_integers_keep_order(0, last.1 as int);
    error::lemma_integer_value(last.0 as int);
    error::lemma_integer_value(last.1 as int);
    cutting::law_cuts_land_on_their_blocks(
        edges,
        scale,
        south_north,
        west_east,
        first.0,
        first.1,
    );
    cutting::law_positions_come_back(edges, scale, south_north, west_east, x1, z1);
    lemma_cut_near(f.local_x(f.lng_at(x1)), last.0 as int);
    lemma_cut_near(f.local_z(f.lat_at(z1)), last.1 as int);
}

/// Less than half a block from a block's start lies that block or the one before.
pub proof fn lemma_cut_near(a: F64, k: int)
    requires
        a.finite(),
        0 <= k <= 0x7fff_ffff,
        2 * arith::absolute(a.units() - k * cast::one()) < cast::one(),
    ensures
        k - 1 <= cast::as_i32(a) <= k,
        k == 0 ==> cast::as_i32(a) == 0,
{
    let o = cast::one();
    excess::lemma_weight_of_one();
    positions::lemma_cut(a);
    let (t, u) = (cast::as_i32(a), a.units());
    let d = u - k * o;
    assert(u < 0x8000_0000 * o && u > -0x8000_0000 * o) by (nonlinear_arith)
        requires
            d == u - k * o,
            -o < 2 * d < o,
            0 <= k <= 0x7fff_ffff,
            o > 0,
    ;
    if u >= 0 {
        assert(k - 1 <= t <= k && (k == 0 ==> t == 0)) by (nonlinear_arith)
            requires
                t * o <= u < (t + 1) * o,
                d == u - k * o,
                -o < 2 * d < o,
                u >= 0,
                k >= 0,
                o > 0,
        ;
    } else {
        assert(k == 0 && t == 0) by (nonlinear_arith)
            requires
                (t - 1) * o < u <= t * o,
                d == u - k * o,
                -o < 2 * d < o,
                u < 0,
                k >= 0,
                o > 0,
        ;
    }
}

/// A run over a part of an area puts every point into the block that a run over the
/// whole area puts it into, and its box holds the block of a point, but for a block at the
/// edge, if and only if the part covers the point.
pub proof fn law_parts_lie_where_the_whole_does(
    whole: LLBBox,
    part: LLBBox,
    scale: F64,
    distance: (F64, F64),
    of_whole: (CoordTransformer, XZBBox),
    of_part: (CoordTransformer, XZBBox),
    point: LLPoint,
    log_tan: F64,
    block: XZPoint,
    part_block: XZPoint,
)
    requires
        whole@.valid() && part@.valid(),
        whole@.covers(part@.min_lat, part@.min_lng),
        whole@.covers(part@.max_lat, part@.max_lng),
        llpoint::is_latitude(point@.lat) && llpoint::is_longitude(point@.lng),
        call_ensures(
            CoordTransformer::llbbox_to_xzbbox,
            (&whole, scale, distance),
            Ok(of_whole),
        ),
        call_ensures(
            CoordTransformer::llbbox_to_xzbbox_with_reference,
            (&whole, &part, scale, distance),
            Ok(of_part),
        ),
        call_ensures(
            CoordTransformer::transform_point,
            (&of_whole.0, point, log_tan),
            block,
        ),
        call_ensures(
            CoordTransformer::transform_point,
            (&of_part.0, point, log_tan),
            part_block,
        ),
    ensures
        part_block == block,
        ({
            let (min, max) = (of_part.1@.min, of_part.1@.max);
            &&& min.x <= max.x && min.z <= max.z
            &&& part@.covers(point@.lat, point@.lng) ==> min.x - 1 <= block.x <= max.x && min.z - 1
                <= block.z <= max.z
            &&& point@.lng.at_most(part@.min_lng) ==> block.x <= min.x
            &&& part@.max_lat.at_most(point@.lat) ==> block.z <= min.z
            &&& part@.max_lng.at_most(point@.lng) ==> block.x >= max.x || max.x == min.x
            &&& point@.lat.at_most(part@.min_lat) ==> block.z >= max.z || max.z == min.z
        }),
{
    law_part_box_holds_just_its_points(
        whole@,
        scale,
        distance.0,
        distance.1,
        part@,
        point@.lat,
        point@.lng,
        log_tan,
    );
}

/// A position that is rounded, on either side of the origin.
proof fn lemma_rounded_anywhere(a: F64)
    requires
        is_position(a),
    ensures
        is_nearest_block(a, transformation::rounded_block(a) as int),
{
    let (o, u) = (cast::one(), a.units());
    excess::lemma_weight_of_one();
    assert(0x7fff_fff0 * o <= 0x1_0000_0000_0000 * o) by (nonlinear_arith)
        requires
            o > 0,
    ;
    exact::lemma_rounding(a);
    let k = cast::rounded(a);
    let w = cast::with_whole(a, k);
    assert(-0x7fff_ffff <= k <= 0x7fff_ffff) by (nonlinear_arith)
        requires
            -o <= 2 * (k * o - u) <= o,
            -0x7fff_fff0 * o <= u <= 0x7fff_fff0 * o,
            o > 0,
    ;
    projection::lemma_whole_block(w, k);
}

/// Whether a number is a position that blocks are counted to, with some to spare.
pub open spec fn is_position(a: F64) -> bool {
    a.finite() && arith::absolute(a.units()) <= 0x7fff_fff0 * cast::one()
}

/// Wherever a part lies, in the area or beside it, its box starts with the block nearest to
/// the position of its north-west corner. It ends with the block that a run over the whole
/// area puts its south-east corner into, unless that comes before the start.
pub proof fn law_parts_lie_at_their_corners(
    whole: LLBBox,
    part: LLBBox,
    scale: F64,
    distance: (F64, F64),
    of_whole: (CoordTransformer, XZBBox),
    of_part: (CoordTransformer, XZBBox),
    corner: LLPoint,
    log_tan: F64,
    block: XZPoint,
)
    requires
        call_ensures(
            CoordTransformer::llbbox_to_xzbbox,
            (&whole, scale, distance),
            Ok(of_whole),
        ),
        call_ensures(
            CoordTransformer::llbbox_to_xzbbox_with_reference,
            (&whole, &part, scale, distance),
            Ok(of_part),
        ),
        corner@.lat == part@.min_lat && corner@.lng == part@.max_lng,
        call_ensures(
            CoordTransformer::transform_point,
            (&of_whole.0, corner, log_tan),
            block,
        ),
        is_position(of_whole.0@.position(part@.max_lat, part@.min_lng, log_tan).0),
        is_position(of_whole.0@.position(part@.max_lat, part@.min_lng, log_tan).1),
    ensures
        ({
            let (x, z) = of_whole.0@.position(part@.max_lat, part@.min_lng, log_tan);
            let (min, max) = (of_part.1@.min, of_part.1@.max);
            &&& is_nearest_block(x, min.x as int)
            &&& is_nearest_block(z, min.z as int)
            &&& max.x == block.x || (max.x == min.x && block.x < min.x)
            &&& max.z == block.z || (max.z == min.z && block.z < min.z)
        }),
{
    let f = of_whole.0@;
    lemma_rounded_anywhere(f.local_x(part@.min_lng));
    lemma_rounded_anywhere(f.local_z(part@.max_lat));
    positions::lemma_cut(f.local_x(part@.max_lng));
    positions::lemma_cut(f.local_z(part@.min_lat));
}

} // verus!
