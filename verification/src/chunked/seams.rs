//! How chunks fit together.

use vstd::prelude::*;
use vstd::arithmetic::power2::*;
use crate::binary64;
use crate::binary64::F64;
use crate::binary64::arith;
use crate::binary64::cast;
use crate::binary64::decimal;
use crate::binary64::error;
use crate::binary64::laws;
use crate::binary64::order;
use crate::chunked::command_line;
use crate::chunked::command_line::EdgeTexts;
use crate::chunked::plan::{ChunkPlan, World};
use crate::coordinate_system::cartesian;
use crate::coordinate_system::cartesian::{XZBBox, XZPoint};
use crate::coordinate_system::cutting;
use crate::coordinate_system::directions;
use crate::coordinate_system::geographic::llbbox;
use crate::coordinate_system::geographic::llbbox::{Edges, LLBBox};
use crate::coordinate_system::geographic::llpoint;
use crate::coordinate_system::geographic::tiling;
use crate::coordinate_system::parts;
use crate::coordinate_system::positions;
use crate::coordinate_system::transformation;
use crate::coordinate_system::transformation::{CoordTransformer, Frame};
use crate::text;
use crate::text::Separator;

verus! {

/// The world of an area, cut into chunks.
pub open spec fn world_of(f: Frame, side: i32, margin: i32) -> World {
    let last = cartesian::from_lengths(f.scale_factor_x, f.scale_factor_z).max;
    World::of(last.x, last.z, side, margin)
}

/// A block that is not past the last one is not past the length of its axis.
proof fn lemma_block_is_on_axis(blocks: F64, b: int)
    requires
        cartesian::is_length(blocks),
        0 <= b <= cast::as_i32(blocks),
    ensures
        cast::of_integer(b).at_most(blocks),
{
    let o = cast::one();
    lemma_pow2_pos(1074);
    lemma2_to64_rest();
    lemma2_to64();
    error::lemma_integer_value(b);
    error::lemma_integer_value(0);
    let v = binary64::scale(blocks.magnitude()) as int;
    let t = v / o;
    vstd::arithmetic::div_mod::lemma_fundamental_div_mod(v, o);
    vstd::arithmetic::div_mod::lemma_div_pos_is_pos(v, o);
    assert(0 * o == 0);
    assert(o * t == t * o) by (nonlinear_arith);
    if b > 0 {
        assert(!blocks.negative());
        assert(b * o <= t * o) by (nonlinear_arith)
            requires
                b <= t,
                o > 0,
        ;
    }
}

/// The box that a chunk's own run works in starts where the chunk was to start:
/// the chunk's corner, which is handed to it in degrees, is taken back to the
/// block that it was cut at.
///
/// Blocks must not be so small that coordinates cannot tell them apart.
pub proof fn law_chunks_start_on_their_blocks(
    edges: Edges,
    scale: F64,
    south_north: F64,
    west_east: F64,
    side: i32,
    margin: i32,
    index: int,
)
    requires
        edges.valid(),
        margin >= 0,
        ({
            let f = transformation::local_frame(edges, scale, south_north, west_east);
            let w = world_of(f, side, margin);
            &&& transformation::is_local(f, scale)
            &&& cutting::is_distinct(f.scale_factor_x, f.len_lng)
            &&& cutting::is_distinct(f.scale_factor_z, f.len_lat)
            &&& w.valid()
            &&& 0 <= index < w.chunks() <= usize::MAX
        }),
    ensures
        ({
            let f = transformation::local_frame(edges, scale, south_north, west_east);
            let plan = world_of(f, side, margin).plans()[index];
            transformation::part_blocks(f, command_line::chunk_edges(f, plan)).min == (XZPoint {
                x: plan.block_x.0,
                z: plan.block_z.0,
            })
        }),
{
    let f = transformation::local_frame(edges, scale, south_north, west_east);
    let w = world_of(f, side, margin);
    let plan = w.plans()[index];
    w.law_chunks_start_in_the_world(index);
    w.law_chunks_start_with_a_region(index);
    cartesian::lemma_length_is_not_negative(f.scale_factor_x);
    cartesian::lemma_length_is_not_negative(f.scale_factor_z);
    lemma_block_is_on_axis(f.scale_factor_x, plan.block_x.0 as int);
    lemma_block_is_on_axis(f.scale_factor_z, plan.block_z.0 as int);
    cutting::law_cuts_land_on_their_blocks(
        edges,
        scale,
        south_north,
        west_east,
        plan.block_x.0,
        plan.block_z.0,
    );
}

/// Longitudes of positions keep their order, and latitudes turn it round.
proof fn lemma_coordinates_in_order(f: Frame, x: F64, y: F64)
    requires
        x.finite() && y.finite(),
        x.at_most(y),
        f.min_lng.finite() && f.min_lat.finite(),
        directions::is_positive(f.len_lng) && directions::is_positive(f.len_lat),
        directions::is_positive(f.scale_factor_x) && directions::is_positive(f.scale_factor_z),
    ensures
        f.lng_at(x).at_most(f.lng_at(y)),
        f.lat_at(y).at_most(f.lat_at(x)),
{
    let one = cast::of_integer(1);
    laws::lemma_one();
    order::law_quotients_by_a_positive_number_keep_order(x, y, f.scale_factor_x);
    let (q, r) = (arith::quotient(x, f.scale_factor_x), arith::quotient(y, f.scale_factor_x));
    order::law_products_by_a_positive_number_keep_order(f.len_lng, q, r);
    laws::law_sums_keep_order(
        f.min_lng,
        arith::product(q, f.len_lng),
        arith::product(r, f.len_lng),
    );
    order::law_quotients_by_a_positive_number_keep_order(x, y, f.scale_factor_z);
    let (q, r) = (arith::quotient(x, f.scale_factor_z), arith::quotient(y, f.scale_factor_z));
    order::law_taking_off_more_leaves_no_more(one, q, r);
    let (q, r) = (arith::difference(one, q), arith::difference(one, r));
    order::law_products_by_a_positive_number_keep_order(f.len_lat, r, q);
    laws::law_sums_keep_order(
        f.min_lat,
        arith::product(r, f.len_lat),
        arith::product(q, f.len_lat),
    );
}

/// Positions of coordinates keep the order of longitudes and turn that of
/// latitudes round.
proof fn lemma_positions_in_order(f: Frame, a: F64, b: F64)
    requires
        a.at_most(b),
        f.min_lng.finite() && f.min_lat.finite(),
        directions::is_positive(f.len_lng) && directions::is_positive(f.len_lat),
        directions::is_positive(f.scale_factor_x) && directions::is_positive(f.scale_factor_z),
    ensures
        f.local_x(a).at_most(f.local_x(b)),
        f.local_z(b).at_most(f.local_z(a)),
{
    let one = cast::of_integer(1);
    laws::lemma_one();
    order::law_differences_keep_order(a, b, f.min_lng);
    let (c, d) = (arith::difference(a, f.min_lng), arith::difference(b, f.min_lng));
    order::law_quotients_by_a_positive_number_keep_order(c, d, f.len_lng);
    order::law_products_by_a_positive_number_keep_order(
        f.scale_factor_x,
        arith::quotient(c, f.len_lng),
        arith::quotient(d, f.len_lng),
    );
    order::law_differences_keep_order(a, b, f.min_lat);
    let (c, d) = (arith::difference(a, f.min_lat), arith::difference(b, f.min_lat));
    order::law_quotients_by_a_positive_number_keep_order(c, d, f.len_lat);
    let (c, d) = (arith::quotient(c, f.len_lat), arith::quotient(d, f.len_lat));
    order::law_taking_off_more_leaves_no_more(one, c, d);
    order::law_products_by_a_positive_number_keep_order(
        f.scale_factor_z,
        arith::difference(one, d),
        arith::difference(one, c),
    );
}

/// Whether a chunk generates some blocks of an axis, and the axis goes on for at
/// least one block from where the chunk starts.
pub open spec fn has_extent(block: (i32, i32), blocks: F64) -> bool {
    0 <= block.0 < block.1 && cast::of_integer(block.0 + 1).at_most(blocks)
}

/// Whether an area can be cut into chunks: its blocks are distinct, and its far
/// edges, as the frame works them out, are on the globe. The last can fail by a
/// rounding for an area that reaches the pole or the date line.
pub open spec fn can_be_cut(f: Frame, scale: F64) -> bool {
    &&& transformation::is_local(f, scale)
    &&& cutting::is_distinct(f.scale_factor_x, f.len_lng)
    &&& cutting::is_distinct(f.scale_factor_z, f.len_lat)
    &&& llpoint::is_longitude(f.lng_at(f.scale_factor_x))
    &&& llpoint::is_latitude(f.lat_at(cast::of_integer(0)))
}

/// Where a range of blocks starts and ends on its axis.
proof fn lemma_range(block: (i32, i32), blocks: F64)
    requires
        cartesian::is_length(blocks),
        has_extent(block, blocks),
    ensures
        ({
            let first = cast::of_integer(block.0 as int);
            let end = cast::of_integer(block.1 as int).lesser(blocks);
            &&& first.finite() && end.finite() && blocks.finite()
            &&& directions::is_positive(blocks)
            &&& cast::of_integer(0).at_most(first)
            &&& cast::of_integer(0).at_most(end)
            &&& first.at_most(end)
            &&& first.at_most(blocks)
            &&& end.at_most(blocks)
            &&& first.units() + cast::one() <= end.units()
        }),
{
    let o = cast::one();
    lemma_pow2_pos(1074);
    lemma2_to64_rest();
    transformation::lemma_length_is_finite(blocks);
    let (a, b) = (block.0 as int, block.1 as int);
    error::lemma_integer_value(a);
    error::lemma_integer_value(b);
    error::lemma_integer_value(a + 1);
    error::lemma_integer_value(0);
    assert((a + 1) * o == a * o + o) by (nonlinear_arith);
    assert(0 * o == 0);
    assert(0 <= a * o && (a + 1) * o <= b * o) by (nonlinear_arith)
        requires
            0 <= a,
            a + 1 <= b,
            o > 0,
    ;
    binary64::lemma_scale_order(blocks.magnitude(), 0);
}

/// The area of a chunk is a box, which a run can be given.
pub proof fn law_chunk_areas_are_boxes(
    edges: Edges,
    scale: F64,
    south_north: F64,
    west_east: F64,
    plan: ChunkPlan,
)
    requires
        edges.valid(),
        ({
            let f = transformation::local_frame(edges, scale, south_north, west_east);
            &&& can_be_cut(f, scale)
            &&& has_extent(plan.block_x, f.scale_factor_x)
            &&& has_extent(plan.block_z, f.scale_factor_z)
        }),
    ensures
        ({
            let f = transformation::local_frame(edges, scale, south_north, west_east);
            command_line::chunk_edges(f, plan).valid()
        }),
{
    let f = transformation::local_frame(edges, scale, south_north, west_east);
    let (sx, sz) = (f.scale_factor_x, f.scale_factor_z);
    let zero = cast::of_integer(0);
    tiling::lemma_span(edges.min_lat, edges.max_lat, 90);
    tiling::lemma_span(edges.min_lng, edges.max_lng, 180);
    lemma_range(plan.block_x, sx);
    lemma_range(plan.block_z, sz);
    cutting::law_edges_come_back(edges, scale, south_north, west_east);
    laws::lemma_signed(false, 0);
    lemma2_to64_rest();
    error::lemma_integer_value(0);
    let (x0, z0) = (
        cast::of_integer(plan.block_x.0 as int),
        cast::of_integer(plan.block_z.0 as int),
    );
    let (x1, z1) = (
        cast::of_integer(plan.block_x.1 as int).lesser(sx),
        cast::of_integer(plan.block_z.1 as int).lesser(sz),
    );
    // On the globe.
    lemma_coordinates_in_order(f, zero, x0);
    lemma_coordinates_in_order(f, x0, sx);
    lemma_coordinates_in_order(f, zero, x1);
    lemma_coordinates_in_order(f, x1, sx);
    lemma_coordinates_in_order(f, zero, z0);
    lemma_coordinates_in_order(f, z0, sz);
    lemma_coordinates_in_order(f, zero, z1);
    lemma_coordinates_in_order(f, z1, sz);
    // In order: what is a block apart does not come back in another order.
    cutting::law_positions_come_back(edges, scale, south_north, west_east, x0, z0);
    cutting::law_positions_come_back(edges, scale, south_north, west_east, x1, z1);
    if !f.lng_at(x0).below(f.lng_at(x1)) {
        lemma_positions_in_order(f, f.lng_at(x1), f.lng_at(x0));
    }
    if !f.lat_at(z1).below(f.lat_at(z0)) {
        lemma_positions_in_order(f, f.lat_at(z0), f.lat_at(z1));
    }
}

/// The areas of all chunks of a world are boxes: always with a margin, and without
/// one unless the last block along an axis starts a region.
pub proof fn law_planned_areas_are_boxes(
    edges: Edges,
    scale: F64,
    south_north: F64,
    west_east: F64,
    side: i32,
    margin: i32,
    index: int,
)
    requires
        edges.valid(),
        margin >= 0,
        ({
            let f = transformation::local_frame(edges, scale, south_north, west_east);
            let w = world_of(f, side, margin);
            &&& can_be_cut(f, scale)
            &&& w.valid()
            &&& margin >= 1 || (w.x.last % 512 != 0 && w.z.last % 512 != 0)
            &&& 0 <= index < w.chunks() <= usize::MAX
        }),
    ensures
        ({
            let f = transformation::local_frame(edges, scale, south_north, west_east);
            let plan = world_of(f, side, margin).plans()[index];
            &&& has_extent(plan.block_x, f.scale_factor_x)
            &&& has_extent(plan.block_z, f.scale_factor_z)
            &&& command_line::chunk_edges(f, plan).valid()
        }),
{
    let f = transformation::local_frame(edges, scale, south_north, west_east);
    let w = world_of(f, side, margin);
    let plan = w.plans()[index];
    lemma_last_block(f.scale_factor_x);
    lemma_last_block(f.scale_factor_z);
    w.law_chunks_have_extent(index);
    lemma_block_is_on_axis(f.scale_factor_x, plan.block_x.0 + 1);
    lemma_block_is_on_axis(f.scale_factor_z, plan.block_z.0 + 1);
    law_chunk_areas_are_boxes(edges, scale, south_north, west_east, plan);
}

/// A length of at least one block has a last block behind the first.
proof fn lemma_last_block(blocks: F64)
    requires
        cartesian::is_length(blocks),
        cast::of_integer(1).at_most(blocks),
    ensures
        cast::as_i32(blocks) >= 1,
{
    let o = cast::one();
    laws::lemma_one();
    let v = binary64::scale(blocks.magnitude()) as int;
    vstd::arithmetic::div_mod::lemma_div_is_ordered(o, v, o);
    vstd::arithmetic::div_mod::lemma_div_by_self(o);
}

/// A chunk's area that is handed over as text is taken back whole: the text is read
/// as a box, and the box that the chunk's own run works in starts where the chunk
/// was to start.
pub proof fn law_chunk_areas_are_handed_over(
    edges: Edges,
    scale: F64,
    south_north: F64,
    west_east: F64,
    plan: ChunkPlan,
    texts: EdgeTexts,
)
    requires
        edges.valid(),
        ({
            let f = transformation::local_frame(edges, scale, south_north, west_east);
            let e = command_line::chunk_edges(f, plan);
            &&& can_be_cut(f, scale)
            &&& has_extent(plan.block_x, f.scale_factor_x)
            &&& has_extent(plan.block_z, f.scale_factor_z)
            &&& decimal::parsed(texts.min_lat@) == Some(e.min_lat)
            &&& decimal::parsed(texts.min_lng@) == Some(e.min_lng)
            &&& decimal::parsed(texts.max_lat@) == Some(e.max_lat)
            &&& decimal::parsed(texts.max_lng@) == Some(e.max_lng)
        }),
    ensures
        ({
            let f = transformation::local_frame(edges, scale, south_north, west_east);
            let e = command_line::chunk_edges(f, plan);
            let fields = text::fields(texts.joined(), Separator::CommaOrSpace);
            &&& fields.len() == 4
            &&& llbbox::all_good(fields)
            &&& llbbox::edges_of_fields(fields) == e
            &&& e.valid()
            &&& transformation::part_blocks(f, e).min == (XZPoint {
                x: plan.block_x.0,
                z: plan.block_z.0,
            })
        }),
{
    let f = transformation::local_frame(edges, scale, south_north, west_east);
    let e = command_line::chunk_edges(f, plan);
    law_chunk_areas_are_boxes(edges, scale, south_north, west_east, plan);
    tiling::lemma_span(e.min_lat, e.max_lat, 90);
    tiling::lemma_span(e.min_lng, e.max_lng, 180);
    command_line::law_areas_read_back(texts);
    lemma_range(plan.block_x, f.scale_factor_x);
    lemma_range(plan.block_z, f.scale_factor_z);
    cutting::law_cuts_land_on_their_blocks(
        edges,
        scale,
        south_north,
        west_east,
        plan.block_x.0,
        plan.block_z.0,
    );
}

/// Less than half a block apart, two positions are at most a block apart when they are
/// cut to blocks.
proof fn lemma_neighbours(a: F64, b: F64)
    requires
        cutting::is_near(a, b),
        cast::of_integer(1).at_most(b),
        b.at_most(cast::of_integer(0x7fff_ffff)),
    ensures
        cast::as_i32(b) - 1 <= cast::as_i32(a) <= cast::as_i32(b) + 1,
{
    let o = cast::one();
    lemma2_to64_rest();
    lemma_pow2_pos(1074);
    error::lemma_integer_value(1);
    error::lemma_integer_value(0x7fff_ffff);
    positions::lemma_cut(a);
    positions::lemma_cut(b);
    let (u, v) = (a.units(), b.units());
    let (j, k) = (cast::as_i32(a), cast::as_i32(b));
    assert(1 * o == o);
    assert(0 <= u < 0x8000_0000 * o && v < 0x8000_0000 * o) by (nonlinear_arith)
        requires
            -o < 2 * (u - v) < o,
            o <= v <= 0x7fff_ffff * o,
            o > 0,
    ;
    assert(k - 1 <= j <= k + 1) by (nonlinear_arith)
        requires
            -o < 2 * (u - v) < o,
            j * o <= u < (j + 1) * o,
            k * o <= v < (k + 1) * o,
            o > 0,
    ;
}

/// The end of a chunk along one axis.
proof fn lemma_chunk_end(a: F64, blocks: F64, block: (i32, i32))
    requires
        cartesian::is_length(blocks),
        cast::of_integer(1).at_most(blocks),
        has_extent(block, blocks),
        cutting::is_near(a, cast::of_integer(block.1 as int).lesser(blocks)),
    ensures
        ({
            let end = transformation::larger(cast::as_i32(a), block.0 as int);
            if cast::of_integer(block.1 as int).at_most(blocks) {
                block.1 - 1 <= end <= block.1
            } else {
                cast::as_i32(blocks) - 1 <= end <= cast::as_i32(blocks) + 1
            }
        }),
{
    lemma2_to64_rest();
    lemma_pow2_pos(1074);
    error::lemma_integer_value(block.1 as int);
    error::lemma_integer_value(block.0 + 1);
    if cast::of_integer(block.1 as int).at_most(blocks) {
        let e = cast::of_integer(block.1 as int).lesser(blocks);
        assert(e.units() == block.1 * cast::one());
        parts::lemma_cut_near(a, block.1 as int);
    } else {
        lemma_neighbours(a, blocks);
        positions::lemma_cut(blocks);
        let (k, o, v) = (cast::as_i32(blocks), cast::one(), blocks.units());
        assert(v < block.1 * o);
        assert(block.1 * o <= 0x7fff_ffff * o && 0 <= (block.0 + 1) * o) by (nonlinear_arith)
            requires
                block.1 <= 0x7fff_ffff,
                0 <= block.0,
                o > 0,
        ;
        assert(0x7fff_ffff * o < 0x8000_0000 * o) by (nonlinear_arith)
            requires
                o > 0,
        ;
        assert(block.0 <= k + 1) by (nonlinear_arith)
            requires
                (block.0 + 1) * o <= v < (k + 1) * o,
                o > 0,
        ;
    }
}

/// The box that a chunk's own run works in starts on the first block of the chunk, and
/// ends within a block of where the chunk's blocks end, or of the last block of the whole
/// area where that comes first.
pub proof fn law_chunk_runs_work_in_their_blocks(
    whole: LLBBox,
    scale: F64,
    distance: (F64, F64),
    of_whole: (CoordTransformer, XZBBox),
    plan: ChunkPlan,
    edges: Edges,
    part: LLBBox,
    of_part: (CoordTransformer, XZBBox),
)
    requires
        whole@.valid(),
        call_ensures(
            CoordTransformer::llbbox_to_xzbbox,
            (&whole, scale, distance),
            Ok(of_whole),
        ),
        can_be_cut(of_whole.0@, scale),
        has_extent(plan.block_x, of_whole.0@.scale_factor_x),
        has_extent(plan.block_z, of_whole.0@.scale_factor_z),
        call_ensures(command_line::bbox_of_chunk, (&of_whole.0, &plan), edges),
        call_ensures(
            LLBBox::new,
            (edges.min_lat, edges.min_lng, edges.max_lat, edges.max_lng),
            Ok(part),
        ),
        call_ensures(
            CoordTransformer::llbbox_to_xzbbox_with_reference,
            (&whole, &part, scale, distance),
            Ok(of_part),
        ),
    ensures
        ({
            let (min, max) = (of_part.1@.min, of_part.1@.max);
            let last = of_whole.1@.max;
            &&& min == (XZPoint { x: plan.block_x.0, z: plan.block_z.0 })
            &&& if cast::of_integer(plan.block_x.1 as int).at_most(of_whole.0@.scale_factor_x) {
                plan.block_x.1 - 1 <= max.x <= plan.block_x.1
            } else {
                last.x - 1 <= max.x <= last.x + 1
            }
            &&& if cast::of_integer(plan.block_z.1 as int).at_most(of_whole.0@.scale_factor_z) {
                plan.block_z.1 - 1 <= max.z <= plan.block_z.1
            } else {
                last.z - 1 <= max.z <= last.z + 1
            }
        }),
{
    let f = of_whole.0@;
    let (sx, sz) = (f.scale_factor_x, f.scale_factor_z);
    lemma_range(plan.block_x, sx);
    lemma_range(plan.block_z, sz);
    let (x1, z1) = (
        cast::of_integer(plan.block_x.1 as int).lesser(sx),
        cast::of_integer(plan.block_z.1 as int).lesser(sz),
    );
    cutting::law_cuts_land_on_their_blocks(
        whole@,
        scale,
        distance.0,
        distance.1,
        plan.block_x.0,
        plan.block_z.0,
    );
    cutting::law_positions_come_back(whole@, scale, distance.0, distance.1, x1, z1);
    lemma_chunk_end(f.local_x(f.lng_at(x1)), sx, plan.block_x);
    lemma_chunk_end(f.local_z(f.lat_at(z1)), sz, plan.block_z);
    positions::lemma_cut(sx);
    positions::lemma_cut(sz);
    positions::lemma_cut(f.local_x(f.lng_at(x1)));
    positions::lemma_cut(f.local_z(f.lat_at(z1)));
}

/// Where the blocks of one chunk end, the area of one that starts there starts: the two share
/// the edge, to the last digit. What ends behind the whole area ends with it.
pub proof fn law_neighbouring_chunks_share_an_edge(
    t: CoordTransformer,
    p: ChunkPlan,
    q: ChunkPlan,
    of_p: Edges,
    of_q: Edges,
)
    requires
        call_ensures(command_line::bbox_of_chunk, (&t, &p), of_p),
        call_ensures(command_line::bbox_of_chunk, (&t, &q), of_q),
    ensures
        p.block_x.1 == q.block_x.0 && cast::of_integer(q.block_x.0 as int).at_most(
            t@.scale_factor_x,
        ) ==> of_p.max_lng == of_q.min_lng,
        p.block_z.1 == q.block_z.0 && cast::of_integer(q.block_z.0 as int).at_most(
            t@.scale_factor_z,
        ) ==> of_p.min_lat == of_q.max_lat,
        p.block_x.0 == q.block_x.0 ==> of_p.min_lng == of_q.min_lng,
        p.block_z.0 == q.block_z.0 ==> of_p.max_lat == of_q.max_lat,
        t@.scale_factor_x.below(cast::of_integer(p.block_x.1 as int))
            && t@.scale_factor_x.below(cast::of_integer(q.block_x.1 as int)) ==> of_p.max_lng
            == of_q.max_lng,
        t@.scale_factor_z.below(cast::of_integer(p.block_z.1 as int))
            && t@.scale_factor_z.below(cast::of_integer(q.block_z.1 as int)) ==> of_p.min_lat
            == of_q.min_lat,
{
}

} // verus!
