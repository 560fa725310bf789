//! The way from geographic coordinates to block positions.

use vstd::prelude::*;
use vstd::arithmetic::power2::*;
use crate::binary64;
use crate::binary64::F64;
use crate::binary64::arith;
use crate::binary64::cast;
use crate::binary64::laws;
use crate::coordinate_system::angle;
use crate::coordinate_system::cartesian;
use crate::coordinate_system::cartesian::{Blocks, XZBBox, XZBBoxError, XZPoint};
use crate::coordinate_system::geographic::llbbox::{Edges, LLBBox};
use crate::coordinate_system::geographic::llpoint::{Degrees, LLPoint};
use crate::coordinate_system::geographic::tiling;

verus! {

/// The earth's radius in meters, on the spherical approximation.
pub const EARTH_RADIUS: i32 = 6_371_000;

/// How points are projected.
#[derive(Clone, Copy, Debug)]
pub enum ProjectionMode {
    /// Linear interpolation between the edges of the area.
    Local,
    /// Web Mercator, seen from an origin in the middle of the area.
    WebMercator {
        origin_lat: F64,
        origin_lon: F64,
        scale: F64,
        cos_lat_ref: F64,
        z_offset: F64,
    },
}

/// Takes points of an area to block positions.
#[derive(Clone, Copy, Debug)]
pub struct CoordTransformer {
    len_lat: F64,
    len_lng: F64,
    scale_factor_x: F64,
    scale_factor_z: F64,
    min_lat: F64,
    min_lng: F64,
    mode: ProjectionMode,
}

/// What a transformer works with: the size of the area in degrees and in blocks,
/// its south-west corner, and the projection.
#[derive(Clone, Copy)]
pub struct Frame {
    pub len_lat: F64,
    pub len_lng: F64,
    pub scale_factor_x: F64,
    pub scale_factor_z: F64,
    pub min_lat: F64,
    pub min_lng: F64,
    pub mode: ProjectionMode,
}

/// Why there is no transformer.
#[derive(Clone, Copy, Debug)]
pub enum TransformError {
    /// The scale is not positive.
    Scale(F64),
    /// The area has no box of blocks.
    Rect(XZBBoxError),
}

impl View for CoordTransformer {
    type V = Frame;

    closed spec fn view(&self) -> Frame {
        Frame {
            len_lat: self.len_lat,
            len_lng: self.len_lng,
            scale_factor_x: self.scale_factor_x,
            scale_factor_z: self.scale_factor_z,
            min_lat: self.min_lat,
            min_lng: self.min_lng,
            mode: self.mode,
        }
    }
}

impl Frame {
    /// The frame of an area that is `x` by `z` blocks.
    pub open spec fn of(edges: Edges, x: F64, z: F64, mode: ProjectionMode) -> Frame {
        Frame {
            len_lat: edges.lat_span(),
            len_lng: edges.lng_span(),
            scale_factor_x: x,
            scale_factor_z: z,
            min_lat: edges.min_lat,
            min_lng: edges.min_lng,
            mode,
        }
    }

    /// Where a point lies on the x axis in local mode, before it is cut to a block.
    pub open spec fn local_x(self, lng: F64) -> F64 {
        arith::product(
            arith::quotient(arith::difference(lng, self.min_lng), self.len_lng),
            self.scale_factor_x,
        )
    }

    /// Where a point lies on the z axis in local mode: north is at zero.
    pub open spec fn local_z(self, lat: F64) -> F64 {
        arith::product(
            arith::difference(
                cast::of_integer(1),
                arith::quotient(arith::difference(lat, self.min_lat), self.len_lat),
            ),
            self.scale_factor_z,
        )
    }

    /// The longitude of a position on the x axis in local mode.
    pub open spec fn lng_at(self, x: F64) -> F64 {
        arith::sum(
            self.min_lng,
            arith::product(arith::quotient(x, self.scale_factor_x), self.len_lng),
        )
    }

    /// The latitude of a position on the z axis in local mode.
    pub open spec fn lat_at(self, z: F64) -> F64 {
        arith::sum(
            self.min_lat,
            arith::product(
                arith::difference(
                    cast::of_integer(1),
                    arith::quotient(z, self.scale_factor_z),
                ),
                self.len_lat,
            ),
        )
    }

    /// Where a point lies, before it is cut to a block. `log_tan` is the logarithm
    /// of the tangent of the angle `mercator_angle` of its latitude; local mode does
    /// not use it.
    pub open spec fn position(self, lat: F64, lng: F64, log_tan: F64) -> (F64, F64) {
        match self.mode {
            ProjectionMode::Local => (self.local_x(lng), self.local_z(lat)),
            ProjectionMode::WebMercator { origin_lon, scale, cos_lat_ref, z_offset, .. } => (
                arith::product(
                    arith::product(
                        arith::product(
                            cast::of_integer(EARTH_RADIUS as int),
                            angle::radians(arith::difference(lng, origin_lon)),
                        ),
                        cos_lat_ref,
                    ),
                    scale,
                ),
                arith::sum(
                    arith::product(
                        arith::product(cast::of_integer(-(EARTH_RADIUS as int)), log_tan),
                        scale,
                    ),
                    z_offset,
                ),
            ),
        }
    }

    /// The block that a point lies in.
    pub open spec fn block(self, lat: F64, lng: F64, log_tan: F64) -> XZPoint {
        let (x, z) = self.position(lat, lng, log_tan);
        XZPoint { x: cast::as_i32(x) as i32, z: cast::as_i32(z) as i32 }
    }
}

/// The angle whose tangent's logarithm a Mercator projection takes of a latitude.
pub open spec fn mercator_angle(lat: F64) -> F64 {
    arith::sum(
        F64 { bits: angle::QUARTER_PI_BITS },
        arith::quotient(angle::radians(lat), cast::of_integer(2)),
    )
}

/// A length in meters, made whole and scaled.
pub open spec fn scaled_length(meters: F64, scale: F64) -> F64 {
    arith::product(cast::with_whole(meters, cast::floored(meters)), scale)
}

/// The local frame of an area that is `south_north` by `west_east` meters.
pub open spec fn local_frame(edges: Edges, scale: F64, south_north: F64, west_east: F64) -> Frame {
    Frame::of(
        edges,
        scaled_length(west_east, scale),
        scaled_length(south_north, scale),
        ProjectionMode::Local,
    )
}

/// Whether a local transformer with the frame `f` and the scale `scale` exists.
pub open spec fn is_local(f: Frame, scale: F64) -> bool {
    &&& !scale.at_most(cast::of_integer(0))
    &&& cartesian::is_length(f.scale_factor_x)
    &&& cartesian::is_length(f.scale_factor_z)
}

/// The block that a position falls on when it is rounded.
pub open spec fn rounded_block(a: F64) -> i32 {
    cast::as_i32(cast::with_whole(a, cast::rounded(a))) as i32
}

pub open spec fn larger(a: int, b: int) -> int {
    if a < b { b } else { a }
}

/// The blocks of the part `part` of an area, in the frame of the whole.
///
/// The first corner is rounded: parts are cut where a block starts, and an error
/// in the last digit must not take the cut to the block before.
pub open spec fn part_blocks(f: Frame, part: Edges) -> Blocks {
    let min_x = rounded_block(f.local_x(part.min_lng));
    let min_z = rounded_block(f.local_z(part.max_lat));
    Blocks {
        min: XZPoint { x: min_x, z: min_z },
        max: XZPoint {
            x: larger(cast::as_i32(f.local_x(part.max_lng)), min_x as int) as i32,
            z: larger(cast::as_i32(f.local_z(part.min_lat)), min_z as int) as i32,
        },
    }
}

/// The four corners of an area.
#[derive(Clone, Copy, Debug)]
pub struct CornerPoints {
    pub nw: LLPoint,
    pub se: LLPoint,
    pub ne: LLPoint,
    pub sw: LLPoint,
}

/// The corners of an area, which a projection of it is to be asked for.
pub fn corner_points(llbbox: &LLBBox) -> (r: CornerPoints)
    ensures
        r.nw@ == (Degrees { lat: llbbox@.max_lat, lng: llbbox@.min_lng }),
        r.se@ == (Degrees { lat: llbbox@.min_lat, lng: llbbox@.max_lng }),
        r.ne@ == (Degrees { lat: llbbox@.max_lat, lng: llbbox@.max_lng }),
        r.sw@ == (Degrees { lat: llbbox@.min_lat, lng: llbbox@.min_lng }),
{
    let (sw, ne) = (llbbox.min(), llbbox.max());
    CornerPoints {
        nw: LLPoint::meeting(&ne, &sw),
        se: LLPoint::meeting(&sw, &ne),
        ne,
        sw,
    }
}

/// The positions that a projection gives the four corners of an area, each by
/// its x and its z.
#[derive(Clone, Copy, Debug)]
pub struct Corners {
    pub nw: (F64, F64),
    pub se: (F64, F64),
    pub ne: (F64, F64),
    pub sw: (F64, F64),
}

pub open spec fn least(a: F64, b: F64, c: F64, d: F64) -> F64 {
    a.lesser(b).lesser(c).lesser(d)
}

pub open spec fn greatest(a: F64, b: F64, c: F64, d: F64) -> F64 {
    a.greater(b).greater(c).greater(d)
}

impl Corners {
    /// The smallest range of blocks that holds all corners.
    pub open spec fn blocks(self) -> Blocks {
        let x_min = least(self.nw.0, self.sw.0, self.ne.0, self.se.0);
        let z_min = least(self.nw.1, self.sw.1, self.ne.1, self.se.1);
        let x_max = greatest(self.nw.0, self.sw.0, self.ne.0, self.se.0);
        let z_max = greatest(self.nw.1, self.sw.1, self.ne.1, self.se.1);
        Blocks {
            min: XZPoint {
                x: cast::as_i32(cast::with_whole(x_min, cast::floored(x_min))) as i32,
                z: cast::as_i32(cast::with_whole(z_min, cast::floored(z_min))) as i32,
            },
            max: XZPoint {
                x: cast::as_i32(cast::with_whole(x_max, cast::ceiled(x_max))) as i32,
                z: cast::as_i32(cast::with_whole(z_max, cast::ceiled(z_max))) as i32,
            },
        }
    }

    /// Computes `blocks`: the first block and the last.
    pub fn envelope(&self) -> (r: (XZPoint, XZPoint))
        ensures
            r.0 == self.blocks().min,
            r.1 == self.blocks().max,
    {
        let x_min: F64 = self.nw.0.min(self.sw.0).min(self.ne.0).min(self.se.0);
        let x_max: F64 = self.nw.0.max(self.sw.0).max(self.ne.0).max(self.se.0);
        let z_min: F64 = self.nw.1.min(self.sw.1).min(self.ne.1).min(self.se.1);
        let z_max: F64 = self.nw.1.max(self.sw.1).max(self.ne.1).max(self.se.1);
        (
            XZPoint { x: x_min.floor().to_i32(), z: z_min.floor().to_i32() },
            XZPoint { x: x_max.ceil().to_i32(), z: z_max.ceil().to_i32() },
        )
    }
}

/// Whether the blocks from the first to the last can be counted in an integer.
pub open spec fn is_countable(b: Blocks) -> bool {
    b.max.x - b.min.x <= i32::MAX && b.max.z - b.min.z <= i32::MAX
}

pub open spec fn is_ordered(b: Blocks) -> bool {
    b.min.x <= b.max.x && b.min.z <= b.max.z
}

/// The middle of the way from one edge to another.
pub open spec fn halfway(a: F64, b: F64) -> F64 {
    arith::quotient(arith::sum(a, b), cast::of_integer(2))
}

/// The projected frame of an area. `cosine` is the cosine of its middle latitude
/// and `log_tan` the logarithm of the tangent of that latitude's Mercator angle,
/// by which the middle latitude lies at z zero.
pub open spec fn projected_frame(
    edges: Edges,
    scale: F64,
    b: Blocks,
    cosine: F64,
    log_tan: F64,
) -> Frame {
    Frame::of(
        edges,
        cast::of_integer(b.max.x - b.min.x),
        cast::of_integer(b.max.z - b.min.z),
        ProjectionMode::WebMercator {
            origin_lat: halfway(edges.min_lat, edges.max_lat),
            origin_lon: halfway(edges.min_lng, edges.max_lng),
            scale,
            cos_lat_ref: cosine,
            z_offset: arith::product(
                arith::product(cast::of_integer(EARTH_RADIUS as int), log_tan),
                scale,
            ),
        },
    )
}

/// Computes the Mercator angle of a latitude.
pub fn to_mercator_angle(lat: F64) -> (r: F64)
    ensures
        r == mercator_angle(lat),
{
    F64::from_bits(angle::QUARTER_PI_BITS).plus(angle::to_radians(lat).over(F64::from_i32(2)))
}

/// The middle of the way from one coordinate to another.
pub fn middle(a: F64, b: F64) -> (r: F64)
    ensures
        r == halfway(a, b),
{
    a.plus(b).over(F64::from_i32(2))
}

/// The middle latitude of an area, where a projection of it has its origin.
pub fn origin_lat(llbbox: &LLBBox) -> (r: F64)
    ensures
        r == halfway(llbbox@.min_lat, llbbox@.max_lat),
{
    middle(llbbox.min().lat(), llbbox.max().lat())
}

impl CoordTransformer {
    /// The blocks that the area spans from west to east.
    pub fn scale_factor_x(&self) -> (r: F64)
        ensures
            r == self@.scale_factor_x,
    {
        self.scale_factor_x
    }

    /// The blocks that the area spans from north to south.
    pub fn scale_factor_z(&self) -> (r: F64)
        ensures
            r == self@.scale_factor_z,
    {
        self.scale_factor_z
    }

    /// The position in local mode, before it is cut to a block.
    fn reference_f64(&self, lat: F64, lng: F64) -> (r: (F64, F64))
        ensures
            r.0 == self@.local_x(lng),
            r.1 == self@.local_z(lat),
    {
        let rel_x: F64 = lng.minus(self.min_lng).over(self.len_lng);
        let rel_z: F64 = F64::from_i32(1).minus(lat.minus(self.min_lat).over(self.len_lat));
        (rel_x.times(self.scale_factor_x), rel_z.times(self.scale_factor_z))
    }

    /// The latitude and longitude of a position in local mode: the way back. Used
    /// to cut an area where chosen blocks start.
    pub fn reference_to_latlng(&self, x: F64, z: F64) -> (r: (F64, F64))
        ensures
            r.0 == self@.lat_at(z),
            r.1 == self@.lng_at(x),
    {
        let lng: F64 = self.min_lng.plus(x.over(self.scale_factor_x).times(self.len_lng));
        let lat: F64 = self.min_lat.plus(
            F64::from_i32(1).minus(z.over(self.scale_factor_z)).times(self.len_lat),
        );
        (lat, lng)
    }

    /// The transformer and the box of blocks of an area that is
    /// `distance.0` meters from south to north and `distance.1` from west to east,
    /// at `scale` blocks to the meter.
    pub fn llbbox_to_xzbbox(llbbox: &LLBBox, scale: F64, distance: (F64, F64)) -> (r: Result<
        (CoordTransformer, XZBBox),
        TransformError,
    >)
        ensures
            ({
                let f = local_frame(llbbox@, scale, distance.0, distance.1);
                match r {
                    Ok((t, b)) => is_local(f, scale) && t@ == f && b@ == cartesian::from_lengths(
                        f.scale_factor_x,
                        f.scale_factor_z,
                    ),
                    Err(TransformError::Scale(s)) => scale.at_most(cast::of_integer(0)) && s
                        == scale,
                    Err(TransformError::Rect(e)) => !scale.at_most(cast::of_integer(0))
                        && cartesian::is_length_fault(f.scale_factor_x, f.scale_factor_z, e),
                }
            }),
    {
        if scale.le(F64::from_i32(0)) {
            return Err(TransformError::Scale(scale));
        }
        let scale_factor_z: F64 = distance.0.floor().times(scale);
        let scale_factor_x: F64 = distance.1.floor().times(scale);
        match XZBBox::rect_from_xz_lengths(scale_factor_x, scale_factor_z) {
            Err(e) => Err(TransformError::Rect(e)),
            Ok(xzbbox) => Ok(
                (
                    CoordTransformer {
                        len_lat: llbbox.max().lat().minus(llbbox.min().lat()),
                        len_lng: llbbox.max().lng().minus(llbbox.min().lng()),
                        scale_factor_x,
                        scale_factor_z,
                        min_lat: llbbox.min().lat(),
                        min_lng: llbbox.min().lng(),
                        mode: ProjectionMode::Local,
                    },
                    xzbbox,
                ),
            ),
        }
    }

    /// Like `llbbox_to_xzbbox` of the area `reference_bbox`, but the box covers
    /// only the part of it that is `processing_bbox`.
    ///
    /// Every point lands where a run over the whole area would put it, so the
    /// parts of a world that are made one by one already lie in place.
    pub fn llbbox_to_xzbbox_with_reference(
        reference_bbox: &LLBBox,
        processing_bbox: &LLBBox,
        scale: F64,
        distance: (F64, F64),
    ) -> (r: Result<(CoordTransformer, XZBBox), TransformError>)
        ensures
            ({
                let f = local_frame(reference_bbox@, scale, distance.0, distance.1);
                match r {
                    Ok((t, b)) => is_local(f, scale) && t@ == f && b@ == part_blocks(
                        f,
                        processing_bbox@,
                    ),
                    Err(TransformError::Scale(s)) => scale.at_most(cast::of_integer(0)) && s
                        == scale,
                    Err(TransformError::Rect(e)) => !scale.at_most(cast::of_integer(0))
                        && cartesian::is_length_fault(f.scale_factor_x, f.scale_factor_z, e),
                }
            }),
    {
        let transformer: CoordTransformer = match CoordTransformer::llbbox_to_xzbbox(
            reference_bbox,
            scale,
            distance,
        ) {
            Err(e) => return Err(e),
            Ok((t, _)) => t,
        };
        let (x0, z0) = transformer.reference_f64(
            processing_bbox.max().lat(),
            processing_bbox.min().lng(),
        );
        let (x1, z1) = transformer.reference_f64(
            processing_bbox.min().lat(),
            processing_bbox.max().lng(),
        );
        let min_x: i32 = x0.round().to_i32();
        let min_z: i32 = z0.round().to_i32();
        let end_x: i32 = x1.to_i32();
        let end_z: i32 = z1.to_i32();
        let max_x: i32 = if end_x < min_x { min_x } else { end_x };
        let max_z: i32 = if end_z < min_z { min_z } else { end_z };
        match XZBBox::rect_from_min_max(min_x, min_z, max_x, max_z) {
            Err(e) => Err(TransformError::Rect(e)),
            Ok(xzbbox) => Ok((transformer, xzbbox)),
        }
    }

    /// The transformer and the box of blocks of an area under a Web Mercator
    /// projection, which takes the area's corners to `corners`.
    ///
    /// `cos_lat_ref` is the cosine of the middle latitude and `log_tan` the
    /// logarithm of the tangent of its Mercator angle.
    pub fn with_projection(
        llbbox: &LLBBox,
        scale: F64,
        corners: &Corners,
        cos_lat_ref: F64,
        log_tan: F64,
    ) -> (r: Result<(CoordTransformer, XZBBox), TransformError>)
        requires
            !scale.at_most(cast::of_integer(0)) && is_ordered(corners.blocks()) ==> is_countable(
                corners.blocks(),
            ),
        ensures
            ({
                let b = corners.blocks();
                match r {
                    Ok((t, xzbbox)) => !scale.at_most(cast::of_integer(0)) && is_ordered(b)
                        && xzbbox@ == b && t@ == projected_frame(
                        llbbox@,
                        scale,
                        b,
                        cos_lat_ref,
                        log_tan,
                    ),
                    Err(TransformError::Scale(s)) => scale.at_most(cast::of_integer(0)) && s
                        == scale,
                    Err(TransformError::Rect(e)) => !scale.at_most(cast::of_integer(0))
                        && !is_ordered(b) && e == XZBBoxError::Empty(b.min, b.max),
                }
            }),
    {
        if scale.le(F64::from_i32(0)) {
            return Err(TransformError::Scale(scale));
        }
        let (min, max) = corners.envelope();
        let xzbbox: XZBBox = match XZBBox::rect_from_min_max(min.x, min.z, max.x, max.z) {
            Err(e) => return Err(TransformError::Rect(e)),
            Ok(b) => b,
        };
        let origin_lon: F64 = middle(llbbox.min().lng(), llbbox.max().lng());
        let z_offset: F64 = F64::from_i32(EARTH_RADIUS).times(log_tan).times(scale);
        Ok(
            (
                CoordTransformer {
                    len_lat: llbbox.max().lat().minus(llbbox.min().lat()),
                    len_lng: llbbox.max().lng().minus(llbbox.min().lng()),
                    scale_factor_x: F64::from_i32(max.x - min.x),
                    scale_factor_z: F64::from_i32(max.z - min.z),
                    min_lat: llbbox.min().lat(),
                    min_lng: llbbox.min().lng(),
                    mode: ProjectionMode::WebMercator {
                        origin_lat: origin_lat(llbbox),
                        origin_lon,
                        scale,
                        cos_lat_ref,
                        z_offset,
                    },
                },
                xzbbox,
            ),
        )
    }

    /// The block that a point lies in. `log_tan` is the logarithm of the tangent
    /// of the Mercator angle of its latitude; local mode does not use it.
    pub fn transform_point(&self, llpoint: LLPoint, log_tan: F64) -> (r: XZPoint)
        ensures
            r == self@.block(llpoint@.lat, llpoint@.lng, log_tan),
    {
        match self.mode {
            ProjectionMode::Local => {
                let (x, z) = self.reference_f64(llpoint.lat(), llpoint.lng());
                XZPoint::new(x.to_i32(), z.to_i32())
            },
            ProjectionMode::WebMercator { origin_lon, scale, cos_lat_ref, z_offset, .. } => {
                let x: F64 = F64::from_i32(EARTH_RADIUS).times(
                    angle::to_radians(llpoint.lng().minus(origin_lon)),
                ).times(cos_lat_ref).times(scale);
                let z: F64 = F64::from_i32(-EARTH_RADIUS).times(log_tan).times(scale).plus(
                    z_offset,
                );
                XZPoint::new(x.to_i32(), z.to_i32())
            },
        }
    }
}

/// A length is a finite number.
pub proof fn lemma_length_is_finite(a: F64)
    requires
        cartesian::is_length(a),
    ensures
        a.finite(),
{
    lemma2_to64();
    let top = binary64::INFINITY_BITS as nat;
    laws::lemma_integer_bound(i32::MAX as int, 31);
    binary64::lemma_scale_order(a.magnitude(), top);
    binary64::lemma_scale_order(cast::of_integer(i32::MAX as int).magnitude(), top);
    laws::lemma_integer_bound(0, 31);
    binary64::lemma_scale_order(cast::of_integer(0).magnitude(), top);
}

/// Zero, of either sign, is in block zero.
proof fn lemma_zero_block(a: F64)
    requires
        a.magnitude() == 0,
    ensures
        rounded_block(a) == 0,
        cast::as_i32(a) == 0,
{
    let o = cast::one();
    lemma_pow2_pos(1074);
    assert(binary64::scale(0) == 0);
    assert(o / (2 * o) == 0) by {
        vstd::arithmetic::div_mod::lemma_basic_div(o, 2 * o);
    }
    assert(0 * o == 0);
    vstd::arithmetic::div_mod::lemma_div_of0(o);
    arith::lemma_nearest_zero(1);
    laws::lemma_signed(a.negative(), 0);
}

/// Zero, and what is no number, is in block zero.
pub proof fn lemma_nothing_is_in_block_zero(a: F64)
    requires
        a.magnitude() == 0 || a.nan(),
    ensures
        cast::as_i32(a) == 0,
{
    if a.magnitude() == 0 {
        lemma_zero_block(a);
    }
}

/// Where the part is the whole, its blocks are those of the whole.
pub proof fn law_whole_part_is_the_whole(
    edges: Edges,
    scale: F64,
    south_north: F64,
    west_east: F64,
)
    requires
        edges.valid(),
        is_local(local_frame(edges, scale, south_north, west_east), scale),
    ensures
        ({
            let f = local_frame(edges, scale, south_north, west_east);
            part_blocks(f, edges) == cartesian::from_lengths(f.scale_factor_x, f.scale_factor_z)
        }),
{
    let f = local_frame(edges, scale, south_north, west_east);
    let (sx, sz) = (f.scale_factor_x, f.scale_factor_z);
    tiling::lemma_span(edges.min_lat, edges.max_lat, 90);
    tiling::lemma_span(edges.min_lng, edges.max_lng, 180);
    lemma_length_is_finite(sx);
    lemma_length_is_finite(sz);
    laws::law_difference_with_itself(edges.min_lat);
    laws::law_difference_with_itself(edges.min_lng);
    let zero = binary64::signed(false, 0);
    laws::lemma_signed(false, 0);
    laws::law_zero_quotient(zero, f.len_lng);
    laws::law_zero_quotient(zero, f.len_lat);
    laws::law_quotient_with_itself(f.len_lng);
    laws::law_quotient_with_itself(f.len_lat);
    laws::law_one_product(sx);
    laws::law_one_product(sz);
    laws::lemma_one();
    laws::law_difference_with_itself(cast::of_integer(1));
    laws::law_one_less_zero(arith::quotient(zero, f.len_lat));
    laws::law_zero_product(arith::quotient(zero, f.len_lng), sx);
    laws::law_zero_product(zero, sz);
    lemma_zero_block(f.local_x(edges.min_lng));
    lemma_zero_block(f.local_z(edges.max_lat));
    cartesian::lemma_length_is_not_negative(sx);
    cartesian::lemma_length_is_not_negative(sz);
}

} // verus!
