//! The coordinates of positions: the way back from the world to the globe.

use vstd::prelude::*;
use vstd::arithmetic::power2::*;
use crate::binary64::{F64, HIDDEN_BIT};
use crate::binary64::arith;
use crate::binary64::cast;
use crate::binary64::error;
use crate::binary64::excess;
use crate::binary64::exact;
use crate::coordinate_system::cartesian::XZBBox;
use crate::coordinate_system::geographic::llbbox::LLBBox;
use crate::coordinate_system::geographic::llpoint;
use crate::coordinate_system::positions;
use crate::coordinate_system::transformation;
use crate::coordinate_system::transformation::{CoordTransformer, ProjectionMode};

verus! {

/// Whether a position lies on an axis or beside it, not farther than a thousand times its
/// length.
pub open spec fn is_near_axis(a: F64, blocks: F64) -> bool {
    &&& a.finite() && blocks.finite()
    &&& HIDDEN_BIT <= blocks.units() <= 0x8000_0000 * cast::one()
    &&& arith::absolute(a.units()) <= 1000 * blocks.units()
}

/// The share of an axis that lies before a position.
proof fn lemma_share(a: F64, blocks: F64)
    requires
        is_near_axis(a, blocks),
    ensures
        ({
            let (o, s) = (cast::one(), blocks.units());
            let q = arith::quotient(a, blocks);
            &&& q.finite()
            &&& positions::is_about(q.units() * s, a.units() * o, 1001 * (s * o))
            &&& arith::absolute(q.units()) <= 1001 * o
        }),
{
    let (o, h, s) = (cast::one(), HIDDEN_BIT as int, blocks.units());
    excess::lemma_weight_of_one();
    let (u, x) = (a.units(), arith::absolute(a.units()));
    assert(0 <= x * o <= 1000 * (s * o) && x * o <= error::limit() * s) by (nonlinear_arith)
        requires
            0 <= x <= 1000 * s,
            error::limit() == o * 0x1000_0000_0000_0000,
            s > 0,
            o > 0,
    ;
    error::lemma_quotient_close(a, blocks);
    let q = arith::quotient(a, blocks).units();
    assert(arith::absolute(u * o) == x * o) by {
        assert((-u) * o == -(u * o)) by (nonlinear_arith);
    }
    assert(h * s <= s * o) by (nonlinear_arith)
        requires
            h <= o,
            s > 0,
    ;
    error::lemma_distance(q * s, u * o, s, 1001 * (s * o));
    let (e, y) = (arith::absolute(q * s - u * o), arith::absolute(q));
    assert(e <= s * o) by (nonlinear_arith)
        requires
            e * h <= 1001 * (s * o),
            h >= 1001,
            e >= 0,
            s * o >= 0,
    ;
    assert(arith::absolute(q * s) == y * s) by {
        assert((-q) * s == -(q * s)) by (nonlinear_arith);
        assert(y * s >= 0) by (nonlinear_arith)
            requires
                y >= 0,
                s > 0,
        ;
    }
    assert(y <= 1001 * o) by (nonlinear_arith)
        requires
            y * s <= 1001 * (s * o),
            s > 0,
    ;
}

/// What is left of one of such a share.
proof fn lemma_rest(q: F64)
    requires
        q.finite(),
        arith::absolute(q.units()) <= 1001 * cast::one(),
    ensures
        ({
            let o = cast::one();
            let t = arith::difference(cast::of_integer(1), q);
            &&& t.finite()
            &&& positions::is_about(t.units(), o - q.units(), 1002 * o)
            &&& arith::absolute(t.units()) <= 1003 * o
        }),
{
    let (o, h) = (cast::one(), HIDDEN_BIT as int);
    excess::lemma_weight_of_one();
    lemma2_to64_rest();
    error::lemma_integer_value(1);
    assert(1 * o == o);
    let one = cast::of_integer(1);
    error::lemma_difference_close(one, q);
    let t = arith::difference(one, q).units();
    error::lemma_distance(t, o - q.units(), 1, 1002 * o);
    let e = arith::absolute(t - (o - q.units()));
    assert(e <= o) by (nonlinear_arith)
        requires
            e * h <= 1002 * o,
            h >= 1002,
            e >= 0,
            o > 0,
    ;
}

/// The coordinate that lies a share of an axis from its start.
proof fn lemma_along(min: F64, max: F64, bound: int, t: F64, n: int, s: int)
    requires
        bound == 90 || bound == 180,
        llpoint::within(min, bound),
        llpoint::within(max, bound),
        min.below(max),
        t.finite(),
        s > 0,
        arith::absolute(n) <= 1001 * s,
        arith::absolute(t.units()) <= 1003 * cast::one(),
        positions::is_about(t.units() * s, n * cast::one(), 2003 * (s * cast::one())),
    ensures
        ({
            let r = arith::sum(min, arith::product(t, arith::difference(max, min)));
            &&& r.finite()
            &&& positions::is_about(
                (r.units() - min.units()) * s,
                n * (max.units() - min.units()),
                2_000_000 * (cast::one() * s),
            )
        }),
{
    let (o, h) = (cast::one(), HIDDEN_BIT as int);
    excess::lemma_weight_of_one();
    llpoint::lemma_of_degrees(min, bound);
    llpoint::lemma_of_degrees(max, bound);
    let (a, b) = (min.units(), max.units());
    let w = b - a;
    assert(-180 * o <= a <= 180 * o && 0 < w <= 360 * o) by (nonlinear_arith)
        requires
            -bound * o <= a < b <= bound * o,
            bound <= 180,
            w == b - a,
            o > 0,
    ;
    error::lemma_difference_close(max, min);
    let len = arith::difference(max, min);
    let l = len.units();
    error::lemma_distance(l, w, 1, 181 * o);
    let e = arith::absolute(l - w);
    assert(e <= o) by (nonlinear_arith)
        requires
            e * h <= 181 * o,
            h >= 181,
            e >= 0,
            o > 0,
    ;
    let v = t.units();
    let (x, y) = (arith::absolute(v), arith::absolute(l));
    assert(0 <= x * y <= 362_083 * (o * o)) by (nonlinear_arith)
        requires
            0 <= x <= 1003 * o,
            0 <= y <= 361 * o,
            o > 0,
    ;
    assert((-v) * l == -(v * l) && v * (-l) == -(v * l) && (-v) * (-l) == v * l)
        by (nonlinear_arith);
    assert(arith::absolute(v * l) == x * y);
    assert(362_083 * (o * o) <= error::limit() * o && 362_083 * (o * o) + h * o <= 2 * (200_000 * (o
        * o))) by (nonlinear_arith)
        requires
            error::limit() == o * 0x1000_0000_0000_0000,
            h <= o,
            o > 0,
    ;
    error::lemma_product_close(t, len);
    let p = arith::product(t, len);
    let u = p.units();
    error::lemma_distance(u * o, v * l, o, 200_000 * (o * o));
    let (g, z) = (arith::absolute(u * o - v * l), arith::absolute(u));
    assert(g <= o * o) by (nonlinear_arith)
        requires
            g * h <= 200_000 * (o * o),
            h >= 200_000,
            g >= 0,
            o > 0,
    ;
    assert(arith::absolute(u * o) == z * o) by {
        assert((-u) * o == -(u * o)) by (nonlinear_arith);
        assert(z * o >= 0) by (nonlinear_arith)
            requires
                z >= 0,
                o > 0,
        ;
    }
    assert(z <= 362_084 * o) by (nonlinear_arith)
        requires
            z * o <= 362_084 * (o * o),
            o > 0,
    ;
    error::lemma_sum_close(min, p);
    let r = arith::sum(min, p).units();
    error::lemma_distance(r, a + u, 1, 200_000 * o);
    assert(positions::is_about(r - a, u, 200_000 * o));
    lemma_along_steps(r - a, u, v, l, w, n, s);
}

proof fn lemma_along_steps(d: int, u: int, v: int, l: int, w: int, n: int, s: int)
    requires
        s > 0,
        arith::absolute(n) <= 1001 * s,
        arith::absolute(l) <= 361 * cast::one(),
        positions::is_about(d, u, 200_000 * cast::one()),
        positions::is_about(u * cast::one(), v * l, 200_000 * (cast::one() * cast::one())),
        positions::is_about(v * s, n * cast::one(), 2003 * (s * cast::one())),
        positions::is_about(l, w, 181 * cast::one()),
    ensures
        positions::is_about(d * s, n * w, 2_000_000 * (cast::one() * s)),
{
    let o = cast::one();
    excess::lemma_weight_of_one();
    let k = o * o * s;
    assert(k > 0 && (200_000 * o) * (s * o) == 200_000 * k && (200_000 * (o * o)) * s == 200_000 * k
        && (2003 * (s * o)) * (361 * o) == 723_083 * k && (181 * o) * (1001 * (s * o)) == 181_181
        * k && s * o > 0) by (nonlinear_arith)
        requires
            k == o * o * s,
            s > 0,
            o > 0,
    ;
    let (s0, s1, s2, s3, s4) = ((d * s) * o, u * (s * o), (v * l) * s, (n * o) * l, (n * w) * o);
    positions::lemma_scaled(d, u, 200_000 * o, s * o);
    assert(d * (s * o) == s0) by (nonlinear_arith)
        requires
            s0 == (d * s) * o,
    ;
    positions::lemma_scaled(u * o, v * l, 200_000 * (o * o), s);
    assert((u * o) * s == s1) by (nonlinear_arith)
        requires
            s1 == u * (s * o),
    ;
    positions::lemma_scaled(v * s, n * o, 2003 * (s * o), l);
    assert((v * s) * l == s2) by (nonlinear_arith)
        requires
            s2 == (v * l) * s,
    ;
    let y = arith::absolute(l);
    assert((2003 * (s * o)) * y <= (2003 * (s * o)) * (361 * o)) by (nonlinear_arith)
        requires
            y <= 361 * o,
            s * o > 0,
    ;
    positions::lemma_allowed(s2, s3, (2003 * (s * o)) * y, 723_083 * k);
    positions::lemma_scaled(l, w, 181 * o, n * o);
    assert(l * (n * o) == s3 && w * (n * o) == s4) by (nonlinear_arith)
        requires
            s3 == (n * o) * l,
            s4 == (n * w) * o,
    ;
    let z = arith::absolute(n * o);
    assert(z <= 1001 * (s * o)) by {
        let x = arith::absolute(n);
        assert((-n) * o == -(n * o)) by (nonlinear_arith);
        assert(x * o <= 1001 * (s * o) && x * o >= 0) by (nonlinear_arith)
            requires
                0 <= x <= 1001 * s,
                o > 0,
        ;
    }
    assert((181 * o) * z <= (181 * o) * (1001 * (s * o))) by (nonlinear_arith)
        requires
            z <= 1001 * (s * o),
            o > 0,
    ;
    positions::lemma_allowed(s3, s4, (181 * o) * z, 181_181 * k);
    positions::lemma_two_steps(s0, s1, s2, 200_000 * k, 200_000 * k);
    positions::lemma_two_steps(s0, s2, s3, 400_000 * k, 723_083 * k);
    positions::lemma_two_steps(s0, s3, s4, 1_123_083 * k, 181_181 * k);
    positions::lemma_allowed(s0, s4, 1_304_264 * k, 2_000_000 * k);
    assert(2_000_000 * k == (2_000_000 * (o * s)) * o) by (nonlinear_arith)
        requires
            k == o * o * s,
    ;
    positions::lemma_unscaled(d * s, n * w, 2_000_000 * (o * s), o);
}

/// The coordinates of a position in local mode are in proportion, in the area and beside it:
/// the longitude lies as far from the western edge, and the latitude as far from the
/// southern edge, as the share of the area's blocks says.
pub proof fn law_positions_have_coordinates(
    bbox: LLBBox,
    scale: F64,
    distance: (F64, F64),
    made: (CoordTransformer, XZBBox),
    x: F64,
    z: F64,
    r: (F64, F64),
)
    requires
        bbox@.valid(),
        call_ensures(CoordTransformer::llbbox_to_xzbbox, (&bbox, scale, distance), Ok(made)),
        is_near_axis(x, made.0@.scale_factor_x),
        is_near_axis(z, made.0@.scale_factor_z),
        call_ensures(CoordTransformer::reference_to_latlng, (&made.0, x, z), r),
    ensures
        ({
            let o = cast::one();
            let (sx, sz) = (made.0@.scale_factor_x.units(), made.0@.scale_factor_z.units());
            let (lat, lng) = r;
            &&& lat.finite() && lng.finite()
            &&& positions::is_about(
                (lng.units() - bbox@.min_lng.units()) * sx,
                x.units() * (bbox@.max_lng.units() - bbox@.min_lng.units()),
                2_000_000 * (o * sx),
            )
            &&& positions::is_about(
                (lat.units() - bbox@.min_lat.units()) * sz,
                (sz - z.units()) * (bbox@.max_lat.units() - bbox@.min_lat.units()),
                2_000_000 * (o * sz),
            )
        }),
{
    let b = bbox@;
    let o = cast::one();
    excess::lemma_weight_of_one();
    let (bx, bz) = (made.0@.scale_factor_x, made.0@.scale_factor_z);
    let (sx, sz) = (bx.units(), bz.units());
    lemma_share(x, bx);
    lemma_share(z, bz);
    let q = arith::quotient(x, bx);
    assert(1001 * (sx * o) <= 2003 * (sx * o) && sz * o > 0) by (nonlinear_arith)
        requires
            sx > 0,
            sz > 0,
            o > 0,
    ;
    positions::lemma_allowed(q.units() * sx, x.units() * o, 1001 * (sx * o), 2003 * (sx * o));
    lemma_along(b.min_lng, b.max_lng, 180, q, x.units(), sx);
    let p = arith::quotient(z, bz);
    lemma_rest(p);
    let t = arith::difference(cast::of_integer(1), p);
    let (u, v, n) = (t.units(), p.units(), sz - z.units());
    positions::lemma_scaled(u, o - v, 1002 * o, sz);
    assert((1002 * o) * sz == 1002 * (sz * o) && (o - v) * sz == sz * o - v * sz && n * o == sz * o
        - z.units() * o) by (nonlinear_arith)
        requires
            n == sz - z.units(),
    ;
    assert(positions::is_about((o - v) * sz, n * o, 1001 * (sz * o)));
    positions::lemma_two_steps(
        u * sz,
        (o - v) * sz,
        n * o,
        1002 * (sz * o),
        1001 * (sz * o),
    );
    lemma_along(b.min_lat, b.max_lat, 90, t, n, sz);
}

/// A transformer in local mode keeps the area's south-west corner and its size in degrees;
/// one under a projection keeps also the scale, the cosine, and the middle of the area.
pub proof fn law_transformers_keep_the_area(
    bbox: LLBBox,
    scale: F64,
    distance: (F64, F64),
    local: (CoordTransformer, XZBBox),
    corners: transformation::Corners,
    cosine: F64,
    log_tan: F64,
    projected: (CoordTransformer, XZBBox),
)
    requires
        bbox@.valid(),
        call_ensures(CoordTransformer::llbbox_to_xzbbox, (&bbox, scale, distance), Ok(local)),
        call_ensures(
            CoordTransformer::with_projection,
            (&bbox, scale, &corners, cosine, log_tan),
            Ok(projected),
        ),
    ensures
        ({
            let (f, g) = (local.0@, projected.0@);
            let b = bbox@;
            &&& f.min_lat == b.min_lat && f.min_lng == b.min_lng
            &&& g.min_lat == b.min_lat && g.min_lng == b.min_lng
            &&& exact::is_nearest_number(f.len_lat, b.max_lat.units() - b.min_lat.units(), 1)
            &&& exact::is_nearest_number(f.len_lng, b.max_lng.units() - b.min_lng.units(), 1)
            &&& g.len_lat == f.len_lat && g.len_lng == f.len_lng
            &&& f.mode is Local
            &&& g.mode matches ProjectionMode::WebMercator {
                origin_lat,
                origin_lon,
                scale: s,
                cos_lat_ref,
                z_offset: _,
            }
            &&& s == scale && cos_lat_ref == cosine
            &&& positions::is_about(
                2 * origin_lat.units(),
                b.min_lat.units() + b.max_lat.units(),
                366 * cast::one(),
            )
            &&& positions::is_about(
                2 * origin_lon.units(),
                b.min_lng.units() + b.max_lng.units(),
                366 * cast::one(),
            )
        }),
{
    let b = bbox@;
    let o = cast::one();
    excess::lemma_weight_of_one();
    llpoint::lemma_of_degrees(b.min_lat, 90);
    llpoint::lemma_of_degrees(b.max_lat, 90);
    llpoint::lemma_of_degrees(b.min_lng, 180);
    llpoint::lemma_of_degrees(b.max_lng, 180);
    exact::lemma_difference(b.max_lat, b.min_lat);
    exact::lemma_difference(b.max_lng, b.min_lng);
    assert(90 * o <= 180 * o && -90 * o >= -180 * o) by (nonlinear_arith)
        requires
            o > 0,
    ;
    positions::lemma_halfway(b.min_lat, b.max_lat);
    positions::lemma_halfway(b.min_lng, b.max_lng);
}

} // verus!
