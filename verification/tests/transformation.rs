use arnis::binary64::F64;
use arnis::coordinate_system::cartesian::{XZBBox, XZBBoxError, XZPoint};
use arnis::coordinate_system::distance::{arc_meters, lat_sides, lon_sides, to_half_angle};
use arnis::coordinate_system::geographic::llbbox::LLBBox;
use arnis::coordinate_system::geographic::llpoint::LLPoint;
use arnis::coordinate_system::transformation::{
    corner_points, middle, origin_lat, to_mercator_angle, Corners, CoordTransformer,
    TransformError,
};

const EARTH_RADIUS: f64 = 6_371_000.0;

fn f(x: f64) -> F64 {
    F64::from_bits(x.to_bits())
}

fn n(x: F64) -> f64 {
    f64::from_bits(x.to_bits())
}

fn bbox(min_lat: f64, min_lng: f64, max_lat: f64, max_lng: f64) -> LLBBox {
    LLBBox::new(f(min_lat), f(min_lng), f(max_lat), f(max_lng)).unwrap()
}

fn point(lat: f64, lng: f64) -> LLPoint {
    LLPoint::new(f(lat), f(lng)).unwrap()
}

fn get_llbbox_arnis() -> LLBBox {
    bbox(54.627053, 9.927928, 54.634902, 9.937563)
}

/// The edges of a box: min_lat, min_lng, max_lat, max_lng.
fn edges(b: &LLBBox) -> (f64, f64, f64, f64) {
    (n(b.min().lat()), n(b.min().lng()), n(b.max().lat()), n(b.max().lng()))
}

fn lon_distance(lat: f64, lon1: f64, lon2: f64) -> f64 {
    let d_lon: f64 = (lon2 - lon1).to_radians();
    let a: f64 =
        lat.to_radians().cos() * lat.to_radians().cos() * (d_lon / 2.0).sin() * (d_lon / 2.0).sin();
    let c: f64 = 2.0 * a.sqrt().atan2((1.0 - a).sqrt());
    EARTH_RADIUS * c
}

fn lat_distance(lat1: f64, lat2: f64) -> f64 {
    let d_lat: f64 = (lat2 - lat1).to_radians();
    let a: f64 = (d_lat / 2.0).sin() * (d_lat / 2.0).sin();
    let c: f64 = 2.0 * a.sqrt().atan2((1.0 - a).sqrt());
    EARTH_RADIUS * c
}

/// Meters from south to north and from west to east.
fn geo_distance(b: &LLBBox) -> (f64, f64) {
    let (min_lat, min_lng, max_lat, max_lng) = edges(b);
    (
        lat_distance(min_lat, max_lat),
        lon_distance((min_lat + max_lat) / 2.0, min_lng, max_lng),
    )
}

fn lat_lon_to_minecraft_coords(
    lat: f64,
    lon: f64,
    bbox: &LLBBox,
    scale_factor_z: f64,
    scale_factor_x: f64,
) -> (i32, i32) {
    let (min_lat, min_lng, max_lat, max_lng) = edges(bbox);
    let rel_x: f64 = (lon - min_lng) / (max_lng - min_lng);
    let rel_z: f64 = 1.0 - (lat - min_lat) / (max_lat - min_lat);
    ((rel_x * scale_factor_x) as i32, (rel_z * scale_factor_z) as i32)
}

fn to_xzbbox(b: &LLBBox, scale: f64) -> Result<(CoordTransformer, XZBBox), TransformError> {
    let (z, x) = geo_distance(b);
    CoordTransformer::llbbox_to_xzbbox(b, f(scale), (f(z), f(x)))
}

fn to_xzbbox_with_reference(
    reference: &LLBBox,
    part: &LLBBox,
    scale: f64,
) -> Result<(CoordTransformer, XZBBox), TransformError> {
    let (z, x) = geo_distance(reference);
    CoordTransformer::llbbox_to_xzbbox_with_reference(reference, part, f(scale), (f(z), f(x)))
}

fn log_tan(lat: f64) -> F64 {
    f(n(to_mercator_angle(f(lat))).tan().ln())
}

fn transform_point(t: &CoordTransformer, p: LLPoint) -> XZPoint {
    t.transform_point(p, log_tan(n(p.lat())))
}

struct WebMercatorProjection {
    origin_lon: f64,
    scale: f64,
    cos_lat_ref: f64,
    z_offset: f64,
}

impl WebMercatorProjection {
    fn new(origin_lat: f64, origin_lon: f64, scale: f64) -> Self {
        let log_tan = (std::f64::consts::FRAC_PI_4 + origin_lat.to_radians() / 2.0).tan().ln();
        WebMercatorProjection {
            origin_lon,
            scale,
            cos_lat_ref: origin_lat.to_radians().cos(),
            z_offset: EARTH_RADIUS * log_tan * scale,
        }
    }

    fn forward(&self, lat: f64, lon: f64) -> (f64, f64) {
        let x = EARTH_RADIUS * (lon - self.origin_lon).to_radians() * self.cos_lat_ref * self.scale;
        let z = -EARTH_RADIUS
            * (std::f64::consts::FRAC_PI_4 + lat.to_radians() / 2.0).tan().ln()
            * self.scale
            + self.z_offset;
        (x, z)
    }
}

fn with_projection(
    b: &LLBBox,
    scale: f64,
    projection: &WebMercatorProjection,
) -> Result<(CoordTransformer, XZBBox), TransformError> {
    let forward = |p: LLPoint| {
        let (x, z) = projection.forward(n(p.lat()), n(p.lng()));
        (f(x), f(z))
    };
    let points = corner_points(b);
    let corners = Corners {
        nw: forward(points.nw),
        se: forward(points.se),
        ne: forward(points.ne),
        sw: forward(points.sw),
    };
    let lat = n(origin_lat(b));
    let cos_lat_ref = lat.to_radians().cos();
    CoordTransformer::with_projection(b, f(scale), &corners, f(cos_lat_ref), log_tan(lat))
}

/// A chunk bbox whose north-west corner sits exactly on reference block
/// (x0, z0), running to (x1, z1).
fn chunk_at(reference: &CoordTransformer, x0: f64, z0: f64, x1: f64, z1: f64) -> LLBBox {
    let (max_lat, min_lng) = reference.reference_to_latlng(f(x0), f(z0));
    let (min_lat, max_lng) = reference.reference_to_latlng(f(x1), f(z1));
    LLBBox::new(min_lat, min_lng, max_lat, max_lng).unwrap()
}

// A single run is the reference == processing case, and must not change at all.
#[test]
fn reference_equal_to_processing_is_the_plain_transform() {
    let bbox = get_llbbox_arnis();
    let (plain, plain_box) = to_xzbbox(&bbox, 1.0).unwrap();
    let (with_ref, ref_box) = to_xzbbox_with_reference(&bbox, &bbox, 1.0).unwrap();
    assert_eq!(
        (plain_box.min_x(), plain_box.min_z(), plain_box.max_x(), plain_box.max_z()),
        (ref_box.min_x(), ref_box.min_z(), ref_box.max_x(), ref_box.max_z())
    );
    let (min_lat, min_lng, max_lat, max_lng) = edges(&bbox);
    for i in 0..=20 {
        for j in 0..=20 {
            let p = point(
                min_lat + (max_lat - min_lat) * i as f64 / 20.0,
                min_lng + (max_lng - min_lng) * j as f64 / 20.0,
            );
            assert_eq!(transform_point(&plain, p), transform_point(&with_ref, p));
        }
    }
}

// What chunked generation relies on: a chunk puts every point, bit for bit, where
// a single run over the whole reference area would, inside the chunk or not, and
// its box starts exactly on the block it was cut at.
#[test]
fn chunk_coordinates_match_a_single_run_over_the_reference_area() {
    let bbox = get_llbbox_arnis();
    let (whole, _) = to_xzbbox(&bbox, 1.0).unwrap();

    let chunks = [
        chunk_at(&whole, 0.0, 0.0, 256.0, 512.0),
        chunk_at(&whole, 256.0, 128.0, 600.0, 800.0),
    ];
    let expected_offsets = [(0, 0), (256, 128)];

    let (min_lat, min_lng, max_lat, max_lng) = edges(&bbox);
    for (chunk, expected_offset) in chunks.iter().zip(expected_offsets) {
        let (local, local_box) = to_xzbbox_with_reference(&bbox, chunk, 1.0).unwrap();
        assert_eq!(
            (local_box.min_x(), local_box.min_z()),
            expected_offset,
            "chunk box must start on the block it was cut at"
        );

        for i in 0..=40 {
            for j in 0..=40 {
                let p = point(
                    min_lat + (max_lat - min_lat) * i as f64 / 40.0,
                    min_lng + (max_lng - min_lng) * j as f64 / 40.0,
                );
                assert_eq!(
                    transform_point(&local, p),
                    transform_point(&whole, p),
                    "chunk at {expected_offset:?} disagrees with the single run on {p:?}"
                );
            }
        }
    }
}

fn test_llxztransform_one_scale_one_factor(scale: f64, test_latfactor: f64, test_lngfactor: f64) {
    let llbbox = get_llbbox_arnis();
    let (min_lat, min_lng, max_lat, max_lng) = edges(&llbbox);
    let llpoint = point(
        min_lat + (max_lat - min_lat) * test_latfactor,
        min_lng + (max_lng - min_lng) * test_lngfactor,
    );
    let (transformer, xzbbox_new) = to_xzbbox(&llbbox, scale).unwrap();

    let (scale_factor_z, scale_factor_x) = geo_distance(&llbbox);
    let scale_factor_z: f64 = scale_factor_z.floor() * scale;
    let scale_factor_x: f64 = scale_factor_x.floor() * scale;
    let xzbbox_old = XZBBox::rect_from_xz_lengths(f(scale_factor_x), f(scale_factor_z)).unwrap();

    let (x, z) = lat_lon_to_minecraft_coords(
        n(llpoint.lat()),
        n(llpoint.lng()),
        &llbbox,
        scale_factor_z,
        scale_factor_x,
    );
    let xzpoint = transform_point(&transformer, llpoint);

    assert_eq!(x, xzpoint.x);
    assert_eq!(z, xzpoint.z);
    assert_eq!(xzbbox_new.min_x(), xzbbox_old.min_x());
    assert_eq!(xzbbox_new.max_x(), xzbbox_old.max_x());
    assert_eq!(xzbbox_new.min_z(), xzbbox_old.min_z());
    assert_eq!(xzbbox_new.max_z(), xzbbox_old.max_z());
    assert_eq!(n(transformer.scale_factor_x()), scale_factor_x);
    assert_eq!(n(transformer.scale_factor_z()), scale_factor_z);
}

#[test]
fn test_llxztransform() {
    test_llxztransform_one_scale_one_factor(1.0, 0.5, 0.5);
    test_llxztransform_one_scale_one_factor(3.0, 0.1, 0.2);
    test_llxztransform_one_scale_one_factor(10.0, -1.2, 2.0);
    test_llxztransform_one_scale_one_factor(0.4, 0.3, -0.2);
    test_llxztransform_one_scale_one_factor(0.1, 0.2, 0.7);
}

#[test]
fn test_invalid_construct() {
    let llbbox = get_llbbox_arnis();
    let obj = to_xzbbox(&llbbox, 0.0);
    assert!(obj.is_err());

    let obj = to_xzbbox(&llbbox, -1.2);
    assert!(obj.is_err());
}

#[test]
fn test_with_projection_constructs_successfully() {
    let llbbox = get_llbbox_arnis();
    let (min_lat, min_lng, max_lat, max_lng) = edges(&llbbox);
    let proj =
        WebMercatorProjection::new((min_lat + max_lat) / 2.0, (min_lng + max_lng) / 2.0, 1.0);
    let result = with_projection(&llbbox, 1.0, &proj);
    assert!(result.is_ok());
}

#[test]
fn test_with_projection_invalid_scale() {
    let llbbox = get_llbbox_arnis();
    let proj = WebMercatorProjection::new(54.63, 9.93, 1.0);

    assert!(with_projection(&llbbox, 0.0, &proj).is_err());
    assert!(with_projection(&llbbox, -1.0, &proj).is_err());
}

#[test]
fn test_with_projection_xzbbox_contains_projected_corners() {
    let llbbox = get_llbbox_arnis();
    let (min_lat, min_lng, max_lat, max_lng) = edges(&llbbox);
    let proj =
        WebMercatorProjection::new((min_lat + max_lat) / 2.0, (min_lng + max_lng) / 2.0, 1.0);
    let (transformer, xzbbox) = with_projection(&llbbox, 1.0, &proj).unwrap();

    // All four corners should map inside the xzbbox
    let corners = [
        point(min_lat, min_lng),
        point(min_lat, max_lng),
        point(max_lat, min_lng),
        point(max_lat, max_lng),
    ];

    for corner in &corners {
        let pt = transform_point(&transformer, *corner);
        assert!(
            pt.x >= xzbbox.min_x() && pt.x <= xzbbox.max_x(),
            "x={} out of xzbbox [{}, {}] for corner ({}, {})",
            pt.x,
            xzbbox.min_x(),
            xzbbox.max_x(),
            n(corner.lat()),
            n(corner.lng()),
        );
        assert!(
            pt.z >= xzbbox.min_z() && pt.z <= xzbbox.max_z(),
            "z={} out of xzbbox [{}, {}] for corner ({}, {})",
            pt.z,
            xzbbox.min_z(),
            xzbbox.max_z(),
            n(corner.lat()),
            n(corner.lng()),
        );
    }
}

#[test]
fn test_with_projection_matches_standalone_projection() {
    let llbbox = get_llbbox_arnis();
    let (min_lat, min_lng, max_lat, max_lng) = edges(&llbbox);
    let origin_lat = (min_lat + max_lat) / 2.0;
    let origin_lon = (min_lng + max_lng) / 2.0;
    let proj = WebMercatorProjection::new(origin_lat, origin_lon, 1.0);
    let (transformer, _) = with_projection(&llbbox, 1.0, &proj).unwrap();

    let test_point =
        point(min_lat + (max_lat - min_lat) * 0.3, min_lng + (max_lng - min_lng) * 0.7);

    let pt = transform_point(&transformer, test_point);
    let (expected_x, expected_z) = proj.forward(n(test_point.lat()), n(test_point.lng()));

    assert_eq!(pt.x, expected_x as i32);
    assert_eq!(pt.z, expected_z as i32);
}

#[test]
fn test_with_projection_east_increases_x() {
    let llbbox = get_llbbox_arnis();
    let proj = WebMercatorProjection::new(54.63, 9.93, 1.0);
    let (transformer, _) = with_projection(&llbbox, 1.0, &proj).unwrap();

    let west = point(54.63, 9.928);
    let east = point(54.63, 9.937);

    let pw = transform_point(&transformer, west);
    let pe = transform_point(&transformer, east);
    assert!(
        pe.x > pw.x,
        "east should have larger x: west.x={}, east.x={}",
        pw.x,
        pe.x,
    );
}

#[test]
fn test_with_projection_north_decreases_z() {
    let llbbox = get_llbbox_arnis();
    let proj = WebMercatorProjection::new(54.63, 9.93, 1.0);
    let (transformer, _) = with_projection(&llbbox, 1.0, &proj).unwrap();

    let south = point(54.628, 9.93);
    let north = point(54.634, 9.93);

    let ps = transform_point(&transformer, south);
    let pn = transform_point(&transformer, north);
    assert!(
        pn.z < ps.z,
        "north should have smaller z: south.z={}, north.z={}",
        ps.z,
        pn.z,
    );
}

#[test]
fn test_local_mode_unaffected_by_projection_addition() {
    let llbbox = get_llbbox_arnis();
    let (min_lat, min_lng, max_lat, max_lng) = edges(&llbbox);
    let (transformer, _) = to_xzbbox(&llbbox, 1.0).unwrap();

    let (scale_factor_z, scale_factor_x) = geo_distance(&llbbox);
    let scale_factor_z = scale_factor_z.floor();
    let scale_factor_x = scale_factor_x.floor();

    let llpoint = point(min_lat + (max_lat - min_lat) * 0.5, min_lng + (max_lng - min_lng) * 0.5);

    let (expected_x, expected_z) = lat_lon_to_minecraft_coords(
        n(llpoint.lat()),
        n(llpoint.lng()),
        &llbbox,
        scale_factor_z,
        scale_factor_x,
    );

    let pt = transform_point(&transformer, llpoint);
    assert_eq!(pt.x, expected_x);
    assert_eq!(pt.z, expected_z);
}

#[test]
fn lengths_that_are_no_lengths_are_refused() {
    let rect = |x: f64, z: f64| XZBBox::rect_from_xz_lengths(f(x), f(z));
    assert!(matches!(rect(-1.0, 2.0), Err(XZBBoxError::Length(_, _))));
    assert!(matches!(rect(f64::NAN, 2.0), Err(XZBBoxError::Length(_, _))));
    assert!(matches!(rect(2147483648.0, 2.0), Err(XZBBoxError::LengthX(_))));
    assert!(matches!(rect(2.0, f64::INFINITY), Err(XZBBoxError::LengthZ(_))));
    let b = rect(2147483647.0, 7.75).unwrap();
    assert_eq!((b.min_x(), b.min_z(), b.max_x(), b.max_z()), (0, 0, 2147483647, 7));
}

#[test]
fn a_box_does_not_end_before_it_starts() {
    let b = XZBBox::rect_from_min_max(-3, 4, -3, 9).unwrap();
    assert_eq!((b.min_x(), b.min_z(), b.max_x(), b.max_z()), (-3, 4, -3, 9));
    match XZBBox::rect_from_min_max(0, 5, 1, 4) {
        Err(XZBBoxError::Empty(p, q)) => {
            assert_eq!((p, q), (XZPoint::new(0, 5), XZPoint::new(1, 4)))
        }
        other => panic!("{other:?}"),
    }
}

#[test]
fn each_fault_of_a_transformer_is_named() {
    let b = get_llbbox_arnis();
    match to_xzbbox(&b, -1.2) {
        Err(TransformError::Scale(s)) => assert_eq!(n(s), -1.2),
        _ => panic!("scale"),
    }
    let far = CoordTransformer::llbbox_to_xzbbox(&b, f(1.0), (f(10.0), f(1e10)));
    assert!(matches!(far, Err(TransformError::Rect(XZBBoxError::LengthX(_)))));
    // A NaN scale is not at most zero, and makes no length.
    assert!(matches!(
        to_xzbbox(&b, f64::NAN),
        Err(TransformError::Rect(XZBBoxError::Length(_, _)))
    ));
    let same = (f(0.0), f(f64::NEG_INFINITY));
    let corners = Corners { nw: same, se: same, ne: same, sw: same };
    assert_eq!(corners.envelope(), (XZPoint::new(0, i32::MIN), XZPoint::new(0, i32::MIN)));
}

#[test]
fn envelope_takes_the_outermost_corners() {
    let corners = Corners {
        nw: (f(-1.5), f(-2.5)),
        se: (f(3.25), f(4.0)),
        ne: (f(2.0), f(f64::NAN)),
        sw: (f(-1.0), f(4.5)),
    };
    assert_eq!(corners.envelope(), (XZPoint::new(-2, -3), XZPoint::new(4, 5)));
}

#[test]
fn positions_go_back_to_where_they_came_from() {
    let b = get_llbbox_arnis();
    let (t, _) = to_xzbbox(&b, 1.0).unwrap();
    let (min_lat, min_lng, max_lat, max_lng) = edges(&b);
    let (sx, sz) = (n(t.scale_factor_x()), n(t.scale_factor_z()));
    let (lat, lng) = t.reference_to_latlng(f(100.0), f(300.0));
    assert_eq!(n(lng), min_lng + 100.0 / sx * (max_lng - min_lng));
    assert_eq!(n(lat), min_lat + (1.0 - 300.0 / sz) * (max_lat - min_lat));
}

#[test]
fn distances_follow_the_haversine_formula() {
    let samples = [
        (54.627053, 9.927928, 54.634902, 9.937563),
        (-33.861035, 151.204137, -33.852597, 151.222268),
        (0.0, -179.0, 80.0, 179.0),
    ];
    for (min_lat, min_lng, max_lat, max_lng) in samples {
        let (a, b) = lat_sides(f(n(to_half_angle(f(min_lat), f(max_lat))).sin()));
        assert_eq!(n(arc_meters(f(n(a).atan2(n(b))))), lat_distance(min_lat, max_lat));
        let lat = n(middle(f(min_lat), f(max_lat)));
        assert_eq!(lat, (min_lat + max_lat) / 2.0);
        let sine = n(to_half_angle(f(min_lng), f(max_lng))).sin();
        let (a, b) = lon_sides(f(lat.to_radians().cos()), f(sine));
        assert_eq!(n(arc_meters(f(n(a).atan2(n(b))))), lon_distance(lat, min_lng, max_lng));
    }
    assert_eq!(n(to_half_angle(f(7.25), f(7.25))), 0.0);
}

#[test]
fn the_middle_of_a_projected_area_is_block_zero() {
    let b = get_llbbox_arnis();
    let (min_lat, min_lng, max_lat, max_lng) = edges(&b);
    let (lat, lng) = ((min_lat + max_lat) / 2.0, (min_lng + max_lng) / 2.0);
    let proj = WebMercatorProjection::new(lat, lng, 1.0);
    let (t, _) = with_projection(&b, 1.0, &proj).unwrap();
    assert_eq!(transform_point(&t, point(lat, lng)), XZPoint::new(0, 0));
}

#[test]
fn no_step_east_or_north_goes_the_other_way() {
    let b = get_llbbox_arnis();
    let (min_lat, min_lng, max_lat, max_lng) = edges(&b);
    let proj = WebMercatorProjection::new(54.63, 9.93, 1.0);
    let (local, _) = to_xzbbox(&b, 0.7).unwrap();
    let (projected, _) = with_projection(&b, 1.0, &proj).unwrap();
    for t in [&local, &projected] {
        let mut last = transform_point(t, point(min_lat, min_lng));
        for i in 1..=200 {
            let step = i as f64 / 200.0;
            let p = point(
                min_lat + (max_lat - min_lat) * step,
                min_lng + (max_lng - min_lng) * step,
            );
            let next = transform_point(t, p);
            assert!(next.x >= last.x && next.z <= last.z);
            last = next;
        }
    }
}

#[test]
fn every_block_edge_of_an_axis_comes_back_to_its_block() {
    let b = get_llbbox_arnis();
    let (t, whole) = to_xzbbox(&b, 3.7).unwrap();
    for x in 0..=whole.max_x() {
        let z = x % (whole.max_z() + 1);
        let (lat, lng) = t.reference_to_latlng(f(x as f64), f(z as f64));
        let (south, east) = (f(n(lat) - 0.001), f(n(lng) + 0.001));
        let part = LLBBox::new(south, lng, lat, east).unwrap();
        let (_, blocks) = to_xzbbox_with_reference(&b, &part, 3.7).unwrap();
        assert_eq!((blocks.min_x(), blocks.min_z()), (x, z));
    }
}

#[test]
fn corner_points_are_the_corners_of_the_box() {
    let c = corner_points(&bbox(-1., 2., 3., 4.));
    let at = |p: LLPoint| (n(p.lat()), n(p.lng()));
    assert_eq!((at(c.nw), at(c.ne)), ((3., 2.), (3., 4.)));
    assert_eq!((at(c.sw), at(c.se)), ((-1., 2.), (-1., 4.)));
}

#[test]
fn corners_of_projected_areas_lie_in_their_boxes() {
    for (b, scale) in [
        (get_llbbox_arnis(), 1.0),
        (get_llbbox_arnis(), 0.37),
        (bbox(-33.9, -70.7, -33.4, -70.1), 2.5),
        (bbox(-1.0, 100.0, 1.0, 101.0), 1.0),
    ] {
        let lat = n(origin_lat(&b));
        let lng = n(middle(b.min().lng(), b.max().lng()));
        let proj = WebMercatorProjection::new(lat, lng, scale);
        let (t, blocks) = with_projection(&b, scale, &proj).unwrap();
        let c = corner_points(&b);
        for corner in [c.nw, c.se, c.ne, c.sw] {
            let p = transform_point(&t, corner);
            assert!(blocks.min_x() <= p.x && p.x <= blocks.max_x());
            assert!(blocks.min_z() <= p.z && p.z <= blocks.max_z());
        }
    }
}

#[test]
fn the_corners_of_the_world_are_those_of_the_area() {
    for b in [get_llbbox_arnis(), bbox(-33.9, -70.7, -33.4, -70.1), bbox(-89., -179., 88., 178.)] {
        let (t, _) = to_xzbbox(&b, 0.9).unwrap();
        let (min_lat, min_lng, max_lat, max_lng) = edges(&b);
        let (north, west) = t.reference_to_latlng(f(0.0), f(0.0));
        let (south, east) = t.reference_to_latlng(t.scale_factor_x(), t.scale_factor_z());
        assert_eq!((n(west), n(south)), (min_lng, min_lat));
        assert!((n(east) - max_lng).abs() < 1e-12 && (n(north) - max_lat).abs() < 1e-12);
    }
}

#[test]
fn an_area_shorter_than_a_meter_still_has_directions() {
    let b = bbox(10.0, 20.0, 10.000001, 20.000001);
    let (t, blocks) = to_xzbbox(&b, 1.0).unwrap();
    assert_eq!((n(t.scale_factor_x()), n(t.scale_factor_z())), (0.0, 0.0));
    let (sw, ne) = (transform_point(&t, b.min()), transform_point(&t, b.max()));
    assert!(sw.x <= ne.x && ne.z <= sw.z);
    assert_eq!((blocks.max_x(), blocks.max_z()), (0, 0));
}

#[test]
fn x_follows_the_longitude_and_z_the_latitude_alone() {
    let b = get_llbbox_arnis();
    let proj = WebMercatorProjection::new(54.63, 9.93, 1.0);
    let (local, _) = to_xzbbox(&b, 1.0).unwrap();
    let (projected, _) = with_projection(&b, 1.0, &proj).unwrap();
    for t in [&local, &projected] {
        let p = transform_point(t, point(54.628, 9.93));
        assert_eq!(transform_point(t, point(54.634, 9.93)).x, p.x);
        assert_eq!(transform_point(t, point(54.628, 9.937)).z, p.z);
    }
}

#[test]
fn positions_come_back_but_for_rounding() {
    let samples = [
        (get_llbbox_arnis(), 1.0),
        (get_llbbox_arnis(), 1e-9),
        (bbox(-33.9, -70.7, -33.4, -70.1), 250.0),
        (bbox(-89., -179., 88., 178.), 0.01),
    ];
    for (b, scale) in samples {
        let (t, _) = to_xzbbox(&b, scale).unwrap();
        let (min_lat, min_lng, max_lat, max_lng) = edges(&b);
        let (sx, sz) = (n(t.scale_factor_x()), n(t.scale_factor_z()));
        let (len_lat, len_lng) = (max_lat - min_lat, max_lng - min_lng);
        for i in 0..=100 {
            let (x, z) = (sx * i as f64 / 100.0, sz * (100 - i) as f64 / 100.0);
            let (lat, lng) = t.reference_to_latlng(f(x), f(z));
            let back_x = (n(lng) - min_lng) / len_lng * sx;
            let back_z = (1.0 - (n(lat) - min_lat) / len_lat) * sz;
            let bound = |blocks: f64, len: f64| {
                blocks * (20.0 * 2f64.powi(-52) + 2f64.powi(-40) / len)
            };
            assert!((back_x - x).abs() <= bound(sx, len_lng));
            assert!((back_z - z).abs() <= bound(sz, len_lat));
        }
    }
}
