use arnis::binary64::F64;
use arnis::coordinate_system::geographic::llbbox::{BBoxError, LLBBox};
use arnis::coordinate_system::geographic::llpoint::{LLPoint, PointError};

fn f(x: f64) -> F64 {
    F64::from_bits(x.to_bits())
}

fn n(x: F64) -> f64 {
    f64::from_bits(x.to_bits())
}

fn bbox(min_lat: f64, min_lng: f64, max_lat: f64, max_lng: f64) -> Result<LLBBox, BBoxError> {
    LLBBox::new(f(min_lat), f(min_lng), f(max_lat), f(max_lng))
}

fn point(lat: f64, lng: f64) -> Result<LLPoint, PointError> {
    LLPoint::new(f(lat), f(lng))
}

fn cos_mid_lat(b: &LLBBox) -> F64 {
    f(n(b.mid_lat_radians()).cos())
}

fn cos_widest(b: &LLBBox, max_area_km2: f64) -> F64 {
    f(n(b.widest_lat_radians(f(max_area_km2))).cos())
}

fn split_into_grid(b: &LLBBox, max_area_km2: f64) -> Vec<LLBBox> {
    b.split_into_grid(f(max_area_km2), cos_mid_lat(b), cos_widest(b, max_area_km2))
}

fn area_km2(b: &LLBBox) -> f64 {
    n(b.area_km2(cos_mid_lat(b)))
}

#[test]
fn split_into_grid_noop_under_threshold() {
    // Arnis, Germany bbox: well under any realistic threshold.
    let bbox = bbox(54.627053, 9.927928, 54.634902, 9.937563).unwrap();
    let tiles = split_into_grid(&bbox, 250.0);
    assert_eq!(tiles, vec![bbox]);
}

#[test]
fn split_into_grid_exactly_covers_original_bbox_no_gaps() {
    // A ~26km x 26km box (roughly 676km^2 at this latitude), split at 50km^2/tile.
    let bbox = bbox(35.5, 139.5, 35.735, 139.735).unwrap();
    let max_area = 50.0;
    let tiles = split_into_grid(&bbox, max_area);

    assert!(tiles.len() > 1, "expected a real split, got {}", tiles.len());

    // Every tile is within the threshold, with a small floating slack for the
    // equirectangular approximation at row and column boundaries.
    for t in &tiles {
        assert!(
            area_km2(t) <= max_area * 1.001,
            "tile area {} exceeds threshold {}",
            area_km2(t),
            max_area
        );
    }

    // The tiles' areas add up to that of the box. Each is measured at its own
    // latitude, so a relative tolerance is the right check.
    let summed_area: f64 = tiles.iter().map(|t| area_km2(t)).sum();
    let original_area = area_km2(&bbox);
    let relative_error = (summed_area - original_area).abs() / original_area;
    assert!(
        relative_error < 1e-3,
        "summed tile area {summed_area} != original area {original_area} \
         (relative error {relative_error})"
    );

    // Every point of a fine grid over the box is in a tile.
    let n_samples = 40;
    let (min_lat, max_lat) = (n(bbox.min().lat()), n(bbox.max().lat()));
    let (min_lng, max_lng) = (n(bbox.min().lng()), n(bbox.max().lng()));
    for i in 0..=n_samples {
        for j in 0..=n_samples {
            let lat = min_lat + (max_lat - min_lat) * (i as f64 / n_samples as f64);
            let lng = min_lng + (max_lng - min_lng) * (j as f64 / n_samples as f64);
            let point = point(lat, lng).unwrap();
            let containing = tiles.iter().filter(|t| t.contains(&point)).count();
            assert!(
                containing >= 1,
                "point ({lat}, {lng}) inside original bbox is not covered by any tile"
            );
        }
    }
}

#[test]
fn split_into_grid_rejects_nonpositive_threshold_as_noop() {
    let bbox = bbox(35.5, 139.5, 35.735, 139.735).unwrap();
    assert_eq!(split_into_grid(&bbox, 0.0), vec![bbox]);
    assert_eq!(split_into_grid(&bbox, -5.0), vec![bbox]);
}

#[test]
fn test_valid_input() {
    assert!(bbox(0., 0., 1., 1.).is_ok());

    assert!(bbox(1., 2., 3., 4.).is_ok());

    // Arnis, Germany
    assert!(bbox(54.627053, 9.927928, 54.634902, 9.937563).is_ok());

    // Royal Observatory Greenwich, London, UK
    assert!(bbox(51.470000, -0.015000, 51.480000, 0.015000).is_ok());

    // The Bund, Shanghai, China
    assert!(bbox(31.23256, 121.46768, 31.24993, 121.50394).is_ok());

    // Santa Monica, Los Angeles, US
    assert!(bbox(34.00348, -118.51226, 34.02033, -118.47600).is_ok());

    // Sydney Opera House, Sydney, Australia
    assert!(bbox(-33.861035, 151.204137, -33.852597, 151.222268).is_ok());
}

#[test]
fn test_from_str_commas() {
    const ARNIS_STR: &str = "9.927928,54.627053,9.937563,54.634902";

    let bbox_result = LLBBox::from_str(ARNIS_STR);
    assert!(bbox_result.is_ok());

    let arnis_correct = bbox(9.927928, 54.627053, 9.937563, 54.634902).unwrap();

    assert_eq!(bbox_result.unwrap(), arnis_correct);
}

#[test]
fn test_from_str_spaces() {
    const ARNIS_SPACE_STR: &str = "9.927928 54.627053 9.937563 54.634902";

    let bbox_result = LLBBox::from_str(ARNIS_SPACE_STR);
    assert!(bbox_result.is_ok());

    let arnis_correct = bbox(9.927928, 54.627053, 9.937563, 54.634902).unwrap();

    assert_eq!(bbox_result.unwrap(), arnis_correct);
}

#[test]
fn test_from_str_comma_space() {
    const ARNIS_MIXED_STR: &str = "9.927928, 54.627053, 9.937563, 54.634902";

    assert!(LLBBox::from_str(ARNIS_MIXED_STR).is_ok());
}

#[test]
fn test_from_str_rejects_bad_input_without_panicking() {
    assert!(LLBBox::from_str("").is_err());
    assert!(LLBBox::from_str("   ").is_err());
    assert!(LLBBox::from_str(",,,").is_err());
    assert!(LLBBox::from_str("9.927928,54.627053,9.937563").is_err());
    assert!(LLBBox::from_str("9.927928,54.627053,9.937563,54.634902,1.0").is_err());
    assert!(LLBBox::from_str("9.927928,abc,9.937563,54.634902").is_err());
    assert!(LLBBox::from_str("nan,nan,nan,nan").is_err());
    assert!(LLBBox::from_str("-inf,0,inf,1").is_err());
}

#[test]
fn test_out_of_order() {
    assert!(bbox(0., 0., 0., 0.).is_err());
    assert!(bbox(1., 0., 0., 1.).is_err());
    assert!(bbox(0., 1., 1., 0.).is_err());
}

#[test]
fn each_fault_of_a_box_is_named() {
    match bbox(0., 5., 1., 5.) {
        Err(BBoxError::LongitudeOrder(a, b)) => assert_eq!((n(a), n(b)), (5., 5.)),
        other => panic!("{other:?}"),
    }
    match bbox(3., 0., 2., 1.) {
        Err(BBoxError::LatitudeOrder(a, b)) => assert_eq!((n(a), n(b)), (3., 2.)),
        other => panic!("{other:?}"),
    }
    match bbox(-90.5, 0., 2., 1.) {
        Err(BBoxError::Corner(PointError::Latitude(a))) => assert_eq!(n(a), -90.5),
        other => panic!("{other:?}"),
    }
    match bbox(-90., -181., 2., 1.) {
        Err(BBoxError::Corner(PointError::Longitude(a))) => assert_eq!(n(a), -181.),
        other => panic!("{other:?}"),
    }
    match bbox(0., 0., 1., 180.25) {
        Err(BBoxError::Corner(PointError::Longitude(a))) => assert_eq!(n(a), 180.25),
        other => panic!("{other:?}"),
    }
    assert!(matches!(bbox(f64::NAN, 0., 1., 1.), Err(BBoxError::Corner(PointError::Latitude(_)))));
    assert!(matches!(bbox(0., 0., 1., f64::NAN), Err(BBoxError::Corner(PointError::Longitude(_)))));
}

#[test]
fn each_fault_of_a_text_is_named() {
    match LLBBox::from_str("1,x2,y3,4") {
        Err(BBoxError::NotANumber(s)) => assert_eq!(s, "x2"),
        other => panic!("{other:?}"),
    }
    match LLBBox::from_str("1 2,inf,nan") {
        Err(BBoxError::NotFinite(s)) => assert_eq!(s, "inf"),
        other => panic!("{other:?}"),
    }
    assert!(matches!(LLBBox::from_str(" 1,, 2 ,3"), Err(BBoxError::FieldCount(3))));
    assert!(matches!(LLBBox::from_str(""), Err(BBoxError::FieldCount(0))));
    assert!(matches!(LLBBox::from_str("5 1 4 2"), Err(BBoxError::LatitudeOrder(_, _))));
}

#[test]
fn the_whole_globe_is_a_box() {
    let globe = LLBBox::from_str("-90,-180,90,180").unwrap();
    assert!(globe.contains(&point(-90., 180.).unwrap()));
    assert!(globe.contains(&point(0., -0.).unwrap()));
    assert_eq!(n(globe.min().lat()), -90.);
    assert_eq!(n(globe.max().lng()), 180.);
}

#[test]
fn contains_includes_the_edge_and_nothing_beyond() {
    let b = bbox(1., 2., 3., 4.).unwrap();
    assert!(b.contains(&point(1., 2.).unwrap()));
    assert!(b.contains(&point(3., 4.).unwrap()));
    assert!(!b.contains(&point(0.999, 3.).unwrap()));
    assert!(!b.contains(&point(3.001, 3.).unwrap()));
    assert!(!b.contains(&point(2., 1.999).unwrap()));
    assert!(!b.contains(&point(2., 4.001).unwrap()));
}

#[test]
fn area_is_that_of_the_rectangle_at_the_middle_latitude() {
    let b = bbox(35.5, 139.5, 35.735, 139.735).unwrap();
    let mid_lat = ((35.5f64 + 35.735) / 2.0).to_radians();
    assert_eq!(n(b.mid_lat_radians()), mid_lat);
    let width_m = (139.735f64 - 139.5) * 111_320.0 * mid_lat.cos();
    let height_m = (35.735f64 - 35.5) * 111_320.0;
    assert_eq!(area_km2(&b), (width_m * height_m).abs() / 1_000_000.0);
}

#[test]
fn tiles_share_their_edges_and_end_with_the_box() {
    let b = bbox(-10., -20., 17.3, 31.7).unwrap();
    let tiles = split_into_grid(&b, 90_000.0);
    let mut lats: Vec<f64> = tiles.iter().map(|t| n(t.min().lat())).collect();
    lats.dedup();
    let mut lngs: Vec<f64> = tiles.iter().map(|t| n(t.min().lng())).collect();
    lngs.sort_by(|a, b| a.partial_cmp(b).unwrap());
    lngs.dedup();
    assert!(lats.len() > 2 && lngs.len() > 2);
    assert_eq!(tiles.len(), lats.len() * lngs.len());
    assert_eq!((lats[0], lngs[0]), (-10., -20.));
    for t in &tiles {
        let north = n(t.max().lat());
        let east = n(t.max().lng());
        assert!(north == 17.3 || lats.contains(&north));
        assert!(east == 31.7 || lngs.contains(&east));
    }
}

#[test]
fn tiles_are_widest_in_the_row_nearest_to_the_equator() {
    // Square degrees of this area make a row of one degree each.
    let limit = 111.32 * 111.32;
    let widest = |min: f64, max: f64| {
        let b = bbox(min, 0., max, 50.).unwrap();
        n(b.widest_lat_radians(f(limit * 1.0001))).to_degrees()
    };
    let close = |a: f64, b: f64| assert!((a - b).abs() < 1e-9, "{a} is not {b}");
    close(widest(30., 33.), 30.5);
    close(widest(-33., -30.), -30.5);
    close(widest(0., 2.), 0.5);
    close(widest(-2., 0.), -0.5);
    close(widest(-1.75, 3.25), -0.25);
    close(widest(-1.25, 3.75), 0.25);
    close(widest(-1.5, 3.5), 0.0);
    // No row is cut for a limit that is no area.
    let b = bbox(10., 0., 20., 1.).unwrap();
    assert_eq!(n(b.widest_lat_radians(f(-1.0))), 15f64.to_radians());
    assert!(n(b.widest_lat_radians(f(0.0))) >= 10f64.to_radians());
}

#[test]
fn tiles_of_tall_boxes_are_within_the_limit_in_every_row() {
    let samples = [
        ((0., 0., 90., 180.), 25.1e6),
        ((-90., -180., 90., 180.), 1.0e6),
        ((-80., -10., -20., 40.), 300_000.0),
        ((55.0, 5.0, 71.0, 31.0), 10_000.0),
        ((10.0, 20.0, 10.000_000_1, 20.000_000_1), 1e-13),
    ];
    for ((min_lat, min_lng, max_lat, max_lng), limit) in samples {
        let b = bbox(min_lat, min_lng, max_lat, max_lng).unwrap();
        let tiles = split_into_grid(&b, limit);
        assert!(tiles.len() > 1);
        let widest = cos_widest(&b, limit);
        for t in &tiles {
            assert!(n(cos_mid_lat(t)) <= n(widest));
            assert!(area_km2(t) <= limit * 1.001);
            assert!(n(t.area_km2(widest)) <= limit * 1.001);
            assert_eq!(n(t.area_km2(f(0.0))), 0.0);
        }
    }
}

#[test]
fn columns_are_counted_at_the_middle_where_tiles_fit() {
    // Three columns reach at the middle latitude and not at the southern edge; four
    // rows make up for it.
    let b = bbox(35.5, 139.5, 35.735, 139.735).unwrap();
    let limit = 50.31;
    let side = (limit * 1_000_000.0f64).sqrt();
    let width = |lat: f64| (139.735f64 - 139.5) * 111_320.0 * lat.to_radians().cos();
    assert_eq!((width((35.5 + 35.735) / 2.0) / side).ceil(), 3.0);
    assert_eq!((width(35.5) / side).ceil(), 4.0);
    let tiles = split_into_grid(&b, limit);
    assert_eq!(tiles.len(), 12);
    for t in &tiles {
        assert!(area_km2(t) <= limit);
    }
}

#[test]
fn columns_are_counted_in_the_widest_row_where_tiles_would_not_fit() {
    // At the middle latitude three columns would do.
    let b = bbox(0., 0., 90., 180.).unwrap();
    let limit = 25.1e6;
    let side = (limit * 1_000_000.0f64).sqrt();
    let cols = |lat: f64| (180.0 * 111_320.0 * lat.to_radians().cos() / side).ceil();
    assert_eq!((90.0 * 111_320.0 / side).ceil(), 2.0);
    assert_eq!((cols(45.0), cols(22.5)), (3.0, 4.0));
    assert_eq!(split_into_grid(&b, limit).len(), 8);
    let narrow = b.split_into_grid(f(limit), cos_mid_lat(&b), cos_mid_lat(&b));
    assert_eq!(narrow.len(), 6);
    assert!(area_km2(&narrow[0]) > limit * 1.2);
}

#[test]
fn the_first_tile_starts_and_the_last_ends_with_the_box() {
    let b = bbox(-10., -20., 17.3, 31.7).unwrap();
    for limit in [90_000.0, 123_456.7, 1.0e6] {
        let tiles = split_into_grid(&b, limit);
        let (first, last) = (tiles[0], tiles[tiles.len() - 1]);
        assert_eq!((n(first.min().lat()), n(first.min().lng())), (-10., -20.));
        assert_eq!((n(last.max().lat()), n(last.max().lng())), (17.3, 31.7));
    }
}
