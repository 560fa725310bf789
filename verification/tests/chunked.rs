use arnis::binary64::F64;
use arnis::chunked::command_line::{
    bbox_arg, bbox_of_chunk, chunk_arguments, passthrough_args, probe_arguments, Argument,
    EdgeTexts,
};
use arnis::chunked::driver::{Action, Driver};
use arnis::chunked::merge::{
    holds_largest_id, maps_to_copy, next_free_map_id, region_work, RegionWork,
};
use arnis::chunked::names::{parse_map_id, parse_region_name};
use arnis::chunked::options::{Options, Refusal};
use arnis::chunked::plan::plan_chunks;
use arnis::chunked::probe::{parse_report, Measurement, ProbeError};
use arnis::coordinate_system::geographic::llbbox::LLBBox;
use arnis::coordinate_system::transformation::CoordTransformer;
use std::collections::HashMap;

fn f(x: f64) -> F64 {
    F64::from_bits(x.to_bits())
}

fn n(x: F64) -> f64 {
    f64::from_bits(x.to_bits())
}

fn strings(items: &[&str]) -> Vec<String> {
    items.iter().map(|s| s.to_string()).collect()
}

fn arguments(args: Vec<Argument>) -> Vec<String> {
    args.into_iter()
        .map(|a| match a {
            Argument::Text(s) => s,
            Argument::OutputDir => "<dir>".to_string(),
        })
        .collect()
}

#[test]
fn plan_owns_every_region_exactly_once_and_origins_are_region_aligned() {
    let (max_x, max_z) = (5 * 512 + 100, 3 * 512 + 7);
    let plans = plan_chunks(max_x, max_z, 2, 1);
    let mut owner: HashMap<(i32, i32), usize> = HashMap::new();
    for p in &plans {
        assert_eq!(p.block_x.0 % 512, 0);
        assert_eq!(p.block_z.0 % 512, 0);
        for rx in p.region_x.0..p.region_x.1 {
            for rz in p.region_z.0..p.region_z.1 {
                assert!(
                    owner.insert((rx, rz), p.index).is_none(),
                    "region owned twice"
                );
                // Owned regions lie inside the generated range, margin included.
                assert!(rx * 512 >= p.block_x.0 && rz * 512 >= p.block_z.0);
            }
        }
    }
    assert_eq!(owner.len(), 6 * 4, "every region owned");
    assert_eq!((plans[0].block_x.0, plans[0].block_z.0), (0, 0));
}

#[test]
fn passthrough_region_and_map_names_parse() {
    assert_eq!(parse_region_name("r.-2.13.mca"), Some((-2, 13)));
    assert_eq!(parse_region_name("r.1.mca"), None);
    assert_eq!(parse_map_id("map_42.dat"), Some(42));
    assert_eq!(parse_map_id("idcounts.dat"), None);
}

#[test]
fn a_small_world_is_one_chunk() {
    let plans = plan_chunks(0, 511, 7, 3);
    assert_eq!(plans.len(), 1);
    assert_eq!((plans[0].region_x, plans[0].region_z), ((0, 1), (0, 1)));
    assert_eq!((plans[0].block_x, plans[0].block_z), ((0, 1), (0, 512)));
}

#[test]
fn chunks_go_row_by_row_with_their_margins() {
    let plans = plan_chunks(5 * 512 + 100, 3 * 512 + 7, 2, 1);
    assert_eq!(plans.len(), 6);
    let p = plans[4];
    assert_eq!(p.index, 4);
    assert_eq!((p.region_x, p.region_z), ((2, 4), (2, 4)));
    assert_eq!(p.block_x, (512, 5 * 512));
    assert_eq!(p.block_z, (512, 3 * 512 + 8));
    assert!(p.owns(2, 3) && !p.owns(4, 3) && !p.owns(2, 1));
}

#[test]
fn every_block_is_generated_with_the_margin_of_its_chunk() {
    let (max_x, max_z) = (5 * 512 + 100, 3 * 512);
    for p in &plan_chunks(max_x, max_z, 2, 1) {
        for (x, z) in [(p.region_x.0, p.region_z.0), (p.region_x.1 - 1, p.region_z.1 - 1)] {
            let (low_x, low_z) = ((x * 512 - 512).max(0), (z * 512 - 512).max(0));
            let (top_x, top_z) = ((x * 512 + 1023).min(max_x), (z * 512 + 1023).min(max_z));
            assert!(p.block_x.0 <= low_x && top_x < p.block_x.1);
            assert!(p.block_z.0 <= low_z && top_z < p.block_z.1);
        }
        assert!(p.block_x.1 <= max_x + 1 && p.block_z.1 <= max_z + 1);
    }
}

#[test]
fn the_largest_world_that_fits_can_be_planned() {
    let last = i32::MAX - 512;
    let plans = plan_chunks(last, 0, i32::MAX, 0);
    assert_eq!(plans.len(), 1);
    assert_eq!(plans[0].region_x, (0, 4_194_303));
    assert_eq!(plans[0].block_x, (0, last + 1));
}

#[test]
fn region_names_are_read_strictly() {
    assert_eq!(parse_region_name("r.0.0.mca"), Some((0, 0)));
    assert_eq!(parse_region_name("r.+7.-0.mca"), Some((7, 0)));
    assert_eq!(parse_region_name("r.2147483647.-2147483648.mca"), Some((i32::MAX, i32::MIN)));
    assert_eq!(parse_region_name("r.2147483648.0.mca"), None);
    assert_eq!(parse_region_name("r.1.2.3.mca"), None);
    assert_eq!(parse_region_name("r..2.mca"), None);
    assert_eq!(parse_region_name("r. 1.2.mca"), None);
    assert_eq!(parse_region_name("r.mca"), None);
    assert_eq!(parse_region_name("r.1.2.mcb"), None);
    assert_eq!(parse_region_name("R.1.2.mca"), None);
    assert_eq!(parse_region_name(""), None);
}

#[test]
fn map_names_are_read_strictly() {
    assert_eq!(parse_map_id("map_-1.dat"), Some(-1));
    assert_eq!(parse_map_id("map_.dat"), None);
    assert_eq!(parse_map_id("map_1.data"), None);
    assert_eq!(parse_map_id("map.dat"), None);
    assert_eq!(parse_map_id("map_007.dat"), Some(7));
}

#[test]
fn own_flags_are_taken_off_the_command_line() {
    let args = strings(&[
        "--terrain",
        "--bbox",
        "1,2,3,4",
        "--scale=2",
        "--output-dir=/x",
        "--probe-elevation",
        "--name",
        "w",
        "--chunk-regions=3",
        "--chunk-margin-regions",
        "2",
        "--bbox-like",
        "plain",
    ]);
    let passed = passthrough_args(&args);
    assert_eq!(passed, strings(&["--terrain", "--scale=2", "--bbox-like", "plain"]));
    // What is passed on is passed on again unchanged.
    assert_eq!(passthrough_args(&passed), passed);
}

#[test]
fn a_value_is_taken_with_its_flag_even_if_it_looks_like_one() {
    assert_eq!(passthrough_args(&strings(&["--path", "--terrain", "x"])), strings(&["x"]));
    assert_eq!(passthrough_args(&strings(&["x", "--path"])), strings(&["x"]));
    assert_eq!(passthrough_args(&strings(&["--probe-elevation", "x"])), strings(&["x"]));
    assert_eq!(passthrough_args(&strings(&["--map-id-base=", "x"])), strings(&["x"]));
    assert_eq!(passthrough_args(&strings(&["=--path", ""])), strings(&["=--path", ""]));
    assert_eq!(passthrough_args(&Vec::new()), Vec::<String>::new());
}

#[test]
fn chunks_are_run_with_these_arguments() {
    let passed = strings(&["--terrain"]);
    assert_eq!(
        arguments(probe_arguments(&passed, "1,2,3,4", "0,0,9,9")),
        strings(&[
            "--terrain",
            "--bbox=1,2,3,4",
            "--reference-bbox=0,0,9,9",
            "--probe-elevation",
            "--output-dir",
            "<dir>",
        ])
    );
    let range = Some(("-1.5".to_string(), "20".to_string()));
    assert_eq!(
        arguments(chunk_arguments(&passed, "1,2,3,4", "0,0,9,9", 1070, &range, Some(-62))),
        strings(&[
            "--terrain",
            "--bbox=1,2,3,4",
            "--reference-bbox=0,0,9,9",
            "--map-id-base=1070",
            "--output-dir",
            "<dir>",
            "--name",
            "chunk",
            "--elevation-range=-1.5,20",
            "--terrain-base=-62",
        ])
    );
    assert_eq!(
        arguments(chunk_arguments(&Vec::new(), "a", "b", i32::MIN, &None, None)),
        strings(&[
            "--bbox=a",
            "--reference-bbox=b",
            "--map-id-base=-2147483648",
            "--output-dir",
            "<dir>",
            "--name",
            "chunk",
        ])
    );
}

#[test]
fn a_chunks_area_reads_back_from_the_command_line() {
    let bbox = LLBBox::new(f(54.627053), f(9.927928), f(54.634902), f(9.937563)).unwrap();
    let (t, _) = CoordTransformer::llbbox_to_xzbbox(&bbox, f(1.0), (f(872.7), f(620.2))).unwrap();
    let plans = plan_chunks(620, 872, 1, 0);
    assert_eq!(plans.len(), 4);
    for plan in &plans {
        let e = bbox_of_chunk(&t, plan);
        let text = bbox_arg(&EdgeTexts {
            min_lat: format!("{}", n(e.min_lat)),
            min_lng: format!("{}", n(e.min_lng)),
            max_lat: format!("{}", n(e.max_lat)),
            max_lng: format!("{}", n(e.max_lng)),
        });
        let back = LLBBox::from_str(&text).unwrap();
        assert_eq!(back.min().lat().to_bits(), e.min_lat.to_bits());
        assert_eq!(back.min().lng().to_bits(), e.min_lng.to_bits());
        assert_eq!(back.max().lat().to_bits(), e.max_lat.to_bits());
        assert_eq!(back.max().lng().to_bits(), e.max_lng.to_bits());
        let (_, part) = CoordTransformer::llbbox_to_xzbbox_with_reference(
            &bbox,
            &back,
            f(1.0),
            (f(872.7), f(620.2)),
        )
        .unwrap();
        assert_eq!((part.min_x(), part.min_z()), (plan.block_x.0, plan.block_z.0));
    }
}

#[test]
fn areas_of_planned_chunks_are_boxes_within_the_whole() {
    let bbox = LLBBox::new(f(54.62), f(9.92), f(54.63), f(9.93)).unwrap();
    for (z, x, margin) in [(1024.3, 512.9, 1), (1024.3, 512.9, 3), (1025.1, 513.0, 0)] {
        let (t, whole) =
            CoordTransformer::llbbox_to_xzbbox(&bbox, f(1.0), (f(z), f(x))).unwrap();
        let plans = plan_chunks(whole.max_x(), whole.max_z(), 1, margin);
        assert_eq!(plans.len(), 6);
        for plan in &plans {
            let e = bbox_of_chunk(&t, plan);
            assert!(LLBBox::new(e.min_lat, e.min_lng, e.max_lat, e.max_lng).is_ok());
            assert!(n(e.min_lat) >= 54.62 && n(e.min_lng) >= 9.92);
            assert!(n(e.max_lat) <= 54.63 + 1e-12 && n(e.max_lng) <= 9.93 + 1e-12);
        }
        // The last chunk ends where the whole does.
        let last = bbox_of_chunk(&t, &plans[5]);
        assert_eq!(n(last.min_lat), 54.62);
        assert!((n(last.max_lng) - 9.93).abs() < 1e-12);
    }
}

#[test]
fn a_report_is_read() {
    let report = "hello\r\nARNIS_ELEVATION_RANGE  -3.5\t120.25 m\nARNIS_TERRAIN_BASE  -12 \r\n";
    let m = parse_report(report).unwrap();
    assert_eq!((n(m.lo), n(m.hi), m.base), (-3.5, 120.25, -12));
    // The first line counts, and the last need not end.
    let m = parse_report(
        "ARNIS_TERRAIN_BASE 5\nARNIS_TERRAIN_BASE 6\nARNIS_ELEVATION_RANGE 1 2",
    )
    .unwrap();
    assert_eq!((n(m.lo), n(m.hi), m.base), (1.0, 2.0, 5));
}

#[test]
fn each_fault_of_a_report_is_named() {
    assert!(matches!(parse_report(""), Err(ProbeError::NoRange)));
    assert!(matches!(
        parse_report("xARNIS_ELEVATION_RANGE 1 2\n"),
        Err(ProbeError::NoRange)
    ));
    match parse_report("ARNIS_ELEVATION_RANGE 1 x\n") {
        Err(ProbeError::BadRange(line)) => assert_eq!(line, vec!['1', ' ', 'x']),
        other => panic!("{other:?}"),
    }
    assert!(matches!(
        parse_report("ARNIS_ELEVATION_RANGE 1\n"),
        Err(ProbeError::BadRange(_))
    ));
    assert!(matches!(
        parse_report("ARNIS_ELEVATION_RANGE 1 2\n"),
        Err(ProbeError::NoBase)
    ));
    assert!(matches!(
        parse_report("ARNIS_ELEVATION_RANGE 1 2\nARNIS_TERRAIN_BASE 1.0\n"),
        Err(ProbeError::NoBase)
    ));
}

#[test]
fn measurements_join_to_the_widest_range_and_the_highest_base() {
    let a = Measurement { lo: f(3.0), hi: f(5.0), base: -60 };
    let b = Measurement { lo: f(f64::NAN), hi: f(9.0), base: -70 };
    let m = Measurement::none().join(a).join(b);
    assert_eq!((n(m.lo), n(m.hi), m.base), (3.0, 9.0, -60));
    let none = Measurement::none();
    assert_eq!(
        (n(none.lo), n(none.hi), none.base),
        (f64::INFINITY, f64::NEG_INFINITY, i32::MIN)
    );
}

#[test]
fn a_run_measures_then_generates_every_chunk_in_order() {
    let plans = plan_chunks(1023, 100, 1, 0);
    assert_eq!(plans.len(), 2);
    let mut driver = Driver::start(plans.clone(), 100, None, Some(-60), true);
    let heights = [(10.0, 20.0, -55), (5.0, 15.0, -70)];
    for (i, (lo, hi, base)) in heights.iter().enumerate() {
        match driver.action() {
            Action::Measure(plan) => assert_eq!(plan, plans[i]),
            other => panic!("{other:?}"),
        }
        driver = driver.measured(Measurement { lo: f(*lo), hi: f(*hi), base: *base });
    }
    let mut expected_id = 100;
    for expected in &plans {
        match driver.action() {
            Action::Generate { plan, map_id_base, elevation_range, terrain_base } => {
                assert_eq!(plan, *expected);
                assert_eq!(map_id_base, expected_id);
                let (lo, hi) = elevation_range.unwrap();
                assert_eq!((n(lo), n(hi)), (5.0, 20.0));
                // The given base stands, whatever was measured.
                assert_eq!(terrain_base, Some(-60));
            }
            other => panic!("{other:?}"),
        }
        expected_id += 7;
        driver = driver.generated(expected_id);
    }
    assert!(matches!(driver.action(), Action::Finish));
}

#[test]
fn nothing_is_measured_where_it_is_not_needed() {
    let plans = plan_chunks(100, 100, 1, 0);
    let flat = Driver::start(plans.clone(), 1, None, None, false);
    match flat.action() {
        Action::Generate { elevation_range, terrain_base, .. } => {
            assert!(elevation_range.is_none() && terrain_base.is_none())
        }
        other => panic!("{other:?}"),
    }
    let given = Driver::start(plans, 1, Some((f(1.0), f(2.0))), Some(3), true);
    assert!(matches!(given.action(), Action::Generate { .. }));
    let nothing = Driver::start(Vec::new(), 1, None, None, true);
    assert!(matches!(nothing.action(), Action::Finish));
}

#[test]
fn the_first_chunk_loses_what_it_does_not_own_and_later_ones_give_what_they_own() {
    let plans = plan_chunks(1023, 100, 1, 1);
    let files = strings(&["r.0.0.mca", "r.1.0.mca", "", "notes.txt", "r.0.1.mca"]);
    match region_work(&plans[0], &files) {
        RegionWork::Remove(places) => assert_eq!(places, vec![1, 2, 3, 4]),
        other => panic!("{other:?}"),
    }
    match region_work(&plans[1], &files) {
        RegionWork::Copy(places) => assert_eq!(places, vec![1]),
        other => panic!("{other:?}"),
    }
}

#[test]
fn maps_are_numbered_on() {
    let files = strings(&["map_3.dat", "idcounts.dat", "map_10.dat", "map_9.dat", ""]);
    assert_eq!(maps_to_copy(&files, 9), vec![2, 3]);
    assert_eq!(maps_to_copy(&files, 11), Vec::<usize>::new());
    assert_eq!(next_free_map_id(&files, 5), 11);
    assert_eq!(next_free_map_id(&files, 50), 50);
    assert_eq!(next_free_map_id(&Vec::new(), 50), 50);
    assert!(!holds_largest_id(&files));
    assert!(holds_largest_id(&strings(&["x", "map_2147483647.dat"])));
}

fn options() -> Options {
    let bbox = LLBBox::new(f(0.0), f(0.0), f(1.0), f(1.0)).unwrap();
    Options {
        bbox: Some(bbox),
        bedrock: false,
        luanti: false,
        rotation: f(-0.0),
        reference_bbox: None,
        spawn_lat: None,
        spawn_lng: None,
        saves_json: false,
        has_output_dir: true,
        chunk_regions: Some(0),
        chunk_margin_regions: 2,
        name: None,
    }
}

fn refusal(change: impl Fn(&mut Options)) -> Refusal {
    let mut o = options();
    change(&mut o);
    match o.check() {
        Ok(_) => panic!("accepted"),
        Err(e) => e,
    }
}

#[test]
fn good_options_are_accepted() {
    let request = options().check().unwrap();
    assert_eq!(request.chunk_regions, 1);
    assert_eq!(request.margin_regions, 2);
    assert_eq!(request.name, "Arnis World");
    let mut o = options();
    o.chunk_regions = None;
    o.name = Some("Mine".to_string());
    let request = o.check().unwrap();
    assert_eq!((request.chunk_regions, request.name.as_str()), (1, "Mine"));
}

#[test]
fn each_refusal_of_options_is_named() {
    let bbox = options().bbox;
    assert_eq!(refusal(|o| o.bbox = None), Refusal::NoBbox);
    assert_eq!(refusal(|o| o.bedrock = true), Refusal::NotJava);
    assert_eq!(refusal(|o| o.luanti = true), Refusal::NotJava);
    assert_eq!(refusal(|o| o.rotation = f(15.0)), Refusal::Rotation);
    assert_eq!(refusal(|o| o.rotation = f(f64::NAN)), Refusal::Rotation);
    assert_eq!(refusal(|o| o.reference_bbox = bbox), Refusal::ReferenceBbox);
    assert_eq!(refusal(|o| o.spawn_lat = Some(f(1.0))), Refusal::Spawn);
    assert_eq!(refusal(|o| o.spawn_lng = Some(f(1.0))), Refusal::Spawn);
    assert_eq!(refusal(|o| o.saves_json = true), Refusal::SaveJson);
    assert_eq!(refusal(|o| o.has_output_dir = false), Refusal::NoOutputDir);
    // The first thing that is wrong is the one that is told.
    let both = refusal(|o| {
        o.has_output_dir = false;
        o.luanti = true;
    });
    assert_eq!(both, Refusal::NotJava);
    assert_eq!(both.message(), "--chunk-regions only supports Java worlds.");
    assert_eq!(Refusal::NoOutputDir.message(), "--chunk-regions needs --output-dir.");
}

#[test]
fn names_of_files_read_back() {
    for (x, z) in [(0, 0), (-7, 12), (i32::MIN, i32::MAX)] {
        assert_eq!(parse_region_name(&format!("r.{x}.{z}.mca")), Some((x, z)));
        assert_eq!(parse_map_id(&format!("map_{x}.dat")), Some(x));
    }
}

#[test]
fn every_region_file_is_kept_of_one_chunk() {
    let plans = plan_chunks(4 * 512, 2 * 512 + 1, 2, 1);
    for rx in 0..5 {
        for rz in 0..3 {
            let file = strings(&[&format!("r.{rx}.{rz}.mca")]);
            let mut keepers = 0;
            for plan in &plans {
                keepers += match region_work(plan, &file) {
                    RegionWork::Remove(places) => 1 - places.len(),
                    RegionWork::Copy(places) => places.len(),
                };
            }
            assert_eq!(keepers, 1);
        }
    }
}

#[test]
fn maps_of_later_chunks_never_collide() {
    let mut world = strings(&["map_0.dat", "map_5.dat", "raids.dat"]);
    let base = next_free_map_id(&world, 3);
    assert_eq!(base, 6);
    let chunk = strings(&["map_0.dat", "map_5.dat", "map_6.dat", "map_8.dat"]);
    for i in maps_to_copy(&chunk, base) {
        assert!(!world.contains(&chunk[i]));
        world.push(chunk[i].clone());
    }
    assert_eq!(next_free_map_id(&world, base), 9);
}
