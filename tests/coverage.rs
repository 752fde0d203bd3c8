use synclinal::geo::{Frame, Point};
use synclinal::matching::{
    build_gps_index, compute_coverage, segment_coverage, Activity, GpsIndex, SegmentCoverage, MATCH_RADIUS_UM,
};
use synclinal::network::{segment_trails, Trail};

fn pt(lat: i64, lon: i64) -> Point {
    Point { lat, lon }
}

const LAT: i64 = 446_500_000;
const LON: i64 = 51_000_000;

fn area() -> Frame {
    Frame { lat_scale: 11_119, lon_scale: 7_911 }
}

fn scenario_ways() -> Vec<Trail> {
    let a = vec![
        pt(LAT, LON),
        pt(LAT, LON + 5_000),
        pt(LAT, LON + 10_000),
        pt(LAT - 5_000, LON + 10_000),
        pt(LAT - 10_000, LON + 10_000),
    ];
    let b = vec![a[2], pt(LAT, LON + 15_000)];
    vec![
        Trail { id: 1, name: Some("ridge".to_string()), nodes: vec![1, 2, 3, 4, 5], geometry: a },
        Trail { id: 2, name: None, nodes: vec![3, 6], geometry: b },
    ]
}

fn scenario_activity() -> Activity {
    // About 4.4 m north of the first segment, along its whole length.
    Activity { name: "run".to_string(), tracks: vec![vec![pt(LAT + 400, LON), pt(LAT + 400, LON + 10_000)]] }
}

#[test]
fn scenario_two_segments_one_covered() {
    let ways = scenario_ways();
    let segs = segment_trails(&ways);
    assert_eq!(segs[0].geometry, vec![ways[0].geometry[0], ways[0].geometry[1], ways[0].geometry[2]]);
    assert_eq!(segs[1].geometry, vec![ways[0].geometry[2], ways[0].geometry[3], ways[0].geometry[4]]);
    let cov = compute_coverage(&area(), &segs, &vec![scenario_activity()]);
    assert_eq!(cov.len(), segs.len());
    assert_eq!(cov[0].samples, 17);
    assert_eq!(cov[0].matched, 17);
    assert!(cov[0].is_covered());
    // Only the shared junction and the sample next to it lie near the track.
    assert_eq!(cov[1].samples, 24);
    assert_eq!(cov[1].matched, 2);
    assert!(!cov[1].is_covered());
    assert_eq!(cov[0].length_um, 10_000 * 7_911);
    assert_eq!(cov[1].length_um, 2 * 5_000 * 11_119);
}

#[test]
fn match_at_exactly_the_radius_counts() {
    let f = Frame { lat_scale: 1000, lon_scale: 1000 };
    let mut idx = GpsIndex::new(&f);
    idx.insert(pt(0, 0));
    let q = pt(6, 8);
    assert!(idx.has_point_within(&q, 10_000));
    assert!(!idx.has_point_within(&q, 9_999));
}

#[test]
fn empty_index_never_matches() {
    let f = Frame { lat_scale: 1000, lon_scale: 1000 };
    let idx = build_gps_index(&f, &vec![]);
    assert!(!idx.has_point_within(&pt(0, 0), 1_000_000));
}

#[test]
fn query_sees_neighbouring_cells_only() {
    let f = Frame { lat_scale: 1000, lon_scale: 1000 };
    let mut idx = GpsIndex::new(&f);
    // 25 m north: in the next cell row.
    idx.insert(pt(25_000, 0));
    assert!(idx.has_point_within(&pt(15_000, 0), 10_000_000));
    assert!(!idx.has_point_within(&pt(15_000, 0), 9_999_999));
    // 45 m north of the origin lies two cell rows away from it.
    let mut far = GpsIndex::new(&f);
    far.insert(pt(45_000, 0));
    assert!(!far.has_point_within(&pt(0, 0), 100_000_000));
}

#[test]
fn negative_coordinates_are_indexed() {
    let f = Frame { lat_scale: 11_119, lon_scale: 7_911 };
    let mut idx = GpsIndex::new(&f);
    idx.insert(pt(-10, -10));
    assert!(idx.has_point_within(&pt(10, 10), 1_000_000));
    assert!(!idx.has_point_within(&pt(10, 10), 100_000));
}

#[test]
fn coverage_never_drops_as_the_radius_grows() {
    let ways = scenario_ways();
    let segs = segment_trails(&ways);
    let idx = build_gps_index(&area(), &vec![scenario_activity()]);
    for seg in &segs {
        let mut last = 0;
        for r in [0u64, 1_000_000, 5_000_000, 10_000_000, 15_000_000, 20_000_000] {
            let (matched, samples) = segment_coverage(&idx, &seg.geometry, r);
            assert!(matched >= last);
            assert!(matched <= samples);
            last = matched;
        }
    }
    let (m5, _) = segment_coverage(&idx, &segs[1].geometry, 5_000_000);
    let (m10, _) = segment_coverage(&idx, &segs[1].geometry, MATCH_RADIUS_UM);
    assert_eq!(m5, 1);
    assert_eq!(m10, 2);
}

#[test]
fn segment_with_no_samples_is_uncovered() {
    let c = SegmentCoverage { matched: 0, samples: 0, length_um: 0 };
    assert!(!c.is_covered());
}

#[test]
fn half_matched_is_covered() {
    assert!(SegmentCoverage { matched: 1, samples: 2, length_um: 5 }.is_covered());
    assert!(!SegmentCoverage { matched: 1, samples: 3, length_um: 5 }.is_covered());
    assert!(SegmentCoverage { matched: 2, samples: 3, length_um: 5 }.is_covered());
}

#[test]
fn coverage_is_repeatable() {
    let ways = scenario_ways();
    let segs = segment_trails(&ways);
    let acts = vec![scenario_activity()];
    let a = compute_coverage(&area(), &segs, &acts);
    let b = compute_coverage(&area(), &segs, &acts);
    assert_eq!(a, b);
}
