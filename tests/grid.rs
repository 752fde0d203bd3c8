use synclinal::geo::{Frame, Point};
use synclinal::grid::{compute_grid, grid_config, point_to_cell, segment_cell_ids, BBox, GridConfig};
use synclinal::matching::SegmentCoverage;
use synclinal::network::Segment;

fn pt(lat: i64, lon: i64) -> Point {
    Point { lat, lon }
}

// One coordinate unit is 0.1 m both ways; the box is 100 m square.
fn config() -> GridConfig {
    let frame = Frame { lat_scale: 100_000, lon_scale: 100_000 };
    let bbox = BBox { south: 0, west: 0, north: 1000, east: 1000 };
    grid_config(&bbox, &frame, 30_000_000).unwrap()
}

fn cov(matched: usize, samples: usize, length_um: u128) -> SegmentCoverage {
    SegmentCoverage { matched, samples, length_um }
}

#[test]
fn grid_covers_the_box() {
    let g = config();
    assert_eq!(g.cols, 4);
    assert_eq!(g.rows, 4);
}

#[test]
fn points_map_to_row_major_cells() {
    let g = config();
    assert_eq!(point_to_cell(&g, &pt(0, 0)), Some(0));
    assert_eq!(point_to_cell(&g, &pt(50, 350)), Some(1));
    assert_eq!(point_to_cell(&g, &pt(350, 50)), Some(4));
    assert_eq!(point_to_cell(&g, &pt(1000, 1000)), Some(15));
    assert_eq!(point_to_cell(&g, &pt(1001, 0)), None);
    assert_eq!(point_to_cell(&g, &pt(0, -1)), None);
}

#[test]
fn exact_edge_beyond_last_column_is_dropped() {
    let frame = Frame { lat_scale: 100_000, lon_scale: 100_000 };
    let bbox = BBox { south: 0, west: 0, north: 900, east: 900 };
    let g = grid_config(&bbox, &frame, 30_000_000).unwrap();
    assert_eq!(g.cols, 3);
    assert_eq!(point_to_cell(&g, &pt(0, 900)), None);
    assert_eq!(point_to_cell(&g, &pt(0, 899)), Some(2));
}

#[test]
fn segment_cells_are_sorted_and_distinct() {
    let g = config();
    let geom = vec![pt(50, 900), pt(50, 0)];
    assert_eq!(segment_cell_ids(&g, &geom), vec![0, 1, 2, 3]);
}

#[test]
fn length_is_shared_exactly() {
    let g = config();
    let segs = vec![Segment { geometry: vec![pt(50, 0), pt(50, 900)] }];
    let r = compute_grid(&g, &segs, &vec![cov(0, 6, 10)]);
    assert_eq!(r.segment_cells[0], vec![0, 1, 2, 3]);
    let shares: Vec<u128> = (0..4).map(|c| r.cells[c].trail_um).collect();
    assert_eq!(shares, vec![3, 3, 2, 2]);
    assert_eq!(shares.iter().sum::<u128>(), 10);
    assert!(r.cells[0..4].iter().all(|c| c.has_trail && !c.visited && c.covered_um == 0));
    assert!(r.cells[4..].iter().all(|c| !c.has_trail && c.trail_um == 0 && c.segment_ids.is_empty()));
}

#[test]
fn covered_segment_marks_cells_visited() {
    let g = config();
    let segs = vec![
        Segment { geometry: vec![pt(50, 0), pt(50, 500)] },
        Segment { geometry: vec![pt(50, 100), pt(400, 100)] },
    ];
    let r = compute_grid(&g, &segs, &vec![cov(1, 2, 90), cov(0, 2, 40)]);
    assert_eq!(r.segment_cells[0], vec![0, 1]);
    assert_eq!(r.segment_cells[1], vec![0, 4]);
    assert_eq!(r.cells[0].segment_ids, vec![0, 1]);
    assert_eq!(r.cells[0].trail_um, 45 + 20);
    assert_eq!(r.cells[0].covered_um, 45);
    assert!(r.cells[0].visited);
    assert!(r.cells[1].visited);
    assert!(!r.cells[4].visited);
    assert_eq!(r.cells[4].trail_um, 20);
    assert_eq!(r.cells[4].covered_um, 0);
    assert_eq!((r.cells[5].id, r.cells[5].row, r.cells[5].col), (5, 1, 1));
}

#[test]
fn segment_outside_the_box_touches_nothing() {
    let g = config();
    let segs = vec![Segment { geometry: vec![pt(2000, 0), pt(2100, 500)] }];
    let r = compute_grid(&g, &segs, &vec![cov(2, 2, 1_000)]);
    assert!(r.segment_cells[0].is_empty());
    assert!(r.cells.iter().all(|c| !c.has_trail && c.trail_um == 0 && c.covered_um == 0));
}

#[test]
fn aggregation_is_repeatable() {
    let g = config();
    let segs = vec![
        Segment { geometry: vec![pt(50, 0), pt(50, 900)] },
        Segment { geometry: vec![pt(0, 0), pt(990, 990)] },
    ];
    let c = vec![cov(3, 4, 123), cov(0, 4, 77)];
    let a = compute_grid(&g, &segs, &c);
    let b = compute_grid(&g, &segs, &c);
    assert_eq!(a.segment_cells, b.segment_cells);
    for (x, y) in a.cells.iter().zip(b.cells.iter()) {
        assert_eq!((x.has_trail, x.visited, x.trail_um, x.covered_um), (y.has_trail, y.visited, y.trail_um, y.covered_um));
        assert_eq!(x.segment_ids, y.segment_ids);
    }
}

#[test]
fn tracks_are_kept_when_a_point_lies_in_the_box() {
    let b = BBox { south: 0, west: 0, north: 1000, east: 1000 };
    assert!(synclinal::grid::track_in_bbox(&b, &vec![pt(2000, 0), pt(1000, 1000)]));
    assert!(!synclinal::grid::track_in_bbox(&b, &vec![pt(2000, 0), pt(1001, 500)]));
    assert!(!synclinal::grid::track_in_bbox(&b, &vec![pt(5, 5)]));
}

#[test]
fn grid_too_large_for_memory_is_refused() {
    let frame = Frame { lat_scale: 100_000, lon_scale: 100_000 };
    let world = BBox { south: -900_000_000, west: -1_800_000_000, north: 900_000_000, east: 1_800_000_000 };
    assert!(grid_config(&world, &frame, 1).is_none());
}
