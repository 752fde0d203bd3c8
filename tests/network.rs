use synclinal::geo::Point;
use synclinal::network::{segment_trails, Trail};

fn pt(lat: i64, lon: i64) -> Point {
    Point { lat, lon }
}

fn trail(id: i64, nodes: Vec<i64>, geometry: Vec<Point>) -> Trail {
    Trail { id, name: None, nodes, geometry }
}

fn line(n: usize, lat0: i64) -> Vec<Point> {
    (0..n).map(|i| pt(lat0, 1000 * i as i64)).collect()
}

#[test]
fn shared_middle_node_splits_a_trail_in_two() {
    let a = line(5, 0);
    let b = vec![a[2], pt(500, 2000)];
    let ways = vec![trail(1, vec![1, 2, 3, 4, 5], a.clone()), trail(2, vec![3, 6], b.clone())];
    let segs = segment_trails(&ways);
    assert_eq!(segs.len(), 3);
    assert_eq!(segs[0].geometry, vec![a[0], a[1], a[2]]);
    assert_eq!(segs[1].geometry, vec![a[2], a[3], a[4]]);
    assert_eq!(segs[2].geometry, b);
}

#[test]
fn trail_without_junctions_is_one_segment() {
    let a = line(6, 0);
    let ways = vec![trail(1, vec![10, 11, 12, 13, 14, 15], a.clone()), trail(2, vec![20, 21], line(2, 9))];
    let segs = segment_trails(&ways);
    assert_eq!(segs.len(), 2);
    assert_eq!(segs[0].geometry, a);
}

#[test]
fn shared_end_points_do_not_cut() {
    let a = line(3, 0);
    let b = vec![a[2], pt(800, 0)];
    let ways = vec![trail(1, vec![1, 2, 3], a.clone()), trail(2, vec![3, 4], b)];
    let segs = segment_trails(&ways);
    assert_eq!(segs.len(), 2);
    assert_eq!(segs[0].geometry, a);
}

#[test]
fn segments_rejoin_into_the_trail() {
    let a = line(7, 0);
    let ways = vec![
        trail(1, vec![1, 2, 3, 4, 5, 6, 7], a.clone()),
        trail(2, vec![2, 90], line(2, 50)),
        trail(3, vec![5, 91], line(2, 60)),
        trail(4, vec![6, 92], line(2, 70)),
    ];
    let segs = segment_trails(&ways);
    let own: Vec<&Vec<Point>> = segs.iter().take(4).map(|s| &s.geometry).collect();
    assert_eq!(own.len(), 4);
    let mut joined = own[0].clone();
    for s in &own[1..] {
        assert_eq!(joined.last(), s.first());
        joined.extend_from_slice(&s[1..]);
    }
    assert_eq!(joined, a);
    assert!(own.iter().all(|s| s.len() >= 2));
}

#[test]
fn consecutive_junctions_give_single_edge_segments() {
    let a = line(4, 0);
    let ways = vec![trail(1, vec![1, 2, 3, 4], a.clone()), trail(2, vec![2, 3], line(2, 40))];
    let segs = segment_trails(&ways);
    assert_eq!(segs[0].geometry, vec![a[0], a[1]]);
    assert_eq!(segs[1].geometry, vec![a[1], a[2]]);
    assert_eq!(segs[2].geometry, vec![a[2], a[3]]);
}

#[test]
fn node_visited_twice_by_one_trail_is_a_junction() {
    let a = vec![pt(0, 0), pt(0, 1000), pt(1000, 1000), pt(0, 1000), pt(0, 2000)];
    let ways = vec![trail(1, vec![1, 2, 3, 2, 4], a.clone())];
    let segs = segment_trails(&ways);
    assert_eq!(segs.len(), 3);
    assert_eq!(segs[0].geometry, vec![a[0], a[1]]);
    assert_eq!(segs[1].geometry, vec![a[1], a[2], a[3]]);
    assert_eq!(segs[2].geometry, vec![a[3], a[4]]);
}

#[test]
fn malformed_and_short_trails_are_dropped() {
    let ways = vec![
        trail(1, vec![1, 2, 3], line(2, 0)),
        trail(2, vec![4], line(1, 0)),
        trail(3, vec![], vec![]),
        trail(4, vec![5, 6], line(2, 10)),
    ];
    let segs = segment_trails(&ways);
    assert_eq!(segs.len(), 1);
    assert_eq!(segs[0].geometry, line(2, 10));
}

#[test]
fn nodes_of_dropped_trails_still_count() {
    // The malformed trail still shares node 2, which makes it a junction.
    let a = line(3, 0);
    let ways = vec![trail(1, vec![1, 2, 3], a.clone()), trail(2, vec![2, 7, 8], line(2, 20))];
    let segs = segment_trails(&ways);
    assert_eq!(segs.len(), 2);
    assert_eq!(segs[0].geometry, vec![a[0], a[1]]);
    assert_eq!(segs[1].geometry, vec![a[1], a[2]]);
}

#[test]
fn segmentation_is_repeatable() {
    let a = line(5, 0);
    let ways = vec![trail(1, vec![1, 2, 3, 4, 5], a), trail(2, vec![3, 6], line(2, 7))];
    let first: Vec<Vec<Point>> = segment_trails(&ways).into_iter().map(|s| s.geometry).collect();
    let second: Vec<Vec<Point>> = segment_trails(&ways).into_iter().map(|s| s.geometry).collect();
    assert_eq!(first, second);
}
