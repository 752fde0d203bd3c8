use synclinal::geo::{discretize, distance, distance_sq, isqrt, polyline_length, Frame, Point};

fn pt(lat: i64, lon: i64) -> Point {
    Point { lat, lon }
}

#[test]
fn isqrt_rounds_down() {
    assert_eq!(isqrt(0), 0);
    assert_eq!(isqrt(1), 1);
    assert_eq!(isqrt(15), 3);
    assert_eq!(isqrt(16), 4);
    assert_eq!(isqrt(17), 4);
    assert_eq!(isqrt(u128::MAX), u64::MAX);
}

#[test]
fn distance_of_a_right_triangle() {
    let f = Frame { lat_scale: 10, lon_scale: 10 };
    assert_eq!(distance_sq(&f, &pt(0, 0), &pt(3, 4)), 2500);
    assert_eq!(distance(&f, &pt(0, 0), &pt(3, 4)), 50);
    assert_eq!(distance(&f, &pt(3, 4), &pt(0, 0)), 50);
}

#[test]
fn distance_uses_both_scales() {
    let f = Frame { lat_scale: 3, lon_scale: 4 };
    // 1 unit of latitude is 3 um, 1 unit of longitude is 4 um.
    assert_eq!(distance(&f, &pt(0, 0), &pt(1, 1)), 5);
}

#[test]
fn length_sums_the_edges() {
    let f = Frame { lat_scale: 10, lon_scale: 10 };
    let line = vec![pt(0, 0), pt(3, 4), pt(3, 10)];
    assert_eq!(polyline_length(&f, &line), 50 + 60);
    assert_eq!(polyline_length(&f, &vec![pt(0, 0)]), 0);
    assert_eq!(polyline_length(&f, &vec![]), 0);
}

#[test]
fn discretize_emits_every_step_and_both_ends() {
    let f = Frame { lat_scale: 1000, lon_scale: 1000 };
    let line = vec![pt(0, 0), pt(0, 10)];
    let got = discretize(&f, &line, 3000);
    assert_eq!(got, vec![pt(0, 0), pt(0, 3), pt(0, 6), pt(0, 9), pt(0, 10)]);
}

#[test]
fn discretize_carries_the_remainder_across_vertices() {
    let f = Frame { lat_scale: 1000, lon_scale: 1000 };
    let line = vec![pt(0, 0), pt(0, 4), pt(0, 8)];
    let got = discretize(&f, &line, 3000);
    assert_eq!(got, vec![pt(0, 0), pt(0, 3), pt(0, 6), pt(0, 8)]);
}

#[test]
fn discretize_skips_zero_length_edges() {
    let f = Frame { lat_scale: 1000, lon_scale: 1000 };
    let line = vec![pt(0, 0), pt(0, 0), pt(0, 5)];
    let got = discretize(&f, &line, 2000);
    assert_eq!(got, vec![pt(0, 0), pt(0, 2), pt(0, 4), pt(0, 5)]);
}

#[test]
fn discretize_of_a_short_polyline_is_empty() {
    let f = Frame { lat_scale: 1000, lon_scale: 1000 };
    assert!(discretize(&f, &vec![pt(1, 1)], 1000).is_empty());
    assert!(discretize(&f, &vec![], 1000).is_empty());
}

#[test]
fn discretize_rounds_toward_the_start() {
    let f = Frame { lat_scale: 1000, lon_scale: 1000 };
    // A south-west edge: coordinates decrease, so interpolation rounds up.
    let line = vec![pt(0, 0), pt(-3, -4)];
    let got = discretize(&f, &line, 2000);
    assert_eq!(got, vec![pt(0, 0), pt(-1, -1), pt(-2, -3), pt(-3, -4)]);
}

#[test]
fn discretize_keeps_the_end_point_when_a_step_lands_on_it() {
    let f = Frame { lat_scale: 1000, lon_scale: 1000 };
    let got = discretize(&f, &vec![pt(0, 0), pt(0, 9)], 3000);
    assert_eq!(got, vec![pt(0, 0), pt(0, 3), pt(0, 6), pt(0, 9), pt(0, 9)]);
}
