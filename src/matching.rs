//! A spatial index of recorded GPS traces, and the coverage of trail
//! segments by those traces.
use vstd::prelude::*;
use std::collections::HashMap;
use crate::geo::{Frame, Point, all_wf, within, discretized, discretize, distance_sq, path_length, polyline_length};
use crate::network::{Segment, segments_wf};

verus! {

broadcast use vstd::std_specs::hash::group_hash_axioms;

/// Side of a trace index cell, in micrometres (20 m).
pub const INDEX_CELL_UM: u64 = 20_000_000;

/// Spacing of the points interpolated along a GPS track, in micrometres (2 m).
pub const TRACK_STEP_UM: u64 = 2_000_000;

/// Spacing of the sample points taken along a segment, in micrometres (5 m).
pub const SAMPLE_STEP_UM: u64 = 5_000_000;

/// Largest distance, in micrometres, between a sample point and a trace
/// point that still counts as a match (10 m).
pub const MATCH_RADIUS_UM: u64 = 10_000_000;

/// A recorded activity: a name and one or more GPS tracks.
#[derive(Debug, Clone)]
pub struct Activity {
    pub name: String,
    pub tracks: Vec<Vec<Point>>,
}

/// Row of the index cell that holds `p`.
pub open spec fn cell_x(f: Frame, p: Point) -> int {
    (p.lat * f.lat_scale) / (INDEX_CELL_UM as int)
}

/// Column of the index cell that holds `p`.
pub open spec fn cell_y(f: Frame, p: Point) -> int {
    (p.lon * f.lon_scale) / (INDEX_CELL_UM as int)
}

/// The key under which the index files the cell (`x`, `y`).
pub open spec fn cell_key(x: int, y: int) -> int {
    x * 0x1_0000_0000 + y
}

/// `p` lies in the 3 x 3 block of index cells centred on the cell of `q`.
pub open spec fn neighbours(f: Frame, q: Point, p: Point) -> bool {
    -1 <= cell_x(f, p) - cell_x(f, q) <= 1 && -1 <= cell_y(f, p) - cell_y(f, q) <= 1
}

/// Some point of `pts` in the 3 x 3 block of cells around `q` lies within
/// `radius` micrometres of `q`.
pub open spec fn has_match(f: Frame, pts: Seq<Point>, q: Point, radius: nat) -> bool {
    exists|i: int| 0 <= i < pts.len() && neighbours(f, q, #[trigger] pts[i]) && within(f, q, pts[i], radius)
}

/// The points of the first `k` of `tracks`, each discretised at the track step.
pub open spec fn track_points(f: Frame, tracks: Seq<Vec<Point>>, k: int) -> Seq<Point>
    decreases k,
{
    if k <= 0 {
        seq![]
    } else {
        track_points(f, tracks, k - 1) + discretized(f, tracks[k - 1]@, TRACK_STEP_UM as nat)
    }
}

/// The points of all tracks of the first `k` of `acts`.
pub open spec fn trace_points(f: Frame, acts: Seq<Activity>, k: int) -> Seq<Point>
    decreases k,
{
    if k <= 0 {
        seq![]
    } else {
        trace_points(f, acts, k - 1) + track_points(f, acts[k - 1].tracks@, acts[k - 1].tracks@.len() as int)
    }
}

/// Every track of every activity holds valid positions only.
pub open spec fn activities_wf(acts: Seq<Activity>) -> bool {
    forall|a: int, t: int|
        0 <= a < acts.len() && 0 <= t < acts[a].tracks@.len() ==> all_wf(#[trigger] acts[a].tracks@[t]@)
}

/// Floor of `a / b`.
fn floor_div(a: i128, b: i128) -> (r: i128)
    requires
        b > 0,
        -0x1_0000_0000_0000_0000 <= a <= 0x1_0000_0000_0000_0000,
    ensures
        r == a / b,
{
    if a >= 0 {
        ((a as u128) / (b as u128)) as i128
    } else {
        let m: u128 = (-a - 1) as u128;
        let q: u128 = m / (b as u128);
        proof {
            vstd::arithmetic::div_mod::lemma_fundamental_div_mod(m as int, b as int);
            vstd::arithmetic::div_mod::lemma_mod_pos_bound(m as int, b as int);
            let r = (m as int) % (b as int);
            assert(a == (-(q as int) - 1) * b + (b - r - 1)) by (nonlinear_arith)
                requires
                    m == b * q + r,
                    m == -a - 1,
            ;
            vstd::arithmetic::div_mod::lemma_fundamental_div_mod(a as int, b as int);
            vstd::arithmetic::div_mod::lemma_mod_bound(a as int, b as int);
            assert(a / b == -(q as int) - 1) by (nonlinear_arith)
                requires
                    a == (-(q as int) - 1) * b + (b - r - 1),
                    0 <= b - r - 1 < b,
                    a == b * (a / b) + a % b,
                    0 <= a % b < b,
            ;
        }
        -(q as i128) - 1
    }
}

proof fn lemma_cell_bounds(f: Frame, p: Point)
    requires
        f.wf(),
        p.wf(),
    ensures
        -0x1000_0000 <= cell_x(f, p) <= 0x1000_0000,
        -0x1000_0000 <= cell_y(f, p) <= 0x1000_0000,
{
    let a = p.lat * f.lat_scale;
    let b = p.lon * f.lon_scale;
    assert(-200_000_000_000_000 <= a <= 200_000_000_000_000) by (nonlinear_arith)
        requires
            a == p.lat * f.lat_scale,
            -900_000_000 <= p.lat <= 900_000_000,
            0 < f.lat_scale <= 100_000,
    ;
    assert(-200_000_000_000_000 <= b <= 200_000_000_000_000) by (nonlinear_arith)
        requires
            b == p.lon * f.lon_scale,
            -1_800_000_000 <= p.lon <= 1_800_000_000,
            0 < f.lon_scale <= 100_000,
    ;
}

proof fn lemma_cell_key_injective(x1: int, y1: int, x2: int, y2: int)
    requires
        -0x2000_0000 <= y1 <= 0x2000_0000,
        -0x2000_0000 <= y2 <= 0x2000_0000,
        cell_key(x1, y1) == cell_key(x2, y2),
    ensures
        x1 == x2,
        y1 == y2,
{
    assert(x1 == x2) by (nonlinear_arith)
        requires
            -0x2000_0000 <= y1 <= 0x2000_0000,
            -0x2000_0000 <= y2 <= 0x2000_0000,
            x1 * 0x1_0000_0000 + y1 == x2 * 0x1_0000_0000 + y2,
    ;
}

/// The index cell (row, column) that holds `p`.
fn cell_of(f: &Frame, p: &Point) -> (r: (i64, i64))
    requires
        f.wf(),
        p.wf(),
    ensures
        r.0 == cell_x(*f, *p),
        r.1 == cell_y(*f, *p),
        -0x1000_0000 <= r.0 <= 0x1000_0000,
        -0x1000_0000 <= r.1 <= 0x1000_0000,
{
    proof {
        lemma_cell_bounds(*f, *p);
    }
    let a: i128 = p.lat as i128 * f.lat_scale as i128;
    let b: i128 = p.lon as i128 * f.lon_scale as i128;
    proof {
        assert(-200_000_000_000_000 <= a <= 200_000_000_000_000) by (nonlinear_arith)
            requires
                a == p.lat * f.lat_scale,
                -900_000_000 <= p.lat <= 900_000_000,
                0 < f.lat_scale <= 100_000,
        ;
        assert(-200_000_000_000_000 <= b <= 200_000_000_000_000) by (nonlinear_arith)
            requires
                b == p.lon * f.lon_scale,
                -1_800_000_000 <= p.lon <= 1_800_000_000,
                0 < f.lon_scale <= 100_000,
        ;
    }
    let x = floor_div(a, INDEX_CELL_UM as i128);
    let y = floor_div(b, INDEX_CELL_UM as i128);
    (x as i64, y as i64)
}

/// Recorded GPS points, filed by the index cell that holds them.
pub struct GpsIndex {
    frame: Frame,
    cells: HashMap<i64, Vec<Point>>,
    points: Ghost<Seq<Point>>,
}

impl View for GpsIndex {
    type V = Seq<Point>;

    /// The indexed points, in the order they were added.
    closed spec fn view(&self) -> Seq<Point> {
        self.points@
    }
}

impl GpsIndex {
    /// The frame in which the index measures distances.
    pub closed spec fn frame_spec(self) -> Frame {
        self.frame
    }

    /// The frame in which the index measures distances.
    pub fn frame(&self) -> (r: Frame)
        ensures
            r == self.frame_spec(),
    {
        self.frame
    }

    /// Each indexed point is filed under its own cell, and each bucket holds
    /// indexed points of its own cell only.
    pub closed spec fn wf(self) -> bool {
        &&& self.frame.wf()
        &&& all_wf(self.points@)
        &&& forall|i: int|
            #![trigger self.points@[i]]
            0 <= i < self.points@.len() ==> {
                let p = self.points@[i];
                let k = cell_key(cell_x(self.frame, p), cell_y(self.frame, p));
                &&& self.cells@.contains_key(k as i64)
                &&& self.cells@[k as i64]@.contains(p)
            }
        &&& forall|k: i64, j: int|
            #![trigger self.cells@[k]@[j]]
            self.cells@.contains_key(k) && 0 <= j < self.cells@[k]@.len() ==> {
                let p = self.cells@[k]@[j];
                &&& p.wf()
                &&& cell_key(cell_x(self.frame, p), cell_y(self.frame, p)) == k
                &&& self.points@.contains(p)
            }
    }

    /// An empty index measuring in `frame`.
    pub fn new(frame: &Frame) -> (r: GpsIndex)
        requires
            frame.wf(),
        ensures
            r.wf(),
            r.frame_spec() == *frame,
            r@ == Seq::<Point>::empty(),
    {
        GpsIndex { frame: *frame, cells: HashMap::new(), points: Ghost(Seq::empty()) }
    }

    /// Whether some indexed point in the 3 x 3 block of cells around `q`
    /// lies within `radius` micrometres of `q`, the radius itself included.
    pub fn has_point_within(&self, q: &Point, radius: u64) -> (r: bool)
        requires
            self.wf(),
            q.wf(),
        ensures
            r == has_match(self.frame_spec(), self@, *q, radius as nat),
            radius <= INDEX_CELL_UM ==> (r <==> exists|i: int|
                0 <= i < self@.len() && within(self.frame_spec(), *q, #[trigger] self@[i], radius as nat)),
    {
        let f = &self.frame;
        proof {
            if radius <= INDEX_CELL_UM {
                assert forall|i: int| 0 <= i < self@.len() && within(*f, *q, #[trigger] self@[i], radius as nat)
                    implies neighbours(*f, *q, self@[i]) by {
                    lemma_neighbourhood_suffices(*f, *q, self@[i], radius as nat);
                }
            }
        }
        let (cx, cy) = cell_of(f, q);
        assert(radius * radius <= u128::MAX) by (nonlinear_arith)
            requires
                radius <= u64::MAX,
        ;
        let rr: u128 = radius as u128 * radius as u128;
        let mut dx: i64 = -1;
        while dx <= 1
            invariant
                self.wf(),
                q.wf(),
                f == &self.frame,
                cx == cell_x(*f, *q),
                cy == cell_y(*f, *q),
                -0x1000_0000 <= cx <= 0x1000_0000,
                -0x1000_0000 <= cy <= 0x1000_0000,
                rr == radius * radius,
                -1 <= dx <= 2,
                forall|i: int|
                    0 <= i < self.points@.len() && neighbours(*f, *q, #[trigger] self.points@[i])
                        && cell_x(*f, self.points@[i]) - cx < dx ==> !within(*f, *q, self.points@[i], radius as nat),
            decreases 2 - dx,
        {
            let mut dy: i64 = -1;
            while dy <= 1
                invariant
                    self.wf(),
                    q.wf(),
                    f == &self.frame,
                    cx == cell_x(*f, *q),
                    cy == cell_y(*f, *q),
                    -0x1000_0000 <= cx <= 0x1000_0000,
                    -0x1000_0000 <= cy <= 0x1000_0000,
                    rr == radius * radius,
                    -1 <= dx <= 1,
                    -1 <= dy <= 2,
                    forall|i: int|
                        0 <= i < self.points@.len() && neighbours(*f, *q, #[trigger] self.points@[i])
                            && (cell_x(*f, self.points@[i]) - cx < dx
                                || (cell_x(*f, self.points@[i]) - cx == dx && cell_y(*f, self.points@[i]) - cy < dy))
                            ==> !within(*f, *q, self.points@[i], radius as nat),
                decreases 2 - dy,
            {
                let k: i64 = (cx + dx) * 0x1_0000_0000 + (cy + dy);
                match self.cells.get(&k) {
                    Some(bucket) => {
                        let mut j: usize = 0;
                        while j < bucket.len()
                            invariant
                                self.wf(),
                                q.wf(),
                                f == &self.frame,
                                self.cells@.contains_key(k),
                                *bucket == self.cells@[k],
                                cx == cell_x(*f, *q),
                                cy == cell_y(*f, *q),
                                -0x1000_0000 <= cx <= 0x1000_0000,
                                -0x1000_0000 <= cy <= 0x1000_0000,
                                -1 <= dx <= 1,
                                -1 <= dy <= 1,
                                k == (cx + dx) * 0x1_0000_0000 + (cy + dy),
                                rr == radius * radius,
                                j <= bucket@.len(),
                                forall|jj: int| 0 <= jj < j ==> !within(*f, *q, #[trigger] bucket@[jj], radius as nat),
                            decreases bucket.len() - j,
                        {
                            let p = &bucket[j];
                            assert(self.cells@[k]@[j as int] == *p);
                            if distance_sq(f, q, p) <= rr {
                                proof {
                                    let i = choose|i: int| 0 <= i < self.points@.len() && self.points@[i] == *p;
                                    assert(self.points@[i] == *p);
                                    lemma_cell_bounds(*f, *p);
                                    assert(cell_key(cell_x(*f, *p), cell_y(*f, *p)) == k);
                                    lemma_cell_key_injective(cell_x(*f, *p), cell_y(*f, *p), cx + dx, cy + dy);
                                    assert(neighbours(*f, *q, self.points@[i]));
                                }
                                return true;
                            }
                            j = j + 1;
                        }
                        proof {
                            assert forall|i: int|
                                0 <= i < self.points@.len() && neighbours(*f, *q, #[trigger] self.points@[i])
                                    && cell_x(*f, self.points@[i]) - cx == dx && cell_y(*f, self.points@[i]) - cy == dy
                                    implies !within(*f, *q, self.points@[i], radius as nat) by {
                                let p = self.points@[i];
                                assert(self.cells@[k]@.contains(p));
                                let jj = choose|jj: int| 0 <= jj < bucket@.len() && bucket@[jj] == p;
                                assert(!within(*f, *q, bucket@[jj], radius as nat));
                            }
                        }
                    },
                    None => {
                        proof {
                            assert forall|i: int|
                                0 <= i < self.points@.len() && neighbours(*f, *q, #[trigger] self.points@[i])
                                    && cell_x(*f, self.points@[i]) - cx == dx && cell_y(*f, self.points@[i]) - cy == dy
                                    implies false by {
                                let p = self.points@[i];
                                assert(self.cells@.contains_key(cell_key(cell_x(*f, p), cell_y(*f, p)) as i64));
                            }
                        }
                    },
                }
                dy = dy + 1;
            }
            dx = dx + 1;
        }
        false
    }

    /// Adds the point `p` to the index.
    pub fn insert(&mut self, p: Point)
        requires
            old(self).wf(),
            p.wf(),
        ensures
            final(self).wf(),
            final(self).frame_spec() == old(self).frame_spec(),
            final(self)@ == old(self)@.push(p),
    {
        let (x, y) = cell_of(&self.frame, &p);
        let k: i64 = x * 0x1_0000_0000 + y;
        let ghost old_cells = self.cells@;
        let ghost old_points = self.points@;
        let mut bucket = match self.cells.remove(&k) {
            Some(b) => b,
            None => Vec::new(),
        };
        let ghost old_bucket = bucket@;
        bucket.push(p);
        self.cells.insert(k, bucket);
        self.points = Ghost(self.points@.push(p));
        proof {
            let f = self.frame;
            assert(self.points@[old_points.len() as int] == p);
            assert(self.cells@[k]@[old_bucket.len() as int] == p);
            assert forall|i: int|
                #![trigger self.points@[i]]
                0 <= i < self.points@.len() implies {
                    let q = self.points@[i];
                    let kq = cell_key(cell_x(f, q), cell_y(f, q));
                    &&& self.cells@.contains_key(kq as i64)
                    &&& self.cells@[kq as i64]@.contains(q)
                } by {
                let q = self.points@[i];
                let kq = cell_key(cell_x(f, q), cell_y(f, q));
                if i < old_points.len() {
                    assert(old_points[i] == q);
                    if kq as i64 == k {
                        let j = choose|j: int| 0 <= j < old_cells[k]@.len() && old_cells[k]@[j] == q;
                        assert(self.cells@[k]@[j] == q);
                    }
                } else {
                    lemma_cell_bounds(f, q);
                }
            }
            assert forall|kk: i64, j: int|
                #![trigger self.cells@[kk]@[j]]
                self.cells@.contains_key(kk) && 0 <= j < self.cells@[kk]@.len() implies {
                    let q = self.cells@[kk]@[j];
                    &&& q.wf()
                    &&& cell_key(cell_x(f, q), cell_y(f, q)) == kk
                    &&& self.points@.contains(q)
                } by {
                let q = self.cells@[kk]@[j];
                if kk == k && j == old_bucket.len() {
                    lemma_cell_bounds(f, q);
                    assert(self.points@[old_points.len() as int] == q);
                } else {
                    assert(old_cells.contains_key(kk));
                    assert(old_cells[kk]@[j] == q);
                    let i = choose|i: int| 0 <= i < old_points.len() && old_points[i] == q;
                    assert(self.points@[i] == q);
                }
            }
        }
    }
}


/// Whether a segment counts as covered: at least half of its sample points
/// matched, out of at least one.
pub open spec fn covered(matched: nat, samples: nat) -> bool {
    samples > 0 && 2 * matched >= samples
}

/// How many of `samples` have a match among the trace points `trace`.
pub open spec fn count_matches(f: Frame, trace: Seq<Point>, samples: Seq<Point>, radius: nat) -> nat
    decreases samples.len(),
{
    if samples.len() == 0 {
        0
    } else {
        count_matches(f, trace, samples.drop_last(), radius)
            + if has_match(f, trace, samples.last(), radius) { 1nat } else { 0nat }
    }
}

/// The coverage of one segment: its length, its number of sample points,
/// and how many of those have a trace point within the match radius.
#[derive(Debug, Clone, Copy, PartialEq, Eq, Structural)]
pub struct SegmentCoverage {
    pub matched: usize,
    pub samples: usize,
    pub length_um: u128,
}

impl SegmentCoverage {
    /// At least half of the segment's sample points matched.
    pub fn is_covered(&self) -> (r: bool)
        ensures
            r == covered(self.matched as nat, self.samples as nat),
    {
        self.samples > 0 && self.matched as u128 * 2 >= self.samples as u128
    }
}

/// The coverage of the segment `geometry` by the trace points `trace`.
pub open spec fn coverage_of(f: Frame, trace: Seq<Point>, geometry: Seq<Point>, radius: nat) -> SegmentCoverage {
    let samples = discretized(f, geometry, SAMPLE_STEP_UM as nat);
    SegmentCoverage {
        matched: count_matches(f, trace, samples, radius) as usize,
        samples: samples.len() as usize,
        length_um: path_length(f, geometry) as u128,
    }
}

/// Builds the trace index of all tracks of `activities`, each track
/// discretised at the track step.
pub fn build_gps_index(frame: &Frame, activities: &Vec<Activity>) -> (idx: GpsIndex)
    requires
        frame.wf(),
        activities_wf(activities@),
    ensures
        idx.wf(),
        idx.frame_spec() == *frame,
        idx@ == trace_points(*frame, activities@, activities@.len() as int),
{
    let mut idx = GpsIndex::new(frame);
    let mut a: usize = 0;
    while a < activities.len()
        invariant
            frame.wf(),
            activities_wf(activities@),
            idx.wf(),
            idx.frame_spec() == *frame,
            a <= activities@.len(),
            idx@ == trace_points(*frame, activities@, a as int),
        decreases activities.len() - a,
    {
        let tracks = &activities[a].tracks;
        let ghost base = idx@;
        let mut t: usize = 0;
        while t < tracks.len()
            invariant
                frame.wf(),
                activities_wf(activities@),
                a < activities@.len(),
                *tracks == activities@[a as int].tracks,
                idx.wf(),
                idx.frame_spec() == *frame,
                t <= tracks@.len(),
                idx@ == base + track_points(*frame, tracks@, t as int),
            decreases tracks.len() - t,
        {
            assert(all_wf(activities@[a as int].tracks@[t as int]@));
            let pts = discretize(frame, &tracks[t], TRACK_STEP_UM);
            let ghost before = idx@;
            let mut i: usize = 0;
            while i < pts.len()
                invariant
                    idx.wf(),
                    idx.frame_spec() == *frame,
                    all_wf(pts@),
                    i <= pts@.len(),
                    idx@ == before + pts@.take(i as int),
                decreases pts.len() - i,
            {
                idx.insert(pts[i]);
                assert(pts@.take(i as int + 1) =~= pts@.take(i as int).push(pts@[i as int]));
                i = i + 1;
            }
            assert(pts@.take(pts@.len() as int) =~= pts@);
            assert(idx@ =~= base + track_points(*frame, tracks@, t as int + 1));
            t = t + 1;
        }
        assert(idx@ =~= trace_points(*frame, activities@, a as int + 1));
        a = a + 1;
    }
    idx
}

/// How many of the sample points of `geometry` have an indexed trace point
/// within `radius` micrometres, and how many sample points there are.
pub fn segment_coverage(index: &GpsIndex, geometry: &Vec<Point>, radius: u64) -> (r: (usize, usize))
    requires
        index.wf(),
        all_wf(geometry@),
    ensures
        r.1 == discretized(index.frame_spec(), geometry@, SAMPLE_STEP_UM as nat).len(),
        r.0 == count_matches(
            index.frame_spec(),
            index@,
            discretized(index.frame_spec(), geometry@, SAMPLE_STEP_UM as nat),
            radius as nat,
        ),
        r.0 <= r.1,
{
    let f = index.frame();
    let samples = discretize(&f, geometry, SAMPLE_STEP_UM);
    let mut matched: usize = 0;
    let mut i: usize = 0;
    while i < samples.len()
        invariant
            index.wf(),
            f == index.frame_spec(),
            all_wf(samples@),
            i <= samples@.len(),
            matched <= i,
            matched == count_matches(f, index@, samples@.take(i as int), radius as nat),
        decreases samples.len() - i,
    {
        assert(samples@.take(i as int + 1).drop_last() =~= samples@.take(i as int));
        if index.has_point_within(&samples[i], radius) {
            matched = matched + 1;
        }
        i = i + 1;
    }
    assert(samples@.take(samples@.len() as int) =~= samples@);
    (matched, samples.len())
}

/// The coverage of each of `segments` by the tracks of `activities`, in the
/// order of `segments`.
pub fn compute_coverage(frame: &Frame, segments: &Vec<Segment>, activities: &Vec<Activity>) -> (r: Vec<SegmentCoverage>)
    requires
        frame.wf(),
        segments_wf(segments@),
        activities_wf(activities@),
    ensures
        r@.len() == segments@.len(),
        forall|i: int|
            0 <= i < r@.len() ==> #[trigger] r@[i] == coverage_of(
                *frame,
                trace_points(*frame, activities@, activities@.len() as int),
                segments@[i].geometry@,
                MATCH_RADIUS_UM as nat,
            ),
{
    let index = build_gps_index(frame, activities);
    let ghost trace = index@;
    let mut out: Vec<SegmentCoverage> = Vec::new();
    let mut i: usize = 0;
    while i < segments.len()
        invariant
            frame.wf(),
            segments_wf(segments@),
            index.wf(),
            index.frame_spec() == *frame,
            index@ == trace,
            trace == trace_points(*frame, activities@, activities@.len() as int),
            i <= segments@.len(),
            out@.len() == i,
            forall|j: int|
                0 <= j < i ==> #[trigger] out@[j] == coverage_of(*frame, trace, segments@[j].geometry@, MATCH_RADIUS_UM as nat),
        decreases segments.len() - i,
    {
        let g = &segments[i].geometry;
        assert(all_wf(segments@[i as int].geometry@));
        let (matched, samples) = segment_coverage(&index, g, MATCH_RADIUS_UM);
        let length_um = polyline_length(frame, g);
        out.push(SegmentCoverage { matched, samples, length_um });
        i = i + 1;
    }
    out
}

/// A larger match radius never lowers a segment's count of matched sample
/// points; its number of sample points does not depend on the radius.
pub proof fn lemma_coverage_monotone(f: Frame, trace: Seq<Point>, geometry: Seq<Point>, r1: nat, r2: nat)
    requires
        r1 <= r2,
    ensures
        coverage_of(f, trace, geometry, r1).samples == coverage_of(f, trace, geometry, r2).samples,
        count_matches(f, trace, discretized(f, geometry, SAMPLE_STEP_UM as nat), r1)
            <= count_matches(f, trace, discretized(f, geometry, SAMPLE_STEP_UM as nat), r2),
{
    lemma_count_matches_monotone(f, trace, discretized(f, geometry, SAMPLE_STEP_UM as nat), r1, r2);
}

proof fn lemma_count_matches_monotone(f: Frame, trace: Seq<Point>, samples: Seq<Point>, r1: nat, r2: nat)
    requires
        r1 <= r2,
    ensures
        count_matches(f, trace, samples, r1) <= count_matches(f, trace, samples, r2),
    decreases samples.len(),
{
    if samples.len() > 0 {
        lemma_count_matches_monotone(f, trace, samples.drop_last(), r1, r2);
        let q = samples.last();
        if has_match(f, trace, q, r1) {
            let i = choose|i: int| 0 <= i < trace.len() && neighbours(f, q, #[trigger] trace[i]) && within(f, q, trace[i], r1);
            assert(r1 * r1 <= r2 * r2) by (nonlinear_arith)
                requires
                    r1 <= r2,
            ;
            assert(within(f, q, trace[i], r2));
        }
    }
}


/// Two values at most `c` apart fall in the same or adjacent blocks of size `c`.
proof fn lemma_floor_close(a: int, b: int, c: int)
    requires
        c > 0,
        -c <= a - b <= c,
    ensures
        -1 <= a / c - b / c <= 1,
{
    vstd::arithmetic::div_mod::lemma_fundamental_div_mod(a, c);
    vstd::arithmetic::div_mod::lemma_fundamental_div_mod(b, c);
    vstd::arithmetic::div_mod::lemma_mod_bound(a, c);
    vstd::arithmetic::div_mod::lemma_mod_bound(b, c);
    let qa = a / c;
    let qb = b / c;
    assert(-1 <= qa - qb <= 1) by (nonlinear_arith)
        requires
            a == c * qa + a % c,
            b == c * qb + b % c,
            0 <= a % c < c,
            0 <= b % c < c,
            -c <= a - b <= c,
            c > 0,
    ;
}

proof fn lemma_square_bound(y: int, x: int, r: int)
    requires
        0 <= r,
        y * y + x * x <= r * r,
    ensures
        -r <= y <= r,
{
    assert(x * x >= 0) by (nonlinear_arith);
    if y > r {
        assert(y * y > r * r) by (nonlinear_arith)
            requires
                y > r,
                r >= 0,
        ;
    } else if y < -r {
        assert(y * y > r * r) by (nonlinear_arith)
            requires
                y < -r,
                r >= 0,
        ;
    }
}

/// For a radius no larger than an index cell, every point within the radius
/// of `q` lies in the 3 x 3 block of cells around `q`: the neighbourhood
/// query then finds exactly the points within the radius.
pub proof fn lemma_neighbourhood_suffices(f: Frame, q: Point, p: Point, radius: nat)
    requires
        radius <= INDEX_CELL_UM,
        within(f, q, p, radius),
    ensures
        neighbours(f, q, p),
{
    let y = (q.lat - p.lat) * f.lat_scale;
    let x = (q.lon - p.lon) * f.lon_scale;
    lemma_square_bound(y, x, radius as int);
    lemma_square_bound(x, y, radius as int);
    assert(q.lat * f.lat_scale - p.lat * f.lat_scale == y) by (nonlinear_arith)
        requires
            y == (q.lat - p.lat) * f.lat_scale,
    ;
    assert(q.lon * f.lon_scale - p.lon * f.lon_scale == x) by (nonlinear_arith)
        requires
            x == (q.lon - p.lon) * f.lon_scale,
    ;
    lemma_floor_close(p.lat * f.lat_scale, q.lat * f.lat_scale, INDEX_CELL_UM as int);
    lemma_floor_close(p.lon * f.lon_scale, q.lon * f.lon_scale, INDEX_CELL_UM as int);
}

} // verus!
