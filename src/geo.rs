//! Geodesy in exact integer arithmetic.
//!
//! Coordinates are held in units of 1e-7 degree. Distances are measured in
//! micrometres in a local equirectangular frame: a [`Frame`] gives the length
//! of one coordinate unit of latitude and of longitude at the area's latitude.
//! Over an area a few kilometres wide this flat-earth model agrees with the
//! great-circle distance far below GPS precision.
use vstd::prelude::*;

verus! {

/// Largest magnitude of a latitude, in units of 1e-7 degree.
pub const LAT_LIMIT: i64 = 900_000_000;

/// Largest magnitude of a longitude, in units of 1e-7 degree.
pub const LON_LIMIT: i64 = 1_800_000_000;

/// Largest accepted frame scale, in micrometres per coordinate unit.
pub const SCALE_LIMIT: u64 = 100_000;

/// A WGS84 position; `lat` and `lon` in units of 1e-7 degree.
#[derive(Debug, Clone, Copy, PartialEq, Eq, Structural)]
pub struct Point {
    pub lat: i64,
    pub lon: i64,
}

impl Point {
    pub open spec fn wf(self) -> bool {
        -LAT_LIMIT <= self.lat <= LAT_LIMIT && -LON_LIMIT <= self.lon <= LON_LIMIT
    }
}

/// Every point of `pts` is a valid position.
pub open spec fn all_wf(pts: Seq<Point>) -> bool {
    forall|i: int| 0 <= i < pts.len() ==> (#[trigger] pts[i]).wf()
}

/// A local metric frame: the length, in micrometres, of one coordinate unit
/// (1e-7 degree) of latitude and of longitude.
#[derive(Debug, Clone, Copy, PartialEq, Eq, Structural)]
pub struct Frame {
    pub lat_scale: u64,
    pub lon_scale: u64,
}

impl Frame {
    pub open spec fn wf(self) -> bool {
        0 < self.lat_scale <= SCALE_LIMIT && 0 < self.lon_scale <= SCALE_LIMIT
    }
}

/// Squared distance between `a` and `b`, in square micrometres.
pub open spec fn dist_sq(f: Frame, a: Point, b: Point) -> int {
    let y = (a.lat - b.lat) * f.lat_scale;
    let x = (a.lon - b.lon) * f.lon_scale;
    y * y + x * x
}

pub open spec fn is_floor_sqrt(r: int, n: int) -> bool {
    0 <= r && r * r <= n < (r + 1) * (r + 1)
}

/// The integer square root of `n`, rounded down.
pub open spec fn floor_sqrt(n: nat) -> nat {
    choose|r: nat| is_floor_sqrt(r as int, n as int)
}

/// Distance between `a` and `b` in whole micrometres, rounded down.
pub open spec fn dist(f: Frame, a: Point, b: Point) -> nat {
    floor_sqrt(dist_sq(f, a, b) as nat)
}

/// `a` and `b` lie at most `radius` micrometres apart.
pub open spec fn within(f: Frame, a: Point, b: Point, radius: nat) -> bool {
    dist_sq(f, a, b) <= radius * radius
}

/// Length of the polyline `pts`: the sum of the distances between consecutive points.
pub open spec fn path_length(f: Frame, pts: Seq<Point>) -> nat
    decreases pts.len(),
{
    if pts.len() < 2 {
        0
    } else {
        path_length(f, pts.drop_last()) + dist(f, pts[pts.len() - 2], pts[pts.len() - 1])
    }
}

/// The coordinate at `d / len` of the way from `a` to `b`, rounded toward `a`.
pub open spec fn lerp(a: int, b: int, d: int, len: int) -> int {
    if b >= a {
        a + (b - a) * d / len
    } else {
        a - (a - b) * d / len
    }
}

/// The point at distance `d` along the straight edge from `a` to `b` of length `len`.
pub open spec fn point_at(a: Point, b: Point, d: int, len: int) -> Point {
    Point { lat: lerp(a.lat as int, b.lat as int, d, len) as i64, lon: lerp(a.lon as int, b.lon as int, d, len) as i64 }
}

/// Samples on one edge of length `len`, entered `rem` micrometres after the
/// previous sample: one at each further multiple of `step`.
pub open spec fn edge_samples(a: Point, b: Point, len: nat, rem: nat, step: nat) -> Seq<Point> {
    Seq::new(
        (len + rem) / step,
        |k: int| point_at(a, b, (k + 1) * step - rem, len as int),
    )
}

/// Samples taken every `step` of arc length along the edges of `pts` from
/// edge `i` on, `rem` being the distance already walked since the last sample.
/// Edges shorter than one micrometre are skipped.
pub open spec fn samples_from(f: Frame, pts: Seq<Point>, i: int, rem: nat, step: nat) -> Seq<Point>
    decreases pts.len() - i,
{
    if i < 0 || i + 1 >= pts.len() || step == 0 {
        seq![]
    } else {
        let len = dist(f, pts[i], pts[i + 1]);
        if len == 0 {
            samples_from(f, pts, i + 1, rem, step)
        } else {
            edge_samples(pts[i], pts[i + 1], len, rem, step)
                + samples_from(f, pts, i + 1, (len + rem) % step, step)
        }
    }
}

/// The polyline `pts` discretised at `step`: its first point, a point every
/// `step` of arc length, and its last point. Empty for fewer than two points.
pub open spec fn discretized(f: Frame, pts: Seq<Point>, step: nat) -> Seq<Point> {
    if pts.len() < 2 {
        seq![]
    } else {
        seq![pts[0]] + samples_from(f, pts, 0, 0, step) + seq![pts[pts.len() - 1]]
    }
}

proof fn lemma_floor_sqrt_unique(r: int, s: int, n: int)
    requires
        is_floor_sqrt(r, n),
        is_floor_sqrt(s, n),
    ensures
        r == s,
{
    if r < s {
        assert((r + 1) * (r + 1) <= s * s) by (nonlinear_arith)
            requires
                0 <= r,
                r + 1 <= s,
        ;
    } else if s < r {
        assert((s + 1) * (s + 1) <= r * r) by (nonlinear_arith)
            requires
                0 <= s,
                s + 1 <= r,
        ;
    }
}

/// Every natural number has a floor square root.
proof fn lemma_floor_sqrt(n: nat)
    ensures
        is_floor_sqrt(floor_sqrt(n) as int, n as int),
    decreases n,
{
    if n == 0 {
        assert(is_floor_sqrt(0, 0));
    } else {
        lemma_floor_sqrt((n - 1) as nat);
        let r = floor_sqrt((n - 1) as nat) as int;
        if (r + 1) * (r + 1) <= n {
            assert((r + 1) * (r + 1) == n);
            assert(n < (r + 2) * (r + 2)) by (nonlinear_arith)
                requires
                    (r + 1) * (r + 1) == n,
                    0 <= r,
            ;
            assert(is_floor_sqrt(r + 1, n as int));
        } else {
            assert(is_floor_sqrt(r, n as int));
        }
    }
}

proof fn lemma_floor_sqrt_is(r: nat, n: nat)
    requires
        is_floor_sqrt(r as int, n as int),
    ensures
        floor_sqrt(n) == r,
{
    let s = floor_sqrt(n);
    assert(is_floor_sqrt(s as int, n as int));
    lemma_floor_sqrt_unique(r as int, s as int, n as int);
}

/// The integer square root of `n`, rounded down.
pub fn isqrt(n: u128) -> (r: u64)
    ensures
        is_floor_sqrt(r as int, n as int),
        r as nat == floor_sqrt(n as nat),
{
    let mut lo: u128 = 0;
    let mut hi: u128 = 0x1_0000_0000_0000_0000;
    assert(hi * hi > n) by (nonlinear_arith)
        requires
            hi == 0x1_0000_0000_0000_0000u128,
            n <= u128::MAX,
    ;
    while hi - lo > 1
        invariant
            lo < hi <= 0x1_0000_0000_0000_0000u128,
            lo * lo <= n,
            n < hi * hi,
        decreases hi - lo,
    {
        let mid = lo + (hi - lo) / 2;
        assert(mid * mid < 0x1_0000_0000_0000_0000_0000_0000_0000_0000int) by (nonlinear_arith)
            requires
                mid < 0x1_0000_0000_0000_0000u128,
        ;
        if mid * mid <= n {
            lo = mid;
        } else {
            hi = mid;
        }
    }
    assert(hi == lo + 1);
    proof {
        lemma_floor_sqrt_is(lo as nat, n as nat);
    }
    lo as u64
}

proof fn lemma_dist_sq_bound(f: Frame, a: Point, b: Point)
    requires
        f.wf(),
        a.wf(),
        b.wf(),
    ensures
        0 <= dist_sq(f, a, b) < 0x4_0000_0000_0000_0000_0000_0000int,
{
    let y = (a.lat - b.lat) * f.lat_scale;
    let x = (a.lon - b.lon) * f.lon_scale;
    assert(-180_000_000_000_000 <= y <= 180_000_000_000_000) by (nonlinear_arith)
        requires
            y == (a.lat - b.lat) * f.lat_scale,
            -1_800_000_000 <= a.lat - b.lat <= 1_800_000_000,
            0 < f.lat_scale <= 100_000,
    ;
    assert(-360_000_000_000_000 <= x <= 360_000_000_000_000) by (nonlinear_arith)
        requires
            x == (a.lon - b.lon) * f.lon_scale,
            -3_600_000_000 <= a.lon - b.lon <= 3_600_000_000,
            0 < f.lon_scale <= 100_000,
    ;
    assert(0 <= y * y + x * x < 0x4_0000_0000_0000_0000_0000_0000int) by (nonlinear_arith)
        requires
            -180_000_000_000_000 <= y <= 180_000_000_000_000,
            -360_000_000_000_000 <= x <= 360_000_000_000_000,
    ;
}

/// Squared distance between `a` and `b`, in square micrometres.
pub fn distance_sq(f: &Frame, a: &Point, b: &Point) -> (r: u128)
    requires
        f.wf(),
        a.wf(),
        b.wf(),
    ensures
        r as int == dist_sq(*f, *a, *b),
        r < 0x4_0000_0000_0000_0000_0000_0000u128,
{
    proof {
        lemma_dist_sq_bound(*f, *a, *b);
    }
    let dlat: i128 = a.lat as i128 - b.lat as i128;
    let dlon: i128 = a.lon as i128 - b.lon as i128;
    let sy: i128 = f.lat_scale as i128;
    let sx: i128 = f.lon_scale as i128;
    assert(-180_000_000_000_000 <= dlat * sy <= 180_000_000_000_000) by (nonlinear_arith)
        requires
            -1_800_000_000 <= dlat <= 1_800_000_000,
            0 < sy <= 100_000,
    ;
    assert(-360_000_000_000_000 <= dlon * sx <= 360_000_000_000_000) by (nonlinear_arith)
        requires
            -3_600_000_000 <= dlon <= 3_600_000_000,
            0 < sx <= 100_000,
    ;
    let dy: i128 = dlat * sy;
    let dx: i128 = dlon * sx;
    let uy: u128 = if dy < 0 { (-dy) as u128 } else { dy as u128 };
    let ux: u128 = if dx < 0 { (-dx) as u128 } else { dx as u128 };
    assert(uy * uy == dy * dy && ux * ux == dx * dx) by (nonlinear_arith)
        requires
            uy == dy || uy == -dy,
            ux == dx || ux == -dx,
    ;
    uy * uy + ux * ux
}

/// A floor square root of a value under 2^98 is under 2^49.
proof fn lemma_sqrt_bound(r: int, n: int)
    requires
        is_floor_sqrt(r, n),
        n < 0x4_0000_0000_0000_0000_0000_0000int,
    ensures
        r < 0x2_0000_0000_0000int,
{
    if r >= 0x2_0000_0000_0000int {
        assert(r * r >= 0x4_0000_0000_0000_0000_0000_0000int) by (nonlinear_arith)
            requires
                r >= 0x2_0000_0000_0000int,
        ;
    }
}

/// Distance between `a` and `b` in whole micrometres, rounded down.
pub fn distance(f: &Frame, a: &Point, b: &Point) -> (r: u64)
    requires
        f.wf(),
        a.wf(),
        b.wf(),
    ensures
        r as nat == dist(*f, *a, *b),
        r < 0x2_0000_0000_0000u64,
{
    let n = distance_sq(f, a, b);
    let r = isqrt(n);
    proof {
        lemma_sqrt_bound(r as int, n as int);
    }
    r
}


/// Polyline lengths stay far below `u128::MAX`.
proof fn lemma_path_length_bound(f: Frame, pts: Seq<Point>)
    requires
        f.wf(),
        all_wf(pts),
    ensures
        path_length(f, pts) <= pts.len() * 0x2_0000_0000_0000,
    decreases pts.len(),
{
    if pts.len() >= 2 {
        let a = pts[pts.len() - 2];
        let b = pts[pts.len() - 1];
        lemma_path_length_bound(f, pts.drop_last());
        lemma_dist_sq_bound(f, a, b);
        let n = dist_sq(f, a, b) as nat;
        lemma_floor_sqrt(n);
        lemma_sqrt_bound(floor_sqrt(n) as int, n as int);
    }
}


/// Length of the polyline `pts` in micrometres.
pub fn polyline_length(f: &Frame, pts: &Vec<Point>) -> (r: u128)
    requires
        f.wf(),
        all_wf(pts@),
    ensures
        r as nat == path_length(*f, pts@),
{
    if pts.len() < 2 {
        return 0;
    }
    let mut total: u128 = 0;
    let mut i: usize = 1;
    while i < pts.len()
        invariant
            f.wf(),
            all_wf(pts@),
            1 <= i <= pts@.len(),
            total as nat == path_length(*f, pts@.take(i as int)),
        decreases pts.len() - i,
    {
        let ghost pre = pts@.take(i as int);
        let ghost next = pts@.take(i as int + 1);
        assert(next.drop_last() =~= pre);
        assert(all_wf(next));
        proof {
            lemma_path_length_bound(*f, next);
        }
        let d = distance(f, &pts[i - 1], &pts[i]);
        total = total + d as u128;
        i = i + 1;
    }
    assert(pts@.take(pts@.len() as int) =~= pts@);
    total
}

/// For `0 <= d <= len`, the share `x * d / len` of `x` lies between 0 and `x`.
pub proof fn lemma_share_bound(x: int, d: int, len: int)
    requires
        0 <= x,
        0 <= d <= len,
        0 < len,
    ensures
        0 <= x * d / len <= x,
{
    let q = x * d / len;
    assert(0 <= x * d <= x * len) by (nonlinear_arith)
        requires
            0 <= x,
            0 <= d <= len,
    ;
    vstd::arithmetic::div_mod::lemma_fundamental_div_mod(x * d, len);
    vstd::arithmetic::div_mod::lemma_mod_pos_bound(x * d, len);
    assert(0 <= q <= x) by (nonlinear_arith)
        requires
            x * d == len * q + (x * d) % len,
            0 <= (x * d) % len < len,
            0 <= x * d <= x * len,
            0 < len,
    ;
}

/// The coordinate at `d / len` of the way from `a` to `b`, rounded toward `a`.
fn lerp_coord(a: i64, b: i64, d: u64, len: u64) -> (r: i64)
    requires
        -LON_LIMIT <= a <= LON_LIMIT,
        -LON_LIMIT <= b <= LON_LIMIT,
        0 < len,
        d <= len,
    ensures
        r == lerp(a as int, b as int, d as int, len as int),
        a <= b ==> a <= r <= b,
        b < a ==> b <= r <= a,
{
    if b >= a {
        let diff: u128 = (b as i128 - a as i128) as u128;
        proof {
            lemma_share_bound(diff as int, d as int, len as int);
        }
        assert(diff * (d as u128) <= 0x1_0000_0000 * 0x1_0000_0000_0000_0000) by (nonlinear_arith)
            requires
                diff <= 0x1_0000_0000,
                d <= 0xFFFF_FFFF_FFFF_FFFFu64,
        ;
        let off: u128 = diff * (d as u128) / (len as u128);
        (a as i128 + off as i128) as i64
    } else {
        let diff: u128 = (a as i128 - b as i128) as u128;
        proof {
            lemma_share_bound(diff as int, d as int, len as int);
        }
        assert(diff * (d as u128) <= 0x1_0000_0000 * 0x1_0000_0000_0000_0000) by (nonlinear_arith)
            requires
                diff <= 0x1_0000_0000,
                d <= 0xFFFF_FFFF_FFFF_FFFFu64,
        ;
        let off: u128 = diff * (d as u128) / (len as u128);
        (a as i128 - off as i128) as i64
    }
}

/// The point at distance `d` along the edge from `a` to `b` of length `len`.
fn interpolate(a: &Point, b: &Point, d: u64, len: u64) -> (r: Point)
    requires
        a.wf(),
        b.wf(),
        0 < len,
        d <= len,
    ensures
        r == point_at(*a, *b, d as int, len as int),
        r.wf(),
{
    Point { lat: lerp_coord(a.lat, b.lat, d, len), lon: lerp_coord(a.lon, b.lon, d, len) }
}

/// Appends to `out` the samples of the edge from `a` to `b`, of length `len`,
/// entered `rem` micrometres after the previous sample.
fn push_edge_samples(out: &mut Vec<Point>, a: &Point, b: &Point, len: u64, rem: u64, step: u64)
    requires
        a.wf(),
        b.wf(),
        0 < len,
        rem < step,
        all_wf(old(out)@),
    ensures
        final(out)@ == old(out)@ + edge_samples(*a, *b, len as nat, rem as nat, step as nat),
        all_wf(final(out)@),
{
    let total: u128 = len as u128 + rem as u128;
    let n: u128 = total / step as u128;
    let ghost samples = edge_samples(*a, *b, len as nat, rem as nat, step as nat);
    let ghost prefix = out@;
    assert(n * step <= total) by (nonlinear_arith)
        requires
            n == total / (step as u128),
            step > 0,
    ;
    let mut k: u128 = 0;
    while k < n
        invariant
            a.wf(),
            b.wf(),
            0 < len,
            rem < step,
            n == (len + rem) / (step as int),
            n * step <= len + rem,
            k <= n,
            samples.len() == n,
            samples == edge_samples(*a, *b, len as nat, rem as nat, step as nat),
            out@ == prefix + samples.take(k as int),
            all_wf(out@),
        decreases n - k,
    {
        assert(step <= (k + 1) * step <= n * step) by (nonlinear_arith)
            requires
                k < n,
                step > 0,
        ;
        let d: u128 = (k + 1) * (step as u128) - rem as u128;
        let p = interpolate(a, b, d as u64, len);
        assert(p == samples[k as int]);
        out.push(p);
        assert(samples.take(k as int + 1) =~= samples.take(k as int).push(p));
        k = k + 1;
    }
    assert(samples.take(n as int) =~= samples);
}

/// The polyline `pts` discretised every `step` micrometres of arc length,
/// with both of its end points.
pub fn discretize(f: &Frame, pts: &Vec<Point>, step: u64) -> (out: Vec<Point>)
    requires
        f.wf(),
        all_wf(pts@),
        step > 0,
    ensures
        out@ == discretized(*f, pts@, step as nat),
        all_wf(out@),
{
    if pts.len() < 2 {
        return Vec::new();
    }
    let ghost target = seq![pts@[0]] + samples_from(*f, pts@, 0, 0, step as nat);
    let mut out: Vec<Point> = Vec::new();
    out.push(pts[0]);
    assert(out@ =~= seq![pts@[0]]);
    let mut rem: u64 = 0;
    let mut i: usize = 0;
    while i + 1 < pts.len()
        invariant
            f.wf(),
            all_wf(pts@),
            step > 0,
            pts@.len() >= 2,
            i < pts@.len(),
            rem < step,
            out@ + samples_from(*f, pts@, i as int, rem as nat, step as nat) == target,
            all_wf(out@),
        decreases pts.len() - i,
    {
        let len = distance(f, &pts[i], &pts[i + 1]);
        let ghost before = out@;
        if len > 0 {
            push_edge_samples(&mut out, &pts[i], &pts[i + 1], len, rem, step);
            let next_rem: u64 = ((len as u128 + rem as u128) % step as u128) as u64;
            assert(out@ + samples_from(*f, pts@, i as int + 1, next_rem as nat, step as nat)
                =~= before + samples_from(*f, pts@, i as int, rem as nat, step as nat));
            rem = next_rem;
        }
        i = i + 1;
    }
    assert(samples_from(*f, pts@, i as int, rem as nat, step as nat) =~= seq![]);
    assert(out@ =~= target);
    out.push(pts[pts.len() - 1]);
    out
}

} // verus!
