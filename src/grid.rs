//! Aggregation of segments and their coverage onto a uniform grid laid over
//! the bounding box.
//!
//! Each segment's length is shared among the distinct cells that its sample
//! points fall in. Lengths are whole micrometres, so a segment of length `L`
//! over `n` cells gives `L / n` to each cell and one more micrometre to each
//! of the first `L % n` of them (in ascending cell order): the shares add up
//! to `L` exactly.
use vstd::prelude::*;
use crate::geo::{Frame, Point, all_wf, discretized, discretize, dist, samples_from, edge_samples, lerp, lemma_share_bound, LAT_LIMIT, LON_LIMIT};
use crate::matching::{Activity, SegmentCoverage, covered, coverage_of, trace_points, MATCH_RADIUS_UM};
use crate::network::{Segment, Trail, geometries, network_segments, segments_wf};

verus! {

/// Spacing of the sample points that place a segment on the grid, in
/// micrometres (20 m).
pub const GRID_STEP_UM: u64 = 20_000_000;

/// A bounding box, in units of 1e-7 degree.
#[derive(Debug, Clone, Copy, PartialEq, Eq, Structural)]
pub struct BBox {
    pub south: i64,
    pub west: i64,
    pub north: i64,
    pub east: i64,
}

impl BBox {
    pub open spec fn wf(self) -> bool {
        &&& (Point { lat: self.south, lon: self.west }).wf()
        &&& (Point { lat: self.north, lon: self.east }).wf()
        &&& self.south <= self.north
        &&& self.west <= self.east
    }

    /// `p` lies in the box, its edges included.
    pub open spec fn contains(self, p: Point) -> bool {
        self.south <= p.lat <= self.north && self.west <= p.lon <= self.east
    }
}

/// The grid: square cells of `cell_size_um` micrometres in the frame `frame`,
/// laid from the south-west corner of `bbox`, `cols` wide and `rows` high.
#[derive(Debug, Clone, Copy, PartialEq, Eq, Structural)]
pub struct GridConfig {
    pub cell_size_um: u64,
    pub bbox: BBox,
    pub frame: Frame,
    pub cols: usize,
    pub rows: usize,
}

/// Smallest whole number of cells of size `cell` that covers `extent`.
pub open spec fn cells_across(extent: int, cell: int) -> int {
    (extent + cell - 1) / cell
}

impl GridConfig {
    pub open spec fn wf(self) -> bool {
        &&& self.cell_size_um > 0
        &&& self.bbox.wf()
        &&& self.frame.wf()
        &&& self.cols * self.rows <= usize::MAX
        &&& self.cols == cells_across((self.bbox.east - self.bbox.west) * self.frame.lon_scale, self.cell_size_um as int)
        &&& self.rows == cells_across((self.bbox.north - self.bbox.south) * self.frame.lat_scale, self.cell_size_um as int)
    }

    /// Number of cells of the grid.
    pub open spec fn size(self) -> int {
        self.cols * self.rows
    }

    /// Column of the grid in which `p` lies.
    pub open spec fn col_of(self, p: Point) -> int {
        ((p.lon - self.bbox.west) * self.frame.lon_scale) / (self.cell_size_um as int)
    }

    /// Row of the grid in which `p` lies.
    pub open spec fn row_of(self, p: Point) -> int {
        ((p.lat - self.bbox.south) * self.frame.lat_scale) / (self.cell_size_um as int)
    }

    /// The id of the cell that holds `p`; none for a point outside the box
    /// or beyond the last column or row.
    pub open spec fn cell_at(self, p: Point) -> Option<int> {
        if !self.bbox.contains(p) || self.col_of(p) >= self.cols || self.row_of(p) >= self.rows {
            None
        } else {
            Some(self.row_of(p) * self.cols + self.col_of(p))
        }
    }
}

/// The values of `s` strictly increase.
pub open spec fn strictly_increasing(s: Seq<usize>) -> bool {
    forall|i: int, j: int| 0 <= i < j < s.len() ==> s[i] < s[j]
}

/// Some point of `samples` lies in cell `c` of the grid `g`.
pub open spec fn touches(g: GridConfig, samples: Seq<Point>, c: int) -> bool {
    exists|i: int| 0 <= i < samples.len() && g.cell_at(#[trigger] samples[i]) == Some(c)
}

proof fn lemma_extent_bound(d: int, scale: int, limit: int)
    requires
        0 <= d <= limit,
        0 < scale <= 100_000,
    ensures
        0 <= d * scale <= limit * 100_000,
{
    assert(0 <= d * scale <= limit * 100_000) by (nonlinear_arith)
        requires
            0 <= d <= limit,
            0 < scale <= 100_000,
    ;
}

/// The grid of cells of `cell_size_um` micrometres over `bbox`, measured in
/// `frame`; none when the number of cells does not fit in `usize`.
pub fn grid_config(bbox: &BBox, frame: &Frame, cell_size_um: u64) -> (r: Option<GridConfig>)
    requires
        bbox.wf(),
        frame.wf(),
        cell_size_um > 0,
    ensures
        match r {
            Some(g) => g.wf() && g.bbox == *bbox && g.frame == *frame && g.cell_size_um == cell_size_um,
            None => {
                let cols = cells_across((bbox.east - bbox.west) * frame.lon_scale, cell_size_um as int);
                let rows = cells_across((bbox.north - bbox.south) * frame.lat_scale, cell_size_um as int);
                cols > usize::MAX || rows > usize::MAX || cols * rows > usize::MAX
            },
        },
{
    proof {
        lemma_extent_bound(bbox.east - bbox.west, frame.lon_scale as int, 3_600_000_000);
        lemma_extent_bound(bbox.north - bbox.south, frame.lat_scale as int, 1_800_000_000);
    }
    let width: u128 = (bbox.east as i128 - bbox.west as i128) as u128 * frame.lon_scale as u128;
    let height: u128 = (bbox.north as i128 - bbox.south as i128) as u128 * frame.lat_scale as u128;
    let cell: u128 = cell_size_um as u128;
    let cols: u128 = (width + cell - 1) / cell;
    let rows: u128 = (height + cell - 1) / cell;
    assert(cols <= width + cell && rows <= height + cell) by {
        vstd::arithmetic::div_mod::lemma_div_is_ordered_by_denominator((width + cell - 1) as int, 1, cell as int);
        vstd::arithmetic::div_mod::lemma_div_is_ordered_by_denominator((height + cell - 1) as int, 1, cell as int);
    }
    if cols > usize::MAX as u128 || rows > usize::MAX as u128 {
        return None;
    }
    let total: Option<usize> = (cols as usize).checked_mul(rows as usize);
    match total {
        Some(_) => Some(GridConfig { cell_size_um, bbox: *bbox, frame: *frame, cols: cols as usize, rows: rows as usize }),
        None => None,
    }
}


/// The id of the cell of `g` that holds `p`.
pub fn point_to_cell(g: &GridConfig, p: &Point) -> (r: Option<usize>)
    requires
        g.wf(),
        p.wf(),
    ensures
        match g.cell_at(*p) {
            Some(c) => r == Some(c as usize) && 0 <= c < g.size(),
            None => r.is_none(),
        },
{
    let b = &g.bbox;
    if !(b.south <= p.lat && p.lat <= b.north && b.west <= p.lon && p.lon <= b.east) {
        return None;
    }
    proof {
        lemma_extent_bound(p.lon - b.west, g.frame.lon_scale as int, 3_600_000_000);
        lemma_extent_bound(p.lat - b.south, g.frame.lat_scale as int, 1_800_000_000);
    }
    let x: u128 = (p.lon as i128 - b.west as i128) as u128 * g.frame.lon_scale as u128;
    let y: u128 = (p.lat as i128 - b.south as i128) as u128 * g.frame.lat_scale as u128;
    let col: u128 = x / g.cell_size_um as u128;
    let row: u128 = y / g.cell_size_um as u128;
    if col >= g.cols as u128 || row >= g.rows as u128 {
        return None;
    }
    let col = col as usize;
    let row = row as usize;
    assert(row * g.cols + col < g.cols * g.rows) by (nonlinear_arith)
        requires
            row < g.rows,
            col < g.cols,
    ;
    assert(row * g.cols <= row * g.cols + col);
    Some(row * g.cols + col)
}

/// Adds `x` to the strictly increasing list `v`, keeping it strictly increasing.
fn insert_sorted(v: &mut Vec<usize>, x: usize)
    requires
        strictly_increasing(old(v)@),
    ensures
        strictly_increasing(final(v)@),
        forall|y: usize| final(v)@.contains(y) <==> (old(v)@.contains(y) || y == x),
{
    let mut i: usize = 0;
    while i < v.len() && v[i] < x
        invariant
            i <= v@.len(),
            forall|j: int| 0 <= j < i ==> v@[j] < x,
        decreases v.len() - i,
    {
        i = i + 1;
    }
    if i < v.len() && v[i] == x {
        assert(v@[i as int] == x);
        return;
    }
    let ghost before = v@;
    v.insert(i, x);
    proof {
        assert(v@ == before.insert(i as int, x));
        assert forall|a: int, b: int| 0 <= a < b < v@.len() implies v@[a] < v@[b] by {
            if b < i {
            } else if b == i {
            } else if a < i {
                assert(v@[b] == before[b - 1]);
                assert(before[b - 1] >= x);
            } else if a == i {
                assert(v@[b] == before[b - 1]);
            } else {
                assert(v@[a] == before[a - 1] && v@[b] == before[b - 1]);
            }
        }
        assert forall|y: usize| v@.contains(y) implies (before.contains(y) || y == x) by {
            let k = choose|k: int| 0 <= k < v@.len() && v@[k] == y;
            if k < i {
                assert(before[k] == y);
            } else if k > i {
                assert(before[k - 1] == y);
            }
        }
        assert forall|y: usize| before.contains(y) implies v@.contains(y) by {
            let k = choose|k: int| 0 <= k < before.len() && before[k] == y;
            if k < i {
                assert(v@[k] == y);
            } else {
                assert(v@[k + 1] == y);
            }
        }
        assert(v@[i as int] == x);
    }
}

/// The distinct cells of `g` that the samples of `geometry` fall in, ascending.
pub fn segment_cell_ids(g: &GridConfig, geometry: &Vec<Point>) -> (r: Vec<usize>)
    requires
        g.wf(),
        all_wf(geometry@),
    ensures
        strictly_increasing(r@),
        forall|c: usize| r@.contains(c) <==> touches(*g, discretized(g.frame, geometry@, GRID_STEP_UM as nat), c as int),
        forall|i: int| 0 <= i < r@.len() ==> #[trigger] r@[i] < g.size(),
{
    let samples = discretize(&g.frame, geometry, GRID_STEP_UM);
    let mut ids: Vec<usize> = Vec::new();
    let mut i: usize = 0;
    while i < samples.len()
        invariant
            g.wf(),
            all_wf(samples@),
            i <= samples@.len(),
            strictly_increasing(ids@),
            forall|c: usize| ids@.contains(c) <==> touches(*g, samples@.take(i as int), c as int),
            forall|k: int| 0 <= k < ids@.len() ==> #[trigger] ids@[k] < g.size(),
        decreases samples.len() - i,
    {
        let ghost before = ids@;
        let ghost prefix = samples@.take(i as int);
        let ghost next = samples@.take(i as int + 1);
        match point_to_cell(g, &samples[i]) {
            Some(c) => {
                insert_sorted(&mut ids, c);
                proof {
                    assert forall|k: int| 0 <= k < ids@.len() implies #[trigger] ids@[k] < g.size() by {
                        assert(ids@.contains(ids@[k]));
                    }
                }
            },
            None => {},
        }
        proof {
            assert forall|c: usize| ids@.contains(c) <==> touches(*g, next, c as int) by {
                if touches(*g, prefix, c as int) {
                    let k = choose|k: int| 0 <= k < prefix.len() && g.cell_at(#[trigger] prefix[k]) == Some(c as int);
                    assert(next[k] == prefix[k]);
                }
                if touches(*g, next, c as int) {
                    let k = choose|k: int| 0 <= k < next.len() && g.cell_at(#[trigger] next[k]) == Some(c as int);
                    if k < i {
                        assert(prefix[k] == next[k]);
                    }
                }
                if g.cell_at(samples@[i as int]) == Some(c as int) {
                    assert(next[i as int] == samples@[i as int]);
                }
            }
        }
        i = i + 1;
    }
    assert(samples@.take(samples@.len() as int) =~= samples@);
    ids
}


/// One grid cell and what the segments passing through it leave there.
#[derive(Debug)]
pub struct Cell {
    pub id: usize,
    pub row: usize,
    pub col: usize,
    pub has_trail: bool,
    pub visited: bool,
    pub trail_um: u128,
    pub covered_um: u128,
    pub segment_ids: Vec<usize>,
}

/// The grid, its cells (indexed by cell id), and for each segment the
/// ascending list of the cells it passes through.
#[derive(Debug)]
pub struct GridResult {
    pub config: GridConfig,
    pub cells: Vec<Cell>,
    pub segment_cells: Vec<Vec<usize>>,
}

/// The share of a length `len` that goes to the cell at position `j` among
/// `n` cells: `len / n`, and one more for the first `len % n` positions.
pub open spec fn share(len: nat, n: nat, j: int) -> nat {
    if n == 0 {
        0
    } else {
        len / n + if j < len % n { 1nat } else { 0nat }
    }
}

/// `ids` holds the cell id `c`.
pub open spec fn holds(ids: Seq<usize>, c: int) -> bool {
    exists|j: int| 0 <= j < ids.len() && ids[j] == c
}

/// The position of `c` in `ids`.
pub open spec fn position(ids: Seq<usize>, c: int) -> int {
    choose|j: int| 0 <= j < ids.len() && ids[j] == c
}

/// What the first `k` segments, with cell lists `sc` and coverage `cov`,
/// leave in cell `c`: whether a covered segment passed through it, the
/// trail length and covered length it received, and the indices of the
/// segments that pass through it, ascending.
pub open spec fn cell_totals(sc: Seq<Seq<usize>>, cov: Seq<SegmentCoverage>, c: int, k: int) -> (bool, nat, nat, Seq<usize>)
    decreases k,
{
    if k <= 0 {
        (false, 0, 0, seq![])
    } else {
        let prev = cell_totals(sc, cov, c, k - 1);
        let ids = sc[k - 1];
        if holds(ids, c) {
            let part = share(cov[k - 1].length_um as nat, ids.len(), position(ids, c));
            let cv = covered(cov[k - 1].matched as nat, cov[k - 1].samples as nat);
            (prev.0 || cv, prev.1 + part, prev.2 + if cv { part } else { 0nat }, prev.3.push((k - 1) as usize))
        } else {
            prev
        }
    }
}

/// `cell` holds the totals `t`.
pub open spec fn cell_agrees(cell: Cell, t: (bool, nat, nat, Seq<usize>)) -> bool {
    &&& cell.has_trail == (t.3.len() > 0)
    &&& cell.visited == t.0
    &&& cell.trail_um == t.1
    &&& cell.covered_um == t.2
    &&& cell.segment_ids@ == t.3
}

/// The sum of the lengths of the first `k` of `cov`.
pub open spec fn total_length(cov: Seq<SegmentCoverage>, k: int) -> nat
    decreases k,
{
    if k <= 0 {
        0
    } else {
        total_length(cov, k - 1) + cov[k - 1].length_um as nat
    }
}

/// The cell lists of `segment_cells`.
pub open spec fn cell_lists(segment_cells: Seq<Vec<usize>>) -> Seq<Seq<usize>> {
    Seq::new(segment_cells.len(), |s: int| segment_cells[s]@)
}

proof fn lemma_totals_prefix(a: Seq<Seq<usize>>, b: Seq<Seq<usize>>, cov: Seq<SegmentCoverage>, c: int, k: int)
    requires
        0 <= k <= a.len(),
        k <= b.len(),
        forall|i: int| 0 <= i < k ==> a[i] == b[i],
    ensures
        cell_totals(a, cov, c, k) == cell_totals(b, cov, c, k),
    decreases k,
{
    if k > 0 {
        lemma_totals_prefix(a, b, cov, c, k - 1);
    }
}

proof fn lemma_total_length_mono(cov: Seq<SegmentCoverage>, k: int, m: int)
    requires
        0 <= k <= m,
    ensures
        total_length(cov, k) <= total_length(cov, m),
    decreases m - k,
{
    if k < m {
        lemma_total_length_mono(cov, k, m - 1);
    }
}

proof fn lemma_share_le(len: nat, n: nat, j: int)
    requires
        0 <= j,
    ensures
        share(len, n, j) <= len,
{
    if n > 0 {
        vstd::arithmetic::div_mod::lemma_fundamental_div_mod(len as int, n as int);
        vstd::arithmetic::div_mod::lemma_mod_pos_bound(len as int, n as int);
        let q = len / n;
        let r = len % n;
        assert(q <= n * q) by (nonlinear_arith)
            requires
                n >= 1,
                q >= 0,
        ;
    }
}

proof fn lemma_totals_bound(sc: Seq<Seq<usize>>, cov: Seq<SegmentCoverage>, c: int, k: int)
    ensures
        cell_totals(sc, cov, c, k).1 <= total_length(cov, k),
        cell_totals(sc, cov, c, k).2 <= cell_totals(sc, cov, c, k).1,
    decreases k,
{
    if k > 0 {
        lemma_totals_bound(sc, cov, c, k - 1);
        let ids = sc[k - 1];
        if holds(ids, c) {
            assert(0 <= position(ids, c));
            lemma_share_le(cov[k - 1].length_um as nat, ids.len(), position(ids, c));
        }
    }
}

proof fn lemma_position(ids: Seq<usize>, j: int)
    requires
        strictly_increasing(ids),
        0 <= j < ids.len(),
    ensures
        holds(ids, ids[j] as int),
        position(ids, ids[j] as int) == j,
{
    assert(ids[j] == ids[j]);
    let p = position(ids, ids[j] as int);
    if p < j {
        assert(ids[p] < ids[j]);
    } else if p > j {
        assert(ids[j] < ids[p]);
    }
}

/// Adds one segment's share to `cell`.
fn add_to_cell(cell: &mut Cell, part: u128, is_covered: bool, seg: usize)
    requires
        old(cell).trail_um + part <= u128::MAX,
        old(cell).covered_um <= old(cell).trail_um,
    ensures
        final(cell).id == old(cell).id,
        final(cell).row == old(cell).row,
        final(cell).col == old(cell).col,
        final(cell).has_trail,
        final(cell).visited == (old(cell).visited || is_covered),
        final(cell).trail_um == old(cell).trail_um + part,
        final(cell).covered_um == old(cell).covered_um + if is_covered { part } else { 0 },
        final(cell).segment_ids@ == old(cell).segment_ids@.push(seg),
{
    cell.has_trail = true;
    cell.trail_um = cell.trail_um + part;
    if is_covered {
        cell.covered_um = cell.covered_um + part;
        cell.visited = true;
    }
    cell.segment_ids.push(seg);
}


/// The cells that segment `s` passes through: those its samples, taken
/// every `GRID_STEP_UM` of arc length, fall in; ascending, without repeats.
pub open spec fn is_cell_list(g: GridConfig, geometry: Seq<Point>, ids: Seq<usize>) -> bool {
    &&& strictly_increasing(ids)
    &&& forall|c: usize| ids.contains(c) <==> touches(g, discretized(g.frame, geometry, GRID_STEP_UM as nat), c as int)
}

/// Lays `segments`, with their coverage `coverage`, onto the grid `g`.
///
/// Each segment's length is shared among the distinct cells its samples fall
/// in (nothing when there is none); each such cell is marked as holding a
/// trail, records the segment's index, and, when the segment is covered, is
/// marked visited and receives the same share as covered length.
pub fn compute_grid(g: &GridConfig, segments: &Vec<Segment>, coverage: &Vec<SegmentCoverage>) -> (r: GridResult)
    requires
        g.wf(),
        segments_wf(segments@),
        coverage@.len() == segments@.len(),
        total_length(coverage@, coverage@.len() as int) <= u128::MAX,
    ensures
        grid_outcome(*g, segments@, coverage@, r),
{
    let total: usize = g.cols * g.rows;
    let mut cells: Vec<Cell> = Vec::new();
    let mut c: usize = 0;
    while c < total
        invariant
            total == g.size(),
            c <= total,
            cells@.len() == c,
            forall|d: int|
                0 <= d < c ==> {
                    let cell = #[trigger] cells@[d];
                    &&& cell.id == d
                    &&& cell.row == d / (g.cols as int)
                    &&& cell.col == d % (g.cols as int)
                    &&& cell_agrees(cell, cell_totals(Seq::empty(), coverage@, d, 0))
                },
        decreases total - c,
    {
        cells.push(
            Cell {
                id: c,
                row: c / g.cols,
                col: c % g.cols,
                has_trail: false,
                visited: false,
                trail_um: 0,
                covered_um: 0,
                segment_ids: Vec::new(),
            },
        );
        c = c + 1;
    }
    let mut seg_cells: Vec<Vec<usize>> = Vec::new();
    let mut s: usize = 0;
    while s < segments.len()
        invariant
            g.wf(),
            segments_wf(segments@),
            coverage@.len() == segments@.len(),
            total_length(coverage@, coverage@.len() as int) <= u128::MAX,
            total == g.size(),
            s <= segments@.len(),
            seg_cells@.len() == s,
            cells@.len() == total,
            forall|t: int| 0 <= t < s ==> is_cell_list(*g, segments@[t].geometry@, #[trigger] seg_cells@[t]@),
            forall|d: int|
                0 <= d < total ==> {
                    let cell = #[trigger] cells@[d];
                    &&& cell.id == d
                    &&& cell.row == d / (g.cols as int)
                    &&& cell.col == d % (g.cols as int)
                    &&& cell_agrees(cell, cell_totals(cell_lists(seg_cells@), coverage@, d, s as int))
                },
        decreases segments.len() - s,
    {
        assert(all_wf(segments@[s as int].geometry@));
        let ids = segment_cell_ids(g, &segments[s].geometry);
        let n: usize = ids.len();
        let len: u128 = coverage[s].length_um;
        let is_cov = coverage[s].is_covered();
        let (base, extra): (u128, u128) = if n > 0 {
            (len / n as u128, len % n as u128)
        } else {
            (0, 0)
        };
        let ghost sc = cell_lists(seg_cells@);
        let ghost next = sc.push(ids@);
        proof {
            lemma_total_length_mono(coverage@, s as int + 1, coverage@.len() as int);
        }
        let mut j: usize = 0;
        while j < n
            invariant
                g.wf(),
                total == g.size(),
                cells@.len() == total,
                n == ids@.len(),
                strictly_increasing(ids@),
                forall|i: int| 0 <= i < ids@.len() ==> #[trigger] ids@[i] < g.size(),
                s < coverage@.len(),
                len == coverage@[s as int].length_um,
                is_cov == covered(coverage@[s as int].matched as nat, coverage@[s as int].samples as nat),
                n > 0 ==> base == (len as int) / (n as int) && extra == (len as int) % (n as int),
                sc.len() == s,
                next == sc.push(ids@),
                total_length(coverage@, s as int + 1) <= u128::MAX,
                j <= n,
                forall|d: int|
                    0 <= d < total ==> {
                        let cell = #[trigger] cells@[d];
                        &&& cell.id == d
                        &&& cell.row == d / (g.cols as int)
                        &&& cell.col == d % (g.cols as int)
                        &&& if holds(ids@, d) && position(ids@, d) < j {
                            cell_agrees(cell, cell_totals(next, coverage@, d, s as int + 1))
                        } else {
                            cell_agrees(cell, cell_totals(sc, coverage@, d, s as int))
                        }
                    },
            decreases n - j,
        {
            let d = ids[j];
            proof {
                lemma_position(ids@, j as int);
                lemma_totals_bound(next, coverage@, d as int, s as int + 1);
                lemma_totals_prefix(sc, next, coverage@, d as int, s as int);
                lemma_totals_bound(sc, coverage@, d as int, s as int);
                vstd::arithmetic::div_mod::lemma_fundamental_div_mod(len as int, n as int);
            }
            let part: u128 = if (j as u128) < extra { base + 1 } else { base };
            assert(part == share(len as nat, n as nat, j as int));
            add_to_cell(&mut cells[d], part, is_cov, s);
            proof {
                assert forall|e: int|
                    0 <= e < total implies {
                        let cell = #[trigger] cells@[e];
                        &&& cell.id == e
                        &&& cell.row == e / (g.cols as int)
                        &&& cell.col == e % (g.cols as int)
                        &&& if holds(ids@, e) && position(ids@, e) < j + 1 {
                            cell_agrees(cell, cell_totals(next, coverage@, e, s as int + 1))
                        } else {
                            cell_agrees(cell, cell_totals(sc, coverage@, e, s as int))
                        }
                    } by {
                    if e != d as int && holds(ids@, e) {
                        let p = position(ids@, e);
                        lemma_position(ids@, p);
                        assert(p != j as int);
                    }
                }
            }
            j = j + 1;
        }
        seg_cells.push(ids);
        proof {
            assert(cell_lists(seg_cells@) =~= next);
            assert forall|d: int|
                0 <= d < total implies {
                    let cell = #[trigger] cells@[d];
                    &&& cell.id == d
                    &&& cell.row == d / (g.cols as int)
                    &&& cell.col == d % (g.cols as int)
                    &&& cell_agrees(cell, cell_totals(cell_lists(seg_cells@), coverage@, d, s as int + 1))
                } by {
                if holds(ids@, d) {
                    let p = position(ids@, d);
                    assert(0 <= p < n);
                } else {
                    lemma_totals_prefix(sc, next, coverage@, d, s as int);
                }
            }
        }
        s = s + 1;
    }
    GridResult { config: *g, cells, segment_cells: seg_cells }
}


/// What segment `ids` (its cell list) of length `len` gives to cell `c`.
pub open spec fn contribution(ids: Seq<usize>, len: nat, c: int) -> nat {
    if holds(ids, c) {
        share(len, ids.len(), position(ids, c))
    } else {
        0
    }
}

/// The sum of what a segment with cell list `ids` and length `len` gives to
/// the first `m` cells of its list.
pub open spec fn contributions_sum(ids: Seq<usize>, len: nat, m: int) -> nat
    decreases m,
{
    if m <= 0 {
        0
    } else {
        contributions_sum(ids, len, m - 1) + contribution(ids, len, ids[m - 1] as int)
    }
}

proof fn lemma_shares_prefix(ids: Seq<usize>, len: nat, m: int)
    requires
        strictly_increasing(ids),
        ids.len() > 0,
        0 <= m <= ids.len(),
    ensures
        contributions_sum(ids, len, m) == m * (len / ids.len()) + if m < len % ids.len() { m } else { (len % ids.len()) as int },
    decreases m,
{
    let n = ids.len();
    vstd::arithmetic::div_mod::lemma_mod_pos_bound(len as int, n as int);
    if m > 0 {
        lemma_shares_prefix(ids, len, m - 1);
        lemma_position(ids, m - 1);
        let q = len / n;
        let r = len % n;
        assert(contribution(ids, len, ids[m - 1] as int) == q + if m - 1 < r { 1int } else { 0int });
        assert((m - 1) * q + q == m * q) by (nonlinear_arith);
        let prev = contributions_sum(ids, len, m - 1);
        assert(prev == (m - 1) * q + if m - 1 < r { m - 1 } else { r as int });
        assert(contributions_sum(ids, len, m) == prev + contribution(ids, len, ids[m - 1] as int));
        if m - 1 < r {
            assert(contributions_sum(ids, len, m) == m * q + m);
            assert(m <= r);
        } else {
            assert(contributions_sum(ids, len, m) == m * q + r);
            assert(!(m < r));
        }
        assert(contributions_sum(ids, len, m) == m * q + if m < r { m } else { r as int });
    } else {
        assert(contributions_sum(ids, len, m) == 0);
        assert(m * (len / n) == 0);
    }
}

/// Length conservation: the trail length that segment `k` adds to the cells
/// it passes through adds up to its own length, or to nothing when it passes
/// through none; each cell receives that segment's contribution on top of
/// what the earlier segments left.
pub proof fn lemma_length_conserved(sc: Seq<Seq<usize>>, cov: Seq<SegmentCoverage>, k: int)
    requires
        0 <= k < sc.len(),
        strictly_increasing(sc[k]),
    ensures
        forall|c: int|
            #[trigger] cell_totals(sc, cov, c, k + 1).1 == cell_totals(sc, cov, c, k).1
                + contribution(sc[k], cov[k].length_um as nat, c),
        contributions_sum(sc[k], cov[k].length_um as nat, sc[k].len() as int)
            == if sc[k].len() > 0 { cov[k].length_um as nat } else { 0 },
{
    let ids = sc[k];
    let len = cov[k].length_um as nat;
    if ids.len() > 0 {
        lemma_shares_prefix(ids, len, ids.len() as int);
        vstd::arithmetic::div_mod::lemma_fundamental_div_mod(len as int, ids.len() as int);
        vstd::arithmetic::div_mod::lemma_mod_pos_bound(len as int, ids.len() as int);
    }
}

/// Each coordinate of `p` lies within those of `lo` and `hi`.
pub open spec fn in_range(p: Point, lo: Point, hi: Point) -> bool {
    lo.lat <= p.lat <= hi.lat && lo.lon <= p.lon <= hi.lon
}

proof fn lemma_lerp_between(a: int, b: int, d: int, len: int)
    requires
        0 <= d <= len,
        0 < len,
    ensures
        a <= b ==> a <= lerp(a, b, d, len) <= b,
        b < a ==> b <= lerp(a, b, d, len) <= a,
{
    if b >= a {
        lemma_share_bound(b - a, d, len);
    } else {
        lemma_share_bound(a - b, d, len);
    }
}

proof fn lemma_samples_in_range(f: Frame, pts: Seq<Point>, i: int, rem: nat, step: nat, lo: Point, hi: Point)
    requires
        forall|k: int| 0 <= k < pts.len() ==> in_range(#[trigger] pts[k], lo, hi),
        rem < step,
    ensures
        forall|k: int|
            0 <= k < samples_from(f, pts, i, rem, step).len() ==> in_range(#[trigger] samples_from(f, pts, i, rem, step)[k], lo, hi),
    decreases pts.len() - i,
{
    if !(i < 0 || i + 1 >= pts.len() || step == 0) {
        let len = dist(f, pts[i], pts[i + 1]);
        let next_rem = (len + rem) % step;
        vstd::arithmetic::div_mod::lemma_mod_pos_bound((len + rem) as int, step as int);
        if len == 0 {
            lemma_samples_in_range(f, pts, i + 1, rem, step, lo, hi);
            assert(samples_from(f, pts, i, rem, step) == samples_from(f, pts, i + 1, rem, step));
        } else {
            lemma_samples_in_range(f, pts, i + 1, next_rem, step, lo, hi);
            let e = edge_samples(pts[i], pts[i + 1], len, rem, step);
            let n = (len + rem) / step;
            vstd::arithmetic::div_mod::lemma_fundamental_div_mod((len + rem) as int, step as int);
            vstd::arithmetic::div_mod::lemma_mod_pos_bound((len + rem) as int, step as int);
            assert forall|k: int| 0 <= k < e.len() implies in_range(#[trigger] e[k], lo, hi) by {
                let d = (k + 1) * step - rem;
                assert(step <= (k + 1) * step <= n * step) by (nonlinear_arith)
                    requires
                        0 <= k < n,
                        step > 0,
                ;
                assert(n * step <= len + rem) by (nonlinear_arith)
                    requires
                        len + rem == step * n + ((len + rem) as int) % (step as int),
                        ((len + rem) as int) % (step as int) >= 0,
                ;
                lemma_lerp_between(pts[i].lat as int, pts[i + 1].lat as int, d, len as int);
                lemma_lerp_between(pts[i].lon as int, pts[i + 1].lon as int, d, len as int);
                assert(in_range(pts[i], lo, hi) && in_range(pts[i + 1], lo, hi));
            }
            let rest = samples_from(f, pts, i + 1, next_rem, step);
            assert(samples_from(f, pts, i, rem, step) == e + rest);
            assert forall|k: int| 0 <= k < (e + rest).len() implies in_range(#[trigger] (e + rest)[k], lo, hi) by {
                if k < e.len() {
                    assert((e + rest)[k] == e[k]);
                } else {
                    assert((e + rest)[k] == rest[k - e.len()]);
                }
            }
        }
    }
}

/// All points of `pts` lie beyond the same edge of the box `b`.
pub open spec fn wholly_outside(b: BBox, pts: Seq<Point>) -> bool {
    ||| forall|k: int| 0 <= k < pts.len() ==> (#[trigger] pts[k]).lat > b.north
    ||| forall|k: int| 0 <= k < pts.len() ==> (#[trigger] pts[k]).lat < b.south
    ||| forall|k: int| 0 <= k < pts.len() ==> (#[trigger] pts[k]).lon > b.east
    ||| forall|k: int| 0 <= k < pts.len() ==> (#[trigger] pts[k]).lon < b.west
}

/// A segment lying wholly beyond one edge of the bounding box touches no
/// cell, so its cell list is empty and it gives no trail length to any cell.
pub proof fn lemma_outside_touches_nothing(g: GridConfig, geometry: Seq<Point>, ids: Seq<usize>, len: nat)
    requires
        g.wf(),
        all_wf(geometry),
        wholly_outside(g.bbox, geometry),
        is_cell_list(g, geometry, ids),
    ensures
        ids.len() == 0,
        forall|c: int| contribution(ids, len, c) == 0,
{
    let b = g.bbox;
    let (lo, hi) = if forall|k: int| 0 <= k < geometry.len() ==> (#[trigger] geometry[k]).lat > b.north {
        (Point { lat: (b.north + 1) as i64, lon: (-LON_LIMIT) as i64 }, Point { lat: i64::MAX, lon: LON_LIMIT })
    } else if forall|k: int| 0 <= k < geometry.len() ==> (#[trigger] geometry[k]).lat < b.south {
        (Point { lat: i64::MIN, lon: (-LON_LIMIT) as i64 }, Point { lat: (b.south - 1) as i64, lon: LON_LIMIT })
    } else if forall|k: int| 0 <= k < geometry.len() ==> (#[trigger] geometry[k]).lon > b.east {
        (Point { lat: (-LAT_LIMIT) as i64, lon: (b.east + 1) as i64 }, Point { lat: LAT_LIMIT, lon: i64::MAX })
    } else {
        (Point { lat: (-LAT_LIMIT) as i64, lon: i64::MIN }, Point { lat: LAT_LIMIT, lon: (b.west - 1) as i64 })
    };
    assert forall|k: int| 0 <= k < geometry.len() implies in_range(#[trigger] geometry[k], lo, hi) by {
        assert(geometry[k].wf());
    }
    let samples = discretized(g.frame, geometry, GRID_STEP_UM as nat);
    if geometry.len() >= 2 {
        let mid = samples_from(g.frame, geometry, 0, 0, GRID_STEP_UM as nat);
        lemma_samples_in_range(g.frame, geometry, 0, 0, GRID_STEP_UM as nat, lo, hi);
        assert(samples == seq![geometry[0]] + mid + seq![geometry[geometry.len() - 1]]);
        assert forall|k: int| 0 <= k < samples.len() implies in_range(#[trigger] samples[k], lo, hi) by {
            if k == 0 {
            } else if k <= mid.len() {
                assert(samples[k] == mid[k - 1]);
            } else {
                assert(samples[k] == geometry[geometry.len() - 1]);
            }
        }
    }
    assert forall|k: int| 0 <= k < samples.len() implies g.cell_at(#[trigger] samples[k]).is_none() by {
        assert(in_range(samples[k], lo, hi));
    }
    if ids.len() > 0 {
        assert(ids.contains(ids[0]));
        let k = choose|k: int| 0 <= k < samples.len() && g.cell_at(#[trigger] samples[k]) == Some(ids[0] as int);
    }
}

/// The cell list of a segment is determined by the grid and the segment.
proof fn lemma_cell_list_unique(a: Seq<usize>, b: Seq<usize>)
    requires
        strictly_increasing(a),
        strictly_increasing(b),
        forall|c: usize| a.contains(c) <==> b.contains(c),
    ensures
        a == b,
    decreases a.len() + b.len(),
{
    if a.len() > 0 && b.len() > 0 {
        let x = a.last();
        let y = b.last();
        assert(a.contains(x));
        assert(b.contains(y));
        let i = choose|i: int| 0 <= i < b.len() && b[i] == x;
        let j = choose|j: int| 0 <= j < a.len() && a[j] == y;
        assert(x == y) by {
            if i < b.len() - 1 {
                assert(b[i] < b[b.len() - 1]);
            }
            if j < a.len() - 1 {
                assert(a[j] < a[a.len() - 1]);
            }
        }
        let a2 = a.drop_last();
        let b2 = b.drop_last();
        assert forall|c: usize| a2.contains(c) <==> b2.contains(c) by {
            if a2.contains(c) {
                let k = choose|k: int| 0 <= k < a2.len() && a2[k] == c;
                assert(a[k] < a[a.len() - 1]);
                assert(b.contains(c));
                let m = choose|m: int| 0 <= m < b.len() && b[m] == c;
                assert(m != b.len() - 1);
                assert(b2[m] == c);
            }
            if b2.contains(c) {
                let k = choose|k: int| 0 <= k < b2.len() && b2[k] == c;
                assert(b[k] < b[b.len() - 1]);
                assert(a.contains(c));
                let m = choose|m: int| 0 <= m < a.len() && a[m] == c;
                assert(m != a.len() - 1);
                assert(a2[m] == c);
            }
        }
        lemma_cell_list_unique(a2, b2);
        assert(a =~= a2.push(x));
        assert(b =~= b2.push(y));
    } else if a.len() > 0 {
        assert(a.contains(a[0]));
    } else if b.len() > 0 {
        assert(b.contains(b[0]));
    }
}

/// What `compute_grid` promises of its result `r` for the grid `g`, the
/// segments `segments` and their coverage `coverage`.
pub open spec fn grid_outcome(g: GridConfig, segments: Seq<Segment>, coverage: Seq<SegmentCoverage>, r: GridResult) -> bool {
    &&& r.config == g
    &&& r.segment_cells@.len() == segments.len()
    &&& forall|s: int| 0 <= s < segments.len() ==> is_cell_list(g, segments[s].geometry@, #[trigger] r.segment_cells@[s]@)
    &&& r.cells@.len() == g.size()
    &&& forall|c: int|
        0 <= c < g.size() ==> {
            let cell = #[trigger] r.cells@[c];
            &&& cell.id == c
            &&& cell.row == c / (g.cols as int)
            &&& cell.col == c % (g.cols as int)
            &&& cell_agrees(cell, cell_totals(cell_lists(r.segment_cells@), coverage, c, segments.len() as int))
        }
}

/// A run is deterministic: segmenting the same trails, matching the same
/// activities and aggregating onto the same grid twice gives the same
/// segments in the same order, the same coverage, the same cell lists and
/// the same values in every cell.
pub proof fn lemma_run_deterministic(
    f: Frame,
    ways: Seq<Trail>,
    acts: Seq<Activity>,
    g: GridConfig,
    s1: Seq<Segment>,
    s2: Seq<Segment>,
    c1: Seq<SegmentCoverage>,
    c2: Seq<SegmentCoverage>,
    r1: GridResult,
    r2: GridResult,
)
    requires
        geometries(s1) == network_segments(ways, ways.len() as int),
        geometries(s2) == network_segments(ways, ways.len() as int),
        c1.len() == s1.len(),
        c2.len() == s2.len(),
        forall|i: int| 0 <= i < c1.len() ==> #[trigger] c1[i] == coverage_of(
            f, trace_points(f, acts, acts.len() as int), s1[i].geometry@, MATCH_RADIUS_UM as nat),
        forall|i: int| 0 <= i < c2.len() ==> #[trigger] c2[i] == coverage_of(
            f, trace_points(f, acts, acts.len() as int), s2[i].geometry@, MATCH_RADIUS_UM as nat),
        grid_outcome(g, s1, c1, r1),
        grid_outcome(g, s2, c2, r2),
    ensures
        geometries(s1) == geometries(s2),
        c1 == c2,
        cell_lists(r1.segment_cells@) == cell_lists(r2.segment_cells@),
        forall|c: int|
            0 <= c < g.size() ==> {
                let a = #[trigger] r1.cells@[c];
                let b = r2.cells@[c];
                &&& a.id == b.id && a.row == b.row && a.col == b.col
                &&& a.has_trail == b.has_trail && a.visited == b.visited
                &&& a.trail_um == b.trail_um && a.covered_um == b.covered_um
                &&& a.segment_ids@ == b.segment_ids@
            },
{
    assert(geometries(s1).len() == s1.len());
    assert(geometries(s2).len() == s2.len());
    assert forall|i: int| 0 <= i < s1.len() implies #[trigger] s1[i].geometry@ == s2[i].geometry@ by {
        assert(geometries(s1)[i] == geometries(s2)[i]);
    }
    assert(c1 =~= c2);
    let l1 = cell_lists(r1.segment_cells@);
    let l2 = cell_lists(r2.segment_cells@);
    assert forall|s: int| 0 <= s < l1.len() implies l1[s] == l2[s] by {
        assert(is_cell_list(g, s1[s].geometry@, r1.segment_cells@[s]@));
        assert(is_cell_list(g, s2[s].geometry@, r2.segment_cells@[s]@));
        assert(s1[s].geometry@ == s2[s].geometry@);
        lemma_cell_list_unique(l1[s], l2[s]);
    }
    assert(l1 =~= l2);
}


/// Whether a recorded track is kept for matching: it has at least two
/// points and one of them lies in the box `b`.
pub fn track_in_bbox(b: &BBox, pts: &Vec<Point>) -> (r: bool)
    ensures
        r == (pts@.len() >= 2 && exists|i: int| 0 <= i < pts@.len() && b.contains(#[trigger] pts@[i])),
{
    if pts.len() < 2 {
        return false;
    }
    let mut i: usize = 0;
    while i < pts.len()
        invariant
            pts@.len() >= 2,
            i <= pts@.len(),
            forall|j: int| 0 <= j < i ==> !b.contains(#[trigger] pts@[j]),
        decreases pts.len() - i,
    {
        let p = &pts[i];
        if b.south <= p.lat && p.lat <= b.north && b.west <= p.lon && p.lon <= b.east {
            assert(b.contains(pts@[i as int]));
            return true;
        }
        i = i + 1;
    }
    false
}

} // verus!
