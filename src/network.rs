//! Splitting a trail network into segments at its junctions.
//!
//! A junction is a node id that occurs at least twice over the node lists of
//! all trails. Each trail is cut at every interior junction; the pieces, in
//! trail order and along each trail, form the segment list.
use vstd::prelude::*;
use std::collections::HashMap;
use crate::geo::{Point, all_wf};

verus! {

broadcast use vstd::std_specs::hash::group_hash_axioms;

/// A trail as it comes from the mapping source: its node ids and, in the same
/// order, the positions of those nodes.
#[derive(Debug, Clone)]
pub struct Trail {
    pub id: i64,
    pub name: Option<String>,
    pub nodes: Vec<i64>,
    pub geometry: Vec<Point>,
}

/// A piece of a trail between two junctions, or between a junction and an
/// end of the trail.
#[derive(Debug, Clone)]
pub struct Segment {
    pub geometry: Vec<Point>,
}

/// The geometries of `segs`.
pub open spec fn geometries(segs: Seq<Segment>) -> Seq<Seq<Point>> {
    Seq::new(segs.len(), |i: int| segs[i].geometry@)
}

/// A trail takes part in segmentation: as many nodes as positions, and at
/// least two of them.
pub open spec fn is_usable(t: Trail) -> bool {
    t.nodes@.len() == t.geometry@.len() && t.geometry@.len() >= 2
}

/// Number of occurrences of `n` in `s`.
pub open spec fn count_in(s: Seq<i64>, n: i64) -> nat
    decreases s.len(),
{
    if s.len() == 0 {
        0
    } else {
        count_in(s.drop_last(), n) + if s.last() == n { 1nat } else { 0nat }
    }
}

/// Number of occurrences of node `n` over the node lists of all of `ways`.
pub open spec fn occurrences(ways: Seq<Trail>, n: i64) -> nat
    decreases ways.len(),
{
    if ways.len() == 0 {
        0
    } else {
        occurrences(ways.drop_last(), n) + count_in(ways.last().nodes@, n)
    }
}

/// Node `n` is shared: it occurs at least twice over all node lists.
pub open spec fn is_junction(ways: Seq<Trail>, n: i64) -> bool {
    occurrences(ways, n) >= 2
}

/// The indices `1 <= j < i` at which `nodes` holds a junction, ascending.
pub open spec fn interior_cuts(ways: Seq<Trail>, nodes: Seq<i64>, i: int) -> Seq<int>
    decreases i,
{
    if i <= 1 {
        seq![]
    } else {
        let c = interior_cuts(ways, nodes, i - 1);
        if is_junction(ways, nodes[i - 1]) {
            c.push(i - 1)
        } else {
            c
        }
    }
}

/// The cut indices of a node list: its first index, its interior junctions,
/// its last index.
pub open spec fn cut_points(ways: Seq<Trail>, nodes: Seq<i64>) -> Seq<int> {
    seq![0int] + interior_cuts(ways, nodes, nodes.len() - 1) + seq![nodes.len() - 1]
}

/// The pieces of `pts` between consecutive cut indices, each cut index
/// closing one piece and opening the next.
pub open spec fn pieces(pts: Seq<Point>, cuts: Seq<int>) -> Seq<Seq<Point>> {
    Seq::new((cuts.len() - 1) as nat, |j: int| pts.subrange(cuts[j], cuts[j + 1] + 1))
}

/// The segments of one trail of the network `ways`.
pub open spec fn trail_segments(ways: Seq<Trail>, t: Trail) -> Seq<Seq<Point>> {
    if is_usable(t) {
        pieces(t.geometry@, cut_points(ways, t.nodes@))
    } else {
        seq![]
    }
}

/// The segments of the first `k` trails of the network `ways`, in order.
pub open spec fn network_segments(ways: Seq<Trail>, k: int) -> Seq<Seq<Point>>
    decreases k,
{
    if k <= 0 {
        seq![]
    } else {
        network_segments(ways, k - 1) + trail_segments(ways, ways[k - 1])
    }
}

/// The node id of every trail, mapped to its number of occurrences over all
/// node lists, capped at two.
fn count_nodes(ways: &Vec<Trail>) -> (counts: HashMap<i64, u8>)
    ensures
        counts_of(counts@, ways@),
{
    let mut counts: HashMap<i64, u8> = HashMap::new();
    let mut w: usize = 0;
    while w < ways.len()
        invariant
            w <= ways@.len(),
            forall|n: i64|
                #![trigger counts@.contains_key(n)]
                (counts@.contains_key(n) <==> occurrences(ways@.take(w as int), n) > 0)
                && (counts@.contains_key(n) ==> counts@[n] as nat == if occurrences(ways@.take(w as int), n) >= 2 { 2nat } else { 1nat }),
        decreases ways.len() - w,
    {
        let nodes = &ways[w].nodes;
        let ghost done = ways@.take(w as int);
        let mut j: usize = 0;
        while j < nodes.len()
            invariant
                w < ways@.len(),
                *nodes == ways@[w as int].nodes,
                done == ways@.take(w as int),
                j <= nodes@.len(),
                forall|n: i64|
                    #![trigger counts@.contains_key(n)]
                    (counts@.contains_key(n) <==> occurrences(done, n) + count_in(nodes@.take(j as int), n) > 0)
                    && (counts@.contains_key(n) ==> counts@[n] as nat == if occurrences(done, n) + count_in(nodes@.take(j as int), n) >= 2 { 2nat } else { 1nat }),
            decreases nodes.len() - j,
        {
            let id = nodes[j];
            let ghost before = counts@;
            assert(nodes@.take(j as int + 1).drop_last() =~= nodes@.take(j as int));
            let c: u8 = match counts.get(&id) {
                Some(c) => *c,
                None => 0,
            };
            if c < 2 {
                counts.insert(id, c + 1);
            }
            assert forall|n: i64|
                #![trigger counts@.contains_key(n)]
                (counts@.contains_key(n) <==> occurrences(done, n) + count_in(nodes@.take(j as int + 1), n) > 0)
                && (counts@.contains_key(n) ==> counts@[n] as nat == if occurrences(done, n) + count_in(nodes@.take(j as int + 1), n) >= 2 { 2nat } else { 1nat }) by {
                assert(before.contains_key(n) ==> before.contains_key(n));
            }
            j = j + 1;
        }
        assert(ways@.take(w as int + 1).drop_last() =~= done);
        assert(nodes@.take(nodes@.len() as int) =~= nodes@);
        w = w + 1;
    }
    assert(ways@.take(ways@.len() as int) =~= ways@);
    counts
}


/// Every segment of `segs` holds valid positions only.
pub open spec fn segments_wf(segs: Seq<Segment>) -> bool {
    forall|j: int| 0 <= j < segs.len() ==> all_wf(#[trigger] segs[j].geometry@)
}

/// Every trail of `ways` holds valid positions only.
pub open spec fn trails_wf(ways: Seq<Trail>) -> bool {
    forall|k: int| 0 <= k < ways.len() ==> all_wf(#[trigger] ways[k].geometry@)
}

/// `counts` maps each node id of `ways` to its occurrences, capped at two.
pub open spec fn counts_of(counts: Map<i64, u8>, ways: Seq<Trail>) -> bool {
    forall|n: i64|
        #![trigger counts.contains_key(n)]
        (counts.contains_key(n) <==> occurrences(ways, n) > 0)
        && (counts.contains_key(n) ==> counts[n] as nat == if occurrences(ways, n) >= 2 { 2nat } else { 1nat })
}

/// A copy of `v[lo..hi]`.
fn copy_range(v: &Vec<Point>, lo: usize, hi: usize) -> (r: Vec<Point>)
    requires
        lo <= hi <= v@.len(),
    ensures
        r@ == v@.subrange(lo as int, hi as int),
{
    let mut r: Vec<Point> = Vec::new();
    let mut i: usize = lo;
    while i < hi
        invariant
            lo <= i <= hi <= v@.len(),
            r@ == v@.subrange(lo as int, i as int),
        decreases hi - i,
    {
        r.push(v[i]);
        assert(v@.subrange(lo as int, i as int + 1) =~= v@.subrange(lo as int, i as int).push(v@[i as int]));
        i = i + 1;
    }
    r
}

/// Appends the segments of the usable trail `t` to `out`.
fn push_trail_segments(counts: &HashMap<i64, u8>, ways: Ghost<Seq<Trail>>, t: &Trail, out: &mut Vec<Segment>)
    requires
        counts_of(counts@, ways@),
        is_usable(*t),
    ensures
        geometries(final(out)@) == geometries(old(out)@) + trail_segments(ways@, *t),
        segments_wf(old(out)@) && all_wf(t.geometry@) ==> segments_wf(final(out)@),
{
    let nodes = &t.nodes;
    let pts = &t.geometry;
    let len = pts.len();
    let ghost base = geometries(out@);
    let ghost wf_in = segments_wf(out@) && all_wf(t.geometry@);
    let ghost starts: Seq<int> = seq![0int];
    let mut start: usize = 0;
    let mut i: usize = 1;
    assert(starts =~= seq![0int] + interior_cuts(ways@, nodes@, 1));
    assert(geometries(out@) =~= base + pieces(pts@, starts));
    while i + 1 < len
        invariant
            counts_of(counts@, ways@),
            len == pts@.len(),
            nodes@.len() == len,
            1 <= i <= len - 1,
            start < i,
            starts == seq![0int] + interior_cuts(ways@, nodes@, i as int),
            start == starts.last(),
            geometries(out@) == base + pieces(pts@, starts),
            wf_in ==> segments_wf(out@),
            wf_in ==> all_wf(pts@),
        decreases len - i,
    {
        let id = nodes[i];
        let junction = match counts.get(&id) {
            Some(c) => *c >= 2,
            None => false,
        };
        if junction {
            let g = copy_range(pts, start, i + 1);
            let ghost before = out@;
            out.push(Segment { geometry: g });
            proof {
                let ns = starts.push(i as int);
                assert(pieces(pts@, ns) =~= pieces(pts@, starts).push(g@));
                assert(geometries(out@) =~= geometries(before).push(g@));
                starts = ns;
            }
            start = i;
        }
        i = i + 1;
    }
    let g = copy_range(pts, start, len);
    let ghost before = out@;
    out.push(Segment { geometry: g });
    proof {
        let ns = starts.push(len - 1);
        assert(ns =~= cut_points(ways@, nodes@));
        assert(pieces(pts@, ns) =~= pieces(pts@, starts).push(g@));
        assert(geometries(out@) =~= geometries(before).push(g@));
    }
}

/// Splits the trail network `ways` into segments at its junctions. Trails
/// whose node and position lists differ in length, or that have fewer than
/// two positions, contribute no segment.
pub fn segment_trails(ways: &Vec<Trail>) -> (segments: Vec<Segment>)
    ensures
        geometries(segments@) == network_segments(ways@, ways@.len() as int),
        trails_wf(ways@) ==> segments_wf(segments@),
{
    let counts = count_nodes(ways);
    let mut out: Vec<Segment> = Vec::new();
    let mut k: usize = 0;
    assert(geometries(out@) =~= network_segments(ways@, 0));
    while k < ways.len()
        invariant
            counts_of(counts@, ways@),
            k <= ways@.len(),
            geometries(out@) == network_segments(ways@, k as int),
            trails_wf(ways@) ==> segments_wf(out@),
        decreases ways.len() - k,
    {
        let t = &ways[k];
        if t.nodes.len() == t.geometry.len() && t.geometry.len() >= 2 {
            push_trail_segments(&counts, Ghost(ways@), t, &mut out);
        } else {
            assert(trail_segments(ways@, *t) =~= seq![]);
        }
        assert(network_segments(ways@, k as int + 1) =~= network_segments(ways@, k as int) + trail_segments(ways@, ways@[k as int]));
        k = k + 1;
    }
    out
}


/// The pieces `ps` joined in order, each piece after the first without its
/// first point (the cut point it shares with the piece before).
pub open spec fn rejoined(ps: Seq<Seq<Point>>) -> Seq<Point>
    decreases ps.len(),
{
    if ps.len() == 0 {
        seq![]
    } else if ps.len() == 1 {
        ps[0]
    } else {
        rejoined(ps.drop_last()) + ps.last().drop_first()
    }
}

/// Cut indices that start at 0, strictly increase and stay below `len`.
pub open spec fn is_cut_list(cuts: Seq<int>, len: int) -> bool {
    &&& cuts.len() >= 2
    &&& cuts[0] == 0
    &&& forall|j: int| 0 <= j < cuts.len() ==> 0 <= #[trigger] cuts[j] < len
    &&& forall|j: int| 0 <= j < cuts.len() - 1 ==> #[trigger] cuts[j] < cuts[j + 1]
}

proof fn lemma_interior_cuts_range(ways: Seq<Trail>, nodes: Seq<i64>, i: int)
    ensures
        forall|j: int| 0 <= j < interior_cuts(ways, nodes, i).len() ==> 1 <= #[trigger] interior_cuts(ways, nodes, i)[j] < i,
        forall|j: int| 0 <= j < interior_cuts(ways, nodes, i).len() - 1
            ==> #[trigger] interior_cuts(ways, nodes, i)[j] < interior_cuts(ways, nodes, i)[j + 1],
    decreases i,
{
    if i > 1 {
        lemma_interior_cuts_range(ways, nodes, i - 1);
        let c = interior_cuts(ways, nodes, i - 1);
        let r = interior_cuts(ways, nodes, i);
        if is_junction(ways, nodes[i - 1]) {
            assert(r == c.push(i - 1));
            assert forall|j: int| 0 <= j < r.len() implies 1 <= #[trigger] r[j] < i by {
                if j < c.len() {
                    assert(r[j] == c[j]);
                }
            }
            assert forall|j: int| 0 <= j < r.len() - 1 implies #[trigger] r[j] < r[j + 1] by {
                assert(r[j] == c[j]);
                if j + 1 < c.len() {
                    assert(r[j + 1] == c[j + 1]);
                }
            }
        } else {
            assert(r == c);
        }
    }
}

proof fn lemma_cut_points(ways: Seq<Trail>, nodes: Seq<i64>)
    requires
        nodes.len() >= 2,
    ensures
        is_cut_list(cut_points(ways, nodes), nodes.len() as int),
        cut_points(ways, nodes).last() == nodes.len() - 1,
{
    let inner = interior_cuts(ways, nodes, nodes.len() - 1);
    lemma_interior_cuts_range(ways, nodes, nodes.len() - 1);
    let c = cut_points(ways, nodes);
    assert forall|j: int| 0 <= j < c.len() implies 0 <= #[trigger] c[j] < nodes.len() by {
        if 0 < j < c.len() - 1 {
            assert(c[j] == inner[j - 1]);
        }
    }
    assert forall|j: int| 0 <= j < c.len() - 1 implies #[trigger] c[j] < c[j + 1] by {
        if j == 0 {
            if inner.len() > 0 {
                assert(c[1] == inner[0]);
            }
        } else if j < c.len() - 2 {
            assert(c[j] == inner[j - 1] && c[j + 1] == inner[j]);
        } else {
            assert(c[j] == inner[j - 1]);
        }
    }
}

proof fn lemma_rejoin_pieces(pts: Seq<Point>, cuts: Seq<int>)
    requires
        is_cut_list(cuts, pts.len() as int),
    ensures
        rejoined(pieces(pts, cuts)) == pts.subrange(0, cuts.last() + 1),
    decreases cuts.len(),
{
    let ps = pieces(pts, cuts);
    if cuts.len() == 2 {
        assert(ps.len() == 1);
    } else {
        let shorter = cuts.drop_last();
        assert(is_cut_list(shorter, pts.len() as int)) by {
            assert forall|j: int| 0 <= j < shorter.len() - 1 implies #[trigger] shorter[j] < shorter[j + 1] by {
                assert(cuts[j] < cuts[j + 1]);
            }
        }
        lemma_rejoin_pieces(pts, shorter);
        assert(ps.drop_last() =~= pieces(pts, shorter));
        let m = cuts.len() - 1;
        assert(cuts[m - 1] < cuts[m]);
        assert(pts.subrange(0, cuts[m - 1] + 1) + ps.last().drop_first() =~= pts.subrange(0, cuts.last() + 1));
    }
}

/// A usable trail none of whose interior nodes is a junction of the network
/// `ways` yields exactly one segment: its whole geometry.
pub proof fn lemma_no_junction_one_segment(ways: Seq<Trail>, t: Trail)
    requires
        is_usable(t),
        forall|i: int| 0 < i < t.nodes@.len() - 1 ==> !is_junction(ways, #[trigger] t.nodes@[i]),
    ensures
        trail_segments(ways, t) == seq![t.geometry@],
{
    let nodes = t.nodes@;
    let pts = t.geometry@;
    lemma_no_cuts(ways, nodes, nodes.len() - 1);
    let c = cut_points(ways, nodes);
    assert(c =~= seq![0int, nodes.len() - 1]);
    assert(pts.subrange(0, pts.len() as int) =~= pts);
    let ps = pieces(pts, c);
    assert(ps.len() == 1);
    assert(ps[0] == pts);
    assert(ps =~= seq![pts]);
}

proof fn lemma_no_cuts(ways: Seq<Trail>, nodes: Seq<i64>, i: int)
    requires
        i <= nodes.len() - 1,
        forall|j: int| 0 < j < nodes.len() - 1 ==> !is_junction(ways, #[trigger] nodes[j]),
    ensures
        interior_cuts(ways, nodes, i) == Seq::<int>::empty(),
    decreases i,
{
    if i > 1 {
        lemma_no_cuts(ways, nodes, i - 1);
        assert(!is_junction(ways, nodes[i - 1]));
    }
}

/// The segments of a usable trail, joined in order with each shared cut
/// point taken once, give back the trail's geometry; each segment has at
/// least two points and ends where the next one starts.
pub proof fn lemma_segments_rejoin(ways: Seq<Trail>, t: Trail)
    requires
        is_usable(t),
    ensures
        rejoined(trail_segments(ways, t)) == t.geometry@,
        forall|j: int| 0 <= j < trail_segments(ways, t).len() ==> #[trigger] trail_segments(ways, t)[j].len() >= 2,
        forall|j: int| 0 <= j < trail_segments(ways, t).len() - 1
            ==> #[trigger] trail_segments(ways, t)[j].last() == trail_segments(ways, t)[j + 1][0],
{
    let pts = t.geometry@;
    let c = cut_points(ways, t.nodes@);
    lemma_cut_points(ways, t.nodes@);
    lemma_rejoin_pieces(pts, c);
    assert(pts.subrange(0, pts.len() as int) =~= pts);
    let ps = pieces(pts, c);
    assert(ps == trail_segments(ways, t));
    assert forall|j: int| 0 <= j < ps.len() implies #[trigger] ps[j].len() >= 2 by {
        assert(c[j] < c[j + 1]);
        assert(0 <= c[j] && c[j + 1] < pts.len());
    }
    assert forall|j: int| 0 <= j < ps.len() - 1 implies #[trigger] ps[j].last() == ps[j + 1][0] by {
        assert(c[j] < c[j + 1]);
        assert(c[j + 1] < c[j + 2]);
        assert(0 <= c[j] && c[j + 2] < pts.len());
    }
}

} // verus!
