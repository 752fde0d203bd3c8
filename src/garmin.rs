//! Decisions taken while syncing activities from the device service: which
//! activities carry no GPS track, and which start near the area.
use vstd::prelude::*;
use vstd::string::*;
use crate::geo::Point;
use crate::grid::BBox;

verus! {

/// How far, in units of 1e-7 degree, an activity may start outside the
/// bounding box and still be fetched (0.15 degree, about 15 km).
pub const COORD_BUFFER: i64 = 1_500_000;

/// `s` with every trailing `...` (a truncation mark) removed.
pub open spec fn trim_dots(s: Seq<char>) -> Seq<char>
    decreases s.len(),
{
    if s.len() >= 3 && s.subrange(s.len() - 3, s.len() as int) == "..."@ {
        trim_dots(s.subrange(0, s.len() - 3))
    } else {
        s
    }
}

/// `p` is a prefix of `s`.
pub open spec fn has_prefix(s: Seq<char>, p: Seq<char>) -> bool {
    p.len() <= s.len() && s.subrange(0, p.len() as int) == p
}

/// An activity type that records no GPS track: strength, indoor, treadmill,
/// yoga or breathwork work, or the distance `0.00` shown in its place.
pub open spec fn indoor_type(s: Seq<char>) -> bool {
    let t = trim_dots(s);
    has_prefix(t, "strength"@) || has_prefix(t, "indoor"@) || has_prefix(t, "treadmill"@)
        || has_prefix(t, "yoga"@) || has_prefix(t, "breathwork"@) || t == "0.00"@
}

/// Whether the first `len` characters of `s` start with `p`.
fn starts_with_within(s: &str, len: usize, p: &str) -> (r: bool)
    requires
        len <= s@.len(),
    ensures
        r == has_prefix(s@.subrange(0, len as int), p@),
{
    let n = p.unicode_len();
    if n > len {
        return false;
    }
    let mut i: usize = 0;
    while i < n
        invariant
            n == p@.len(),
            n <= len <= s@.len(),
            i <= n,
            forall|j: int| 0 <= j < i ==> s@[j] == p@[j],
        decreases n - i,
    {
        if s.get_char(i) != p.get_char(i) {
            assert(s@.subrange(0, len as int).subrange(0, n as int)[i as int] != p@[i as int]);
            return false;
        }
        i = i + 1;
    }
    assert(s@.subrange(0, len as int).subrange(0, n as int) =~= p@);
    true
}

/// Whether the activity type `activity_type`, as the activity list shows it
/// (possibly cut short with `...`), records no GPS track.
pub fn is_indoor_activity(activity_type: &str) -> (r: bool)
    ensures
        r == indoor_type(activity_type@),
{
    let s = activity_type;
    let ghost full = s@;
    let mut end: usize = s.unicode_len();
    proof {
        reveal_strlit("...");
        assert(full.subrange(0, end as int) =~= full);
    }
    while end >= 3 && s.get_char(end - 3) == '.' && s.get_char(end - 2) == '.' && s.get_char(end - 1) == '.'
        invariant
            end <= full.len(),
            full == s@,
            trim_dots(full.subrange(0, end as int)) == trim_dots(full),
        decreases end,
    {
        proof {
            reveal_strlit("...");
            let t = full.subrange(0, end as int);
            assert(t.subrange(t.len() - 3, t.len() as int) =~= "..."@);
            assert(t.subrange(0, t.len() - 3) =~= full.subrange(0, end - 3));
        }
        end = end - 3;
    }
    proof {
        reveal_strlit("...");
        let t = full.subrange(0, end as int);
        if t.len() >= 3 {
            assert(t.subrange(t.len() - 3, t.len() as int) != "..."@) by {
                if t.subrange(t.len() - 3, t.len() as int) == "..."@ {
                    assert(t.subrange(t.len() - 3, t.len() as int)[0] == '.');
                    assert(t.subrange(t.len() - 3, t.len() as int)[1] == '.');
                    assert(t.subrange(t.len() - 3, t.len() as int)[2] == '.');
                }
            }
        }
        assert(trim_dots(t) == t);
    }
    let zero = "0.00";
    let is_zero = end == zero.unicode_len() && starts_with_within(s, end, zero);
    proof {
        let t = full.subrange(0, end as int);
        if end == zero@.len() {
            assert(t.subrange(0, end as int) =~= t);
        }
    }
    starts_with_within(s, end, "strength") || starts_with_within(s, end, "indoor")
        || starts_with_within(s, end, "treadmill") || starts_with_within(s, end, "yoga")
        || starts_with_within(s, end, "breathwork") || is_zero
}

/// Whether `p` lies within `COORD_BUFFER` of the box `b`.
pub fn is_near_bbox(b: &BBox, p: &Point) -> (r: bool)
    requires
        b.wf(),
    ensures
        r == (b.south - COORD_BUFFER <= p.lat <= b.north + COORD_BUFFER
            && b.west - COORD_BUFFER <= p.lon <= b.east + COORD_BUFFER),
{
    b.south - COORD_BUFFER <= p.lat && p.lat <= b.north + COORD_BUFFER
        && b.west - COORD_BUFFER <= p.lon && p.lon <= b.east + COORD_BUFFER
}


/// A white-space character of the activity list (ASCII white space).
pub open spec fn is_space(c: char) -> bool {
    c == ' ' || c == '\t' || c == '\n' || c == '\r' || c == '\x0B' || c == '\x0C'
}

/// Length of the run of non-space characters that starts `s`.
pub open spec fn word_len(s: Seq<char>) -> nat
    decreases s.len(),
{
    if s.len() == 0 || is_space(s[0]) {
        0
    } else {
        1 + word_len(s.drop_first())
    }
}

/// The white-space separated fields of `s`, in order.
pub open spec fn fields(s: Seq<char>) -> Seq<Seq<char>>
    decreases s.len() via fields_decreases
{
    if s.len() == 0 {
        seq![]
    } else if is_space(s[0]) {
        fields(s.drop_first())
    } else {
        let n = word_len(s);
        seq![s.take(n as int)] + fields(s.skip(n as int))
    }
}

#[via_fn]
proof fn fields_decreases(s: Seq<char>) {
    if s.len() > 0 && !is_space(s[0]) {
        lemma_word_len_bound(s);
    }
}

/// `a` sorts strictly before `b`, character by character.
pub open spec fn str_less(a: Seq<char>, b: Seq<char>) -> bool
    decreases a.len(),
{
    if a.len() == 0 {
        b.len() > 0
    } else if b.len() == 0 {
        false
    } else if a[0] != b[0] {
        (a[0] as u32) < (b[0] as u32)
    } else {
        str_less(a.drop_first(), b.drop_first())
    }
}

/// Every character of `s` is an ASCII digit.
pub open spec fn all_digits(s: Seq<char>) -> bool {
    forall|i: int| 0 <= i < s.len() ==> '0' <= #[trigger] s[i] <= '9'
}

/// What to do with one line of the activity list.
#[derive(Debug, PartialEq, Eq)]
pub enum Row {
    /// Not an activity row: a header, a rule or a short line.
    Skip,
    /// An activity older than the cut-off date; the list is newest first.
    Stop,
    /// An activity to consider: its id, date and type.
    Keep(String, String, String),
}

proof fn lemma_word_len_bound(s: Seq<char>)
    ensures
        word_len(s) <= s.len(),
        forall|i: int| 0 <= i < word_len(s) ==> !is_space(#[trigger] s[i]),
        word_len(s) < s.len() ==> is_space(s[word_len(s) as int]),
    decreases s.len(),
{
    if s.len() > 0 && !is_space(s[0]) {
        lemma_word_len_bound(s.drop_first());
        assert forall|i: int| 0 <= i < word_len(s) implies !is_space(#[trigger] s[i]) by {
            if i > 0 {
                assert(s[i] == s.drop_first()[i - 1]);
            }
        }
    }
}

proof fn lemma_word_len_at(s: Seq<char>, n: int)
    requires
        0 <= n <= s.len(),
        forall|i: int| 0 <= i < n ==> !is_space(#[trigger] s[i]),
        n == s.len() || is_space(s[n]),
    ensures
        word_len(s) == n,
    decreases n,
{
    if n > 0 {
        let t = s.drop_first();
        assert forall|i: int| 0 <= i < n - 1 implies !is_space(#[trigger] t[i]) by {
            assert(t[i] == s[i + 1]);
        }
        if n < s.len() {
            assert(t[n - 1] == s[n]);
        }
        lemma_word_len_at(t, n - 1);
    }
}

fn space_char(c: char) -> (r: bool)
    ensures
        r == is_space(c),
{
    c == ' ' || c == '\t' || c == '\n' || c == '\r' || c == '\x0B' || c == '\x0C'
}

/// The white-space separated fields of `line`.
pub fn split_fields(line: &str) -> (r: Vec<String>)
    ensures
        r@.len() == fields(line@).len(),
        forall|i: int| 0 <= i < r@.len() ==> #[trigger] r@[i]@ == fields(line@)[i],
{
    let len = line.unicode_len();
    let ghost full = line@;
    let ghost mut done: Seq<Seq<char>> = seq![];
    let mut out: Vec<String> = Vec::new();
    let mut i: usize = 0;
    assert(full.skip(0) =~= full);
    while i < len
        invariant
            len == full.len(),
            full == line@,
            i <= len,
            out@.len() == done.len(),
            forall|k: int| 0 <= k < out@.len() ==> #[trigger] out@[k]@ == done[k],
            done + fields(full.skip(i as int)) == fields(full),
        decreases len - i,
    {
        let c = line.get_char(i);
        let ghost rest = full.skip(i as int);
        if space_char(c) {
            assert(rest.drop_first() =~= full.skip(i as int + 1));
            i = i + 1;
        } else {
            let mut j: usize = i + 1;
            while j < len && !space_char(line.get_char(j))
                invariant
                    len == full.len(),
                    full == line@,
                    i < j <= len,
                    forall|k: int| i <= k < j ==> !is_space(#[trigger] full[k]),
                decreases len - j,
            {
                j = j + 1;
            }
            proof {
                assert forall|k: int| 0 <= k < j - i implies !is_space(#[trigger] rest[k]) by {
                    assert(rest[k] == full[i + k]);
                }
                if j < len {
                    assert(rest[j - i] == full[j as int]);
                }
                lemma_word_len_at(rest, j - i);
                assert(rest.take(j - i) =~= full.subrange(i as int, j as int));
                assert(rest.skip(j - i) =~= full.skip(j as int));
            }
            let word = line.substring_char(i, j);
            out.push(String::from_str(word));
            proof {
                let w = full.subrange(i as int, j as int);
                assert(fields(rest) == seq![w] + fields(full.skip(j as int)));
                assert(done.push(w) + fields(full.skip(j as int)) =~= done + fields(rest));
                done = done.push(w);
            }
            i = j;
        }
    }
    assert(fields(full.skip(len as int)) =~= seq![]) by {
        assert(full.skip(len as int).len() == 0);
    }
    assert(done =~= fields(full));
    out
}


/// Whether every character of `s` is an ASCII digit.
fn digits_only(s: &str) -> (r: bool)
    ensures
        r == all_digits(s@),
{
    let n = s.unicode_len();
    let mut i: usize = 0;
    while i < n
        invariant
            n == s@.len(),
            i <= n,
            forall|k: int| 0 <= k < i ==> '0' <= #[trigger] s@[k] <= '9',
        decreases n - i,
    {
        let c = s.get_char(i);
        if !('0' <= c && c <= '9') {
            return false;
        }
        i = i + 1;
    }
    true
}

/// Whether `a` sorts strictly before `b`, character by character.
pub fn str_before(a: &str, b: &str) -> (r: bool)
    ensures
        r == str_less(a@, b@),
{
    let n = a.unicode_len();
    let m = b.unicode_len();
    let mut i: usize = 0;
    assert(a@.skip(0) =~= a@ && b@.skip(0) =~= b@);
    while i < n && i < m && a.get_char(i) == b.get_char(i)
        invariant
            n == a@.len(),
            m == b@.len(),
            i <= n,
            i <= m,
            str_less(a@.skip(i as int), b@.skip(i as int)) == str_less(a@, b@),
        decreases n - i,
    {
        assert(a@.skip(i as int).drop_first() =~= a@.skip(i as int + 1));
        assert(b@.skip(i as int).drop_first() =~= b@.skip(i as int + 1));
        i = i + 1;
    }
    if i == n {
        i < m
    } else if i == m {
        false
    } else {
        (a.get_char(i) as u32) < (b.get_char(i) as u32)
    }
}

/// What to do with the line `line` of the activity list, newest first,
/// when only activities dated `since` or later are wanted: rows whose first
/// field is a number give an id, a date and a type in their first three
/// fields.
pub fn activity_row(line: &str, since: &str) -> (r: Row)
    ensures
        fields(line@).len() < 3 || !all_digits(fields(line@)[0]) ==> r == Row::Skip,
        fields(line@).len() >= 3 && all_digits(fields(line@)[0]) && str_less(fields(line@)[1], since@) ==> r
            == Row::Stop,
        fields(line@).len() >= 3 && all_digits(fields(line@)[0]) && !str_less(fields(line@)[1], since@) ==> match r {
            Row::Keep(id, date, kind) => id@ == fields(line@)[0] && date@ == fields(line@)[1] && kind@ == fields(line@)[2],
            _ => false,
        },
{
    let parts = split_fields(line);
    if parts.len() < 3 || !digits_only(parts[0].as_str()) {
        return Row::Skip;
    }
    if str_before(parts[1].as_str(), since) {
        return Row::Stop;
    }
    Row::Keep(parts[0].clone(), parts[1].clone(), parts[2].clone())
}

} // verus!
