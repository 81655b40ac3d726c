//! The timeline logic of a screen recording: markers, freeze intervals,
//! clip ranges and the parts of each clip that are kept after trimming.
//! Times are whole microseconds.
use vstd::prelude::*;

use crate::text::{
    chars_of, find, find_chars, find_from, lines, parse_seconds_chars, parse_seconds_micros, split_lines,
    split_words, string_of_slice, views, words,
};

verus! {

/// A span of time `[start, end)` in microseconds.
#[derive(Clone, Copy, Debug, PartialEq, Eq, Structural)]
pub struct TimeRange {
    pub start: u64,
    pub end: u64,
}

/// Clips and kept segments shorter than this are dropped (0.1 s).
pub const MIN_SPAN: u64 = 100_000;

/// Two markers closer than this count as one (0.5 s).
pub const MARKER_GAP: u64 = 500_000;

/// Kept segments must be longer than this (0.05 s).
pub const KEEP_SLACK: u64 = 50_000;

pub open spec fn spec_intersect(a: TimeRange, b: TimeRange) -> Option<TimeRange> {
    let start = if a.start >= b.start {
        a.start
    } else {
        b.start
    };
    let end = if a.end <= b.end {
        a.end
    } else {
        b.end
    };
    if end > start {
        Some(TimeRange { start, end })
    } else {
        None
    }
}

/// The overlap of two ranges, when it is not empty.
pub fn intersect(a: TimeRange, b: TimeRange) -> (r: Option<TimeRange>)
    ensures
        r == spec_intersect(a, b),
{
    let start = if a.start >= b.start {
        a.start
    } else {
        b.start
    };
    let end = if a.end <= b.end {
        a.end
    } else {
        b.end
    };
    if end > start {
        Some(TimeRange { start, end })
    } else {
        None
    }
}

// ---------------------------------------------------------------------------
// Stable sorting by start time
// ---------------------------------------------------------------------------

/// Inserts `x` after every element whose start is not greater than its own.
pub open spec fn insert_by_start(s: Seq<TimeRange>, x: TimeRange) -> Seq<TimeRange>
    decreases s.len(),
{
    if s.len() == 0 {
        seq![x]
    } else if x.start < s.last().start {
        insert_by_start(s.drop_last(), x).push(s.last())
    } else {
        s.push(x)
    }
}

/// The stable sort of `s` by start time (insertion sort).
pub open spec fn sort_by_start(s: Seq<TimeRange>) -> Seq<TimeRange>
    decreases s.len(),
{
    if s.len() == 0 {
        s
    } else {
        insert_by_start(sort_by_start(s.drop_last()), s.last())
    }
}

pub open spec fn sorted_by_start(s: Seq<TimeRange>) -> bool {
    forall|i: int, j: int| 0 <= i < j < s.len() ==> s[i].start <= s[j].start
}

pub proof fn lemma_insert_by_start(s: Seq<TimeRange>, x: TimeRange)
    requires
        sorted_by_start(s),
    ensures
        sorted_by_start(insert_by_start(s, x)),
        insert_by_start(s, x).len() == s.len() + 1,
        insert_by_start(s, x).contains(x),
        forall|y: TimeRange| s.contains(y) ==> insert_by_start(s, x).contains(y),
        forall|y: TimeRange| #[trigger]
            insert_by_start(s, x).contains(y) ==> y == x || s.contains(y),
    decreases s.len(),
{
    let r = insert_by_start(s, x);
    if s.len() == 0 {
        assert(r[0] == x);
    } else if x.start < s.last().start {
        let t = insert_by_start(s.drop_last(), x);
        lemma_insert_by_start(s.drop_last(), x);
        assert(r == t.push(s.last()));
        assert forall|i: int, j: int| 0 <= i < j < r.len() implies r[i].start <= r[j].start by {
            if j == r.len() - 1 {
                assert(t.contains(t[i]));
                if t[i] == x {
                } else {
                    assert(s.drop_last().contains(t[i]));
                    let k = choose|k: int| 0 <= k < s.drop_last().len() && s.drop_last()[k] == t[i];
                    assert(s[k] == t[i]);
                }
            }
        }
        assert(r[r.len() - 1] == s.last());
        let tx = choose|k: int| 0 <= k < t.len() && t[k] == x;
        assert(r[tx] == x);
        assert forall|y: TimeRange| s.contains(y) implies r.contains(y) by {
            let k = choose|k: int| 0 <= k < s.len() && s[k] == y;
            if k == s.len() - 1 {
                assert(r[r.len() - 1] == y);
            } else {
                assert(s.drop_last()[k] == y);
                assert(s.drop_last().contains(y));
                let m = choose|m: int| 0 <= m < t.len() && t[m] == y;
                assert(r[m] == y);
            }
        }
        assert forall|y: TimeRange| #[trigger] r.contains(y) implies y == x || s.contains(y) by {
            let k = choose|k: int| 0 <= k < r.len() && r[k] == y;
            if k == r.len() - 1 {
                assert(s[s.len() - 1] == y);
            } else {
                assert(t[k] == y);
                assert(t.contains(y));
                if y != x {
                    let m = choose|m: int| 0 <= m < s.drop_last().len() && s.drop_last()[m] == y;
                    assert(s[m] == y);
                }
            }
        }
    } else {
        assert(r == s.push(x));
        assert(r[r.len() - 1] == x);
        assert forall|y: TimeRange| s.contains(y) implies r.contains(y) by {
            let k = choose|k: int| 0 <= k < s.len() && s[k] == y;
            assert(r[k] == y);
        }
        assert forall|y: TimeRange| #[trigger] r.contains(y) implies y == x || s.contains(y) by {
            let k = choose|k: int| 0 <= k < r.len() && r[k] == y;
            if k < s.len() {
                assert(s[k] == y);
            }
        }
    }
}

/// The stable sort by start orders its input and keeps exactly its elements.
pub proof fn lemma_sort_by_start(s: Seq<TimeRange>)
    ensures
        sorted_by_start(sort_by_start(s)),
        sort_by_start(s).len() == s.len(),
        forall|y: TimeRange| #[trigger] s.contains(y) <==> sort_by_start(s).contains(y),
    decreases s.len(),
{
    if s.len() > 0 {
        let t = sort_by_start(s.drop_last());
        lemma_sort_by_start(s.drop_last());
        lemma_insert_by_start(t, s.last());
        assert forall|y: TimeRange| #[trigger] s.contains(y) <==> sort_by_start(s).contains(y) by {
            if s.contains(y) {
                let k = choose|k: int| 0 <= k < s.len() && s[k] == y;
                if k < s.len() - 1 {
                    assert(s.drop_last()[k] == y);
                    assert(s.drop_last().contains(y));
                }
            }
            if sort_by_start(s).contains(y) && y != s.last() {
                assert(t.contains(y));
                assert(s.drop_last().contains(y));
                let k = choose|k: int| 0 <= k < s.drop_last().len() && s.drop_last()[k] == y;
                assert(s[k] == y);
            }
        }
    }
}

fn insert_range_by_start(v: &mut Vec<TimeRange>, x: TimeRange)
    ensures
        final(v)@ == insert_by_start(old(v)@, x),
{
    let n = v.len();
    let mut j = n;
    assert(v@.take(n as int) =~= v@);
    assert(v@.skip(n as int) =~= Seq::<TimeRange>::empty());
    while j > 0 && x.start < v[j - 1].start
        invariant
            j <= n == v@.len(),
            insert_by_start(v@, x) == insert_by_start(v@.take(j as int), x) + v@.skip(j as int),
        decreases j,
    {
        assert(v@.take(j as int).drop_last() =~= v@.take(j - 1));
        assert(v@.take(j as int).last() == v@[j - 1]);
        assert(v@.skip(j - 1) =~= seq![v@[j - 1]] + v@.skip(j as int));
        assert(insert_by_start(v@.take(j - 1), x).push(v@[j - 1]) + v@.skip(j as int)
            =~= insert_by_start(v@.take(j - 1), x) + v@.skip(j - 1));
        j = j - 1;
    }
    assert(insert_by_start(v@.take(j as int), x) =~= v@.take(j as int).push(x));
    v.insert(j, x);
    assert(final(v)@ =~= insert_by_start(old(v)@, x));
}

/// `removed` sorted stably by start time.
pub fn sort_ranges_by_start(removed: &Vec<TimeRange>) -> (r: Vec<TimeRange>)
    ensures
        r@ == sort_by_start(removed@),
{
    let mut r: Vec<TimeRange> = Vec::new();
    let n = removed.len();
    let mut i: usize = 0;
    assert(removed@.take(0) =~= Seq::<TimeRange>::empty());
    while i < n
        invariant
            n == removed@.len(),
            i <= n,
            r@ == sort_by_start(removed@.take(i as int)),
        decreases n - i,
    {
        assert(removed@.take(i + 1).drop_last() =~= removed@.take(i as int));
        insert_range_by_start(&mut r, removed[i]);
        i = i + 1;
    }
    assert(removed@.take(n as int) =~= removed@);
    r
}

// ---------------------------------------------------------------------------
// Subtracting removed ranges from a clip
// ---------------------------------------------------------------------------

/// The segments of `source` from `cursor` on that the ranges `rs` (in this
/// order) leave uncovered, each longer than `KEEP_SLACK`.
pub open spec fn gaps(rs: Seq<TimeRange>, source: TimeRange, cursor: u64) -> Seq<TimeRange>
    decreases rs.len(),
{
    if rs.len() == 0 {
        if source.end > cursor + KEEP_SLACK {
            seq![TimeRange { start: cursor, end: source.end }]
        } else {
            Seq::<TimeRange>::empty()
        }
    } else {
        match spec_intersect(rs[0], source) {
            None => gaps(rs.drop_first(), source, cursor),
            Some(r) => {
                let lead = if r.start > cursor + KEEP_SLACK {
                    seq![TimeRange { start: cursor, end: r.start }]
                } else {
                    Seq::<TimeRange>::empty()
                };
                let next = if r.end > cursor {
                    r.end
                } else {
                    cursor
                };
                lead + gaps(rs.drop_first(), source, next)
            },
        }
    }
}

/// What is left of `source` once the `removed` ranges are cut out; pieces
/// of `KEEP_SLACK` or less are dropped.
pub open spec fn spec_subtract_ranges(source: TimeRange, removed: Seq<TimeRange>) -> Seq<
    TimeRange,
> {
    gaps(sort_by_start(removed), source, source.start)
}

pub fn subtract_ranges(source: TimeRange, removed: &Vec<TimeRange>) -> (kept: Vec<TimeRange>)
    ensures
        kept@ == spec_subtract_ranges(source, removed@),
{
    let sorted = sort_ranges_by_start(removed);
    let mut kept: Vec<TimeRange> = Vec::new();
    let mut cursor = source.start;
    let n = sorted.len();
    let mut i: usize = 0;
    assert(sorted@.skip(0) =~= sorted@);
    while i < n
        invariant
            n == sorted@.len(),
            i <= n,
            gaps(sorted@, source, source.start) == kept@ + gaps(sorted@.skip(i as int), source, cursor),
        decreases n - i,
    {
        let ghost rest = sorted@.skip(i as int);
        assert(rest.drop_first() =~= sorted@.skip(i + 1));
        assert(rest[0] == sorted@[i as int]);
        match intersect(sorted[i], source) {
            None => {},
            Some(range) => {
                let ghost old_kept = kept@;
                let ghost old_cursor = cursor;
                if range.start > cursor && range.start - cursor > KEEP_SLACK {
                    kept.push(TimeRange { start: cursor, end: range.start });
                }
                if range.end > cursor {
                    cursor = range.end;
                }
                assert(kept@ + gaps(sorted@.skip(i + 1), source, cursor) =~= old_kept + gaps(
                    rest,
                    source,
                    old_cursor,
                ));
            },
        }
        i = i + 1;
    }
    if source.end > cursor && source.end - cursor > KEEP_SLACK {
        kept.push(TimeRange { start: cursor, end: source.end });
    }
    assert(kept@ =~= gaps(sorted@, source, source.start));
    kept
}

pub open spec fn disjoint(a: TimeRange, b: TimeRange) -> bool {
    a.end <= b.start || b.end <= a.start
}

/// The part of `r` inside `source`, if any, does not overlap `g`.
pub open spec fn clear_of(r: TimeRange, source: TimeRange, g: TimeRange) -> bool {
    spec_intersect(r, source) matches Some(x) ==> disjoint(x, g)
}

/// The part of `r` inside `source` is not empty and begins at `t`.
pub open spec fn starts_at(r: TimeRange, source: TimeRange, t: u64) -> bool {
    spec_intersect(r, source) matches Some(x) && x.start == t
}

proof fn lemma_gaps(rs: Seq<TimeRange>, source: TimeRange, cursor: u64)
    requires
        sorted_by_start(rs),
    ensures
        forall|i: int|
            0 <= i < gaps(rs, source, cursor).len() ==> {
                let g = #[trigger] gaps(rs, source, cursor)[i];
                &&& cursor <= g.start
                &&& g.start + KEEP_SLACK < g.end
                &&& g.end <= source.end
                &&& (g.end < source.end ==> exists|k: int|
                    0 <= k < rs.len() && #[trigger] starts_at(rs[k], source, g.end))
            },
        forall|i: int, j: int|
            0 <= i < j < gaps(rs, source, cursor).len() ==> gaps(rs, source, cursor)[i].end
                <= gaps(rs, source, cursor)[j].start,
        forall|i: int, k: int|
            0 <= i < gaps(rs, source, cursor).len() && 0 <= k < rs.len() ==> clear_of(#[trigger] rs[k], source, #[trigger] gaps(rs, source, cursor)[i]),
    decreases rs.len(),
{
    let gs = gaps(rs, source, cursor);
    if rs.len() == 0 {
    } else {
        let tail = rs.drop_first();
        assert(sorted_by_start(tail)) by {
            assert forall|i: int, j: int| 0 <= i < j < tail.len() implies tail[i].start
                <= tail[j].start by {
                assert(tail[i] == rs[i + 1]);
                assert(tail[j] == rs[j + 1]);
            }
        }
        match spec_intersect(rs[0], source) {
            None => {
                lemma_gaps(tail, source, cursor);
                assert forall|i: int| 0 <= i < gs.len() implies {
                    let g = #[trigger] gs[i];
                    g.end < source.end ==> exists|k: int|
                        0 <= k < rs.len() && #[trigger] starts_at(rs[k], source, g.end)
                } by {
                    assert(gs =~= gaps(tail, source, cursor));
                    let g = gaps(tail, source, cursor)[i];
                    if g.end < source.end {
                        let k = choose|k: int|
                            0 <= k < tail.len() && #[trigger] starts_at(tail[k], source, g.end);
                        assert(rs[k + 1] == tail[k]);
                        assert(starts_at(rs[k + 1], source, g.end));
                    }
                }
                assert forall|i: int, k: int|
                    0 <= i < gs.len() && 0 <= k < rs.len() implies clear_of(#[trigger] rs[k], source, #[trigger] gs[i]) by {
                    assert(gs =~= gaps(tail, source, cursor));
                    assert(gs[i] == gaps(tail, source, cursor)[i]);
                    if k > 0 {
                        assert(rs[k] == tail[k - 1]);
                        assert(clear_of(tail[k - 1], source, gaps(tail, source, cursor)[i]));
                    }
                }
            },
            Some(r0) => {
                let next = if r0.end > cursor {
                    r0.end
                } else {
                    cursor
                };
                let lead = if r0.start > cursor + KEEP_SLACK {
                    seq![TimeRange { start: cursor, end: r0.start }]
                } else {
                    Seq::<TimeRange>::empty()
                };
                let rest = gaps(tail, source, next);
                lemma_gaps(tail, source, next);
                assert(gs == lead + rest);
                assert forall|i: int| 0 <= i < gs.len() implies {
                    let g = #[trigger] gs[i];
                    &&& cursor <= g.start
                    &&& g.start + KEEP_SLACK < g.end
                    &&& g.end <= source.end
                    &&& (g.end < source.end ==> exists|k: int|
                        0 <= k < rs.len() && #[trigger] starts_at(rs[k], source, g.end))
                } by {
                    if i < lead.len() {
                        assert(gs[i] == lead[i]);
                        assert(spec_intersect(rs[0], source) == Some(r0));
                        assert(starts_at(rs[0], source, gs[i].end));
                    } else {
                        assert(gs[i] == rest[i - lead.len()]);
                        let g = rest[i - lead.len()];
                        if g.end < source.end {
                            let k = choose|k: int|
                                0 <= k < tail.len() && #[trigger] starts_at(tail[k], source, g.end);
                            assert(rs[k + 1] == tail[k]);
                            assert(starts_at(rs[k + 1], source, g.end));
                        }
                    }
                }
                assert forall|i: int, j: int| 0 <= i < j < gs.len() implies gs[i].end
                    <= gs[j].start by {
                    if i < lead.len() {
                        if j >= lead.len() {
                            assert(gs[j] == rest[j - lead.len()]);
                        }
                    } else {
                        assert(gs[i] == rest[i - lead.len()]);
                        assert(gs[j] == rest[j - lead.len()]);
                    }
                }
                assert forall|i: int, k: int|
                    0 <= i < gs.len() && 0 <= k < rs.len() implies clear_of(#[trigger] rs[k], source, #[trigger] gs[i]) by {
                    if spec_intersect(rs[k], source) is Some {
                        let r = spec_intersect(rs[k], source)->0;
                        if i < lead.len() {
                            assert(gs[i] == lead[i]);
                            if k > 0 {
                                assert(rs[0].start <= rs[k].start);
                            }
                        } else {
                            assert(gs[i] == rest[i - lead.len()]);
                            if k > 0 {
                                assert(rs[k] == tail[k - 1]);
                                assert(clear_of(tail[k - 1], source, rest[i - lead.len()]));
                            }
                        }
                    }
                }
            },
        }
    }
}

/// What `subtract_ranges` keeps lies inside the clip, comes in time order
/// without overlaps, is each longer than `KEEP_SLACK`, and overlaps none of
/// the removed ranges; each kept piece ends where a removed range begins, or
/// at the end of the clip.
pub proof fn lemma_subtract_ranges(source: TimeRange, removed: Seq<TimeRange>)
    ensures
        ({
            let kept = spec_subtract_ranges(source, removed);
            &&& forall|i: int|
                0 <= i < kept.len() ==> {
                    let g = #[trigger] kept[i];
                    &&& source.start <= g.start
                    &&& g.start + KEEP_SLACK < g.end
                    &&& g.end <= source.end
                    &&& (g.end < source.end ==> exists|r: TimeRange|
                        #[trigger] removed.contains(r) && starts_at(r, source, g.end))
                }
            &&& forall|i: int, j: int| 0 <= i < j < kept.len() ==> kept[i].end <= kept[j].start
            &&& forall|i: int, r: TimeRange|
                0 <= i < kept.len() && #[trigger] removed.contains(r) ==> clear_of(r, source, #[trigger] kept[i])
        }),
{
    let s = sort_by_start(removed);
    lemma_sort_by_start(removed);
    lemma_gaps(s, source, source.start);
    let kept = spec_subtract_ranges(source, removed);
    assert forall|i: int| 0 <= i < kept.len() implies {
        let g = #[trigger] kept[i];
        g.end < source.end ==> exists|r: TimeRange| #[trigger]
            removed.contains(r) && starts_at(r, source, g.end)
    } by {
        let g = kept[i];
        if g.end < source.end {
            let k = choose|k: int|
                0 <= k < s.len() && #[trigger] starts_at(s[k], source, g.end);
            assert(s.contains(s[k]));
            assert(removed.contains(s[k]));
        }
    }
    assert forall|i: int, r: TimeRange|
        0 <= i < kept.len() && #[trigger] removed.contains(r) implies clear_of(r, source, #[trigger] kept[i]) by {
        assert(s.contains(r));
        let k = choose|k: int| 0 <= k < s.len() && s[k] == r;
        assert(spec_intersect(s[k], source) == spec_intersect(r, source));
    }
}

/// A stretch `[a, b)` from `cursor` on that no range of `rs` overlaps and
/// that is longer than `KEEP_SLACK` lies within one of the gaps.
proof fn lemma_gaps_complete(rs: Seq<TimeRange>, source: TimeRange, cursor: u64, a: u64, b: u64)
    requires
        cursor <= a,
        a + KEEP_SLACK < b,
        b <= source.end,
        forall|k: int| 0 <= k < rs.len() ==> (#[trigger] rs[k]).end <= a || b <= rs[k].start,
    ensures
        exists|i: int|
            0 <= i < gaps(rs, source, cursor).len() && (#[trigger] gaps(rs, source, cursor)[i]).start
                <= a && b <= gaps(rs, source, cursor)[i].end,
    decreases rs.len(),
{
    let gs = gaps(rs, source, cursor);
    if rs.len() == 0 {
        assert(gs[0].start <= a && b <= gs[0].end);
    } else {
        let tail = rs.drop_first();
        assert forall|k: int| 0 <= k < tail.len() implies (#[trigger] tail[k]).end <= a || b
            <= tail[k].start by {
            assert(tail[k] == rs[k + 1]);
        }
        assert(rs[0].end <= a || b <= rs[0].start);
        match spec_intersect(rs[0], source) {
            None => {
                lemma_gaps_complete(tail, source, cursor, a, b);
            },
            Some(r) => {
                let next = if r.end > cursor {
                    r.end
                } else {
                    cursor
                };
                let lead = if r.start > cursor + KEEP_SLACK {
                    seq![TimeRange { start: cursor, end: r.start }]
                } else {
                    Seq::<TimeRange>::empty()
                };
                let rest = gaps(tail, source, next);
                assert(gs == lead + rest);
                if rs[0].end <= a {
                    lemma_gaps_complete(tail, source, next, a, b);
                    let i = choose|i: int|
                        0 <= i < rest.len() && (#[trigger] rest[i]).start <= a && b <= rest[i].end;
                    assert(gs[lead.len() + i] == rest[i]);
                } else {
                    assert(lead.len() == 1);
                    assert(gs[0] == lead[0]);
                }
            },
        }
    }
}

/// Nothing that may be kept is lost: any stretch `[a, b)` of the clip that
/// no removed range overlaps and that is longer than `KEEP_SLACK` lies
/// within one kept piece. In particular, when no removed range overlaps a
/// clip longer than `KEEP_SLACK`, the whole clip is kept as it is.
pub proof fn lemma_subtract_ranges_complete(source: TimeRange, removed: Seq<TimeRange>, a: u64, b: u64)
    requires
        source.start <= a,
        a + KEEP_SLACK < b,
        b <= source.end,
        forall|r: TimeRange| #[trigger] removed.contains(r) ==> r.end <= a || b <= r.start,
    ensures
        exists|i: int|
            0 <= i < spec_subtract_ranges(source, removed).len() && (#[trigger] spec_subtract_ranges(
                source,
                removed,
            )[i]).start <= a && b <= spec_subtract_ranges(source, removed)[i].end,
        a == source.start && b == source.end ==> spec_subtract_ranges(source, removed) == seq![
            source,
        ],
{
    let s = sort_by_start(removed);
    lemma_sort_by_start(removed);
    assert forall|k: int| 0 <= k < s.len() implies (#[trigger] s[k]).end <= a || b <= s[k].start by {
        assert(s.contains(s[k]));
        assert(removed.contains(s[k]));
    }
    lemma_gaps_complete(s, source, source.start, a, b);
    let kept = spec_subtract_ranges(source, removed);
    if a == source.start && b == source.end {
        lemma_subtract_ranges(source, removed);
        let i = choose|i: int|
            0 <= i < kept.len() && (#[trigger] kept[i]).start <= a && b <= kept[i].end;
        assert(kept[i] == source);
        if kept.len() > 1 {
            let j: int = if i == 0 {
                1
            } else {
                0
            };
            let g = kept[j];
            assert(source.start <= g.start && g.start + KEEP_SLACK < g.end && g.end <= source.end);
            if j < i {
                assert(g.end <= kept[i].start);
            } else {
                assert(kept[i].end <= g.start);
            }
        }
        assert(kept.len() == 1);
        assert(kept =~= seq![source]);
    }
}

// ---------------------------------------------------------------------------
// Freeze intervals that may be cut from a clip
// ---------------------------------------------------------------------------

/// The part of freeze `f` that may be cut from `source`: its overlap with
/// the clip less `keep` at each end, when at least `MIN_SPAN` remains.
pub open spec fn removable_part(source: TimeRange, f: TimeRange, keep: u64) -> Option<TimeRange> {
    match spec_intersect(f, source) {
        None => None,
        Some(i) => if i.end >= i.start + 2 * keep + MIN_SPAN {
            Some(TimeRange { start: (i.start + keep) as u64, end: (i.end - keep) as u64 })
        } else {
            None
        },
    }
}

pub open spec fn spec_removable_freezes(source: TimeRange, freezes: Seq<TimeRange>, keep: u64) -> Seq<
    TimeRange,
>
    decreases freezes.len(),
{
    if freezes.len() == 0 {
        Seq::<TimeRange>::empty()
    } else {
        let r = spec_removable_freezes(source, freezes.drop_last(), keep);
        match removable_part(source, freezes.last(), keep) {
            Some(x) => r.push(x),
            None => r,
        }
    }
}

pub fn removable_freezes(source: TimeRange, freezes: &Vec<TimeRange>, keep_still: u64) -> (r: Vec<
    TimeRange,
>)
    ensures
        r@ == spec_removable_freezes(source, freezes@, keep_still),
{
    let mut r: Vec<TimeRange> = Vec::new();
    let n = freezes.len();
    let mut i: usize = 0;
    assert(freezes@.take(0) =~= Seq::<TimeRange>::empty());
    while i < n
        invariant
            n == freezes@.len(),
            i <= n,
            r@ == spec_removable_freezes(source, freezes@.take(i as int), keep_still),
        decreases n - i,
    {
        assert(freezes@.take(i + 1).drop_last() =~= freezes@.take(i as int));
        assert(freezes@.take(i + 1).last() == freezes@[i as int]);
        match intersect(freezes[i], source) {
            None => {},
            Some(x) => {
                let len = x.end - x.start;
                if len >= MIN_SPAN && (len - MIN_SPAN) / 2 >= keep_still {
                    r.push(TimeRange { start: x.start + keep_still, end: x.end - keep_still });
                }
            },
        }
        i = i + 1;
    }
    assert(freezes@.take(n as int) =~= freezes@);
    r
}

/// Every range that may be cut lies inside the clip and is at least
/// `MIN_SPAN` long.
pub proof fn lemma_removable_freezes(source: TimeRange, freezes: Seq<TimeRange>, keep: u64)
    ensures
        forall|i: int|
            0 <= i < spec_removable_freezes(source, freezes, keep).len() ==> {
                let x = #[trigger] spec_removable_freezes(source, freezes, keep)[i];
                source.start <= x.start && x.start + MIN_SPAN <= x.end && x.end <= source.end
            },
    decreases freezes.len(),
{
    if freezes.len() > 0 {
        lemma_removable_freezes(source, freezes.drop_last(), keep);
        let r = spec_removable_freezes(source, freezes.drop_last(), keep);
        assert forall|i: int|
            0 <= i < spec_removable_freezes(source, freezes, keep).len() implies {
            let x = #[trigger] spec_removable_freezes(source, freezes, keep)[i];
            source.start <= x.start && x.start + MIN_SPAN <= x.end && x.end <= source.end
        } by {
            if i < r.len() {
                assert(spec_removable_freezes(source, freezes, keep)[i] == r[i]);
            }
        }
    }
}

/// Each freeze whose overlap `i` with the clip is at least
/// `2 keep + MIN_SPAN` long is cut as `[i.start + keep, i.end - keep)`,
/// keeping `keep` of it at each end, and nothing else is cut.
pub proof fn lemma_removable_freezes_complete(source: TimeRange, freezes: Seq<TimeRange>, keep: u64)
    ensures
        forall|k: int|
            0 <= k < freezes.len() ==> match spec_intersect(#[trigger] freezes[k], source) {
                Some(i) => i.end >= i.start + 2 * keep + MIN_SPAN ==> spec_removable_freezes(
                    source,
                    freezes,
                    keep,
                ).contains(TimeRange { start: (i.start + keep) as u64, end: (i.end - keep) as u64 }),
                None => true,
            },
        forall|x: TimeRange| #[trigger]
            spec_removable_freezes(source, freezes, keep).contains(x) ==> exists|k: int|
                0 <= k < freezes.len() && match spec_intersect(#[trigger] freezes[k], source) {
                    Some(i) => i.end >= i.start + 2 * keep + MIN_SPAN && x == TimeRange {
                        start: (i.start + keep) as u64,
                        end: (i.end - keep) as u64,
                    },
                    None => false,
                },
    decreases freezes.len(),
{
    if freezes.len() > 0 {
        let t = freezes.drop_last();
        lemma_removable_freezes_complete(source, t, keep);
        let r = spec_removable_freezes(source, t, keep);
        let all = spec_removable_freezes(source, freezes, keep);
        assert forall|y: TimeRange| #[trigger] r.contains(y) implies all.contains(y) by {
            let k = choose|k: int| 0 <= k < r.len() && r[k] == y;
            assert(all[k] == y);
        }
        assert forall|k: int| 0 <= k < freezes.len() implies match spec_intersect(
            #[trigger] freezes[k],
            source,
        ) {
            Some(i) => i.end >= i.start + 2 * keep + MIN_SPAN ==> all.contains(
                TimeRange { start: (i.start + keep) as u64, end: (i.end - keep) as u64 },
            ),
            None => true,
        } by {
            if k < freezes.len() - 1 {
                assert(t[k] == freezes[k]);
            } else {
                if let Some(i) = spec_intersect(freezes[k], source) {
                    if i.end >= i.start + 2 * keep + MIN_SPAN {
                        assert(all[all.len() - 1] == TimeRange {
                            start: (i.start + keep) as u64,
                            end: (i.end - keep) as u64,
                        });
                    }
                }
            }
        }
        assert forall|x: TimeRange| #[trigger] all.contains(x) implies exists|k: int|
            0 <= k < freezes.len() && match spec_intersect(#[trigger] freezes[k], source) {
                Some(i) => i.end >= i.start + 2 * keep + MIN_SPAN && x == TimeRange {
                    start: (i.start + keep) as u64,
                    end: (i.end - keep) as u64,
                },
                None => false,
            } by {
            let m = choose|m: int| 0 <= m < all.len() && all[m] == x;
            if m < r.len() {
                assert(r[m] == x);
                assert(r.contains(x));
                let k = choose|k: int|
                    0 <= k < t.len() && match spec_intersect(#[trigger] t[k], source) {
                        Some(i) => i.end >= i.start + 2 * keep + MIN_SPAN && x == TimeRange {
                            start: (i.start + keep) as u64,
                            end: (i.end - keep) as u64,
                        },
                        None => false,
                    };
                assert(freezes[k] == t[k]);
            } else {
                let k = freezes.len() - 1;
                assert(freezes[k] == freezes.last());
            }
        }
    }
}

// ---------------------------------------------------------------------------
// Markers
// ---------------------------------------------------------------------------

/// A marker is kept when it is more than `MIN_SPAN` from the start and, when
/// the duration is known, more than `MIN_SPAN` before the end.
pub open spec fn marker_kept(m: u64, duration: Option<u64>) -> bool {
    m > MIN_SPAN && (duration matches Some(d) ==> m + MIN_SPAN < d)
}

pub open spec fn keep_markers(ms: Seq<u64>, duration: Option<u64>) -> Seq<u64>
    decreases ms.len(),
{
    if ms.len() == 0 {
        ms
    } else {
        let r = keep_markers(ms.drop_last(), duration);
        if marker_kept(ms.last(), duration) {
            r.push(ms.last())
        } else {
            r
        }
    }
}

pub open spec fn insert_sorted(s: Seq<u64>, x: u64) -> Seq<u64>
    decreases s.len(),
{
    if s.len() == 0 {
        seq![x]
    } else if x < s.last() {
        insert_sorted(s.drop_last(), x).push(s.last())
    } else {
        s.push(x)
    }
}

/// `s` in ascending order.
pub open spec fn sort_u64(s: Seq<u64>) -> Seq<u64>
    decreases s.len(),
{
    if s.len() == 0 {
        s
    } else {
        insert_sorted(sort_u64(s.drop_last()), s.last())
    }
}

pub open spec fn sorted(s: Seq<u64>) -> bool {
    forall|i: int, j: int| 0 <= i < j < s.len() ==> s[i] <= s[j]
}

pub open spec fn distance(a: u64, b: u64) -> int {
    if a >= b {
        a - b
    } else {
        b - a
    }
}

/// `Vec::dedup_by`: drops each value closer than `MARKER_GAP` to the last
/// value kept.
pub open spec fn dedup_close(s: Seq<u64>) -> Seq<u64>
    decreases s.len(),
{
    if s.len() == 0 {
        s
    } else {
        let r = dedup_close(s.drop_last());
        if r.len() > 0 && distance(s.last(), r.last()) < MARKER_GAP {
            r
        } else {
            r.push(s.last())
        }
    }
}

pub open spec fn spec_normalized_markers(ms: Seq<u64>, duration: Option<u64>) -> Seq<u64> {
    dedup_close(sort_u64(keep_markers(ms, duration)))
}

proof fn lemma_insert_sorted(s: Seq<u64>, x: u64)
    requires
        sorted(s),
    ensures
        sorted(insert_sorted(s, x)),
        insert_sorted(s, x).len() == s.len() + 1,
        forall|y: u64| #[trigger] insert_sorted(s, x).contains(y) ==> y == x || s.contains(y),
    decreases s.len(),
{
    let r = insert_sorted(s, x);
    if s.len() == 0 {
        assert forall|y: u64| #[trigger] r.contains(y) implies y == x || s.contains(y) by {
            assert(r[0] == x);
        }
    } else if x < s.last() {
        let t = insert_sorted(s.drop_last(), x);
        lemma_insert_sorted(s.drop_last(), x);
        assert(r == t.push(s.last()));
        assert forall|i: int, j: int| 0 <= i < j < r.len() implies r[i] <= r[j] by {
            if j == r.len() - 1 {
                assert(t.contains(t[i]));
                if t[i] != x {
                    let k = choose|k: int| 0 <= k < s.drop_last().len() && s.drop_last()[k] == t[i];
                    assert(s[k] == t[i]);
                }
            }
        }
        assert forall|y: u64| #[trigger] r.contains(y) implies y == x || s.contains(y) by {
            let k = choose|k: int| 0 <= k < r.len() && r[k] == y;
            if k == r.len() - 1 {
                assert(s[s.len() - 1] == y);
            } else {
                assert(t[k] == y);
                assert(t.contains(y));
                if y != x {
                    let m = choose|m: int| 0 <= m < s.drop_last().len() && s.drop_last()[m] == y;
                    assert(s[m] == y);
                }
            }
        }
    } else {
        assert(r == s.push(x));
        assert forall|y: u64| #[trigger] r.contains(y) implies y == x || s.contains(y) by {
            let k = choose|k: int| 0 <= k < r.len() && r[k] == y;
            if k < s.len() {
                assert(s[k] == y);
            }
        }
    }
}

proof fn lemma_sort_u64(s: Seq<u64>)
    ensures
        sorted(sort_u64(s)),
        forall|y: u64| #[trigger] sort_u64(s).contains(y) ==> s.contains(y),
    decreases s.len(),
{
    if s.len() > 0 {
        lemma_sort_u64(s.drop_last());
        lemma_insert_sorted(sort_u64(s.drop_last()), s.last());
        assert forall|y: u64| #[trigger] sort_u64(s).contains(y) implies s.contains(y) by {
            if y != s.last() {
                assert(sort_u64(s.drop_last()).contains(y));
                let k = choose|k: int| 0 <= k < s.drop_last().len() && s.drop_last()[k] == y;
                assert(s[k] == y);
            } else {
                assert(s[s.len() - 1] == y);
            }
        }
    }
}

proof fn lemma_keep_markers(ms: Seq<u64>, duration: Option<u64>)
    ensures
        forall|y: u64| #[trigger]
            keep_markers(ms, duration).contains(y) ==> ms.contains(y) && marker_kept(y, duration),
    decreases ms.len(),
{
    if ms.len() > 0 {
        lemma_keep_markers(ms.drop_last(), duration);
        let r = keep_markers(ms.drop_last(), duration);
        assert forall|y: u64| #[trigger] keep_markers(ms, duration).contains(y) implies ms.contains(
            y,
        ) && marker_kept(y, duration) by {
            let k = choose|k: int|
                0 <= k < keep_markers(ms, duration).len() && keep_markers(ms, duration)[k] == y;
            if k < r.len() {
                assert(r[k] == y);
                assert(r.contains(y));
                let m = choose|m: int| 0 <= m < ms.drop_last().len() && ms.drop_last()[m] == y;
                assert(ms[m] == y);
            } else {
                assert(ms[ms.len() - 1] == y);
            }
        }
    }
}

proof fn lemma_dedup_close(s: Seq<u64>)
    requires
        sorted(s),
    ensures
        forall|i: int, j: int|
            0 <= i < j < dedup_close(s).len() ==> dedup_close(s)[i] + MARKER_GAP <= dedup_close(
                s,
            )[j],
        forall|y: u64| #[trigger] dedup_close(s).contains(y) ==> s.contains(y),
        s.len() > 0 ==> dedup_close(s).len() > 0 && dedup_close(s).last() <= s.last(),
    decreases s.len(),
{
    if s.len() > 0 {
        let t = s.drop_last();
        assert(sorted(t));
        lemma_dedup_close(t);
        let r = dedup_close(t);
        if t.len() > 0 {
            assert(s[s.len() - 2] <= s.last());
        }
        assert forall|y: u64| #[trigger] dedup_close(s).contains(y) implies s.contains(y) by {
            let k = choose|k: int| 0 <= k < dedup_close(s).len() && dedup_close(s)[k] == y;
            if k < r.len() {
                assert(r[k] == y);
                assert(r.contains(y));
                let m = choose|m: int| 0 <= m < t.len() && t[m] == y;
                assert(s[m] == y);
            } else {
                assert(s[s.len() - 1] == y);
            }
        }
        if r.len() > 0 && distance(s.last(), r.last()) < MARKER_GAP {
        } else {
            assert forall|i: int, j: int|
                0 <= i < j < dedup_close(s).len() implies dedup_close(s)[i] + MARKER_GAP
                <= dedup_close(s)[j] by {
                if j == dedup_close(s).len() - 1 && i < j {
                    assert(r[i] + MARKER_GAP <= r.last() || i == r.len() - 1);
                }
            }
        }
    }
}

proof fn lemma_insert_sorted_keeps(s: Seq<u64>, x: u64)
    ensures
        insert_sorted(s, x).contains(x),
        forall|y: u64| #[trigger] s.contains(y) ==> insert_sorted(s, x).contains(y),
    decreases s.len(),
{
    let r = insert_sorted(s, x);
    if s.len() == 0 {
        assert(r[0] == x);
    } else if x < s.last() {
        let t = insert_sorted(s.drop_last(), x);
        lemma_insert_sorted_keeps(s.drop_last(), x);
        assert(r == t.push(s.last()));
        let k = choose|k: int| 0 <= k < t.len() && t[k] == x;
        assert(r[k] == x);
        assert forall|y: u64| #[trigger] s.contains(y) implies r.contains(y) by {
            let k = choose|k: int| 0 <= k < s.len() && s[k] == y;
            if k == s.len() - 1 {
                assert(r[r.len() - 1] == y);
            } else {
                assert(s.drop_last()[k] == y);
                assert(s.drop_last().contains(y));
                let m = choose|m: int| 0 <= m < t.len() && t[m] == y;
                assert(r[m] == y);
            }
        }
    } else {
        assert(r == s.push(x));
        assert(r[r.len() - 1] == x);
        assert forall|y: u64| #[trigger] s.contains(y) implies r.contains(y) by {
            let k = choose|k: int| 0 <= k < s.len() && s[k] == y;
            assert(r[k] == y);
        }
    }
}

proof fn lemma_sort_u64_keeps(s: Seq<u64>)
    ensures
        forall|y: u64| #[trigger] s.contains(y) ==> sort_u64(s).contains(y),
    decreases s.len(),
{
    if s.len() > 0 {
        let t = sort_u64(s.drop_last());
        lemma_sort_u64_keeps(s.drop_last());
        lemma_insert_sorted_keeps(t, s.last());
        assert forall|y: u64| #[trigger] s.contains(y) implies sort_u64(s).contains(y) by {
            let k = choose|k: int| 0 <= k < s.len() && s[k] == y;
            if k < s.len() - 1 {
                assert(s.drop_last()[k] == y);
                assert(s.drop_last().contains(y));
                assert(t.contains(y));
            }
        }
    }
}

proof fn lemma_keep_markers_keeps(ms: Seq<u64>, duration: Option<u64>)
    ensures
        forall|y: u64|
            #[trigger] ms.contains(y) && marker_kept(y, duration) ==> keep_markers(ms, duration).contains(y),
    decreases ms.len(),
{
    if ms.len() > 0 {
        lemma_keep_markers_keeps(ms.drop_last(), duration);
        let r = keep_markers(ms.drop_last(), duration);
        assert forall|y: u64|
            #[trigger] ms.contains(y) && marker_kept(y, duration) implies keep_markers(ms, duration).contains(y) by {
            let k = choose|k: int| 0 <= k < ms.len() && ms[k] == y;
            if k < ms.len() - 1 {
                assert(ms.drop_last()[k] == y);
                assert(ms.drop_last().contains(y));
                let m = choose|m: int| 0 <= m < r.len() && r[m] == y;
                assert(keep_markers(ms, duration)[m] == y);
            } else {
                let kk = keep_markers(ms, duration);
                assert(kk[kk.len() - 1] == y);
            }
        }
    }
}

proof fn lemma_dedup_close_covers(s: Seq<u64>)
    requires
        sorted(s),
    ensures
        forall|x: u64| #[trigger] s.contains(x) ==> exists|y: u64|
            #[trigger] dedup_close(s).contains(y) && y <= x && x < y + MARKER_GAP,
    decreases s.len(),
{
    if s.len() > 0 {
        let t = s.drop_last();
        assert(sorted(t));
        lemma_dedup_close_covers(t);
        lemma_dedup_close(t);
        let r = dedup_close(t);
        let d = dedup_close(s);
        let x0 = s.last();
        assert forall|y: u64| #[trigger] r.contains(y) implies d.contains(y) by {
            let k = choose|k: int| 0 <= k < r.len() && r[k] == y;
            assert(d[k] == y);
        }
        assert forall|x: u64| #[trigger] s.contains(x) implies exists|y: u64|
            #[trigger] d.contains(y) && y <= x && x < y + MARKER_GAP by {
            let k = choose|k: int| 0 <= k < s.len() && s[k] == x;
            if k < s.len() - 1 {
                assert(t[k] == x);
                assert(t.contains(x));
                let y = choose|y: u64| #[trigger] r.contains(y) && y <= x && x < y + MARKER_GAP;
                assert(d.contains(y));
            } else if r.len() > 0 && distance(x0, r.last()) < MARKER_GAP {
                assert(r.last() <= t.last());
                assert(t.last() == s[s.len() - 2]);
                assert(t.last() <= x0);
                assert(r.contains(r.last()));
                assert(d.contains(r.last()));
            } else {
                assert(d[d.len() - 1] == x0);
                assert(d.contains(x0));
            }
        }
    }
}

/// No kept marker is lost: every marker not too close to either end has a
/// normalized marker at most `MARKER_GAP` before it (itself, or the one
/// it was merged into).
pub proof fn lemma_normalized_markers_complete(ms: Seq<u64>, duration: Option<u64>)
    ensures
        forall|m: u64|
            #[trigger] ms.contains(m) && marker_kept(m, duration) ==> exists|y: u64|
                #[trigger] spec_normalized_markers(ms, duration).contains(y) && y <= m && m < y
                    + MARKER_GAP,
{
    let k = keep_markers(ms, duration);
    lemma_keep_markers_keeps(ms, duration);
    lemma_sort_u64_keeps(k);
    lemma_sort_u64(k);
    lemma_dedup_close_covers(sort_u64(k));
    assert forall|m: u64| #[trigger] ms.contains(m) && marker_kept(m, duration) implies exists|y: u64|
        #[trigger] spec_normalized_markers(ms, duration).contains(y) && y <= m && m < y + MARKER_GAP by {
        assert(k.contains(m));
        assert(sort_u64(k).contains(m));
        let y = choose|y: u64| #[trigger] dedup_close(sort_u64(k)).contains(y) && y <= m && m < y + MARKER_GAP;
        assert(spec_normalized_markers(ms, duration) == dedup_close(sort_u64(k)));
        assert(spec_normalized_markers(ms, duration).contains(y));
    }
}

fn insert_marker_sorted(v: &mut Vec<u64>, x: u64)
    ensures
        final(v)@ == insert_sorted(old(v)@, x),
{
    let n = v.len();
    let mut j = n;
    assert(v@.take(n as int) =~= v@);
    assert(v@.skip(n as int) =~= Seq::<u64>::empty());
    while j > 0 && x < v[j - 1]
        invariant
            j <= n == v@.len(),
            insert_sorted(v@, x) == insert_sorted(v@.take(j as int), x) + v@.skip(j as int),
        decreases j,
    {
        assert(v@.take(j as int).drop_last() =~= v@.take(j - 1));
        assert(v@.take(j as int).last() == v@[j - 1]);
        assert(v@.skip(j - 1) =~= seq![v@[j - 1]] + v@.skip(j as int));
        assert(insert_sorted(v@.take(j - 1), x).push(v@[j - 1]) + v@.skip(j as int)
            =~= insert_sorted(v@.take(j - 1), x) + v@.skip(j - 1));
        j = j - 1;
    }
    assert(insert_sorted(v@.take(j as int), x) =~= v@.take(j as int).push(x));
    v.insert(j, x);
    assert(final(v)@ =~= insert_sorted(old(v)@, x));
}

/// The markers that split a recording: those not too close to either end,
/// in time order, with any marker closer than `MARKER_GAP` to the one
/// kept before it dropped.
pub fn normalized_markers(markers: &Vec<u64>, duration: Option<u64>) -> (r: Vec<u64>)
    ensures
        r@ == spec_normalized_markers(markers@, duration),
{
    let n = markers.len();
    let mut kept: Vec<u64> = Vec::new();
    let mut i: usize = 0;
    assert(markers@.take(0) =~= Seq::<u64>::empty());
    while i < n
        invariant
            n == markers@.len(),
            i <= n,
            kept@ == keep_markers(markers@.take(i as int), duration),
        decreases n - i,
    {
        assert(markers@.take(i + 1).drop_last() =~= markers@.take(i as int));
        assert(markers@.take(i + 1).last() == markers@[i as int]);
        let m = markers[i];
        let ok = match duration {
            Some(d) => m > MIN_SPAN && d > MIN_SPAN && m < d - MIN_SPAN,
            None => m > MIN_SPAN,
        };
        if ok {
            kept.push(m);
        }
        i = i + 1;
    }
    assert(markers@.take(n as int) =~= markers@);
    let mut sorted_v: Vec<u64> = Vec::new();
    let k = kept.len();
    let mut j: usize = 0;
    assert(kept@.take(0) =~= Seq::<u64>::empty());
    while j < k
        invariant
            k == kept@.len(),
            j <= k,
            sorted_v@ == sort_u64(kept@.take(j as int)),
        decreases k - j,
    {
        assert(kept@.take(j + 1).drop_last() =~= kept@.take(j as int));
        assert(kept@.take(j + 1).last() == kept@[j as int]);
        insert_marker_sorted(&mut sorted_v, kept[j]);
        j = j + 1;
    }
    assert(kept@.take(k as int) =~= kept@);
    let mut r: Vec<u64> = Vec::new();
    let s = sorted_v.len();
    let mut t: usize = 0;
    assert(sorted_v@.take(0) =~= Seq::<u64>::empty());
    while t < s
        invariant
            s == sorted_v@.len(),
            t <= s,
            r@ == dedup_close(sorted_v@.take(t as int)),
        decreases s - t,
    {
        assert(sorted_v@.take(t + 1).drop_last() =~= sorted_v@.take(t as int));
        assert(sorted_v@.take(t + 1).last() == sorted_v@[t as int]);
        let x = sorted_v[t];
        let rl = r.len();
        let close = rl > 0 && (if x >= r[rl - 1] {
            x - r[rl - 1] < MARKER_GAP
        } else {
            r[rl - 1] - x < MARKER_GAP
        });
        if !close {
            r.push(x);
        }
        t = t + 1;
    }
    assert(sorted_v@.take(s as int) =~= sorted_v@);
    r
}

/// Normalized markers come in increasing order, at least `MARKER_GAP`
/// apart, each one of the given markers and kept by `marker_kept`.
pub proof fn lemma_normalized_markers(ms: Seq<u64>, duration: Option<u64>)
    ensures
        forall|i: int, j: int|
            0 <= i < j < spec_normalized_markers(ms, duration).len() ==> spec_normalized_markers(
                ms,
                duration,
            )[i] + MARKER_GAP <= spec_normalized_markers(ms, duration)[j],
        forall|y: u64| #[trigger]
            spec_normalized_markers(ms, duration).contains(y) ==> ms.contains(y) && marker_kept(
                y,
                duration,
            ),
{
    let k = keep_markers(ms, duration);
    lemma_keep_markers(ms, duration);
    lemma_sort_u64(k);
    lemma_dedup_close(sort_u64(k));
    assert forall|y: u64| #[trigger]
        spec_normalized_markers(ms, duration).contains(y) implies ms.contains(y) && marker_kept(
        y,
        duration,
    ) by {
        assert(sort_u64(k).contains(y));
        assert(k.contains(y));
    }
}

// ---------------------------------------------------------------------------
// Clip ranges
// ---------------------------------------------------------------------------

/// The ranges between consecutive boundaries that are longer than
/// `MIN_SPAN`.
pub open spec fn window_ranges(b: Seq<u64>) -> Seq<TimeRange>
    decreases b.len(),
{
    if b.len() < 2 {
        Seq::<TimeRange>::empty()
    } else {
        let r = window_ranges(b.drop_last());
        let start = b[b.len() - 2];
        let end = b.last();
        if end > start + MIN_SPAN {
            r.push(TimeRange { start, end })
        } else {
            r
        }
    }
}

/// The clips a recording of length `duration` splits into at `markers`.
pub open spec fn spec_clip_ranges(duration: u64, markers: Seq<u64>) -> Seq<TimeRange> {
    window_ranges(seq![0u64] + spec_normalized_markers(markers, Some(duration)) + seq![duration])
}

pub fn clip_ranges(duration: u64, markers: &Vec<u64>) -> (r: Vec<TimeRange>)
    ensures
        r@ == spec_clip_ranges(duration, markers@),
{
    let norm = normalized_markers(markers, Some(duration));
    let mut b: Vec<u64> = Vec::new();
    b.push(0);
    let n = norm.len();
    let mut i: usize = 0;
    while i < n
        invariant
            n == norm@.len(),
            i <= n,
            b@ == seq![0u64] + norm@.take(i as int),
        decreases n - i,
    {
        b.push(norm[i]);
        assert(b@ =~= seq![0u64] + norm@.take(i + 1));
        i = i + 1;
    }
    b.push(duration);
    assert(b@ =~= seq![0u64] + norm@ + seq![duration]);
    let mut r: Vec<TimeRange> = Vec::new();
    let m = b.len();
    let mut k: usize = 1;
    assert(b@.take(1).drop_last() =~= Seq::<u64>::empty());
    while k < m
        invariant
            m == b@.len(),
            1 <= k <= m,
            r@ == window_ranges(b@.take(k as int)),
        decreases m - k,
    {
        assert(b@.take(k + 1).drop_last() =~= b@.take(k as int));
        let start = b[k - 1];
        let end = b[k];
        if end > start && end - start > MIN_SPAN {
            r.push(TimeRange { start, end });
        }
        k = k + 1;
    }
    assert(b@.take(m as int) =~= b@);
    r
}

proof fn lemma_window_ranges_complete(b: Seq<u64>)
    ensures
        forall|k: int|
            1 <= k < b.len() && #[trigger] b[k] > b[k - 1] + MIN_SPAN ==> window_ranges(b).contains(
                TimeRange { start: b[k - 1], end: b[k] },
            ),
    decreases b.len(),
{
    if b.len() >= 2 {
        let t = b.drop_last();
        lemma_window_ranges_complete(t);
        let r = window_ranges(t);
        let w = window_ranges(b);
        assert forall|y: TimeRange| #[trigger] r.contains(y) implies w.contains(y) by {
            let m = choose|m: int| 0 <= m < r.len() && r[m] == y;
            assert(w[m] == y);
        }
        assert forall|k: int|
            1 <= k < b.len() && #[trigger] b[k] > b[k - 1] + MIN_SPAN implies w.contains(
                TimeRange { start: b[k - 1], end: b[k] },
            ) by {
            if k < b.len() - 1 {
                assert(t[k] == b[k] && t[k - 1] == b[k - 1]);
                assert(r.contains(TimeRange { start: t[k - 1], end: t[k] }));
            } else {
                assert(w[w.len() - 1] == TimeRange { start: b[k - 1], end: b[k] });
            }
        }
    }
}

/// No clip is lost: between any two consecutive split points (the start,
/// the normalized markers, the end) more than `MIN_SPAN` apart lies a clip;
/// without markers, a recording longer than `MIN_SPAN` is one clip.
pub proof fn lemma_clip_ranges_complete(duration: u64, markers: Seq<u64>)
    ensures
        forall|k: int|
            1 <= k < spec_normalized_markers(markers, Some(duration)).len() + 2 && #[trigger] (seq![0u64]
                + spec_normalized_markers(markers, Some(duration)) + seq![duration])[k] > (seq![0u64]
                + spec_normalized_markers(markers, Some(duration)) + seq![duration])[k - 1] + MIN_SPAN
                ==> spec_clip_ranges(duration, markers).contains(
                TimeRange {
                    start: (seq![0u64] + spec_normalized_markers(markers, Some(duration)) + seq![
                        duration,
                    ])[k - 1],
                    end: (seq![0u64] + spec_normalized_markers(markers, Some(duration)) + seq![
                        duration,
                    ])[k],
                },
            ),
        markers.len() == 0 && duration > MIN_SPAN ==> spec_clip_ranges(duration, markers) == seq![
            TimeRange { start: 0, end: duration },
        ],
{
    let b = seq![0u64] + spec_normalized_markers(markers, Some(duration)) + seq![duration];
    lemma_window_ranges_complete(b);
    if markers.len() == 0 && duration > MIN_SPAN {
        assert(keep_markers(markers, Some(duration)) =~= Seq::<u64>::empty());
        assert(sort_u64(Seq::<u64>::empty()) =~= Seq::<u64>::empty());
        assert(dedup_close(Seq::<u64>::empty()) =~= Seq::<u64>::empty());
        assert(spec_normalized_markers(markers, Some(duration)) =~= Seq::<u64>::empty());
        assert(b =~= seq![0u64, duration]);
        assert(b.drop_last() =~= seq![0u64]);
        assert(window_ranges(seq![0u64]) =~= Seq::<TimeRange>::empty());
        assert(window_ranges(b) =~= seq![TimeRange { start: 0, end: duration }]);
    }
}

proof fn lemma_window_ranges(b: Seq<u64>)
    requires
        sorted(b),
        b.len() >= 1,
    ensures
        forall|i: int|
            0 <= i < window_ranges(b).len() ==> {
                let r = #[trigger] window_ranges(b)[i];
                b[0] <= r.start && r.start + MIN_SPAN < r.end && r.end <= b.last()
            },
        forall|i: int, j: int|
            0 <= i < j < window_ranges(b).len() ==> window_ranges(b)[i].end <= window_ranges(
                b,
            )[j].start,
    decreases b.len(),
{
    if b.len() >= 2 {
        let t = b.drop_last();
        assert(sorted(t));
        lemma_window_ranges(t);
        let r = window_ranges(t);
        assert(b[b.len() - 2] <= b.last());
        assert forall|i: int| 0 <= i < window_ranges(b).len() implies {
            let x = #[trigger] window_ranges(b)[i];
            b[0] <= x.start && x.start + MIN_SPAN < x.end && x.end <= b.last()
        } by {
            if i < r.len() {
                assert(window_ranges(b)[i] == r[i]);
            }
        }
        assert forall|i: int, j: int| 0 <= i < j < window_ranges(b).len() implies window_ranges(
            b,
        )[i].end <= window_ranges(b)[j].start by {
            if j < r.len() {
                assert(window_ranges(b)[i] == r[i]);
                assert(window_ranges(b)[j] == r[j]);
            } else {
                assert(window_ranges(b)[i] == r[i]);
            }
        }
    }
}

/// Clips lie within the recording, are each longer than `MIN_SPAN`, and
/// come in time order without overlapping.
pub proof fn lemma_clip_ranges(duration: u64, markers: Seq<u64>)
    ensures
        forall|i: int|
            0 <= i < spec_clip_ranges(duration, markers).len() ==> {
                let r = #[trigger] spec_clip_ranges(duration, markers)[i];
                r.start + MIN_SPAN < r.end && r.end <= duration
            },
        forall|i: int, j: int|
            0 <= i < j < spec_clip_ranges(duration, markers).len() ==> spec_clip_ranges(
                duration,
                markers,
            )[i].end <= spec_clip_ranges(duration, markers)[j].start,
{
    let norm = spec_normalized_markers(markers, Some(duration));
    lemma_normalized_markers(markers, Some(duration));
    let b = seq![0u64] + norm + seq![duration];
    assert(sorted(b)) by {
        assert forall|i: int, j: int| 0 <= i < j < b.len() implies b[i] <= b[j] by {
            if 0 < i && i <= norm.len() {
                assert(norm.contains(norm[i - 1]));
            }
            if 0 < j && j <= norm.len() {
                assert(norm.contains(norm[j - 1]));
            }
            if 0 < i && j <= norm.len() {
                assert(b[i] == norm[i - 1]);
                assert(b[j] == norm[j - 1]);
            }
        }
    }
    lemma_window_ranges(b);
}

// ---------------------------------------------------------------------------
// Reading freezedetect output
// ---------------------------------------------------------------------------

/// The number of seconds (as microseconds) written after the first `key`
/// in `line`.
pub open spec fn metric(line: Seq<char>, key: Seq<char>) -> Option<u64> {
    match find(line, key) {
        None => None,
        Some(i) => {
            let w = words(line.skip(i + key.len()));
            if w.len() == 0 {
                None
            } else {
                match parse_seconds_micros(w[0]) {
                    Some(v) => Some(v as u64),
                    None => None,
                }
            }
        },
    }
}

pub fn parse_metric(line: &str, key: &str) -> (r: Option<u64>)
    ensures
        r == metric(line@, key@),
{
    let v = chars_of(line);
    let k = chars_of(key);
    let i = match find_chars(&v, &k) {
        Some(i) => i,
        None => {
            return None;
        },
    };
    let klen = k.len();
    let vlen = v.len();
    proof {
        lemma_find_bounds(v@, k@, 0);
        assert(find(v@, k@) == Some(i as int));
        assert(find_from(v@, k@, 0) == Some(i as int));
        assert(i + klen <= vlen);
    }
    let from = i + klen;
    let rest_s = string_of_slice(&v, from, vlen);
    let rest = chars_of(rest_s.as_str());
    assert(rest@ =~= v@.skip(i + k@.len()));
    let w = split_words(&rest);
    if w.len() == 0 {
        return None;
    }
    let first = chars_of(w[0].as_str());
    assert(first@ == views(w@)[0]);
    parse_seconds_chars(&first)
}

pub proof fn lemma_find_bounds(s: Seq<char>, key: Seq<char>, i: int)
    ensures
        find_from(s, key, i) matches Some(j) ==> 0 <= j && j + key.len() <= s.len(),
    decreases s.len() + 1 - i,
{
    if !(i < 0 || i + key.len() > s.len()) && s.subrange(i, i + key.len()) != key {
        lemma_find_bounds(s, key, i + 1);
    }
}

/// One line of freezedetect output applied to the freezes found so far and
/// the start of an open freeze.
pub open spec fn freeze_step(
    state: (Seq<TimeRange>, Option<u64>),
    line: Seq<char>,
) -> (Seq<TimeRange>, Option<u64>) {
    let fs = state.0;
    let cur = match metric(line, "freeze_start:"@) {
        Some(st) => Some(st),
        None => state.1,
    };
    match metric(line, "freeze_end:"@) {
        None => (fs, cur),
        Some(end) => match cur {
            None => (fs, None),
            Some(st) => (
                if end > st {
                    fs.push(TimeRange { start: st, end })
                } else {
                    fs
                },
                None,
            ),
        },
    }
}

pub open spec fn freeze_scan(ls: Seq<Seq<char>>) -> (Seq<TimeRange>, Option<u64>)
    decreases ls.len(),
{
    if ls.len() == 0 {
        (Seq::<TimeRange>::empty(), None)
    } else {
        freeze_step(freeze_scan(ls.drop_last()), ls.last())
    }
}

/// The freeze intervals in freezedetect's log; a freeze still open at the
/// end lasts until `duration`, when that is known.
pub open spec fn spec_parse_freezes(text: Seq<char>, duration: Option<u64>) -> Seq<TimeRange> {
    let (fs, cur) = freeze_scan(lines(text));
    match (cur, duration) {
        (Some(st), Some(d)) => if d > st {
            fs.push(TimeRange { start: st, end: d })
        } else {
            fs
        },
        _ => fs,
    }
}

pub fn parse_freezes(stderr: &str, duration: Option<u64>) -> (r: Vec<TimeRange>)
    ensures
        r@ == spec_parse_freezes(stderr@, duration),
{
    let v = chars_of(stderr);
    let ls = split_lines(&v);
    let mut freezes: Vec<TimeRange> = Vec::new();
    let mut current: Option<u64> = None;
    let n = ls.len();
    let mut i: usize = 0;
    assert(views(ls@).take(0) =~= Seq::<Seq<char>>::empty());
    while i < n
        invariant
            n == ls@.len(),
            i <= n,
            (freezes@, current) == freeze_scan(views(ls@).take(i as int)),
        decreases n - i,
    {
        assert(views(ls@).take(i + 1).drop_last() =~= views(ls@).take(i as int));
        assert(views(ls@).take(i + 1).last() == ls@[i as int]@);
        let line = ls[i].as_str();
        if let Some(start) = parse_metric(line, "freeze_start:") {
            current = Some(start);
        }
        if let Some(end) = parse_metric(line, "freeze_end:") {
            if let Some(start) = current {
                if end > start {
                    freezes.push(TimeRange { start, end });
                }
            }
            current = None;
        }
        i = i + 1;
    }
    assert(views(ls@).take(n as int) =~= views(ls@));
    if let (Some(start), Some(end)) = (current, duration) {
        if end > start {
            freezes.push(TimeRange { start, end });
        }
    }
    freezes
}

/// Every freeze read from the log is a non-empty interval.
pub proof fn lemma_parse_freezes(text: Seq<char>, duration: Option<u64>)
    ensures
        forall|i: int|
            0 <= i < spec_parse_freezes(text, duration).len() ==> (#[trigger] spec_parse_freezes(
                text,
                duration,
            )[i]).start < spec_parse_freezes(text, duration)[i].end,
{
    lemma_freeze_scan(lines(text));
    let fs = freeze_scan(lines(text)).0;
    assert forall|i: int|
        0 <= i < spec_parse_freezes(text, duration).len() implies (#[trigger] spec_parse_freezes(
        text,
        duration,
    )[i]).start < spec_parse_freezes(text, duration)[i].end by {
        if i < fs.len() {
            assert(spec_parse_freezes(text, duration)[i] == fs[i]);
        }
    }
}

proof fn lemma_freeze_scan(ls: Seq<Seq<char>>)
    ensures
        forall|i: int|
            0 <= i < freeze_scan(ls).0.len() ==> (#[trigger] freeze_scan(ls).0[i]).start
                < freeze_scan(ls).0[i].end,
    decreases ls.len(),
{
    if ls.len() > 0 {
        lemma_freeze_scan(ls.drop_last());
        let prev = freeze_scan(ls.drop_last()).0;
        assert forall|i: int| 0 <= i < freeze_scan(ls).0.len() implies (#[trigger] freeze_scan(
            ls,
        ).0[i]).start < freeze_scan(ls).0[i].end by {
            if i < prev.len() {
                assert(freeze_scan(ls).0[i] == prev[i]);
            }
        }
    }
}

// ---------------------------------------------------------------------------
// Planning the trimmed clips
// ---------------------------------------------------------------------------

/// One clip of a trimmed recording: its range, the still parts cut from it
/// and the parts kept.
pub struct ClipPlan {
    pub source: TimeRange,
    pub removed: Vec<TimeRange>,
    pub kept: Vec<TimeRange>,
}

pub open spec fn plan_matches(
    p: ClipPlan,
    source: TimeRange,
    freezes: Seq<TimeRange>,
    keep: u64,
) -> bool {
    &&& p.source == source
    &&& p.removed@ == spec_removable_freezes(source, freezes, keep)
    &&& p.kept@ == spec_subtract_ranges(source, p.removed@)
}

/// The clips of an auto-trimmed recording: one per clip range, each with
/// the freezes (less `keep_still` of context at each end) cut out.
pub fn plan_clips(duration: u64, markers: &Vec<u64>, freezes: &Vec<TimeRange>, keep_still: u64) -> (plans: Vec<
    ClipPlan,
>)
    ensures
        plans@.len() == spec_clip_ranges(duration, markers@).len(),
        forall|i: int|
            0 <= i < plans@.len() ==> plan_matches(
                #[trigger] plans@[i],
                spec_clip_ranges(duration, markers@)[i],
                freezes@,
                keep_still,
            ),
{
    let sources = clip_ranges(duration, markers);
    let mut plans: Vec<ClipPlan> = Vec::new();
    let n = sources.len();
    let mut i: usize = 0;
    while i < n
        invariant
            n == sources@.len(),
            sources@ == spec_clip_ranges(duration, markers@),
            i <= n,
            plans@.len() == i,
            forall|j: int|
                0 <= j < i ==> plan_matches(#[trigger] plans@[j], sources@[j], freezes@, keep_still),
        decreases n - i,
    {
        let source = sources[i];
        let removed = removable_freezes(source, freezes, keep_still);
        let kept = subtract_ranges(source, &removed);
        plans.push(ClipPlan { source, removed, kept });
        i = i + 1;
    }
    plans
}

// ---------------------------------------------------------------------------
// Markers taken while recording
// ---------------------------------------------------------------------------

/// A new marker is taken unless it comes less than `MARKER_GAP` after the
/// previous one.
pub open spec fn accepts_marker(markers: Seq<u64>, t: u64) -> bool {
    markers.len() == 0 || t >= markers.last() + MARKER_GAP
}

pub open spec fn well_spaced(markers: Seq<u64>) -> bool {
    forall|i: int, j: int| 0 <= i < j < markers.len() ==> markers[i] + MARKER_GAP <= markers[j]
}

pub fn record_marker(markers: &mut Vec<u64>, t: u64) -> (added: bool)
    ensures
        added == accepts_marker(old(markers)@, t),
        final(markers)@ == (if added {
            old(markers)@.push(t)
        } else {
            old(markers)@
        }),
{
    let n = markers.len();
    let ok = n == 0 || (t >= markers[n - 1] && t - markers[n - 1] >= MARKER_GAP);
    if ok {
        markers.push(t);
    }
    ok
}

/// Markers taken with `record_marker` stay in time order, `MARKER_GAP`
/// apart.
pub proof fn lemma_record_marker(markers: Seq<u64>, t: u64)
    requires
        well_spaced(markers),
    ensures
        accepts_marker(markers, t) ==> well_spaced(markers.push(t)),
{
    if accepts_marker(markers, t) && markers.len() > 0 {
        assert forall|i: int, j: int| 0 <= i < j < markers.push(t).len() implies markers.push(
            t,
        )[i] + MARKER_GAP <= markers.push(t)[j] by {
            if j == markers.len() && i < markers.len() - 1 {
                assert(markers[i] + MARKER_GAP <= markers[markers.len() - 1]);
            }
        }
    }
}

/// What the recorder observed in one turn of its loop, in the order it
/// checks them.
pub enum RecordEvent {
    /// The recording process has exited.
    RecorderExited { success: bool },
    /// Ctrl+C was pressed.
    Interrupted,
    /// The user asked for a marker at this time since the start.
    Marker { at: u64 },
    /// The user asked to stop.
    Quit,
    /// Nothing happened before the poll timed out.
    Idle,
}

pub enum RecordAction {
    Continue,
    /// The recorder failed before the recording was complete.
    Fail,
    /// The recorder finished by itself.
    Finish,
    /// The user stopped the recording: stop the recorder, then finish.
    StopAndFinish,
}

/// The recorder's decision for one event; a marker event records a marker.
pub fn record_step(markers: &mut Vec<u64>, event: RecordEvent) -> (action: RecordAction)
    ensures
        match event {
            RecordEvent::RecorderExited { success } => final(markers)@ == old(markers)@ && (
            if success {
                action is Finish
            } else {
                action is Fail
            }),
            RecordEvent::Interrupted => final(markers)@ == old(markers)@ && action is StopAndFinish,
            RecordEvent::Quit => final(markers)@ == old(markers)@ && action is StopAndFinish,
            RecordEvent::Idle => final(markers)@ == old(markers)@ && action is Continue,
            RecordEvent::Marker { at } => action is Continue && final(markers)@ == (
            if accepts_marker(old(markers)@, at) {
                old(markers)@.push(at)
            } else {
                old(markers)@
            }),
        },
{
    match event {
        RecordEvent::RecorderExited { success } => if success {
            RecordAction::Finish
        } else {
            RecordAction::Fail
        },
        RecordEvent::Interrupted => RecordAction::StopAndFinish,
        RecordEvent::Quit => RecordAction::StopAndFinish,
        RecordEvent::Idle => RecordAction::Continue,
        RecordEvent::Marker { at } => {
            record_marker(markers, at);
            RecordAction::Continue
        },
    }
}

/// How the clips of a finished recording are made.
pub enum ClipSource {
    AutoTrim,
    SplitByMarkers,
    NoClips,
}

pub fn clip_source(auto_trim: bool, marker_count: usize) -> (c: ClipSource)
    ensures
        auto_trim ==> c is AutoTrim,
        !auto_trim && marker_count > 0 ==> c is SplitByMarkers,
        !auto_trim && marker_count == 0 ==> c is NoClips,
{
    if auto_trim {
        ClipSource::AutoTrim
    } else if marker_count > 0 {
        ClipSource::SplitByMarkers
    } else {
        ClipSource::NoClips
    }
}

/// Which videos get a device frame.
pub enum FramePlan {
    NoFrame,
    /// A dry run exports nothing, framed videos neither.
    DryRun,
    /// No clips were made: frame the whole recording.
    WholeRecording,
    EachClip,
}

pub fn frame_plan(frame: bool, dry_run: bool, clip_count: usize) -> (p: FramePlan)
    ensures
        !frame ==> p is NoFrame,
        frame && dry_run ==> p is DryRun,
        frame && !dry_run && clip_count == 0 ==> p is WholeRecording,
        frame && !dry_run && clip_count > 0 ==> p is EachClip,
{
    if frame && dry_run {
        FramePlan::DryRun
    } else if frame && clip_count == 0 {
        FramePlan::WholeRecording
    } else if frame {
        FramePlan::EachClip
    } else {
        FramePlan::NoFrame
    }
}

} // verus!
