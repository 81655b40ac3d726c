//! The title put over the head of a video: its paragraphs, its default
//! size, the outline offsets it is drawn with, and the texts of the
//! concat step that joins the titled head to the rest of the video.
use vstd::prelude::*;

use crate::ffmpeg::{push_seconds, seconds_text};
use crate::text::{
    chars_of, first_index_of, is_ws, lemma_keep_nonblank, index_of_char, keep_nonblank, lemma_first_index_of, lines,
    parse_seconds_chars, parse_seconds_micros, parse_unsigned, parse_unsigned_chars, push_char,
    push_str, split_lines, trim, trim_chars, trim_str, views,
};

verus! {

/// `\n` written as two characters (a backslash and `n`) becomes a line
/// break, reading from the left.
pub open spec fn unescape_newlines(s: Seq<char>) -> Seq<char>
    decreases s.len(),
{
    if s.len() == 0 {
        s
    } else if s.len() >= 2 && s[0] == '\\' && s[1] == 'n' {
        seq!['\n'] + unescape_newlines(s.skip(2))
    } else {
        seq![s[0]] + unescape_newlines(s.drop_first())
    }
}

/// The paragraphs of a title: its lines (after `\n` escapes), trimmed,
/// without blank ones.
pub open spec fn spec_title_paragraphs(text: Seq<char>) -> Seq<Seq<char>> {
    keep_nonblank(lines(unescape_newlines(text)))
}

pub fn title_paragraphs(text: &str) -> (r: Vec<String>)
    ensures
        views(r@) == spec_title_paragraphs(text@),
{
    let v = chars_of(text);
    let n = v.len();
    let mut u: Vec<char> = Vec::new();
    let mut i: usize = 0;
    assert(v@.skip(0) =~= v@);
    while i < n
        invariant
            n == v@.len(),
            i <= n,
            unescape_newlines(v@) == u@ + unescape_newlines(v@.skip(i as int)),
        decreases n - i,
    {
        let ghost rest = v@.skip(i as int);
        if i + 1 < n && v[i] == '\\' && v[i + 1] == 'n' {
            u.push('\n');
            assert(rest.skip(2) =~= v@.skip(i + 2));
            assert(unescape_newlines(v@) =~= u@ + unescape_newlines(v@.skip(i + 2)));
            i = i + 2;
        } else {
            u.push(v[i]);
            assert(rest.drop_first() =~= v@.skip(i + 1));
            assert(unescape_newlines(v@) =~= u@ + unescape_newlines(v@.skip(i + 1)));
            i = i + 1;
        }
    }
    assert(v@.skip(n as int) =~= Seq::<char>::empty());
    assert(u@ =~= unescape_newlines(v@));
    let ls = split_lines(&u);
    let mut r: Vec<String> = Vec::new();
    let m = ls.len();
    let mut k: usize = 0;
    assert(views(ls@).take(0) =~= Seq::<Seq<char>>::empty());
    while k < m
        invariant
            m == ls@.len(),
            k <= m,
            views(r@) == keep_nonblank(views(ls@).take(k as int)),
        decreases m - k,
    {
        assert(views(ls@).take(k + 1).drop_last() =~= views(ls@).take(k as int));
        assert(views(ls@).take(k + 1).last() == ls@[k as int]@);
        let t = trim_str(ls[k].as_str());
        if !t.as_str().is_empty() {
            let ghost before = views(r@);
            r.push(t);
            assert(views(r@) =~= before.push(t@));
        }
        k = k + 1;
    }
    assert(views(ls@).take(m as int) =~= views(ls@));
    r
}

// ---------------------------------------------------------------------------
// Sizes
// ---------------------------------------------------------------------------

/// `p / q` rounded to the nearest whole number, halves up.
pub open spec fn round_div(p: nat, q: nat) -> nat {
    (2 * p + q) / (2 * q)
}

pub open spec fn clamp(v: nat, lo: nat, hi: nat) -> nat {
    if v < lo {
        lo
    } else if v > hi {
        hi
    } else {
        v
    }
}

/// The length in characters of the longest line, counting an empty line
/// as one.
pub open spec fn max_chars(ls: Seq<Seq<char>>) -> nat
    decreases ls.len(),
{
    if ls.len() == 0 {
        0
    } else {
        let m = max_chars(ls.drop_last());
        let c = if ls.last().len() > 1 {
            ls.last().len()
        } else {
            1
        };
        if m >= c {
            m
        } else {
            c
        }
    }
}

/// The font size of a title when none is given: the smaller of the width
/// over 0.92 times the longest line's characters (4 when there are no
/// lines) and the height over 5.2 times the line count plus a half,
/// rounded and kept between 72 and 360.
pub open spec fn spec_default_font_size(w: nat, h: nat, ls: Seq<Seq<char>>) -> nat {
    let mc = if ls.len() == 0 {
        4
    } else {
        max_chars(ls)
    };
    let n = ls.len();
    // by width: w / (0.92 mc) = 25 w / (23 mc); by height: h / (5.2 (n + 0.5)) = 5 h / (13 (2n + 1))
    let by_width_smaller = 25 * w * (13 * (2 * n + 1)) <= 5 * h * (23 * mc);
    let v = if by_width_smaller {
        round_div(25 * w, 23 * mc)
    } else {
        round_div(5 * h, 13 * (2 * n + 1))
    };
    clamp(v, 72, 360)
}

pub fn default_font_size(video_w: u32, video_h: u32, lines: &[String]) -> (size: u32)
    ensures
        size == spec_default_font_size(video_w as nat, video_h as nat, views(lines@)),
        72 <= size <= 360,
        size > 72 ==> size <= round_div(5 * video_h as nat, 13 * (2 * lines@.len() + 1)),
        forall|i: int|
            0 <= i < lines@.len() && size > 72 ==> size <= round_div(
                25 * video_w as nat,
                23 * line_chars(#[trigger] lines@[i]@),
            ),
{
    proof {
        lemma_default_font_size_fits(video_w as nat, video_h as nat, views(lines@));
        assert(views(lines@).len() == lines@.len());
        assert forall|i: int| 0 <= i < lines@.len() implies #[trigger] lines@[i]@ == views(lines@)[i] by {}
    }
    let n = lines.len();
    let mut mc: u64 = 0;
    let mut i: usize = 0;
    assert(views(lines@).take(0) =~= Seq::<Seq<char>>::empty());
    while i < n
        invariant
            n == lines@.len(),
            i <= n,
            mc == max_chars(views(lines@).take(i as int)),
        decreases n - i,
    {
        assert(views(lines@).take(i + 1).drop_last() =~= views(lines@).take(i as int));
        assert(views(lines@).take(i + 1).last() == lines@[i as int]@);
        let c = chars_of(lines[i].as_str()).len() as u64;
        let c = if c > 1 {
            c
        } else {
            1
        };
        if c > mc {
            mc = c;
        }
        i = i + 1;
    }
    assert(views(lines@).take(n as int) =~= views(lines@));
    let mc: u128 = if n == 0 {
        4
    } else {
        mc as u128
    };
    let w = video_w as u128;
    let h = video_h as u128;
    let nn = n as u128;
    assert(mc >= 1) by {
        if n > 0 {
            lemma_max_chars_pos(views(lines@));
        }
    }
    assert(25 * w * (13 * (2 * nn + 1)) <= u128::MAX && 5 * h * (23 * mc) <= u128::MAX)
        by (nonlinear_arith)
        requires
            w <= 0xFFFF_FFFFu128,
            h <= 0xFFFF_FFFFu128,
            nn <= 0xFFFF_FFFF_FFFF_FFFFu128,
            mc <= 0xFFFF_FFFF_FFFF_FFFFu128,
    ;
    let v: u128 = if 25 * w * (13 * (2 * nn + 1)) <= 5 * h * (23 * mc) {
        (2 * (25 * w) + 23 * mc) / (2 * (23 * mc))
    } else {
        (2 * (5 * h) + 13 * (2 * nn + 1)) / (2 * (13 * (2 * nn + 1)))
    };
    if v < 72 {
        72
    } else if v > 360 {
        360
    } else {
        v as u32
    }
}

proof fn lemma_max_chars_pos(ls: Seq<Seq<char>>)
    requires
        ls.len() > 0,
    ensures
        max_chars(ls) >= 1,
    decreases ls.len(),
{
}

/// The characters a line counts for: its length, at least one.
pub open spec fn line_chars(l: Seq<char>) -> nat {
    if l.len() > 1 {
        l.len()
    } else {
        1
    }
}

proof fn lemma_max_chars_bounds(ls: Seq<Seq<char>>)
    ensures
        forall|i: int| 0 <= i < ls.len() ==> max_chars(ls) >= line_chars(#[trigger] ls[i]),
        ls.len() > 0 ==> exists|k: int| 0 <= k < ls.len() && max_chars(ls) == line_chars(#[trigger] ls[k]),
    decreases ls.len(),
{
    if ls.len() > 0 {
        let d = ls.drop_last();
        lemma_max_chars_bounds(d);
        assert forall|i: int| 0 <= i < ls.len() implies max_chars(ls) >= line_chars(#[trigger] ls[i]) by {
            if i < ls.len() - 1 {
                assert(ls[i] == d[i]);
            }
        }
        if max_chars(ls) == line_chars(ls.last()) {
            assert(max_chars(ls) == line_chars(ls[ls.len() - 1]));
        } else {
            let k = choose|k: int| 0 <= k < d.len() && max_chars(d) == line_chars(#[trigger] d[k]);
            assert(ls[k] == d[k]);
        }
    }
}

/// Rounding to the nearest whole number keeps the order of fractions.
proof fn lemma_round_div_mono(p1: nat, q1: nat, p2: nat, q2: nat)
    requires
        q1 > 0,
        q2 > 0,
        p1 * q2 <= p2 * q1,
    ensures
        round_div(p1, q1) <= round_div(p2, q2),
{
    let x = round_div(p1, q1);
    let a1 = 2 * p1 + q1;
    let a2 = 2 * p2 + q2;
    assert(a1 * (2 * q2) <= a2 * (2 * q1)) by (nonlinear_arith)
        requires
            p1 * q2 <= p2 * q1,
            a1 == 2 * p1 + q1,
            a2 == 2 * p2 + q2,
    ;
    assert(x * (2 * q1) <= a1) by (nonlinear_arith)
        requires
            x == a1 / (2 * q1),
            q1 > 0,
    ;
    assert(x * (2 * q2) <= a2) by (nonlinear_arith)
        requires
            x * (2 * q1) <= a1,
            a1 * (2 * q2) <= a2 * (2 * q1),
            q1 > 0,
            q2 > 0,
    ;
    assert(x <= a2 / (2 * q2)) by (nonlinear_arith)
        requires
            x * (2 * q2) <= a2,
            q2 > 0,
    ;
}

/// The default size fits the title: above the smallest size, no line is
/// wider than the video (each line's size by width, `w / (0.92 chars)`,
/// rounded, is not exceeded) and the lines fit its height (`h / (5.2
/// (lines + 0.5))`, rounded); below the largest size, one of these limits
/// is reached.
pub proof fn lemma_default_font_size_fits(w: nat, h: nat, ls: Seq<Seq<char>>)
    ensures
        ({
            let size = spec_default_font_size(w, h, ls);
            let by_height = round_div(5 * h, 13 * (2 * ls.len() + 1));
            &&& size > 72 ==> size <= by_height
            &&& forall|i: int|
                0 <= i < ls.len() && size > 72 ==> size <= round_div(
                    25 * w,
                    23 * line_chars(#[trigger] ls[i]),
                )
            &&& size < 360 && ls.len() > 0 ==> (size >= by_height || exists|k: int|
                0 <= k < ls.len() && size >= round_div(25 * w, 23 * line_chars(#[trigger] ls[k])))
        }),
{
    let size = spec_default_font_size(w, h, ls);
    let n = ls.len();
    let mc = if n == 0 {
        4
    } else {
        max_chars(ls)
    };
    lemma_max_chars_bounds(ls);
    if n > 0 {
        lemma_max_chars_pos(ls);
    }
    let bw = round_div(25 * w, 23 * mc);
    let bh = round_div(5 * h, 13 * (2 * n + 1));
    let smaller = 25 * w * (13 * (2 * n + 1)) <= 5 * h * (23 * mc);
    let v = if smaller {
        bw
    } else {
        bh
    };
    if smaller {
        lemma_round_div_mono(25 * w, 23 * mc, 5 * h, 13 * (2 * n + 1));
    } else {
        lemma_round_div_mono(5 * h, 13 * (2 * n + 1), 25 * w, 23 * mc);
    }
    assert(v <= bw && v <= bh);
    assert forall|i: int| 0 <= i < ls.len() && size > 72 implies size <= round_div(
        25 * w,
        23 * line_chars(#[trigger] ls[i]),
    ) by {
        assert(25 * w * (23 * line_chars(ls[i])) <= 25 * w * (23 * mc)) by (nonlinear_arith)
            requires
                line_chars(ls[i]) <= mc,
        ;
        lemma_round_div_mono(25 * w, 23 * mc, 25 * w, 23 * line_chars(ls[i]));
    }
    if size < 360 && n > 0 {
        assert(size >= v);
        if smaller {
            let k = choose|k: int| 0 <= k < ls.len() && max_chars(ls) == line_chars(#[trigger] ls[k]);
            assert(size >= round_div(25 * w, 23 * line_chars(ls[k])));
        }
    }
}

/// The distance between title lines: 0.92 of the font size, rounded.
pub fn line_gap(font_size: u32) -> (gap: u32)
    ensures
        gap == round_div(23 * font_size as nat, 25),
{
    let f = font_size as u64;
    ((2 * (23 * f) + 25) / 50) as u32
}

// ---------------------------------------------------------------------------
// Outline offsets
// ---------------------------------------------------------------------------

/// The sixteen offsets of one outline ring.
pub open spec fn ring_offsets(r: int) -> Seq<(int, int)> {
    let h = r / 2;
    seq![
        (-r, 0),
        (r, 0),
        (0, -r),
        (0, r),
        (-r, -r),
        (-r, r),
        (r, -r),
        (r, r),
        (-h, -r),
        (h, -r),
        (-h, r),
        (h, r),
        (-r, -h),
        (-r, h),
        (r, -h),
        (r, h),
    ]
}

/// The rings `ring`, `ring + step`, ... up to `stroke`, in order.
pub open spec fn ring_sequence(step: int, stroke: int, ring: int) -> Seq<(int, int)>
    decreases stroke + step - ring,
    when step > 0
{
    if ring > stroke {
        Seq::<(int, int)>::empty()
    } else {
        ring_offsets(ring) + ring_sequence(step, stroke, ring + step)
    }
}

/// The offsets at which a title layer's outline is drawn: rings a fifth of
/// the stroke apart (at least 3 pixels), out to the stroke width.
pub open spec fn spec_stroke_offsets(stroke: int) -> Seq<(int, int)> {
    if stroke > 0 {
        let step = if stroke / 5 > 3 {
            stroke / 5
        } else {
            3
        };
        ring_sequence(step, stroke, step)
    } else {
        Seq::<(int, int)>::empty()
    }
}

pub open spec fn offset_views(v: Seq<(i32, i32)>) -> Seq<(int, int)> {
    v.map_values(|p: (i32, i32)| (p.0 as int, p.1 as int))
}

pub fn stroke_offsets(stroke: i32) -> (r: Vec<(i32, i32)>)
    ensures
        offset_views(r@) == spec_stroke_offsets(stroke as int),
{
    let mut r: Vec<(i32, i32)> = Vec::new();
    if stroke <= 0 {
        assert(offset_views(r@) =~= spec_stroke_offsets(stroke as int));
        return r;
    }
    let step: i32 = if stroke / 5 > 3 {
        stroke / 5
    } else {
        3
    };
    let mut ring = step;
    while ring <= stroke
        invariant
            0 < step <= ring,
            step == (if stroke / 5 > 3 {
                stroke / 5
            } else {
                3
            }),
            stroke > 0,
            ring <= stroke + step,
            spec_stroke_offsets(stroke as int) == offset_views(r@) + ring_sequence(
                step as int,
                stroke as int,
                ring as int,
            ),
        decreases stroke - ring,
    {
        let h = ring / 2;
        let ghost before = offset_views(r@);
        r.push((-ring, 0));
        r.push((ring, 0));
        r.push((0, -ring));
        r.push((0, ring));
        r.push((-ring, -ring));
        r.push((-ring, ring));
        r.push((ring, -ring));
        r.push((ring, ring));
        r.push((-h, -ring));
        r.push((h, -ring));
        r.push((-h, ring));
        r.push((h, ring));
        r.push((-ring, -h));
        r.push((-ring, h));
        r.push((ring, -h));
        r.push((ring, h));
        assert(offset_views(r@) =~= before + ring_offsets(ring as int));
        if ring > stroke - step {
            assert(ring_sequence(step as int, stroke as int, (ring + step) as int) =~= Seq::<
                (int, int),
            >::empty());
            assert(offset_views(r@) =~= spec_stroke_offsets(stroke as int));
            return r;
        }
        ring = ring + step;
    }
    assert(offset_views(r@) =~= spec_stroke_offsets(stroke as int));
    r
}

// ---------------------------------------------------------------------------
// Joining the titled head to the rest
// ---------------------------------------------------------------------------

/// A path quoted for an ffmpeg concat list: each `'` becomes `'\''`.
pub open spec fn spec_concat_path(s: Seq<char>) -> Seq<char>
    decreases s.len(),
{
    if s.len() == 0 {
        s
    } else {
        spec_concat_path(s.drop_last()) + if s.last() == '\'' {
            seq!['\'', '\\', '\'', '\'']
        } else {
            seq![s.last()]
        }
    }
}

pub fn concat_path(path: &str) -> (r: String)
    ensures
        r@ == spec_concat_path(path@),
{
    let v = chars_of(path);
    let mut r = String::new();
    let n = v.len();
    let mut i: usize = 0;
    assert(v@.take(0) =~= Seq::<char>::empty());
    while i < n
        invariant
            n == v@.len(),
            i <= n,
            r@ == spec_concat_path(v@.take(i as int)),
        decreases n - i,
    {
        assert(v@.take(i + 1).drop_last() =~= v@.take(i as int));
        assert(v@.take(i + 1).last() == v@[i as int]);
        if v[i] == '\'' {
            push_str(&mut r, "'\\''");
            proof {
                reveal_strlit("'\\''");
            }
        } else {
            push_char(&mut r, v[i]);
        }
        assert(r@ =~= spec_concat_path(v@.take(i + 1)));
        i = i + 1;
    }
    assert(v@.take(n as int) =~= v@);
    r
}

/// The concat list that plays the titled head, then the original from
/// `inpoint` on.
pub open spec fn spec_concat_list(head: Seq<char>, original: Seq<char>, inpoint: nat) -> Seq<char> {
    "file '"@ + spec_concat_path(head) + "'\nfile '"@ + spec_concat_path(original) + "'\ninpoint "@
        + seconds_text(inpoint) + "\n"@
}

pub fn concat_list(head: &str, original: &str, inpoint: u64) -> (r: String)
    ensures
        r@ == spec_concat_list(head@, original@, inpoint as nat),
{
    let mut r = String::from_str("file '");
    let h = concat_path(head);
    push_str(&mut r, h.as_str());
    push_str(&mut r, "'\nfile '");
    let o = concat_path(original);
    push_str(&mut r, o.as_str());
    push_str(&mut r, "'\ninpoint ");
    push_seconds(&mut r, inpoint);
    push_str(&mut r, "\n");
    r
}

/// How long the title shows and whether the rest of the video must be
/// joined after the titled head (when more than 0.05 s is left).
pub fn title_span(requested: u64, video: u64) -> (r: (u64, bool))
    ensures
        r.0 == (if requested <= video {
            requested
        } else {
            video
        }),
        r.1 == (video > r.0 + 50_000),
{
    let t = if requested <= video {
        requested
    } else {
        video
    };
    (t, video > t && video - t > 50_000)
}

// ---------------------------------------------------------------------------
// What ffprobe prints
// ---------------------------------------------------------------------------

/// `WIDTHxHEIGHT`, trimmed: the text before the first `x` and after it,
/// each read as a `u32`.
pub open spec fn spec_parse_dimensions(text: Seq<char>) -> Option<(u32, u32)> {
    let t = trim(text);
    let k = first_index_of(t, 'x');
    if k < t.len() {
        match (parse_unsigned(t.take(k), u32::MAX as nat), parse_unsigned(t.skip(k + 1), u32::MAX as nat)) {
            (Some(w), Some(h)) => Some((w as u32, h as u32)),
            _ => None,
        }
    } else {
        None
    }
}

pub fn parse_dimensions(text: &str) -> (r: Option<(u32, u32)>)
    ensures
        r == spec_parse_dimensions(text@),
{
    let t = trim_chars(&chars_of(text));
    let k = index_of_char(&t, 'x');
    proof {
        lemma_first_index_of(t@, 'x');
    }
    if k >= t.len() {
        return None;
    }
    let mut a: Vec<char> = Vec::new();
    let mut i: usize = 0;
    while i < k
        invariant
            i <= k < t@.len(),
            a@ == t@.take(i as int),
        decreases k - i,
    {
        a.push(t[i]);
        i = i + 1;
    }
    let mut b: Vec<char> = Vec::new();
    let mut j: usize = k + 1;
    while j < t.len()
        invariant
            k + 1 <= j <= t@.len(),
            b@ == t@.subrange(k + 1, j as int),
        decreases t@.len() - j,
    {
        b.push(t[j]);
        j = j + 1;
    }
    assert(b@ =~= t@.skip(k + 1));
    let w = parse_unsigned_chars(&a, 0xFFFF_FFFF);
    let h = parse_unsigned_chars(&b, 0xFFFF_FFFF);
    match (w, h) {
        (Some(w), Some(h)) => Some((w as u32, h as u32)),
        _ => None,
    }
}

/// A duration printed by ffprobe, trimmed, as microseconds.
pub fn parse_duration(text: &str) -> (r: Option<u64>)
    ensures
        r matches Some(x) ==> parse_seconds_micros(trim(text@)) == Some(x as nat),
        r is None ==> parse_seconds_micros(trim(text@)) is None,
{
    let t = trim_chars(&chars_of(text));
    parse_seconds_chars(&t)
}

/// Title paragraphs are never blank and carry no whitespace at either end.
pub proof fn lemma_title_paragraphs(text: Seq<char>)
    ensures
        forall|i: int|
            0 <= i < spec_title_paragraphs(text).len() ==> {
                let p = #[trigger] spec_title_paragraphs(text)[i];
                p.len() > 0 && !is_ws(p[0]) && !is_ws(p.last())
            },
{
    lemma_keep_nonblank(lines(unescape_newlines(text)));
}

/// No paragraph is lost: every line of the title (after `\n` escapes)
/// that is not blank is a paragraph, trimmed, and every paragraph is such
/// a line.
pub proof fn lemma_title_paragraphs_complete(text: Seq<char>)
    ensures
        forall|i: int|
            0 <= i < lines(unescape_newlines(text)).len() && trim(
                #[trigger] lines(unescape_newlines(text))[i],
            ).len() > 0 ==> spec_title_paragraphs(text).contains(
                trim(lines(unescape_newlines(text))[i]),
            ),
        forall|p: Seq<char>| #[trigger]
            spec_title_paragraphs(text).contains(p) ==> p.len() > 0 && exists|i: int|
                0 <= i < lines(unescape_newlines(text)).len() && p == trim(
                    #[trigger] lines(unescape_newlines(text))[i],
                ),
{
    crate::text::lemma_keep_nonblank_complete(lines(unescape_newlines(text)));
}

} // verus!
