//! Capturing screenshots: reading the device and window lists that `adb`
//! and the window server print, naming output files, and choosing which
//! files a batch works on.
use vstd::prelude::*;

use crate::text::{
    chars_of, decimal, find, find_chars, first_index_of, index_of_char, keep_nonempty,
    lemma_first_index_of, lines, push_char, push_decimal, push_str, split_lines, split_words,
    str_eq, string_of_slice, trim, trim_chars, views, words, ends_with, ends_with_str, split_at_char,
};

verus! {

// ---------------------------------------------------------------------------
// Text classes from std
// ---------------------------------------------------------------------------

/// What `str::to_lowercase` returns (full Unicode lower-casing).
pub uninterp spec fn lowercase(s: Seq<char>) -> Seq<char>;

/// `str::to_lowercase`.
#[verifier::external_body]
fn to_lowercase(s: &str) -> (r: String)
    ensures
        r@ == lowercase(s@),
{
    s.to_lowercase()
}

/// Whether `char::is_alphanumeric` holds (Unicode `Alphabetic` or `Numeric`).
pub uninterp spec fn alphanumeric(c: char) -> bool;

/// `char::is_alphanumeric`.
#[verifier::external_body]
fn is_alphanumeric(c: char) -> (b: bool)
    ensures
        b == alphanumeric(c),
{
    c.is_alphanumeric()
}

// ---------------------------------------------------------------------------
// adb
// ---------------------------------------------------------------------------

/// The serial of each attached device in `adb devices` output: lines after
/// the first whose second word is `device`.
pub open spec fn spec_adb_devices(stdout: Seq<char>) -> Seq<Seq<char>> {
    adb_serials(lines(stdout).drop_first())
}

pub open spec fn adb_serials(ls: Seq<Seq<char>>) -> Seq<Seq<char>>
    decreases ls.len(),
{
    if ls.len() == 0 {
        Seq::<Seq<char>>::empty()
    } else {
        let r = adb_serials(ls.drop_last());
        let ws = words(ls.last());
        if ws.len() >= 2 && ws[1] == "device"@ {
            r.push(ws[0])
        } else {
            r
        }
    }
}

proof fn lemma_adb_serials_complete(ls: Seq<Seq<char>>)
    ensures
        forall|i: int|
            0 <= i < ls.len() && words(#[trigger] ls[i]).len() >= 2 && words(ls[i])[1] == "device"@
                ==> adb_serials(ls).contains(words(ls[i])[0]),
        forall|s: Seq<char>| #[trigger]
            adb_serials(ls).contains(s) ==> exists|i: int|
                0 <= i < ls.len() && words(#[trigger] ls[i]).len() >= 2 && words(ls[i])[1]
                    == "device"@ && s == words(ls[i])[0],
    decreases ls.len(),
{
    if ls.len() > 0 {
        let t = ls.drop_last();
        lemma_adb_serials_complete(t);
        let r = adb_serials(t);
        let all = adb_serials(ls);
        assert forall|s: Seq<char>| #[trigger] r.contains(s) implies all.contains(s) by {
            let m = choose|m: int| 0 <= m < r.len() && r[m] == s;
            assert(all[m] == s);
        }
        assert forall|i: int|
            0 <= i < ls.len() && words(#[trigger] ls[i]).len() >= 2 && words(ls[i])[1] == "device"@
                implies all.contains(words(ls[i])[0]) by {
            if i < ls.len() - 1 {
                assert(t[i] == ls[i]);
                assert(r.contains(words(t[i])[0]));
            } else {
                assert(all[all.len() - 1] == words(ls[i])[0]);
            }
        }
        assert forall|s: Seq<char>| #[trigger] all.contains(s) implies exists|i: int|
            0 <= i < ls.len() && words(#[trigger] ls[i]).len() >= 2 && words(ls[i])[1] == "device"@
                && s == words(ls[i])[0] by {
            let m = choose|m: int| 0 <= m < all.len() && all[m] == s;
            if m < r.len() {
                assert(r[m] == s);
                assert(r.contains(s));
                let i = choose|i: int|
                    0 <= i < t.len() && words(#[trigger] t[i]).len() >= 2 && words(t[i])[1]
                        == "device"@ && s == words(t[i])[0];
                assert(ls[i] == t[i]);
            } else {
                assert(ls[ls.len() - 1] == ls.last());
            }
        }
    }
}

/// Every attached device is listed: each line after the header whose
/// second word is `device` gives its first word, and nothing else is
/// listed.
pub proof fn lemma_adb_devices_complete(stdout: Seq<char>)
    ensures
        forall|i: int|
            1 <= i < lines(stdout).len() && words(#[trigger] lines(stdout)[i]).len() >= 2 && words(
                lines(stdout)[i],
            )[1] == "device"@ ==> spec_adb_devices(stdout).contains(words(lines(stdout)[i])[0]),
        forall|s: Seq<char>| #[trigger]
            spec_adb_devices(stdout).contains(s) && lines(stdout).len() > 0 ==> exists|i: int|
                1 <= i < lines(stdout).len() && words(#[trigger] lines(stdout)[i]).len() >= 2
                    && words(lines(stdout)[i])[1] == "device"@ && s == words(lines(stdout)[i])[0],
{
    let ls = lines(stdout);
    let b = ls.drop_first();
    lemma_adb_serials_complete(b);
    assert forall|i: int|
        1 <= i < ls.len() && words(#[trigger] ls[i]).len() >= 2 && words(ls[i])[1] == "device"@
            implies spec_adb_devices(stdout).contains(words(ls[i])[0]) by {
        assert(b[i - 1] == ls[i]);
    }
    assert forall|s: Seq<char>| #[trigger] spec_adb_devices(stdout).contains(s) && ls.len() > 0 implies exists|i: int|
        1 <= i < ls.len() && words(#[trigger] ls[i]).len() >= 2 && words(ls[i])[1] == "device"@
            && s == words(ls[i])[0] by {
        assert(spec_adb_devices(stdout) == adb_serials(b));
        assert(adb_serials(b).contains(s));
        let i = choose|i: int|
            0 <= i < b.len() && words(#[trigger] b[i]).len() >= 2 && words(b[i])[1] == "device"@
                && s == words(b[i])[0];
        assert(ls[i + 1] == b[i]);
    }
}

pub fn parse_adb_devices(stdout: &str) -> (r: Vec<String>)
    ensures
        views(r@) == (if lines(stdout@).len() == 0 {
            Seq::<Seq<char>>::empty()
        } else {
            spec_adb_devices(stdout@)
        }),
{
    let ls = split_lines(&chars_of(stdout));
    let mut r: Vec<String> = Vec::new();
    let n = ls.len();
    if n == 0 {
        return r;
    }
    let ghost body = views(ls@).drop_first();
    let mut i: usize = 1;
    assert(body.take(0) =~= Seq::<Seq<char>>::empty());
    while i < n
        invariant
            n == ls@.len(),
            1 <= i <= n,
            body == views(ls@).drop_first(),
            views(r@) == adb_serials(body.take(i - 1)),
        decreases n - i,
    {
        assert(body.take(i as int).drop_last() =~= body.take(i - 1));
        assert(body.take(i as int).last() == ls@[i as int]@);
        let ws = split_words(&chars_of(ls[i].as_str()));
        if ws.len() >= 2 && str_eq(ws[1].as_str(), "device") {
            let s = ws[0].clone();
            let ghost before = views(r@);
            r.push(s);
            assert(views(r@) =~= before.push(s@));
        }
        i = i + 1;
    }
    assert(body.take(n - 1) =~= body);
    r
}

// ---------------------------------------------------------------------------
// Window list
// ---------------------------------------------------------------------------

/// `str::splitn(n, sep)`: at most `n` pieces, the last one keeping any
/// further separators.
pub open spec fn splitn_char(s: Seq<char>, n: nat, sep: char) -> Seq<Seq<char>>
    decreases n,
{
    let k = first_index_of(s, sep);
    if n <= 1 || k >= s.len() {
        seq![s]
    } else {
        seq![s.take(k)] + splitn_char(s.skip(k + 1), (n - 1) as nat, sep)
    }
}

/// The first `n` pieces, by `splitn`.
pub fn splitn_chars(v: &Vec<char>, n: usize, sep: char) -> (r: Vec<String>)
    ensures
        views(r@) == splitn_char(v@, n as nat, sep),
    decreases n,
{
    let k = index_of_char(v, sep);
    proof {
        lemma_first_index_of(v@, sep);
    }
    if n <= 1 || k >= v.len() {
        let mut r: Vec<String> = Vec::new();
        let s = string_of_slice(v, 0, v.len());
        assert(s@ =~= v@);
        r.push(s);
        assert(views(r@) =~= seq![v@]);
        return r;
    }
    let head = string_of_slice(v, 0, k);
    let tail_s = string_of_slice(v, k + 1, v.len());
    let tail = chars_of(tail_s.as_str());
    assert(tail@ =~= v@.skip(k + 1));
    assert(head@ =~= v@.take(k as int));
    let rest = splitn_chars(&tail, n - 1, sep);
    let mut r: Vec<String> = Vec::new();
    r.push(head);
    let mut rest = rest;
    let ghost rv = views(rest@);
    r.append(&mut rest);
    assert(views(r@) =~= seq![head@] + rv);
    r
}

/// The lines of the window list, without empty ones.
pub open spec fn spec_window_lines(stdout: Seq<char>) -> Seq<Seq<char>> {
    keep_nonempty(lines(trim(stdout)))
}

pub fn window_lines(stdout: &str) -> (r: Vec<String>)
    ensures
        views(r@) == spec_window_lines(stdout@),
{
    let ls = split_lines(&trim_chars(&chars_of(stdout)));
    let mut r: Vec<String> = Vec::new();
    let n = ls.len();
    let mut i: usize = 0;
    assert(views(ls@).take(0) =~= Seq::<Seq<char>>::empty());
    while i < n
        invariant
            n == ls@.len(),
            i <= n,
            views(r@) == keep_nonempty(views(ls@).take(i as int)),
        decreases n - i,
    {
        assert(views(ls@).take(i + 1).drop_last() =~= views(ls@).take(i as int));
        assert(views(ls@).take(i + 1).last() == ls@[i as int]@);
        if !ls[i].as_str().is_empty() {
            let s = ls[i].clone();
            let ghost before = views(r@);
            r.push(s);
            assert(views(r@) =~= before.push(s@));
        }
        i = i + 1;
    }
    assert(views(ls@).take(n as int) =~= views(ls@));
    r
}

/// The fields of a window line `id|app|title|size`.
pub fn window_fields(line: &str) -> (r: Vec<String>)
    ensures
        views(r@) == splitn_char(line@, 4, '|'),
{
    splitn_chars(&chars_of(line), 4, '|')
}

/// A window of the Simulator app: its app name, lower-cased, holds
/// `simulator`.
pub fn is_simulator_app(app_name: &str) -> (b: bool)
    ensures
        b == (find(lowercase(app_name@), "simulator"@) is Some),
{
    let l = to_lowercase(app_name);
    let key = chars_of("simulator");
    find_chars(&chars_of(l.as_str()), &key).is_some()
}

/// An app name made safe for a file name: every character that is not
/// alphanumeric becomes `_`.
pub open spec fn spec_safe_name(s: Seq<char>) -> Seq<char> {
    s.map_values(
        |c: char|
            if alphanumeric(c) {
                c
            } else {
                '_'
            },
    )
}

pub fn safe_name(app: &str) -> (r: String)
    ensures
        r@ == spec_safe_name(app@),
{
    let v = chars_of(app);
    let mut r = String::new();
    let n = v.len();
    let mut i: usize = 0;
    while i < n
        invariant
            n == v@.len(),
            i <= n,
            r@ == spec_safe_name(v@.take(i as int)),
        decreases n - i,
    {
        let c = v[i];
        if is_alphanumeric(c) {
            push_char(&mut r, c);
        } else {
            push_char(&mut r, '_');
        }
        assert(r@ =~= spec_safe_name(v@.take(i + 1)));
        i = i + 1;
    }
    assert(v@.take(n as int) =~= v@);
    r
}

// ---------------------------------------------------------------------------
// Output names
// ---------------------------------------------------------------------------

/// The default output of a capture: a full screenshot with a title, the
/// raw capture when no frame is wanted, else a mockup.
pub open spec fn spec_capture_suffix(has_title: bool, no_mockup: bool) -> Seq<char> {
    if has_title {
        "screenshot"@
    } else if no_mockup {
        "raw"@
    } else {
        "mockup"@
    }
}

pub fn capture_suffix(has_title: bool, no_mockup: bool) -> (s: &'static str)
    ensures
        s@ == spec_capture_suffix(has_title, no_mockup),
{
    if has_title {
        "screenshot"
    } else if no_mockup {
        "raw"
    } else {
        "mockup"
    }
}

/// `<prefix>-<timestamp>-<suffix>.png`.
pub open spec fn spec_capture_name(prefix: Seq<char>, timestamp: nat, suffix: Seq<char>) -> Seq<char> {
    prefix + "-"@ + decimal(timestamp) + "-"@ + suffix + ".png"@
}

pub fn capture_name(prefix: &str, timestamp: u64, suffix: &str) -> (r: String)
    ensures
        r@ == spec_capture_name(prefix@, timestamp as nat, suffix@),
{
    let mut r = String::from_str(prefix);
    push_str(&mut r, "-");
    push_decimal(&mut r, timestamp);
    push_str(&mut r, "-");
    push_str(&mut r, suffix);
    push_str(&mut r, ".png");
    r
}

/// `<stem>-<suffix>.png`, the name a batch gives each output.
pub fn derived_name(stem: &str, suffix: &str) -> (r: String)
    ensures
        r@ == stem@ + "-"@ + suffix@ + ".png"@,
{
    let mut r = String::from_str(stem);
    push_str(&mut r, "-");
    push_str(&mut r, suffix);
    push_str(&mut r, ".png");
    r
}

/// The image files a batch takes: extensions `png`, `jpg`, `jpeg` and
/// `webp`, in any case.
pub open spec fn spec_is_image_extension(ext: Seq<char>) -> bool {
    let l = lowercase(ext);
    l == "png"@ || l == "jpg"@ || l == "jpeg"@ || l == "webp"@
}

pub fn is_image_extension(ext: &str) -> (b: bool)
    ensures
        b == spec_is_image_extension(ext@),
{
    let l = to_lowercase(ext);
    let s = l.as_str();
    str_eq(s, "png") || str_eq(s, "jpg") || str_eq(s, "jpeg") || str_eq(s, "webp")
}

pub open spec fn ascii_lower(c: char) -> char {
    if 65 <= (c as u32) <= 90 {
        ((c as u32) + 32) as char
    } else {
        c
    }
}

/// `str::eq_ignore_ascii_case`.
pub open spec fn eq_ignore_ascii_case(a: Seq<char>, b: Seq<char>) -> bool {
    a.len() == b.len() && forall|i: int| 0 <= i < a.len() ==> ascii_lower(a[i]) == ascii_lower(b[i])
}

fn char_ascii_lower(c: char) -> (r: char)
    ensures
        r == ascii_lower(c),
{
    let n = c as u32;
    if 65 <= n && n <= 90 {
        let b: u8 = (n + 32) as u8;
        let r = b as char;
        assert(r == ascii_lower(c));
        r
    } else {
        c
    }
}

pub fn eq_ignore_ascii_case_str(a: &str, b: &str) -> (r: bool)
    ensures
        r == eq_ignore_ascii_case(a@, b@),
{
    let x = chars_of(a);
    let y = chars_of(b);
    if x.len() != y.len() {
        return false;
    }
    let mut i: usize = 0;
    while i < x.len()
        invariant
            x@ == a@,
            y@ == b@,
            x.len() == y.len(),
            i <= x.len(),
            forall|j: int| 0 <= j < i ==> ascii_lower(x@[j]) == ascii_lower(y@[j]),
        decreases x.len() - i,
    {
        if char_ascii_lower(x[i]) != char_ascii_lower(y[i]) {
            return false;
        }
        i = i + 1;
    }
    true
}

/// The clips a recording session keeps: `.mp4` files (any case) that are
/// not framed copies.
pub open spec fn spec_is_clip_file(ext: Seq<char>, stem: Seq<char>) -> bool {
    eq_ignore_ascii_case(ext, "mp4"@) && !ends_with(stem, "-framed"@)
}

pub fn is_clip_file(ext: &str, stem: &str) -> (b: bool)
    ensures
        b == spec_is_clip_file(ext@, stem@),
{
    eq_ignore_ascii_case_str(ext, "mp4") && !ends_with_str(stem, "-framed")
}

/// A name made safe for a session directory: characters other than ASCII
/// letters, digits, `-` and `_` become `_`, leading and trailing `_` are
/// dropped, and an empty result becomes `recording`.
pub open spec fn name_char(c: char) -> char {
    if crate::text::is_ascii_alnum(c) || c == '-' || c == '_' {
        c
    } else {
        '_'
    }
}

pub open spec fn spec_sanitize_name(name: Seq<char>) -> Seq<char> {
    let t = crate::text::trim_char(name.map_values(|c: char| name_char(c)), '_');
    if t.len() == 0 {
        "recording"@
    } else {
        t
    }
}

pub fn sanitize_name(name: &str) -> (r: String)
    ensures
        r@ == spec_sanitize_name(name@),
{
    let v = chars_of(name);
    let mut m: Vec<char> = Vec::new();
    let n = v.len();
    let mut i: usize = 0;
    while i < n
        invariant
            n == v@.len(),
            i <= n,
            m@ == v@.take(i as int).map_values(|c: char| name_char(c)),
        decreases n - i,
    {
        let c = v[i];
        let d = if crate::text::char_is_ascii_alnum(c) || c == '-' || c == '_' {
            c
        } else {
            '_'
        };
        m.push(d);
        assert(m@ =~= v@.take(i + 1).map_values(|c: char| name_char(c)));
        i = i + 1;
    }
    assert(v@.take(n as int) =~= v@);
    let t = crate::text::trim_char_chars(&m, '_');
    if t.len() == 0 {
        String::from_str("recording")
    } else {
        crate::text::string_of(&t)
    }
}

/// A screenshot the watcher saves is numbered with at least three digits.
pub open spec fn spec_numbered_png(n: nat) -> Seq<char> {
    let d = decimal(n);
    let pad = if d.len() < 3 {
        Seq::new((3 - d.len()) as nat, |i: int| '0')
    } else {
        Seq::<char>::empty()
    };
    pad + d + ".png"@
}

pub fn numbered_png(n: u32) -> (r: String)
    ensures
        r@ == spec_numbered_png(n as nat),
{
    let d = crate::text::decimal_string(n as u64);
    let len = chars_of(d.as_str()).len();
    let mut r = String::new();
    let mut k: usize = len;
    while k < 3
        invariant
            len == decimal(n as nat).len(),
            len <= k <= 3 || (len > 3 && k == len),
            r@ == Seq::new((k - len) as nat, |i: int| '0'),
        decreases 3 - k,
    {
        push_char(&mut r, '0');
        assert(r@ =~= Seq::new((k + 1 - len) as nat, |i: int| '0'));
        k = k + 1;
    }
    push_str(&mut r, d.as_str());
    push_str(&mut r, ".png");
    assert(r@ =~= spec_numbered_png(n as nat));
    r
}

/// A sanitized name is never empty, has only ASCII letters, digits, `-`
/// and `_`, and neither starts nor ends with `_`.
pub proof fn lemma_sanitize_name(name: Seq<char>)
    ensures
        ({
            let r = spec_sanitize_name(name);
            &&& r.len() > 0
            &&& r[0] != '_' && r.last() != '_'
            &&& forall|i: int|
                0 <= i < r.len() ==> (crate::text::is_ascii_alnum(#[trigger] r[i]) || r[i] == '-'
                    || r[i] == '_')
        }),
{
    let m = name.map_values(|c: char| name_char(c));
    crate::text::lemma_trim_char(m, '_');
    let t = crate::text::trim_char(m, '_');
    if t.len() == 0 {
        reveal_strlit("recording");
        let r = "recording"@;
        assert(r.len() == 9);
        assert forall|i: int| 0 <= i < r.len() implies (crate::text::is_ascii_alnum(#[trigger] r[i])
            || r[i] == '-' || r[i] == '_') by {
            assert(crate::text::is_ascii_alnum(r[i]));
        }
    } else {
        assert forall|i: int| 0 <= i < t.len() implies (crate::text::is_ascii_alnum(#[trigger] t[i])
            || t[i] == '-' || t[i] == '_') by {
            assert(m.contains(t[i]));
            let k = choose|k: int| 0 <= k < m.len() && m[k] == t[i];
            assert(m[k] == name_char(name[k]));
        }
    }
}

/// Sanitizing a sanitized name changes nothing.
pub proof fn lemma_sanitize_name_idempotent(name: Seq<char>)
    ensures
        spec_sanitize_name(spec_sanitize_name(name)) == spec_sanitize_name(name),
{
    let r = spec_sanitize_name(name);
    lemma_sanitize_name(name);
    let m = r.map_values(|c: char| name_char(c));
    assert(m =~= r) by {
        assert forall|i: int| 0 <= i < r.len() implies m[i] == r[i] by {
            assert(crate::text::is_ascii_alnum(r[i]) || r[i] == '-' || r[i] == '_');
        }
    }
    assert(crate::text::trim_char_start(r, '_') == r);
    assert(crate::text::trim_char_end(r, '_') == r);
}

} // verus!
