//! Character-level text processing shared by the rest of the library:
//! whitespace trimming, line and word splitting, substring search,
//! decimal formatting and parsing, all stated over `Seq<char>`.
use vstd::prelude::*;

verus! {

// ---------------------------------------------------------------------------
// Character classes
// ---------------------------------------------------------------------------

/// The Unicode `White_Space` property, which is what `char::is_whitespace`
/// tests and what `str::trim` and `str::split_whitespace` use.
pub open spec fn is_ws(c: char) -> bool {
    let n = c as u32;
    ||| 0x9 <= n <= 0xd
    ||| n == 0x20
    ||| n == 0x85
    ||| n == 0xa0
    ||| n == 0x1680
    ||| 0x2000 <= n <= 0x200a
    ||| n == 0x2028
    ||| n == 0x2029
    ||| n == 0x202f
    ||| n == 0x205f
    ||| n == 0x3000
}

pub fn char_is_ws(c: char) -> (b: bool)
    ensures
        b == is_ws(c),
{
    let n = c as u32;
    (0x9 <= n && n <= 0xd) || n == 0x20 || n == 0x85 || n == 0xa0 || n == 0x1680 || (0x2000 <= n
        && n <= 0x200a) || n == 0x2028 || n == 0x2029 || n == 0x202f || n == 0x205f || n == 0x3000
}

pub open spec fn is_digit(c: char) -> bool {
    48 <= (c as u32) <= 57
}

pub open spec fn digit_val(c: char) -> nat {
    ((c as u32) - 48) as nat
}

pub open spec fn is_ascii_alnum(c: char) -> bool {
    let n = c as u32;
    (48 <= n <= 57) || (65 <= n <= 90) || (97 <= n <= 122)
}

pub fn char_is_ascii_alnum(c: char) -> (b: bool)
    ensures
        b == is_ascii_alnum(c),
{
    let n = c as u32;
    (48 <= n && n <= 57) || (65 <= n && n <= 90) || (97 <= n && n <= 122)
}

// ---------------------------------------------------------------------------
// Conversions between `str`, `String` and `Vec<char>`
// ---------------------------------------------------------------------------

/// `String::push` appends one character.
#[verifier::external_body]
pub(crate) fn push_char(s: &mut String, c: char)
    ensures
        final(s)@ == old(s)@.push(c),
{
    s.push(c);
}

pub fn push_str(s: &mut String, t: &str)
    ensures
        final(s)@ == old(s)@ + t@,
{
    s.append(t);
}

pub fn chars_of(s: &str) -> (v: Vec<char>)
    ensures
        v@ == s@,
{
    let mut v: Vec<char> = Vec::new();
    for c in it: s.chars()
        invariant
            v@ == it.seq().take(it.index() as int),
            it.seq() == s@,
    {
        v.push(c);
    }
    v
}

pub fn string_of(v: &Vec<char>) -> (s: String)
    ensures
        s@ == v@,
{
    let mut s = String::new();
    for i in 0..v.len()
        invariant
            s@ == v@.take(i as int),
    {
        push_char(&mut s, v[i]);
    }
    s
}

pub fn string_of_slice(v: &Vec<char>, lo: usize, hi: usize) -> (s: String)
    requires
        lo <= hi <= v@.len(),
    ensures
        s@ == v@.subrange(lo as int, hi as int),
{
    let mut s = String::new();
    let mut i = lo;
    while i < hi
        invariant
            lo <= i <= hi <= v@.len(),
            s@ == v@.subrange(lo as int, i as int),
        decreases hi - i,
    {
        push_char(&mut s, v[i]);
        i = i + 1;
    }
    s
}

pub fn str_eq(a: &str, b: &str) -> (r: bool)
    ensures
        r == (a@ == b@),
{
    let x = chars_of(a);
    let y = chars_of(b);
    if x.len() != y.len() {
        return false;
    }
    let mut i: usize = 0;
    while i < x.len()
        invariant
            x@ == a@,
            y@ == b@,
            x.len() == y.len(),
            i <= x.len(),
            forall|j: int| 0 <= j < i ==> x@[j] == y@[j],
        decreases x.len() - i,
    {
        if x[i] != y[i] {
            return false;
        }
        i = i + 1;
    }
    assert(x@ =~= y@);
    true
}

// ---------------------------------------------------------------------------
// Trimming
// ---------------------------------------------------------------------------

pub open spec fn trim_start(s: Seq<char>) -> Seq<char>
    decreases s.len(),
{
    if s.len() > 0 && is_ws(s[0]) {
        trim_start(s.drop_first())
    } else {
        s
    }
}

pub open spec fn trim_end(s: Seq<char>) -> Seq<char>
    decreases s.len(),
{
    if s.len() > 0 && is_ws(s.last()) {
        trim_end(s.drop_last())
    } else {
        s
    }
}

/// What `str::trim` returns.
pub open spec fn trim(s: Seq<char>) -> Seq<char> {
    trim_end(trim_start(s))
}

pub fn trim_chars(v: &Vec<char>) -> (r: Vec<char>)
    ensures
        r@ == trim(v@),
{
    let n = v.len();
    let mut i: usize = 0;
    assert(v@.skip(0) =~= v@);
    while i < n && char_is_ws(v[i])
        invariant
            n == v@.len(),
            i <= n,
            trim_start(v@) == trim_start(v@.skip(i as int)),
        decreases n - i,
    {
        assert(v@.skip(i as int).drop_first() =~= v@.skip(i + 1));
        i = i + 1;
    }
    let mut j: usize = n;
    assert(v@.skip(i as int) =~= v@.subrange(i as int, j as int));
    while j > i && char_is_ws(v[j - 1])
        invariant
            n == v@.len(),
            i <= j <= n,
            trim(v@) == trim_end(v@.subrange(i as int, j as int)),
        decreases j - i,
    {
        assert(v@.subrange(i as int, j as int).drop_last() =~= v@.subrange(i as int, j - 1));
        j = j - 1;
    }
    let mut r: Vec<char> = Vec::new();
    let mut k = i;
    while k < j
        invariant
            i <= k <= j <= n,
            n == v@.len(),
            r@ == v@.subrange(i as int, k as int),
        decreases j - k,
    {
        r.push(v[k]);
        k = k + 1;
    }
    r
}

pub fn trim_str(s: &str) -> (r: String)
    ensures
        r@ == trim(s@),
{
    let v = chars_of(s);
    let t = trim_chars(&v);
    string_of(&t)
}

// ---------------------------------------------------------------------------
// Splitting
// ---------------------------------------------------------------------------

/// `str::split(sep)`: the pieces between occurrences of `sep`, always at
/// least one.
pub open spec fn split_at_char(s: Seq<char>, sep: char) -> Seq<Seq<char>>
    decreases s.len(),
{
    if s.len() == 0 {
        seq![Seq::<char>::empty()]
    } else {
        let init = split_at_char(s.drop_last(), sep);
        if s.last() == sep {
            init.push(Seq::<char>::empty())
        } else {
            init.update(init.len() - 1, init.last().push(s.last()))
        }
    }
}

/// `str::split(char::is_whitespace)`.
pub open spec fn split_at_ws(s: Seq<char>) -> Seq<Seq<char>>
    decreases s.len(),
{
    if s.len() == 0 {
        seq![Seq::<char>::empty()]
    } else {
        let init = split_at_ws(s.drop_last());
        if is_ws(s.last()) {
            init.push(Seq::<char>::empty())
        } else {
            init.update(init.len() - 1, init.last().push(s.last()))
        }
    }
}

pub proof fn lemma_split_at_char_len(s: Seq<char>, sep: char)
    ensures
        split_at_char(s, sep).len() >= 1,
    decreases s.len(),
{
    if s.len() > 0 {
        lemma_split_at_char_len(s.drop_last(), sep);
    }
}

pub proof fn lemma_split_at_ws_len(s: Seq<char>)
    ensures
        split_at_ws(s).len() >= 1,
    decreases s.len(),
{
    if s.len() > 0 {
        lemma_split_at_ws_len(s.drop_last());
    }
}

/// The non-empty pieces of `p`, in order.
pub open spec fn keep_nonempty(p: Seq<Seq<char>>) -> Seq<Seq<char>>
    decreases p.len(),
{
    if p.len() == 0 {
        p
    } else {
        let r = keep_nonempty(p.drop_last());
        if p.last().len() > 0 {
            r.push(p.last())
        } else {
            r
        }
    }
}

/// `str::split_whitespace`: the non-empty pieces between whitespace.
pub open spec fn words(s: Seq<char>) -> Seq<Seq<char>> {
    keep_nonempty(split_at_ws(s))
}

pub open spec fn strip_cr(line: Seq<char>) -> Seq<char> {
    if line.len() > 0 && line.last() == '\r' {
        line.drop_last()
    } else {
        line
    }
}

/// `str::lines`: pieces ended by `\n` lose that `\n` and one `\r` before
/// it; a final empty piece is not a line.
pub open spec fn lines(s: Seq<char>) -> Seq<Seq<char>> {
    let parts = split_at_char(s, '\n');
    let ended = parts.drop_last().map_values(|p: Seq<char>| strip_cr(p));
    if parts.last().len() == 0 {
        ended
    } else {
        ended.push(parts.last())
    }
}

pub open spec fn views(v: Seq<String>) -> Seq<Seq<char>> {
    v.map_values(|s: String| s@)
}

/// Splits at every occurrence of `sep`.
pub fn split_char(v: &Vec<char>, sep: char) -> (r: Vec<String>)
    ensures
        views(r@) == split_at_char(v@, sep),
{
    let mut done: Vec<String> = Vec::new();
    let mut cur = String::new();
    let n = v.len();
    let mut i: usize = 0;
    while i < n
        invariant
            n == v@.len(),
            i <= n,
            views(done@).push(cur@) == split_at_char(v@.take(i as int), sep),
        decreases n - i,
    {
        let c = v[i];
        assert(v@.take(i + 1).drop_last() =~= v@.take(i as int));
        proof {
            lemma_split_at_char_len(v@.take(i as int), sep);
        }
        if c == sep {
            done.push(cur);
            cur = String::new();
            assert(views(done@).push(cur@) =~= split_at_char(v@.take(i + 1), sep));
        } else {
            push_char(&mut cur, c);
            assert(views(done@).push(cur@) =~= split_at_char(v@.take(i + 1), sep));
        }
        i = i + 1;
    }
    assert(v@.take(n as int) =~= v@);
    done.push(cur);
    assert(views(done@) =~= split_at_char(v@, sep));
    done
}

/// `str::lines`.
pub fn split_lines(v: &Vec<char>) -> (r: Vec<String>)
    ensures
        views(r@) == lines(v@),
{
    let parts = split_char(v, '\n');
    proof {
        lemma_split_at_char_len(v@, '\n');
    }
    let last = parts.len() - 1;
    let mut r: Vec<String> = Vec::new();
    let mut i: usize = 0;
    while i < last
        invariant
            last + 1 == parts.len(),
            views(parts@) == split_at_char(v@, '\n'),
            i <= last,
            views(r@) == views(parts@).take(i as int).map_values(|p: Seq<char>| strip_cr(p)),
        decreases last - i,
    {
        let p = chars_of(parts[i].as_str());
        let k = p.len();
        let line = if k > 0 && p[k - 1] == '\r' {
            assert(p@.subrange(0, k - 1) =~= p@.drop_last());
            string_of_slice(&p, 0, k - 1)
        } else {
            assert(p@.subrange(0, k as int) =~= p@);
            string_of_slice(&p, 0, k)
        };
        assert(line@ == strip_cr(parts@[i as int]@));
        let ghost before = views(r@);
        r.push(line);
        assert(views(r@) =~= before.push(line@));
        assert(views(parts@).take(i + 1) =~= views(parts@).take(i as int).push(parts@[i as int]@));
        assert(views(parts@).take(i + 1).map_values(|p: Seq<char>| strip_cr(p))
            =~= views(parts@).take(i as int).map_values(|p: Seq<char>| strip_cr(p)).push(strip_cr(parts@[i as int]@)));
        assert(views(r@) =~= views(parts@).take(i + 1).map_values(|p: Seq<char>| strip_cr(p)));
        i = i + 1;
    }
    assert(views(parts@).take(last as int) =~= views(parts@).drop_last());
    let tail = chars_of(parts[last].as_str());
    if tail.len() > 0 {
        r.push(string_of(&tail));
        assert(views(r@) =~= lines(v@));
    }
    r
}

/// `str::split_whitespace`.
pub fn split_words(v: &Vec<char>) -> (r: Vec<String>)
    ensures
        views(r@) == words(v@),
{
    let mut done: Vec<String> = Vec::new();
    let mut cur = String::new();
    let n = v.len();
    let mut i: usize = 0;
    let ghost mut parts: Seq<Seq<char>> = seq![Seq::<char>::empty()];
    while i < n
        invariant
            n == v@.len(),
            i <= n,
            parts == split_at_ws(v@.take(i as int)),
            parts.len() >= 1,
            parts.last() == cur@,
            views(done@) == keep_nonempty(parts.drop_last()),
        decreases n - i,
    {
        let c = v[i];
        assert(v@.take(i + 1).drop_last() =~= v@.take(i as int));
        if char_is_ws(c) {
            let ghost old_parts = parts;
            proof {
                parts = parts.push(Seq::<char>::empty());
                assert(parts.drop_last() =~= old_parts);
            }
            if cur.as_str().is_empty() {
                assert(cur@.len() == 0);
            } else {
                done.push(cur);
            }
            cur = String::new();
            assert(views(done@) =~= keep_nonempty(parts.drop_last()));
        } else {
            let ghost old_parts = parts;
            proof {
                parts = parts.update(parts.len() - 1, parts.last().push(c));
                assert(parts.drop_last() =~= old_parts.drop_last());
            }
            push_char(&mut cur, c);
        }
        i = i + 1;
    }
    assert(v@.take(n as int) =~= v@);
    if !cur.as_str().is_empty() {
        done.push(cur);
    }
    assert(views(done@) =~= keep_nonempty(parts));
    done
}

// ---------------------------------------------------------------------------
// Searching
// ---------------------------------------------------------------------------

/// First position at or after `i` where `key` occurs in `s`.
pub open spec fn find_from(s: Seq<char>, key: Seq<char>, i: int) -> Option<int>
    decreases s.len() + 1 - i,
{
    if i < 0 || i + key.len() > s.len() {
        None
    } else if s.subrange(i, i + key.len()) == key {
        Some(i)
    } else {
        find_from(s, key, i + 1)
    }
}

/// `str::find`, counted in characters.
pub open spec fn find(s: Seq<char>, key: Seq<char>) -> Option<int> {
    find_from(s, key, 0)
}

pub fn find_chars(v: &Vec<char>, key: &Vec<char>) -> (r: Option<usize>)
    ensures
        r matches Some(i) ==> find(v@, key@) == Some(i as int),
        r is None ==> find(v@, key@) is None,
{
    let n = v.len();
    let k = key.len();
    if k > n {
        return None;
    }
    let mut i: usize = 0;
    while i <= n - k
        invariant
            n == v@.len(),
            k == key@.len(),
            k <= n,
            i <= n,
            find(v@, key@) == find_from(v@, key@, i as int),
        decreases n - i,
    {
        let mut j: usize = 0;
        let mut same = true;
        while j < k
            invariant
                n == v@.len(),
                k == key@.len(),
                i + k <= n,
                j <= k,
                same == (forall|t: int| 0 <= t < j ==> v@[i + t] == key@[t]),
            decreases k - j,
        {
            if v[i + j] != key[j] {
                same = false;
            }
            j = j + 1;
        }
        if same {
            assert(v@.subrange(i as int, i + k) =~= key@);
            return Some(i);
        }
        assert(v@.subrange(i as int, i + k) != key@ ==> true);
        assert(!(v@.subrange(i as int, i + k) =~= key@));
        i = i + 1;
    }
    None
}

pub open spec fn ends_with(s: Seq<char>, suffix: Seq<char>) -> bool {
    s.len() >= suffix.len() && s.subrange(s.len() - suffix.len(), s.len() as int) == suffix
}

pub fn ends_with_str(s: &str, suffix: &str) -> (r: bool)
    ensures
        r == ends_with(s@, suffix@),
{
    let v = chars_of(s);
    let w = chars_of(suffix);
    if w.len() > v.len() {
        return false;
    }
    let off = v.len() - w.len();
    let mut j: usize = 0;
    while j < w.len()
        invariant
            v@ == s@,
            w@ == suffix@,
            off + w.len() == v.len(),
            j <= w.len(),
            forall|t: int| 0 <= t < j ==> v@[off + t] == w@[t],
        decreases w.len() - j,
    {
        if v[off + j] != w[j] {
            assert(v@.subrange(off as int, v.len() as int)[j as int] != w@[j as int]);
            return false;
        }
        j = j + 1;
    }
    assert(v@.subrange(off as int, v.len() as int) =~= w@);
    true
}

// ---------------------------------------------------------------------------
// Decimal numbers
// ---------------------------------------------------------------------------

pub open spec fn digit_char(d: nat) -> char {
    (48 + d) as char
}

/// The decimal digits of `n`, most significant first, without leading zeros.
pub open spec fn decimal(n: nat) -> Seq<char>
    decreases n,
{
    if n < 10 {
        seq![digit_char(n)]
    } else {
        decimal(n / 10).push(digit_char(n % 10))
    }
}

pub fn digit_of(d: u64) -> (c: char)
    requires
        d < 10,
    ensures
        c == digit_char(d as nat),
        is_digit(c),
        digit_val(c) == d,
{
    let b: u8 = 48u8 + (d as u8);
    let c = b as char;
    assert(c == digit_char(d as nat));
    c
}

pub fn push_decimal(s: &mut String, n: u64)
    ensures
        final(s)@ == old(s)@ + decimal(n as nat),
    decreases n,
{
    if n >= 10 {
        push_decimal(s, n / 10);
    }
    push_char(s, digit_of(n % 10));
    assert(final(s)@ =~= old(s)@ + decimal(n as nat)) by {
        if n >= 10 {
            assert(decimal(n as nat) == decimal((n / 10) as nat).push(digit_char((n % 10) as nat)));
        }
    }
}

pub fn decimal_string(n: u64) -> (s: String)
    ensures
        s@ == decimal(n as nat),
{
    let mut s = String::new();
    push_decimal(&mut s, n);
    assert(s@ =~= decimal(n as nat));
    s
}

pub open spec fn all_digits(s: Seq<char>) -> bool {
    forall|i: int| 0 <= i < s.len() ==> is_digit(#[trigger] s[i])
}

/// The number that the decimal digits `s` spell.
pub open spec fn digits_value(s: Seq<char>) -> nat
    decreases s.len(),
{
    if s.len() == 0 {
        0
    } else {
        digits_value(s.drop_last()) * 10 + digit_val(s.last())
    }
}

pub proof fn lemma_digits_value_prefix(s: Seq<char>, k: int)
    requires
        0 <= k <= s.len(),
    ensures
        digits_value(s.take(k)) <= digits_value(s),
    decreases s.len(),
{
    if k < s.len() {
        assert(s.drop_last().take(k) =~= s.take(k));
        lemma_digits_value_prefix(s.drop_last(), k);
    } else {
        assert(s.take(k) =~= s);
    }
}

/// Reads the digits `v[lo..hi]`; `None` when one is not a digit or the value
/// exceeds `max`.
pub fn parse_digits(v: &Vec<char>, lo: usize, hi: usize, max: u64) -> (r: Option<u64>)
    requires
        lo <= hi <= v@.len(),
    ensures
        ({
            let sub = v@.subrange(lo as int, hi as int);
            match r {
                Some(x) => all_digits(sub) && digits_value(sub) == x && x <= max,
                None => !(all_digits(sub) && digits_value(sub) <= max),
            }
        }),
{
    let ghost sub = v@.subrange(lo as int, hi as int);
    let mut acc: u64 = 0;
    let mut i = lo;
    assert(sub.take(0) =~= Seq::<char>::empty());
    while i < hi
        invariant
            lo <= i <= hi <= v@.len(),
            sub == v@.subrange(lo as int, hi as int),
            all_digits(sub.take(i - lo)),
            digits_value(sub.take(i - lo)) == acc,
            acc <= max,
        decreases hi - i,
    {
        let c = v[i];
        let n = c as u32;
        assert(sub[i - lo] == c);
        if n < 48 || n > 57 {
            assert(!is_digit(sub[i - lo]));
            return None;
        }
        let d = (n - 48) as u64;
        assert(sub.take(i + 1 - lo).drop_last() =~= sub.take(i - lo));
        assert(sub.take(i + 1 - lo).last() == c);
        if d > max || acc > (max - d) / 10 {
            assert(digits_value(sub.take(i + 1 - lo)) > max) by (nonlinear_arith)
                requires
                    digits_value(sub.take(i + 1 - lo)) == acc * 10 + d,
                    d > max || acc > (max - d) / 10,
            ;
            proof {
                if all_digits(sub) {
                    lemma_digits_value_prefix(sub, i + 1 - lo);
                }
            }
            return None;
        }
        assert(acc * 10 + d <= max) by (nonlinear_arith)
            requires
                d <= max,
                acc <= (max - d) / 10,
        ;
        acc = acc * 10 + d;
        i = i + 1;
    }
    assert(sub.take(hi - lo) =~= sub);
    Some(acc)
}

pub fn all_digits_in(v: &Vec<char>, lo: usize, hi: usize) -> (r: bool)
    requires
        lo <= hi <= v@.len(),
    ensures
        r == all_digits(v@.subrange(lo as int, hi as int)),
{
    let ghost sub = v@.subrange(lo as int, hi as int);
    let mut i = lo;
    while i < hi
        invariant
            lo <= i <= hi <= v@.len(),
            sub == v@.subrange(lo as int, hi as int),
            forall|j: int| 0 <= j < i - lo ==> is_digit(#[trigger] sub[j]),
        decreases hi - i,
    {
        let n = v[i] as u32;
        assert(sub[i - lo] == v@[i as int]);
        if n < 48 || n > 57 {
            return false;
        }
        i = i + 1;
    }
    true
}

pub open spec fn unsigned_body(s: Seq<char>) -> Seq<char> {
    if s.len() > 0 && s[0] == '+' {
        s.drop_first()
    } else {
        s
    }
}

/// `str::parse` for an unsigned integer type whose largest value is `max`:
/// an optional `+`, then at least one decimal digit and nothing else.
pub open spec fn parse_unsigned(s: Seq<char>, max: nat) -> Option<nat> {
    let b = unsigned_body(s);
    if b.len() > 0 && all_digits(b) && digits_value(b) <= max {
        Some(digits_value(b))
    } else {
        None
    }
}

pub fn parse_unsigned_chars(v: &Vec<char>, max: u64) -> (r: Option<u64>)
    ensures
        r matches Some(x) ==> parse_unsigned(v@, max as nat) == Some(x as nat),
        r is None ==> parse_unsigned(v@, max as nat) is None,
{
    let n = v.len();
    let lo: usize = if n > 0 && v[0] == '+' {
        1
    } else {
        0
    };
    assert(unsigned_body(v@) =~= v@.subrange(lo as int, n as int));
    if lo == n {
        return None;
    }
    parse_digits(v, lo, n, max)
}

pub open spec fn first_index_of(s: Seq<char>, c: char) -> int
    decreases s.len(),
{
    if s.len() == 0 {
        0
    } else if s[0] == c {
        0
    } else {
        1 + first_index_of(s.drop_first(), c)
    }
}

pub proof fn lemma_first_index_of(s: Seq<char>, c: char)
    ensures
        0 <= first_index_of(s, c) <= s.len(),
        first_index_of(s, c) < s.len() ==> s[first_index_of(s, c)] == c,
        forall|j: int| 0 <= j < first_index_of(s, c) ==> s[j] != c,
    decreases s.len(),
{
    if s.len() > 0 && s[0] != c {
        lemma_first_index_of(s.drop_first(), c);
        assert forall|j: int| 0 <= j < first_index_of(s, c) implies s[j] != c by {
            if j > 0 {
                assert(s[j] == s.drop_first()[j - 1]);
            }
        }
    }
}

pub fn index_of_char(v: &Vec<char>, c: char) -> (i: usize)
    ensures
        i as int == first_index_of(v@, c),
{
    let n = v.len();
    let mut i: usize = 0;
    proof {
        lemma_first_index_of(v@, c);
    }
    while i < n && v[i] != c
        invariant
            n == v@.len(),
            i <= first_index_of(v@, c),
            0 <= first_index_of(v@, c) <= n,
            first_index_of(v@, c) < n ==> v@[first_index_of(v@, c)] == c,
            forall|j: int| 0 <= j < first_index_of(v@, c) ==> v@[j] != c,
        decreases n - i,
    {
        i = i + 1;
    }
    i
}

pub open spec fn pow10(k: nat) -> nat
    decreases k,
{
    if k == 0 {
        1
    } else {
        10 * pow10((k - 1) as nat)
    }
}

/// Fractional digits as millionths; digits past the sixth are dropped.
pub open spec fn micros_of_fraction(f: Seq<char>) -> nat {
    if f.len() >= 6 {
        digits_value(f.take(6))
    } else {
        digits_value(f) * pow10((6 - f.len()) as nat)
    }
}

/// A plain decimal number of seconds (`12`, `1.25`, `+.5`, `3.`), read as a
/// whole number of microseconds, truncated; `None` when the text is not
/// such a number or the value does not fit in a `u64`.
pub open spec fn plain_seconds_micros(s: Seq<char>) -> Option<nat> {
    let b = unsigned_body(s);
    let k = first_index_of(b, '.');
    let ip = b.take(k);
    let fp = if k < b.len() {
        b.skip(k + 1)
    } else {
        Seq::<char>::empty()
    };
    let value = digits_value(ip) * 1_000_000 + micros_of_fraction(fp);
    if all_digits(ip) && all_digits(fp) && ip.len() + fp.len() > 0 && value <= u64::MAX {
        Some(value)
    } else {
        None
    }
}

/// The millionths that the fractional digits `v[lo..hi]` stand for, when
/// they are all digits.
fn fraction_micros(v: &Vec<char>, lo: usize, hi: usize) -> (r: Option<u64>)
    requires
        lo <= hi <= v@.len(),
    ensures
        ({
            let fp = v@.subrange(lo as int, hi as int);
            match r {
                Some(x) => all_digits(fp) && x == micros_of_fraction(fp) && x < 1_000_000,
                None => !all_digits(fp),
            }
        }),
{
    let ghost fp = v@.subrange(lo as int, hi as int);
    let flen = hi - lo;
    let fhi: usize = if flen >= 6 {
        lo + 6
    } else {
        hi
    };
    if !all_digits_in(v, lo, hi) {
        return None;
    }
    let ghost head = v@.subrange(lo as int, fhi as int);
    assert(all_digits(head)) by {
        assert forall|j: int| 0 <= j < head.len() implies is_digit(#[trigger] head[j]) by {
            assert(head[j] == fp[j]);
        }
    }
    proof {
        lemma_digits_value_bound(head);
        lemma_pow10_small(head.len());
    }
    let digits = match parse_digits(v, lo, fhi, 999_999) {
        Some(x) => x,
        None => {
            return None;
        },
    };
    if flen >= 6 {
        assert(fp.take(6) =~= head);
        Some(digits)
    } else {
        assert(fp =~= head);
        Some(scale_fraction(digits, flen))
    }
}

fn parse_plain_seconds(v: &Vec<char>) -> (r: Option<u64>)
    ensures
        r matches Some(x) ==> plain_seconds_micros(v@) == Some(x as nat),
        r is None ==> plain_seconds_micros(v@) is None,
{
    let n = v.len();
    let lo: usize = if n > 0 && v[0] == '+' {
        1
    } else {
        0
    };
    let ghost b = unsigned_body(v@);
    assert(b =~= v@.subrange(lo as int, n as int));
    let mut body: Vec<char> = Vec::new();
    let mut t = lo;
    while t < n
        invariant
            lo <= t <= n,
            n == v@.len(),
            body@ == v@.subrange(lo as int, t as int),
        decreases n - t,
    {
        body.push(v[t]);
        t = t + 1;
    }
    let m = body.len();
    let k = index_of_char(&body, '.');
    proof {
        lemma_first_index_of(b, '.');
    }
    let ghost ip = b.take(k as int);
    let fstart: usize = if k < m {
        k + 1
    } else {
        m
    };
    let ghost fp = if k < m {
        b.skip(k + 1)
    } else {
        Seq::<char>::empty()
    };
    assert(ip =~= body@.subrange(0, k as int));
    assert(fp =~= body@.subrange(fstart as int, m as int));
    if k + (m - fstart) == 0 {
        return None;
    }
    let int_part = match parse_digits(&body, 0, k, u64::MAX) {
        Some(x) => x,
        None => {
            return None;
        },
    };
    let frac = match fraction_micros(&body, fstart, m) {
        Some(x) => x,
        None => {
            return None;
        },
    };
    if int_part > (u64::MAX - frac) / 1_000_000 {
        assert(int_part * 1_000_000 + frac > u64::MAX) by (nonlinear_arith)
            requires
                int_part > (u64::MAX - frac) / 1_000_000,
                frac <= u64::MAX,
        ;
        return None;
    }
    assert(int_part * 1_000_000 + frac <= u64::MAX) by (nonlinear_arith)
        requires
            int_part <= (u64::MAX - frac) / 1_000_000,
            frac <= u64::MAX,
    ;
    Some(int_part * 1_000_000 + frac)
}

/// `f * 10^(6 - len)`, the millionths that `len` fractional digits of value
/// `f` stand for.
fn scale_fraction(f: u64, len: usize) -> (r: u64)
    requires
        len < 6,
        f < pow10(len as nat),
    ensures
        r == f * pow10((6 - len) as nat),
        r < 1_000_000,
{
    let mut g = f;
    let mut e = len;
    assert(pow10(0) == 1);
    assert(((e - len) as nat) == 0nat);
    assert(f * pow10(0) == f);
    while e < 6
        invariant
            len <= e <= 6,
            g == f * pow10((e - len) as nat),
            g < pow10(e as nat),
        decreases 6 - e,
    {
        assert(pow10((e + 1 - len) as nat) == 10 * pow10((e - len) as nat));
        assert(pow10((e + 1) as nat) == 10 * pow10(e as nat));
        assert(g * 10 == f * pow10((e + 1 - len) as nat)) by (nonlinear_arith)
            requires
                g == f * pow10((e - len) as nat),
                pow10((e + 1 - len) as nat) == 10 * pow10((e - len) as nat),
        ;
        proof {
            lemma_pow10_small(e as nat);
        }
        g = g * 10;
        e = e + 1;
    }
    assert(pow10(6) == 1_000_000) by {
        reveal_with_fuel(pow10, 7);
    }
    g
}

pub proof fn lemma_pow10_small(k: nat)
    requires
        k <= 6,
    ensures
        pow10(k) <= 1_000_000,
        pow10(k) >= 1,
{
    reveal_with_fuel(pow10, 7);
}

pub proof fn lemma_digits_value_bound(s: Seq<char>)
    requires
        all_digits(s),
    ensures
        digits_value(s) < pow10(s.len()),
    decreases s.len(),
{
    if s.len() > 0 {
        lemma_digits_value_bound(s.drop_last());
        assert(is_digit(s[s.len() - 1]));
        assert(digits_value(s) < pow10(s.len())) by (nonlinear_arith)
            requires
                digits_value(s) == digits_value(s.drop_last()) * 10 + digit_val(s.last()),
                digits_value(s.drop_last()) < pow10(s.drop_last().len()),
                digit_val(s.last()) < 10,
                pow10(s.len()) == 10 * pow10(s.drop_last().len()),
        ;
    }
}

// ---------------------------------------------------------------------------
// Seconds with an exponent
// ---------------------------------------------------------------------------

/// Where the exponent mark `e` or `E` first stands (the length when none).
pub open spec fn exp_index(s: Seq<char>) -> int {
    let a = first_index_of(s, 'e');
    let b = first_index_of(s, 'E');
    if a <= b {
        a
    } else {
        b
    }
}

/// The integer and fractional digits of a mantissa such as `12.5`, `.5`,
/// `3.` or `7`.
pub open spec fn mantissa_parts(m: Seq<char>) -> Option<(Seq<char>, Seq<char>)> {
    let k = first_index_of(m, '.');
    let ip = m.take(k);
    let fp = if k < m.len() {
        m.skip(k + 1)
    } else {
        Seq::<char>::empty()
    };
    if all_digits(ip) && all_digits(fp) && ip.len() + fp.len() > 0 {
        Some((ip, fp))
    } else {
        None
    }
}

/// An exponent such as `5`, `+5` or `-5`.
pub open spec fn exponent_value(x: Seq<char>) -> Option<int> {
    if x.len() > 0 && (x[0] == '+' || x[0] == '-') {
        let d = x.drop_first();
        if d.len() > 0 && all_digits(d) {
            Some(
                if x[0] == '-' {
                    -(digits_value(d) as int)
                } else {
                    digits_value(d) as int
                },
            )
        } else {
            None
        }
    } else if x.len() > 0 && all_digits(x) {
        Some(digits_value(x) as int)
    } else {
        None
    }
}

pub open spec fn zeros(n: nat) -> Seq<char> {
    Seq::new(n, |i: int| digit_char(0))
}

/// The digits `d` with the decimal point put after the first `q` of them
/// (`q` may lie outside `d`), as integer and fractional digits.
pub open spec fn point_at(d: Seq<char>, q: int) -> (Seq<char>, Seq<char>) {
    if q <= 0 {
        (Seq::<char>::empty(), zeros((-q) as nat) + d)
    } else if q >= d.len() {
        (d + zeros((q - d.len()) as nat), Seq::<char>::empty())
    } else {
        (d.take(q), d.skip(q))
    }
}

/// Integer and fractional digits of seconds as microseconds, truncated,
/// when that fits in a `u64`.
pub open spec fn micros_value(ip: Seq<char>, fp: Seq<char>) -> Option<nat> {
    let value = digits_value(ip) * 1_000_000 + micros_of_fraction(fp);
    if value <= u64::MAX {
        Some(value)
    } else {
        None
    }
}

/// A decimal number of seconds as `f64` parsing reads it, with an optional
/// `+`, a mantissa and an optional exponent (`1.25`, `+.5`, `3.`, `1e1`,
/// `2.5E-3`), as a whole number of microseconds, truncated; `None` when the
/// text is not such a number or the value does not fit in a `u64`.
pub open spec fn parse_seconds_micros(s: Seq<char>) -> Option<nat> {
    let b = unsigned_body(s);
    let k = exp_index(b);
    if k >= b.len() {
        plain_seconds_micros(s)
    } else {
        match (mantissa_parts(b.take(k)), exponent_value(b.skip(k + 1))) {
            (Some(parts), Some(e)) => {
                let shifted = point_at(parts.0 + parts.1, parts.0.len() + e);
                micros_value(shifted.0, shifted.1)
            },
            _ => None,
        }
    }
}

proof fn lemma_zeros_value(s: Seq<char>)
    requires
        forall|i: int| 0 <= i < s.len() ==> (s[i] as u32) == 48,
    ensures
        digits_value(s) == 0,
    decreases s.len(),
{
    if s.len() > 0 {
        lemma_zeros_value(s.drop_last());
    }
}

proof fn lemma_nonzero_value(s: Seq<char>, j: int)
    requires
        all_digits(s),
        0 <= j < s.len(),
        (s[j] as u32) != 48,
    ensures
        digits_value(s) >= 1,
    decreases s.len(),
{
    if j < s.len() - 1 {
        assert(all_digits(s.drop_last())) by {
            assert forall|i: int| 0 <= i < s.len() - 1 implies is_digit(#[trigger] s.drop_last()[i]) by {
                assert(s.drop_last()[i] == s[i]);
            }
        }
        assert(s.drop_last()[j] == s[j]);
        lemma_nonzero_value(s.drop_last(), j);
    } else {
        assert(s.last() == s[j]);
        assert(is_digit(s.last()));
        assert(digit_val(s.last()) >= 1);
    }
}

proof fn lemma_append_zeros_value(s: Seq<char>, z: nat)
    ensures
        digits_value(s + zeros(z)) == digits_value(s) * pow10(z),
    decreases z,
{
    if z == 0 {
        assert(s + zeros(0) =~= s);
        assert(pow10(0) == 1);
        assert(digits_value(s) * pow10(z) == digits_value(s));
    } else {
        lemma_append_zeros_value(s, (z - 1) as nat);
        assert((s + zeros(z)).drop_last() =~= s + zeros((z - 1) as nat));
        assert((s + zeros(z)).last() == digit_char(0));
        assert((digit_char(0) as u32) == 48);
        assert(digit_val(digit_char(0)) == 0);
        let t = s + zeros(z);
        assert(t.len() > 0);
        assert(digits_value(t) == digits_value(t.drop_last()) * 10 + digit_val(t.last()));
        assert(digits_value(s) * pow10((z - 1) as nat) * 10 == digits_value(s) * pow10(z))
            by (nonlinear_arith)
            requires
                pow10(z) == 10 * pow10((z - 1) as nat),
        ;
        assert(digits_value(t) == digits_value(s) * pow10(z));
    }
}

proof fn lemma_pow10_mono(a: nat, b: nat)
    requires
        a <= b,
    ensures
        pow10(a) <= pow10(b),
    decreases b,
{
    if a < b {
        lemma_pow10_mono(a, (b - 1) as nat);
    }
}

/// `ip.fp` written out as text reads as the same number of seconds.
proof fn lemma_plain_point(ip: Seq<char>, fp: Seq<char>)
    requires
        all_digits(ip),
        all_digits(fp),
        ip.len() + fp.len() > 0,
    ensures
        plain_seconds_micros(ip + seq!['.'] + fp) == micros_value(ip, fp),
{
    let w = ip + seq!['.'] + fp;
    assert(w[ip.len() as int] == '.');
    if ip.len() > 0 {
        assert(is_digit(w[0]));
    }
    assert(unsigned_body(w) == w);
    lemma_first_index_of(w, '.');
    let k = first_index_of(w, '.');
    if k < ip.len() {
        assert(is_digit(w[k]));
    }
    assert(k == ip.len());
    assert(w.take(k) =~= ip);
    assert(w.skip(k + 1) =~= fp);
}

/// `v[lo..hi]` appended to `out`.
fn push_range(out: &mut Vec<char>, v: &Vec<char>, lo: usize, hi: usize)
    requires
        lo <= hi <= v@.len(),
    ensures
        final(out)@ == old(out)@ + v@.subrange(lo as int, hi as int),
{
    let ghost start = out@;
    let mut i = lo;
    while i < hi
        invariant
            lo <= i <= hi <= v@.len(),
            out@ == start + v@.subrange(lo as int, i as int),
        decreases hi - i,
    {
        out.push(v[i]);
        assert(v@.subrange(lo as int, i + 1) =~= v@.subrange(lo as int, i as int).push(v@[i as int]));
        i = i + 1;
    }
}

/// `n` zero digits appended to `out`.
fn push_zeros(out: &mut Vec<char>, n: usize)
    ensures
        final(out)@ == old(out)@ + zeros(n as nat),
{
    let ghost start = out@;
    let mut i: usize = 0;
    while i < n
        invariant
            i <= n,
            out@ == start + zeros(i as nat),
        decreases n - i,
    {
        out.push(digit_of(0));
        assert(zeros((i + 1) as nat) =~= zeros(i as nat).push(digit_char(0)));
        i = i + 1;
    }
}

/// Exponents at least this large are all alike: they move the point past
/// any digits a text can hold.
const EXP_CAP: u128 = 0x40_0000_0000_0000_0000;

/// The value of the digits `v[lo..hi]`, or `EXP_CAP` when it is larger.
fn saturated_value(v: &Vec<char>, lo: usize, hi: usize) -> (r: u128)
    requires
        lo <= hi <= v@.len(),
        all_digits(v@.subrange(lo as int, hi as int)),
    ensures
        r == (if digits_value(v@.subrange(lo as int, hi as int)) < EXP_CAP {
            digits_value(v@.subrange(lo as int, hi as int))
        } else {
            EXP_CAP as nat
        }),
{
    let ghost sub = v@.subrange(lo as int, hi as int);
    let mut acc: u128 = 0;
    let mut i = lo;
    assert(sub.take(0) =~= Seq::<char>::empty());
    while i < hi
        invariant
            lo <= i <= hi <= v@.len(),
            sub == v@.subrange(lo as int, hi as int),
            all_digits(sub),
            acc == (if digits_value(sub.take(i - lo)) < EXP_CAP {
                digits_value(sub.take(i - lo))
            } else {
                EXP_CAP as nat
            }),
        decreases hi - i,
    {
        let c = v[i];
        assert(sub[i - lo] == c);
        assert(is_digit(c));
        let d = (c as u32 - 48) as u128;
        assert(sub.take(i + 1 - lo).drop_last() =~= sub.take(i - lo));
        assert(sub.take(i + 1 - lo).last() == c);
        let t = acc * 10 + d;
        acc = if t < EXP_CAP {
            t
        } else {
            EXP_CAP
        };
        i = i + 1;
    }
    assert(sub.take(hi - lo) =~= sub);
    acc
}

/// The digits of a mantissa and how many of them stand before the point.
fn mantissa_digits(m: &Vec<char>) -> (r: Option<(Vec<char>, usize)>)
    ensures
        match r {
            None => mantissa_parts(m@) is None,
            Some((d, ipl)) => {
                &&& ipl <= d@.len()
                &&& d@.len() > 0
                &&& all_digits(d@)
                &&& mantissa_parts(m@) == Some((d@.take(ipl as int), d@.skip(ipl as int)))
            },
        },
{
    let p = index_of_char(m, '.');
    proof {
        lemma_first_index_of(m@, '.');
    }
    let fs: usize = if p < m.len() {
        p + 1
    } else {
        m.len()
    };
    let ghost ip = m@.subrange(0, p as int);
    let ghost fp = m@.subrange(fs as int, m.len() as int);
    assert(ip =~= m@.take(p as int));
    assert(p < m.len() ==> fp =~= m@.skip(p + 1));
    assert(p >= m.len() ==> fp =~= Seq::<char>::empty());
    if !all_digits_in(m, 0, p) || !all_digits_in(m, fs, m.len()) || p + (m.len() - fs) == 0 {
        return None;
    }
    let mut d: Vec<char> = Vec::new();
    push_range(&mut d, m, 0, p);
    let ipl = d.len();
    push_range(&mut d, m, fs, m.len());
    assert(d@ =~= ip + fp);
    assert(d@.take(ipl as int) =~= ip);
    assert(d@.skip(ipl as int) =~= fp);
    assert(all_digits(d@)) by {
        assert forall|i: int| 0 <= i < d@.len() implies is_digit(#[trigger] d@[i]) by {
            if i < ip.len() {
                assert(d@[i] == ip[i]);
            } else {
                assert(d@[i] == fp[i - ip.len()]);
            }
        }
    }
    Some((d, ipl))
}

/// An exponent's sign and its size, capped at `EXP_CAP`.
fn exponent_parts(x: &Vec<char>) -> (r: Option<(bool, u128)>)
    ensures
        match r {
            None => exponent_value(x@) is None,
            Some((neg, es)) => exponent_value(x@) is Some && {
                let e = exponent_value(x@)->0;
                let ae = if neg {
                    -e
                } else {
                    e
                };
                &&& ae >= 0
                &&& es <= EXP_CAP
                &&& es < EXP_CAP ==> es == ae
                &&& es == EXP_CAP ==> ae >= EXP_CAP
            },
        },
{
    let xn = x.len();
    let signed = xn > 0 && (x[0] == '+' || x[0] == '-');
    let negative = xn > 0 && x[0] == '-';
    let xs: usize = if signed {
        1
    } else {
        0
    };
    let ghost ed = x@.subrange(xs as int, xn as int);
    assert(signed ==> ed =~= x@.drop_first());
    assert(!signed ==> ed =~= x@);
    if xs >= xn || !all_digits_in(x, xs, xn) {
        return None;
    }
    let es = saturated_value(x, xs, xn);
    Some((negative, es))
}

/// `f64` parsing of seconds, as microseconds: see `parse_seconds_micros`.
pub fn parse_seconds_chars(v: &Vec<char>) -> (r: Option<u64>)
    ensures
        r matches Some(x) ==> parse_seconds_micros(v@) == Some(x as nat),
        r is None ==> parse_seconds_micros(v@) is None,
{
    let n = v.len();
    let lo: usize = if n > 0 && v[0] == '+' {
        1
    } else {
        0
    };
    let mut b: Vec<char> = Vec::new();
    push_range(&mut b, v, lo, n);
    assert(b@ =~= unsigned_body(v@));
    let ke = index_of_char(&b, 'e');
    let kb = index_of_char(&b, 'E');
    let k = if ke <= kb {
        ke
    } else {
        kb
    };
    proof {
        lemma_first_index_of(b@, 'e');
        lemma_first_index_of(b@, 'E');
    }
    if k >= b.len() {
        return parse_plain_seconds(v);
    }
    let mut m: Vec<char> = Vec::new();
    push_range(&mut m, &b, 0, k);
    let mut x: Vec<char> = Vec::new();
    push_range(&mut x, &b, k + 1, b.len());
    assert(m@ =~= b@.take(k as int));
    assert(x@ =~= b@.skip(k + 1));
    let (d, ipl) = match mantissa_digits(&m) {
        None => {
            return None;
        },
        Some(p) => p,
    };
    let (negative, es) = match exponent_parts(&x) {
        None => {
            return None;
        },
        Some(p) => p,
    };
    let ghost e = exponent_value(x@)->0;
    assert(d@.take(ipl as int) + d@.skip(ipl as int) =~= d@);
    shifted_micros(&d, ipl, negative, es, Ghost(e))
}

/// The seconds whose digits are `d`, with the point after the first
/// `ip_len` of them moved by the exponent `e` (of which `es` is the value
/// capped at `EXP_CAP`, `negative` the sign), as microseconds.
fn shifted_micros(d: &Vec<char>, ip_len: usize, negative: bool, es: u128, Ghost(e): Ghost<int>) -> (r: Option<u64>)
    requires
        all_digits(d@),
        d@.len() > 0,
        ip_len <= d@.len(),
        es <= EXP_CAP,
        (if negative { -e } else { e }) >= 0,
        es < EXP_CAP ==> es == (if negative { -e } else { e }),
        es == EXP_CAP ==> (if negative { -e } else { e }) >= EXP_CAP,
    ensures
        ({
            let shifted = point_at(d@, ip_len + e);
            &&& r matches Some(x) ==> micros_value(shifted.0, shifted.1) == Some(x as nat)
            &&& r is None ==> micros_value(shifted.0, shifted.1) is None
        }),
{
    let ghost q: int = ip_len + e;
    let ghost shifted = point_at(d@, q);
    // all digits zero: zero seconds
    let mut nz: usize = 0;
    while nz < d.len() && d[nz] as u32 == 48
        invariant
            nz <= d@.len(),
            forall|i: int| 0 <= i < nz ==> (d@[i] as u32) == 48,
        decreases d@.len() - nz,
    {
        nz = nz + 1;
    }
    if nz == d.len() {
        proof {
            assert((digit_char(0) as u32) == 48);
            assert forall|i: int| 0 <= i < shifted.0.len() implies (shifted.0[i] as u32) == 48 by {
                if q >= d@.len() && i < d@.len() {
                    assert(shifted.0[i] == d@[i]);
                } else if q >= d@.len() {
                    assert(shifted.0[i] == zeros((q - d@.len()) as nat)[i - d@.len()]);
                } else {
                    assert(shifted.0[i] == d@[i]);
                }
            }
            assert forall|i: int| 0 <= i < shifted.1.len() implies (shifted.1[i] as u32) == 48 by {
                if q <= 0 && i >= -q {
                    assert(shifted.1[i] == d@[i + q]);
                } else if q > 0 && q < d@.len() {
                    assert(shifted.1[i] == d@[i + q]);
                }
            }
            lemma_zeros_value(shifted.0);
            lemma_zeros_value(shifted.1);
            if shifted.1.len() >= 6 {
                lemma_zeros_value(shifted.1.take(6));
            }
        }
        return Some(0);
    }
    proof {
        assert(all_digits(d@));
        lemma_nonzero_value(d@, nz as int);
    }
    let dl = d.len() as i128;
    let q_exec: i128 = if negative {
        ip_len as i128 - es as i128
    } else {
        ip_len as i128 + es as i128
    };
    assert(es < EXP_CAP ==> q_exec == q);
    assert(es == EXP_CAP && !negative ==> q >= q_exec);
    assert(es == EXP_CAP && negative ==> q <= q_exec);
    if q_exec >= dl + 20 {
        proof {
            assert(q >= d@.len() + 20);
            let z = (q - d@.len()) as nat;
            lemma_append_zeros_value(d@, z);
            lemma_pow10_mono(20, z);
            assert(pow10(20) == 100_000_000_000_000_000_000) by {
                reveal_with_fuel(pow10, 21);
            }
            assert(digits_value(shifted.0) >= pow10(z)) by (nonlinear_arith)
                requires
                    digits_value(shifted.0) == digits_value(d@) * pow10(z),
                    digits_value(d@) >= 1,
            ;
        }
        return None;
    }
    if q_exec <= -6 {
        proof {
            assert(q <= -6);
            assert(shifted.0.len() == 0);
            assert(shifted.1.take(6) =~= zeros(6));
            assert((digit_char(0) as u32) == 48);
            lemma_zeros_value(zeros(6));
        }
        return Some(0);
    }
    assert(q == q_exec);
    // build `ip'.fp'` and read it as plain seconds
    let mut w: Vec<char> = Vec::new();
    if q_exec <= 0 {
        w.push('.');
        push_zeros(&mut w, (-q_exec) as usize);
        push_range(&mut w, &d, 0, d.len());
        assert(w@ =~= shifted.0 + seq!['.'] + shifted.1);
    } else if q_exec >= dl {
        push_range(&mut w, &d, 0, d.len());
        push_zeros(&mut w, (q_exec - dl) as usize);
        w.push('.');
        assert(w@ =~= shifted.0 + seq!['.'] + shifted.1);
    } else {
        push_range(&mut w, &d, 0, q_exec as usize);
        w.push('.');
        push_range(&mut w, &d, q_exec as usize, d.len());
        assert(w@ =~= shifted.0 + seq!['.'] + shifted.1);
    }
    proof {
        assert(all_digits(shifted.0));
        assert(all_digits(shifted.1));
        lemma_plain_point(shifted.0, shifted.1);
    }
    parse_plain_seconds(&w)
}

// ---------------------------------------------------------------------------
// Joining and trimming a given character
// ---------------------------------------------------------------------------

/// `[T]::join(sep)` on strings.
pub open spec fn join(parts: Seq<Seq<char>>, sep: Seq<char>) -> Seq<char>
    decreases parts.len(),
{
    if parts.len() == 0 {
        Seq::<char>::empty()
    } else if parts.len() == 1 {
        parts[0]
    } else {
        join(parts.drop_last(), sep) + sep + parts.last()
    }
}

pub fn join_strings(parts: &Vec<String>, sep: &str) -> (r: String)
    ensures
        r@ == join(views(parts@), sep@),
{
    let mut r = String::new();
    let n = parts.len();
    let mut i: usize = 0;
    assert(views(parts@).take(0) =~= Seq::<Seq<char>>::empty());
    while i < n
        invariant
            n == parts@.len(),
            i <= n,
            r@ == join(views(parts@).take(i as int), sep@),
        decreases n - i,
    {
        let ghost ps = views(parts@).take(i + 1);
        assert(ps.drop_last() =~= views(parts@).take(i as int));
        assert(ps.last() == parts@[i as int]@);
        if i > 0 {
            push_str(&mut r, sep);
        } else {
            assert(ps.len() == 1);
        }
        push_str(&mut r, parts[i].as_str());
        assert(r@ =~= join(ps, sep@));
        i = i + 1;
    }
    assert(views(parts@).take(n as int) =~= views(parts@));
    r
}

pub open spec fn trim_char_start(s: Seq<char>, c: char) -> Seq<char>
    decreases s.len(),
{
    if s.len() > 0 && s[0] == c {
        trim_char_start(s.drop_first(), c)
    } else {
        s
    }
}

pub open spec fn trim_char_end(s: Seq<char>, c: char) -> Seq<char>
    decreases s.len(),
{
    if s.len() > 0 && s.last() == c {
        trim_char_end(s.drop_last(), c)
    } else {
        s
    }
}

/// `str::trim_matches(c)`.
pub open spec fn trim_char(s: Seq<char>, c: char) -> Seq<char> {
    trim_char_end(trim_char_start(s, c), c)
}

pub fn trim_char_chars(v: &Vec<char>, ch: char) -> (r: Vec<char>)
    ensures
        r@ == trim_char(v@, ch),
{
    let n = v.len();
    let mut i: usize = 0;
    assert(v@.skip(0) =~= v@);
    while i < n && v[i] == ch
        invariant
            n == v@.len(),
            i <= n,
            trim_char_start(v@, ch) == trim_char_start(v@.skip(i as int), ch),
        decreases n - i,
    {
        assert(v@.skip(i as int).drop_first() =~= v@.skip(i + 1));
        i = i + 1;
    }
    let mut j: usize = n;
    assert(v@.skip(i as int) =~= v@.subrange(i as int, j as int));
    while j > i && v[j - 1] == ch
        invariant
            n == v@.len(),
            i <= j <= n,
            trim_char(v@, ch) == trim_char_end(v@.subrange(i as int, j as int), ch),
        decreases j - i,
    {
        assert(v@.subrange(i as int, j as int).drop_last() =~= v@.subrange(i as int, j - 1));
        j = j - 1;
    }
    let mut r: Vec<char> = Vec::new();
    let mut k = i;
    while k < j
        invariant
            i <= k <= j <= n,
            n == v@.len(),
            r@ == v@.subrange(i as int, k as int),
        decreases j - k,
    {
        r.push(v[k]);
        k = k + 1;
    }
    r
}

/// A number below 1000 as exactly three digits, with leading zeros.
pub open spec fn three_digits(n: nat) -> Seq<char> {
    seq![digit_char(n / 100), digit_char((n / 10) % 10), digit_char(n % 10)]
}

pub fn push_three_digits(s: &mut String, n: u64)
    requires
        n < 1000,
    ensures
        final(s)@ == old(s)@ + three_digits(n as nat),
{
    push_char(s, digit_of(n / 100));
    push_char(s, digit_of((n / 10) % 10));
    push_char(s, digit_of(n % 10));
    assert(final(s)@ =~= old(s)@ + three_digits(n as nat));
}

/// The pieces of `p`, trimmed, without those that are blank.
pub open spec fn keep_nonblank(p: Seq<Seq<char>>) -> Seq<Seq<char>>
    decreases p.len(),
{
    if p.len() == 0 {
        p
    } else {
        let r = keep_nonblank(p.drop_last());
        let t = trim(p.last());
        if t.len() > 0 {
            r.push(t)
        } else {
            r
        }
    }
}

pub proof fn lemma_trim_start_shape(s: Seq<char>)
    ensures
        trim_start(s).len() > 0 ==> !is_ws(trim_start(s)[0]),
        exists|k: int| 0 <= k <= s.len() && trim_start(s) == s.skip(k),
    decreases s.len(),
{
    if s.len() > 0 && is_ws(s[0]) {
        lemma_trim_start_shape(s.drop_first());
        let k = choose|k: int|
            0 <= k <= s.drop_first().len() && trim_start(s.drop_first()) == s.drop_first().skip(k);
        assert(s.drop_first().skip(k) =~= s.skip(k + 1));
    } else {
        assert(s.skip(0) =~= s);
    }
}

pub proof fn lemma_trim_end_shape(s: Seq<char>)
    ensures
        trim_end(s).len() > 0 ==> !is_ws(trim_end(s).last()),
        trim_end(s).len() <= s.len(),
        forall|i: int| 0 <= i < trim_end(s).len() ==> trim_end(s)[i] == s[i],
    decreases s.len(),
{
    if s.len() > 0 && is_ws(s.last()) {
        lemma_trim_end_shape(s.drop_last());
        assert forall|i: int| 0 <= i < trim_end(s).len() implies trim_end(s)[i] == s[i] by {
            assert(trim_end(s.drop_last())[i] == s.drop_last()[i]);
        }
    }
}

/// A trimmed text that is not empty neither starts nor ends with
/// whitespace.
pub proof fn lemma_trim(s: Seq<char>)
    ensures
        trim(s).len() > 0 ==> !is_ws(trim(s)[0]) && !is_ws(trim(s).last()),
{
    lemma_trim_start_shape(s);
    lemma_trim_end_shape(trim_start(s));
}

/// The kept pieces are never blank and carry no whitespace at either end.
pub proof fn lemma_keep_nonblank(ls: Seq<Seq<char>>)
    ensures
        forall|i: int|
            0 <= i < keep_nonblank(ls).len() ==> {
                let p = #[trigger] keep_nonblank(ls)[i];
                p.len() > 0 && !is_ws(p[0]) && !is_ws(p.last())
            },
    decreases ls.len(),
{
    if ls.len() > 0 {
        lemma_keep_nonblank(ls.drop_last());
        lemma_trim(ls.last());
        let r = keep_nonblank(ls.drop_last());
        assert forall|i: int| 0 <= i < keep_nonblank(ls).len() implies {
            let p = #[trigger] keep_nonblank(ls)[i];
            p.len() > 0 && !is_ws(p[0]) && !is_ws(p.last())
        } by {
            if i < r.len() {
                assert(keep_nonblank(ls)[i] == r[i]);
            }
        }
    }
}

/// Every piece that is not blank is kept, trimmed, and only those are.
pub proof fn lemma_keep_nonblank_complete(ls: Seq<Seq<char>>)
    ensures
        forall|i: int|
            0 <= i < ls.len() && trim(#[trigger] ls[i]).len() > 0 ==> keep_nonblank(ls).contains(
                trim(ls[i]),
            ),
        forall|p: Seq<char>| #[trigger]
            keep_nonblank(ls).contains(p) ==> exists|i: int|
                0 <= i < ls.len() && p == trim(#[trigger] ls[i]) && p.len() > 0,
    decreases ls.len(),
{
    if ls.len() > 0 {
        let t = ls.drop_last();
        lemma_keep_nonblank_complete(t);
        let r = keep_nonblank(t);
        let all = keep_nonblank(ls);
        assert forall|p: Seq<char>| #[trigger] r.contains(p) implies all.contains(p) by {
            let m = choose|m: int| 0 <= m < r.len() && r[m] == p;
            assert(all[m] == p);
        }
        assert forall|i: int| 0 <= i < ls.len() && trim(#[trigger] ls[i]).len() > 0 implies all.contains(
            trim(ls[i]),
        ) by {
            if i < ls.len() - 1 {
                assert(t[i] == ls[i]);
                assert(r.contains(trim(t[i])));
            } else {
                assert(all[all.len() - 1] == trim(ls[i]));
            }
        }
        assert forall|p: Seq<char>| #[trigger] all.contains(p) implies exists|i: int|
            0 <= i < ls.len() && p == trim(#[trigger] ls[i]) && p.len() > 0 by {
            let m = choose|m: int| 0 <= m < all.len() && all[m] == p;
            if m < r.len() {
                assert(r[m] == p);
                assert(r.contains(p));
                let i = choose|i: int| 0 <= i < t.len() && p == trim(#[trigger] t[i]) && p.len() > 0;
                assert(ls[i] == t[i]);
            } else {
                assert(ls[ls.len() - 1] == ls.last());
            }
        }
    }
}

/// `trim_char` keeps a stretch of the text that neither starts nor ends
/// with the trimmed character.
pub proof fn lemma_trim_char(s: Seq<char>, c: char)
    ensures
        trim_char(s, c).len() > 0 ==> trim_char(s, c)[0] != c && trim_char(s, c).last() != c,
        forall|i: int|
            0 <= i < trim_char(s, c).len() ==> s.contains(#[trigger] trim_char(s, c)[i]),
{
    lemma_trim_char_start(s, c);
    lemma_trim_char_end(trim_char_start(s, c), c);
    let t = trim_char_start(s, c);
    let k = choose|k: int| 0 <= k <= s.len() && t == s.skip(k);
    assert forall|i: int| 0 <= i < trim_char(s, c).len() implies s.contains(
        #[trigger] trim_char(s, c)[i],
    ) by {
        assert(trim_char(s, c)[i] == t[i]);
        assert(t[i] == s[k + i]);
    }
}

proof fn lemma_trim_char_start(s: Seq<char>, c: char)
    ensures
        trim_char_start(s, c).len() > 0 ==> trim_char_start(s, c)[0] != c,
        exists|k: int| 0 <= k <= s.len() && trim_char_start(s, c) == s.skip(k),
    decreases s.len(),
{
    if s.len() > 0 && s[0] == c {
        lemma_trim_char_start(s.drop_first(), c);
        let k = choose|k: int|
            0 <= k <= s.drop_first().len() && trim_char_start(s.drop_first(), c) == s.drop_first().skip(k);
        assert(s.drop_first().skip(k) =~= s.skip(k + 1));
    } else {
        assert(s.skip(0) =~= s);
    }
}

proof fn lemma_trim_char_end(s: Seq<char>, c: char)
    ensures
        trim_char_end(s, c).len() > 0 ==> trim_char_end(s, c).last() != c,
        trim_char_end(s, c).len() > 0 ==> trim_char_end(s, c)[0] == s[0],
        trim_char_end(s, c).len() <= s.len(),
        forall|i: int| 0 <= i < trim_char_end(s, c).len() ==> trim_char_end(s, c)[i] == s[i],
    decreases s.len(),
{
    if s.len() > 0 && s.last() == c {
        lemma_trim_char_end(s.drop_last(), c);
        assert forall|i: int| 0 <= i < trim_char_end(s, c).len() implies trim_char_end(s, c)[i]
            == s[i] by {
            assert(trim_char_end(s.drop_last(), c)[i] == s.drop_last()[i]);
        }
    }
}

} // verus!
