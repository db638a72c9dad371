//! Text primitives shared by the library: character classes taken from std,
//! conversions between `str`/`String` and character vectors, trimming,
//! whitespace splitting, joining and decimal formatting.

use vstd::prelude::*;

verus! {

// ---------------------------------------------------------------------------
// Character classes and case mappings of std (Unicode tables)
// ---------------------------------------------------------------------------

/// `char::is_whitespace`: the Unicode `White_Space` property, which holds
/// of U+0009 to U+000D, U+0020, U+0085, U+00A0, U+1680, U+2000 to U+200A,
/// U+2028, U+2029, U+202F, U+205F and U+3000.
#[verifier::opaque]
pub open spec fn is_white_space(c: char) -> bool {
    ('\u{9}' <= c && c <= '\u{d}') || c == ' ' || c == '\u{85}' || c == '\u{a0}' || c == '\u{1680}'
        || ('\u{2000}' <= c && c <= '\u{200a}') || c == '\u{2028}' || c == '\u{2029}' || c == '\u{202f}'
        || c == '\u{205f}' || c == '\u{3000}'
}

/// `char::is_alphanumeric`: the Unicode `Alphabetic` or `Numeric` properties.
pub uninterp spec fn is_alnum(c: char) -> bool;

/// `char::is_alphabetic`: the Unicode `Alphabetic` property.
pub uninterp spec fn is_alpha(c: char) -> bool;

/// `char::to_lowercase`: the characters of the lowercase mapping of `c`.
pub uninterp spec fn char_lowercase(c: char) -> Seq<char>;

/// `str::to_lowercase`: the lowercase form of a whole string.
pub uninterp spec fn str_lowercase(s: Seq<char>) -> Seq<char>;

/// Whether `c` is white space (`char::is_whitespace`).
pub(crate) fn char_is_whitespace(c: char) -> (r: bool)
    ensures
        r == is_white_space(c),
{
    proof {
        reveal(is_white_space);
    }
    ('\u{9}' <= c && c <= '\u{d}') || c == ' ' || c == '\u{85}' || c == '\u{a0}' || c == '\u{1680}'
        || ('\u{2000}' <= c && c <= '\u{200a}') || c == '\u{2028}' || c == '\u{2029}' || c == '\u{202f}'
        || c == '\u{205f}' || c == '\u{3000}'
}

/// ASCII digits and letters.
pub open spec fn is_ascii_alnum(c: char) -> bool {
    ('0' <= c && c <= '9') || ('a' <= c && c <= 'z') || ('A' <= c && c <= 'Z')
}

/// ASCII letters.
pub open spec fn is_ascii_alpha(c: char) -> bool {
    ('a' <= c && c <= 'z') || ('A' <= c && c <= 'Z')
}

/// Calls `char::is_alphanumeric`; the result is named `is_alnum`. Among
/// ASCII characters (where `Alphabetic` is the letters and `Numeric` the
/// digits) it holds of the letters and digits alone.
#[verifier::external_body]
pub(crate) fn char_is_alphanumeric(c: char) -> (r: bool)
    ensures
        r == is_alnum(c),
        c <= '\u{7f}' ==> (r <==> is_ascii_alnum(c)),
{
    c.is_alphanumeric()
}

/// Calls `char::is_alphabetic`; the result is named `is_alpha`. Among ASCII
/// characters it holds of the letters alone.
#[verifier::external_body]
pub(crate) fn char_is_alphabetic(c: char) -> (r: bool)
    ensures
        r == is_alpha(c),
        c <= '\u{7f}' ==> (r <==> is_ascii_alpha(c)),
{
    c.is_alphabetic()
}

/// Calls `char::to_lowercase` and collects what the iterator yields; std
/// documents that the mapping is one or more characters, and an ASCII
/// character maps to its ASCII lowercase alone.
#[verifier::external_body]
pub(crate) fn char_to_lowercase(c: char) -> (r: Vec<char>)
    ensures
        r@ == char_lowercase(c),
        r@.len() >= 1,
        c <= '\u{7f}' ==> r@ == seq![crate::vocab::ascii_lower(c)],
{
    c.to_lowercase().collect()
}

/// Calls `str::to_lowercase`; the result is named `str_lowercase`. A string
/// of ASCII characters maps to its ASCII lowercase.
#[verifier::external_body]
pub(crate) fn string_to_lowercase(s: &str) -> (r: String)
    ensures
        r@ == str_lowercase(s@),
        (forall|i: int| 0 <= i < s@.len() ==> #[trigger] s@[i] <= '\u{7f}')
            ==> r@ == s@.map_values(|c: char| crate::vocab::ascii_lower(c)),
{
    s.to_lowercase()
}

/// Builds a `String` from characters (`FromIterator<&char>` of std).
#[verifier::external_body]
pub(crate) fn string_from_chars(v: &[char]) -> (r: String)
    ensures
        r@ == v@,
{
    v.iter().collect()
}

// ---------------------------------------------------------------------------
// Conversions
// ---------------------------------------------------------------------------

/// The characters of a string slice.
pub fn chars_of(s: &str) -> (r: Vec<char>)
    ensures
        r@ == s@,
{
    let mut out: Vec<char> = Vec::new();
    for c in it: s.chars()
        invariant
            out@ == it.seq().take(it.index() as int),
    {
        out.push(c);
    }
    out
}


// ---------------------------------------------------------------------------
// Trimming
// ---------------------------------------------------------------------------

/// `s` without its leading characters that satisfy `p`.
pub open spec fn strip_front(s: Seq<char>, p: spec_fn(char) -> bool) -> Seq<char>
    decreases s.len(),
{
    if s.len() > 0 && p(s[0]) {
        strip_front(s.drop_first(), p)
    } else {
        s
    }
}

/// `s` without its trailing characters that satisfy `p`.
pub open spec fn strip_back(s: Seq<char>, p: spec_fn(char) -> bool) -> Seq<char>
    decreases s.len(),
{
    if s.len() > 0 && p(s.last()) {
        strip_back(s.drop_last(), p)
    } else {
        s
    }
}

/// `s` without leading and trailing characters that satisfy `p`.
pub open spec fn strip(s: Seq<char>, p: spec_fn(char) -> bool) -> Seq<char> {
    strip_back(strip_front(s, p), p)
}

/// The `White_Space` property as a predicate.
pub open spec fn ws() -> spec_fn(char) -> bool {
    |c: char| is_white_space(c)
}

/// `str::trim`: leading and trailing white space removed.
pub open spec fn trim(s: Seq<char>) -> Seq<char> {
    strip(s, ws())
}

pub proof fn lemma_strip_front_skip(s: Seq<char>, p: spec_fn(char) -> bool, i: int)
    requires
        0 <= i <= s.len(),
        forall|j: int| 0 <= j < i ==> #[trigger] p(s[j]),
    ensures
        strip_front(s, p) == strip_front(s.skip(i), p),
    decreases i,
{
    if i > 0 {
        assert(p(s[0]));
        lemma_strip_front_skip(s.drop_first(), p, i - 1);
        assert(s.drop_first().skip(i - 1) =~= s.skip(i));
    } else {
        assert(s.skip(0) =~= s);
    }
}

pub proof fn lemma_strip_back_take(s: Seq<char>, p: spec_fn(char) -> bool, i: int)
    requires
        0 <= i <= s.len(),
        forall|j: int| i <= j < s.len() ==> #[trigger] p(s[j]),
    ensures
        strip_back(s, p) == strip_back(s.take(i), p),
    decreases s.len() - i,
{
    if i < s.len() {
        assert(p(s[s.len() - 1]));
        lemma_strip_back_take(s.drop_last(), p, i);
        assert(s.drop_last().take(i) =~= s.take(i));
    } else {
        assert(s.take(i) =~= s);
    }
}

/// `v` with leading and trailing white space removed (`str::trim`).
pub fn trim_chars(v: &[char]) -> (r: Vec<char>)
    ensures
        r@ == trim(v@),
{
    let n = v.len();
    let mut lo: usize = 0;
    while lo < n && char_is_whitespace(v[lo])
        invariant
            lo <= n,
            n == v@.len(),
            forall|j: int| 0 <= j < lo ==> #[trigger] is_white_space(v@[j]),
        decreases n - lo,
    {
        lo += 1;
    }
    let mut hi: usize = n;
    while hi > lo && char_is_whitespace(v[hi - 1])
        invariant
            lo <= hi <= n,
            n == v@.len(),
            forall|j: int| hi <= j < n ==> #[trigger] is_white_space(v@[j]),
        decreases hi,
    {
        hi -= 1;
    }
    let mut out: Vec<char> = Vec::new();
    let mut k = lo;
    while k < hi
        invariant
            lo <= k <= hi <= n,
            n == v@.len(),
            out@ == v@.subrange(lo as int, k as int),
        decreases hi - k,
    {
        out.push(v[k]);
        k += 1;
    }
    proof {
        let s = v@;
        assert forall|j: int| 0 <= j < lo implies #[trigger] ws()(s[j]) by {}
        lemma_strip_front_skip(s, ws(), lo as int);
        let t = s.skip(lo as int);
        assert(lo == n || !is_white_space(t[0]));
        assert(strip_front(t, ws()) == t);
        assert forall|j: int| hi - lo <= j < t.len() implies #[trigger] ws()(t[j]) by {
            assert(t[j] == s[j + lo]);
        }
        lemma_strip_back_take(t, ws(), hi - lo);
        let u = t.take(hi - lo);
        assert(u =~= s.subrange(lo as int, hi as int));
        assert(hi == lo || !is_white_space(u.last()));
    }
    out
}

// ---------------------------------------------------------------------------
// Splitting on white space and joining
// ---------------------------------------------------------------------------

/// The words of `s[i..]`, `cur` being the part of a word already read
/// (`str::split_whitespace`).
pub open spec fn words_from(s: Seq<char>, i: int, cur: Seq<char>) -> Seq<Seq<char>>
    decreases s.len() - i,
{
    if i >= s.len() {
        if cur.len() > 0 { seq![cur] } else { seq![] }
    } else if is_white_space(s[i]) {
        (if cur.len() > 0 { seq![cur] } else { seq![] }) + words_from(s, i + 1, seq![])
    } else {
        words_from(s, i + 1, cur.push(s[i]))
    }
}

/// `str::split_whitespace`: the maximal runs of non-white-space characters.
pub open spec fn words(s: Seq<char>) -> Seq<Seq<char>> {
    words_from(s, 0, seq![])
}

/// The words of `v` (`str::split_whitespace`).
pub fn split_whitespace(v: &[char]) -> (r: Vec<Vec<char>>)
    ensures
        r@.map_values(|w: Vec<char>| w@) == words(v@),
{
    let n = v.len();
    let mut out: Vec<Vec<char>> = Vec::new();
    let mut cur: Vec<char> = Vec::new();
    let mut i: usize = 0;
    while i < n
        invariant
            i <= n,
            n == v@.len(),
            out@.map_values(|w: Vec<char>| w@) + words_from(v@, i as int, cur@) == words(v@),
        decreases n - i,
    {
        if char_is_whitespace(v[i]) {
            let ghost before = out@.map_values(|w: Vec<char>| w@);
            if cur.len() > 0 {
                let w = cur;
                cur = Vec::new();
                out.push(w);
                assert(out@.map_values(|w: Vec<char>| w@) =~= before.push(w@));
            } else {
                cur = Vec::new();
            }
            assert(out@.map_values(|w: Vec<char>| w@) + words_from(v@, i + 1, cur@)
                =~= words(v@));
        } else {
            cur.push(v[i]);
        }
        i += 1;
    }
    let ghost before = out@.map_values(|w: Vec<char>| w@);
    let ghost c = cur@;
    if cur.len() > 0 {
        out.push(cur);
        assert(out@.map_values(|w: Vec<char>| w@) =~= before.push(c));
    }
    assert(out@.map_values(|w: Vec<char>| w@) =~= words(v@));
    out
}

/// The words joined by `sep` (`[&str]::join`).
pub open spec fn join(ws: Seq<Seq<char>>, sep: Seq<char>) -> Seq<char>
    decreases ws.len(),
{
    if ws.len() == 0 {
        seq![]
    } else if ws.len() == 1 {
        ws[0]
    } else {
        join(ws.drop_last(), sep) + sep + ws.last()
    }
}

/// Appends to `out` the words joined by `sep`.
pub fn push_joined(out: &mut Vec<char>, ws: &Vec<Vec<char>>, sep: &[char])
    ensures
        final(out)@ == old(out)@ + join(ws@.map_values(|w: Vec<char>| w@), sep@),
{
    let ghost start = out@;
    let ghost all = ws@.map_values(|w: Vec<char>| w@);
    let mut i: usize = 0;
    while i < ws.len()
        invariant
            i <= ws@.len(),
            all == ws@.map_values(|w: Vec<char>| w@),
            out@ == start + join(all.take(i as int), sep@),
        decreases ws@.len() - i,
    {
        if i > 0 {
            push_all(out, sep);
        }
        push_all(out, &ws[i]);
        proof {
            let t = all.take(i + 1);
            assert(t.drop_last() =~= all.take(i as int));
            assert(t.last() == ws@[i as int]@);
            if i == 0 {
                assert(join(t, sep@) == t[0]);
            }
        }
        i += 1;
    }
    assert(all.take(ws@.len() as int) =~= all);
}

/// Appends `v` to `out`.
pub fn push_all(out: &mut Vec<char>, v: &[char])
    ensures
        final(out)@ == old(out)@ + v@,
{
    let ghost start = out@;
    let mut i: usize = 0;
    while i < v.len()
        invariant
            i <= v@.len(),
            out@ == start + v@.take(i as int),
        decreases v@.len() - i,
    {
        out.push(v[i]);
        i += 1;
        assert(v@.take(i as int) =~= v@.take(i - 1).push(v@[i - 1]));
    }
    assert(v@.take(v@.len() as int) =~= v@);
}

/// Whether two character sequences are equal.
pub fn chars_eq(a: &[char], b: &[char]) -> (r: bool)
    ensures
        r == (a@ == b@),
{
    if a.len() != b.len() {
        return false;
    }
    let mut i: usize = 0;
    while i < a.len()
        invariant
            i <= a@.len(),
            a@.len() == b@.len(),
            a@.take(i as int) == b@.take(i as int),
        decreases a@.len() - i,
    {
        if a[i] != b[i] {
            return false;
        }
        i += 1;
        assert(a@.take(i as int) =~= a@.take(i - 1).push(a@[i - 1]));
        assert(b@.take(i as int) =~= b@.take(i - 1).push(b@[i - 1]));
    }
    assert(a@ =~= a@.take(i as int));
    assert(b@ =~= b@.take(i as int));
    true
}

// ---------------------------------------------------------------------------
// Decimal formatting
// ---------------------------------------------------------------------------

/// The ASCII digit for `d < 10`.
pub open spec fn digit(d: nat) -> char {
    ((48 + d) as u8) as char
}

/// The decimal representation of `n` (`Display` of an unsigned integer).
pub open spec fn dec(n: nat) -> Seq<char>
    decreases n,
{
    if n < 10 {
        seq![digit(n)]
    } else {
        dec(n / 10).push(digit(n % 10))
    }
}

/// `n` in decimal, left-padded with zeros to at least `w` characters
/// (`format!("{:0w$}", n)`).
pub open spec fn dec_padded(n: nat, w: nat) -> Seq<char> {
    let d = dec(n);
    if d.len() < w {
        Seq::new((w - d.len()) as nat, |i: int| '0') + d
    } else {
        d
    }
}

pub proof fn lemma_dec_len(n: nat)
    ensures
        1 <= dec(n).len(),
        n < 10 ==> dec(n).len() == 1,
        n < 100 ==> dec(n).len() <= 2,
        n < 1000 ==> dec(n).len() <= 3,
    decreases n,
{
    if n >= 10 {
        lemma_dec_len(n / 10);
    }
}

/// Appends the decimal digits of `n` to `out`.
pub fn push_dec(out: &mut Vec<char>, n: u64)
    ensures
        final(out)@ == old(out)@ + dec(n as nat),
    decreases n,
{
    if n >= 10 {
        push_dec(out, n / 10);
    }
    let d = (n % 10) as u8;
    out.push((48u8 + d) as char);
}

/// Appends `n` in decimal, zero-padded to at least `w` characters.
pub fn push_dec_padded(out: &mut Vec<char>, n: u64, w: usize)
    ensures
        final(out)@ == old(out)@ + dec_padded(n as nat, w as nat),
{
    let mut digits: Vec<char> = Vec::new();
    push_dec(&mut digits, n);
    assert(digits@ == dec(n as nat));
    let ghost start = out@;
    if digits.len() < w {
        let pad = w - digits.len();
        let mut i: usize = 0;
        while i < pad
            invariant
                i <= pad,
                out@ == start + Seq::new(i as nat, |j: int| '0'),
            decreases pad - i,
        {
            out.push('0');
            i += 1;
            assert(out@ =~= start + Seq::new(i as nat, |j: int| '0'));
        }
    }
    let ghost mid = out@;
    push_all(out, &digits);
    assert(out@ =~= start + dec_padded(n as nat, w as nat));
}

} // verus!
