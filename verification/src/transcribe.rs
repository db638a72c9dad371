//! Post-processing of whisper's output: markers that whisper emits on silence,
//! segments in the wrong script, and the loops in which a word or a short
//! phrase repeats itself; and how a job is set up and which of its segments
//! are kept.

use vstd::prelude::*;
use crate::subtitles::Segment;
use crate::text::{
    chars_eq, char_is_alphabetic, char_is_alphanumeric, chars_of, is_alnum, is_alpha, join,
    lemma_strip_back_take, lemma_strip_front_skip, push_all, split_whitespace,
    str_lowercase, string_from_chars, string_to_lowercase, strip, strip_back, strip_front,
    trim, trim_chars, words,
};

verus! {

// ---------------------------------------------------------------------------
// Non-speech markers and wrong script
// ---------------------------------------------------------------------------

/// `[MÚSICA]`, `(Aplausos)`, `♪ …`: what whisper produces for silence or music.
pub open spec fn is_marker(text: Seq<char>) -> bool {
    let t = trim(text);
    t.len() > 0 && ((t[0] == '[' && t.last() == ']') || (t[0] == '(' && t.last() == ')') || t[0] == '♪')
}

/// Texts that whisper produces for silence or music ("[MÚSICA]", "(Aplausos)", …).
pub fn is_non_speech_marker(text: &str) -> (r: bool)
    ensures
        r == is_marker(text@),
{
    let t = trim_chars(&chars_of(text));
    if t.len() == 0 {
        return false;
    }
    let first = t[0];
    let last = t[t.len() - 1];
    (first == '[' && last == ']') || (first == '(' && last == ')') || first == '♪'
}

/// The languages written in the Latin alphabet.
pub open spec fn latin_languages() -> Seq<Seq<char>> {
    seq![
        seq!['e', 's'], seq!['e', 'n'], seq!['p', 't'], seq!['f', 'r'], seq!['i', 't'],
        seq!['d', 'e'], seq!['c', 'a'], seq!['g', 'l'], seq!['e', 'u'], seq!['n', 'l'],
        seq!['r', 'o'],
    ]
}

/// Alphabetic characters up to U+024F (Latin), and the others.
pub open spec fn script_counts(text: Seq<char>) -> (nat, nat)
    decreases text.len(),
{
    if text.len() == 0 {
        (0, 0)
    } else {
        let (l, o) = script_counts(text.drop_last());
        let c = text.last();
        if !is_alpha(c) {
            (l, o)
        } else if (c as u32) <= 0x024F {
            (l + 1, o)
        } else {
            (l, o + 1)
        }
    }
}

/// With a Latin-alphabet language fixed, a segment mostly in another alphabet.
pub open spec fn is_wrong_script(language: Seq<char>, text: Seq<char>) -> bool {
    latin_languages().contains(language) && script_counts(text).1 > script_counts(text).0
}

/// With a Latin-alphabet language fixed, a segment mostly in another alphabet
/// ("оном") is noise that the temperature fallback turned into text.
pub fn wrong_script(language: &str, text: &str) -> (r: bool)
    ensures
        r == is_wrong_script(language@, text@),
{
    let lang = chars_of(language);
    let mut known = false;
    let mut k: usize = 0;
    let codes: [[char; 2]; 11] = [
        ['e', 's'], ['e', 'n'], ['p', 't'], ['f', 'r'], ['i', 't'], ['d', 'e'], ['c', 'a'],
        ['g', 'l'], ['e', 'u'], ['n', 'l'], ['r', 'o'],
    ];
    while k < 11
        invariant
            k <= 11,
            codes@.len() == 11,
            forall|j: int| 0 <= j < 11 ==> #[trigger] codes@[j]@ == latin_languages()[j],
            known == (exists|j: int| 0 <= j < k && #[trigger] latin_languages()[j] == lang@),
        decreases 11 - k,
    {
        let code = codes[k];
        if lang.len() == 2 && lang[0] == code[0] && lang[1] == code[1] {
            assert(lang@ =~= code@);
            known = true;
        } else {
            assert(lang@ != latin_languages()[k as int]);
        }
        k += 1;
    }
    proof {
        assert(latin_languages().len() == 11);
        if latin_languages().contains(lang@) {
            let j = choose|j: int| 0 <= j < latin_languages().len() && latin_languages()[j] == lang@;
            assert(latin_languages()[j] == lang@);
        }
    }
    if !known {
        return false;
    }
    let t = chars_of(text);
    let mut latin: usize = 0;
    let mut other: usize = 0;
    let mut i: usize = 0;
    while i < t.len()
        invariant
            i <= t@.len(),
            (latin as nat, other as nat) == script_counts(t@.take(i as int)),
            latin + other <= i,
        decreases t@.len() - i,
    {
        let c = t[i];
        proof {
            let s = t@.take(i + 1);
            assert(s.drop_last() =~= t@.take(i as int));
        }
        if char_is_alphabetic(c) {
            if (c as u32) <= 0x024F {
                latin += 1;
            } else {
                other += 1;
            }
        }
        i += 1;
    }
    assert(t@.take(t@.len() as int) =~= t@);
    other > latin
}

// ---------------------------------------------------------------------------
// Repetition loops
// ---------------------------------------------------------------------------

/// Characters that are not alphanumeric.
pub open spec fn non_alnum() -> spec_fn(char) -> bool {
    |c: char| !is_alnum(c)
}

/// The comparison key of a word: without surrounding non-alphanumeric
/// characters, in lowercase ("Sí," and "sí" have the same key).
pub open spec fn word_key(w: Seq<char>) -> Seq<char> {
    str_lowercase(strip(w, non_alnum()))
}

/// The keys of the words.
pub open spec fn keys_of(ws: Seq<Seq<char>>) -> Seq<Seq<char>> {
    ws.map_values(|w: Seq<char>| word_key(w))
}

/// Where the run of copies of `keys[i..i+n]` that continues at `p` ends.
pub open spec fn run_end(keys: Seq<Seq<char>>, i: int, n: int, p: int) -> int
    decreases keys.len() - p,
{
    if n >= 1 && 0 <= i && i + n <= p && p + n <= keys.len()
        && keys.subrange(p, p + n) == keys.subrange(i, i + n) {
        run_end(keys, i, n, p + n)
    } else {
        p
    }
}

/// How many words of a run of phrases of `n` words are kept: a word at most
/// three times, a phrase at most twice.
pub open spec fn kept_len(n: int) -> int {
    if n == 1 { 3 } else { 2 * n }
}

/// How many words are kept from the start of the run (the last copy is kept too).
pub open spec fn head_len(n: int) -> int {
    if n == 1 { 2 } else { n }
}

/// Whether every key of `keys[i..i+n]` is non-empty.
pub open spec fn all_nonempty(keys: Seq<Seq<char>>, i: int, n: int) -> bool {
    forall|j: int| i <= j < i + n ==> (#[trigger] keys[j]).len() > 0
}

/// The first phrase length, from `n` up to 4, whose run at `i` is too long:
/// the length and where the run ends.
pub open spec fn collapse_at(keys: Seq<Seq<char>>, i: int, n: int) -> Option<(int, int)>
    decreases 5 - n,
{
    if n < 1 || n > 4 {
        None
    } else if keys.len() - i < 2 * n || !all_nonempty(keys, i, n) {
        collapse_at(keys, i, n + 1)
    } else {
        let e = run_end(keys, i, n, i + n);
        if e - i > kept_len(n) { Some((n, e)) } else { collapse_at(keys, i, n + 1) }
    }
}

/// The indices `a..b`.
pub open spec fn index_range(a: int, b: int) -> Seq<int> {
    Seq::new((b - a) as nat, |k: int| a + k)
}

/// Scan from word `i`: the indices of the kept words and how many were removed.
pub open spec fn scan(keys: Seq<Seq<char>>, i: int) -> (Seq<int>, int)
    decreases keys.len() - i,
{
    if i < 0 || i >= keys.len() {
        (seq![], 0)
    } else {
        match collapse_at(keys, i, 1) {
            Some((n, e)) => if i < e <= keys.len() {
                let (o, r) = scan(keys, e);
                (index_range(i, i + head_len(n)) + index_range(e - n, e) + o, (e - i - kept_len(n)) + r)
            } else {
                let (o, r) = scan(keys, i + 1);
                (seq![i] + o, r)
            },
            None => {
                let (o, r) = scan(keys, i + 1);
                (seq![i] + o, r)
            },
        }
    }
}

/// The kept words joined by spaces.
pub open spec fn kept_text(ws: Seq<Seq<char>>, idx: Seq<int>) -> Seq<char> {
    join(idx.map_values(|j: int| ws[j]), seq![' '])
}

/// A trailing comma becomes an ellipsis.
pub open spec fn close_with_ellipsis(t: Seq<char>) -> Seq<char> {
    if t.len() > 0 && t.last() == ',' { t.drop_last().push('…') } else { t }
}

/// Every key equals the one `n` places before it.
pub open spec fn repeats_every(keys: Seq<Seq<char>>, n: int) -> bool {
    forall|j: int| n <= j < keys.len() ==> #[trigger] keys[j] == keys[j - n]
}

/// Whether the keys are nothing but copies of one phrase of `n` non-empty
/// keys, more copies than are allowed: a word more than three times, a
/// phrase of 2 to 4 words more than twice.
pub open spec fn is_loop_of(keys: Seq<Seq<char>>, n: int) -> bool {
    &&& 1 <= n
    &&& (keys.len() as int) % n == 0
    &&& keys.len() > kept_len(n)
    &&& all_nonempty(keys, 0, n)
    &&& repeats_every(keys, n)
}

/// Whether the keys are only a loop of one word or of one phrase of 2 to 4
/// words.
pub open spec fn only_loop(keys: Seq<Seq<char>>) -> bool {
    is_loop_of(keys, 1) || is_loop_of(keys, 2) || is_loop_of(keys, 3) || is_loop_of(keys, 4)
}

/// The text with its loops trimmed; `None` when the text was only the loop.
pub open spec fn cleaned(text: Seq<char>) -> Option<Seq<char>> {
    let ws = words(text);
    let keys = keys_of(ws);
    let (idx, removed) = scan(keys, 0);
    if only_loop(keys) {
        None
    } else if removed == 0 {
        Some(text)
    } else {
        Some(close_with_ellipsis(kept_text(ws, idx)))
    }
}


/// Removes the non-alphanumeric characters at both ends.
fn strip_non_alnum(v: &[char]) -> (r: Vec<char>)
    ensures
        r@ == strip(v@, non_alnum()),
{
    let n = v.len();
    let mut lo: usize = 0;
    while lo < n && !char_is_alphanumeric(v[lo])
        invariant
            lo <= n,
            n == v@.len(),
            forall|j: int| 0 <= j < lo ==> !is_alnum(#[trigger] v@[j]),
        decreases n - lo,
    {
        lo += 1;
    }
    let mut hi: usize = n;
    while hi > lo && !char_is_alphanumeric(v[hi - 1])
        invariant
            lo <= hi <= n,
            n == v@.len(),
            forall|j: int| hi <= j < n ==> !is_alnum(#[trigger] v@[j]),
        decreases hi,
    {
        hi -= 1;
    }
    let mut out: Vec<char> = Vec::new();
    let mut k = lo;
    while k < hi
        invariant
            lo <= k <= hi <= n,
            n == v@.len(),
            out@ == v@.subrange(lo as int, k as int),
        decreases hi - k,
    {
        out.push(v[k]);
        k += 1;
    }
    proof {
        let s = v@;
        assert forall|j: int| 0 <= j < lo implies #[trigger] non_alnum()(s[j]) by {}
        lemma_strip_front_skip(s, non_alnum(), lo as int);
        let t = s.skip(lo as int);
        assert(lo == n || is_alnum(t[0]));
        assert(strip_front(t, non_alnum()) == t);
        assert forall|j: int| hi - lo <= j < t.len() implies #[trigger] non_alnum()(t[j]) by {
            assert(t[j] == s[j + lo]);
        }
        lemma_strip_back_take(t, non_alnum(), hi - lo);
        let u = t.take(hi - lo);
        assert(u =~= s.subrange(lo as int, hi as int));
        assert(hi == lo || is_alnum(u.last()));
    }
    out
}

/// Normalizes a word to compare repetitions ("Sí," == "sí").
fn norm_word(w: &[char]) -> (r: Vec<char>)
    ensures
        r@ == word_key(w@),
{
    let core = strip_non_alnum(w);
    let s = string_from_chars(&core);
    let low = string_to_lowercase(s.as_str());
    chars_of(low.as_str())
}

/// Whether `keys[a..a+n] == keys[b..b+n]`.
fn ranges_equal(keys: &Vec<Vec<char>>, a: usize, b: usize, n: usize) -> (r: bool)
    requires
        a + n <= keys.len(),
        b + n <= keys.len(),
    ensures
        r == (keys@.map_values(|k: Vec<char>| k@).subrange(a as int, a + n)
            == keys@.map_values(|k: Vec<char>| k@).subrange(b as int, b + n)),
{
    let ghost kv = keys@.map_values(|k: Vec<char>| k@);
    let ghost sa = kv.subrange(a as int, a + n);
    let ghost sb = kv.subrange(b as int, b + n);
    let mut t: usize = 0;
    while t < n
        invariant
            t <= n,
            a + n <= keys.len(),
            b + n <= keys.len(),
            kv == keys@.map_values(|k: Vec<char>| k@),
            sa == kv.subrange(a as int, a + n),
            sb == kv.subrange(b as int, b + n),
            forall|j: int| 0 <= j < t ==> #[trigger] sa[j] == sb[j],
        decreases n - t,
    {
        assert(sa[t as int] == keys@[a + t]@);
        assert(sb[t as int] == keys@[b + t]@);
        if !chars_eq(&keys[a + t], &keys[b + t]) {
            return false;
        }
        t += 1;
    }
    assert(sa =~= sb);
    true
}

/// Where the run of copies of `keys[i..i+n]` ends.
fn run_end_of(keys: &Vec<Vec<char>>, i: usize, n: usize) -> (r: usize)
    requires
        1 <= n,
        i + n <= keys@.len(),
    ensures
        r as int == run_end(keys@.map_values(|k: Vec<char>| k@), i as int, n as int, i + n),
        i + n <= r <= keys@.len(),
{
    let ghost kv = keys@.map_values(|k: Vec<char>| k@);
    let len = keys.len();
    let mut p = i + n;
    while n <= len - p && ranges_equal(keys, p, i, n)
        invariant
            1 <= n,
            i + n <= p <= len,
            len == keys@.len(),
            kv == keys@.map_values(|k: Vec<char>| k@),
            run_end(kv, i as int, n as int, i + n) == run_end(kv, i as int, n as int, p as int),
        decreases len - p,
    {
        p = p + n;
    }
    p
}

/// The phrase length and run end of the first run at `i` that is too long.
fn find_collapse(keys: &Vec<Vec<char>>, i: usize) -> (r: Option<(usize, usize)>)
    requires
        i < keys@.len(),
    ensures
        match r {
            Some((n, e)) => collapse_at(keys@.map_values(|k: Vec<char>| k@), i as int, 1)
                == Some((n as int, e as int)) && 1 <= n <= 4 && i < e <= keys@.len()
                && e - i > kept_len(n as int),
            None => collapse_at(keys@.map_values(|k: Vec<char>| k@), i as int, 1) is None,
        },
{
    let ghost kv = keys@.map_values(|k: Vec<char>| k@);
    let len = keys.len();
    let mut n: usize = 1;
    while n <= 4
        invariant
            1 <= n <= 5,
            i < len,
            len == keys@.len(),
            kv == keys@.map_values(|k: Vec<char>| k@),
            collapse_at(kv, i as int, 1) == collapse_at(kv, i as int, n as int),
        decreases 5 - n,
    {
        if len - i >= 2 * n {
            let mut ok = true;
            let mut j: usize = 0;
            while j < n
                invariant
                    j <= n,
                    i + n <= len,
                    len == keys@.len(),
                    kv == keys@.map_values(|k: Vec<char>| k@),
                    ok == (forall|t: int| i <= t < i + j ==> (#[trigger] kv[t]).len() > 0),
                decreases n - j,
            {
                if keys[i + j].len() == 0 {
                    ok = false;
                }
                assert(kv[i + j] == keys@[i + j as int]@);
                j += 1;
            }
            if ok {
                let e = run_end_of(keys, i, n);
                let kept: usize = if n == 1 { 3 } else { 2 * n };
                if e - i > kept {
                    return Some((n, e));
                }
            }
        }
        n += 1;
    }
    None
}

/// Appends `a..b` to `out`.
fn push_range(out: &mut Vec<usize>, a: usize, b: usize)
    requires
        a <= b,
    ensures
        final(out)@.map_values(|x: usize| x as int) == old(out)@.map_values(|x: usize| x as int)
            + index_range(a as int, b as int),
{
    let ghost start = out@.map_values(|x: usize| x as int);
    let mut k = a;
    while k < b
        invariant
            a <= k <= b,
            out@.map_values(|x: usize| x as int) == start + index_range(a as int, k as int),
        decreases b - k,
    {
        let ghost before = out@;
        out.push(k);
        assert(out@.map_values(|x: usize| x as int) =~= before.map_values(|x: usize| x as int).push(k as int));
        assert(index_range(a as int, k + 1) =~= index_range(a as int, k as int).push(k as int));
        k += 1;
    }
}

/// Whether the keys are only a loop of a phrase of `n` keys (`is_loop_of`).
fn loop_of(keys: &Vec<Vec<char>>, n: usize) -> (r: bool)
    requires
        1 <= n <= 4,
    ensures
        r == is_loop_of(keys@.map_values(|k: Vec<char>| k@), n as int),
{
    let ghost kv = keys@.map_values(|k: Vec<char>| k@);
    let len = keys.len();
    let kept: usize = if n == 1 { 3 } else { 2 * n };
    if len % n != 0 || len <= kept {
        return false;
    }
    let mut j: usize = 0;
    while j < n
        invariant
            j <= n < len,
            len == keys@.len(),
            kv == keys@.map_values(|k: Vec<char>| k@),
            forall|t: int| 0 <= t < j ==> (#[trigger] kv[t]).len() > 0,
        decreases n - j,
    {
        if keys[j].len() == 0 {
            assert(kv[j as int].len() == 0);
            return false;
        }
        j += 1;
    }
    let mut j: usize = n;
    while j < len
        invariant
            n <= j <= len,
            len == keys@.len(),
            kv == keys@.map_values(|k: Vec<char>| k@),
            forall|t: int| n <= t < j ==> #[trigger] kv[t] == kv[t - n],
        decreases len - j,
    {
        if !chars_eq(&keys[j], &keys[j - n]) {
            assert(kv[j as int] != kv[j - n]);
            return false;
        }
        j += 1;
    }
    true
}

/// Trims whisper's loops: a word repeated more than 3 times in a row, or a
/// phrase of 2 to 4 words repeated more than twice, is cut down to that
/// maximum (the first copies and the last one, whose punctuation links with
/// what follows). Returns `None` exactly when the segment was only the
/// loop (e.g. "no, no, no, no, no, no…"): its words are nothing but more
/// than three copies of one word, or more than two copies of one phrase of
/// 2 to 4 words.
pub fn clean_repetitions(text: &str) -> (r: Option<String>)
    ensures
        match r {
            Some(t) => cleaned(text@) == Some(t@),
            None => cleaned(text@) is None,
        },
{
    let chars = chars_of(text);
    let ws = split_whitespace(&chars);
    let ghost wv = ws@.map_values(|w: Vec<char>| w@);
    assert(wv == words(text@));
    let mut keys: Vec<Vec<char>> = Vec::new();
    let mut q: usize = 0;
    while q < ws.len()
        invariant
            q <= ws@.len(),
            wv == ws@.map_values(|w: Vec<char>| w@),
            keys@.map_values(|k: Vec<char>| k@) == keys_of(wv.take(q as int)),
        decreases ws@.len() - q,
    {
        let ghost before = keys@.map_values(|k: Vec<char>| k@);
        let k = norm_word(&ws[q]);
        keys.push(k);
        assert(keys@.map_values(|k: Vec<char>| k@) =~= before.push(word_key(wv[q as int])));
        assert(keys_of(wv.take(q + 1)) =~= keys_of(wv.take(q as int)).push(word_key(wv[q as int])));
        q += 1;
    }
    assert(wv.take(ws@.len() as int) =~= wv);
    let ghost kv = keys@.map_values(|k: Vec<char>| k@);
    assert(kv == keys_of(wv));
    let n_words = ws.len();
    let mut out: Vec<usize> = Vec::new();
    let mut removed: usize = 0;
    let mut i: usize = 0;
    while i < n_words
        invariant
            i <= n_words,
            n_words == ws@.len(),
            n_words == keys@.len(),
            kv == keys@.map_values(|k: Vec<char>| k@),
            removed <= i,
            forall|t: int| 0 <= t < out@.len() ==> #[trigger] out@[t] < n_words,
            scan(kv, 0).0 == out@.map_values(|x: usize| x as int) + scan(kv, i as int).0,
            scan(kv, 0).1 == removed + scan(kv, i as int).1,
        decreases n_words - i,
    {
        let ghost ov = out@.map_values(|x: usize| x as int);
        let ghost prev_out = out@;
        match find_collapse(&keys, i) {
            Some((n, e)) => {
                let head: usize = if n == 1 { 2 } else { n };
                let kept: usize = if n == 1 { 3 } else { 2 * n };
                push_range(&mut out, i, i + head);
                push_range(&mut out, e - n, e);
                proof {
                    let (o, r) = scan(kv, e as int);
                    assert(out@.map_values(|x: usize| x as int) =~= ov + index_range(i as int, i + head)
                        + index_range(e - n, e as int));
                    let full = ov + index_range(i as int, i + head) + index_range(e - n, e as int);
                    assert forall|t: int| 0 <= t < out@.len() implies #[trigger] out@[t] < n_words by {
                        assert(out@.map_values(|x: usize| x as int)[t] == out@[t] as int);
                        assert(full[t] == out@[t] as int);
                        if t < prev_out.len() {
                            assert(full[t] == ov[t]);
                            assert(ov[t] == prev_out[t] as int);
                        } else if t < prev_out.len() + head {
                            assert(full[t] == index_range(i as int, i + head)[t - prev_out.len()]);
                        } else {
                            assert(full[t] == index_range(e - n, e as int)[t - prev_out.len() - head]);
                        }
                    }
                }
                removed = removed + (e - i - kept);
                i = e;
            },
            None => {
                out.push(i);
                assert(out@.map_values(|x: usize| x as int) =~= ov.push(i as int));
                assert forall|t: int| 0 <= t < out@.len() implies #[trigger] out@[t] < n_words by {
                    if t < prev_out.len() {
                        assert(out@[t] == prev_out[t]);
                    }
                }
                i += 1;
            },
        }
    }
    let ghost ov = out@.map_values(|x: usize| x as int);
    assert(scan(kv, 0) == (ov, removed as int));
    if loop_of(&keys, 1) || loop_of(&keys, 2) || loop_of(&keys, 3) || loop_of(&keys, 4) {
        return None;
    }
    if removed == 0 {
        return Some(string_from_chars(&chars));
    }
    let mut cleaned_chars: Vec<char> = Vec::new();
    let mut k: usize = 0;
    while k < out.len()
        invariant
            k <= out@.len(),
            n_words == ws@.len(),
            wv == ws@.map_values(|w: Vec<char>| w@),
            ov == out@.map_values(|x: usize| x as int),
            forall|t: int| 0 <= t < out@.len() ==> #[trigger] out@[t] < n_words,
            cleaned_chars@ == join(ov.take(k as int).map_values(|j: int| wv[j]), seq![' ']),
        decreases out@.len() - k,
    {
        let ghost before = cleaned_chars@;
        let j = out[k];
        if k > 0 {
            cleaned_chars.push(' ');
        }
        push_all(&mut cleaned_chars, &ws[j]);
        proof {
            let m = ov.take(k + 1).map_values(|j: int| wv[j]);
            assert(m.drop_last() =~= ov.take(k as int).map_values(|j: int| wv[j]));
            assert(m.last() == wv[j as int]);
            if k == 0 {
                assert(cleaned_chars@ =~= join(m, seq![' ']));
            } else {
                assert(cleaned_chars@ =~= join(m, seq![' ']));
            }
        }
        k += 1;
    }
    assert(ov.take(out@.len() as int) =~= ov);
    let ghost joined = cleaned_chars@;
    if cleaned_chars.len() > 0 && cleaned_chars[cleaned_chars.len() - 1] == ',' {
        cleaned_chars.pop();
        cleaned_chars.push('…');
        assert(cleaned_chars@ =~= joined.drop_last().push('…'));
    }
    Some(string_from_chars(&cleaned_chars))
}


// ---------------------------------------------------------------------------
// Backend
// ---------------------------------------------------------------------------

/// Whether this build's backend can abort the process (rather than return
/// an error) when the machine's driver is unusable; such backends are probed
/// in a child process first. This build has no GPU backend.
pub fn is_gpu_variant() -> (r: bool)
    ensures
        !r,
{
    false
}

/// The name of the backend this build was compiled with.
pub open spec fn backend() -> Seq<char> {
    "CPU"@
}

/// The name of the backend this build was compiled with (CPU: the build has
/// no CUDA, Metal, CoreML, Vulkan or OpenBLAS backend).
pub fn backend_name() -> (r: &'static str)
    ensures
        r@ == backend(),
{
    "CPU"
}


// ---------------------------------------------------------------------------
// Jobs
// ---------------------------------------------------------------------------

/// Progress of a job.
#[derive(Debug, Clone)]
pub struct ProgressEvent {
    pub job_id: String,
    /// "decoding" | "loading" | "transcribing"
    pub stage: String,
    pub percent: i32,
}

/// A segment produced while the job runs.
#[derive(Debug, Clone)]
pub struct SegmentEvent {
    pub job_id: String,
    pub segment: Segment,
}

/// Events that the engine emits during a transcription.
#[derive(Debug, Clone)]
pub enum EngineEvent {
    Progress(ProgressEvent),
    Segment(SegmentEvent),
}

/// What to transcribe and how.
#[derive(Debug, Clone)]
pub struct Options {
    pub job_id: String,
    pub input: String,
    pub model_path: String,
    /// ISO code of the language, or "auto" (or empty) to detect it.
    pub language: String,
    pub translate: bool,
    pub use_gpu: bool,
    /// 0 = automatic.
    pub threads: u32,
    /// 1 = greedy, more = beam search.
    pub beam_size: u32,
    pub initial_prompt: Option<String>,
}

/// Sample rate of the audio that the engine takes (Hz).
pub const TARGET_RATE: u32 = 16_000;

/// Whether decoded audio is long enough to transcribe (half a second).
pub fn enough_audio(samples: usize) -> (r: bool)
    ensures
        r == (samples >= (TARGET_RATE / 2) as usize),
{
    samples >= (TARGET_RATE / 2) as usize
}

/// The checks after decoding a file: a cancelled job stops, and less than
/// half a second of audio is refused.
pub fn decoded_check(cancelled: bool, samples: usize) -> (r: Result<(), String>)
    ensures
        cancelled ==> r is Err && r->Err_0@ == "Cancelado"@,
        !cancelled && samples < (TARGET_RATE / 2) as usize ==> r is Err
            && r->Err_0@ == "El archivo no contiene audio suficiente para transcribir"@,
        !cancelled && samples >= (TARGET_RATE / 2) as usize ==> r is Ok,
{
    if cancelled {
        return Err(string_from_chars(&chars_of("Cancelado")));
    }
    if !enough_audio(samples) {
        return Err(string_from_chars(&chars_of("El archivo no contiene audio suficiente para transcribir")));
    }
    Ok(())
}

/// The segment that whisper reports while it works (times in
/// centiseconds), as it is shown live: milliseconds and the trimmed text.
pub fn reported_segment(start_cs: i64, end_cs: i64, text: &str) -> (r: Segment)
    requires
        i64::MIN <= start_cs * 10 <= i64::MAX,
        i64::MIN <= end_cs * 10 <= i64::MAX,
    ensures
        r.start_ms == start_cs * 10,
        r.end_ms == end_cs * 10,
        r.text@ == trim(text@),
        r.speaker is None,
{
    Segment { start_ms: start_cs * 10, end_ms: end_cs * 10, text: string_from_chars(&trim_chars(&chars_of(text))), speaker: None }
}

/// How whisper is set up for a job.
#[derive(Debug, Clone)]
pub struct DecodePlan {
    /// 1 = greedy decoding, more = beam search of that width.
    pub beam_size: u32,
    pub threads: i32,
    pub translate: bool,
    /// `None` = detect the language.
    pub language: Option<String>,
    /// Live mode: suppress non-speech tokens and use no context.
    pub live_mode: bool,
    pub initial_prompt: Option<String>,
    /// Progress and segment events are emitted (not in live mode).
    pub emit_events: bool,
}

/// Whether a language setting asks for detection.
pub open spec fn detects_language(language: Seq<char>) -> bool {
    language == "auto"@ || language.len() == 0
}

/// The initial prompt that is passed on: only a non-blank one.
pub open spec fn passed_prompt(p: Option<String>) -> Option<Seq<char>> {
    match p {
        Some(t) => if trim(t@).len() > 0 { Some(t@) } else { None },
        None => None,
    }
}

/// Sets whisper up: live blocks decode greedily with no context and no
/// events; `threads` 0 means the machine's parallelism (`available`) up to 8.
pub fn decode_plan(opts: &Options, live: bool, available: usize) -> (r: DecodePlan)
    ensures
        r.beam_size == (if live { 1 } else { opts.beam_size }),
        r.threads == (if opts.threads == 0 { (if available < 8 { available } else { 8 }) as i32 } else { opts.threads as i32 }),
        r.translate == opts.translate,
        match r.language {
            None => detects_language(opts.language@),
            Some(l) => !detects_language(opts.language@) && l@ == opts.language@,
        },
        r.live_mode == live,
        r.emit_events == !live,
        match r.initial_prompt {
            Some(p) => passed_prompt(opts.initial_prompt) == Some(p@),
            None => passed_prompt(opts.initial_prompt) is None,
        },
{
    let lang = chars_of(opts.language.as_str());
    let language = if lang.len() == 0 || chars_eq(&lang, &chars_of("auto")) {
        None
    } else {
        Some(opts.language.clone())
    };
    let initial_prompt = match &opts.initial_prompt {
        Some(p) => if trim_chars(&chars_of(p.as_str())).len() > 0 { Some(p.clone()) } else { None },
        None => None,
    };
    let threads: i32 = if opts.threads == 0 {
        let n = if available < 8 { available } else { 8 };
        n as i32
    } else {
        opts.threads as i32
    };
    DecodePlan {
        beam_size: if live { 1 } else { opts.beam_size },
        threads,
        translate: opts.translate,
        language,
        live_mode: live,
        initial_prompt,
        emit_events: !live,
    }
}

/// A segment as whisper returns it: times in centiseconds, its text (`None`
/// when it is not valid text) and whether whisper rates it as probably not
/// speech (no-speech probability above 0.7).
#[derive(Debug, Clone)]
pub struct RawSegment {
    pub start_cs: i64,
    pub end_cs: i64,
    pub text: Option<String>,
    pub no_speech: bool,
}

/// The trimmed text of a raw segment (empty without text).
pub open spec fn raw_text(s: RawSegment) -> Seq<char> {
    match s.text {
        Some(t) => trim(t@),
        None => seq![],
    }
}

/// What a raw segment becomes: nothing when its text is empty, in live mode
/// when it is not speech (probability, marker or wrong script), or when it
/// was only a loop; otherwise the cleaned text with times in milliseconds.
pub open spec fn kept_segment(s: RawSegment, live: bool, language: Seq<char>) -> Option<(int, int, Seq<char>)> {
    let t = raw_text(s);
    if t.len() == 0 {
        None
    } else if live && (s.no_speech || is_marker(t) || is_wrong_script(language, t)) {
        None
    } else {
        match cleaned(t) {
            Some(c) => Some((s.start_cs * 10, s.end_cs * 10, c)),
            None => None,
        }
    }
}

/// The segments kept from `raw[..k]`, in order.
pub open spec fn kept_segments(raw: Seq<RawSegment>, live: bool, language: Seq<char>, k: int) -> Seq<(int, int, Seq<char>)>
    decreases k,
{
    if k <= 0 {
        seq![]
    } else {
        let prev = kept_segments(raw, live, language, k - 1);
        match kept_segment(raw[k - 1], live, language) {
            Some(x) => prev.push(x),
            None => prev,
        }
    }
}

/// The view of a transcribed segment without speaker.
pub open spec fn plain_segment(s: Segment) -> (int, int, Seq<char>) {
    (s.start_ms as int, s.end_ms as int, s.text@)
}

/// Times in milliseconds fit in `i64`.
pub open spec fn times_fit(raw: Seq<RawSegment>) -> bool {
    forall|i: int| 0 <= i < raw.len() ==> i64::MIN <= #[trigger] raw[i].start_cs * 10 <= i64::MAX
        && i64::MIN <= raw[i].end_cs * 10 <= i64::MAX
}

/// The segments of a transcription: empty texts are dropped, in live mode
/// so are non-speech segments, and loops are trimmed.
pub fn collect_segments(raw: &[RawSegment], live: bool, language: &str) -> (r: Vec<Segment>)
    requires
        times_fit(raw@),
    ensures
        r@.map_values(|s: Segment| plain_segment(s)) == kept_segments(raw@, live, language@, raw@.len() as int),
        forall|i: int| 0 <= i < r@.len() ==> (#[trigger] r@[i]).speaker is None,
{
    let mut out: Vec<Segment> = Vec::new();
    let mut i: usize = 0;
    while i < raw.len()
        invariant
            i <= raw@.len(),
            times_fit(raw@),
            out@.map_values(|s: Segment| plain_segment(s)) == kept_segments(raw@, live, language@, i as int),
            forall|j: int| 0 <= j < out@.len() ==> (#[trigger] out@[j]).speaker is None,
        decreases raw@.len() - i,
    {
        let ghost before = out@.map_values(|s: Segment| plain_segment(s));
        let r = &raw[i];
        assert(i64::MIN <= raw@[i as int].start_cs * 10 <= i64::MAX);
        let t = match &r.text {
            Some(x) => trim_chars(&chars_of(x.as_str())),
            None => Vec::new(),
        };
        assert(t@ == raw_text(raw@[i as int]));
        if t.len() > 0 {
            let ts = string_from_chars(&t);
            let skip = live && (r.no_speech || is_non_speech_marker(ts.as_str()) || wrong_script(language, ts.as_str()));
            if !skip {
                match clean_repetitions(ts.as_str()) {
                    Some(c) => {
                        let seg = Segment { start_ms: r.start_cs * 10, end_ms: r.end_cs * 10, text: c, speaker: None };
                        out.push(seg);
                        assert(out@.map_values(|s: Segment| plain_segment(s)) =~= before.push(plain_segment(seg)));
                    },
                    None => {},
                }
            }
        }
        i += 1;
    }
    out
}

// ---------------------------------------------------------------------------
// Laws
// ---------------------------------------------------------------------------

/// Positions in strictly increasing order, all within `lo..hi`.
pub open spec fn increasing_within(s: Seq<int>, lo: int, hi: int) -> bool {
    &&& forall|a: int, b: int| 0 <= a < b < s.len() ==> #[trigger] s[a] < #[trigger] s[b]
    &&& forall|a: int| 0 <= a < s.len() ==> lo <= #[trigger] s[a] < hi
}

proof fn lemma_concat_increasing(s1: Seq<int>, s2: Seq<int>, lo: int, mid: int, hi: int)
    requires
        lo <= mid <= hi,
        increasing_within(s1, lo, mid),
        increasing_within(s2, mid, hi),
    ensures
        increasing_within(s1 + s2, lo, hi),
{
    let t = s1 + s2;
    assert forall|a: int| 0 <= a < t.len() implies #[trigger] t[a] == (if a < s1.len() { s1[a] } else { s2[a - s1.len()] }) by {}
    assert forall|a: int, b: int| 0 <= a < b < t.len() implies #[trigger] t[a] < #[trigger] t[b] by {
        if a < s1.len() && b >= s1.len() {
            assert(s1[a] < mid);
            assert(mid <= s2[b - s1.len()]);
        } else if a < s1.len() {
            assert(s1[a] < s1[b]);
        } else {
            assert(s2[a - s1.len()] < s2[b - s1.len()]);
        }
    }
    assert forall|a: int| 0 <= a < t.len() implies lo <= #[trigger] t[a] < hi by {
        if a < s1.len() {
            assert(lo <= s1[a] < mid);
        } else {
            assert(mid <= s2[a - s1.len()] < hi);
        }
    }
}

proof fn lemma_collapse_at(keys: Seq<Seq<char>>, i: int, n: int)
    ensures
        collapse_at(keys, i, n) matches Some((m, e)) ==> 1 <= m <= 4 && e - i > kept_len(m),
    decreases 5 - n,
{
    if 1 <= n <= 4 {
        lemma_collapse_at(keys, i, n + 1);
    }
}

proof fn lemma_scan(keys: Seq<Seq<char>>, i: int)
    requires
        0 <= i <= keys.len(),
    ensures
        scan(keys, i).0.len() + scan(keys, i).1 == keys.len() - i,
        scan(keys, i).1 >= 0,
        increasing_within(scan(keys, i).0, i, keys.len() as int),
    decreases keys.len() - i,
{
    if i < keys.len() {
        lemma_collapse_at(keys, i, 1);
        match collapse_at(keys, i, 1) {
            Some((n, e)) => {
                if i < e <= keys.len() {
                    lemma_scan(keys, e);
                    let h = head_len(n);
                    let r1 = index_range(i, i + h);
                    let r2 = index_range(e - n, e);
                    assert(increasing_within(r1, i, i + h));
                    assert(increasing_within(r2, e - n, e));
                    lemma_concat_increasing(r1, r2, i, i + h, e);
                    lemma_concat_increasing(r1 + r2, scan(keys, e).0, i, e, keys.len() as int);
                } else {
                    lemma_scan(keys, i + 1);
                    lemma_concat_increasing(seq![i], scan(keys, i + 1).0, i, i + 1, keys.len() as int);
                }
            },
            None => {
                lemma_scan(keys, i + 1);
                lemma_concat_increasing(seq![i], scan(keys, i + 1).0, i, i + 1, keys.len() as int);
            },
        }
    } else {
        assert(scan(keys, i).0 =~= Seq::<int>::empty());
    }
}

/// Trimming loops only drops words: the words kept come from the text in
/// their order, each once, and together with the words removed they make
/// up all the words of the text.
pub proof fn trimming_keeps_word_order(text: Seq<char>)
    ensures
        scan(keys_of(words(text)), 0).0.len() + scan(keys_of(words(text)), 0).1 == words(text).len(),
        scan(keys_of(words(text)), 0).1 >= 0,
        increasing_within(scan(keys_of(words(text)), 0).0, 0, words(text).len() as int),
{
    lemma_scan(keys_of(words(text)), 0);
}

/// Live mode only drops segments: a segment kept live is kept, the same,
/// when the whole file is transcribed.
pub proof fn live_keeps_a_subset(s: RawSegment, language: Seq<char>)
    ensures
        kept_segment(s, true, language) matches Some(x) ==> kept_segment(s, false, language) == Some(x),
{
}

proof fn lemma_scan_no_loops(keys: Seq<Seq<char>>, i: int)
    requires
        0 <= i <= keys.len(),
        forall|j: int| 0 <= j < keys.len() ==> #[trigger] collapse_at(keys, j, 1) is None,
    ensures
        scan(keys, i).1 == 0,
    decreases keys.len() - i,
{
    if i < keys.len() {
        lemma_scan_no_loops(keys, i + 1);
    }
}

proof fn lemma_mod_step(x: int, n: int)
    by (nonlinear_arith)
    requires
        n >= 1,
        x > 0,
        x % n == 0,
    ensures
        x >= n,
        (x - n) % n == 0,
{
}

proof fn lemma_mod_diff(a: int, b: int, n: int)
    requires
        n >= 1,
        0 <= a <= b,
        a % n == 0,
        b % n == 0,
    ensures
        (b - a) % n == 0,
        (a + n) % n == 0,
{
    vstd::arithmetic::div_mod::lemma_sub_mod_noop(b, a, n);
    vstd::arithmetic::div_mod::lemma_mod_add_multiples_vanish(a, n);
    assert(0int % n == 0) by {
        vstd::arithmetic::div_mod::lemma_mod_multiples_basic(0, n);
    }
}

/// In keys that repeat every `n`, the key at a multiple `p` of `n` plus `t`
/// is the key at `t`.
proof fn lemma_periodic(keys: Seq<Seq<char>>, n: int, p: int, t: int)
    requires
        n >= 1,
        0 <= p,
        p % n == 0,
        0 <= t < n,
        p + t < keys.len(),
        repeats_every(keys, n),
    ensures
        keys[p + t] == keys[t],
    decreases p,
{
    if p > 0 {
        lemma_mod_step(p, n);
        assert(keys[p + t] == keys[p + t - n]);
        lemma_periodic(keys, n, p - n, t);
    }
}

/// The run of copies of `keys[0..n]` in keys that are only such copies
/// reaches the end.
proof fn lemma_run_to_end(keys: Seq<Seq<char>>, n: int, p: int)
    requires
        1 <= n <= p <= keys.len(),
        p % n == 0,
        (keys.len() as int) % n == 0,
        repeats_every(keys, n),
    ensures
        run_end(keys, 0, n, p) == keys.len(),
    decreases keys.len() - p,
{
    if p < keys.len() {
        lemma_mod_diff(p, keys.len() as int, n);
        lemma_mod_step(keys.len() - p, n);
        assert forall|t: int| 0 <= t < n implies keys.subrange(p, p + n)[t] == keys.subrange(0, n)[t] by {
            lemma_periodic(keys, n, p, t);
        }
        assert(keys.subrange(p, p + n) =~= keys.subrange(0, n));
        lemma_run_to_end(keys, n, p + n);
    }
}

/// Keys that are only a loop of a phrase of `n` keys collapse at their
/// start, at `n` or at a shorter phrase.
proof fn lemma_loop_collapses(keys: Seq<Seq<char>>, n: int, m: int)
    requires
        is_loop_of(keys, n),
        n <= 4,
        1 <= m <= n,
    ensures
        collapse_at(keys, 0, m) is Some,
    decreases n - m,
{
    if keys.len() - 0 < 2 * m || !all_nonempty(keys, 0, m) {
        lemma_loop_collapses(keys, n, m + 1);
    } else if m < n {
        if !(run_end(keys, 0, m, m) - 0 > kept_len(m)) {
            lemma_loop_collapses(keys, n, m + 1);
        }
    } else {
        assert((n % n) == 0) by (nonlinear_arith) requires n >= 1;
        lemma_run_to_end(keys, n, n);
    }
}

/// A text without loops, where no word repeats more than three times in a
/// row and no phrase of two to four words more than twice, comes back as it
/// is.
pub proof fn text_without_loops_unchanged(text: Seq<char>)
    requires
        forall|j: int| 0 <= j < words(text).len() ==> #[trigger] collapse_at(keys_of(words(text)), j, 1) is None,
    ensures
        cleaned(text) == Some(text),
{
    let keys = keys_of(words(text));
    assert forall|j: int| 0 <= j < keys.len() implies #[trigger] collapse_at(keys, j, 1) is None by {
        assert(collapse_at(keys_of(words(text)), j, 1) is None);
    }
    lemma_scan_no_loops(keys, 0);
    assert(keys.len() > 0 ==> collapse_at(keys, 0, 1) is None);
    if is_loop_of(keys, 1) {
        lemma_loop_collapses(keys, 1, 1);
    }
    if is_loop_of(keys, 2) {
        lemma_loop_collapses(keys, 2, 1);
    }
    if is_loop_of(keys, 3) {
        lemma_loop_collapses(keys, 3, 1);
    }
    if is_loop_of(keys, 4) {
        lemma_loop_collapses(keys, 4, 1);
    }
}

/// `k` copies of `phrase`, one after another.
pub open spec fn copies(phrase: Seq<Seq<char>>, k: nat) -> Seq<Seq<char>>
    decreases k,
{
    if k == 0 { seq![] } else { copies(phrase, (k - 1) as nat) + phrase }
}

proof fn lemma_copies(phrase: Seq<Seq<char>>, k: nat)
    requires
        phrase.len() >= 1,
    ensures
        copies(phrase, k).len() == k * phrase.len(),
        k >= 1 ==> forall|t: int| 0 <= t < phrase.len() ==>
            #[trigger] copies(phrase, k)[copies(phrase, k).len() - phrase.len() + t] == phrase[t],
        k >= 1 ==> forall|t: int| 0 <= t < phrase.len() ==> #[trigger] copies(phrase, k)[t] == phrase[t],
        repeats_every(copies(phrase, k), phrase.len() as int),
    decreases k,
{
    let n = phrase.len() as int;
    if k > 0 {
        let k1 = (k - 1) as nat;
        lemma_copies(phrase, k1);
        let a = copies(phrase, k1);
        let c = copies(phrase, k);
        assert(c == a + phrase);
        assert(c.len() == k1 * n + n);
        assert(k1 * n + n == k * n) by (nonlinear_arith) requires k1 == k - 1;
        assert forall|t: int| 0 <= t < n implies #[trigger] c[t] == phrase[t] by {
            if k1 >= 1 {
                assert(c[t] == a[t]);
            }
        }
        assert forall|j: int| n <= j < c.len() implies #[trigger] c[j] == c[j - n] by {
            if j < a.len() {
                assert(c[j] == a[j]);
                assert(c[j - n] == a[j - n]);
            } else {
                let t = j - a.len();
                assert(c[j] == phrase[t]);
                if k1 >= 1 {
                    assert(a[a.len() - n + t] == phrase[t]);
                    assert(c[j - n] == a[a.len() - n + t]);
                } else {
                    assert(false);
                }
            }
        }
    } else {
        assert(copies(phrase, k).len() == 0);
        assert(0 * n == 0) by (nonlinear_arith);
    }
}

/// A segment that is nothing but a loop gives nothing: when its words
/// (compared by `norm_word`) are more than three copies of one word, or
/// more than two copies of one phrase of two to four words, none of them
/// empty, the cleaning returns `None`.
pub proof fn loop_only_segment_dropped(text: Seq<char>, phrase: Seq<Seq<char>>, k: nat)
    requires
        1 <= phrase.len() <= 4,
        forall|t: int| 0 <= t < phrase.len() ==> (#[trigger] phrase[t]).len() > 0,
        phrase.len() == 1 ==> k > 3,
        phrase.len() >= 2 ==> k > 2,
        keys_of(words(text)) == copies(phrase, k),
    ensures
        cleaned(text) is None,
{
    let n = phrase.len() as int;
    let keys = keys_of(words(text));
    lemma_copies(phrase, k);
    vstd::arithmetic::div_mod::lemma_mod_multiples_basic(k as int, n);
    if n == 1 {
        assert(k * n == k) by (nonlinear_arith) requires n == 1;
        assert(keys.len() > kept_len(1));
    } else {
        assert(k * n > 2 * n) by (nonlinear_arith) requires k > 2, n >= 2;
        assert(keys.len() > kept_len(n));
    }
    assert(all_nonempty(keys, 0, n));
    assert(is_loop_of(keys, n));
}

} // verus!
