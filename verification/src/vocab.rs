//! The user's own vocabulary: corrections applied to the transcribed text.
//! Each variant of a correction is replaced, ignoring case and only on whole
//! words, by the correct term; a space in a variant accepts spaces or hyphens.

use vstd::prelude::*;
use crate::subtitles::Segment;
use crate::text::{
    chars_eq, char_is_alphanumeric, char_is_whitespace, char_to_lowercase, chars_of,
    char_lowercase, is_alnum, is_white_space, join, push_all, push_joined, split_whitespace,
    str_lowercase, string_from_chars, string_to_lowercase, trim, trim_chars, words,
};

verus! {

/// A correction: any of the variants in `wrong` (separated by commas) is
/// replaced by `right`.
#[derive(Debug, Clone, Default)]
pub struct Correction {
    pub wrong: String,
    pub right: String,
}

// ---------------------------------------------------------------------------
// Specification
// ---------------------------------------------------------------------------

/// `c.to_lowercase().next().unwrap_or(c)`: the first character of the
/// lowercase mapping.
pub open spec fn lower_spec(c: char) -> char {
    if char_lowercase(c).len() > 0 { char_lowercase(c)[0] } else { c }
}

/// Characters that belong to a word: alphanumeric or `_`.
pub open spec fn is_word_spec(c: char) -> bool {
    is_alnum(c) || c == '_'
}

/// ASCII uppercase letters mapped to lowercase, everything else unchanged.
pub open spec fn ascii_lower(c: char) -> char {
    if 'A' <= c && c <= 'Z' { (((c as u8) + 32) as u8) as char } else { c }
}

/// `str::eq_ignore_ascii_case`.
pub open spec fn eq_ignore_ascii_case(a: Seq<char>, b: Seq<char>) -> bool {
    &&& a.len() == b.len()
    &&& forall|i: int| 0 <= i < a.len() ==> ascii_lower(#[trigger] a[i]) == ascii_lower(b[i])
}

/// The pieces of `s[i..]` between occurrences of `sep`, `cur` being the
/// current piece (`str::split` on a character: empty pieces are kept).
pub open spec fn split_from(s: Seq<char>, sep: char, i: int, cur: Seq<char>) -> Seq<Seq<char>>
    decreases s.len() - i,
{
    if i >= s.len() {
        seq![cur]
    } else if s[i] == sep {
        seq![cur] + split_from(s, sep, i + 1, seq![])
    } else {
        split_from(s, sep, i + 1, cur.push(s[i]))
    }
}

/// `str::split(sep)`.
pub open spec fn split_on(s: Seq<char>, sep: char) -> Seq<Seq<char>> {
    split_from(s, sep, 0, seq![])
}

/// A variant with its white space runs collapsed to single spaces and trimmed.
pub open spec fn normalize_variant(w: Seq<char>) -> Seq<char> {
    join(words(w), seq![' '])
}

/// The rules contributed by a list of variants for the term `right`: one per
/// non-empty variant that is not the term itself (ignoring ASCII case).
pub open spec fn variant_rules(ws: Seq<Seq<char>>, right: Seq<char>) -> Seq<(Seq<char>, Seq<char>)>
    decreases ws.len(),
{
    if ws.len() == 0 {
        seq![]
    } else {
        let w = normalize_variant(ws.last());
        let rest = variant_rules(ws.drop_last(), right);
        if w.len() == 0 || eq_ignore_ascii_case(w, right) {
            rest
        } else {
            rest.push((w.map_values(|c: char| lower_spec(c)), right))
        }
    }
}

/// The rules of one correction, in the order of its variants.
pub open spec fn correction_rules(c: Correction) -> Seq<(Seq<char>, Seq<char>)> {
    let right = trim(c.right@);
    if right.len() == 0 {
        seq![]
    } else {
        variant_rules(split_on(c.wrong@, ','), right)
    }
}

/// The rules of all corrections, in order.
pub open spec fn all_rules(cs: Seq<Correction>) -> Seq<(Seq<char>, Seq<char>)>
    decreases cs.len(),
{
    if cs.len() == 0 {
        seq![]
    } else {
        all_rules(cs.drop_last()) + correction_rules(cs.last())
    }
}

/// `r` placed after every rule whose variant is at least as long.
pub open spec fn insert_by_len(s: Seq<(Seq<char>, Seq<char>)>, r: (Seq<char>, Seq<char>)) -> Seq<(Seq<char>, Seq<char>)>
    decreases s.len(),
{
    if s.len() == 0 {
        seq![r]
    } else if s[0].0.len() < r.0.len() {
        seq![r] + s
    } else {
        seq![s[0]] + insert_by_len(s.drop_first(), r)
    }
}

/// Stable sort by decreasing variant length (`sort_by_key(Reverse(len))`).
pub open spec fn sort_by_len_desc(s: Seq<(Seq<char>, Seq<char>)>) -> Seq<(Seq<char>, Seq<char>)>
    decreases s.len(),
{
    if s.len() == 0 {
        seq![]
    } else {
        insert_by_len(sort_by_len_desc(s.drop_last()), s.last())
    }
}

/// The rules that `Corrector::new` builds from the corrections.
pub open spec fn corrector_rules(cs: Seq<Correction>) -> Seq<(Seq<char>, Seq<char>)> {
    sort_by_len_desc(all_rules(cs))
}

/// First index at or after `i` that is not white space nor `-`.
pub open spec fn skip_sep(text: Seq<char>, i: int) -> int
    decreases text.len() - i,
{
    if 0 <= i < text.len() && (is_white_space(text[i]) || text[i] == '-') {
        skip_sep(text, i + 1)
    } else {
        i
    }
}

/// Where `pat[k..]` ends when matched at `text[i..]`; a space of the pattern
/// consumes one or more spaces or hyphens.
pub open spec fn match_from(text: Seq<char>, i: int, pat: Seq<char>, k: int) -> Option<int>
    decreases pat.len() - k,
{
    if k >= pat.len() {
        Some(i)
    } else if pat[k] == ' ' {
        let j = skip_sep(text, i);
        if j == i { None } else { match_from(text, j, pat, k + 1) }
    } else if 0 <= i < text.len() && text[i] == pat[k] {
        match_from(text, i + 1, pat, k + 1)
    } else {
        None
    }
}

/// The first rule, from index `r` on, that matches at `i` and ends on a word
/// boundary: where it ends and its replacement.
pub open spec fn first_match(
    rules: Seq<(Seq<char>, Seq<char>)>,
    chars: Seq<char>,
    lowered: Seq<char>,
    i: int,
    r: int,
) -> Option<(int, Seq<char>)>
    decreases rules.len() - r,
{
    if r < 0 || r >= rules.len() {
        None
    } else {
        match match_from(lowered, i, rules[r].0, 0) {
            Some(end) => if end == chars.len() || (0 <= end < chars.len() && !is_word_spec(chars[end])) {
                Some((end, rules[r].1))
            } else {
                first_match(rules, chars, lowered, i, r + 1)
            },
            None => first_match(rules, chars, lowered, i, r + 1),
        }
    }
}

/// The text with every character mapped to its first lowercase character.
pub open spec fn lowered(s: Seq<char>) -> Seq<char> {
    s.map_values(|c: char| lower_spec(c))
}

/// Whether position `i` starts a word.
pub open spec fn at_word_start(chars: Seq<char>, i: int) -> bool {
    i == 0 || !is_word_spec(chars[i - 1])
}

/// The corrected text from position `i` on: at each word start the first
/// matching rule is replaced and the scan resumes after the match.
pub open spec fn apply_from(rules: Seq<(Seq<char>, Seq<char>)>, chars: Seq<char>, i: int) -> Seq<char>
    decreases chars.len() - i,
{
    if i < 0 || i >= chars.len() {
        seq![]
    } else {
        let m = if at_word_start(chars, i) {
            first_match(rules, chars, lowered(chars), i, 0)
        } else {
            None
        };
        match m {
            Some((end, right)) => if i < end <= chars.len() {
                right + apply_from(rules, chars, end)
            } else {
                seq![chars[i]] + apply_from(rules, chars, i + 1)
            },
            None => seq![chars[i]] + apply_from(rules, chars, i + 1),
        }
    }
}

/// The text with the rules applied.
pub open spec fn corrected(rules: Seq<(Seq<char>, Seq<char>)>, text: Seq<char>) -> Seq<char> {
    apply_from(rules, text, 0)
}

// ---------------------------------------------------------------------------
// Lemmas
// ---------------------------------------------------------------------------

proof fn lemma_skip_sep_ge(text: Seq<char>, i: int)
    ensures
        skip_sep(text, i) >= i,
    decreases text.len() - i,
{
    if 0 <= i < text.len() && (is_white_space(text[i]) || text[i] == '-') {
        lemma_skip_sep_ge(text, i + 1);
    }
}

/// A match consumes at least one character per pattern character.
proof fn lemma_match_advances(text: Seq<char>, i: int, pat: Seq<char>, k: int)
    requires
        0 <= k <= pat.len(),
    ensures
        match_from(text, i, pat, k) matches Some(e) ==> e >= i + (pat.len() - k),
    decreases pat.len() - k,
{
    if k < pat.len() {
        if pat[k] == ' ' {
            let j = skip_sep(text, i);
            lemma_skip_sep_ge(text, i);
            if j != i {
                lemma_match_advances(text, j, pat, k + 1);
            }
        } else {
            lemma_match_advances(text, i + 1, pat, k + 1);
        }
    }
}

/// Without rules the text is unchanged.
proof fn lemma_apply_no_rules(rules: Seq<(Seq<char>, Seq<char>)>, chars: Seq<char>, i: int)
    requires
        rules.len() == 0,
        0 <= i <= chars.len(),
    ensures
        apply_from(rules, chars, i) == chars.skip(i),
    decreases chars.len() - i,
{
    if i < chars.len() {
        lemma_apply_no_rules(rules, chars, i + 1);
        assert(chars.skip(i) =~= seq![chars[i]] + chars.skip(i + 1));
    } else {
        assert(chars.skip(i) =~= Seq::<char>::empty());
    }
}

proof fn lemma_insert_at(s: Seq<(Seq<char>, Seq<char>)>, r: (Seq<char>, Seq<char>), j: int)
    requires
        0 <= j <= s.len(),
        forall|k: int| 0 <= k < j ==> #[trigger] s[k].0.len() >= r.0.len(),
        j == s.len() || s[j].0.len() < r.0.len(),
    ensures
        insert_by_len(s, r) == s.insert(j, r),
    decreases j,
{
    if s.len() == 0 {
        assert(s.insert(j, r) =~= seq![r]);
    } else if j == 0 {
        assert(s.insert(0, r) =~= seq![r] + s);
    } else {
        assert(s[0].0.len() >= r.0.len());
        lemma_insert_at(s.drop_first(), r, j - 1);
        assert(s.insert(j, r) =~= seq![s[0]] + s.drop_first().insert(j - 1, r));
    }
}


// ---------------------------------------------------------------------------
// Character helpers
// ---------------------------------------------------------------------------

/// `c.to_lowercase().next().unwrap_or(c)`.
fn lower(c: char) -> (r: char)
    ensures
        r == lower_spec(c),
{
    let v = char_to_lowercase(c);
    if v.len() > 0 { v[0] } else { c }
}

/// Alphanumeric or `_`.
fn is_word(c: char) -> (r: bool)
    ensures
        r == is_word_spec(c),
{
    char_is_alphanumeric(c) || c == '_'
}

fn to_ascii_lower(c: char) -> (r: char)
    ensures
        r == ascii_lower(c),
{
    if 'A' <= c && c <= 'Z' {
        (((c as u8) + 32) as u8) as char
    } else {
        c
    }
}

/// `str::eq_ignore_ascii_case` on characters.
fn chars_eq_ignore_ascii_case(a: &[char], b: &[char]) -> (r: bool)
    ensures
        r == eq_ignore_ascii_case(a@, b@),
{
    if a.len() != b.len() {
        return false;
    }
    let mut i: usize = 0;
    while i < a.len()
        invariant
            i <= a@.len(),
            a@.len() == b@.len(),
            forall|j: int| 0 <= j < i ==> ascii_lower(#[trigger] a@[j]) == ascii_lower(b@[j]),
        decreases a@.len() - i,
    {
        if to_ascii_lower(a[i]) != to_ascii_lower(b[i]) {
            return false;
        }
        i += 1;
    }
    true
}

/// The pieces of `v` between occurrences of `sep` (`str::split`).
pub fn split_chars(v: &[char], sep: char) -> (r: Vec<Vec<char>>)
    ensures
        r@.map_values(|w: Vec<char>| w@) == split_on(v@, sep),
{
    let n = v.len();
    let mut out: Vec<Vec<char>> = Vec::new();
    let mut cur: Vec<char> = Vec::new();
    let mut i: usize = 0;
    while i < n
        invariant
            i <= n,
            n == v@.len(),
            out@.map_values(|w: Vec<char>| w@) + split_from(v@, sep, i as int, cur@) == split_on(v@, sep),
        decreases n - i,
    {
        if v[i] == sep {
            let ghost before = out@.map_values(|w: Vec<char>| w@);
            let ghost c = cur@;
            let w = cur;
            cur = Vec::new();
            out.push(w);
            assert(out@.map_values(|w: Vec<char>| w@) =~= before.push(c));
            assert(out@.map_values(|w: Vec<char>| w@) + split_from(v@, sep, i + 1, cur@)
                =~= split_on(v@, sep));
        } else {
            cur.push(v[i]);
        }
        i += 1;
    }
    let ghost before = out@.map_values(|w: Vec<char>| w@);
    let ghost c = cur@;
    out.push(cur);
    assert(out@.map_values(|w: Vec<char>| w@) =~= before.push(c));
    out
}

/// End of the match of `pat` at `text[start..]`, if it matches; a space of
/// the pattern consumes one or more spaces or hyphens.
fn match_at(text: &[char], start: usize, pat: &[char]) -> (r: Option<usize>)
    requires
        start <= text@.len(),
    ensures
        match r {
            Some(e) => match_from(text@, start as int, pat@, 0) == Some(e as int) && e <= text@.len(),
            None => match_from(text@, start as int, pat@, 0) is None,
        },
{
    let mut i = start;
    let mut k: usize = 0;
    while k < pat.len()
        invariant
            start <= i <= text@.len(),
            k <= pat@.len(),
            match_from(text@, start as int, pat@, 0) == match_from(text@, i as int, pat@, k as int),
        decreases pat@.len() - k,
    {
        let p = pat[k];
        if p == ' ' {
            let from = i;
            while i < text.len() && (char_is_whitespace(text[i]) || text[i] == '-')
                invariant
                    from <= i <= text@.len(),
                    skip_sep(text@, from as int) == skip_sep(text@, i as int),
                decreases text@.len() - i,
            {
                i += 1;
            }
            if i == from {
                return None;
            }
        } else if i < text.len() && text[i] == p {
            i += 1;
        } else {
            return None;
        }
        k += 1;
    }
    Some(i)
}

// ---------------------------------------------------------------------------
// Corrector
// ---------------------------------------------------------------------------

/// Applies the corrections to text, ignoring case and only on whole words; a
/// space of a variant accepts spaces or hyphens.
#[derive(Debug)]
pub struct Corrector {
    /// (lowercased variant as characters, replacement), longest variant first.
    rules: Vec<(Vec<char>, String)>,
}

impl View for Corrector {
    type V = Seq<(Seq<char>, Seq<char>)>;

    closed spec fn view(&self) -> Seq<(Seq<char>, Seq<char>)> {
        self.rules@.map_values(|r: (Vec<char>, String)| (r.0@, r.1@))
    }
}

impl Default for Corrector {
    fn default() -> (r: Self)
        ensures
            r@ == Seq::<(Seq<char>, Seq<char>)>::empty(),
    {
        let r = Corrector { rules: Vec::new() };
        assert(r@ =~= Seq::<(Seq<char>, Seq<char>)>::empty());
        r
    }
}

impl Corrector {
    /// Every variant has at least one character.
    #[verifier::type_invariant]
    closed spec fn wf(self) -> bool {
        forall|i: int| 0 <= i < self.rules@.len() ==> (#[trigger] self.rules@[i]).0@.len() > 0
    }

    /// Inserts a rule after every rule whose variant is at least as long.
    fn insert_rule(rules: &mut Vec<(Vec<char>, String)>, r: (Vec<char>, String))
        requires
            r.0@.len() > 0,
            forall|i: int| 0 <= i < old(rules)@.len() ==> (#[trigger] old(rules)@[i]).0@.len() > 0,
        ensures
            forall|i: int| 0 <= i < final(rules)@.len() ==> (#[trigger] final(rules)@[i]).0@.len() > 0,
            final(rules)@.map_values(|x: (Vec<char>, String)| (x.0@, x.1@)) == insert_by_len(
                old(rules)@.map_values(|x: (Vec<char>, String)| (x.0@, x.1@)),
                (r.0@, r.1@),
            ),
    {
        let ghost sv = rules@.map_values(|x: (Vec<char>, String)| (x.0@, x.1@));
        let ghost rv = (r.0@, r.1@);
        let mut j: usize = 0;
        while j < rules.len() && rules[j].0.len() >= r.0.len()
            invariant
                j <= rules@.len(),
                sv == rules@.map_values(|x: (Vec<char>, String)| (x.0@, x.1@)),
                rv == (r.0@, r.1@),
                forall|k: int| 0 <= k < j ==> #[trigger] sv[k].0.len() >= rv.0.len(),
            decreases rules@.len() - j,
        {
            assert(sv[j as int] == (rules@[j as int].0@, rules@[j as int].1@));
            assert(sv[j as int].0.len() >= rv.0.len());
            j += 1;
        }
        proof {
            lemma_insert_at(sv, rv, j as int);
        }
        let ghost old_rules = rules@;
        rules.insert(j, r);
        assert(rules@ == old_rules.insert(j as int, r));
        assert(rules@.map_values(|x: (Vec<char>, String)| (x.0@, x.1@)) =~= sv.insert(j as int, rv));
        assert forall|i: int| 0 <= i < rules@.len() implies (#[trigger] rules@[i]).0@.len() > 0 by {
            if i < j {
                assert(rules@[i] == old_rules[i]);
            } else if i > j {
                assert(rules@[i] == old_rules[i - 1]);
            }
        }
    }

    /// Builds the rules of the corrections: every non-empty variant that is
    /// not the term itself, lowercased, longest first.
    pub fn new(corrections: &[Correction]) -> (r: Self)
        ensures
            r@ == corrector_rules(corrections@),
    {
        let mut rules: Vec<(Vec<char>, String)> = Vec::new();
        let mut ci: usize = 0;
        while ci < corrections.len()
            invariant
                ci <= corrections@.len(),
                forall|i: int| 0 <= i < rules@.len() ==> (#[trigger] rules@[i]).0@.len() > 0,
                rules@.map_values(|x: (Vec<char>, String)| (x.0@, x.1@)) == sort_by_len_desc(
                    all_rules(corrections@.take(ci as int)),
                ),
            decreases corrections@.len() - ci,
        {
            let c = &corrections[ci];
            let ghost done = all_rules(corrections@.take(ci as int));
            proof {
                let t = corrections@.take(ci + 1);
                assert(t.drop_last() =~= corrections@.take(ci as int));
                assert(t.last() == corrections@[ci as int]);
            }
            let right = trim_chars(&chars_of(c.right.as_str()));
            if right.len() > 0 {
                let right_s = string_from_chars(&right);
                let pieces = split_chars(&chars_of(c.wrong.as_str()), ',');
                let ghost pv = pieces@.map_values(|w: Vec<char>| w@);
                let mut pi: usize = 0;
                while pi < pieces.len()
                    invariant
                        pi <= pieces@.len(),
                        pv == pieces@.map_values(|w: Vec<char>| w@),
                        pv == split_on(c.wrong@, ','),
                        right@ == trim(c.right@),
                        right@.len() > 0,
                        right_s@ == right@,
                        forall|i: int| 0 <= i < rules@.len() ==> (#[trigger] rules@[i]).0@.len() > 0,
                        rules@.map_values(|x: (Vec<char>, String)| (x.0@, x.1@)) == sort_by_len_desc(
                            done + variant_rules(pv.take(pi as int), right@),
                        ),
                    decreases pieces@.len() - pi,
                {
                    let ws = split_whitespace(&pieces[pi]);
                    let mut w: Vec<char> = Vec::new();
                    let mut sep: Vec<char> = Vec::new();
                    sep.push(' ');
                    assert(sep@ =~= seq![' ']);
                    push_joined(&mut w, &ws, &sep);
                    assert(w@ =~= normalize_variant(pv[pi as int]));
                    proof {
                        let t = pv.take(pi + 1);
                        assert(t.drop_last() =~= pv.take(pi as int));
                        assert(t.last() == pv[pi as int]);
                    }
                    if w.len() > 0 && !chars_eq_ignore_ascii_case(&w, &right) {
                        let mut pat: Vec<char> = Vec::new();
                        let mut q: usize = 0;
                        while q < w.len()
                            invariant
                                q <= w@.len(),
                                pat@ == w@.take(q as int).map_values(|c: char| lower_spec(c)),
                            decreases w@.len() - q,
                        {
                            pat.push(lower(w[q]));
                            q += 1;
                            assert(w@.take(q as int).map_values(|c: char| lower_spec(c))
                                =~= w@.take(q - 1).map_values(|c: char| lower_spec(c)).push(lower_spec(w@[q - 1])));
                        }
                        assert(w@.take(w@.len() as int) =~= w@);
                        let ghost prev = done + variant_rules(pv.take(pi as int), right@);
                        let ghost rv = (pat@, right_s@);
                        assert(done + variant_rules(pv.take(pi + 1), right@) =~= prev.push(rv));
                        assert(prev.push(rv).drop_last() =~= prev);
                        let rs = right_s.clone();
                        Self::insert_rule(&mut rules, (pat, rs));
                    } else {
                        assert(done + variant_rules(pv.take(pi + 1), right@)
                            =~= done + variant_rules(pv.take(pi as int), right@));
                    }
                    pi += 1;
                }
                assert(pv.take(pieces@.len() as int) =~= pv);
                assert(all_rules(corrections@.take(ci + 1)) =~= done + correction_rules(*c));
            } else {
                assert(all_rules(corrections@.take(ci + 1)) =~= done);
            }
            ci += 1;
        }
        assert(corrections@.take(corrections@.len() as int) =~= corrections@);
        let r = Corrector { rules };
        r
    }

    /// The first rule that matches at `i` and ends on a word boundary.
    fn find_rule(&self, chars: &Vec<char>, lowered: &Vec<char>, i: usize) -> (r: Option<(usize, usize)>)
        requires
            i < chars@.len(),
            lowered@ == chars@.map_values(|c: char| lower_spec(c)),
        ensures
            match r {
                Some((end, k)) => {
                    &&& k < self@.len()
                    &&& i < end <= chars@.len()
                    &&& first_match(self@, chars@, lowered@, i as int, 0) == Some((end as int, self@[k as int].1))
                },
                None => first_match(self@, chars@, lowered@, i as int, 0) is None,
            },
    {
        proof {
            use_type_invariant(self);
        }
        let mut k: usize = 0;
        while k < self.rules.len()
            invariant
                k <= self.rules@.len(),
                i < chars@.len(),
                lowered@.len() == chars@.len(),
                self@.len() == self.rules@.len(),
                first_match(self@, chars@, lowered@, i as int, 0) == first_match(self@, chars@, lowered@, i as int, k as int),
            decreases self.rules@.len() - k,
        {
            proof {
                use_type_invariant(self);
            }
            assert(self@[k as int].0 == self.rules@[k as int].0@);
            if let Some(end) = match_at(lowered, i, &self.rules[k].0) {
                if end == chars.len() || !is_word(chars[end]) {
                    proof {
                        lemma_match_advances(lowered@, i as int, self.rules@[k as int].0@, 0);
                        assert(self.rules@[k as int].0@.len() > 0);
                        assert(end > i);
                        assert(end as int == chars@.len() || !is_word_spec(chars@[end as int]));
                        assert(first_match(self@, chars@, lowered@, i as int, k as int) == Some((end as int, self@[k as int].1)));
                    }
                    return Some((end, k));
                }
            }
            k += 1;
        }
        None
    }

    /// The text with the corrections applied.
    pub fn apply(&self, text: &str) -> (r: String)
        ensures
            r@ == corrected(self@, text@),
    {
        let chars = chars_of(text);
        if self.rules.len() == 0 {
            proof {
                lemma_apply_no_rules(self@, chars@, 0);
                assert(chars@.skip(0) =~= chars@);
            }
            return string_from_chars(&chars);
        }
        let mut lowered: Vec<char> = Vec::new();
        let mut q: usize = 0;
        while q < chars.len()
            invariant
                q <= chars@.len(),
                lowered@ == chars@.take(q as int).map_values(|c: char| lower_spec(c)),
            decreases chars@.len() - q,
        {
            lowered.push(lower(chars[q]));
            q += 1;
            assert(chars@.take(q as int).map_values(|c: char| lower_spec(c))
                =~= chars@.take(q - 1).map_values(|c: char| lower_spec(c)).push(lower_spec(chars@[q - 1])));
        }
        assert(chars@.take(chars@.len() as int) =~= chars@);
        let mut out: Vec<char> = Vec::new();
        let mut i: usize = 0;
        while i < chars.len()
            invariant
                i <= chars@.len(),
                lowered@ == chars@.map_values(|c: char| lower_spec(c)),
                corrected(self@, chars@) == out@ + apply_from(self@, chars@, i as int),
            decreases chars@.len() - i,
        {
            let at_start = i == 0 || !is_word(chars[i - 1]);
            let found = if at_start { self.find_rule(&chars, &lowered, i) } else { None };
            match found {
                Some((end, k)) => {
                    let ghost before = out@;
                    let rc = chars_of(self.rules[k].1.as_str());
                    assert(rc@ == self@[k as int].1);
                    push_all(&mut out, &rc);
                    assert(out@ + apply_from(self@, chars@, end as int) =~= before + apply_from(self@, chars@, i as int));
                    i = end;
                },
                None => {
                    let ghost before = out@;
                    out.push(chars[i]);
                    assert(out@ + apply_from(self@, chars@, i + 1) =~= before + apply_from(self@, chars@, i as int));
                    i += 1;
                },
            }
        }
        string_from_chars(&out)
    }

    /// Applies the corrections to the text of every segment; times and
    /// speakers are kept.
    pub fn apply_segments(&self, segments: &mut [Segment])
        ensures
            final(segments)@.len() == old(segments)@.len(),
            forall|i: int| 0 <= i < old(segments)@.len() ==> {
                &&& (#[trigger] final(segments)@[i]).text@ == corrected(self@, old(segments)@[i].text@)
                &&& final(segments)@[i].start_ms == old(segments)@[i].start_ms
                &&& final(segments)@[i].end_ms == old(segments)@[i].end_ms
                &&& final(segments)@[i].speaker == old(segments)@[i].speaker
            },
    {
        if self.rules.len() == 0 {
            assert forall|i: int| 0 <= i < segments@.len() implies corrected(self@, segments@[i].text@) == segments@[i].text@ by {
                lemma_apply_no_rules(self@, segments@[i].text@, 0);
                assert(segments@[i].text@.skip(0) =~= segments@[i].text@);
            }
            return;
        }
        let mut i: usize = 0;
        while i < segments.len()
            invariant
                i <= segments@.len(),
                segments@.len() == old(segments)@.len(),
                forall|j: int| 0 <= j < i ==> {
                    &&& (#[trigger] segments@[j]).text@ == corrected(self@, old(segments)@[j].text@)
                    &&& segments@[j].start_ms == old(segments)@[j].start_ms
                    &&& segments@[j].end_ms == old(segments)@[j].end_ms
                    &&& segments@[j].speaker == old(segments)@[j].speaker
                },
                forall|j: int| i <= j < segments@.len() ==> #[trigger] segments@[j] == old(segments)@[j],
            decreases segments@.len() - i,
        {
            let t = self.apply(segments[i].text.as_str());
            segments[i].text = t;
            i += 1;
        }
    }
}


// ---------------------------------------------------------------------------
// Initial prompt
// ---------------------------------------------------------------------------

/// Whisper only uses ~220 tokens of the prompt; longer prompts are cut.
pub const MAX_PROMPT_CHARS: usize = 600;

/// Whether `t` occurs in `s` (`str::contains`).
pub open spec fn contains_sub(s: Seq<char>, t: Seq<char>) -> bool {
    exists|i: int| 0 <= i <= s.len() - t.len() && #[trigger] s.subrange(i, i + t.len()) == t
}

/// The correct terms (trimmed) of the corrections that are not blank and do
/// not already occur in `lower` (ignoring case).
pub open spec fn extra_terms(cs: Seq<Correction>, lower: Seq<char>) -> Seq<Seq<char>>
    decreases cs.len(),
{
    if cs.len() == 0 {
        seq![]
    } else {
        let rest = extra_terms(cs.drop_last(), lower);
        let r = trim(cs.last().right@);
        if r.len() > 0 && !contains_sub(lower, str_lowercase(r)) { rest.push(r) } else { rest }
    }
}

/// The vocabulary with its white space collapsed, then, when there are
/// extra terms, a period (unless it already ends in `.`, `,` or `;`), a
/// space and the terms separated by `, ` and ended by a period.
pub open spec fn prompt_text(vocabulary: Seq<char>, cs: Seq<Correction>) -> Seq<char> {
    let p0 = join(words(vocabulary), seq![' ']);
    let extra = extra_terms(cs, str_lowercase(p0));
    if extra.len() == 0 {
        p0
    } else {
        let p1 = if p0.len() > 0 && !(p0.last() == '.' || p0.last() == ',' || p0.last() == ';') { p0.push('.') } else { p0 };
        let p2 = if p1.len() > 0 { p1.push(' ') } else { p1 };
        p2 + join(extra, seq![',', ' ']) + seq!['.']
    }
}

/// The initial prompt for whisper: `None` when empty, otherwise at most
/// `MAX_PROMPT_CHARS` characters.
pub open spec fn initial_prompt_spec(vocabulary: Seq<char>, cs: Seq<Correction>) -> Option<Seq<char>> {
    let p = prompt_text(vocabulary, cs);
    if p.len() == 0 {
        None
    } else if p.len() > MAX_PROMPT_CHARS {
        Some(p.take(MAX_PROMPT_CHARS as int))
    } else {
        Some(p)
    }
}

pub fn contains_chars(s: &[char], t: &[char]) -> (r: bool)
    ensures
        r == contains_sub(s@, t@),
{
    if t.len() > s.len() {
        return false;
    }
    let mut i: usize = 0;
    while i <= s.len() - t.len()
        invariant
            t@.len() <= s@.len(),
            i <= s@.len() - t@.len() + 1,
            forall|j: int| 0 <= j < i ==> #[trigger] s@.subrange(j, j + t@.len()) != t@,
        decreases s@.len() - t@.len() + 1 - i,
    {
        let mut k: usize = 0;
        let mut same = true;
        while k < t.len()
            invariant
                k <= t@.len(),
                i + t@.len() <= s@.len(),
                s@.len() == s.len(),
                same == (forall|q: int| 0 <= q < k ==> s@[i + q] == t@[q]),
            decreases t@.len() - k,
        {
            if s[i + k] != t[k] {
                same = false;
            }
            k += 1;
        }
        if same {
            assert(s@.subrange(i as int, i + t@.len()) =~= t@);
            return true;
        }
        assert(s@.subrange(i as int, i + t@.len()) != t@) by {
            let q = choose|q: int| 0 <= q < t@.len() && s@[i + q] != t@[q];
            assert(s@.subrange(i as int, i + t@.len())[q] == s@[i + q]);
        }
        i += 1;
    }
    false
}

/// Initial prompt for whisper: the user's vocabulary plus the correct terms
/// of the corrections that it does not already contain.
pub fn initial_prompt(vocabulary: &str, corrections: &[Correction]) -> (r: Option<String>)
    ensures
        match r {
            Some(p) => initial_prompt_spec(vocabulary@, corrections@) == Some(p@),
            None => initial_prompt_spec(vocabulary@, corrections@) is None,
        },
{
    let ws = split_whitespace(&chars_of(vocabulary));
    let mut prompt: Vec<char> = Vec::new();
    let mut sep: Vec<char> = Vec::new();
    sep.push(' ');
    assert(sep@ =~= seq![' ']);
    push_joined(&mut prompt, &ws, &sep);
    assert(prompt@ =~= join(words(vocabulary@), seq![' ']));
    let ghost p0 = prompt@;
    let lower = chars_of(string_to_lowercase(string_from_chars(&prompt).as_str()).as_str());
    let mut extra: Vec<Vec<char>> = Vec::new();
    let mut i: usize = 0;
    while i < corrections.len()
        invariant
            i <= corrections@.len(),
            lower@ == str_lowercase(p0),
            extra@.map_values(|w: Vec<char>| w@) == extra_terms(corrections@.take(i as int), lower@),
        decreases corrections@.len() - i,
    {
        let ghost before = extra@.map_values(|w: Vec<char>| w@);
        proof {
            let t = corrections@.take(i + 1);
            assert(t.drop_last() =~= corrections@.take(i as int));
        }
        let r = trim_chars(&chars_of(corrections[i].right.as_str()));
        if r.len() > 0 {
            let rl = chars_of(string_to_lowercase(string_from_chars(&r).as_str()).as_str());
            if !contains_chars(&lower, &rl) {
                let ghost rv = r@;
                extra.push(r);
                assert(extra@.map_values(|w: Vec<char>| w@) =~= before.push(rv));
            }
        }
        i += 1;
    }
    assert(corrections@.take(corrections@.len() as int) =~= corrections@);
    if extra.len() > 0 {
        if prompt.len() > 0 {
            let last = prompt[prompt.len() - 1];
            if !(last == '.' || last == ',' || last == ';') {
                prompt.push('.');
            }
        }
        if prompt.len() > 0 {
            prompt.push(' ');
        }
        let mut comma: Vec<char> = Vec::new();
        comma.push(',');
        comma.push(' ');
        assert(comma@ =~= seq![',', ' ']);
        push_joined(&mut prompt, &extra, &comma);
        prompt.push('.');
    }
    assert(prompt@ =~= prompt_text(vocabulary@, corrections@));
    if prompt.len() == 0 {
        return None;
    }
    if prompt.len() > MAX_PROMPT_CHARS {
        let mut cut: Vec<char> = Vec::new();
        let mut k: usize = 0;
        while k < MAX_PROMPT_CHARS
            invariant
                k <= MAX_PROMPT_CHARS < prompt@.len(),
                cut@ == prompt@.take(k as int),
            decreases MAX_PROMPT_CHARS - k,
        {
            cut.push(prompt[k]);
            k += 1;
            assert(cut@ =~= prompt@.take(k as int));
        }
        return Some(string_from_chars(&cut));
    }
    Some(string_from_chars(&prompt))
}

// ---------------------------------------------------------------------------
// Laws
// ---------------------------------------------------------------------------

/// Rules ordered by decreasing variant length.
pub open spec fn longest_first(s: Seq<(Seq<char>, Seq<char>)>) -> bool {
    forall|i: int, j: int| 0 <= i < j < s.len() ==> #[trigger] s[i].0.len() >= #[trigger] s[j].0.len()
}

/// The first index at or after `i` whose variant is shorter than `n`.
spec fn insert_index(s: Seq<(Seq<char>, Seq<char>)>, n: nat, i: int) -> int
    decreases s.len() - i,
{
    if i < 0 || i >= s.len() || s[i].0.len() < n { i } else { insert_index(s, n, i + 1) }
}

proof fn lemma_insert_index(s: Seq<(Seq<char>, Seq<char>)>, n: nat, i: int)
    requires
        0 <= i <= s.len(),
        forall|k: int| 0 <= k < i ==> #[trigger] s[k].0.len() >= n,
    ensures
        i <= insert_index(s, n, i) <= s.len(),
        forall|k: int| 0 <= k < insert_index(s, n, i) ==> #[trigger] s[k].0.len() >= n,
        insert_index(s, n, i) == s.len() || s[insert_index(s, n, i)].0.len() < n,
    decreases s.len() - i,
{
    if i < s.len() && s[i].0.len() >= n {
        lemma_insert_index(s, n, i + 1);
    }
}

/// Inserting a rule into rules ordered longest first keeps them so, and
/// adds exactly that rule.
proof fn lemma_insert_sorted(s: Seq<(Seq<char>, Seq<char>)>, r: (Seq<char>, Seq<char>))
    requires
        longest_first(s),
    ensures
        longest_first(insert_by_len(s, r)),
        insert_by_len(s, r).to_multiset() == s.to_multiset().insert(r),
{
    lemma_insert_index(s, r.0.len(), 0);
    let j = insert_index(s, r.0.len(), 0);
    lemma_insert_at(s, r, j);
    let t = s.insert(j, r);
    assert forall|k: int| 0 <= k < t.len() implies #[trigger] t[k] == (if k < j { s[k] } else if k == j { r } else { s[k - 1] }) by {}
    assert forall|a: int, b: int| 0 <= a < b < t.len() implies #[trigger] t[a].0.len() >= #[trigger] t[b].0.len() by {
        if a < j {
            if b > j {
                assert(s[a].0.len() >= s[b - 1].0.len());
            }
        } else if a == j {
            assert(j < s.len());
            assert(s[j].0.len() >= s[b - 1].0.len() || j == b - 1);
        } else {
            assert(s[a - 1].0.len() >= s[b - 1].0.len());
        }
    }
    vstd::seq_lib::to_multiset_insert(s, j, r);
}

/// Sorting by decreasing length gives rules ordered longest first, with the
/// same rules.
proof fn lemma_sort_by_len(s: Seq<(Seq<char>, Seq<char>)>)
    ensures
        longest_first(sort_by_len_desc(s)),
        sort_by_len_desc(s).to_multiset() == s.to_multiset(),
    decreases s.len(),
{
    if s.len() == 0 {
        assert(sort_by_len_desc(s) =~= s);
    } else {
        lemma_sort_by_len(s.drop_last());
        lemma_insert_sorted(sort_by_len_desc(s.drop_last()), s.last());
        vstd::seq_lib::to_multiset_build(s.drop_last(), s.last());
        assert(s.drop_last().push(s.last()) =~= s);
    }
}

/// A corrector tries its longest variants first: its rules come in order of
/// decreasing variant length, and they are exactly the rules of the
/// corrections, each as often as the corrections give it.
pub proof fn corrector_rules_longest_first(cs: Seq<Correction>)
    ensures
        longest_first(corrector_rules(cs)),
        corrector_rules(cs).to_multiset() == all_rules(cs).to_multiset(),
{
    lemma_sort_by_len(all_rules(cs));
}

/// Without rules, correcting leaves every text as it is.
pub proof fn no_rules_no_change(text: Seq<char>)
    ensures
        corrected(seq![], text) == text,
{
    lemma_apply_no_rules(seq![], text, 0);
    assert(text.skip(0) =~= text);
}

proof fn lemma_unmatched_from(rules: Seq<(Seq<char>, Seq<char>)>, text: Seq<char>, i: int)
    requires
        0 <= i <= text.len(),
        forall|j: int| 0 <= j < text.len() && at_word_start(text, j) ==>
            #[trigger] first_match(rules, text, lowered(text), j, 0) is None,
    ensures
        apply_from(rules, text, i) == text.skip(i),
    decreases text.len() - i,
{
    if i < text.len() {
        lemma_unmatched_from(rules, text, i + 1);
        assert(text.skip(i) =~= seq![text[i]] + text.skip(i + 1));
    } else {
        assert(text.skip(i) =~= Seq::<char>::empty());
    }
}

/// Corrections replace whole words only: a text in which no variant
/// matches at the start of a word, up to a word boundary, comes out as it
/// went in.
pub proof fn unmatched_text_unchanged(rules: Seq<(Seq<char>, Seq<char>)>, text: Seq<char>)
    requires
        forall|j: int| 0 <= j < text.len() && at_word_start(text, j) ==>
            #[trigger] first_match(rules, text, lowered(text), j, 0) is None,
    ensures
        corrected(rules, text) == text,
{
    lemma_unmatched_from(rules, text, 0);
    assert(text.skip(0) =~= text);
}

proof fn lemma_variant_rules_contain(ws: Seq<Seq<char>>, right: Seq<char>, k: int)
    requires
        0 <= k < ws.len(),
        normalize_variant(ws[k]).len() > 0,
        !eq_ignore_ascii_case(normalize_variant(ws[k]), right),
    ensures
        variant_rules(ws, right).contains((lowered(normalize_variant(ws[k])), right)),
    decreases ws.len(),
{
    let w = normalize_variant(ws.last());
    let rest = variant_rules(ws.drop_last(), right);
    if k < ws.len() - 1 {
        assert(ws.drop_last()[k] == ws[k]);
        lemma_variant_rules_contain(ws.drop_last(), right, k);
        let i = choose|i: int| 0 <= i < rest.len() && rest[i] == (lowered(normalize_variant(ws[k])), right);
        if !(w.len() == 0 || eq_ignore_ascii_case(w, right)) {
            assert(rest.push((w.map_values(|c: char| lower_spec(c)), right))[i] == rest[i]);
        }
    } else {
        assert(lowered(w) == w.map_values(|c: char| lower_spec(c)));
        let v = variant_rules(ws, right);
        assert(v[v.len() - 1] == (lowered(w), right));
    }
}

proof fn lemma_all_rules_contain(cs: Seq<Correction>, i: int, x: (Seq<char>, Seq<char>))
    requires
        0 <= i < cs.len(),
        correction_rules(cs[i]).contains(x),
    ensures
        all_rules(cs).contains(x),
    decreases cs.len(),
{
    let prev = all_rules(cs.drop_last());
    let last = correction_rules(cs.last());
    assert(all_rules(cs) == prev + last);
    if i < cs.len() - 1 {
        assert(cs.drop_last()[i] == cs[i]);
        lemma_all_rules_contain(cs.drop_last(), i, x);
        let t = choose|t: int| 0 <= t < prev.len() && prev[t] == x;
        assert((prev + last)[t] == x);
    } else {
        let t = choose|t: int| 0 <= t < last.len() && last[t] == x;
        assert((prev + last)[prev.len() + t] == x);
    }
}

/// No variant is lost: for every correction with a term, each of its
/// comma-separated variants that is not empty once its white space is
/// collapsed, and that differs from the term other than by ASCII case,
/// gives the corrector a rule replacing that variant (lowercased) by the
/// trimmed term.
pub proof fn every_variant_is_a_rule(cs: Seq<Correction>, i: int, k: int)
    requires
        0 <= i < cs.len(),
        trim(cs[i].right@).len() > 0,
        0 <= k < split_on(cs[i].wrong@, ',').len(),
        normalize_variant(split_on(cs[i].wrong@, ',')[k]).len() > 0,
        !eq_ignore_ascii_case(normalize_variant(split_on(cs[i].wrong@, ',')[k]), trim(cs[i].right@)),
    ensures
        corrector_rules(cs).contains((lowered(normalize_variant(split_on(cs[i].wrong@, ',')[k])), trim(cs[i].right@))),
{
    let x = (lowered(normalize_variant(split_on(cs[i].wrong@, ',')[k])), trim(cs[i].right@));
    lemma_variant_rules_contain(split_on(cs[i].wrong@, ','), trim(cs[i].right@), k);
    lemma_all_rules_contain(cs, i, x);
    lemma_sort_by_len(all_rules(cs));
    vstd::seq_lib::to_multiset_contains(all_rules(cs), x);
    vstd::seq_lib::to_multiset_contains(corrector_rules(cs), x);
}

} // verus!
