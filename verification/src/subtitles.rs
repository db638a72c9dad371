//! Transcript formatting: one line per segment, SRT and WebVTT cues, plain
//! text files and the single-line text that is sent to the language model.

use vstd::prelude::*;
use crate::text::{
    chars_of, dec, dec_padded, join, push_all, push_dec, push_dec_padded, push_joined,
    string_from_chars, trim, trim_chars,
};
use crate::iurefficient::{all_digits, digits_value, is_digit};

verus! {

/// A transcribed stretch of audio.
#[derive(Debug, Clone)]
pub struct Segment {
    pub start_ms: i64,
    pub end_ms: i64,
    pub text: String,
    /// Who speaks (e.g. «Eduardo» or «Interlocutor»), when the source was told apart.
    pub speaker: Option<String>,
}

/// The speaker's name without surrounding white space, when there is a
/// non-blank one.
pub open spec fn speaker_label(s: Segment) -> Option<Seq<char>> {
    match s.speaker {
        Some(n) => if trim(n@).len() > 0 { Some(trim(n@)) } else { None },
        None => None,
    }
}

/// The segment's line: `"<speaker>: <text>"` with both parts trimmed, or the
/// trimmed text when there is no speaker.
pub open spec fn line_of(s: Segment) -> Seq<char> {
    match speaker_label(s) {
        Some(n) => n + seq![':', ' '] + trim(s.text@),
        None => trim(s.text@),
    }
}

/// `HH:MM:SS<sep>mmm` for a time in milliseconds; negative times count as 0
/// and the hours take as many digits as they need (at least two).
pub open spec fn timestamp(ms: i64, sep: char) -> Seq<char> {
    let m: nat = if ms < 0 { 0 } else { ms as nat };
    dec_padded(m / 3_600_000, 2) + seq![':'] + dec_padded((m / 60_000) % 60, 2) + seq![':']
        + dec_padded((m / 1000) % 60, 2) + seq![sep] + dec_padded(m % 1000, 3)
}

/// `"<start> --> <end>"` with the given decimal separator.
pub open spec fn cue_times(s: Segment, sep: char) -> Seq<char> {
    timestamp(s.start_ms, sep) + seq![' ', '-', '-', '>', ' '] + timestamp(s.end_ms, sep)
}

/// The SRT block of the `i`-th segment (numbered from 1).
pub open spec fn srt_block(i: nat, s: Segment) -> Seq<char> {
    dec(i + 1) + seq!['\n'] + cue_times(s, ',') + seq!['\n'] + line_of(s) + seq!['\n', '\n']
}

/// SubRip text of the segments.
pub open spec fn srt(segs: Seq<Segment>) -> Seq<char>
    decreases segs.len(),
{
    if segs.len() == 0 {
        seq![]
    } else {
        srt(segs.drop_last()) + srt_block((segs.len() - 1) as nat, segs.last())
    }
}

/// The WebVTT cue of a segment.
pub open spec fn vtt_cue(s: Segment) -> Seq<char> {
    cue_times(s, '.') + seq!['\n'] + line_of(s) + seq!['\n', '\n']
}

/// The cues of the segments, in order.
pub open spec fn vtt_cues(segs: Seq<Segment>) -> Seq<char>
    decreases segs.len(),
{
    if segs.len() == 0 {
        seq![]
    } else {
        vtt_cues(segs.drop_last()) + vtt_cue(segs.last())
    }
}

/// The WebVTT header.
pub open spec fn vtt_header() -> Seq<char> {
    seq!['W', 'E', 'B', 'V', 'T', 'T', '\n', '\n']
}

/// One line per segment, each ended by a newline.
pub open spec fn txt(segs: Seq<Segment>) -> Seq<char>
    decreases segs.len(),
{
    if segs.len() == 0 {
        seq![]
    } else {
        txt(segs.drop_last()) + line_of(segs.last()) + seq!['\n']
    }
}

/// A line feed or a carriage return.
pub open spec fn is_line_break(c: char) -> bool {
    c == '\n' || c == '\r'
}

/// `t` with every line break turned into a space.
pub open spec fn one_line(t: Seq<char>) -> Seq<char> {
    t.map_values(|c: char| if is_line_break(c) { ' ' } else { c })
}

/// The non-empty lines of the segments, in order, each on one line.
pub open spec fn nonempty_lines(segs: Seq<Segment>) -> Seq<Seq<char>>
    decreases segs.len(),
{
    if segs.len() == 0 {
        seq![]
    } else if line_of(segs.last()).len() > 0 {
        nonempty_lines(segs.drop_last()).push(one_line(line_of(segs.last())))
    } else {
        nonempty_lines(segs.drop_last())
    }
}

/// Running text: the non-empty lines, their line breaks turned into
/// spaces, joined by single spaces.
pub open spec fn plain(segs: Seq<Segment>) -> Seq<char> {
    join(nonempty_lines(segs), seq![' '])
}

/// The characters of the segment's line.
fn line_chars(s: &Segment) -> (r: Vec<char>)
    ensures
        r@ == line_of(*s),
{
    let text = trim_chars(&chars_of(s.text.as_str()));
    match &s.speaker {
        Some(n) => {
            let name = trim_chars(&chars_of(n.as_str()));
            if name.len() > 0 {
                let mut out = name;
                out.push(':');
                out.push(' ');
                push_all(&mut out, &text);
                return out;
            }
            text
        },
        None => text,
    }
}

/// Text of the segment with the speaker as prefix («Eduardo: …») when there is one.
pub fn line(s: &Segment) -> (r: String)
    ensures
        r@ == line_of(*s),
{
    let v = line_chars(s);
    string_from_chars(&v)
}

/// Appends `timestamp(ms, sep)`.
fn push_ts(out: &mut Vec<char>, ms: i64, sep: char)
    ensures
        final(out)@ == old(out)@ + timestamp(ms, sep),
{
    let m: u64 = if ms < 0 { 0 } else { ms as u64 };
    let ghost start = out@;
    push_dec_padded(out, m / 3_600_000, 2);
    out.push(':');
    push_dec_padded(out, (m / 60_000) % 60, 2);
    out.push(':');
    push_dec_padded(out, (m / 1000) % 60, 2);
    out.push(sep);
    push_dec_padded(out, m % 1000, 3);
    assert(out@ =~= start + timestamp(ms, sep));
}

/// `HH:MM:SS<sep>mmm` for a time in milliseconds.
pub fn ts(ms: i64, sep: char) -> (r: String)
    ensures
        r@ == timestamp(ms, sep),
{
    let mut out: Vec<char> = Vec::new();
    push_ts(&mut out, ms, sep);
    string_from_chars(&out)
}

/// Appends `cue_times(s, sep)`.
fn push_cue_times(out: &mut Vec<char>, s: &Segment, sep: char)
    ensures
        final(out)@ == old(out)@ + cue_times(*s, sep),
{
    let ghost start = out@;
    push_ts(out, s.start_ms, sep);
    out.push(' ');
    out.push('-');
    out.push('-');
    out.push('>');
    out.push(' ');
    push_ts(out, s.end_ms, sep);
    assert(out@ =~= start + cue_times(*s, sep));
}

/// SubRip (`.srt`) text of the segments.
pub fn to_srt(segments: &[Segment]) -> (r: String)
    ensures
        r@ == srt(segments@),
{
    let mut out: Vec<char> = Vec::new();
    let mut i: usize = 0;
    while i < segments.len()
        invariant
            i <= segments@.len(),
            out@ == srt(segments@.take(i as int)),
        decreases segments@.len() - i,
    {
        let ghost before = out@;
        let s = &segments[i];
        push_dec(&mut out, (i as u64) + 1);
        out.push('\n');
        push_cue_times(&mut out, s, ',');
        out.push('\n');
        let l = line_chars(s);
        push_all(&mut out, &l);
        out.push('\n');
        out.push('\n');
        proof {
            let t = segments@.take(i + 1);
            assert(t.drop_last() =~= segments@.take(i as int));
            assert(out@ =~= before + srt_block(i as nat, segments@[i as int]));
        }
        i += 1;
    }
    assert(segments@.take(segments@.len() as int) =~= segments@);
    string_from_chars(&out)
}

/// WebVTT (`.vtt`) text of the segments.
pub fn to_vtt(segments: &[Segment]) -> (r: String)
    ensures
        r@ == vtt_header() + vtt_cues(segments@),
{
    let mut out: Vec<char> = Vec::new();
    let head = chars_of("WEBVTT\n\n");
    proof {
        reveal_strlit("WEBVTT\n\n");
    }
    push_all(&mut out, &head);
    assert(out@ =~= vtt_header());
    let mut i: usize = 0;
    while i < segments.len()
        invariant
            i <= segments@.len(),
            out@ == vtt_header() + vtt_cues(segments@.take(i as int)),
        decreases segments@.len() - i,
    {
        let ghost before = out@;
        let s = &segments[i];
        push_cue_times(&mut out, s, '.');
        out.push('\n');
        let l = line_chars(s);
        push_all(&mut out, &l);
        out.push('\n');
        out.push('\n');
        proof {
            let t = segments@.take(i + 1);
            assert(t.drop_last() =~= segments@.take(i as int));
            assert(out@ =~= before + vtt_cue(segments@[i as int]));
        }
        i += 1;
    }
    assert(segments@.take(segments@.len() as int) =~= segments@);
    string_from_chars(&out)
}

/// Plain text: one line per segment.
pub fn to_txt(segments: &[Segment]) -> (r: String)
    ensures
        r@ == txt(segments@),
{
    let mut out: Vec<char> = Vec::new();
    let mut i: usize = 0;
    while i < segments.len()
        invariant
            i <= segments@.len(),
            out@ == txt(segments@.take(i as int)),
        decreases segments@.len() - i,
    {
        let ghost before = out@;
        let l = line_chars(&segments[i]);
        push_all(&mut out, &l);
        out.push('\n');
        proof {
            let t = segments@.take(i + 1);
            assert(t.drop_last() =~= segments@.take(i as int));
        }
        i += 1;
    }
    assert(segments@.take(segments@.len() as int) =~= segments@);
    string_from_chars(&out)
}

/// Line breaks turned into spaces.
fn one_line_chars(v: &[char]) -> (r: Vec<char>)
    ensures
        r@ == one_line(v@),
{
    let mut out: Vec<char> = Vec::new();
    let mut i: usize = 0;
    while i < v.len()
        invariant
            i <= v@.len(),
            out@ == one_line(v@.take(i as int)),
        decreases v@.len() - i,
    {
        let c = v[i];
        out.push(if c == '\n' || c == '\r' { ' ' } else { c });
        i += 1;
        assert(out@ =~= one_line(v@.take(i as int)));
    }
    assert(v@.take(v@.len() as int) =~= v@);
    out
}

proof fn lemma_lines_one_line(segs: Seq<Segment>)
    ensures
        forall|k: int, j: int| 0 <= k < nonempty_lines(segs).len() && 0 <= j < nonempty_lines(segs)[k].len()
            ==> !is_line_break(#[trigger] nonempty_lines(segs)[k][j]),
    decreases segs.len(),
{
    if segs.len() > 0 {
        lemma_lines_one_line(segs.drop_last());
        let prev = nonempty_lines(segs.drop_last());
        let cur = nonempty_lines(segs);
        assert forall|k: int, j: int| 0 <= k < cur.len() && 0 <= j < cur[k].len() implies !is_line_break(#[trigger] cur[k][j]) by {
            if k < prev.len() {
                assert(cur[k] == prev[k]);
            } else {
                let l = line_of(segs.last());
                assert(cur[k] == one_line(l));
                assert(one_line(l)[j] == (if is_line_break(l[j]) { ' ' } else { l[j] }));
            }
        }
    }
}

proof fn lemma_join_one_line(ws: Seq<Seq<char>>)
    requires
        forall|k: int, j: int| 0 <= k < ws.len() && 0 <= j < ws[k].len() ==> !is_line_break(#[trigger] ws[k][j]),
    ensures
        forall|j: int| 0 <= j < join(ws, seq![' ']).len() ==> !is_line_break(#[trigger] join(ws, seq![' '])[j]),
    decreases ws.len(),
{
    if ws.len() > 1 {
        let w = ws.drop_last();
        assert forall|k: int, j: int| 0 <= k < w.len() && 0 <= j < w[k].len() implies !is_line_break(#[trigger] w[k][j]) by {
            assert(w[k] == ws[k]);
        }
        lemma_join_one_line(w);
        let a = join(w, seq![' ']);
        let t = a + seq![' '] + ws.last();
        assert forall|j: int| 0 <= j < t.len() implies !is_line_break(#[trigger] t[j]) by {
            if j < a.len() {
                assert(t[j] == a[j]);
            } else if j > a.len() {
                assert(t[j] == ws[ws.len() - 1][j - a.len() - 1]);
            }
        }
    } else if ws.len() == 1 {
        assert forall|j: int| 0 <= j < ws[0].len() implies !is_line_break(#[trigger] ws[0][j]) by {}
    }
}

/// Running text on one single line, to send to the language model: the
/// non-empty lines of the segments joined by spaces, with the line breaks
/// inside a segment turned into spaces too.
pub fn to_plain(segments: &[Segment]) -> (r: String)
    ensures
        r@ == plain(segments@),
        !r@.contains('\n'),
        !r@.contains('\r'),
{
    let mut lines: Vec<Vec<char>> = Vec::new();
    let mut i: usize = 0;
    while i < segments.len()
        invariant
            i <= segments@.len(),
            lines@.map_values(|w: Vec<char>| w@) == nonempty_lines(segments@.take(i as int)),
        decreases segments@.len() - i,
    {
        let ghost before = lines@.map_values(|w: Vec<char>| w@);
        let l = line_chars(&segments[i]);
        let ghost lv = l@;
        if l.len() > 0 {
            let one = one_line_chars(&l);
            lines.push(one);
            assert(lines@.map_values(|w: Vec<char>| w@) =~= before.push(one_line(lv)));
        }
        proof {
            let t = segments@.take(i + 1);
            assert(t.drop_last() =~= segments@.take(i as int));
        }
        i += 1;
    }
    assert(segments@.take(segments@.len() as int) =~= segments@);
    let mut out: Vec<char> = Vec::new();
    let mut sep: Vec<char> = Vec::new();
    sep.push(' ');
    assert(sep@ =~= seq![' ']);
    push_joined(&mut out, &lines, &sep);
    assert(out@ =~= plain(segments@));
    proof {
        lemma_lines_one_line(segments@);
        lemma_join_one_line(nonempty_lines(segments@));
        assert forall|j: int| 0 <= j < out@.len() implies !is_line_break(#[trigger] out@[j]) by {}
    }
    string_from_chars(&out)
}

// ---------------------------------------------------------------------------
// Laws
// ---------------------------------------------------------------------------

/// The text of two runs of segments is the text of the first followed by
/// that of the second, and so are the WebVTT cues.
pub proof fn formats_concatenate(a: Seq<Segment>, b: Seq<Segment>)
    ensures
        txt(a + b) == txt(a) + txt(b),
        vtt_cues(a + b) == vtt_cues(a) + vtt_cues(b),
    decreases b.len(),
{
    if b.len() == 0 {
        assert(a + b =~= a);
        assert(txt(a) + txt(b) =~= txt(a));
        assert(vtt_cues(a) + vtt_cues(b) =~= vtt_cues(a));
    } else {
        formats_concatenate(a, b.drop_last());
        assert((a + b).drop_last() =~= a + b.drop_last());
        assert((a + b).last() == b.last());
        assert(txt(a + b) =~= txt(a) + txt(b));
        assert(vtt_cues(a + b) =~= vtt_cues(a) + vtt_cues(b));
    }
}

/// A timestamp's fields denote the time: the hours, the minutes (below 60),
/// the seconds (below 60) and the milliseconds (below 1000) add up to it,
/// negative times counting as 0.
pub proof fn timestamp_denotes_time(ms: i64)
    ensures
        ({
            let m: nat = if ms < 0 { 0 } else { ms as nat };
            &&& (m / 60_000) % 60 < 60
            &&& (m / 1000) % 60 < 60
            &&& m % 1000 < 1000
            &&& (m / 3_600_000) * 3_600_000 + ((m / 60_000) % 60) * 60_000 + ((m / 1000) % 60) * 1000 + m % 1000 == m
        }),
{
    let m: nat = if ms < 0 { 0 } else { ms as nat };
    let h = m / 3_600_000;
    let mn = (m / 60_000) % 60;
    let sec = (m / 1000) % 60;
    assert(m / 60_000 == h * 60 + mn) by (nonlinear_arith)
        requires h == m / 3_600_000, mn == (m / 60_000) % 60;
    assert(m / 1000 == (m / 60_000) * 60 + sec) by (nonlinear_arith)
        requires sec == (m / 1000) % 60;
    assert(m == (m / 1000) * 1000 + m % 1000) by (nonlinear_arith);
    assert(h * 3_600_000 + mn * 60_000 + sec * 1000 + m % 1000 == m) by (nonlinear_arith)
        requires
            m / 60_000 == h * 60 + mn,
            m / 1000 == (m / 60_000) * 60 + sec,
            m == (m / 1000) * 1000 + m % 1000;
}

proof fn lemma_zeros_value(z: Seq<char>, d: Seq<char>)
    requires
        forall|i: int| 0 <= i < z.len() ==> #[trigger] z[i] == '0',
        all_digits(d),
    ensures
        digits_value(z + d) == digits_value(d),
        all_digits(z + d),
    decreases d.len(), z.len(),
{
    if d.len() > 0 {
        assert(d.drop_last().len() < d.len());
        assert forall|i: int| 0 <= i < d.drop_last().len() implies is_digit(#[trigger] d.drop_last()[i]) by {
            assert(d.drop_last()[i] == d[i]);
        }
        lemma_zeros_value(z, d.drop_last());
        assert((z + d).drop_last() =~= z + d.drop_last());
        assert((z + d).last() == d.last());
    } else if z.len() > 0 {
        assert(z + d =~= z);
        lemma_zeros_value(z.drop_last(), d);
        assert(z.drop_last() + d =~= z.drop_last());
        assert(z.last() == '0');
        assert(('0' as u32) == 48);
    } else {
        assert(z + d =~= d);
    }
    assert forall|i: int| 0 <= i < (z + d).len() implies is_digit(#[trigger] (z + d)[i]) by {
        if i < z.len() {
            assert((z + d)[i] == z[i]);
        } else {
            assert((z + d)[i] == d[i - z.len()]);
        }
    }
}

/// A zero-padded decimal field is made of digits and has the value.
proof fn lemma_padded(v: nat, w: nat)
    ensures
        all_digits(dec_padded(v, w)),
        digits_value(dec_padded(v, w)) == v,
        dec_padded(v, w).len() >= w,
        v < 100 && w == 2 ==> dec_padded(v, w).len() == 2,
        v < 1000 && w == 3 ==> dec_padded(v, w).len() == 3,
{
    crate::iurefficient::lemma_dec_digits(v);
    crate::text::lemma_dec_len(v);
    let d = dec(v);
    if d.len() < w {
        let z = Seq::new((w - d.len()) as nat, |i: int| '0');
        lemma_zeros_value(z, d);
    }
}

/// A timestamp reads back as the time it was made from: its hours, minutes
/// and seconds fields are separated by `:`, the milliseconds by `sep`; read
/// as decimal numbers, the minutes and seconds are below 60, the
/// milliseconds have three digits, and the fields add up to the time in
/// milliseconds (negative times counting as 0).
pub proof fn timestamp_reads_back(ms: i64, sep: char)
    ensures
        ({
            let t = timestamp(ms, sep);
            let n = t.len() as int;
            let m: int = if ms < 0 { 0 } else { ms as int };
            &&& n >= 12
            &&& t[n - 10] == ':' && t[n - 7] == ':' && t[n - 4] == sep
            &&& all_digits(t.take(n - 10)) && all_digits(t.subrange(n - 9, n - 7))
            &&& all_digits(t.subrange(n - 6, n - 4)) && all_digits(t.subrange(n - 3, n))
            &&& digits_value(t.subrange(n - 9, n - 7)) < 60
            &&& digits_value(t.subrange(n - 6, n - 4)) < 60
            &&& digits_value(t.take(n - 10)) * 3_600_000 + digits_value(t.subrange(n - 9, n - 7)) * 60_000
                + digits_value(t.subrange(n - 6, n - 4)) * 1000 + digits_value(t.subrange(n - 3, n)) == m
        }),
{
    let m: nat = if ms < 0 { 0 } else { ms as nat };
    let hv = m / 3_600_000;
    let mv = (m / 60_000) % 60;
    let sv = (m / 1000) % 60;
    let fv = m % 1000;
    lemma_padded(hv, 2);
    lemma_padded(mv, 2);
    lemma_padded(sv, 2);
    lemma_padded(fv, 3);
    timestamp_denotes_time(ms);
    let h = dec_padded(hv, 2);
    let mi = dec_padded(mv, 2);
    let se = dec_padded(sv, 2);
    let fr = dec_padded(fv, 3);
    let t = timestamp(ms, sep);
    assert(t == h + seq![':'] + mi + seq![':'] + se + seq![sep] + fr);
    let n = t.len() as int;
    assert(n == h.len() + 10);
    assert(t.take(n - 10) =~= h);
    assert(t.subrange(n - 9, n - 7) =~= mi);
    assert(t.subrange(n - 6, n - 4) =~= se);
    assert(t.subrange(n - 3, n) =~= fr);
    assert(t[n - 10] == ':');
    assert(t[n - 7] == ':');
    assert(t[n - 4] == sep);
}

} // verus!
