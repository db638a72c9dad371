//! Speaker identification: the fields of the diarization sidecar's output,
//! and the assignment in which each segment gets the speaker who overlaps it
//! the most; speakers are numbered in order of appearance.

use vstd::prelude::*;
use crate::subtitles::Segment;
use crate::text::{chars_of, dec, push_all, push_dec, split_whitespace, string_from_chars, trim, trim_chars, words};
use crate::vocab::{split_chars, split_on};

verus! {

/// A stretch in which one person speaks (speakers numbered from 0).
#[derive(Debug, Clone, Copy, PartialEq)]
pub struct Turn {
    pub start_ms: i64,
    pub end_ms: i64,
    pub speaker: i32,
}

pub open spec fn min_int(a: int, b: int) -> int {
    if a <= b { a } else { b }
}

pub open spec fn max_int(a: int, b: int) -> int {
    if a >= b { a } else { b }
}

/// How long the segment and the turn overlap (negative when apart).
pub open spec fn overlap(s: Segment, t: Turn) -> int {
    min_int(s.end_ms as int, t.end_ms as int) - max_int(s.start_ms as int, t.start_ms as int)
}

/// The silence between the segment and the turn (0 when they touch or overlap).
pub open spec fn gap(s: Segment, t: Turn) -> int {
    max_int(max_int(t.start_ms - s.end_ms, s.start_ms - t.end_ms), 0)
}

/// Whether an `i64` holds `x`.
pub open spec fn fits_i64(x: int) -> bool {
    i64::MIN <= x <= i64::MAX
}

/// The arithmetic on a segment and a turn stays within `i64`.
pub open spec fn pair_fits(s: Segment, t: Turn) -> bool {
    &&& fits_i64(overlap(s, t))
    &&& fits_i64(t.start_ms - s.end_ms)
    &&& fits_i64(s.start_ms - t.end_ms)
}

/// The arithmetic on every segment and turn stays within `i64`.
pub open spec fn all_fit(segs: Seq<Segment>, turns: Seq<Turn>) -> bool {
    forall|i: int, j: int| 0 <= i < segs.len() && 0 <= j < turns.len() ==> #[trigger] pair_fits(segs[i], turns[j])
}

/// The turn with the largest positive overlap among `turns[..k]` (the first
/// one on ties): its speaker and the overlap.
pub open spec fn best_overlap(s: Segment, turns: Seq<Turn>, k: int) -> Option<(i32, int)>
    decreases k,
{
    if k <= 0 {
        None
    } else {
        let prev = best_overlap(s, turns, k - 1);
        let o = overlap(s, turns[k - 1]);
        if o > 0 && (prev is None || o > prev.unwrap().1) { Some((turns[k - 1].speaker, o)) } else { prev }
    }
}

/// The turn with the smallest gap among `turns[..k]` (the first one on
/// ties): its speaker and the gap.
pub open spec fn nearest(s: Segment, turns: Seq<Turn>, k: int) -> Option<(i32, int)>
    decreases k,
{
    if k <= 0 {
        None
    } else {
        let prev = nearest(s, turns, k - 1);
        let g = gap(s, turns[k - 1]);
        if prev is None || g < prev.unwrap().1 { Some((turns[k - 1].speaker, g)) } else { prev }
    }
}

/// The speaker of a segment: the one that overlaps it most, or else the
/// nearest one; none without turns.
pub open spec fn speaker_for(s: Segment, turns: Seq<Turn>) -> Option<i32> {
    match best_overlap(s, turns, turns.len() as int) {
        Some((sp, _)) => Some(sp),
        None => match nearest(s, turns, turns.len() as int) {
            Some((sp, _)) => Some(sp),
            None => None,
        },
    }
}

/// `order` with `sp` appended if it is not there yet.
pub open spec fn note_speaker(order: Seq<i32>, sp: i32) -> Seq<i32> {
    if order.contains(sp) { order } else { order.push(sp) }
}

/// The speakers of the first `k` segments in order of first appearance.
pub open spec fn speaker_order(segs: Seq<Segment>, turns: Seq<Turn>, k: int) -> Seq<i32>
    decreases k,
{
    if k <= 0 {
        seq![]
    } else {
        let prev = speaker_order(segs, turns, k - 1);
        match speaker_for(segs[k - 1], turns) {
            Some(sp) => note_speaker(prev, sp),
            None => prev,
        }
    }
}

/// The index of the first occurrence of `x` in `s` (`s.len()` when absent).
pub open spec fn position(s: Seq<i32>, x: i32) -> int
    decreases s.len(),
{
    if s.len() == 0 {
        0
    } else if s[0] == x {
        0
    } else {
        1 + position(s.drop_first(), x)
    }
}

proof fn lemma_position(s: Seq<i32>, x: i32, j: int)
    requires
        0 <= j <= s.len(),
        forall|t: int| 0 <= t < j ==> s[t] != x,
        j == s.len() || s[j] == x,
    ensures
        position(s, x) == j,
    decreases j,
{
    if j > 0 {
        assert(s[0] != x);
        lemma_position(s.drop_first(), x, j - 1);
    }
}

/// `"Hablante <n>"`.
pub open spec fn speaker_name(n: nat) -> Seq<char> {
    seq!['H', 'a', 'b', 'l', 'a', 'n', 't', 'e', ' '] + dec(n)
}

/// The label of segment `i`: the speaker's number (from 1) in order of
/// appearance, counting the segments up to and including `i`.
pub open spec fn label_of(segs: Seq<Segment>, turns: Seq<Turn>, i: int) -> Option<Seq<char>> {
    match speaker_for(segs[i], turns) {
        Some(sp) => Some(speaker_name((position(speaker_order(segs, turns, i + 1), sp) + 1) as nat)),
        None => None,
    }
}

/// The segment's speaker text after the assignment.
pub open spec fn assigned_speaker(segs: Seq<Segment>, turns: Seq<Turn>, i: int) -> Option<Seq<char>> {
    match label_of(segs, turns, i) {
        Some(l) => Some(l),
        None => match segs[i].speaker {
            Some(n) => Some(n@),
            None => None,
        },
    }
}

/// The view of an optional speaker.
pub open spec fn speaker_view(o: Option<String>) -> Option<Seq<char>> {
    match o {
        Some(n) => Some(n@),
        None => None,
    }
}


pub open spec fn opt_view(o: Option<(i32, i64)>) -> Option<(i32, int)> {
    match o {
        Some((a, b)) => Some((a, b as int)),
        None => None,
    }
}

/// The speaker of a segment: largest overlap, or else the nearest turn.
fn speaker_of(seg: &Segment, turns: &[Turn]) -> (r: Option<i32>)
    requires
        forall|j: int| 0 <= j < turns@.len() ==> #[trigger] pair_fits(*seg, turns@[j]),
    ensures
        r == speaker_for(*seg, turns@),
{
    let mut best: Option<(i32, i64)> = None;
    let mut k: usize = 0;
    while k < turns.len()
        invariant
            k <= turns@.len(),
            forall|j: int| 0 <= j < turns@.len() ==> #[trigger] pair_fits(*seg, turns@[j]),
            opt_view(best) == best_overlap(*seg, turns@, k as int),
        decreases turns@.len() - k,
    {
        let t = turns[k];
        assert(pair_fits(*seg, turns@[k as int]));
        let lo_end = if seg.end_ms <= t.end_ms { seg.end_ms } else { t.end_ms };
        let hi_start = if seg.start_ms >= t.start_ms { seg.start_ms } else { t.start_ms };
        let o = lo_end - hi_start;
        let better = match best {
            None => true,
            Some((_, b)) => o > b,
        };
        if o > 0 && better {
            best = Some((t.speaker, o));
        }
        k += 1;
    }
    if let Some((sp, _)) = best {
        return Some(sp);
    }
    let mut near: Option<(i32, i64)> = None;
    let mut k: usize = 0;
    while k < turns.len()
        invariant
            k <= turns@.len(),
            forall|j: int| 0 <= j < turns@.len() ==> #[trigger] pair_fits(*seg, turns@[j]),
            opt_view(near) == nearest(*seg, turns@, k as int),
            forall|v: (i32, i64)| near == Some(v) ==> v.1 >= 0,
        decreases turns@.len() - k,
    {
        let t = turns[k];
        assert(pair_fits(*seg, turns@[k as int]));
        let a = t.start_ms - seg.end_ms;
        let b = seg.start_ms - t.end_ms;
        let m = if a >= b { a } else { b };
        let g = if m >= 0 { m } else { 0 };
        let closer = match near {
            None => true,
            Some((_, d)) => g < d,
        };
        if closer {
            near = Some((t.speaker, g));
        }
        k += 1;
    }
    match near {
        Some((sp, _)) => Some(sp),
        None => None,
    }
}

/// Gives each segment the speaker who overlaps it the most (or, in the
/// silence between turns, the nearest turn). Speakers are numbered in order of
/// appearance («Hablante 1» is the first who speaks). Returns how many
/// distinct speakers were assigned.
pub fn assign(segments: &mut [Segment], turns: &[Turn]) -> (r: usize)
    requires
        all_fit(old(segments)@, turns@),
    ensures
        final(segments)@.len() == old(segments)@.len(),
        r == speaker_order(old(segments)@, turns@, old(segments)@.len() as int).len(),
        forall|i: int| 0 <= i < old(segments)@.len() ==> {
            &&& (#[trigger] final(segments)@[i]).start_ms == old(segments)@[i].start_ms
            &&& final(segments)@[i].end_ms == old(segments)@[i].end_ms
            &&& final(segments)@[i].text == old(segments)@[i].text
            &&& speaker_view(final(segments)@[i].speaker) == assigned_speaker(old(segments)@, turns@, i)
        },
{
    let ghost olds = segments@;
    let mut order: Vec<i32> = Vec::new();
    let mut i: usize = 0;
    while i < segments.len()
        invariant
            i <= segments@.len(),
            segments@.len() == olds.len(),
            all_fit(olds, turns@),
            order@ == speaker_order(olds, turns@, i as int),
            order@.len() <= i,
            forall|j: int| 0 <= j < i ==> {
                &&& (#[trigger] segments@[j]).start_ms == olds[j].start_ms
                &&& segments@[j].end_ms == olds[j].end_ms
                &&& segments@[j].text == olds[j].text
                &&& speaker_view(segments@[j].speaker) == assigned_speaker(olds, turns@, j)
            },
            forall|j: int| i <= j < segments@.len() ==> #[trigger] segments@[j] == olds[j],
        decreases segments@.len() - i,
    {
        assert(segments@[i as int] == olds[i as int]);
        assert forall|j: int| 0 <= j < turns@.len() implies #[trigger] pair_fits(segments@[i as int], turns@[j]) by {
            assert(pair_fits(olds[i as int], turns@[j]));
        }
        let sp = speaker_of(&segments[i], turns);
        match sp {
            Some(sp) => {
                let mut p: usize = 0;
                while p < order.len() && order[p] != sp
                    invariant
                        p <= order@.len(),
                        forall|t: int| 0 <= t < p ==> order@[t] != sp,
                    decreases order@.len() - p,
                {
                    p += 1;
                }
                proof {
                    lemma_position(order@, sp, p as int);
                }
                if p == order.len() {
                    order.push(sp);
                    proof {
                        assert(!speaker_order(olds, turns@, i as int).contains(sp));
                        lemma_position(order@, sp, p as int);
                    }
                } else {
                    assert(speaker_order(olds, turns@, i as int).contains(sp));
                }
                assert(order@ == speaker_order(olds, turns@, i + 1));
                let mut name: Vec<char> = Vec::new();
                let head = chars_of("Hablante ");
                proof {
                    reveal_strlit("Hablante ");
                }
                push_all(&mut name, &head);
                push_dec(&mut name, (p as u64) + 1);
                assert(name@ =~= speaker_name((p + 1) as nat));
                segments[i].speaker = Some(string_from_chars(&name));
            },
            None => {
                assert(order@ == speaker_order(olds, turns@, i + 1));
            },
        }
        i += 1;
    }
    order.len()
}

// ---------------------------------------------------------------------------
// The sidecar's output
// ---------------------------------------------------------------------------

/// `s` without one trailing carriage return.
pub open spec fn strip_cr(s: Seq<char>) -> Seq<char> {
    if s.len() > 0 && s.last() == '\r' { s.drop_last() } else { s }
}

/// `str::lines` from the pieces between line feeds: a carriage return
/// before a line feed is dropped, and an empty last piece (after a final line
/// feed, or of an empty text) is no line.
pub open spec fn lines_of_pieces(p: Seq<Seq<char>>) -> Seq<Seq<char>> {
    if p.len() == 0 {
        seq![]
    } else {
        let body = p.drop_last().map_values(|x: Seq<char>| strip_cr(x));
        if p.last().len() == 0 { body } else { body.push(p.last()) }
    }
}

/// `str::lines`.
pub open spec fn lines_of(s: Seq<char>) -> Seq<Seq<char>> {
    lines_of_pieces(split_on(s, '\n'))
}

/// A line of the sidecar: its first three fields, or the error that names it.
pub open spec fn line_fields(l: Seq<char>) -> Result<(Seq<char>, Seq<char>, Seq<char>), Seq<char>> {
    let w = words(l);
    if w.len() >= 3 { Ok((w[0], w[1], w[2])) } else { Err("salida inesperada: "@ + l) }
}

/// The fields of the lines that are not blank, in order.
pub open spec fn fields_of(ls: Seq<Seq<char>>) -> Seq<Result<(Seq<char>, Seq<char>, Seq<char>), Seq<char>>>
    decreases ls.len(),
{
    if ls.len() == 0 {
        seq![]
    } else if trim(ls.last()).len() > 0 {
        fields_of(ls.drop_last()).push(line_fields(ls.last()))
    } else {
        fields_of(ls.drop_last())
    }
}

/// The view of the fields of a line.
pub open spec fn fields_view(r: Result<(String, String, String), String>) -> Result<(Seq<char>, Seq<char>, Seq<char>), Seq<char>> {
    match r {
        Ok((a, b, c)) => Ok((a@, b@, c@)),
        Err(e) => Err(e@),
    }
}

fn fields_of_line(l: &[char]) -> (r: Result<(String, String, String), String>)
    ensures
        fields_view(r) == line_fields(l@),
{
    let w = split_whitespace(l);
    assert(w@.map_values(|x: Vec<char>| x@) == words(l@));
    if w.len() >= 3 {
        assert(w@[0]@ == words(l@)[0]);
        assert(w@[1]@ == words(l@)[1]);
        assert(w@[2]@ == words(l@)[2]);
        Ok((string_from_chars(&w[0]), string_from_chars(&w[1]), string_from_chars(&w[2])))
    } else {
        let mut v = chars_of("salida inesperada: ");
        push_all(&mut v, l);
        Err(string_from_chars(&v))
    }
}

fn strip_cr_exec(v: &[char]) -> (r: Vec<char>)
    ensures
        r@ == strip_cr(v@),
{
    let n = if v.len() > 0 && v[v.len() - 1] == '\r' { v.len() - 1 } else { v.len() };
    let mut out: Vec<char> = Vec::new();
    let mut k: usize = 0;
    while k < n
        invariant
            k <= n <= v@.len(),
            out@ == v@.take(k as int),
        decreases n - k,
    {
        out.push(v[k]);
        k += 1;
        assert(out@ =~= v@.take(k as int));
    }
    assert(strip_cr(v@) =~= v@.take(n as int));
    out
}

/// The lines of the diarization sidecar's output (`start end speaker` per
/// line, times in seconds) that are not blank, each split into its first
/// three fields, or the error for a line with fewer.
pub fn sidecar_fields(text: &str) -> (r: Vec<Result<(String, String, String), String>>)
    ensures
        r@.map_values(|x: Result<(String, String, String), String>| fields_view(x)) == fields_of(lines_of(text@)),
{
    let pieces = split_chars(&chars_of(text), '\n');
    let ghost p = pieces@.map_values(|w: Vec<char>| w@);
    let mut out: Vec<Result<(String, String, String), String>> = Vec::new();
    if pieces.len() == 0 {
        assert(lines_of(text@) =~= Seq::<Seq<char>>::empty());
        assert(out@.map_values(|x: Result<(String, String, String), String>| fields_view(x)) =~= Seq::<Result<(Seq<char>, Seq<char>, Seq<char>), Seq<char>>>::empty());
        return out;
    }
    let last = pieces.len() - 1;
    let mut k: usize = 0;
    while k < last
        invariant
            k <= last,
            last + 1 == pieces@.len(),
            p == pieces@.map_values(|w: Vec<char>| w@),
            out@.map_values(|x: Result<(String, String, String), String>| fields_view(x))
                == fields_of(p.take(k as int).map_values(|x: Seq<char>| strip_cr(x))),
        decreases last - k,
    {
        let ghost before = out@.map_values(|x: Result<(String, String, String), String>| fields_view(x));
        let line = strip_cr_exec(&pieces[k]);
        proof {
            let t = p.take(k + 1).map_values(|x: Seq<char>| strip_cr(x));
            assert(t.drop_last() =~= p.take(k as int).map_values(|x: Seq<char>| strip_cr(x)));
            assert(t.last() == strip_cr(p[k as int]));
            assert(p[k as int] == pieces@[k as int]@);
        }
        if trim_chars(&line).len() > 0 {
            let f = fields_of_line(&line);
            out.push(f);
            assert(out@.map_values(|x: Result<(String, String, String), String>| fields_view(x)) =~= before.push(fields_view(f)));
        }
        k += 1;
    }
    let ghost body = p.take(last as int).map_values(|x: Seq<char>| strip_cr(x));
    assert(p.drop_last().map_values(|x: Seq<char>| strip_cr(x)) =~= body);
    assert(p.last() == pieces@[last as int]@);
    if pieces[last].len() > 0 {
        let ghost before = out@.map_values(|x: Result<(String, String, String), String>| fields_view(x));
        assert(body.push(p.last()).drop_last() =~= body);
        if trim_chars(&pieces[last]).len() > 0 {
            let f = fields_of_line(&pieces[last]);
            out.push(f);
            assert(out@.map_values(|x: Result<(String, String, String), String>| fields_view(x)) =~= before.push(fields_view(f)));
        }
    }
    out
}

// ---------------------------------------------------------------------------
// Laws
// ---------------------------------------------------------------------------

proof fn lemma_nearest_some(s: Segment, turns: Seq<Turn>, k: int)
    requires
        0 < k,
    ensures
        nearest(s, turns, k) is Some,
    decreases k,
{
    if k > 1 {
        lemma_nearest_some(s, turns, k - 1);
    }
}

proof fn lemma_position_in(s: Seq<i32>, x: i32)
    requires
        s.contains(x),
    ensures
        0 <= position(s, x) < s.len(),
        s[position(s, x)] == x,
    decreases s.len(),
{
    if s[0] != x {
        let j = choose|j: int| 0 <= j < s.len() && s[j] == x;
        let d = s.drop_first();
        assert(d[j - 1] == x);
        assert(d.contains(x));
        lemma_position_in(d, x);
        let p = position(d, x);
        assert(position(s, x) == 1 + p);
        assert(s[p + 1] == d[p]);
    }
}

/// The order of appearance only grows, keeping what it had, and never
/// holds a speaker twice.
proof fn lemma_order_grows(segs: Seq<Segment>, turns: Seq<Turn>, k: int, k2: int)
    requires
        0 <= k <= k2,
    ensures
        speaker_order(segs, turns, k).len() <= speaker_order(segs, turns, k2).len(),
        speaker_order(segs, turns, k2).take(speaker_order(segs, turns, k).len() as int) == speaker_order(segs, turns, k),
        speaker_order(segs, turns, k2).no_duplicates(),
    decreases k2,
{
    if k2 > 0 {
        if k < k2 {
            lemma_order_grows(segs, turns, k, k2 - 1);
        } else {
            lemma_order_grows(segs, turns, k2 - 1, k2 - 1);
        }
        let prev = speaker_order(segs, turns, k2 - 1);
        let cur = speaker_order(segs, turns, k2);
        if k < k2 {
            let small = speaker_order(segs, turns, k);
            assert(cur.take(prev.len() as int) =~= prev);
            assert(cur.take(small.len() as int) =~= prev.take(small.len() as int));
        } else {
            assert(cur.take(cur.len() as int) =~= cur);
        }
    } else {
        assert(speaker_order(segs, turns, k2).take(0) =~= speaker_order(segs, turns, k2));
    }
}

/// Speakers are numbered by order of appearance: `assign` returns how many
/// distinct speakers it found (no speaker is counted twice), and a segment
/// labelled `Hablante n` has `1 <= n <=` that count. With at least one
/// turn every segment gets a speaker, and the first one is `Hablante 1`.
pub proof fn speakers_numbered_in_order(segs: Seq<Segment>, turns: Seq<Turn>, i: int)
    requires
        0 <= i < segs.len(),
    ensures
        speaker_order(segs, turns, segs.len() as int).no_duplicates(),
        speaker_for(segs[i], turns) matches Some(sp) ==> position(speaker_order(segs, turns, i + 1), sp)
            < speaker_order(segs, turns, segs.len() as int).len(),
        turns.len() > 0 ==> label_of(segs, turns, i) is Some,
        turns.len() > 0 ==> label_of(segs, turns, 0) == Some(speaker_name(1)),
{
    let n = segs.len() as int;
    lemma_order_grows(segs, turns, i + 1, n);
    if let Some(sp) = speaker_for(segs[i], turns) {
        let o = speaker_order(segs, turns, i + 1);
        let prev = speaker_order(segs, turns, i);
        if !prev.contains(sp) {
            assert(o[prev.len() as int] == sp);
        }
        assert(o.contains(sp));
        lemma_position_in(o, sp);
    }
    if turns.len() > 0 {
        lemma_nearest_some(segs[i], turns, turns.len() as int);
        lemma_nearest_some(segs[0], turns, turns.len() as int);
        let sp0 = speaker_for(segs[0], turns)->Some_0;
        assert(speaker_order(segs, turns, 0) =~= Seq::<i32>::empty());
        assert(speaker_order(segs, turns, 1) =~= seq![sp0]);
        assert(position(seq![sp0], sp0) == 0);
    }
}

/// The silence between a segment and a turn that does not overlap it: from
/// the segment's end to the turn's start when the turn comes later, else
/// from the turn's end to the segment's start.
pub open spec fn separation(s: Segment, t: Turn) -> int {
    if t.start_ms >= s.end_ms { t.start_ms - s.end_ms } else { s.start_ms - t.end_ms }
}

proof fn lemma_nearest_minimal(s: Segment, turns: Seq<Turn>, k: int) -> (j: int)
    requires
        0 < k <= turns.len(),
    ensures
        0 <= j < k,
        nearest(s, turns, k) == Some((turns[j].speaker, gap(s, turns[j]))),
        forall|m: int| 0 <= m < k ==> gap(s, turns[j]) <= #[trigger] gap(s, turns[m]),
    decreases k,
{
    if k == 1 {
        0
    } else {
        let j0 = lemma_nearest_minimal(s, turns, k - 1);
        let g = gap(s, turns[k - 1]);
        if g < gap(s, turns[j0]) {
            k - 1
        } else {
            j0
        }
    }
}

proof fn lemma_no_overlap(s: Segment, turns: Seq<Turn>, k: int)
    requires
        0 <= k <= turns.len(),
        forall|j: int| 0 <= j < turns.len() ==> overlap(s, #[trigger] turns[j]) <= 0,
    ensures
        best_overlap(s, turns, k) is None,
    decreases k,
{
    if k > 0 {
        lemma_no_overlap(s, turns, k - 1);
    }
}

/// In the silence between turns a segment gets the speaker of the nearest
/// turn: when no turn overlaps the segment (all intervals well formed), its
/// speaker is that of a turn to which no other turn is strictly closer,
/// the distance being counted before or after the segment alike.
pub proof fn silent_segment_gets_nearest_turn(s: Segment, turns: Seq<Turn>) -> (j: int)
    requires
        turns.len() > 0,
        s.start_ms <= s.end_ms,
        forall|m: int| 0 <= m < turns.len() ==> (#[trigger] turns[m]).start_ms <= turns[m].end_ms,
        forall|m: int| 0 <= m < turns.len() ==> (#[trigger] turns[m]).end_ms <= s.start_ms || turns[m].start_ms >= s.end_ms,
    ensures
        0 <= j < turns.len(),
        speaker_for(s, turns) == Some(turns[j].speaker),
        forall|m: int| 0 <= m < turns.len() ==> separation(s, turns[j]) <= #[trigger] separation(s, turns[m]),
{
    assert forall|m: int| 0 <= m < turns.len() implies overlap(s, #[trigger] turns[m]) <= 0 by {
        assert(turns[m].end_ms <= s.start_ms || turns[m].start_ms >= s.end_ms);
    }
    lemma_no_overlap(s, turns, turns.len() as int);
    let j = lemma_nearest_minimal(s, turns, turns.len() as int);
    assert forall|m: int| 0 <= m < turns.len() implies gap(s, #[trigger] turns[m]) == separation(s, turns[m]) by {
        assert(turns[m].end_ms <= s.start_ms || turns[m].start_ms >= s.end_ms);
    }
    assert forall|m: int| 0 <= m < turns.len() implies separation(s, turns[j]) <= #[trigger] separation(s, turns[m]) by {
        assert(gap(s, turns[j]) <= gap(s, turns[m]));
        assert(gap(s, turns[m]) == separation(s, turns[m]));
        assert(gap(s, turns[j]) == separation(s, turns[j]));
    }
    j
}

/// How long a segment and a turn share: from the later start to the
/// earlier end (not positive when they are apart).
pub open spec fn shared_ms(s: Segment, t: Turn) -> int {
    (if s.end_ms <= t.end_ms { s.end_ms as int } else { t.end_ms as int })
        - (if s.start_ms >= t.start_ms { s.start_ms as int } else { t.start_ms as int })
}

proof fn lemma_best_overlap(s: Segment, turns: Seq<Turn>, k: int)
    requires
        0 <= k <= turns.len(),
    ensures
        best_overlap(s, turns, k) is None <==> forall|m: int| 0 <= m < k ==> shared_ms(s, #[trigger] turns[m]) <= 0,
        best_overlap(s, turns, k) matches Some((sp, o)) ==> exists|j: int| 0 <= j < k && #[trigger] turns[j].speaker == sp
            && shared_ms(s, turns[j]) == o && o > 0
            && forall|m: int| 0 <= m < k ==> #[trigger] shared_ms(s, turns[m]) <= o,
    decreases k,
{
    if k > 0 {
        lemma_best_overlap(s, turns, k - 1);
        assert(overlap(s, turns[k - 1]) == shared_ms(s, turns[k - 1]));
        let prev = best_overlap(s, turns, k - 1);
        match prev {
            Some((sp, o)) => {
                let j = choose|j: int| 0 <= j < k - 1 && #[trigger] turns[j].speaker == sp
                    && shared_ms(s, turns[j]) == o && o > 0
                    && forall|m: int| 0 <= m < k - 1 ==> #[trigger] shared_ms(s, turns[m]) <= o;
                assert(turns[j].speaker == sp);
            },
            None => {},
        }
        match best_overlap(s, turns, k) {
            Some((sp, o)) => {
                if o == shared_ms(s, turns[k - 1]) && sp == turns[k - 1].speaker && (prev is None || o > prev.unwrap().1) {
                    assert(turns[k - 1].speaker == sp);
                }
            },
            None => {},
        }
    }
}

/// A segment that some turn overlaps gets the speaker of a turn that
/// overlaps it the most: no turn shares more time with it.
pub proof fn overlapped_segment_gets_longest_overlap(s: Segment, turns: Seq<Turn>, i: int)
    requires
        0 <= i < turns.len(),
        shared_ms(s, turns[i]) > 0,
    ensures
        exists|j: int| 0 <= j < turns.len() && speaker_for(s, turns) == Some(#[trigger] turns[j].speaker)
            && shared_ms(s, turns[j]) > 0
            && forall|m: int| 0 <= m < turns.len() ==> #[trigger] shared_ms(s, turns[m]) <= shared_ms(s, turns[j]),
{
    lemma_best_overlap(s, turns, turns.len() as int);
    assert(!(forall|m: int| 0 <= m < turns.len() ==> shared_ms(s, #[trigger] turns[m]) <= 0));
}

} // verus!
