//! Settings logic that does not touch the disk: the default instructions,
//! the migration of instructions saved by older versions, and the key and
//! model inherited from the `transcribe` script's configuration.

use vstd::prelude::*;
use crate::text::{chars_eq, chars_of, is_white_space, push_all, string_from_chars, strip, trim, trim_chars, ws};
use crate::vocab::{split_chars, split_on};

verus! {

/// Default instructions (in Spanish) of earlier versions: a setting saved
/// with exactly this text becomes empty (= default of the interface language).
pub const LEGACY_SUMMARY_PROMPT: &'static str = "Eres un asistente que resume transcripciones de audio en español. Responde en español, en Markdown, de forma clara y concisa. No inventes información que no esté en la transcripción.";
pub const LEGACY_MINUTES_PROMPT: &'static str = "Eres un asistente que redacta minutas de reuniones a partir de transcripciones en español. Responde en español, en Markdown. Estructura la minuta con estas secciones: Participantes (si se pueden identificar), Temas tratados, Decisiones tomadas, Acuerdos y compromisos (con responsable y fecha si se mencionan), Pendientes / próximos pasos. No inventes información que no esté en la transcripción.";

pub const DEFAULT_SUMMARY_PROMPT_EN: &'static str = "You are an assistant that summarizes audio transcriptions. Respond in Markdown, clearly and concisely, in the same language as the transcription. Do not make up information that is not in the transcription.";
pub const DEFAULT_SUMMARY_PROMPT_ES: &'static str = "Eres un asistente que resume transcripciones de audio. Responde en Markdown, de forma clara y concisa, en el mismo idioma que la transcripción. No inventes información que no esté en la transcripción.";
pub const DEFAULT_MINUTES_PROMPT_EN: &'static str = "You are an assistant that writes meeting minutes from transcriptions. Respond in Markdown, in the same language as the transcription (including the section headings). Structure the minutes with these sections: Participants (if they can be identified), Topics discussed, Decisions made, Agreements and commitments (with owner and date if mentioned), Open items / next steps. Do not make up information that is not in the transcription.";
pub const DEFAULT_MINUTES_PROMPT_ES: &'static str = "Eres un asistente que redacta minutas de reuniones a partir de transcripciones. Responde en Markdown, en el mismo idioma que la transcripción (también los títulos de las secciones). Estructura la minuta con estas secciones: Participantes (si se pueden identificar), Temas tratados, Decisiones tomadas, Acuerdos y compromisos (con responsable y fecha si se mencionan), Pendientes / próximos pasos. No inventes información que no esté en la transcripción.";

/// Default summary instructions in the interface language.
pub fn default_summary_prompt(spanish: bool) -> (r: &'static str)
    ensures
        r@ == (if spanish { DEFAULT_SUMMARY_PROMPT_ES@ } else { DEFAULT_SUMMARY_PROMPT_EN@ }),
{
    if spanish { DEFAULT_SUMMARY_PROMPT_ES } else { DEFAULT_SUMMARY_PROMPT_EN }
}

/// Default minutes instructions in the interface language.
pub fn default_minutes_prompt(spanish: bool) -> (r: &'static str)
    ensures
        r@ == (if spanish { DEFAULT_MINUTES_PROMPT_ES@ } else { DEFAULT_MINUTES_PROMPT_EN@ }),
{
    if spanish { DEFAULT_MINUTES_PROMPT_ES } else { DEFAULT_MINUTES_PROMPT_EN }
}

/// The instructions actually used: the user's (trimmed) or the default.
pub open spec fn effective(custom: Seq<char>, default: Seq<char>) -> Seq<char> {
    if trim(custom).len() == 0 { default } else { trim(custom) }
}

/// The instructions actually used: the user's (trimmed) or, when blank, the default.
pub fn effective_prompt(custom: &str, default: &str) -> (r: String)
    ensures
        r@ == effective(custom@, default@),
{
    let t = trim_chars(&chars_of(custom));
    if t.len() == 0 {
        string_from_chars(&chars_of(default))
    } else {
        string_from_chars(&t)
    }
}

/// A saved instruction after loading: blank ones and the old Spanish
/// defaults become empty (follow the interface language); custom ones are
/// kept as they are.
pub open spec fn migrated(saved: Seq<char>, legacy: Seq<char>) -> Seq<char> {
    if trim(saved).len() == 0 || trim(saved) == legacy { seq![] } else { saved }
}

/// Migrates a saved instruction (see `migrated`).
pub fn migrate_prompt(saved: &str, legacy: &str) -> (r: String)
    ensures
        r@ == migrated(saved@, legacy@),
{
    let c = chars_of(saved);
    let t = trim_chars(&c);
    if t.len() == 0 || chars_eq(&t, &chars_of(legacy)) {
        string_from_chars(&Vec::new())
    } else {
        string_from_chars(&c)
    }
}

/// An instruction saved blank or as the old Spanish default follows the
/// default of the interface language once loaded; any other is used as the
/// user wrote it, trimmed. Loading it again changes nothing more.
pub proof fn migrated_prompt_in_effect(saved: Seq<char>, legacy: Seq<char>, default: Seq<char>)
    ensures
        (trim(saved).len() == 0 || trim(saved) == legacy) ==> effective(migrated(saved, legacy), default) == default,
        !(trim(saved).len() == 0 || trim(saved) == legacy) ==> effective(migrated(saved, legacy), default) == trim(saved),
        migrated(migrated(saved, legacy), legacy) == migrated(saved, legacy),
{
    let e: Seq<char> = seq![];
    assert(crate::text::strip_front(e, crate::text::ws()) == e);
    assert(trim(e) == e);
}

/// The interface language after loading: blank means `auto`.
pub fn migrate_ui_language(saved: &str) -> (r: String)
    ensures
        r@ == (if trim(saved@).len() == 0 { "auto"@ } else { saved@ }),
{
    let c = chars_of(saved);
    if trim_chars(&c).len() == 0 {
        string_from_chars(&chars_of("auto"))
    } else {
        string_from_chars(&c)
    }
}

// ---------------------------------------------------------------------------
// `~/.config/transcribe/config` (bash `VAR=value`)
// ---------------------------------------------------------------------------

/// `s` without a leading `p` (`strip_prefix(p).unwrap_or(s)`).
pub open spec fn without_prefix(s: Seq<char>, p: Seq<char>) -> Seq<char> {
    if p.len() <= s.len() && s.take(p.len() as int) == p { s.skip(p.len() as int) } else { s }
}

/// The index of the first `c` in `s`, if any.
pub open spec fn first_index_of(s: Seq<char>, c: char, i: int) -> Option<int>
    decreases s.len() - i,
{
    if i < 0 || i >= s.len() {
        None
    } else if s[i] == c {
        Some(i)
    } else {
        first_index_of(s, c, i + 1)
    }
}

/// A value without surrounding white space, then double quotes, then single quotes.
pub open spec fn config_value(v: Seq<char>) -> Seq<char> {
    strip(strip(trim(v), |c: char| c == '"'), |c: char| c == '\'')
}

/// The key and model set by the lines `lines[..k]` (later lines win;
/// empty values are ignored).
pub open spec fn config_from(lines: Seq<Seq<char>>, k: int) -> (Option<Seq<char>>, Option<Seq<char>>)
    decreases k,
{
    if k <= 0 {
        (None, None)
    } else {
        let (key, model) = config_from(lines, k - 1);
        let line = trim(lines[k - 1]);
        if line.len() > 0 && line[0] == '#' {
            (key, model)
        } else {
            let l = without_prefix(line, "export "@);
            match first_index_of(l, '=', 0) {
                None => (key, model),
                Some(eq) => {
                    let name = trim(l.take(eq));
                    let v = config_value(l.skip(eq + 1));
                    if name == "OPENROUTER_API_KEY"@ && v.len() > 0 {
                        (Some(v), model)
                    } else if name == "OPENROUTER_MODEL"@ && v.len() > 0 {
                        (key, Some(v))
                    } else {
                        (key, model)
                    }
                },
            }
        }
    }
}

/// The OpenRouter key (and model, if set) of the script's configuration,
/// read line by line (the pieces between newlines).
pub open spec fn legacy_config(txt: Seq<char>) -> Option<(Seq<char>, Option<Seq<char>>)> {
    let lines = split_on(txt, '\n');
    let (key, model) = config_from(lines, lines.len() as int);
    match key {
        Some(k) => Some((k, model)),
        None => None,
    }
}

fn strip_char(v: &[char], c: char) -> (r: Vec<char>)
    ensures
        r@ == strip(v@, |x: char| x == c),
{
    let p = |x: char| x == c;
    let n = v.len();
    let mut lo: usize = 0;
    while lo < n && v[lo] == c
        invariant
            lo <= n,
            n == v@.len(),
            forall|j: int| 0 <= j < lo ==> #[trigger] v@[j] == c,
        decreases n - lo,
    {
        lo += 1;
    }
    let mut hi: usize = n;
    while hi > lo && v[hi - 1] == c
        invariant
            lo <= hi <= n,
            n == v@.len(),
            forall|j: int| hi <= j < n ==> #[trigger] v@[j] == c,
        decreases hi,
    {
        hi -= 1;
    }
    let mut out: Vec<char> = Vec::new();
    let mut k = lo;
    while k < hi
        invariant
            lo <= k <= hi <= n,
            n == v@.len(),
            out@ == v@.subrange(lo as int, k as int),
        decreases hi - k,
    {
        out.push(v[k]);
        k += 1;
    }
    proof {
        let s = v@;
        let p = |x: char| x == c;
        assert forall|j: int| 0 <= j < lo implies #[trigger] p(s[j]) by {}
        crate::text::lemma_strip_front_skip(s, p, lo as int);
        let t = s.skip(lo as int);
        assert(lo == n || t[0] != c);
        assert(crate::text::strip_front(t, p) == t);
        assert forall|j: int| hi - lo <= j < t.len() implies #[trigger] p(t[j]) by {
            assert(t[j] == s[j + lo]);
        }
        crate::text::lemma_strip_back_take(t, p, hi - lo);
        let u = t.take(hi - lo);
        assert(u =~= s.subrange(lo as int, hi as int));
        assert(hi == lo || u.last() != c);
    }
    out
}


/// The characters `v[a..b]`.
fn slice_chars(v: &[char], a: usize, b: usize) -> (r: Vec<char>)
    requires
        a <= b <= v@.len(),
    ensures
        r@ == v@.subrange(a as int, b as int),
{
    let mut out: Vec<char> = Vec::new();
    let mut k = a;
    while k < b
        invariant
            a <= k <= b <= v@.len(),
            out@ == v@.subrange(a as int, k as int),
        decreases b - k,
    {
        out.push(v[k]);
        k += 1;
        assert(out@ =~= v@.subrange(a as int, k as int));
    }
    out
}

fn opt_chars(o: &Option<Vec<char>>) -> (r: Option<String>)
    ensures
        match r {
            Some(s) => o is Some && s@ == o->Some_0@,
            None => o is None,
        },
{
    match o {
        Some(v) => Some(string_from_chars(v)),
        None => None,
    }
}

pub open spec fn opt_chars_view(o: Option<Vec<char>>) -> Option<Seq<char>> {
    match o {
        Some(v) => Some(v@),
        None => None,
    }
}

/// Reads the OpenRouter key and model of the `transcribe` script's
/// configuration (`~/.config/transcribe/config`, bash `VAR=value` lines):
/// `None` without a key.
pub fn parse_legacy_config(txt: &str) -> (r: Option<(String, Option<String>)>)
    ensures
        match r {
            Some((k, m)) => legacy_config(txt@) == Some((k@, match m { Some(x) => Some(x@), None => None::<Seq<char>> })),
            None => legacy_config(txt@) is None,
        },
{
    let lines = split_chars(&chars_of(txt), '\n');
    let ghost lv = lines@.map_values(|w: Vec<char>| w@);
    let export = chars_of("export ");
    let key_name = chars_of("OPENROUTER_API_KEY");
    let model_name = chars_of("OPENROUTER_MODEL");
    let mut key: Option<Vec<char>> = None;
    let mut model: Option<Vec<char>> = None;
    let mut k: usize = 0;
    while k < lines.len()
        invariant
            k <= lines@.len(),
            lv == lines@.map_values(|w: Vec<char>| w@),
            export@ == "export "@,
            key_name@ == "OPENROUTER_API_KEY"@,
            model_name@ == "OPENROUTER_MODEL"@,
            (opt_chars_view(key), opt_chars_view(model)) == config_from(lv, k as int),
        decreases lines@.len() - k,
    {
        let line = trim_chars(&lines[k]);
        assert(line@ == trim(lv[k as int]));
        if !(line.len() > 0 && line[0] == '#') {
            let l = if export.len() <= line.len() && chars_eq(&slice_chars(&line, 0, export.len()), &export) {
                assert(line@.subrange(0, export@.len() as int) == line@.take(export@.len() as int));
                slice_chars(&line, export.len(), line.len())
            } else {
                assert(export@.len() <= line@.len() ==> line@.subrange(0, export@.len() as int) == line@.take(export@.len() as int));
                line.clone()
            };
            assert(l@ == without_prefix(line@, "export "@)) by {
                if export@.len() <= line@.len() && line@.take(export@.len() as int) == export@ {
                    assert(line@.subrange(export@.len() as int, line@.len() as int) =~= line@.skip(export@.len() as int));
                }
            }
            let mut eq: usize = 0;
            while eq < l.len() && l[eq] != '='
                invariant
                    eq <= l@.len(),
                    first_index_of(l@, '=', 0) == first_index_of(l@, '=', eq as int),
                decreases l@.len() - eq,
            {
                eq += 1;
            }
            if eq < l.len() {
                let name = trim_chars(&slice_chars(&l, 0, eq));
                assert(l@.subrange(0, eq as int) =~= l@.take(eq as int));
                let raw = trim_chars(&slice_chars(&l, eq + 1, l.len()));
                assert(l@.subrange(eq + 1, l@.len() as int) =~= l@.skip(eq + 1));
                let v = strip_char(&strip_char(&raw, '"'), '\'');
                if chars_eq(&name, &key_name) && v.len() > 0 {
                    key = Some(v);
                } else if chars_eq(&name, &model_name) && v.len() > 0 {
                    model = Some(v);
                }
            }
        }
        k += 1;
    }
    match key {
        Some(kv) => Some((string_from_chars(&kv), opt_chars(&model))),
        None => None,
    }
}

/// The OpenRouter key and model after loading: without a key of its own the
/// app takes those of the `transcribe` script's configuration, when it has
/// one (the model only when the script names one).
pub fn imported_openrouter(key: &str, model: &str, legacy: Option<(String, Option<String>)>) -> (r: (String, String))
    ensures
        key@.len() > 0 || legacy is None ==> r.0@ == key@ && r.1@ == model@,
        key@.len() == 0 && legacy is Some ==> r.0@ == legacy->Some_0.0@ && r.1@ == match legacy->Some_0.1 {
            Some(m) => m@,
            None => model@,
        },
{
    let k = chars_of(key);
    if k.len() > 0 {
        return (string_from_chars(&k), string_from_chars(&chars_of(model)));
    }
    match legacy {
        Some((lk, lm)) => match lm {
            Some(m) => (lk, m),
            None => (lk, string_from_chars(&chars_of(model))),
        },
        None => (string_from_chars(&k), string_from_chars(&chars_of(model))),
    }
}

} // verus!
