//! The application's own rules around a transcription: where outputs go,
//! which formats are written, the requests for summaries and minutes, and
//! the names of downloaded documents.

use vstd::prelude::*;
use crate::text::{chars_eq, chars_of, push_all, string_from_chars, trim, trim_chars};
use crate::iurefficient::{ascii_lowercase, opt_string};
use crate::models::opt_view;

verus! {

/// `os-arch[-variant]` for the updater: GPU variants only update with their
/// own installer; macOS is called `darwin`.
pub open spec fn update_target_of(os: Seq<char>, arch: Seq<char>, backend: Seq<char>) -> Seq<char> {
    let o = if os == "macos"@ { "darwin"@ } else { os };
    let v = if backend == "CUDA"@ { "-cuda"@ } else if backend == "Vulkan"@ { "-vulkan"@ } else { seq![] };
    o + "-"@ + arch + v
}

/// Identifier of platform and variant for the updater (e.g. `linux-x86_64-cuda`).
pub fn update_target(os: &str, arch: &str, backend: &str) -> (r: String)
    ensures
        r@ == update_target_of(os@, arch@, backend@),
{
    let o = chars_of(os);
    let mut v = if chars_eq(&o, &chars_of("macos")) { chars_of("darwin") } else { o };
    push_all(&mut v, &chars_of("-"));
    push_all(&mut v, &chars_of(arch));
    let b = chars_of(backend);
    if chars_eq(&b, &chars_of("CUDA")) {
        push_all(&mut v, &chars_of("-cuda"));
    } else if chars_eq(&b, &chars_of("Vulkan")) {
        push_all(&mut v, &chars_of("-vulkan"));
    }
    string_from_chars(&v)
}

/// Where the outputs go: the fixed folder in `custom` mode when it is set
/// (not blank), else the input's folder, else the current folder.
pub open spec fn output_dir_of(mode: Seq<char>, custom: Option<Seq<char>>, parent: Option<Seq<char>>) -> Seq<char> {
    match custom {
        Some(d) if mode == "custom"@ && trim(d).len() > 0 => d,
        _ => match parent {
            Some(p) => p,
            None => "."@,
        },
    }
}

/// The folder where the outputs are written; `parent` is the input file's folder.
pub fn resolve_output_dir(mode: &str, custom: Option<&str>, parent: Option<&str>) -> (r: String)
    ensures
        r@ == output_dir_of(mode@, opt_view(custom), opt_view(parent)),
{
    if chars_eq(&chars_of(mode), &chars_of("custom")) {
        if let Some(d) = custom {
            if trim_chars(&chars_of(d)).len() > 0 {
                return string_from_chars(&chars_of(d));
            }
        }
    }
    match parent {
        Some(p) => string_from_chars(&chars_of(p)),
        None => string_from_chars(&chars_of(".")),
    }
}

/// Whether a format is one that is written.
pub open spec fn known_format(f: Seq<char>) -> bool {
    f == "srt"@ || f == "vtt"@ || f == "txt"@ || f == "json"@
}

/// The formats written, in order: the known ones of the list (SRT alone
/// when the list is empty).
pub open spec fn formats_written(fs: Seq<Seq<char>>) -> Seq<Seq<char>>
    decreases fs.len(),
{
    if fs.len() == 0 {
        seq![]
    } else if known_format(fs.last()) {
        formats_written(fs.drop_last()).push(fs.last())
    } else {
        formats_written(fs.drop_last())
    }
}

/// The formats to write for the configured list.
pub fn output_formats(formats: &[String]) -> (r: Vec<String>)
    ensures
        r@.map_values(|s: String| s@) == (if formats@.len() == 0 { seq!["srt"@] } else {
            formats_written(formats@.map_values(|s: String| s@))
        }),
{
    let mut out: Vec<String> = Vec::new();
    if formats.len() == 0 {
        out.push(string_from_chars(&chars_of("srt")));
        assert(out@.map_values(|s: String| s@) =~= seq!["srt"@]);
        return out;
    }
    let ghost fv = formats@.map_values(|s: String| s@);
    let mut i: usize = 0;
    while i < formats.len()
        invariant
            i <= formats@.len(),
            fv == formats@.map_values(|s: String| s@),
            out@.map_values(|s: String| s@) == formats_written(fv.take(i as int)),
        decreases formats@.len() - i,
    {
        let ghost before = out@.map_values(|s: String| s@);
        let f = chars_of(formats[i].as_str());
        proof {
            let t = fv.take(i + 1);
            assert(t.drop_last() =~= fv.take(i as int));
            assert(t.last() == f@);
        }
        if chars_eq(&f, &chars_of("srt")) || chars_eq(&f, &chars_of("vtt")) || chars_eq(&f, &chars_of("txt")) || chars_eq(&f, &chars_of("json")) {
            out.push(formats[i].clone());
            assert(out@.map_values(|s: String| s@) =~= before.push(f@));
        }
        i += 1;
    }
    assert(fv.take(formats@.len() as int) =~= fv);
    out
}

/// The instruction and file suffix of a document kind.
pub open spec fn document_kind(kind: Seq<char>) -> Option<(Seq<char>, Seq<char>)> {
    if kind == "summary"@ {
        Some(("Resume la siguiente transcripción:"@, "_resumen.md"@))
    } else if kind == "minutes"@ {
        Some(("Redacta la minuta de la siguiente transcripción:"@, "_minuta.md"@))
    } else {
        None
    }
}

/// Instruction and suffix of a document kind; `Err` names an unknown kind.
pub fn document_parts(kind: &str) -> (r: Result<(String, String), String>)
    ensures
        match r {
            Ok((i, s)) => document_kind(kind@) == Some((i@, s@)),
            Err(e) => document_kind(kind@) is None && e@ == "Tipo de documento desconocido: "@ + kind@,
        },
{
    let k = chars_of(kind);
    if chars_eq(&k, &chars_of("summary")) {
        Ok((string_from_chars(&chars_of("Resume la siguiente transcripción:")), string_from_chars(&chars_of("_resumen.md"))))
    } else if chars_eq(&k, &chars_of("minutes")) {
        Ok((string_from_chars(&chars_of("Redacta la minuta de la siguiente transcripción:")), string_from_chars(&chars_of("_minuta.md"))))
    } else {
        let mut v = chars_of("Tipo de documento desconocido: ");
        push_all(&mut v, &k);
        Err(string_from_chars(&v))
    }
}

/// The user message for the language model: the instruction, the meeting
/// details given by the user (when not blank, trimmed) and the transcription.
pub open spec fn user_message_of(instruction: Seq<char>, context: Option<Seq<char>>, text: Seq<char>) -> Seq<char> {
    match context {
        Some(c) if trim(c).len() > 0 => instruction
            + "\n\nDatos proporcionados por el usuario sobre la reunión (úsalos y dales prioridad sobre lo que se infiera del audio):\n"@
            + trim(c) + "\n\nTranscripción:\n\n"@ + text,
        _ => instruction + "\n\n"@ + text,
    }
}

/// The user message for the language model.
pub fn user_message(instruction: &str, context: Option<&str>, text: &str) -> (r: String)
    ensures
        r@ == user_message_of(instruction@, opt_view(context), text@),
{
    let mut v = chars_of(instruction);
    if let Some(c) = context {
        let t = trim_chars(&chars_of(c));
        if t.len() > 0 {
            push_all(&mut v, &chars_of("\n\nDatos proporcionados por el usuario sobre la reunión (úsalos y dales prioridad sobre lo que se infiera del audio):\n"));
            push_all(&mut v, &t);
            push_all(&mut v, &chars_of("\n\nTranscripción:\n\n"));
            push_all(&mut v, &chars_of(text));
            return string_from_chars(&v);
        }
    }
    push_all(&mut v, &chars_of("\n\n"));
    push_all(&mut v, &chars_of(text));
    string_from_chars(&v)
}

/// Characters that cannot appear in a file name on some system.
pub open spec fn unsafe_in_name(c: char) -> bool {
    c == '/' || c == '\\' || c == ':' || c == '*' || c == '?' || c == '"' || c == '<' || c == '>' || c == '|'
}

/// A base name with the unsafe characters replaced by `_`.
pub fn safe_base_name(name: &str) -> (r: String)
    ensures
        r@ == name@.map_values(|c: char| if unsafe_in_name(c) { '_' } else { c }),
{
    let v = chars_of(name);
    let mut out: Vec<char> = Vec::new();
    let mut i: usize = 0;
    while i < v.len()
        invariant
            i <= v@.len(),
            out@ == v@.take(i as int).map_values(|c: char| if unsafe_in_name(c) { '_' } else { c }),
        decreases v@.len() - i,
    {
        let c = v[i];
        out.push(if c == '/' || c == '\\' || c == ':' || c == '*' || c == '?' || c == '"' || c == '<' || c == '>' || c == '|' { '_' } else { c });
        i += 1;
        assert(out@ =~= v@.take(i as int).map_values(|c: char| if unsafe_in_name(c) { '_' } else { c }));
    }
    assert(v@.take(v@.len() as int) =~= v@);
    string_from_chars(&out)
}

/// The extension of a downloaded document: the file's own (ASCII
/// lowercase), else one from its MIME type, else `md`.
pub open spec fn document_ext_of(ext: Option<Seq<char>>, mime: Option<Seq<char>>) -> Seq<char> {
    match ext {
        Some(e) => ascii_lowercase(e),
        None => match mime {
            Some(m) => if m == "text/markdown"@ { "md"@ }
                else if m == "text/plain"@ { "txt"@ }
                else if crate::vocab::contains_sub(m, "wordprocessingml"@) { "docx"@ }
                else if m == "application/pdf"@ { "pdf"@ }
                else { "md"@ },
            None => "md"@,
        },
    }
}

fn ascii_lower_chars(v: &[char]) -> (r: Vec<char>)
    ensures
        r@ == ascii_lowercase(v@),
{
    let mut out: Vec<char> = Vec::new();
    let mut i: usize = 0;
    while i < v.len()
        invariant
            i <= v@.len(),
            out@ == ascii_lowercase(v@.take(i as int)),
        decreases v@.len() - i,
    {
        let c = v[i];
        out.push(if 'A' <= c && c <= 'Z' { (((c as u8) + 32) as u8) as char } else { c });
        i += 1;
        assert(out@ =~= ascii_lowercase(v@.take(i as int)));
    }
    assert(v@.take(v@.len() as int) =~= v@);
    out
}

/// The extension for a document downloaded from the instance: `ext` is the
/// extension of its file name, `mime` its MIME type.
pub fn document_extension(ext: Option<&str>, mime: Option<&str>) -> (r: String)
    ensures
        r@ == document_ext_of(opt_view(ext), opt_view(mime)),
{
    match ext {
        Some(e) => string_from_chars(&ascii_lower_chars(&chars_of(e))),
        None => match mime {
            Some(m) => {
                let mv = chars_of(m);
                if chars_eq(&mv, &chars_of("text/markdown")) {
                    string_from_chars(&chars_of("md"))
                } else if chars_eq(&mv, &chars_of("text/plain")) {
                    string_from_chars(&chars_of("txt"))
                } else if crate::vocab::contains_chars(&mv, &chars_of("wordprocessingml")) {
                    string_from_chars(&chars_of("docx"))
                } else if chars_eq(&mv, &chars_of("application/pdf")) {
                    string_from_chars(&chars_of("pdf"))
                } else {
                    string_from_chars(&chars_of("md"))
                }
            },
            None => string_from_chars(&chars_of("md")),
        },
    }
}

/// The folder for recordings: the setting (trimmed) when not blank, else the default.
pub fn recordings_dir(setting: Option<&str>, default: &str) -> (r: String)
    ensures
        r@ == (match opt_view(setting) {
            Some(d) if trim(d).len() > 0 => trim(d),
            _ => default@,
        }),
{
    if let Some(d) = setting {
        let t = trim_chars(&chars_of(d));
        if t.len() > 0 {
            return string_from_chars(&t);
        }
    }
    string_from_chars(&chars_of(default))
}

/// The extensions of the audio and video files that can be transcribed.
pub open spec fn supported_extensions() -> Seq<Seq<char>> {
    seq!["mp3"@, "wav"@, "m4a"@, "aac"@, "flac"@, "ogg"@, "oga"@, "opus"@, "wma"@, "aiff"@, "aif"@, "mp4"@,
        "m4v"@, "mov"@, "mkv"@, "webm"@, "avi"@, "mpg"@, "mpeg"@, "3gp"@, "wmv"@, "ts"@]
}

/// Whether the file at `path` has the extension (ignoring ASCII case) of a
/// format that can be transcribed.
pub fn is_supported_media(path: &str) -> (r: bool)
    ensures
        r == supported_extensions().contains(ascii_lowercase(match crate::iurefficient::path_extension(path@) {
            Some(e) => e,
            None => seq![],
        })),
{
    let ext = match crate::iurefficient::extension_of(path) {
        Some(e) => ascii_lower_chars(&chars_of(e.as_str())),
        None => Vec::new(),
    };
    let ghost want = ext@;
    proof {
        assert(ascii_lowercase(Seq::<char>::empty()) =~= Seq::<char>::empty());
        assert(want == ascii_lowercase(match crate::iurefficient::path_extension(path@) {
            Some(e) => e,
            None => seq![],
        }));
    }
    let names = ["mp3", "wav", "m4a", "aac", "flac", "ogg", "oga", "opus", "wma", "aiff", "aif", "mp4",
        "m4v", "mov", "mkv", "webm", "avi", "mpg", "mpeg", "3gp", "wmv", "ts"];
    let mut k: usize = 0;
    while k < 22
        invariant
            k <= 22,
            ext@ == want,
            want == ascii_lowercase(match crate::iurefficient::path_extension(path@) {
                Some(e) => e,
                None => seq![],
            }),
            forall|j: int| 0 <= j < 22 ==> #[trigger] names@[j]@ == supported_extensions()[j],
            forall|j: int| 0 <= j < k ==> supported_extensions()[j] != want,
        decreases 22 - k,
    {
        if chars_eq(&ext, &chars_of(names[k])) {
            assert(supported_extensions()[k as int] == want);
            return true;
        }
        k += 1;
    }
    assert(!supported_extensions().contains(want));
    false
}

/// The request of a document: its instruction and file suffix, unless the
/// kind is unknown or the transcription is blank.
pub fn document_request(kind: &str, text: &str) -> (r: Result<(String, String), String>)
    ensures
        match document_kind(kind@) {
            None => r is Err && r->Err_0@ == "Tipo de documento desconocido: "@ + kind@,
            Some((i, sfx)) => if trim(text@).len() == 0 {
                r is Err && r->Err_0@ == "La transcripción está vacía."@
            } else {
                r is Ok && r->Ok_0.0@ == i && r->Ok_0.1@ == sfx
            },
        },
{
    let parts = document_parts(kind)?;
    if trim_chars(&chars_of(text)).len() == 0 {
        return Err(string_from_chars(&chars_of("La transcripción está vacía.")));
    }
    Ok(parts)
}

} // verus!
