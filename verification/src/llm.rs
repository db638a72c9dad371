//! Summaries and minutes through OpenRouter: the checks around the request
//! and the reading of its answer.

use vstd::prelude::*;
use crate::text::{chars_of, push_all, string_from_chars, trim, trim_chars};

verus! {

/// The message shown when no OpenRouter key is configured.
pub const MISSING_KEY: &'static str = "Configura tu llave de OpenRouter en Ajustes para generar resúmenes y minutas.";

/// At most `n` characters of `s`, with `…` appended when it was cut.
pub open spec fn truncated(s: Seq<char>, n: nat) -> Seq<char> {
    if s.len() <= n { s } else { s.take(n as int).push('…') }
}

/// At most `n` characters of `s`, with `…` appended when it was cut.
pub fn truncate(s: &str, n: usize) -> (r: String)
    ensures
        r@ == truncated(s@, n as nat),
{
    let c = chars_of(s);
    if c.len() <= n {
        return string_from_chars(&c);
    }
    let mut out: Vec<char> = Vec::new();
    let mut i: usize = 0;
    while i < n
        invariant
            i <= n < c@.len(),
            out@ == c@.take(i as int),
        decreases n - i,
    {
        out.push(c[i]);
        i += 1;
        assert(out@ =~= c@.take(i as int));
    }
    out.push('…');
    string_from_chars(&out)
}

/// The request needs a key: `Err` with the explanation when it is blank.
pub fn check_api_key(api_key: &str) -> (r: Result<String, String>)
    ensures
        match r {
            Ok(k) => trim(api_key@).len() > 0 && k@ == trim(api_key@),
            Err(e) => trim(api_key@).len() == 0 && e@ == MISSING_KEY@,
        },
{
    let k = trim_chars(&chars_of(api_key));
    if k.len() == 0 {
        Err(string_from_chars(&chars_of(MISSING_KEY)))
    } else {
        Ok(string_from_chars(&k))
    }
}

/// What a chat answer yields: the error's message when the answer holds an
/// error (`error desconocido` without one), else the first choice's content
/// when it is not blank.
pub open spec fn reply(has_error: bool, error_message: Option<Seq<char>>, first_content: Option<Seq<char>>) -> Result<Seq<char>, Seq<char>> {
    if has_error {
        Err("OpenRouter: "@ + match error_message { Some(m) => m, None => "error desconocido"@ })
    } else {
        match first_content {
            Some(c) => if trim(c).len() > 0 { Ok(c) } else { Err("OpenRouter no devolvió contenido."@) },
            None => Err("OpenRouter no devolvió contenido."@),
        }
    }
}

/// The result of a parsed chat answer: `has_error` when it has an `error`
/// field, with the error's `message` if it is a string; `first_content` is
/// the content of the first choice, if any.
pub fn chat_reply(has_error: bool, error_message: Option<&str>, first_content: Option<String>) -> (r: Result<String, String>)
    ensures
        match r {
            Ok(c) => reply(has_error, crate::models::opt_view(error_message), crate::iurefficient::opt_string(first_content)) == Ok::<Seq<char>, Seq<char>>(c@),
            Err(e) => reply(has_error, crate::models::opt_view(error_message), crate::iurefficient::opt_string(first_content)) == Err::<Seq<char>, Seq<char>>(e@),
        },
{
    if has_error {
        let mut m = chars_of("OpenRouter: ");
        match error_message {
            Some(msg) => push_all(&mut m, &chars_of(msg)),
            None => push_all(&mut m, &chars_of("error desconocido")),
        }
        return Err(string_from_chars(&m));
    }
    match first_content {
        Some(c) => {
            if trim_chars(&chars_of(c.as_str())).len() > 0 {
                Ok(c)
            } else {
                Err(string_from_chars(&chars_of("OpenRouter no devolvió contenido.")))
            }
        },
        None => Err(string_from_chars(&chars_of("OpenRouter no devolvió contenido."))),
    }
}

/// What is said when the answer of OpenRouter cannot be read: its status
/// and the first 300 characters of the body.
pub fn unreadable_reply(status: u16, body: &str) -> (r: String)
    requires
        100 <= status <= 999,
    ensures
        r@ == "OpenRouter respondió "@ + crate::iurefficient::status_text(status) + ": "@ + truncated(body@, 300),
{
    let mut v = chars_of("OpenRouter respondió ");
    push_all(&mut v, &chars_of(crate::iurefficient::status_display(status).as_str()));
    push_all(&mut v, &chars_of(": "));
    push_all(&mut v, &chars_of(truncate(body, 300).as_str()));
    string_from_chars(&v)
}

} // verus!
