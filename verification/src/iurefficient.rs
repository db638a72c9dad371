//! Connector with an Iurefficient instance over WebDAV: the listing of a
//! folder from a PROPFIND multistatus answer, the outcome of an upload, the
//! content type of a file and the explanation of an HTTP status.

use vstd::prelude::*;
use crate::text::{chars_eq, chars_of, dec, digit, push_all, push_dec, string_from_chars, str_lowercase, string_to_lowercase, trim, trim_chars};

verus! {

/// Browse-only folder that the server exposes; it accepts no writes.
pub const CARPETA_VISTAS: &'static str = "Vistas (solo navegar)";

// ---------------------------------------------------------------------------
// Outside computations
// ---------------------------------------------------------------------------

/// One node of a parsed XML document, in document order: its local tag name
/// (empty for nodes that are not elements), its text (`Node::text`) and how
/// many nodes lie on the path from it up to the root, itself included.
#[derive(Debug, Clone)]
pub struct XmlNode {
    pub name: String,
    pub text: Option<String>,
    pub depth: usize,
}

/// The view of an optional string.
pub open spec fn opt_string(o: Option<String>) -> Option<Seq<char>> {
    match o {
        Some(s) => Some(s@),
        None => None,
    }
}

/// The view of a node.
pub open spec fn node_view(n: XmlNode) -> (Seq<char>, Option<Seq<char>>, int) {
    (n.name@, opt_string(n.text), n.depth as int)
}

/// The nodes of the XML document (roxmltree's `Document::parse` followed by
/// `descendants`), or roxmltree's message when the text is not well-formed
/// XML.
pub uninterp spec fn xml_nodes(xml: Seq<char>) -> Result<Seq<(Seq<char>, Option<Seq<char>>, int)>, Seq<char>>;

/// `percent_decode_str(s).decode_utf8_lossy()` of the percent-encoding crate.
pub uninterp spec fn percent_decoded(s: Seq<char>) -> Seq<char>;

/// The path of `s` parsed as an absolute URL (`Url::parse(s)?.path()` of
/// the url crate), `None` when it does not parse.
pub uninterp spec fn url_path(s: Seq<char>) -> Option<Seq<char>>;

/// `StatusCode::from_u16(code)` of reqwest displayed: the code and its
/// canonical reason.
pub uninterp spec fn status_text(code: u16) -> Seq<char>;

/// `roxmltree::Document::parse`, then every node of `descendants()` with
/// its `tag_name().name()`, `text()` and `ancestors().count()`. The result is
/// named `xml_nodes`; the error is roxmltree's message.
#[verifier::external_body]
pub(crate) fn parse_xml(xml: &str) -> (r: Result<Vec<XmlNode>, String>)
    ensures
        match r {
            Ok(v) => xml_nodes(xml@) == Ok::<Seq<(Seq<char>, Option<Seq<char>>, int)>, Seq<char>>(v@.map_values(|n: XmlNode| node_view(n))),
            Err(e) => xml_nodes(xml@) == Err::<Seq<(Seq<char>, Option<Seq<char>>, int)>, Seq<char>>(e@),
        },
{
    let doc = roxmltree::Document::parse(xml).map_err(|e| e.to_string())?;
    Ok(doc.descendants().map(|n| XmlNode {
        name: n.tag_name().name().to_string(),
        text: n.text().map(str::to_string),
        depth: n.ancestors().count(),
    }).collect())
}

/// `percent_decode_str(s).decode_utf8_lossy()`; the result is named `percent_decoded`.
#[verifier::external_body]
pub(crate) fn percent_decode(s: &str) -> (r: String)
    ensures
        r@ == percent_decoded(s@),
{
    percent_encoding::percent_decode_str(s).decode_utf8_lossy().into_owned()
}

/// `Url::parse(s)` and its `path()`; the result is named `url_path`.
#[verifier::external_body]
pub(crate) fn parse_url_path(s: &str) -> (r: Option<String>)
    ensures
        opt_string(r) == url_path(s@),
{
    url::Url::parse(s).ok().map(|u| u.path().to_string())
}

/// `StatusCode::from_u16(code)` displayed (`"404 Not Found"`); the result is
/// named `status_text`. Codes outside 100..=999 do not make a status.
#[verifier::external_body]
pub(crate) fn status_display(code: u16) -> (r: String)
    requires
        100 <= code <= 999,
    ensures
        r@ == status_text(code),
{
    reqwest::StatusCode::from_u16(code).map(|s| s.to_string()).unwrap_or_default()
}

// ---------------------------------------------------------------------------
// Small text helpers
// ---------------------------------------------------------------------------

/// `s.starts_with(p)`.
pub open spec fn starts_with(s: Seq<char>, p: Seq<char>) -> bool {
    p.len() <= s.len() && s.take(p.len() as int) == p
}

/// `s` without trailing occurrences of `c` (`trim_end_matches(c)`).
pub open spec fn trim_end_char(s: Seq<char>, c: char) -> Seq<char>
    decreases s.len(),
{
    if s.len() > 0 && s.last() == c { trim_end_char(s.drop_last(), c) } else { s }
}

/// `s` without leading occurrences of `c` (`trim_start_matches(c)`).
pub open spec fn trim_start_char(s: Seq<char>, c: char) -> Seq<char>
    decreases s.len(),
{
    if s.len() > 0 && s[0] == c { trim_start_char(s.drop_first(), c) } else { s }
}

/// What follows the last `/` (`rsplit('/').next()`); all of `s` without one.
pub open spec fn after_last_slash(s: Seq<char>) -> Seq<char>
    decreases s.len(),
{
    if s.len() == 0 {
        s
    } else if s.last() == '/' {
        seq![]
    } else {
        after_last_slash(s.drop_last()).push(s.last())
    }
}

/// Whether `p` is a prefix of `s`.
fn has_prefix(s: &[char], p: &[char]) -> (r: bool)
    ensures
        r == starts_with(s@, p@),
{
    if p.len() > s.len() {
        return false;
    }
    let mut i: usize = 0;
    while i < p.len()
        invariant
            i <= p@.len() <= s@.len(),
            forall|j: int| 0 <= j < i ==> s@[j] == p@[j],
        decreases p@.len() - i,
    {
        if s[i] != p[i] {
            assert(s@.take(p@.len() as int)[i as int] != p@[i as int]);
            return false;
        }
        i += 1;
    }
    assert(s@.take(p@.len() as int) =~= p@);
    true
}

fn trim_end_char_exec(v: &[char], c: char) -> (r: Vec<char>)
    ensures
        r@ == trim_end_char(v@, c),
{
    let mut hi = v.len();
    assert(v@.take(hi as int) =~= v@);
    while hi > 0 && v[hi - 1] == c
        invariant
            hi <= v@.len(),
            trim_end_char(v@, c) == trim_end_char(v@.take(hi as int), c),
        decreases hi,
    {
        assert(v@.take(hi as int).drop_last() =~= v@.take(hi - 1));
        hi -= 1;
    }
    let mut out: Vec<char> = Vec::new();
    let mut k: usize = 0;
    while k < hi
        invariant
            k <= hi <= v@.len(),
            out@ == v@.take(k as int),
        decreases hi - k,
    {
        out.push(v[k]);
        k += 1;
        assert(out@ =~= v@.take(k as int));
    }
    out
}

fn trim_start_char_exec(v: &[char], c: char) -> (r: Vec<char>)
    ensures
        r@ == trim_start_char(v@, c),
{
    let mut lo: usize = 0;
    assert(v@.skip(0) =~= v@);
    while lo < v.len() && v[lo] == c
        invariant
            lo <= v@.len(),
            trim_start_char(v@, c) == trim_start_char(v@.skip(lo as int), c),
        decreases v@.len() - lo,
    {
        assert(v@.skip(lo as int).drop_first() =~= v@.skip(lo + 1));
        lo += 1;
    }
    let mut out: Vec<char> = Vec::new();
    let mut k: usize = lo;
    while k < v.len()
        invariant
            lo <= k <= v@.len(),
            out@ == v@.subrange(lo as int, k as int),
        decreases v@.len() - k,
    {
        out.push(v[k]);
        k += 1;
        assert(out@ =~= v@.subrange(lo as int, k as int));
    }
    assert(out@ =~= v@.skip(lo as int));
    out
}

fn after_last_slash_exec(v: &[char]) -> (r: Vec<char>)
    ensures
        r@ == after_last_slash(v@),
{
    let mut lo = v.len();
    assert(v@.take(lo as int) =~= v@);
    assert(v@.subrange(lo as int, v@.len() as int) =~= Seq::<char>::empty());
    while lo > 0 && v[lo - 1] != '/'
        invariant
            lo <= v@.len(),
            after_last_slash(v@) == after_last_slash(v@.take(lo as int)) + v@.subrange(lo as int, v@.len() as int),
        decreases lo,
    {
        let ghost t = v@.take(lo as int);
        assert(t.drop_last() =~= v@.take(lo - 1));
        assert(v@.subrange(lo - 1, v@.len() as int) =~= seq![v@[lo - 1]] + v@.subrange(lo as int, v@.len() as int));
        lo -= 1;
    }
    assert(after_last_slash(v@.take(lo as int)) =~= Seq::<char>::empty());
    let mut out: Vec<char> = Vec::new();
    let mut k: usize = lo;
    while k < v.len()
        invariant
            lo <= k <= v@.len(),
            out@ == v@.subrange(lo as int, k as int),
        decreases v@.len() - k,
    {
        out.push(v[k]);
        k += 1;
        assert(out@ =~= v@.subrange(lo as int, k as int));
    }
    out
}

// ---------------------------------------------------------------------------
// Unsigned integers (`str::parse::<u64>`)
// ---------------------------------------------------------------------------

pub open spec fn is_digit(c: char) -> bool {
    '0' <= c && c <= '9'
}

/// The value of a string of ASCII digits.
pub open spec fn digits_value(s: Seq<char>) -> nat
    decreases s.len(),
{
    if s.len() == 0 {
        0
    } else {
        digits_value(s.drop_last()) * 10 + ((s.last() as u32) - 48) as nat
    }
}

/// The text after an optional leading `+`.
pub open spec fn unsigned_part(s: Seq<char>) -> Seq<char> {
    if s.len() > 0 && s[0] == '+' { s.drop_first() } else { s }
}

/// Whether every character is an ASCII digit.
pub open spec fn all_digits(d: Seq<char>) -> bool {
    forall|i: int| 0 <= i < d.len() ==> is_digit(#[trigger] d[i])
}

/// `str::parse::<u64>`: an optional `+` followed by at least one ASCII digit,
/// with a value that fits in 64 bits.
pub open spec fn parse_u64_spec(s: Seq<char>) -> Option<u64> {
    let d = unsigned_part(s);
    if d.len() > 0 && all_digits(d) && digits_value(d) <= u64::MAX {
        Some(digits_value(d) as u64)
    } else {
        None
    }
}

proof fn lemma_digits_value_mono(s: Seq<char>, k: int)
    requires
        0 <= k <= s.len(),
        forall|i: int| 0 <= i < s.len() ==> is_digit(#[trigger] s[i]),
    ensures
        digits_value(s.take(k)) <= digits_value(s),
    decreases s.len() - k,
{
    if k < s.len() {
        lemma_digits_value_mono(s, k + 1);
        assert(s.take(k + 1).drop_last() =~= s.take(k));
    } else {
        assert(s.take(k) =~= s);
    }
}

/// The decimal text of a number is made of digits and has that value.
pub proof fn lemma_dec_digits(n: nat)
    ensures
        dec(n).len() > 0,
        all_digits(dec(n)),
        digits_value(dec(n)) == n,
    decreases n,
{
    let d = n % 10;
    assert(digit(d) as u32 == 48 + d);
    if n >= 10 {
        lemma_dec_digits(n / 10);
        let s = dec(n / 10);
        let t = dec(n);
        assert(t.drop_last() =~= s);
        assert forall|i: int| 0 <= i < t.len() implies is_digit(#[trigger] t[i]) by {
            if i < s.len() {
                assert(t[i] == s[i]);
            }
        }
        assert(t.last() == digit(d));
        assert(digits_value(t) == digits_value(s) * 10 + d);
        assert(n == (n / 10) * 10 + d);
    } else {
        let t = dec(n);
        assert(t.drop_last() =~= Seq::<char>::empty());
        assert(t.last() == digit(d));
        assert(digits_value(t.drop_last()) == 0);
        assert(digits_value(t) == d);
    }
}

/// Parsing the decimal text of a number (as `Display` writes it) gives the
/// number back.
pub proof fn parse_reads_decimal(n: u64)
    ensures
        parse_u64_spec(dec(n as nat)) == Some(n),
{
    lemma_dec_digits(n as nat);
    assert(is_digit(dec(n as nat)[0]));
    assert(unsigned_part(dec(n as nat)) == dec(n as nat));
}

/// Parses an unsigned 64-bit integer (`str::parse::<u64>`).
pub fn parse_u64(v: &[char]) -> (r: Option<u64>)
    ensures
        r == parse_u64_spec(v@),
{
    let start: usize = if v.len() > 0 && v[0] == '+' { 1 } else { 0 };
    let ghost d = unsigned_part(v@);
    assert(d =~= v@.skip(start as int));
    if start >= v.len() {
        assert(d.len() == 0);
        assert(parse_u64_spec(v@) is None);
        return None;
    }
    let mut i: usize = start;
    while i < v.len()
        invariant
            start <= i <= v@.len(),
            d == v@.skip(start as int),
            d == unsigned_part(v@),
            forall|j: int| 0 <= j < i - start ==> is_digit(#[trigger] d[j]),
        decreases v@.len() - i,
    {
        if !('0' <= v[i] && v[i] <= '9') {
            assert(!is_digit(d[i - start]));
            assert(!all_digits(d));
            return None;
        }
        i += 1;
    }
    let mut value: u64 = 0;
    let mut k: usize = start;
    while k < v.len()
        invariant
            start <= k <= v@.len(),
            d == v@.skip(start as int),
            d == unsigned_part(v@),
            forall|j: int| 0 <= j < d.len() ==> is_digit(#[trigger] d[j]),
            value as nat == digits_value(d.take(k - start)),
        decreases v@.len() - k,
    {
        let c = v[k];
        assert(c == d[k - start]);
        let digit = ((c as u32) - 48) as u64;
        proof {
            assert(d.take(k - start + 1).drop_last() =~= d.take(k - start));
        }
        if value > 1844674407370955161 || (value == 1844674407370955161 && digit > 5) {
            proof {
                lemma_digits_value_mono(d, k - start + 1);
                assert(digits_value(d.take(k - start + 1)) > u64::MAX);
            }
            return None;
        }
        value = value * 10 + digit;
        k += 1;
    }
    assert(d.take(d.len() as int) =~= d);
    Some(value)
}


// ---------------------------------------------------------------------------
// Multistatus answers
// ---------------------------------------------------------------------------

/// The view of the parsed nodes.
pub type Nodes = Seq<(Seq<char>, Option<Seq<char>>, int)>;

/// The end of the subtree of node `r`, scanning from `j`: the first later
/// node that is not deeper than `r`.
pub open spec fn subtree_end_from(ns: Nodes, r: int, j: int) -> int
    decreases ns.len() - j,
{
    if 0 <= r < ns.len() && 0 <= j < ns.len() && ns[j].2 > ns[r].2 {
        subtree_end_from(ns, r, j + 1)
    } else {
        j
    }
}

/// Node `r` and its descendants are the nodes `r..subtree_end(ns, r)`.
pub open spec fn subtree_end(ns: Nodes, r: int) -> int {
    subtree_end_from(ns, r, r + 1)
}

/// The first node named `name` among `j..end`.
pub open spec fn first_named_from(ns: Nodes, name: Seq<char>, j: int, end: int) -> Option<int>
    decreases end - j,
{
    if j < 0 || j >= end || j >= ns.len() {
        None
    } else if ns[j].0 == name {
        Some(j)
    } else {
        first_named_from(ns, name, j + 1, end)
    }
}

/// The text of the first node named `name` in the subtree of `r`
/// (`descendants().find(..).and_then(|n| n.text())`).
pub open spec fn named_text(ns: Nodes, r: int, name: Seq<char>) -> Option<Seq<char>> {
    match first_named_from(ns, name, r, subtree_end(ns, r)) {
        Some(j) => ns[j].1,
        None => None,
    }
}

/// Whether node `j` has a child named `name`.
pub open spec fn has_child_named(ns: Nodes, j: int, name: Seq<char>) -> bool {
    exists|k: int| j < k < subtree_end(ns, j) && (#[trigger] ns[k]).2 == ns[j].2 + 1 && ns[k].0 == name
}

/// Whether the subtree of `r` holds a `resourcetype` with a `collection` child.
pub open spec fn is_collection(ns: Nodes, r: int) -> bool {
    exists|j: int| r <= j < subtree_end(ns, r) && (#[trigger] ns[j]).0 == "resourcetype"@
        && has_child_named(ns, j, "collection"@)
}

/// An entry of a listing.
pub struct EntrySpec {
    pub name: Seq<char>,
    pub path: Seq<char>,
    pub is_folder: bool,
    pub can_upload: bool,
    pub size: Option<u64>,
}

/// What a `response` element contributes.
pub enum ResponseSpec {
    /// Nothing (no name in its address).
    Skip,
    /// The listed folder itself, with its upload permission.
    Itself(bool),
    /// An entry of the folder.
    Item(EntrySpec),
}

/// Whether `c` occurs in `s`.
pub open spec fn has_char(s: Seq<char>, c: char) -> bool {
    exists|i: int| 0 <= i < s.len() && s[i] == c
}

/// The permission to create documents: `C` in ownCloud's permissions, or
/// true when the server does not say.
pub open spec fn upload_permission(ns: Nodes, r: int) -> bool {
    match named_text(ns, r, "permissions"@) {
        Some(p) => has_char(trim(p), 'C'),
        None => true,
    }
}

/// The response's address without percent-encoding, scheme and host, and
/// without trailing slashes.
pub open spec fn response_path(ns: Nodes, r: int) -> Seq<char> {
    let href = trim(match named_text(ns, r, "href"@) { Some(t) => t, None => seq![] });
    let decoded = percent_decoded(href);
    let path_only = match url_path(decoded) { Some(p) => p, None => decoded };
    trim_end_char(path_only, '/')
}

/// The size in the `getcontentlength` property, if it is a number.
pub open spec fn response_size(ns: Nodes, r: int) -> Option<u64> {
    match named_text(ns, r, "getcontentlength"@) {
        Some(t) => parse_u64_spec(trim(t)),
        None => None,
    }
}

/// What the `response` at node `r` contributes to the listing of `folder`
/// (already without surrounding slashes), whose own decoded path is `self_path`.
pub open spec fn classify(ns: Nodes, r: int, folder: Seq<char>, self_path: Seq<char>) -> ResponseSpec {
    let clean = response_path(ns, r);
    let can_upload = upload_permission(ns, r);
    if clean == self_path {
        ResponseSpec::Itself(can_upload && !starts_with(folder, CARPETA_VISTAS@))
    } else {
        let name = after_last_slash(clean);
        if name.len() == 0 {
            ResponseSpec::Skip
        } else {
            let display = match named_text(ns, r, "displayname"@) {
                Some(t) => if trim(t).len() > 0 { trim(t) } else { name },
                None => name,
            };
            let rel = if folder.len() == 0 { name } else { folder + seq!['/'] + name };
            let is_folder = is_collection(ns, r);
            ResponseSpec::Item(EntrySpec {
                name: display,
                path: rel,
                is_folder,
                can_upload: is_folder && can_upload && !starts_with(rel, CARPETA_VISTAS@),
                size: response_size(ns, r),
            })
        }
    }
}

/// The entries (unsorted) and the folder's own upload permission, from the
/// `response` elements among the first `k` nodes.
pub open spec fn scan_responses(ns: Nodes, folder: Seq<char>, self_path: Seq<char>, k: int) -> (Seq<EntrySpec>, bool)
    decreases k,
{
    if k <= 0 {
        (seq![], !starts_with(folder, CARPETA_VISTAS@))
    } else {
        let (es, sc) = scan_responses(ns, folder, self_path, k - 1);
        if ns[k - 1].0 == "response"@ {
            match classify(ns, k - 1, folder, self_path) {
                ResponseSpec::Skip => (es, sc),
                ResponseSpec::Itself(c) => (es, c),
                ResponseSpec::Item(e) => (es.push(e), sc),
            }
        } else {
            (es, sc)
        }
    }
}

/// Lexicographic order of character sequences (the order of `String`).
pub open spec fn lex_lt(a: Seq<char>, b: Seq<char>) -> bool
    decreases a.len(),
{
    if a.len() == 0 {
        b.len() > 0
    } else if b.len() == 0 {
        false
    } else if a[0] == b[0] {
        lex_lt(a.drop_first(), b.drop_first())
    } else {
        a[0] < b[0]
    }
}

/// Whether `x` sorts strictly before `y`: folders first, then by name
/// ignoring case.
pub open spec fn sorts_before(x: EntrySpec, y: EntrySpec) -> bool {
    (x.is_folder && !y.is_folder)
        || (x.is_folder == y.is_folder && lex_lt(str_lowercase(x.name), str_lowercase(y.name)))
}

/// `x` placed before the first entry that it sorts before.
pub open spec fn insert_entry(s: Seq<EntrySpec>, x: EntrySpec) -> Seq<EntrySpec>
    decreases s.len(),
{
    if s.len() == 0 {
        seq![x]
    } else if sorts_before(x, s[0]) {
        seq![x] + s
    } else {
        seq![s[0]] + insert_entry(s.drop_first(), x)
    }
}

/// Stable sort of the entries (`sort_by`).
pub open spec fn sort_entries(s: Seq<EntrySpec>) -> Seq<EntrySpec>
    decreases s.len(),
{
    if s.len() == 0 {
        seq![]
    } else {
        insert_entry(sort_entries(s.drop_last()), s.last())
    }
}

/// The listing of `folder` described by a multistatus answer: its path
/// without surrounding slashes, whether documents can be created in it, and
/// its entries sorted; or the error for an answer that is not XML.
pub open spec fn listing_of(xml: Seq<char>, folder: Seq<char>, self_path: Seq<char>) -> Result<(Seq<char>, bool, Seq<EntrySpec>), Seq<char>> {
    match xml_nodes(xml) {
        Err(e) => Err("Respuesta WebDAV no válida: "@ + e),
        Ok(ns) => Ok(listing_from(ns, folder, self_path)),
    }
}

/// The listing of `folder`, whose own address path is `self_path`, that the
/// parsed nodes of a multistatus answer describe.
pub open spec fn listing_from(ns: Nodes, folder: Seq<char>, self_path: Seq<char>) -> (Seq<char>, bool, Seq<EntrySpec>) {
    let fnorm = trim_end_char(trim_start_char(folder, '/'), '/');
    let snorm = trim_end_char(percent_decoded(self_path), '/');
    let (es, sc) = scan_responses(ns, fnorm, snorm, ns.len() as int);
    (fnorm, sc, sort_entries(es))
}


/// The view of the parsed nodes.
pub open spec fn nodes_view(nodes: Seq<XmlNode>) -> Nodes {
    nodes.map_values(|n: XmlNode| node_view(n))
}

fn subtree_end_exec(nodes: &Vec<XmlNode>, r: usize) -> (e: usize)
    requires
        r < nodes.len(),
    ensures
        e as int == subtree_end(nodes_view(nodes@), r as int),
        r < e <= nodes@.len(),
{
    let ghost ns = nodes_view(nodes@);
    let mut j = r + 1;
    while j < nodes.len() && nodes[j].depth > nodes[r].depth
        invariant
            r < j <= nodes@.len(),
            ns == nodes_view(nodes@),
            subtree_end(ns, r as int) == subtree_end_from(ns, r as int, j as int),
        decreases nodes@.len() - j,
    {
        assert(ns[j as int].2 == nodes@[j as int].depth);
        assert(ns[r as int].2 == nodes@[r as int].depth);
        j += 1;
    }
    proof {
        if j < nodes@.len() {
            assert(ns[j as int].2 == nodes@[j as int].depth);
            assert(ns[r as int].2 == nodes@[r as int].depth);
        }
    }
    j
}

fn name_is(n: &XmlNode, name: &[char]) -> (r: bool)
    ensures
        r == (node_view(*n).0 == name@),
{
    let c = chars_of(n.name.as_str());
    chars_eq(&c, name)
}

fn first_named_exec(nodes: &Vec<XmlNode>, name: &[char], r: usize, end: usize) -> (o: Option<usize>)
    requires
        r < end <= nodes@.len(),
    ensures
        match o {
            Some(j) => first_named_from(nodes_view(nodes@), name@, r as int, end as int) == Some(j as int) && r <= j < end,
            None => first_named_from(nodes_view(nodes@), name@, r as int, end as int) is None,
        },
{
    let ghost ns = nodes_view(nodes@);
    let mut j = r;
    while j < end
        invariant
            r <= j <= end <= nodes@.len(),
            ns == nodes_view(nodes@),
            first_named_from(ns, name@, r as int, end as int) == first_named_from(ns, name@, j as int, end as int),
        decreases end - j,
    {
        if name_is(&nodes[j], name) {
            return Some(j);
        }
        j += 1;
    }
    None
}

/// The text of the first node named `name` in the subtree of `r`.
fn named_text_exec(nodes: &Vec<XmlNode>, r: usize, name: &str) -> (o: Option<Vec<char>>)
    requires
        r < nodes@.len(),
    ensures
        match o {
            Some(t) => named_text(nodes_view(nodes@), r as int, name@) == Some(t@),
            None => named_text(nodes_view(nodes@), r as int, name@) is None,
        },
{
    let end = subtree_end_exec(nodes, r);
    let want = chars_of(name);
    match first_named_exec(nodes, &want, r, end) {
        Some(j) => match &nodes[j].text {
            Some(t) => Some(chars_of(t.as_str())),
            None => None,
        },
        None => None,
    }
}

fn has_child_exec(nodes: &Vec<XmlNode>, j: usize, name: &[char]) -> (b: bool)
    requires
        j < nodes.len(),
    ensures
        b == has_child_named(nodes_view(nodes@), j as int, name@),
{
    let ghost ns = nodes_view(nodes@);
    let end = subtree_end_exec(nodes, j);
    let mut k = j + 1;
    while k < end
        invariant
            j < k <= end <= nodes@.len(),
            ns == nodes_view(nodes@),
            end == subtree_end(ns, j as int),
            forall|q: int| j < q < k ==> !((#[trigger] ns[q]).2 == ns[j as int].2 + 1 && ns[q].0 == name@),
        decreases end - k,
    {
        assert(ns[k as int].2 == nodes@[k as int].depth);
        assert(ns[j as int].2 == nodes@[j as int].depth);
        if nodes[k].depth == nodes[j].depth + 1 && name_is(&nodes[k], name) {
            return true;
        }
        k += 1;
    }
    false
}

fn is_collection_exec(nodes: &Vec<XmlNode>, r: usize) -> (b: bool)
    requires
        r < nodes@.len(),
    ensures
        b == is_collection(nodes_view(nodes@), r as int),
{
    let ghost ns = nodes_view(nodes@);
    let end = subtree_end_exec(nodes, r);
    let rt = chars_of("resourcetype");
    let col = chars_of("collection");
    let mut j = r;
    while j < end
        invariant
            r <= j <= end <= nodes@.len(),
            ns == nodes_view(nodes@),
            end == subtree_end(ns, r as int),
            rt@ == "resourcetype"@,
            col@ == "collection"@,
            forall|q: int| r <= q < j ==> !((#[trigger] ns[q]).0 == "resourcetype"@ && has_child_named(ns, q, "collection"@)),
        decreases end - j,
    {
        if name_is(&nodes[j], &rt) && has_child_exec(nodes, j, &col) {
            return true;
        }
        j += 1;
    }
    false
}

/// An entry of a WebDAV folder.
#[derive(Debug, Clone)]
pub struct Entry {
    pub name: String,
    /// Path relative to the WebDAV root, without slashes at either end.
    pub path: String,
    pub is_folder: bool,
    /// Documents can be created here (ownCloud's «C» permission, or unknown
    /// → true except under the browse-only folder).
    pub can_upload: bool,
    pub size: Option<u64>,
}

/// A listed folder.
#[derive(Debug, Clone)]
pub struct Listing {
    pub path: String,
    pub can_upload: bool,
    pub entries: Vec<Entry>,
}

/// The view of an entry.
pub open spec fn entry_view(e: Entry) -> EntrySpec {
    EntrySpec { name: e.name@, path: e.path@, is_folder: e.is_folder, can_upload: e.can_upload, size: e.size }
}

/// The view of a listing.
pub open spec fn listing_view(l: Listing) -> (Seq<char>, bool, Seq<EntrySpec>) {
    (l.path@, l.can_upload, l.entries@.map_values(|e: Entry| entry_view(e)))
}

fn has_char_exec(v: &[char], c: char) -> (b: bool)
    ensures
        b == has_char(v@, c),
{
    let mut i: usize = 0;
    while i < v.len()
        invariant
            i <= v@.len(),
            forall|j: int| 0 <= j < i ==> v@[j] != c,
        decreases v@.len() - i,
    {
        if v[i] == c {
            return true;
        }
        i += 1;
    }
    false
}

/// What the `response` at node `r` contributes.
fn classify_exec(nodes: &Vec<XmlNode>, r: usize, folder: &Vec<char>, self_path: &Vec<char>) -> (o: (u8, bool, Option<Entry>))
    requires
        r < nodes@.len(),
    ensures
        match classify(nodes_view(nodes@), r as int, folder@, self_path@) {
            ResponseSpec::Skip => o.0 == 0,
            ResponseSpec::Itself(c) => o.0 == 1 && o.1 == c,
            ResponseSpec::Item(e) => o.0 == 2 && o.2 is Some && entry_view(o.2.unwrap()) == e,
        },
{
    let ghost ns = nodes_view(nodes@);
    let href = match named_text_exec(nodes, r, "href") {
        Some(t) => trim_chars(&t),
        None => Vec::new(),
    };
    proof {
        if named_text(ns, r as int, "href"@) is None {
            assert(trim(Seq::<char>::empty()) =~= Seq::<char>::empty()) by {
                reveal_with_fuel(crate::text::strip_front, 2);
                reveal_with_fuel(crate::text::strip_back, 2);
            }
        }
    }
    let decoded = percent_decode(string_from_chars(&href).as_str());
    let path_only = match parse_url_path(decoded.as_str()) {
        Some(p) => p,
        None => decoded,
    };
    let clean = trim_end_char_exec(&chars_of(path_only.as_str()), '/');
    assert(clean@ == response_path(ns, r as int));
    let can_upload = match named_text_exec(nodes, r, "permissions") {
        Some(p) => has_char_exec(&trim_chars(&p), 'C'),
        None => true,
    };
    let vistas = chars_of(CARPETA_VISTAS);
    if chars_eq(&clean, self_path) {
        return (1, can_upload && !has_prefix(folder, &vistas), None);
    }
    let name = after_last_slash_exec(&clean);
    if name.len() == 0 {
        return (0, false, None);
    }
    let display = match named_text_exec(nodes, r, "displayname") {
        Some(t) => {
            let tt = trim_chars(&t);
            if tt.len() > 0 { tt } else { name.clone() }
        },
        None => name.clone(),
    };
    let rel = if folder.len() == 0 {
        name
    } else {
        let mut v = folder.clone();
        v.push('/');
        push_all(&mut v, &name);
        v
    };
    assert(rel@ == (if folder@.len() == 0 { after_last_slash(clean@) } else { folder@ + seq!['/'] + after_last_slash(clean@) }));
    let is_folder = is_collection_exec(nodes, r);
    let size = match named_text_exec(nodes, r, "getcontentlength") {
        Some(t) => parse_u64(&trim_chars(&t)),
        None => None,
    };
    let in_vistas = has_prefix(&rel, &vistas);
    let e = Entry {
        name: string_from_chars(&display),
        path: string_from_chars(&rel),
        is_folder,
        can_upload: is_folder && can_upload && !in_vistas,
        size,
    };
    (2, false, Some(e))
}


/// Whether `a` sorts strictly before `b` as text.
fn lex_lt_exec(a: &[char], b: &[char]) -> (r: bool)
    ensures
        r == lex_lt(a@, b@),
{
    let mut i: usize = 0;
    assert(a@.skip(0) =~= a@);
    assert(b@.skip(0) =~= b@);
    while i < a.len() && i < b.len() && a[i] == b[i]
        invariant
            i <= a@.len(),
            i <= b@.len(),
            lex_lt(a@, b@) == lex_lt(a@.skip(i as int), b@.skip(i as int)),
        decreases a@.len() - i,
    {
        assert(a@.skip(i as int).drop_first() =~= a@.skip(i + 1));
        assert(b@.skip(i as int).drop_first() =~= b@.skip(i + 1));
        i += 1;
    }
    if i == a.len() {
        assert(a@.skip(i as int).len() == 0);
        i < b.len()
    } else if i == b.len() {
        assert(b@.skip(i as int).len() == 0);
        false
    } else {
        assert(a@.skip(i as int)[0] == a@[i as int]);
        assert(b@.skip(i as int)[0] == b@[i as int]);
        a[i] < b[i]
    }
}

proof fn lemma_insert_entry_at(s: Seq<EntrySpec>, x: EntrySpec, j: int)
    requires
        0 <= j <= s.len(),
        forall|k: int| 0 <= k < j ==> !sorts_before(x, #[trigger] s[k]),
        j == s.len() || sorts_before(x, s[j]),
    ensures
        insert_entry(s, x) == s.insert(j, x),
    decreases j,
{
    if s.len() == 0 {
        assert(s.insert(j, x) =~= seq![x]);
    } else if j == 0 {
        assert(s.insert(0, x) =~= seq![x] + s);
    } else {
        assert(!sorts_before(x, s[0]));
        lemma_insert_entry_at(s.drop_first(), x, j - 1);
        assert(s.insert(j, x) =~= seq![s[0]] + s.drop_first().insert(j - 1, x));
    }
}

/// Parses a PROPFIND (depth 1) answer for `folder`, whose own address path
/// is `self_path`: folders first, then files, each by name ignoring case.
pub fn parse_multistatus(xml: &str, folder: &str, self_path: &str) -> (r: Result<Listing, String>)
    ensures
        match r {
            Ok(l) => listing_of(xml@, folder@, self_path@) == Ok::<(Seq<char>, bool, Seq<EntrySpec>), Seq<char>>(listing_view(l)),
            Err(e) => listing_of(xml@, folder@, self_path@) == Err::<(Seq<char>, bool, Seq<EntrySpec>), Seq<char>>(e@),
        },
{
    let nodes = match parse_xml(xml) {
        Ok(n) => n,
        Err(e) => {
            let mut msg = chars_of("Respuesta WebDAV no válida: ");
            push_all(&mut msg, &chars_of(e.as_str()));
            return Err(string_from_chars(&msg));
        },
    };
    assert(xml_nodes(xml@) == Ok::<Seq<(Seq<char>, Option<Seq<char>>, int)>, Seq<char>>(nodes_view(nodes@)));
    Ok(listing_from_nodes(&nodes, folder, self_path))
}

/// The listing of `folder`, whose own address path is `self_path`, from the
/// parsed nodes of a PROPFIND (depth 1) answer: folders first, then files,
/// each by name ignoring case.
pub fn listing_from_nodes(nodes: &Vec<XmlNode>, folder: &str, self_path: &str) -> (r: Listing)
    ensures
        listing_view(r) == listing_from(nodes_view(nodes@), folder@, self_path@),
{
    let ghost ns = nodes_view(nodes@);
    let folder_norm = trim_end_char_exec(&trim_start_char_exec(&chars_of(folder), '/'), '/');
    let self_norm = trim_end_char_exec(&chars_of(percent_decode(self_path).as_str()), '/');
    let vistas = chars_of(CARPETA_VISTAS);
    let response = chars_of("response");
    // The entries in the order of the answer.
    let mut found: Vec<Entry> = Vec::new();
    let mut self_can_upload = !has_prefix(&folder_norm, &vistas);
    let mut k: usize = 0;
    while k < nodes.len()
        invariant
            k <= nodes@.len(),
            ns == nodes_view(nodes@),
            response@ == "response"@,
            (found@.map_values(|e: Entry| entry_view(e)), self_can_upload)
                == scan_responses(ns, folder_norm@, self_norm@, k as int),
        decreases nodes@.len() - k,
    {
        if name_is(&nodes[k], &response) {
            let ghost before = found@.map_values(|e: Entry| entry_view(e));
            let (kind, own, item) = classify_exec(&nodes, k, &folder_norm, &self_norm);
            if kind == 1 {
                self_can_upload = own;
            } else if kind == 2 {
                match item {
                    Some(e) => {
                        found.push(e);
                        assert(found@.map_values(|e: Entry| entry_view(e)) =~= before.push(entry_view(e)));
                    },
                    None => {},
                }
            }
        }
        k += 1;
    }
    // Stable insertion sort: folders first, then by name ignoring case.
    let ghost unsorted = found@.map_values(|e: Entry| entry_view(e));
    let mut sorted: Vec<Entry> = Vec::new();
    let mut keys: Vec<Vec<char>> = Vec::new();
    let mut i: usize = 0;
    while i < found.len()
        invariant
            i <= found@.len(),
            unsorted == found@.map_values(|e: Entry| entry_view(e)),
            sorted@.len() == keys@.len(),
            forall|t: int| 0 <= t < keys@.len() ==> #[trigger] keys@[t]@ == str_lowercase(sorted@[t].name@),
            sorted@.map_values(|e: Entry| entry_view(e)) == sort_entries(unsorted.take(i as int)),
        decreases found@.len() - i,
    {
        let x = copy_entry(&found[i]);
        let xk = chars_of(string_to_lowercase(x.name.as_str()).as_str());
        let ghost sv = sorted@.map_values(|e: Entry| entry_view(e));
        let ghost xv = entry_view(x);
        let mut j: usize = 0;
        while j < sorted.len()
            && !((x.is_folder && !sorted[j].is_folder)
                || (x.is_folder == sorted[j].is_folder && lex_lt_exec(&xk, &keys[j])))
            invariant
                j <= sorted@.len(),
                sorted@.len() == keys@.len(),
                sv == sorted@.map_values(|e: Entry| entry_view(e)),
                xv == entry_view(x),
                xk@ == str_lowercase(x.name@),
                forall|t: int| 0 <= t < keys@.len() ==> #[trigger] keys@[t]@ == str_lowercase(sorted@[t].name@),
                forall|t: int| 0 <= t < j ==> !sorts_before(xv, #[trigger] sv[t]),
            decreases sorted@.len() - j,
        {
            assert(sv[j as int] == entry_view(sorted@[j as int]));
            j += 1;
        }
        proof {
            if j < sorted@.len() {
                assert(sv[j as int] == entry_view(sorted@[j as int]));
            }
            lemma_insert_entry_at(sv, xv, j as int);
            let t = unsorted.take(i + 1);
            assert(t.drop_last() =~= unsorted.take(i as int));
            assert(t.last() == xv);
        }
        let ghost old_sorted = sorted@;
        let ghost old_keys = keys@;
        sorted.insert(j, x);
        keys.insert(j, xk);
        assert(sorted@.map_values(|e: Entry| entry_view(e)) =~= sv.insert(j as int, xv));
        assert forall|t: int| 0 <= t < keys@.len() implies #[trigger] keys@[t]@ == str_lowercase(sorted@[t].name@) by {
            if t < j {
                assert(keys@[t] == old_keys[t] && sorted@[t] == old_sorted[t]);
            } else if t > j {
                assert(keys@[t] == old_keys[t - 1] && sorted@[t] == old_sorted[t - 1]);
            }
        }
        i += 1;
    }
    assert(unsorted.take(found@.len() as int) =~= unsorted);
    Listing { path: string_from_chars(&folder_norm), can_upload: self_can_upload, entries: sorted }
}

/// A copy of an entry.
fn copy_entry(e: &Entry) -> (r: Entry)
    ensures
        entry_view(r) == entry_view(*e),
{
    Entry {
        name: e.name.clone(),
        path: e.path.clone(),
        is_folder: e.is_folder,
        can_upload: e.can_upload,
        size: e.size,
    }
}


// ---------------------------------------------------------------------------
// Connection, uploads and statuses
// ---------------------------------------------------------------------------

/// What a successful connection test reports.
#[derive(Debug, Clone)]
pub struct ConnectionInfo {
    pub web_url: String,
    pub root_folders: Vec<String>,
}

/// A file that was uploaded.
#[derive(Debug, Clone)]
pub struct Uploaded {
    pub file_name: String,
    pub remote_path: String,
    /// true = new document (201), false = new version of an existing one (204).
    pub created: bool,
}

/// The names of the folders of a listing, in order.
pub open spec fn folder_names(es: Seq<Entry>) -> Seq<Seq<char>>
    decreases es.len(),
{
    if es.len() == 0 {
        seq![]
    } else if es.last().is_folder {
        folder_names(es.drop_last()).push(es.last().name@)
    } else {
        folder_names(es.drop_last())
    }
}

/// The connection report of an instance whose root folder was listed.
pub fn connection_info(web_url: &str, root: &Listing) -> (r: ConnectionInfo)
    ensures
        r.web_url@ == web_url@,
        r.root_folders@.map_values(|s: String| s@) == folder_names(root.entries@),
{
    let mut names: Vec<String> = Vec::new();
    let mut i: usize = 0;
    while i < root.entries.len()
        invariant
            i <= root.entries@.len(),
            names@.map_values(|s: String| s@) == folder_names(root.entries@.take(i as int)),
        decreases root.entries@.len() - i,
    {
        let ghost before = names@.map_values(|s: String| s@);
        let e = &root.entries[i];
        proof {
            let t = root.entries@.take(i + 1);
            assert(t.drop_last() =~= root.entries@.take(i as int));
        }
        if e.is_folder {
            names.push(e.name.clone());
            assert(names@.map_values(|s: String| s@) =~= before.push(e.name@));
        }
        i += 1;
    }
    assert(root.entries@.take(root.entries@.len() as int) =~= root.entries@);
    ConnectionInfo { web_url: string_from_chars(&chars_of(web_url)), root_folders: names }
}

/// `s` without any number of leading copies of `p` (`trim_start_matches(p)`).
pub open spec fn trim_start_str(s: Seq<char>, p: Seq<char>) -> Seq<char>
    decreases s.len(),
{
    if p.len() > 0 && starts_with(s, p) { trim_start_str(s.skip(p.len() as int), p) } else { s }
}

fn trim_start_str_exec(v: &[char], p: &[char]) -> (r: Vec<char>)
    ensures
        r@ == trim_start_str(v@, p@),
{
    let mut cur: Vec<char> = Vec::new();
    push_all(&mut cur, v);
    assert(cur@ =~= v@);
    while p.len() > 0 && has_prefix(&cur, p)
        invariant
            trim_start_str(v@, p@) == trim_start_str(cur@, p@),
        decreases cur@.len(),
    {
        let mut next: Vec<char> = Vec::new();
        let mut k = p.len();
        while k < cur.len()
            invariant
                p@.len() <= k <= cur@.len(),
                next@ == cur@.subrange(p@.len() as int, k as int),
            decreases cur@.len() - k,
        {
            next.push(cur[k]);
            k += 1;
            assert(next@ =~= cur@.subrange(p@.len() as int, k as int));
        }
        assert(next@ =~= cur@.skip(p@.len() as int));
        cur = next;
    }
    cur
}

/// The explanation shown for an HTTP status of the server.
pub open spec fn status_message(code: u16) -> Seq<char> {
    if code == 401 {
        "Credenciales rechazadas. Revisa el correo y la contraseña de aplicación (iurdav_…)."@
    } else if code == 403 {
        "Sin permiso para esa carpeta o usuario desactivado."@
    } else if code == 404 {
        "El servidor no expone /webdav. Un administrador debe activar WebDAV en la instancia (Ajustes → WebDAV) y reiniciar."@
    } else if code == 405 {
        "Operación no permitida por el servidor en esa ruta."@
    } else if code == 413 {
        "El archivo supera el tamaño máximo que acepta la instancia."@
    } else {
        "El servidor respondió "@ + status_text(code) + "."@
    }
}

/// Explains an HTTP status of the WebDAV server in words.
pub fn explain_status(code: u16) -> (r: String)
    requires
        100 <= code <= 999,
    ensures
        r@ == status_message(code),
{
    if code == 401 {
        string_from_chars(&chars_of("Credenciales rechazadas. Revisa el correo y la contraseña de aplicación (iurdav_…)."))
    } else if code == 403 {
        string_from_chars(&chars_of("Sin permiso para esa carpeta o usuario desactivado."))
    } else if code == 404 {
        string_from_chars(&chars_of("El servidor no expone /webdav. Un administrador debe activar WebDAV en la instancia (Ajustes → WebDAV) y reiniciar."))
    } else if code == 405 {
        string_from_chars(&chars_of("Operación no permitida por el servidor en esa ruta."))
    } else if code == 413 {
        string_from_chars(&chars_of("El archivo supera el tamaño máximo que acepta la instancia."))
    } else {
        let mut v = chars_of("El servidor respondió ");
        push_all(&mut v, &chars_of(status_display(code).as_str()));
        push_all(&mut v, &chars_of("."));
        string_from_chars(&v)
    }
}

/// What an upload answered: a document for 201, 200 and 204 (created only
/// for 201), else the explained error.
pub open spec fn upload_result(name: Seq<char>, url_path: Seq<char>, code: u16) -> Result<(Seq<char>, Seq<char>, bool), Seq<char>> {
    if code == 201 || code == 200 || code == 204 {
        Ok((name, trim_start_str(percent_decoded(url_path), "/webdav/"@), code == 201))
    } else {
        Err(name + ": "@ + status_message(code))
    }
}

/// The outcome of the upload of `name` to the address whose path is
/// `url_path`, given the server's status.
pub fn upload_outcome(name: &str, url_path: &str, code: u16) -> (r: Result<Uploaded, String>)
    requires
        100 <= code <= 999,
    ensures
        match r {
            Ok(u) => upload_result(name@, url_path@, code) == Ok::<(Seq<char>, Seq<char>, bool), Seq<char>>((u.file_name@, u.remote_path@, u.created)),
            Err(e) => upload_result(name@, url_path@, code) == Err::<(Seq<char>, Seq<char>, bool), Seq<char>>(e@),
        },
{
    if code == 201 || code == 200 || code == 204 {
        let decoded = percent_decode(url_path);
        let remote = trim_start_str_exec(&chars_of(decoded.as_str()), &chars_of("/webdav/"));
        Ok(Uploaded { file_name: string_from_chars(&chars_of(name)), remote_path: string_from_chars(&remote), created: code == 201 })
    } else {
        let mut v = chars_of(name);
        push_all(&mut v, &chars_of(": "));
        push_all(&mut v, &chars_of(explain_status(code).as_str()));
        Err(string_from_chars(&v))
    }
}

// ---------------------------------------------------------------------------
// Content types
// ---------------------------------------------------------------------------

/// `Path::extension` of `p` as text, with the path rules of the target that
/// the library is built for (fixed for a build).
pub uninterp spec fn path_extension(p: Seq<char>) -> Option<Seq<char>>;

/// Calls `Path::extension` (and `OsStr::to_str`, lossless for a path made
/// from a `str`); the result is named `path_extension`.
#[verifier::external_body]
pub(crate) fn extension_of(p: &str) -> (r: Option<String>)
    ensures
        opt_string(r) == path_extension(p@),
{
    std::path::Path::new(p).extension().and_then(|e| e.to_str()).map(str::to_string)
}

/// ASCII letters in lowercase (`str::to_ascii_lowercase`).
pub open spec fn ascii_lowercase(s: Seq<char>) -> Seq<char> {
    s.map_values(|c: char| crate::vocab::ascii_lower(c))
}

/// The MIME type announced for a file with extension `ext`.
pub open spec fn content_type_of(ext: Option<Seq<char>>) -> Seq<char> {
    match ext {
        None => "application/octet-stream"@,
        Some(e0) => {
            let e = ascii_lowercase(e0);
            if e == "srt"@ { "application/x-subrip"@ }
            else if e == "vtt"@ { "text/vtt"@ }
            else if e == "txt"@ { "text/plain; charset=utf-8"@ }
            else if e == "md"@ || e == "markdown"@ { "text/markdown; charset=utf-8"@ }
            else if e == "json"@ { "application/json"@ }
            else if e == "wav"@ { "audio/wav"@ }
            else if e == "mp3"@ { "audio/mpeg"@ }
            else if e == "m4a"@ { "audio/mp4"@ }
            else if e == "ogg"@ || e == "oga"@ || e == "opus"@ { "audio/ogg"@ }
            else if e == "flac"@ { "audio/flac"@ }
            else if e == "mp4"@ || e == "m4v"@ { "video/mp4"@ }
            else if e == "mkv"@ { "video/x-matroska"@ }
            else if e == "webm"@ { "video/webm"@ }
            else { "application/octet-stream"@ }
        },
    }
}

fn is_ext(e: &Vec<char>, lit: &str) -> (r: bool)
    ensures
        r == (e@ == lit@),
{
    chars_eq(e, &chars_of(lit))
}

/// The MIME type announced when uploading the file at `path`.
pub fn content_type_for(path: &str) -> (r: &'static str)
    ensures
        r@ == content_type_of(path_extension(path@)),
{
    let ext = match extension_of(path) {
        Some(e) => e,
        None => return "application/octet-stream",
    };
    let raw = chars_of(ext.as_str());
    let mut e: Vec<char> = Vec::new();
    let mut i: usize = 0;
    while i < raw.len()
        invariant
            i <= raw@.len(),
            e@ == ascii_lowercase(raw@.take(i as int)),
        decreases raw@.len() - i,
    {
        let c = raw[i];
        let l = if 'A' <= c && c <= 'Z' { (((c as u8) + 32) as u8) as char } else { c };
        e.push(l);
        i += 1;
        assert(e@ =~= ascii_lowercase(raw@.take(i as int)));
    }
    assert(raw@.take(raw@.len() as int) =~= raw@);
    if is_ext(&e, "srt") { "application/x-subrip" }
    else if is_ext(&e, "vtt") { "text/vtt" }
    else if is_ext(&e, "txt") { "text/plain; charset=utf-8" }
    else if is_ext(&e, "md") || is_ext(&e, "markdown") { "text/markdown; charset=utf-8" }
    else if is_ext(&e, "json") { "application/json" }
    else if is_ext(&e, "wav") { "audio/wav" }
    else if is_ext(&e, "mp3") { "audio/mpeg" }
    else if is_ext(&e, "m4a") { "audio/mp4" }
    else if is_ext(&e, "ogg") || is_ext(&e, "oga") || is_ext(&e, "opus") { "audio/ogg" }
    else if is_ext(&e, "flac") { "audio/flac" }
    else if is_ext(&e, "mp4") || is_ext(&e, "m4v") { "video/mp4" }
    else if is_ext(&e, "mkv") { "video/x-matroska" }
    else if is_ext(&e, "webm") { "video/webm" }
    else { "application/octet-stream" }
}

// ---------------------------------------------------------------------------
// The account
// ---------------------------------------------------------------------------

/// What is said when the domain is blank.
pub const MISSING_DOMAIN: &'static str = "Indica el dominio de tu instancia (p. ej. 2.ds.iurefficient.com)";
/// What is said when the e-mail or the application password is blank.
pub const MISSING_CREDENTIALS: &'static str = "Faltan el correo o la contraseña de aplicación";

/// The address of an instance as the user wrote it: trimmed, without
/// trailing slashes, and with `https://` in front when it has no scheme;
/// `None` when nothing is left.
pub open spec fn domain_address_of(domain: Seq<char>) -> Option<Seq<char>> {
    let d = trim_end_char(trim(domain), '/');
    if d.len() == 0 {
        None
    } else if crate::vocab::contains_sub(d, "://"@) {
        Some(d)
    } else {
        Some("https://"@ + d)
    }
}

/// Accepts `2.ds.iurefficient.com`, `https://2.ds.iurefficient.com/` or an
/// address with a path: the text to parse as the instance's URL, or the
/// error for a blank domain.
pub fn domain_address(domain: &str) -> (r: Result<String, String>)
    ensures
        match domain_address_of(domain@) {
            Some(a) => r is Ok && r->Ok_0@ == a,
            None => r is Err && r->Err_0@ == MISSING_DOMAIN@,
        },
{
    let d = trim_end_char_exec(&trim_chars(&chars_of(domain)), '/');
    if d.len() == 0 {
        return Err(string_from_chars(&chars_of(MISSING_DOMAIN)));
    }
    if crate::vocab::contains_chars(&d, &chars_of("://")) {
        Ok(string_from_chars(&d))
    } else {
        let mut v = chars_of("https://");
        push_all(&mut v, &d);
        Ok(string_from_chars(&v))
    }
}

/// The account's e-mail and application password, trimmed; both must be
/// given.
pub fn credentials(email: &str, password: &str) -> (r: Result<(String, String), String>)
    ensures
        trim(email@).len() == 0 || trim(password@).len() == 0 ==> r is Err && r->Err_0@ == MISSING_CREDENTIALS@,
        !(trim(email@).len() == 0 || trim(password@).len() == 0) ==> r is Ok
            && r->Ok_0.0@ == trim(email@) && r->Ok_0.1@ == trim(password@),
{
    let e = trim_chars(&chars_of(email));
    let p = trim_chars(&chars_of(password));
    if e.len() == 0 || p.len() == 0 {
        return Err(string_from_chars(&chars_of(MISSING_CREDENTIALS)));
    }
    Ok((string_from_chars(&e), string_from_chars(&p)))
}

/// The non-empty pieces of `s` between slashes, in order.
pub open spec fn folder_parts(s: Seq<char>) -> Seq<Seq<char>> {
    crate::vocab::split_on(s, '/').filter(|x: Seq<char>| x.len() > 0)
}

/// The path segments of a WebDAV folder (`folder.split('/')` without the
/// empty pieces).
pub fn folder_segments(folder: &str) -> (r: Vec<String>)
    ensures
        r@.map_values(|x: String| x@) == folder_parts(folder@),
{
    let pieces = crate::vocab::split_chars(&chars_of(folder), '/');
    let ghost p = pieces@.map_values(|w: Vec<char>| w@);
    let mut out: Vec<String> = Vec::new();
    let mut k: usize = 0;
    while k < pieces.len()
        invariant
            k <= pieces@.len(),
            p == pieces@.map_values(|w: Vec<char>| w@),
            out@.map_values(|x: String| x@) == p.take(k as int).filter(|x: Seq<char>| x.len() > 0),
        decreases pieces@.len() - k,
    {
        let ghost before = out@.map_values(|x: String| x@);
        proof {
            let t = p.take(k + 1);
            assert(t.drop_last() =~= p.take(k as int));
            assert(t.last() == pieces@[k as int]@);
            p.take(k as int).lemma_filter_push(t.last(), |x: Seq<char>| x.len() > 0);
            assert(t =~= p.take(k as int).push(t.last()));
        }
        if pieces[k].len() > 0 {
            let w = string_from_chars(&pieces[k]);
            out.push(w);
            assert(out@.map_values(|x: String| x@) =~= before.push(w@));
        }
        k += 1;
    }
    assert(p.take(pieces@.len() as int) =~= p);
    out
}

/// An account of an instance: the base address (the instance's root, with
/// the path `/` and no query or fragment), the e-mail and the application
/// password.
#[derive(Debug, Clone)]
pub struct Account {
    pub base: String,
    pub email: String,
    pub password: String,
}

/// The address `address` parsed as an absolute URL (url's `Url::parse`)
/// with its path set to `/` and its query and fragment removed, as text;
/// or the url crate's message when it does not parse.
pub uninterp spec fn base_url(address: Seq<char>) -> Result<Seq<char>, Seq<char>>;

/// `Url::parse(address)`, then `set_path("/")`, `set_query(None)`,
/// `set_fragment(None)` and the URL as text; the result is named
/// `base_url`.
#[verifier::external_body]
pub(crate) fn parse_base_url(address: &str) -> (r: Result<String, String>)
    ensures
        match r {
            Ok(b) => base_url(address@) == Ok::<Seq<char>, Seq<char>>(b@),
            Err(e) => base_url(address@) == Err::<Seq<char>, Seq<char>>(e@),
        },
{
    let mut u = url::Url::parse(address).map_err(|e| e.to_string())?;
    u.set_path("/");
    u.set_query(None);
    u.set_fragment(None);
    Ok(u.to_string())
}

/// The WebDAV address under the base address `base`: url's `Url::parse`
/// and `join("/webdav/")`, then, on its path segments, `pop_if_empty` and
/// a `push` of each of `segments` and of `last` (which percent-encodes
/// them); or the message when the base does not parse or cannot be a base.
pub uninterp spec fn webdav_address(base: Seq<char>, segments: Seq<Seq<char>>, last: Seq<char>) -> Result<Seq<char>, Seq<char>>;

/// Builds a WebDAV address with the url crate; the result is named
/// `webdav_address`.
#[verifier::external_body]
pub(crate) fn build_webdav_address(base: &str, segments: &[String], last: &str) -> (r: Result<String, String>)
    ensures
        match r {
            Ok(a) => webdav_address(base@, segments@.map_values(|x: String| x@), last@) == Ok::<Seq<char>, Seq<char>>(a@),
            Err(e) => webdav_address(base@, segments@.map_values(|x: String| x@), last@) == Err::<Seq<char>, Seq<char>>(e@),
        },
{
    let mut u = url::Url::parse(base).and_then(|b| b.join("/webdav/")).map_err(|e| e.to_string())?;
    {
        let mut segs = u.path_segments_mut().map_err(|_| "URL base no válida".to_string())?;
        segs.pop_if_empty();
        for part in segments {
            segs.push(part);
        }
        segs.push(last);
    }
    Ok(u.to_string())
}

/// What creating an account gives: the error for a blank domain, for an
/// address that does not parse, or for missing credentials; otherwise the
/// base address and the trimmed credentials.
pub open spec fn account_of(domain: Seq<char>, email: Seq<char>, password: Seq<char>) -> Result<(Seq<char>, Seq<char>, Seq<char>), Seq<char>> {
    match domain_address_of(domain) {
        None => Err(MISSING_DOMAIN@),
        Some(a) => match base_url(a) {
            Err(e) => Err("Dominio no válido: "@ + e),
            Ok(b) => if trim(email).len() == 0 || trim(password).len() == 0 {
                Err(MISSING_CREDENTIALS@)
            } else {
                Ok((b, trim(email), trim(password)))
            },
        },
    }
}

impl Account {
    /// Accepts `2.ds.iurefficient.com`, `https://2.ds.iurefficient.com/` or
    /// an address with a path; the base is the instance's root.
    pub fn new(domain: &str, email: &str, password: &str) -> (r: Result<Account, String>)
        ensures
            match r {
                Ok(a) => account_of(domain@, email@, password@) == Ok::<(Seq<char>, Seq<char>, Seq<char>), Seq<char>>((a.base@, a.email@, a.password@)),
                Err(e) => account_of(domain@, email@, password@) == Err::<(Seq<char>, Seq<char>, Seq<char>), Seq<char>>(e@),
            },
    {
        let address = domain_address(domain)?;
        let base = match parse_base_url(address.as_str()) {
            Ok(b) => b,
            Err(e) => {
                let mut v = chars_of("Dominio no válido: ");
                push_all(&mut v, &chars_of(e.as_str()));
                return Err(string_from_chars(&v));
            },
        };
        let (email, password) = credentials(email, password)?;
        Ok(Account { base, email, password })
    }

    /// The home page of the instance.
    pub fn web_url(&self) -> (r: String)
        ensures
            r@ == self.base@,
    {
        string_from_chars(&chars_of(self.base.as_str()))
    }

    /// The address of a WebDAV folder (a collection: it ends in a slash).
    pub fn webdav_url(&self, folder: &str) -> (r: Result<String, String>)
        ensures
            match r {
                Ok(a) => webdav_address(self.base@, folder_parts(folder@), seq![]) == Ok::<Seq<char>, Seq<char>>(a@),
                Err(e) => webdav_address(self.base@, folder_parts(folder@), seq![]) == Err::<Seq<char>, Seq<char>>(e@),
            },
    {
        let segs = folder_segments(folder);
        let empty = string_from_chars(&Vec::new());
        build_webdav_address(self.base.as_str(), &segs, empty.as_str())
    }

    /// The address of the file `file_name` in a WebDAV folder.
    pub fn file_url(&self, folder: &str, file_name: &str) -> (r: Result<String, String>)
        ensures
            match r {
                Ok(a) => webdav_address(self.base@, folder_parts(folder@), file_name@) == Ok::<Seq<char>, Seq<char>>(a@),
                Err(e) => webdav_address(self.base@, folder_parts(folder@), file_name@) == Err::<Seq<char>, Seq<char>>(e@),
            },
    {
        let segs = folder_segments(folder);
        build_webdav_address(self.base.as_str(), &segs, file_name)
    }
}

// ---------------------------------------------------------------------------
// Laws
// ---------------------------------------------------------------------------

proof fn lemma_lex_irreflexive(a: Seq<char>)
    ensures
        !lex_lt(a, a),
    decreases a.len(),
{
    if a.len() > 0 {
        lemma_lex_irreflexive(a.drop_first());
    }
}

proof fn lemma_lex_transitive(a: Seq<char>, b: Seq<char>, c: Seq<char>)
    requires
        lex_lt(a, b),
        lex_lt(b, c),
    ensures
        lex_lt(a, c),
    decreases a.len(),
{
    if a.len() > 0 && b.len() > 0 && c.len() > 0 && a[0] == b[0] && b[0] == c[0] {
        lemma_lex_transitive(a.drop_first(), b.drop_first(), c.drop_first());
    }
}

proof fn lemma_lex_total(a: Seq<char>, b: Seq<char>)
    ensures
        a == b || lex_lt(a, b) || lex_lt(b, a),
    decreases a.len(),
{
    if a.len() > 0 && b.len() > 0 {
        if a[0] == b[0] {
            lemma_lex_total(a.drop_first(), b.drop_first());
            if a.drop_first() == b.drop_first() {
                assert(a =~= seq![a[0]] + a.drop_first());
                assert(b =~= seq![b[0]] + b.drop_first());
            }
        } else {
        }
    } else if a.len() == 0 && b.len() == 0 {
        assert(a =~= b);
    }
}

/// `sorts_before` orders entries by a key: it is irreflexive, asymmetric and
/// transitive, and so is "not after".
proof fn lemma_sorts_before_order(x: EntrySpec, y: EntrySpec, z: EntrySpec)
    ensures
        !sorts_before(x, x),
        sorts_before(x, y) ==> !sorts_before(y, x),
        sorts_before(x, y) && sorts_before(y, z) ==> sorts_before(x, z),
        !sorts_before(x, y) && !sorts_before(y, z) ==> !sorts_before(x, z),
{
    let (a, b, c) = (str_lowercase(x.name), str_lowercase(y.name), str_lowercase(z.name));
    lemma_lex_irreflexive(a);
    lemma_lex_irreflexive(b);
    lemma_lex_total(a, b);
    lemma_lex_total(b, c);
    lemma_lex_total(a, c);
    if lex_lt(a, b) && lex_lt(b, a) {
        lemma_lex_transitive(a, b, a);
    }
    if lex_lt(a, b) && lex_lt(b, c) {
        lemma_lex_transitive(a, b, c);
    }
    if lex_lt(c, b) && lex_lt(b, a) {
        lemma_lex_transitive(c, b, a);
    }
    if lex_lt(a, c) && lex_lt(c, a) {
        lemma_lex_transitive(a, c, a);
    }
    if lex_lt(b, c) && lex_lt(c, b) {
        lemma_lex_transitive(b, c, b);
    }
}

/// No entry sorts before one that comes earlier.
pub open spec fn entries_sorted(s: Seq<EntrySpec>) -> bool {
    forall|i: int, j: int| 0 <= i < j < s.len() ==> !sorts_before(#[trigger] s[j], #[trigger] s[i])
}

/// The first index at or after `i` of an entry that `x` sorts before.
spec fn entry_insert_index(s: Seq<EntrySpec>, x: EntrySpec, i: int) -> int
    decreases s.len() - i,
{
    if i < 0 || i >= s.len() || sorts_before(x, s[i]) { i } else { entry_insert_index(s, x, i + 1) }
}

proof fn lemma_entry_insert_index(s: Seq<EntrySpec>, x: EntrySpec, i: int)
    requires
        0 <= i <= s.len(),
        forall|k: int| 0 <= k < i ==> !sorts_before(x, #[trigger] s[k]),
    ensures
        i <= entry_insert_index(s, x, i) <= s.len(),
        forall|k: int| 0 <= k < entry_insert_index(s, x, i) ==> !sorts_before(x, #[trigger] s[k]),
        entry_insert_index(s, x, i) == s.len() || sorts_before(x, s[entry_insert_index(s, x, i)]),
    decreases s.len() - i,
{
    if i < s.len() && !sorts_before(x, s[i]) {
        lemma_entry_insert_index(s, x, i + 1);
    }
}

proof fn lemma_insert_entry_sorted(s: Seq<EntrySpec>, x: EntrySpec)
    requires
        entries_sorted(s),
    ensures
        entries_sorted(insert_entry(s, x)),
        insert_entry(s, x).to_multiset() == s.to_multiset().insert(x),
{
    lemma_entry_insert_index(s, x, 0);
    let j = entry_insert_index(s, x, 0);
    lemma_insert_entry_at(s, x, j);
    let t = s.insert(j, x);
    assert forall|k: int| 0 <= k < t.len() implies #[trigger] t[k] == (if k < j { s[k] } else if k == j { x } else { s[k - 1] }) by {}
    assert forall|a: int, b: int| 0 <= a < b < t.len() implies !sorts_before(#[trigger] t[b], #[trigger] t[a]) by {
        if a < j {
            if b == j {
                assert(!sorts_before(x, s[a]));
            } else if b > j {
                assert(!sorts_before(s[b - 1], s[a]));
            }
        } else if a == j {
            assert(j < s.len());
            if b - 1 > j {
                assert(!sorts_before(s[b - 1], s[j]));
            }
            lemma_sorts_before_order(x, s[j], s[b - 1]);
            lemma_sorts_before_order(s[b - 1], s[j], x);
            lemma_sorts_before_order(s[b - 1], x, s[j]);
        } else {
            assert(!sorts_before(s[b - 1], s[a - 1]));
        }
    }
    vstd::seq_lib::to_multiset_insert(s, j, x);
}

proof fn lemma_sort_entries(s: Seq<EntrySpec>)
    ensures
        entries_sorted(sort_entries(s)),
        sort_entries(s).to_multiset() == s.to_multiset(),
    decreases s.len(),
{
    if s.len() == 0 {
        assert(sort_entries(s) =~= s);
    } else {
        lemma_sort_entries(s.drop_last());
        lemma_insert_entry_sorted(sort_entries(s.drop_last()), s.last());
        vstd::seq_lib::to_multiset_build(s.drop_last(), s.last());
        assert(s.drop_last().push(s.last()) =~= s);
    }
}

/// A listing shows folders before files, and within each group the names
/// in order ignoring case: no entry sorts before one listed earlier. The
/// entries are exactly those that the `response` elements describe.
pub proof fn listing_sorted(xml: Seq<char>, folder: Seq<char>, self_path: Seq<char>)
    requires
        xml_nodes(xml) is Ok,
    ensures
        listing_of(xml, folder, self_path) is Ok,
        entries_sorted(listing_of(xml, folder, self_path)->Ok_0.2),
        listing_of(xml, folder, self_path)->Ok_0.2.to_multiset() == scan_responses(
            xml_nodes(xml)->Ok_0,
            trim_end_char(trim_start_char(folder, '/'), '/'),
            trim_end_char(percent_decoded(self_path), '/'),
            xml_nodes(xml)->Ok_0.len() as int,
        ).0.to_multiset(),
{
    let ns = xml_nodes(xml)->Ok_0;
    let f = trim_end_char(trim_start_char(folder, '/'), '/');
    let sp = trim_end_char(percent_decoded(self_path), '/');
    lemma_sort_entries(scan_responses(ns, f, sp, ns.len() as int).0);
}

/// The create permission that a response's `permissions` text grants (a `C`
/// anywhere in it), or true when the response gives no permissions.
pub open spec fn grants_create(ns: Nodes, r: int) -> bool {
    match named_text(ns, r, "permissions"@) {
        Some(p) => exists|i: int| 0 <= i < trim(p).len() && trim(p)[i] == 'C',
        None => true,
    }
}

/// Documents can be created in a listed folder exactly when its
/// permissions hold a `C` anywhere (or there are none) and it is not under
/// the browse-only folder; files never accept them. The same holds of the
/// listed folder itself.
pub proof fn upload_permission_law(ns: Nodes, r: int, folder: Seq<char>, self_path: Seq<char>)
    ensures
        classify(ns, r, folder, self_path) matches ResponseSpec::Item(e) ==> e.can_upload == (e.is_folder
            && grants_create(ns, r) && !starts_with(e.path, CARPETA_VISTAS@)),
        classify(ns, r, folder, self_path) matches ResponseSpec::Itself(u) ==> u == (grants_create(ns, r)
            && !starts_with(folder, CARPETA_VISTAS@)),
{
}

proof fn lemma_scan_items(ns: Nodes, folder: Seq<char>, self_path: Seq<char>, k: int, e: EntrySpec)
    requires
        scan_responses(ns, folder, self_path, k).0.contains(e),
    ensures
        exists|r: int| 0 <= r < k && ns[r].0 == "response"@ && #[trigger] classify(ns, r, folder, self_path) == ResponseSpec::Item(e),
    decreases k,
{
    if k > 0 {
        let prev = scan_responses(ns, folder, self_path, k - 1).0;
        if prev.contains(e) {
            lemma_scan_items(ns, folder, self_path, k - 1, e);
            let r = choose|r: int| 0 <= r < k - 1 && ns[r].0 == "response"@ && #[trigger] classify(ns, r, folder, self_path) == ResponseSpec::Item(e);
            assert(0 <= r < k);
        } else {
            let cur = scan_responses(ns, folder, self_path, k).0;
            let j = choose|j: int| 0 <= j < cur.len() && cur[j] == e;
            if ns[k - 1].0 == "response"@ {
                match classify(ns, k - 1, folder, self_path) {
                    ResponseSpec::Item(x) => {
                        if j < prev.len() {
                            assert(prev[j] == e);
                        }
                        assert(classify(ns, k - 1, folder, self_path) == ResponseSpec::Item(e));
                    },
                    _ => {
                        assert(prev[j] == e);
                    },
                }
            } else {
                assert(prev[j] == e);
            }
        }
    }
}

/// Every entry of a listing comes from a `response` of the answer (the one
/// returned), and it
/// accepts documents exactly when it is a folder whose permissions hold a
/// `C` anywhere (or that has none) and it is not under the browse-only
/// folder.
pub proof fn listed_upload_permission(ns: Nodes, folder: Seq<char>, self_path: Seq<char>, e: EntrySpec) -> (r: int)
    requires
        listing_from(ns, folder, self_path).2.contains(e),
    ensures
        0 <= r < ns.len(),
        ns[r].0 == "response"@,
        e.can_upload == (e.is_folder && grants_create(ns, r) && !starts_with(e.path, CARPETA_VISTAS@)),
{
    let f = trim_end_char(trim_start_char(folder, '/'), '/');
    let sp = trim_end_char(percent_decoded(self_path), '/');
    let es = scan_responses(ns, f, sp, ns.len() as int).0;
    lemma_sort_entries(es);
    let sorted = sort_entries(es);
    assert(listing_from(ns, folder, self_path).2 == sorted);
    assert(sorted.contains(e));
    vstd::seq_lib::to_multiset_contains(sorted, e);
    vstd::seq_lib::to_multiset_contains(es, e);
    assert(sorted.to_multiset().count(e) > 0);
    assert(es.contains(e));
    lemma_scan_items(ns, f, sp, ns.len() as int, e);
    let r = choose|r: int| 0 <= r < ns.len() && ns[r].0 == "response"@ && #[trigger] classify(ns, r, f, sp) == ResponseSpec::Item(e);
    upload_permission_law(ns, r, f, sp);
    r
}

} // verus!
