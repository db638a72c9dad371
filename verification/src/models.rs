//! Catalog of whisper.cpp GGML models, where they are stored, the downloads
//! that are running, and the decisions along a download.

use vstd::prelude::*;
use crate::text::{chars_eq, chars_of, dec, push_all, push_dec, string_from_chars};

verus! {

/// Base address of the GGML models on Hugging Face.
pub const HF_BASE: &'static str = "https://huggingface.co/ggerganov/whisper.cpp/resolve/main";

/// `Path::join`: `name` adjoined to `dir` with the path rules of the target
/// that the library is built for (fixed for a build).
pub uninterp spec fn path_joined(dir: Seq<char>, name: Seq<char>) -> Seq<char>;

/// Calls `Path::join` (and converts the result back to text, which is
/// lossless for a path built from `str`s); the result is named `path_joined`.
#[verifier::external_body]
pub(crate) fn join_path(dir: &str, name: &str) -> (r: String)
    ensures
        r@ == path_joined(dir@, name@),
{
    std::path::Path::new(dir).join(name).to_string_lossy().into_owned()
}

/// `ggml-<id>.bin`.
pub open spec fn file_name_of(id: Seq<char>) -> Seq<char> {
    "ggml-"@ + id + ".bin"@
}

/// Name of the model file.
pub fn file_name(id: &str) -> (r: String)
    ensures
        r@ == file_name_of(id@),
{
    let mut v = chars_of("ggml-");
    push_all(&mut v, &chars_of(id));
    push_all(&mut v, &chars_of(".bin"));
    string_from_chars(&v)
}

/// Download address of the model file.
pub fn model_url(id: &str) -> (r: String)
    ensures
        r@ == HF_BASE@ + "/"@ + file_name_of(id@),
{
    let mut v = chars_of(HF_BASE);
    push_all(&mut v, &chars_of("/"));
    let f = file_name(id);
    push_all(&mut v, &chars_of(f.as_str()));
    string_from_chars(&v)
}

/// Where a downloaded model is stored.
pub fn model_path(models_dir: &str, id: &str) -> (r: String)
    ensures
        r@ == path_joined(models_dir@, file_name_of(id@)),
{
    let f = file_name(id);
    join_path(models_dir, f.as_str())
}

/// A model of the catalog.
pub struct CatalogEntry {
    pub id: &'static str,
    pub name: &'static str,
    pub size_mb: u64,
    pub quality: &'static str,
    pub recommended: bool,
    pub description: &'static str,
}

/// The catalog of models that can be downloaded, in order.
pub open spec fn catalog_spec() -> Seq<CatalogEntry> {
    seq![
        CatalogEntry { id: "large-v3-turbo", name: "Large v3 Turbo", size_mb: 1620, quality: "alta", recommended: true,
        description: "El mejor equilibrio entre calidad y velocidad. Equivale al modelo que usa el script original." },
        CatalogEntry { id: "large-v3-turbo-q8_0", name: "Large v3 Turbo (Q8)", size_mb: 874, quality: "alta", recommended: false,
        description: "Turbo cuantizado a 8 bits: casi la misma calidad con la mitad de tamaño." },
        CatalogEntry { id: "large-v3-turbo-q5_0", name: "Large v3 Turbo (Q5)", size_mb: 574, quality: "alta", recommended: true,
        description: "Turbo cuantizado a 5 bits: ideal para equipos sin GPU o con poca memoria." },
        CatalogEntry { id: "large-v3", name: "Large v3", size_mb: 3100, quality: "alta", recommended: false,
        description: "Máxima precisión, pero mucho más lento. Requiere GPU con memoria suficiente." },
        CatalogEntry { id: "large-v3-q5_0", name: "Large v3 (Q5)", size_mb: 1080, quality: "alta", recommended: false,
        description: "Large v3 cuantizado. Muy preciso; lento sin GPU." },
        CatalogEntry { id: "medium", name: "Medium", size_mb: 1530, quality: "media", recommended: false,
        description: "Buena calidad en español; más lento que Turbo con calidad similar." },
        CatalogEntry { id: "medium-q5_0", name: "Medium (Q5)", size_mb: 539, quality: "media", recommended: false,
        description: "Medium cuantizado a 5 bits." },
        CatalogEntry { id: "small", name: "Small", size_mb: 488, quality: "media", recommended: false,
        description: "Rápido y ligero. Calidad aceptable para audio claro." },
        CatalogEntry { id: "base", name: "Base", size_mb: 148, quality: "baja", recommended: false,
        description: "Incluido en el instalador: funciona de inmediato sin descargar nada. Muy rápido; calidad básica, ideal para borradores." },
        CatalogEntry { id: "tiny", name: "Tiny", size_mb: 78, quality: "baja", recommended: false,
        description: "El más pequeño. Sólo para pruebas rápidas." },
    ]
}

/// The ids of the catalog, in order.
pub open spec fn catalog_ids() -> Seq<Seq<char>> {
    catalog_spec().map_values(|e: CatalogEntry| e.id@)
}

/// The catalog of models that can be downloaded.
pub fn catalog() -> (r: Vec<CatalogEntry>)
    ensures
        r@ == catalog_spec(),
{
    let mut v: Vec<CatalogEntry> = Vec::new();
    v.push(CatalogEntry { id: "large-v3-turbo", name: "Large v3 Turbo", size_mb: 1620, quality: "alta", recommended: true,
        description: "El mejor equilibrio entre calidad y velocidad. Equivale al modelo que usa el script original." });
    v.push(CatalogEntry { id: "large-v3-turbo-q8_0", name: "Large v3 Turbo (Q8)", size_mb: 874, quality: "alta", recommended: false,
        description: "Turbo cuantizado a 8 bits: casi la misma calidad con la mitad de tamaño." });
    v.push(CatalogEntry { id: "large-v3-turbo-q5_0", name: "Large v3 Turbo (Q5)", size_mb: 574, quality: "alta", recommended: true,
        description: "Turbo cuantizado a 5 bits: ideal para equipos sin GPU o con poca memoria." });
    v.push(CatalogEntry { id: "large-v3", name: "Large v3", size_mb: 3100, quality: "alta", recommended: false,
        description: "Máxima precisión, pero mucho más lento. Requiere GPU con memoria suficiente." });
    v.push(CatalogEntry { id: "large-v3-q5_0", name: "Large v3 (Q5)", size_mb: 1080, quality: "alta", recommended: false,
        description: "Large v3 cuantizado. Muy preciso; lento sin GPU." });
    v.push(CatalogEntry { id: "medium", name: "Medium", size_mb: 1530, quality: "media", recommended: false,
        description: "Buena calidad en español; más lento que Turbo con calidad similar." });
    v.push(CatalogEntry { id: "medium-q5_0", name: "Medium (Q5)", size_mb: 539, quality: "media", recommended: false,
        description: "Medium cuantizado a 5 bits." });
    v.push(CatalogEntry { id: "small", name: "Small", size_mb: 488, quality: "media", recommended: false,
        description: "Rápido y ligero. Calidad aceptable para audio claro." });
    v.push(CatalogEntry { id: "base", name: "Base", size_mb: 148, quality: "baja", recommended: false,
        description: "Incluido en el instalador: funciona de inmediato sin descargar nada. Muy rápido; calidad básica, ideal para borradores." });
    v.push(CatalogEntry { id: "tiny", name: "Tiny", size_mb: 78, quality: "baja", recommended: false,
        description: "El más pequeño. Sólo para pruebas rápidas." });
    assert(v@ =~= catalog_spec());
    v
}

/// Whether `id` is a model of the catalog.
pub fn is_known(id: &str) -> (r: bool)
    ensures
        r == catalog_ids().contains(id@),
{
    let cat = catalog();
    let want = chars_of(id);
    let mut k: usize = 0;
    while k < cat.len()
        invariant
            k <= cat@.len(),
            cat@ == catalog_spec(),
            want@ == id@,
            forall|i: int| 0 <= i < k ==> catalog_ids()[i] != id@,
        decreases cat@.len() - k,
    {
        let e = chars_of(cat[k].id);
        assert(catalog_ids()[k as int] == cat@[k as int].id@);
        if chars_eq(&e, &want) {
            assert(catalog_ids()[k as int] == id@);
            return true;
        }
        k += 1;
    }
    proof {
        if catalog_ids().contains(id@) {
            let j = choose|j: int| 0 <= j < catalog_ids().len() && catalog_ids()[j] == id@;
            assert(catalog_ids()[j] == id@);
        }
    }
    false
}


// ---------------------------------------------------------------------------
// Resolving model files
// ---------------------------------------------------------------------------

/// Whether `p` is one of the paths known to hold a usable model file.
pub open spec fn is_present(present: Seq<String>, p: Seq<char>) -> bool {
    exists|i: int| 0 <= i < present.len() && (#[trigger] present[i])@ == p
}

/// The usable model file: the downloaded one or, if there is none, the one
/// that came with the installer.
pub open spec fn resolved(models_dir: Seq<char>, bundled_dir: Option<Seq<char>>, id: Seq<char>, present: Seq<String>) -> Option<Seq<char>> {
    let downloaded = path_joined(models_dir, file_name_of(id));
    if is_present(present, downloaded) {
        Some(downloaded)
    } else {
        match bundled_dir {
            None => None,
            Some(b) => {
                let bundled = path_joined(b, file_name_of(id));
                if is_present(present, bundled) { Some(bundled) } else { None }
            },
        }
    }
}

/// The text of an optional string slice.
pub open spec fn opt_view(o: Option<&str>) -> Option<Seq<char>> {
    match o {
        Some(s) => Some(s@),
        None => None,
    }
}

/// Whether `p` is one of `present`.
fn contains_path(present: &[String], p: &str) -> (r: bool)
    ensures
        r == is_present(present@, p@),
{
    let want = chars_of(p);
    let mut i: usize = 0;
    while i < present.len()
        invariant
            i <= present@.len(),
            want@ == p@,
            forall|j: int| 0 <= j < i ==> (#[trigger] present@[j])@ != p@,
        decreases present@.len() - i,
    {
        let c = chars_of(present[i].as_str());
        if chars_eq(&c, &want) {
            return true;
        }
        i += 1;
    }
    false
}

/// The usable path of model `id`: the downloaded file or, if it is not
/// there, the one bundled with the installer. `present` lists the candidate
/// files that exist with a plausible size (more than 1 MB).
pub fn resolve(models_dir: &str, bundled_dir: Option<&str>, id: &str, present: &[String]) -> (r: Option<String>)
    ensures
        match r {
            Some(p) => resolved(models_dir@, opt_view(bundled_dir), id@, present@) == Some(p@),
            None => resolved(models_dir@, opt_view(bundled_dir), id@, present@) is None,
        },
{
    let downloaded = model_path(models_dir, id);
    if contains_path(present, downloaded.as_str()) {
        return Some(downloaded);
    }
    match bundled_dir {
        None => None,
        Some(b) => {
            let f = file_name(id);
            let bundled = join_path(b, f.as_str());
            if contains_path(present, bundled.as_str()) { Some(bundled) } else { None }
        },
    }
}

// ---------------------------------------------------------------------------
// Downloads in progress
// ---------------------------------------------------------------------------

/// The map from id to "cancel requested" described by a list of entries.
pub open spec fn as_map(s: Seq<(Seq<char>, bool)>) -> Map<Seq<char>, bool>
    decreases s.len(),
{
    if s.len() == 0 {
        Map::empty()
    } else {
        as_map(s.drop_last()).insert(s.last().0, s.last().1)
    }
}

/// No id appears twice.
pub open spec fn distinct_ids(s: Seq<(Seq<char>, bool)>) -> bool {
    forall|i: int, j: int| 0 <= i < s.len() && 0 <= j < s.len() && i != j ==> s[i].0 != s[j].0
}

proof fn lemma_as_map(s: Seq<(Seq<char>, bool)>)
    requires
        distinct_ids(s),
    ensures
        forall|k: int| 0 <= k < s.len() ==> #[trigger] as_map(s).dom().contains(s[k].0) && as_map(s)[s[k].0] == s[k].1,
        forall|key: Seq<char>| #[trigger] as_map(s).dom().contains(key) ==> exists|k: int| 0 <= k < s.len() && s[k].0 == key,
    decreases s.len(),
{
    if s.len() > 0 {
        let t = s.drop_last();
        assert(distinct_ids(t));
        lemma_as_map(t);
        assert forall|key: Seq<char>| #[trigger] as_map(s).dom().contains(key) implies exists|k: int| 0 <= k < s.len() && s[k].0 == key by {
            if key != s.last().0 {
                assert(as_map(t).dom().contains(key));
                let k = choose|k: int| 0 <= k < t.len() && t[k].0 == key;
                assert(s[k].0 == key);
            } else {
                assert(s[s.len() - 1].0 == key);
            }
        }
        assert forall|k: int| 0 <= k < s.len() implies #[trigger] as_map(s).dom().contains(s[k].0) && as_map(s)[s[k].0] == s[k].1 by {
            if k < s.len() - 1 {
                assert(t[k] == s[k]);
                assert(s[k].0 != s.last().0);
                assert(as_map(t).dom().contains(t[k].0));
                assert(as_map(t)[t[k].0] == t[k].1);
            }
        }
    }
}

/// Model downloads in progress, each with its cancellation request.
pub struct Downloads {
    active: Vec<(String, bool)>,
}

impl Downloads {
    pub closed spec fn entries(&self) -> Seq<(Seq<char>, bool)> {
        self.active@.map_values(|e: (String, bool)| (e.0@, e.1))
    }

    #[verifier::type_invariant]
    closed spec fn wf(self) -> bool {
        distinct_ids(self.entries())
    }

    /// No download in progress.
    pub fn new() -> (r: Self)
        ensures
            r@ == Map::<Seq<char>, bool>::empty(),
    {
        let r = Downloads { active: Vec::new() };
        assert(r.entries() =~= Seq::<(Seq<char>, bool)>::empty());
        r
    }

    fn find(&self, id: &str) -> (r: Option<usize>)
        ensures
            match r {
                Some(k) => k < self.entries().len() && self.entries()[k as int].0 == id@,
                None => forall|k: int| 0 <= k < self.entries().len() ==> self.entries()[k].0 != id@,
            },
    {
        let want = chars_of(id);
        let mut i: usize = 0;
        while i < self.active.len()
            invariant
                i <= self.active@.len(),
                want@ == id@,
                forall|k: int| 0 <= k < i ==> self.entries()[k].0 != id@,
            decreases self.active@.len() - i,
        {
            let c = chars_of(self.active[i].0.as_str());
            if chars_eq(&c, &want) {
                return Some(i);
            }
            i += 1;
        }
        None
    }

    /// Registers the download of `id`; `false` if it is already running.
    pub fn start(&mut self, id: &str) -> (r: bool)
        ensures
            r == !old(self)@.dom().contains(id@),
            r ==> final(self)@ == old(self)@.insert(id@, false),
            !r ==> final(self)@ == old(self)@,
    {
        proof {
            use_type_invariant(&*self);
            lemma_as_map(self.entries());
        }
        if let Some(k) = self.find(id) {
            return false;
        }
        let ghost before = self.entries();
        let s = string_from_chars(&chars_of(id));
        let mut v: Vec<(String, bool)> = Vec::new();
        std::mem::swap(&mut v, &mut self.active);
        v.push((s, false));
        let ghost ev = v@.map_values(|e: (String, bool)| (e.0@, e.1));
        assert(ev =~= before.push((id@, false)));
        assert(ev.drop_last() =~= before);
        self.active = v;
        true
    }

    /// Forgets the download of `id`.
    pub fn finish(&mut self, id: &str)
        ensures
            final(self)@ == old(self)@.remove(id@),
    {
        proof {
            use_type_invariant(&*self);
            lemma_as_map(self.entries());
        }
        match self.find(id) {
            None => {
                assert(self@ =~= self@.remove(id@));
            },
            Some(k) => {
                let ghost before = self.entries();
                let ghost m0 = self@;
                let mut v: Vec<(String, bool)> = Vec::new();
                std::mem::swap(&mut v, &mut self.active);
                assert(v@.map_values(|e: (String, bool)| (e.0@, e.1)) == before);
                let _ = v.remove(k);
                assert(v@.map_values(|e: (String, bool)| (e.0@, e.1)) =~= before.remove(k as int));
                self.active = v;
                let ghost after = self.entries();
                assert(after =~= before.remove(k as int));
                assert(distinct_ids(after));
                proof {
                    lemma_as_map(after);
                    assert forall|key: Seq<char>| #[trigger] self@.dom().contains(key) <==> m0.remove(id@).dom().contains(key) by {
                        if self@.dom().contains(key) {
                            let j = choose|j: int| 0 <= j < after.len() && after[j].0 == key;
                            if j < k {
                                assert(after[j] == before[j]);
                            } else {
                                assert(after[j] == before[j + 1]);
                            }
                        }
                        if m0.remove(id@).dom().contains(key) {
                            let j = choose|j: int| 0 <= j < before.len() && before[j].0 == key;
                            assert(j != k);
                            if j < k {
                                assert(after[j] == before[j]);
                            } else {
                                assert(after[j - 1] == before[j]);
                            }
                        }
                    }
                    assert forall|key: Seq<char>| #[trigger] self@.dom().contains(key) implies self@[key] == m0.remove(id@)[key] by {
                        let j = choose|j: int| 0 <= j < after.len() && after[j].0 == key;
                        if j < k {
                            assert(after[j] == before[j]);
                        } else {
                            assert(after[j] == before[j + 1]);
                        }
                    }
                    assert(self@ =~= m0.remove(id@));
                }
            },
        }
    }

    /// Asks the download of `id` to stop; `false` if it is not running.
    pub fn cancel(&mut self, id: &str) -> (r: bool)
        ensures
            r == old(self)@.dom().contains(id@),
            r ==> final(self)@ == old(self)@.insert(id@, true),
            !r ==> final(self)@ == old(self)@,
    {
        proof {
            use_type_invariant(&*self);
            lemma_as_map(self.entries());
        }
        match self.find(id) {
            None => false,
            Some(k) => {
                let ghost before = self.entries();
                let ghost m0 = self@;
                let mut v: Vec<(String, bool)> = Vec::new();
                std::mem::swap(&mut v, &mut self.active);
                assert(v@.map_values(|e: (String, bool)| (e.0@, e.1)) == before);
                v[k].1 = true;
                assert(v@.map_values(|e: (String, bool)| (e.0@, e.1)) =~= before.update(k as int, (id@, true)));
                self.active = v;
                let ghost after = self.entries();
                assert(after =~= before.update(k as int, (id@, true)));
                assert(distinct_ids(after));
                proof {
                    lemma_as_map(after);
                    assert(after[k as int].0 == id@);
                    assert(self@.dom().contains(after[k as int].0));
                    assert forall|key: Seq<char>| #[trigger] self@.dom().contains(key) <==> m0.insert(id@, true).dom().contains(key) by {
                        if self@.dom().contains(key) {
                            let j = choose|j: int| 0 <= j < after.len() && after[j].0 == key;
                            if j != k {
                                assert(after[j] == before[j]);
                            }
                        }
                        if m0.dom().contains(key) {
                            let j = choose|j: int| 0 <= j < before.len() && before[j].0 == key;
                            if j != k {
                                assert(after[j] == before[j]);
                            }
                        }
                    }
                    assert forall|key: Seq<char>| #[trigger] self@.dom().contains(key) implies self@[key] == m0.insert(id@, true)[key] by {
                        let j = choose|j: int| 0 <= j < after.len() && after[j].0 == key;
                        if j != k {
                            assert(after[j] == before[j]);
                        }
                    }
                    assert(self@ =~= m0.insert(id@, true));
                }
                true
            },
        }
    }

    /// Whether the download of `id` is running.
    pub fn is_active(&self, id: &str) -> (r: bool)
        ensures
            r == self@.dom().contains(id@),
    {
        proof {
            use_type_invariant(self);
            lemma_as_map(self.entries());
        }
        match self.find(id) {
            Some(_) => true,
            None => false,
        }
    }

    /// Whether the download of `id` was asked to stop.
    pub fn is_cancelled(&self, id: &str) -> (r: bool)
        ensures
            r == (self@.dom().contains(id@) && self@[id@]),
    {
        proof {
            use_type_invariant(self);
            lemma_as_map(self.entries());
        }
        match self.find(id) {
            Some(k) => {
                assert(self.entries()[k as int] == (self.active@[k as int].0@, self.active@[k as int].1));
                assert(self@.dom().contains(self.entries()[k as int].0));
                self.active[k].1
            },
            None => false,
        }
    }
}

impl Default for Downloads {
    fn default() -> (r: Self)
        ensures
            r@ == Map::<Seq<char>, bool>::empty(),
    {
        Downloads::new()
    }
}

impl View for Downloads {
    type V = Map<Seq<char>, bool>;

    closed spec fn view(&self) -> Map<Seq<char>, bool> {
        as_map(self.entries())
    }
}


// ---------------------------------------------------------------------------
// Listing
// ---------------------------------------------------------------------------

/// What the interface shows of a model.
#[derive(Debug, Clone)]
pub struct ModelInfo {
    pub id: String,
    pub name: String,
    pub file_name: String,
    pub size_mb: u64,
    pub description: String,
    /// "alta" | "media" | "baja"
    pub quality: String,
    pub recommended: bool,
    pub downloaded: bool,
    pub downloading: bool,
    /// Comes with the installer (cannot be deleted).
    pub bundled: bool,
    pub path: String,
}

/// Whether the installer's copy of model `id` is present.
pub open spec fn bundled_present(bundled_dir: Option<Seq<char>>, id: Seq<char>, present: Seq<String>) -> bool {
    match bundled_dir {
        Some(b) => is_present(present, path_joined(b, file_name_of(id))),
        None => false,
    }
}

/// The path shown for model `id`: the usable one, or where it would be downloaded.
pub open spec fn shown_path(models_dir: Seq<char>, bundled_dir: Option<Seq<char>>, id: Seq<char>, present: Seq<String>) -> Seq<char> {
    match resolved(models_dir, bundled_dir, id, present) {
        Some(p) => p,
        None => path_joined(models_dir, file_name_of(id)),
    }
}

/// The information shown for a catalog entry.
pub open spec fn info_matches(
    info: ModelInfo,
    e: CatalogEntry,
    models_dir: Seq<char>,
    bundled_dir: Option<Seq<char>>,
    downloads: Map<Seq<char>, bool>,
    present: Seq<String>,
) -> bool {
    &&& info.id@ == e.id@
    &&& info.name@ == e.name@
    &&& info.file_name@ == file_name_of(e.id@)
    &&& info.size_mb == e.size_mb
    &&& info.description@ == e.description@
    &&& info.quality@ == e.quality@
    &&& info.recommended == e.recommended
    &&& info.bundled == bundled_present(bundled_dir, e.id@, present)
    &&& info.path@ == shown_path(models_dir, bundled_dir, e.id@, present)
    &&& info.downloaded == is_present(present, shown_path(models_dir, bundled_dir, e.id@, present))
    &&& info.downloading == downloads.dom().contains(e.id@)
}

/// The models of the catalog with their state. `present` lists the model
/// files that exist with a plausible size (more than 1 MB).
pub fn list(models_dir: &str, bundled_dir: Option<&str>, downloads: &Downloads, present: &[String]) -> (r: Vec<ModelInfo>)
    ensures
        r@.len() == catalog_spec().len(),
        forall|i: int| 0 <= i < r@.len() ==> info_matches(
            #[trigger] r@[i],
            catalog_spec()[i],
            models_dir@,
            opt_view(bundled_dir),
            downloads@,
            present@,
        ),
{
    let cat = catalog();
    let mut out: Vec<ModelInfo> = Vec::new();
    let mut k: usize = 0;
    while k < cat.len()
        invariant
            k <= cat@.len(),
            cat@ == catalog_spec(),
            out@.len() == k,
            forall|i: int| 0 <= i < k ==> info_matches(
                #[trigger] out@[i],
                catalog_spec()[i],
                models_dir@,
                opt_view(bundled_dir),
                downloads@,
                present@,
            ),
        decreases cat@.len() - k,
    {
        let e = &cat[k];
        let fname = file_name(e.id);
        let bundled = match bundled_dir {
            Some(b) => {
                let p = join_path(b, fname.as_str());
                contains_path(present, p.as_str())
            },
            None => false,
        };
        let path = match resolve(models_dir, bundled_dir, e.id, present) {
            Some(p) => p,
            None => model_path(models_dir, e.id),
        };
        let downloaded = contains_path(present, path.as_str());
        let info = ModelInfo {
            id: string_from_chars(&chars_of(e.id)),
            name: string_from_chars(&chars_of(e.name)),
            file_name: fname,
            size_mb: e.size_mb,
            description: string_from_chars(&chars_of(e.description)),
            quality: string_from_chars(&chars_of(e.quality)),
            recommended: e.recommended,
            downloaded,
            downloading: downloads.is_active(e.id),
            bundled,
            path,
        };
        out.push(info);
        k += 1;
    }
    out
}

/// The model file for a transcription job: a model outside the catalog, or
/// one that is neither downloaded nor bundled, is an error.
pub fn model_for_job(models_dir: &str, bundled_dir: Option<&str>, id: &str, present: &[String]) -> (r: Result<String, String>)
    ensures
        !catalog_ids().contains(id@) ==> r is Err && r->Err_0@ == "Modelo desconocido: "@ + id@,
        catalog_ids().contains(id@) ==> match resolved(models_dir@, opt_view(bundled_dir), id@, present@) {
            Some(p) => r is Ok && r->Ok_0@ == p,
            None => r is Err && r->Err_0@ == "El modelo «"@ + id@ + "» no está descargado. Descárgalo en la sección Modelos."@,
        },
{
    if !is_known(id) {
        let mut v = chars_of("Modelo desconocido: ");
        push_all(&mut v, &chars_of(id));
        return Err(string_from_chars(&v));
    }
    match resolve(models_dir, bundled_dir, id, present) {
        Some(p) => Ok(p),
        None => {
            let mut v = chars_of("El modelo «");
            push_all(&mut v, &chars_of(id));
            push_all(&mut v, &chars_of("» no está descargado. Descárgalo en la sección Modelos."));
            Err(string_from_chars(&v))
        },
    }
}

// ---------------------------------------------------------------------------
// The decisions of a download
// ---------------------------------------------------------------------------

/// Registers the download of `id`: a model outside the catalog, or one that
/// is already downloading, is refused and nothing changes.
pub fn begin_download(downloads: &mut Downloads, id: &str) -> (r: Result<(), String>)
    ensures
        !catalog_ids().contains(id@) ==> r is Err && r->Err_0@ == "Modelo desconocido: "@ + id@
            && final(downloads)@ == old(downloads)@,
        catalog_ids().contains(id@) && old(downloads)@.dom().contains(id@) ==> r is Err
            && r->Err_0@ == "Ese modelo ya se está descargando"@ && final(downloads)@ == old(downloads)@,
        catalog_ids().contains(id@) && !old(downloads)@.dom().contains(id@) ==> r is Ok
            && final(downloads)@ == old(downloads)@.insert(id@, false),
{
    if !is_known(id) {
        let mut v = chars_of("Modelo desconocido: ");
        push_all(&mut v, &chars_of(id));
        return Err(string_from_chars(&v));
    }
    if !downloads.start(id) {
        return Err(string_from_chars(&chars_of("Ese modelo ya se está descargando")));
    }
    Ok(())
}

/// The partial file of a download: `ggml-<id>.bin.part`.
pub fn part_file_name(id: &str) -> (r: String)
    ensures
        r@ == file_name_of(id@) + ".part"@,
{
    let mut v = chars_of(file_name(id).as_str());
    push_all(&mut v, &chars_of(".part"));
    string_from_chars(&v)
}

/// The `Range` header that resumes a partial file of `existing` bytes.
pub fn range_header(existing: u64) -> (r: Option<String>)
    ensures
        existing == 0 ==> r is None,
        existing > 0 ==> r is Some && r->Some_0@ == "bytes="@ + dec(existing as nat) + "-"@,
{
    if existing == 0 {
        return None;
    }
    let mut v = chars_of("bytes=");
    push_dec(&mut v, existing);
    push_all(&mut v, &chars_of("-"));
    Some(string_from_chars(&v))
}

/// Where a transfer starts: whether it resumes the partial file, the bytes
/// already there and the expected total.
#[derive(Debug, Clone, Copy)]
pub struct TransferStart {
    pub resuming: bool,
    pub downloaded: u64,
    pub total: Option<u64>,
}

/// The start of a transfer from the server's status, the size of the
/// partial file and the announced length: the server resumes only with
/// `206 Partial Content` over a non-empty partial file; any status outside
/// 2xx is an error.
pub fn transfer_start(status: u16, existing: u64, content_length: Option<u64>) -> (r: Result<TransferStart, String>)
    requires
        100 <= status <= 999,
        status == 206 && existing > 0 && content_length is Some ==> content_length->Some_0 + existing <= u64::MAX,
    ensures
        !(200 <= status <= 299) ==> r is Err && r->Err_0@ == "Hugging Face respondió "@ + crate::iurefficient::status_text(status),
        200 <= status <= 299 ==> r is Ok && ({
            let t = r->Ok_0;
            let resuming = status == 206 && existing > 0;
            &&& t.resuming == resuming
            &&& t.downloaded == (if resuming { existing } else { 0 })
            &&& t.total == match content_length {
                Some(l) => Some((if resuming { l + existing } else { l as int }) as u64),
                None => None::<u64>,
            }
        }),
{
    if !(200 <= status && status <= 299) {
        let mut v = chars_of("Hugging Face respondió ");
        push_all(&mut v, &chars_of(crate::iurefficient::status_display(status).as_str()));
        return Err(string_from_chars(&v));
    }
    let resuming = status == 206 && existing > 0;
    let total = match content_length {
        Some(l) => Some(if resuming { l + existing } else { l }),
        None => None,
    };
    Ok(TransferStart { resuming, downloaded: if resuming { existing } else { 0 }, total })
}

/// One received piece of the transfer: a requested cancellation stops it
/// first, then a network error; otherwise the piece's bytes are counted.
pub fn transfer_chunk(cancelled: bool, chunk: Result<u64, String>, downloaded: u64) -> (r: Result<u64, String>)
    requires
        chunk matches Ok(len) ==> downloaded + len <= u64::MAX,
    ensures
        cancelled ==> r is Err && r->Err_0@ == "cancelled"@,
        !cancelled ==> match chunk {
            Ok(len) => r == Ok::<u64, String>((downloaded + len) as u64),
            Err(e) => r is Err && r->Err_0@ == "Error de red durante la descarga: "@ + e@,
        },
{
    if cancelled {
        return Err(string_from_chars(&chars_of("cancelled")));
    }
    match chunk {
        Ok(len) => Ok(downloaded + len),
        Err(e) => {
            let mut v = chars_of("Error de red durante la descarga: ");
            push_all(&mut v, &chars_of(e.as_str()));
            Err(string_from_chars(&v))
        },
    }
}

/// The end of a transfer: fewer bytes than announced is an error that
/// invites to resume.
pub fn transfer_end(downloaded: u64, total: Option<u64>) -> (r: Result<(), String>)
    ensures
        match total {
            Some(t) if downloaded < t => r is Err && r->Err_0@ == "Descarga incompleta ("@ + dec(downloaded as nat) + " de "@
                + dec(t as nat) + " bytes). Vuelve a intentarlo para reanudar."@,
            _ => r is Ok,
        },
{
    if let Some(t) = total {
        if downloaded < t {
            let mut v = chars_of("Descarga incompleta (");
            push_dec(&mut v, downloaded);
            push_all(&mut v, &chars_of(" de "));
            push_dec(&mut v, t);
            push_all(&mut v, &chars_of(" bytes). Vuelve a intentarlo para reanudar."));
            return Err(string_from_chars(&v));
        }
    }
    Ok(())
}

/// The progress of a model download as the interface sees it.
#[derive(Debug, Clone)]
pub struct DownloadProgress {
    pub id: String,
    pub downloaded: u64,
    pub total: Option<u64>,
    /// "downloading" | "done" | "cancelled" | "error"
    pub status: String,
    pub message: Option<String>,
}

/// What a finished download of `id` reports: its last progress event (the
/// status, and the message for an error) and the result given to the
/// caller, where a cancellation reads `Descarga cancelada`.
pub fn download_outcome(id: &str, result: &Result<(), String>) -> (r: (DownloadProgress, Result<(), String>))
    ensures
        r.0.id@ == id@,
        r.0.downloaded == 0,
        r.0.total is None,
        match result {
            Ok(()) => r.0.status@ == "done"@ && r.0.message is None && r.1 is Ok,
            Err(e) => if e@ == "cancelled"@ {
                r.0.status@ == "cancelled"@ && r.0.message is None && r.1 is Err && r.1->Err_0@ == "Descarga cancelada"@
            } else {
                r.0.status@ == "error"@ && r.0.message is Some && r.0.message->Some_0@ == e@ && r.1 is Err
                    && r.1->Err_0@ == e@
            },
        },
{
    let (status, message, outcome) = match result {
        Ok(()) => ("done", None, Ok(())),
        Err(e) => {
            if chars_eq(&chars_of(e.as_str()), &chars_of("cancelled")) {
                ("cancelled", None, Err(string_from_chars(&chars_of("Descarga cancelada"))))
            } else {
                let m = string_from_chars(&chars_of(e.as_str()));
                ("error", Some(m), Err(string_from_chars(&chars_of(e.as_str()))))
            }
        },
    };
    let event = DownloadProgress {
        id: string_from_chars(&chars_of(id)),
        downloaded: 0,
        total: None,
        status: string_from_chars(&chars_of(status)),
        message,
    };
    (event, outcome)
}

// ---------------------------------------------------------------------------
// Laws
// ---------------------------------------------------------------------------

/// A model that was not downloading, once its download starts and then
/// finishes, leaves the downloads as they were; a fresh download is not
/// asked to stop.
pub proof fn start_then_finish(downloads: Map<Seq<char>, bool>, id: Seq<char>)
    requires
        !downloads.dom().contains(id),
    ensures
        downloads.insert(id, false).remove(id) == downloads,
        !downloads.insert(id, false)[id],
{
    assert(downloads.insert(id, false).remove(id) =~= downloads);
}

/// Asking a running download to stop keeps the same downloads running (a
/// second start is still refused), and finishing it forgets the request.
pub proof fn cancel_then_finish(downloads: Map<Seq<char>, bool>, id: Seq<char>)
    requires
        downloads.dom().contains(id),
    ensures
        downloads.insert(id, true).dom() == downloads.dom(),
        downloads.insert(id, true)[id],
        downloads.insert(id, true).remove(id) == downloads.remove(id),
{
    assert(downloads.insert(id, true).dom() =~= downloads.dom());
    assert(downloads.insert(id, true).remove(id) =~= downloads.remove(id));
}

} // verus!
