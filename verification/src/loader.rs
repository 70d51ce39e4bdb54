//! The locale files found in the locales directory, and the rules that decide
//! which directory entries are locales.

use vstd::prelude::*;
use unic_langid::LanguageIdentifier;
use crate::text::{chars_of, has_char, copy_string, text_eq, text_less, text_lt, upsert, lemma_upsert_at, lemma_text_lt_total, lemma_text_lt_asym, strictly_sorted, law_upsert_keeps_order};

verus! {

/// A Fluent file of a locale: its path (relative to the manifest directory
/// when it lies inside it) and its text.
pub struct LocaleFile {
    pub path: String,
    pub content: String,
}

/// The type `unic_langid::LanguageIdentifier`, carried as an opaque value.
#[verifier::external_type_specification]
#[verifier::external_body]
pub struct ExLanguageIdentifier(LanguageIdentifier);

/// What parsing a text as a language identifier gives: the language subtag
/// of the identifier, or the text of the error.
pub uninterp spec fn langid_parse(text: Seq<char>) -> Result<Seq<char>, Seq<char>>;

/// Parses a text as a language identifier (`LanguageIdentifier::from_str`),
/// giving the identifier with its language subtag (ASCII letters, as the
/// subtag parser admits no other), or the `Display` text of the error.
#[verifier::external_body]
fn parse_langid(text: &str) -> (r: Result<(LanguageIdentifier, String), String>)
    ensures
        match r {
            Ok((_, lang)) => langid_parse(text@) == Ok::<Seq<char>, Seq<char>>(lang@)
                && forall|i: int| 0 <= i < lang@.len() ==> (#[trigger] lang@[i] as u32) < 128,
            Err(e) => langid_parse(text@) == Err::<Seq<char>, Seq<char>>(e@),
        },
{
    match text.parse::<LanguageIdentifier>() {
        Ok(id) => {
            let lang = id.language.as_str().to_string();
            Ok((id, lang))
        },
        Err(e) => Err(e.to_string()),
    }
}

/// The error for a language tag written with underscores.
pub open spec fn underscore_error() -> Seq<char> {
    "Language tags use hyphens ('-'), not underscores ('_')"@
}

/// The error for a language subtag that is not two or three letters long.
pub open spec fn subtag_error(lang: Seq<char>) -> Option<Seq<char>> {
    if lang.len() < 2 || lang.len() > 3 {
        Some("Invalid language subtag '"@ + lang + "'"@)
    } else {
        None
    }
}

/// Checks the length of a parsed language subtag.
pub fn check_language_subtag(lang: &str) -> (r: Option<String>)
    ensures
        r is Some <==> subtag_error(lang@) is Some,
        r matches Some(e) ==> subtag_error(lang@) == Some(e@),
{
    let n = chars_of(lang).len();
    if n < 2 || n > 3 {
        let mut e = String::new();
        e.append("Invalid language subtag '");
        e.append(lang);
        e.append("'");
        Some(e)
    } else {
        None
    }
}

/// Why a text is not a language identifier the locales accept, if it is not:
/// it holds an underscore, it does not parse, or its language subtag is not
/// two or three letters long.
pub open spec fn language_id_error(text: Seq<char>) -> Option<Seq<char>> {
    if text.contains('_') {
        Some(underscore_error())
    } else {
        match langid_parse(text) {
            Err(e) => Some(e),
            Ok(lang) => subtag_error(lang),
        }
    }
}

/// Parses a locale's language identifier, such as `en-US` or `fr`.
pub fn parse_language_id(s: &str) -> (r: Result<LanguageIdentifier, String>)
    ensures
        match r {
            Ok(_) => language_id_error(s@) is None,
            Err(e) => language_id_error(s@) == Some(e@),
        },
{
    let cs = chars_of(s);
    if has_char(&cs, '_') {
        let mut e = String::new();
        e.append("Language tags use hyphens ('-'), not underscores ('_')");
        return Err(e);
    }
    match parse_langid(s) {
        Err(e) => Err(e),
        Ok((id, lang)) => match check_language_subtag(lang.as_str()) {
            Some(e) => Err(e),
            None => Ok(id),
        },
    }
}

/// A file or directory inside a locale directory: its name, its path, whether
/// it is a regular file, and its text when it was read (only `.ftl` files are).
pub struct SubEntry {
    pub name: String,
    pub path: String,
    pub is_file: bool,
    pub content: Option<Result<String, String>>,
}

/// What listing a locale directory gave: the directory could not be read, one
/// of its entries could not be read, or its entries. A directory whose name is
/// not a language identifier is not read; it is given as having no entries.
pub enum SubListing {
    ReadFailed { error: String },
    EntryFailed { error: String },
    Entries { entries: Vec<SubEntry> },
}

/// What an entry of the locales directory is.
pub enum EntryKind {
    Dir { listing: SubListing },
    File { content: Option<Result<String, String>> },
    Other,
    Unknown { error: String },
}

/// An entry of the locales directory: its name, path and kind.
pub struct LocalesEntry {
    pub name: String,
    pub path: String,
    pub kind: EntryKind,
}

/// What reading the locales directory gave.
pub enum LocalesListing {
    Missing,
    NotADirectory,
    ReadFailed { error: String },
    EntryFailed { error: String },
    Entries { entries: Vec<LocalesEntry> },
}

/// The files of one locale.
pub struct LocaleFiles {
    pub id: String,
    pub files: Vec<LocaleFile>,
}

/// The locales found, ordered by id, and the locales directory.
pub struct LocalesData {
    pub locales: Vec<LocaleFiles>,
    pub locales_dir: String,
}

/// A locale file as path and text.
pub type FileView = (Seq<char>, Seq<char>);

/// A locale as its id and files.
pub type LocaleView = (Seq<char>, Seq<FileView>);

pub open spec fn file_view(f: LocaleFile) -> FileView {
    (f.path@, f.content@)
}

pub open spec fn locale_view(l: LocaleFiles) -> LocaleView {
    (l.id@, l.files@.map_values(|f: LocaleFile| file_view(f)))
}

pub open spec fn locales_view(ls: Seq<LocaleFiles>) -> Seq<LocaleView> {
    ls.map_values(|l: LocaleFiles| locale_view(l))
}

/// `x` put into `s` after the items whose keys do not come after its own.
pub open spec fn insert_sorted<T>(s: Seq<T>, key: spec_fn(T) -> Seq<char>, x: T) -> Seq<T>
    decreases s.len(),
{
    if s.len() == 0 {
        seq![x]
    } else if text_lt(key(x), key(s[0])) {
        seq![x] + s
    } else {
        seq![s[0]] + insert_sorted(s.drop_first(), key, x)
    }
}

/// `s` sorted by `key`, items with equal keys in their order in `s`.
pub open spec fn sort_by<T>(s: Seq<T>, key: spec_fn(T) -> Seq<char>) -> Seq<T>
    decreases s.len(),
{
    if s.len() == 0 {
        Seq::empty()
    } else {
        insert_sorted(sort_by(s.drop_last(), key), key, s.last())
    }
}

/// Where `insert_sorted` puts `x`: after the items whose keys do not come after its own.
pub proof fn lemma_insert_sorted_at<T>(s: Seq<T>, key: spec_fn(T) -> Seq<char>, x: T, p: int)
    requires
        0 <= p <= s.len(),
        forall|i: int| 0 <= i < p ==> !text_lt(key(x), #[trigger] key(s[i])),
        p < s.len() ==> text_lt(key(x), key(s[p])),
    ensures
        insert_sorted(s, key, x) == s.take(p) + seq![x] + s.skip(p),
    decreases p,
{
    if s.len() == 0 {
        assert(s.take(p) + seq![x] + s.skip(p) =~= seq![x]);
    } else if p == 0 {
        assert(s.take(0) + seq![x] + s.skip(0) =~= seq![x] + s);
    } else {
        let t = s.drop_first();
        assert forall|i: int| 0 <= i < p - 1 implies !text_lt(key(x), #[trigger] key(t[i])) by {
            assert(t[i] == s[i + 1]);
        }
        if p < s.len() {
            assert(t[p - 1] == s[p]);
        }
        lemma_insert_sorted_at(t, key, x, p - 1);
        assert(seq![s[0]] + (t.take(p - 1) + seq![x] + t.skip(p - 1)) =~= s.take(p) + seq![x] + s.skip(p));
    }
}

/// Entries are taken in the order of their names.
pub open spec fn by_entry_name() -> spec_fn(LocalesEntry) -> Seq<char> {
    |e: LocalesEntry| e.name@
}

pub open spec fn by_sub_name() -> spec_fn(SubEntry) -> Seq<char> {
    |e: SubEntry| e.name@
}

pub open spec fn by_locale_id() -> spec_fn(LocaleView) -> Seq<char> {
    |l: LocaleView| l.0
}

/// The path of `path` below `base` as `Path::strip_prefix` gives it, if `path`
/// lies below `base`.
pub uninterp spec fn path_strip_prefix(path: Seq<char>, base: Seq<char>) -> Option<Seq<char>>;

/// The part of a path below a base directory (`Path::strip_prefix`).
#[verifier::external_body]
fn strip_path_prefix(path: &str, base: &str) -> (r: Option<String>)
    ensures
        match r {
            Some(p) => path_strip_prefix(path@, base@) == Some(p@),
            None => path_strip_prefix(path@, base@) is None,
        },
{
    match std::path::Path::new(path).strip_prefix(base) {
        Ok(p) => Some(p.to_string_lossy().into_owned()),
        Err(_) => None,
    }
}

/// The path of a locale file as it is kept: relative to the manifest
/// directory when it lies inside it, else as found.
pub open spec fn kept_path(path: Seq<char>, manifest_dir: Seq<char>) -> Seq<char> {
    match path_strip_prefix(path, manifest_dir) {
        Some(p) => p,
        None => path,
    }
}

/// The path of a locale file relative to the manifest directory when it lies inside it.
pub fn relative_path(path: &str, manifest_dir: &str) -> (r: String)
    ensures
        r@ == kept_path(path@, manifest_dir@),
{
    match strip_path_prefix(path, manifest_dir) {
        Some(p) => p,
        None => {
            let mut r = String::new();
            r.append(path);
            r
        },
    }
}

/// The files kept so far for locale `id`, found as `upsert` finds its place.
pub open spec fn files_at_slot(ls: Seq<LocaleView>, id: Seq<char>) -> Seq<FileView>
    decreases ls.len(),
{
    if ls.len() == 0 {
        Seq::empty()
    } else if ls[0].0 == id {
        ls[0].1
    } else if text_lt(id, ls[0].0) {
        Seq::empty()
    } else {
        files_at_slot(ls.drop_first(), id)
    }
}

/// The locales with file `f` added to locale `id`, which is created when missing.
pub open spec fn add_locale_file(ls: Seq<LocaleView>, id: Seq<char>, f: FileView) -> Seq<LocaleView> {
    upsert(ls, by_locale_id(), (id, files_at_slot(ls, id).push(f)))
}

/// The locales found and the errors gathered so far.
pub struct LoadState {
    pub locales: Seq<LocaleView>,
    pub errors: Seq<Seq<char>>,
}

/// Reading the directory goes on with a state, or has stopped at an error.
pub enum Loading {
    Going(LoadState),
    Stopped(Seq<char>),
}

/// A name of a hidden entry.
pub open spec fn hidden(name: Seq<char>) -> bool {
    name.len() > 0 && name[0] == '.'
}

/// A name of a Fluent file.
pub open spec fn ftl_name(name: Seq<char>) -> bool {
    name.len() >= 4 && name.skip(name.len() - 4) == ".ftl"@
}

/// `s` with the error `e` added.
pub open spec fn with_error(s: LoadState, e: Seq<char>) -> LoadState {
    LoadState { locales: s.locales, errors: s.errors.push(e) }
}

/// The state after a Fluent file at `path` with text `content` for locale `id`:
/// its text kept, or the error of reading it; a file not read is passed over.
pub open spec fn load_file(s: LoadState, id: Seq<char>, manifest_dir: Seq<char>, path: Seq<char>, content: Option<Result<String, String>>) -> LoadState {
    match content {
        Some(Ok(text)) => LoadState {
            locales: add_locale_file(s.locales, id, (kept_path(path, manifest_dir), text@)),
            errors: s.errors,
        },
        Some(Err(e)) => with_error(s, "Failed to read file '"@ + path + "': "@ + e@),
        None => s,
    }
}

/// The visible Fluent files of a locale directory, in the order of the entries.
pub open spec fn ftl_entries(es: Seq<SubEntry>) -> Seq<SubEntry>
    decreases es.len(),
{
    if es.len() == 0 {
        Seq::empty()
    } else {
        let e = es.last();
        ftl_entries(es.drop_last()) + if !hidden(e.name@) && e.is_file && ftl_name(e.name@) {
            seq![e]
        } else {
            Seq::<SubEntry>::empty()
        }
    }
}

/// The state after the Fluent files `fs` of locale `id`, in order.
pub open spec fn load_files(s: LoadState, id: Seq<char>, manifest_dir: Seq<char>, fs: Seq<SubEntry>) -> LoadState
    decreases fs.len(),
{
    if fs.len() == 0 {
        s
    } else {
        let f = fs.last();
        load_file(load_files(s, id, manifest_dir, fs.drop_last()), id, manifest_dir, f.path@, f.content)
    }
}

/// The state after one entry of the locales directory (`rel` is the locales
/// path as the user wrote it): hidden entries and entries of other kinds are
/// passed over; a directory is a locale whose Fluent files are read in name
/// order; a `.ftl` file is a locale of its own; anything else is an error.
pub open spec fn load_entry(s: LoadState, rel: Seq<char>, manifest_dir: Seq<char>, e: LocalesEntry) -> Loading {
    let name = e.name@;
    let path = e.path@;
    if hidden(name) {
        Loading::Going(s)
    } else {
        match e.kind {
            EntryKind::Unknown { error } => Loading::Stopped("Failed to determine file type for '"@ + path + "': "@ + error@),
            EntryKind::Dir { listing } => match language_id_error(name) {
                Some(err) => Loading::Going(with_error(s,
                    "Invalid language identifier in directory name '"@ + name + "' in '"@ + rel + "': "@ + err + "."@)),
                None => match listing {
                    SubListing::ReadFailed { error } => Loading::Stopped("Failed to read subdirectory '"@ + path + "': "@ + error@),
                    SubListing::EntryFailed { error } => Loading::Stopped("Failed to read directory entry in '"@ + path + "': "@ + error@),
                    SubListing::Entries { entries } => {
                        let fs = sort_by(ftl_entries(entries@), by_sub_name());
                        if fs.len() == 0 {
                            Loading::Going(with_error(s, "Locale directory '"@ + path + "' contains no .ftl files."@))
                        } else {
                            Loading::Going(load_files(s, name, manifest_dir, fs))
                        }
                    },
                },
            },
            EntryKind::File { content } => if ftl_name(name) {
                let stem = name.take(name.len() - 4);
                match language_id_error(stem) {
                    Some(err) => Loading::Going(with_error(s,
                        "Invalid language identifier in filename '"@ + name + "' in '"@ + rel + "': "@ + err + "."@)),
                    None => Loading::Going(load_file(s, stem, manifest_dir, path, content)),
                }
            } else {
                Loading::Going(with_error(s, "Unexpected file '"@ + name + "' in locales directory '"@ + rel
                    + "'. Expected a .ftl file or a locale directory."@))
            },
            EntryKind::Other => Loading::Going(s),
        }
    }
}

/// The outcome of reading the entries in order; the first stop ends it.
pub open spec fn load_entries(rel: Seq<char>, manifest_dir: Seq<char>, es: Seq<LocalesEntry>) -> Loading
    decreases es.len(),
{
    if es.len() == 0 {
        Loading::Going(LoadState { locales: Seq::empty(), errors: Seq::empty() })
    } else {
        match load_entries(rel, manifest_dir, es.drop_last()) {
            Loading::Stopped(m) => Loading::Stopped(m),
            Loading::Going(s) => load_entry(s, rel, manifest_dir, es.last()),
        }
    }
}

/// The locales found in the locales directory at `full` (written `rel` by the
/// user), or the errors: every error about an entry, or the one error that
/// stopped the reading, or that no locale was found.
pub open spec fn spec_load_locales(rel: Seq<char>, full: Seq<char>, manifest_dir: Seq<char>, listing: LocalesListing) -> Result<Seq<LocaleView>, Seq<Seq<char>>> {
    match listing {
        LocalesListing::Missing => Err(seq!["Locales directory not found: "@ + full]),
        LocalesListing::NotADirectory => Err(seq!["Locales path is not a directory: "@ + full]),
        LocalesListing::ReadFailed { error } => Err(seq!["Failed to read locales directory '"@ + full + "': "@ + error@]),
        LocalesListing::EntryFailed { error } => Err(seq!["Failed to read directory entry: "@ + error@]),
        LocalesListing::Entries { entries } => match load_entries(rel, manifest_dir, sort_by(entries@, by_entry_name())) {
            Loading::Stopped(m) => Err(seq![m]),
            Loading::Going(s) => if s.errors.len() > 0 {
                Err(s.errors)
            } else if s.locales.len() == 0 {
                Err(seq!["No valid Fluent (.ftl) locales found in '"@ + full + "'."@])
            } else {
                Ok(s.locales)
            },
        },
    }
}

/// The items of `s` at the indices in `order`.
pub open spec fn pick<T>(s: Seq<T>, order: Seq<usize>) -> Seq<T> {
    order.map_values(|j: usize| s[j as int])
}

proof fn lemma_files_at_slot(ls: Seq<LocaleView>, id: Seq<char>, p: int)
    requires
        0 <= p <= ls.len(),
        forall|i: int| 0 <= i < p ==> text_lt(#[trigger] ls[i].0, id),
        p < ls.len() ==> !text_lt(ls[p].0, id),
    ensures
        files_at_slot(ls, id) == if p < ls.len() && ls[p].0 == id { ls[p].1 } else { Seq::<FileView>::empty() },
    decreases p,
{
    if ls.len() == 0 {
    } else if p == 0 {
        if ls[0].0 != id {
            lemma_text_lt_total(id, ls[0].0);
        }
    } else {
        lemma_text_lt_asym(ls[0].0, id);
        assert(ls[0].0 != id) by {
            if ls[0].0 == id {
                lemma_text_lt_asym(id, id);
            }
        }
        let t = ls.drop_first();
        assert forall|i: int| 0 <= i < p - 1 implies text_lt(#[trigger] t[i].0, id) by {
            assert(t[i] == ls[i + 1]);
        }
        if p < ls.len() {
            assert(t[p - 1] == ls[p]);
        }
        lemma_files_at_slot(t, id, p - 1);
    }
}

fn locale_slot(ls: &Vec<LocaleFiles>, id: &str) -> (p: usize)
    ensures
        p <= ls.len(),
        forall|i: int| 0 <= i < p ==> text_lt(#[trigger] locales_view(ls@)[i].0, id@),
        p < ls.len() ==> !text_lt(locales_view(ls@)[p as int].0, id@),
{
    let mut i: usize = 0;
    while i < ls.len()
        invariant
            i <= ls.len(),
            forall|j: int| 0 <= j < i ==> text_lt(#[trigger] locales_view(ls@)[j].0, id@),
        decreases ls.len() - i,
    {
        if !text_less(ls[i].id.as_str(), id) {
            return i;
        }
        i = i + 1;
    }
    i
}

/// Adds file `f` to locale `id`, creating the locale in its place when missing.
fn add_file_to_locales(ls: &mut Vec<LocaleFiles>, id: &str, f: LocaleFile)
    ensures
        locales_view(final(ls)@) == add_locale_file(locales_view(old(ls)@), id@, file_view(f)),
{
    let ghost v = locales_view(ls@);
    let ghost fv = file_view(f);
    let p = locale_slot(ls, id);
    let ghost x = (id@, files_at_slot(v, id@).push(fv));
    proof {
        lemma_files_at_slot(v, id@, p as int);
        assert forall|i: int| 0 <= i < p implies text_lt(#[trigger] by_locale_id()(v[i]), by_locale_id()(x)) by {
            assert(v[i].0 == locales_view(ls@)[i].0);
        }
        lemma_upsert_at(v, by_locale_id(), x, p as int);
    }
    if p < ls.len() && text_eq(ls[p].id.as_str(), id) {
        let mut e = ls.remove(p);
        let ghost old_files = e.files@;
        e.files.push(f);
        assert(locale_view(e) == x) by {
            assert(e.files@.map_values(|g: LocaleFile| file_view(g)) =~= old_files.map_values(|g: LocaleFile| file_view(g)).push(fv));
        }
        ls.insert(p, e);
        assert(locales_view(ls@) =~= v.take(p as int) + seq![x] + v.skip(p as int + 1));
    } else {
        let mut files: Vec<LocaleFile> = Vec::new();
        files.push(f);
        let mut name = String::new();
        name.append(id);
        let e = LocaleFiles { id: name, files };
        assert(locale_view(e) == x) by {
            assert(e.files@.map_values(|g: LocaleFile| file_view(g)) =~= seq![fv]);
            assert(files_at_slot(v, id@).push(fv) =~= seq![fv]);
        }
        ls.insert(p, e);
        assert(locales_view(ls@) =~= v.take(p as int) + seq![x] + v.skip(p as int));
    }
}

fn push_error(errors: &mut Vec<String>, e: String)
    ensures
        final(errors).deep_view() == old(errors).deep_view().push(e@),
{
    let ghost before = errors@;
    let ghost bd = errors.deep_view();
    let ghost ev = e@;
    errors.push(e);
    assert forall|k: int| 0 <= k < errors.len() implies errors.deep_view()[k] == bd.push(ev)[k] by {
        if k < before.len() {
            assert(errors@[k] == before[k]);
        }
    }
    assert(errors.deep_view() =~= bd.push(ev));
}

/// The state of the exec loop as a `LoadState`.
pub open spec fn state_of(ls: Seq<LocaleFiles>, errors: Seq<String>) -> LoadState {
    LoadState { locales: locales_view(ls), errors: errors.map_values(|e: String| e@) }
}

fn load_file_into(
    ls: &mut Vec<LocaleFiles>,
    errors: &mut Vec<String>,
    id: &str,
    manifest_dir: &str,
    path: &String,
    content: &Option<Result<String, String>>,
)
    ensures
        state_of(final(ls)@, final(errors)@) == load_file(state_of(old(ls)@, old(errors)@), id@, manifest_dir@, path@, *content),
{
    let ghost s0 = state_of(ls@, errors@);
    assert(errors.deep_view() =~= s0.errors);
    match content {
        Some(Ok(text)) => {
            let rel = relative_path(path.as_str(), manifest_dir);
            add_file_to_locales(ls, id, LocaleFile { path: rel, content: copy_string(text) });
        },
        Some(Err(e)) => {
            let mut m = String::new();
            m.append("Failed to read file '");
            m.append(path.as_str());
            m.append("': ");
            m.append(e.as_str());
            push_error(errors, m);
            assert(errors@.map_values(|e: String| e@) =~= errors.deep_view());
        },
        None => {},
    }
}


fn is_hidden(name: &str) -> (r: bool)
    ensures
        r == hidden(name@),
{
    let cs = chars_of(name);
    cs.len() > 0 && cs[0] == '.'
}

fn is_ftl_name(name: &str) -> (r: bool)
    ensures
        r == ftl_name(name@),
{
    let cs = chars_of(name);
    let n = cs.len();
    proof {
        reveal_strlit(".ftl");
    }
    if n < 4 {
        return false;
    }
    let r = cs[n - 4] == '.' && cs[n - 3] == 'f' && cs[n - 2] == 't' && cs[n - 1] == 'l';
    proof {
        let t = name@.skip(n - 4);
        if r {
            assert(t =~= ".ftl"@);
        } else if t == ".ftl"@ {
            assert(t[0] == '.' && t[1] == 'f' && t[2] == 't' && t[3] == 'l');
            assert(t[0] == cs@[n - 4]);
            assert(t[1] == cs@[n - 3]);
            assert(t[2] == cs@[n - 2]);
            assert(t[3] == cs@[n - 1]);
        }
    }
    r
}

fn entry_pos(entries: &Vec<LocalesEntry>, order: &Vec<usize>, x: usize) -> (p: usize)
    requires
        x < entries.len(),
        forall|j: int| 0 <= j < order.len() ==> order@[j] < entries.len(),
    ensures
        p <= order.len(),
        forall|k: int| 0 <= k < p ==> !text_lt(by_entry_name()(entries@[x as int]), #[trigger] by_entry_name()(pick(entries@, order@)[k])),
        p < order.len() ==> text_lt(by_entry_name()(entries@[x as int]), by_entry_name()(pick(entries@, order@)[p as int])),
{
    let mut k: usize = 0;
    while k < order.len()
        invariant
            k <= order.len(),
            x < entries.len(),
            forall|j: int| 0 <= j < order.len() ==> order@[j] < entries.len(),
            forall|m: int| 0 <= m < k ==> !text_lt(by_entry_name()(entries@[x as int]), #[trigger] by_entry_name()(pick(entries@, order@)[m])),
        decreases order.len() - k,
    {
        let j = order[k];
        assert(pick(entries@, order@)[k as int] == entries@[j as int]);
        if text_less(entries[x].name.as_str(), entries[j].name.as_str()) {
            return k;
        }
        k = k + 1;
    }
    k
}

/// The indices of the entries in the order of their names.
fn entry_order(entries: &Vec<LocalesEntry>) -> (order: Vec<usize>)
    ensures
        forall|j: int| 0 <= j < order.len() ==> order@[j] < entries.len(),
        pick(entries@, order@) == sort_by(entries@, by_entry_name()),
{
    let mut order: Vec<usize> = Vec::new();
    let mut i: usize = 0;
    assert(pick(entries@, order@) =~= sort_by(entries@.take(0), by_entry_name()));
    while i < entries.len()
        invariant
            i <= entries.len(),
            forall|j: int| 0 <= j < order.len() ==> order@[j] < entries.len(),
            pick(entries@, order@) == sort_by(entries@.take(i as int), by_entry_name()),
        decreases entries.len() - i,
    {
        let ghost before = pick(entries@, order@);
        let p = entry_pos(entries, &order, i);
        proof {
            lemma_insert_sorted_at(before, by_entry_name(), entries@[i as int], p as int);
            assert(entries@.take(i as int + 1).drop_last() =~= entries@.take(i as int));
        }
        order.insert(p, i);
        assert(pick(entries@, order@) =~= before.take(p as int) + seq![entries@[i as int]] + before.skip(p as int));
        i = i + 1;
    }
    assert(entries@.take(entries.len() as int) =~= entries@);
    order
}

fn sub_pos(entries: &Vec<SubEntry>, order: &Vec<usize>, x: usize) -> (p: usize)
    requires
        x < entries.len(),
        forall|j: int| 0 <= j < order.len() ==> order@[j] < entries.len(),
    ensures
        p <= order.len(),
        forall|k: int| 0 <= k < p ==> !text_lt(by_sub_name()(entries@[x as int]), #[trigger] by_sub_name()(pick(entries@, order@)[k])),
        p < order.len() ==> text_lt(by_sub_name()(entries@[x as int]), by_sub_name()(pick(entries@, order@)[p as int])),
{
    let mut k: usize = 0;
    while k < order.len()
        invariant
            k <= order.len(),
            x < entries.len(),
            forall|j: int| 0 <= j < order.len() ==> order@[j] < entries.len(),
            forall|m: int| 0 <= m < k ==> !text_lt(by_sub_name()(entries@[x as int]), #[trigger] by_sub_name()(pick(entries@, order@)[m])),
        decreases order.len() - k,
    {
        let j = order[k];
        assert(pick(entries@, order@)[k as int] == entries@[j as int]);
        if text_less(entries[x].name.as_str(), entries[j].name.as_str()) {
            return k;
        }
        k = k + 1;
    }
    k
}

/// The indices of the visible Fluent files of a locale directory, in the order of their names.
fn ftl_order(entries: &Vec<SubEntry>) -> (order: Vec<usize>)
    ensures
        forall|j: int| 0 <= j < order.len() ==> order@[j] < entries.len(),
        pick(entries@, order@) == sort_by(ftl_entries(entries@), by_sub_name()),
{
    let mut order: Vec<usize> = Vec::new();
    let mut i: usize = 0;
    assert(pick(entries@, order@) =~= sort_by(ftl_entries(entries@.take(0)), by_sub_name()));
    while i < entries.len()
        invariant
            i <= entries.len(),
            forall|j: int| 0 <= j < order.len() ==> order@[j] < entries.len(),
            pick(entries@, order@) == sort_by(ftl_entries(entries@.take(i as int)), by_sub_name()),
        decreases entries.len() - i,
    {
        let ghost before = pick(entries@, order@);
        let ghost fs = ftl_entries(entries@.take(i as int));
        let e = &entries[i];
        proof {
            assert(entries@.take(i as int + 1).drop_last() =~= entries@.take(i as int));
            assert(entries@.take(i as int + 1).last() == *e);
        }
        if !is_hidden(e.name.as_str()) && e.is_file && is_ftl_name(e.name.as_str()) {
            let p = sub_pos(entries, &order, i);
            proof {
                lemma_insert_sorted_at(before, by_sub_name(), *e, p as int);
                assert(ftl_entries(entries@.take(i as int + 1)) == fs + seq![*e]);
                assert((fs + seq![*e]).drop_last() =~= fs);
            }
            order.insert(p, i);
            assert(pick(entries@, order@) =~= before.take(p as int) + seq![*e] + before.skip(p as int));
        } else {
            assert(ftl_entries(entries@.take(i as int + 1)) =~= fs);
        }
        i = i + 1;
    }
    assert(entries@.take(entries.len() as int) =~= entries@);
    order
}


fn push_message(errors: &mut Vec<String>, m: String)
    ensures
        final(errors)@.map_values(|e: String| e@) == old(errors)@.map_values(|e: String| e@).push(m@),
{
    let ghost before = errors@;
    errors.push(m);
    assert(errors@.map_values(|e: String| e@) =~= before.map_values(|e: String| e@).push(m@));
}

/// A list of one message.
fn single(m: String) -> (v: Vec<String>)
    ensures
        v.deep_view() == seq![m@],
{
    let ghost mv = m@;
    let mut v: Vec<String> = Vec::new();
    v.push(m);
    assert(v.deep_view() =~= seq![mv]);
    v
}

/// Reads the Fluent files of a locale directory into locale `id`.
fn load_dir_files(
    ls: &mut Vec<LocaleFiles>,
    errors: &mut Vec<String>,
    id: &str,
    manifest_dir: &str,
    entries: &Vec<SubEntry>,
    order: &Vec<usize>,
)
    requires
        forall|j: int| 0 <= j < order.len() ==> order@[j] < entries.len(),
    ensures
        state_of(final(ls)@, final(errors)@) == load_files(state_of(old(ls)@, old(errors)@), id@, manifest_dir@, pick(entries@, order@)),
{
    let ghost s0 = state_of(ls@, errors@);
    let ghost fs = pick(entries@, order@);
    let mut j: usize = 0;
    assert(fs.take(0) =~= Seq::<SubEntry>::empty());
    while j < order.len()
        invariant
            j <= order.len(),
            fs == pick(entries@, order@),
            forall|k: int| 0 <= k < order.len() ==> order@[k] < entries.len(),
            state_of(ls@, errors@) == load_files(s0, id@, manifest_dir@, fs.take(j as int)),
        decreases order.len() - j,
    {
        let e = &entries[order[j]];
        proof {
            assert(fs.take(j as int + 1).drop_last() =~= fs.take(j as int));
            assert(fs.take(j as int + 1).last() == *e);
        }
        load_file_into(ls, errors, id, manifest_dir, &e.path, &e.content);
        j = j + 1;
    }
    assert(fs.take(order.len() as int) =~= fs);
}

/// Reads one entry of the locales directory; gives the error that stops the
/// reading, if there is one.
fn load_entry_into(
    ls: &mut Vec<LocaleFiles>,
    errors: &mut Vec<String>,
    rel: &str,
    manifest_dir: &str,
    e: &LocalesEntry,
) -> (stop: Option<String>)
    ensures
        match stop {
            Some(m) => load_entry(state_of(old(ls)@, old(errors)@), rel@, manifest_dir@, *e) == Loading::Stopped(m@),
            None => load_entry(state_of(old(ls)@, old(errors)@), rel@, manifest_dir@, *e) == Loading::Going(state_of(final(ls)@, final(errors)@)),
        },
{
    if is_hidden(e.name.as_str()) {
        return None;
    }
    match &e.kind {
        EntryKind::Unknown { error } => {
            let mut m = String::new();
            m.append("Failed to determine file type for '");
            m.append(e.path.as_str());
            m.append("': ");
            m.append(error.as_str());
            Some(m)
        },
        EntryKind::Dir { listing } => {
            match parse_language_id(e.name.as_str()) {
                Err(err) => {
                    let mut m = String::new();
                    m.append("Invalid language identifier in directory name '");
                    m.append(e.name.as_str());
                    m.append("' in '");
                    m.append(rel);
                    m.append("': ");
                    m.append(err.as_str());
                    m.append(".");
                    push_message(errors, m);
                    None
                },
                Ok(_) => match listing {
                    SubListing::ReadFailed { error } => {
                        let mut m = String::new();
                        m.append("Failed to read subdirectory '");
                        m.append(e.path.as_str());
                        m.append("': ");
                        m.append(error.as_str());
                        Some(m)
                    },
                    SubListing::EntryFailed { error } => {
                        let mut m = String::new();
                        m.append("Failed to read directory entry in '");
                        m.append(e.path.as_str());
                        m.append("': ");
                        m.append(error.as_str());
                        Some(m)
                    },
                    SubListing::Entries { entries } => {
                        let order = ftl_order(entries);
                        if order.len() == 0 {
                            let mut m = String::new();
                            m.append("Locale directory '");
                            m.append(e.path.as_str());
                            m.append("' contains no .ftl files.");
                            push_message(errors, m);
                        } else {
                            load_dir_files(ls, errors, e.name.as_str(), manifest_dir, entries, &order);
                        }
                        None
                    },
                },
            }
        },
        EntryKind::File { content } => {
            if is_ftl_name(e.name.as_str()) {
                let cs = chars_of(e.name.as_str());
                let stem_chars = crate::scan::sub_chars(&cs, 0, cs.len() - 4);
                let stem = crate::text::string_from(&stem_chars);
                assert(stem@ =~= e.name@.take(e.name@.len() - 4));
                match parse_language_id(stem.as_str()) {
                    Err(err) => {
                        let mut m = String::new();
                        m.append("Invalid language identifier in filename '");
                        m.append(e.name.as_str());
                        m.append("' in '");
                        m.append(rel);
                        m.append("': ");
                        m.append(err.as_str());
                        m.append(".");
                        push_message(errors, m);
                    },
                    Ok(_) => {
                        load_file_into(ls, errors, stem.as_str(), manifest_dir, &e.path, content);
                    },
                }
            } else {
                let mut m = String::new();
                m.append("Unexpected file '");
                m.append(e.name.as_str());
                m.append("' in locales directory '");
                m.append(rel);
                m.append("'. Expected a .ftl file or a locale directory.");
                push_message(errors, m);
            }
            None
        },
        EntryKind::Other => None,
    }
}

proof fn lemma_stopped_stays(rel: Seq<char>, manifest_dir: Seq<char>, es: Seq<LocalesEntry>, k: int, m: Seq<char>)
    requires
        0 <= k <= es.len(),
        load_entries(rel, manifest_dir, es.take(k)) == Loading::Stopped(m),
    ensures
        load_entries(rel, manifest_dir, es) == Loading::Stopped(m),
    decreases es.len() - k,
{
    if k == es.len() {
        assert(es.take(k) =~= es);
    } else {
        assert(es.take(k + 1).drop_last() =~= es.take(k));
        lemma_stopped_stays(rel, manifest_dir, es, k + 1, m);
    }
}

/// Finds the locales in a listing of the locales directory (at `full_path`,
/// written `rel_path` by the user): each locale is a directory named by a
/// language identifier holding `.ftl` files, or a `.ftl` file named by one.
pub fn load_locales(rel_path: &str, full_path: &str, manifest_dir: &str, listing: &LocalesListing) -> (r: Result<LocalesData, Vec<String>>)
    ensures
        match r {
            Ok(d) => spec_load_locales(rel_path@, full_path@, manifest_dir@, *listing) == Ok::<Seq<LocaleView>, Seq<Seq<char>>>(locales_view(d.locales@))
                && d.locales_dir@ == full_path@,
            Err(e) => spec_load_locales(rel_path@, full_path@, manifest_dir@, *listing) == Err::<Seq<LocaleView>, Seq<Seq<char>>>(e.deep_view()),
        },
{
    match listing {
        LocalesListing::Missing => {
            let mut m = String::new();
            m.append("Locales directory not found: ");
            m.append(full_path);
            return Err(single(m));
        },
        LocalesListing::NotADirectory => {
            let mut m = String::new();
            m.append("Locales path is not a directory: ");
            m.append(full_path);
            return Err(single(m));
        },
        LocalesListing::ReadFailed { error } => {
            let mut m = String::new();
            m.append("Failed to read locales directory '");
            m.append(full_path);
            m.append("': ");
            m.append(error.as_str());
            return Err(single(m));
        },
        LocalesListing::EntryFailed { error } => {
            let mut m = String::new();
            m.append("Failed to read directory entry: ");
            m.append(error.as_str());
            return Err(single(m));
        },
        LocalesListing::Entries { entries } => {
            let order = entry_order(entries);
            let ghost es = pick(entries@, order@);
            let mut ls: Vec<LocaleFiles> = Vec::new();
            let mut errors: Vec<String> = Vec::new();
            proof {
                assert(es.take(0) =~= Seq::<LocalesEntry>::empty());
                assert(locales_view(ls@) =~= Seq::<LocaleView>::empty());
                assert(errors@.map_values(|e: String| e@) =~= Seq::<Seq<char>>::empty());
            }
            let mut j: usize = 0;
            while j < order.len()
                invariant
                    j <= order.len(),
                    es == pick(entries@, order@),
                    es == sort_by(entries@, by_entry_name()),
                    *listing == (LocalesListing::Entries { entries: *entries }),
                    forall|k: int| 0 <= k < order.len() ==> order@[k] < entries.len(),
                    load_entries(rel_path@, manifest_dir@, es.take(j as int)) == Loading::Going(state_of(ls@, errors@)),
                decreases order.len() - j,
            {
                let e = &entries[order[j]];
                let ghost st = state_of(ls@, errors@);
                proof {
                    assert(es.take(j as int + 1).drop_last() =~= es.take(j as int));
                    assert(es.take(j as int + 1).last() == *e);
                    assert(load_entries(rel_path@, manifest_dir@, es.take(j as int + 1)) == load_entry(st, rel_path@, manifest_dir@, *e));
                }
                match load_entry_into(&mut ls, &mut errors, rel_path, manifest_dir, e) {
                    Some(m) => {
                        proof {
                            lemma_stopped_stays(rel_path@, manifest_dir@, es, j as int + 1, m@);
                            assert(load_entries(rel_path@, manifest_dir@, es) == Loading::Stopped(m@));
                            assert(load_entries(rel_path@, manifest_dir@, sort_by(entries@, by_entry_name())) == Loading::Stopped(m@));
                            assert(spec_load_locales(rel_path@, full_path@, manifest_dir@, *listing) == Err::<Seq<LocaleView>, Seq<Seq<char>>>(seq![m@]));
                        }
                        return Err(single(m));
                    },
                    None => {},
                }
                j = j + 1;
            }
            assert(es.take(order.len() as int) =~= es);
            assert(errors.deep_view() =~= errors@.map_values(|e: String| e@));
            if errors.len() > 0 {
                return Err(errors);
            }
            if ls.len() == 0 {
                let mut m = String::new();
                m.append("No valid Fluent (.ftl) locales found in '");
                m.append(full_path);
                m.append("'.");
                return Err(single(m));
            } else {
                let mut dir = String::new();
                dir.append(full_path);
                return Ok(LocalesData { locales: ls, locales_dir: dir });
            }
        },
    }
}

/// Locales ordered by id with no id twice, each named by a language
/// identifier the locales accept and each with at least one file.
pub open spec fn locales_well_formed(ls: Seq<LocaleView>) -> bool {
    &&& strictly_sorted(ls, by_locale_id())
    &&& forall|i: int| 0 <= i < ls.len() ==> language_id_error(#[trigger] ls[i].0) is None && ls[i].1.len() > 0
}

proof fn lemma_add_locale_file_wf(ls: Seq<LocaleView>, id: Seq<char>, f: FileView)
    requires
        locales_well_formed(ls),
        language_id_error(id) is None,
    ensures
        locales_well_formed(add_locale_file(ls, id, f)),
{
    let x = (id, files_at_slot(ls, id).push(f));
    law_upsert_keeps_order(ls, by_locale_id(), x);
    let u = upsert(ls, by_locale_id(), x);
    assert forall|i: int| 0 <= i < u.len() implies language_id_error(#[trigger] u[i].0) is None && u[i].1.len() > 0 by {
        assert(u.contains(u[i]));
        if u[i] != x {
            let k = choose|k: int| 0 <= k < ls.len() && ls[k] == u[i];
            assert(language_id_error(ls[k].0) is None);
        }
    }
}

proof fn lemma_load_file_wf(s: LoadState, id: Seq<char>, manifest_dir: Seq<char>, path: Seq<char>, content: Option<Result<String, String>>)
    requires
        locales_well_formed(s.locales),
        language_id_error(id) is None,
    ensures
        locales_well_formed(load_file(s, id, manifest_dir, path, content).locales),
{
    match content {
        Some(Ok(text)) => {
            lemma_add_locale_file_wf(s.locales, id, (kept_path(path, manifest_dir), text@));
        },
        _ => {},
    }
}

proof fn lemma_load_files_wf(s: LoadState, id: Seq<char>, manifest_dir: Seq<char>, fs: Seq<SubEntry>)
    requires
        locales_well_formed(s.locales),
        language_id_error(id) is None,
    ensures
        locales_well_formed(load_files(s, id, manifest_dir, fs).locales),
    decreases fs.len(),
{
    if fs.len() > 0 {
        lemma_load_files_wf(s, id, manifest_dir, fs.drop_last());
        lemma_load_file_wf(load_files(s, id, manifest_dir, fs.drop_last()), id, manifest_dir, fs.last().path@, fs.last().content);
    }
}

proof fn lemma_load_entry_wf(s: LoadState, rel: Seq<char>, manifest_dir: Seq<char>, e: LocalesEntry)
    requires
        locales_well_formed(s.locales),
    ensures
        load_entry(s, rel, manifest_dir, e) matches Loading::Going(t) ==> locales_well_formed(t.locales),
{
    let name = e.name@;
    if !hidden(name) {
        match e.kind {
            EntryKind::Dir { listing } => {
                if language_id_error(name) is None {
                    match listing {
                        SubListing::Entries { entries } => {
                            lemma_load_files_wf(s, name, manifest_dir, sort_by(ftl_entries(entries@), by_sub_name()));
                        },
                        _ => {},
                    }
                }
            },
            EntryKind::File { content } => {
                if ftl_name(name) {
                    let stem = name.take(name.len() - 4);
                    if language_id_error(stem) is None {
                        lemma_load_file_wf(s, stem, manifest_dir, e.path@, content);
                    }
                }
            },
            _ => {},
        }
    }
}

proof fn lemma_load_entries_wf(rel: Seq<char>, manifest_dir: Seq<char>, es: Seq<LocalesEntry>)
    ensures
        load_entries(rel, manifest_dir, es) matches Loading::Going(t) ==> locales_well_formed(t.locales),
    decreases es.len(),
{
    if es.len() > 0 {
        lemma_load_entries_wf(rel, manifest_dir, es.drop_last());
        match load_entries(rel, manifest_dir, es.drop_last()) {
            Loading::Going(s) => {
                lemma_load_entry_wf(s, rel, manifest_dir, es.last());
            },
            _ => {},
        }
    }
}

/// The locales found are ordered by id with no id twice; there is at least
/// one; each is named by a valid language identifier and has at least one file.
pub proof fn law_loaded_locales_valid(rel: Seq<char>, full: Seq<char>, manifest_dir: Seq<char>, listing: LocalesListing)
    ensures
        spec_load_locales(rel, full, manifest_dir, listing) matches Ok(ls) ==> ls.len() > 0 && locales_well_formed(ls),
{
    match listing {
        LocalesListing::Entries { entries } => {
            lemma_load_entries_wf(rel, manifest_dir, sort_by(entries@, by_entry_name()));
        },
        _ => {},
    }
}

/// Whether an entry of the locales directory is passed over (a hidden one);
/// nothing of it needs to be read.
pub fn skips_entry(name: &str) -> (r: bool)
    ensures
        r == hidden(name@),
{
    is_hidden(name)
}

/// Whether the entries of a directory of the locales directory are needed:
/// it is not hidden and its name is a language identifier.
pub fn lists_directory(name: &str) -> (r: bool)
    ensures
        r == (!hidden(name@) && language_id_error(name@) is None),
{
    !is_hidden(name) && parse_language_id(name).is_ok()
}

/// Whether the text of a file of the locales directory is needed: it is not
/// hidden, and it is a `.ftl` file named by a language identifier.
pub fn reads_locale_file(name: &str) -> (r: bool)
    ensures
        r == (!hidden(name@) && ftl_name(name@) && language_id_error(name@.take(name@.len() - 4)) is None),
{
    if is_hidden(name) || !is_ftl_name(name) {
        return false;
    }
    let cs = chars_of(name);
    let stem_chars = crate::scan::sub_chars(&cs, 0, cs.len() - 4);
    let stem = crate::text::string_from(&stem_chars);
    assert(stem@ =~= name@.take(name@.len() - 4));
    parse_language_id(stem.as_str()).is_ok()
}

/// Whether the text of an entry of a locale directory is needed: a visible
/// regular `.ftl` file.
pub fn reads_sub_file(name: &str, is_file: bool) -> (r: bool)
    ensures
        r == (!hidden(name@) && is_file && ftl_name(name@)),
{
    !is_hidden(name) && is_file && is_ftl_name(name)
}

} // verus!
