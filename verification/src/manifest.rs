//! Where the generated module takes `fluent_bundle` from, decided by the
//! dependencies of the user's manifest.

use vstd::prelude::*;
use crate::text::text_eq;

verus! {

/// A value of a TOML document as far as the decision reads it: text, arrays,
/// tables (their entries in the order the parsed table yields them, which is
/// by key), and anything else.
pub enum TomlValue {
    Text { text: String },
    Array { items: Vec<TomlValue> },
    Table { entries: Vec<TomlEntry> },
    Other,
}

/// An entry of a TOML table.
pub struct TomlEntry {
    pub key: String,
    pub value: TomlValue,
}

/// Where the generated code imports `fluent_bundle` from: the crate itself, or
/// its re-export by `ply_engine`.
pub enum BundleSource {
    FluentBundle,
    PlyEngine,
}

/// The type `toml::Value`, read only by the conversion below.
#[verifier::external_type_specification]
#[verifier::external_body]
pub struct ExTomlValue(toml::Value);

/// Converts a TOML value, variant for variant; numbers, booleans and dates
/// become `Other`.
#[verifier::external_body]
fn convert_toml(v: &toml::Value) -> TomlValue {
    match v {
        toml::Value::String(s) => TomlValue::Text { text: s.clone() },
        toml::Value::Array(a) => TomlValue::Array { items: a.iter().map(|x| convert_toml(x)).collect() },
        toml::Value::Table(t) => TomlValue::Table {
            entries: t.iter().map(|(k, x)| TomlEntry { key: k.clone(), value: convert_toml(x) }).collect(),
        },
        _ => TomlValue::Other,
    }
}

/// The document that `toml::from_str::<toml::Value>` reads from a text, if it parses.
pub uninterp spec fn toml_document(text: Seq<char>) -> Option<TomlValue>;

/// Parses a manifest's text as TOML (`toml::from_str::<toml::Value>`).
#[verifier::external_body]
fn parse_toml(text: &str) -> (r: Option<TomlValue>)
    ensures
        r == toml_document(text@),
{
    match toml::from_str::<toml::Value>(text) {
        Ok(v) => Some(convert_toml(&v)),
        Err(_) => None,
    }
}

/// The value of the first entry with key `key`.
pub open spec fn entry_value(es: Seq<TomlEntry>, key: Seq<char>) -> Option<TomlValue>
    decreases es.len(),
{
    if es.len() == 0 {
        None
    } else if es[0].key@ == key {
        Some(es[0].value)
    } else {
        entry_value(es.drop_first(), key)
    }
}

/// The value under `key` of a table (`toml::Value::get`); nothing for another value.
pub open spec fn lookup(v: TomlValue, key: Seq<char>) -> Option<TomlValue> {
    match v {
        TomlValue::Table { entries } => entry_value(entries@, key),
        _ => None,
    }
}

/// A dependency whose `features` array holds the text `locales`.
pub open spec fn enables_locales(dep: TomlValue) -> bool {
    match lookup(dep, "features"@) {
        Some(TomlValue::Array { items }) => exists|i: int| 0 <= i < items.len()
            && (#[trigger] items@[i] matches TomlValue::Text { text } && text@ == "locales"@),
        _ => false,
    }
}

pub open spec fn ply_engine_name(name: Seq<char>) -> bool {
    name == "ply-engine"@ || name == "ply_engine"@
}

/// The error for a `ply-engine` dependency without the `locales` feature.
pub open spec fn missing_feature_error() -> Seq<char> {
    "ply-engine was found in dependencies, but the 'locales' feature is not enabled. Please enable it in Cargo.toml: ply-engine = { version = \"...\", features = [\"locales\"] }"@
}

/// The source decided by the first `ply-engine` dependency, if there is one.
pub open spec fn dependency_source(deps: Seq<TomlEntry>) -> Result<BundleSource, Seq<char>>
    decreases deps.len(),
{
    if deps.len() == 0 {
        Ok(BundleSource::FluentBundle)
    } else if ply_engine_name(deps[0].key@) {
        if enables_locales(deps[0].value) {
            Ok(BundleSource::PlyEngine)
        } else {
            Err(missing_feature_error())
        }
    } else {
        dependency_source(deps.drop_first())
    }
}

/// The source decided by a manifest document (nothing when it did not parse):
/// `ply_engine` when the dependencies hold `ply-engine` with the `locales`
/// feature, an error when they hold it without, else `fluent_bundle`.
pub open spec fn spec_bundle_source(doc: Option<TomlValue>) -> Result<BundleSource, Seq<char>> {
    match doc {
        None => Ok(BundleSource::FluentBundle),
        Some(root) => match lookup(root, "dependencies"@) {
            Some(TomlValue::Table { entries }) => dependency_source(entries@),
            _ => Ok(BundleSource::FluentBundle),
        },
    }
}

/// The same result, with the error as a `String`.
pub open spec fn same_result(r: Result<BundleSource, String>, s: Result<BundleSource, Seq<char>>) -> bool {
    match r {
        Ok(b) => s == Ok::<BundleSource, Seq<char>>(b),
        Err(e) => s == Err::<BundleSource, Seq<char>>(e@),
    }
}

fn entry_position(es: &Vec<TomlEntry>, key: &str) -> (r: Option<usize>)
    ensures
        match r {
            Some(i) => i < es.len() && entry_value(es@, key@) == Some(es@[i as int].value),
            None => entry_value(es@, key@) is None,
        },
{
    let mut i: usize = 0;
    assert(es@.skip(0) =~= es@);
    while i < es.len()
        invariant
            i <= es.len(),
            entry_value(es@, key@) == entry_value(es@.skip(i as int), key@),
        decreases es.len() - i,
    {
        assert(es@.skip(i as int)[0] == es@[i as int]);
        if text_eq(es[i].key.as_str(), key) {
            return Some(i);
        }
        assert(es@.skip(i as int).drop_first() =~= es@.skip(i as int + 1));
        i = i + 1;
    }
    None
}

fn lookup_value<'a>(v: &'a TomlValue, key: &str) -> (r: Option<&'a TomlValue>)
    ensures
        match r {
            Some(x) => lookup(*v, key@) == Some(*x),
            None => lookup(*v, key@) is None,
        },
{
    match v {
        TomlValue::Table { entries } => match entry_position(entries, key) {
            Some(i) => Some(&entries[i].value),
            None => None,
        },
        _ => None,
    }
}

fn has_locales_feature(dep: &TomlValue) -> (r: bool)
    ensures
        r == enables_locales(*dep),
{
    match lookup_value(dep, "features") {
        Some(TomlValue::Array { items }) => {
            let mut i: usize = 0;
            while i < items.len()
                invariant
                    i <= items.len(),
                    lookup(*dep, "features"@) == Some(TomlValue::Array { items: *items }),
                    forall|k: int| 0 <= k < i ==> !(#[trigger] items@[k] matches TomlValue::Text { text } && text@ == "locales"@),
                decreases items.len() - i,
            {
                match &items[i] {
                    TomlValue::Text { text } => {
                        if text_eq(text.as_str(), "locales") {
                            assert(items@[i as int] matches TomlValue::Text { text } && text@ == "locales"@);
                            return true;
                        }
                    },
                    _ => {},
                }
                i = i + 1;
            }
            false
        },
        _ => false,
    }
}

/// Decides where `fluent_bundle` comes from, given the manifest's document.
pub fn bundle_source(doc: &Option<TomlValue>) -> (r: Result<BundleSource, String>)
    ensures
        same_result(r, spec_bundle_source(*doc)),
{
    let root = match doc {
        None => {
            return Ok(BundleSource::FluentBundle);
        },
        Some(root) => root,
    };
    match lookup_value(root, "dependencies") {
        Some(TomlValue::Table { entries }) => {
            let mut i: usize = 0;
            assert(entries@.skip(0) =~= entries@);
            while i < entries.len()
                invariant
                    i <= entries.len(),
                    spec_bundle_source(*doc) == dependency_source(entries@),
                    dependency_source(entries@) == dependency_source(entries@.skip(i as int)),
                decreases entries.len() - i,
            {
                let e = &entries[i];
                assert(entries@.skip(i as int)[0] == *e);
                if text_eq(e.key.as_str(), "ply-engine") || text_eq(e.key.as_str(), "ply_engine") {
                    assert(dependency_source(entries@.skip(i as int)) == if enables_locales(e.value) {
                        Ok::<BundleSource, Seq<char>>(BundleSource::PlyEngine)
                    } else {
                        Err::<BundleSource, Seq<char>>(missing_feature_error())
                    });
                    if has_locales_feature(&e.value) {
                        return Ok(BundleSource::PlyEngine);
                    } else {
                        let mut m = String::new();
                        m.append("ply-engine was found in dependencies, but the 'locales' feature is not enabled. Please enable it in Cargo.toml: ply-engine = { version = \"...\", features = [\"locales\"] }");
                        return Err(m);
                    }
                }
                assert(entries@.skip(i as int).drop_first() =~= entries@.skip(i as int + 1));
                i = i + 1;
            }
            Ok(BundleSource::FluentBundle)
        },
        _ => Ok(BundleSource::FluentBundle),
    }
}

/// Decides where `fluent_bundle` comes from, given the text of the manifest
/// (nothing when it could not be read).
pub fn resolve_fluent_bundle_source(manifest_text: Option<&str>) -> (r: Result<BundleSource, String>)
    ensures
        match manifest_text {
            None => r == Ok::<BundleSource, String>(BundleSource::FluentBundle),
            Some(t) => same_result(r, spec_bundle_source(toml_document(t@))),
        },
{
    match manifest_text {
        None => Ok(BundleSource::FluentBundle),
        Some(t) => {
            let doc = parse_toml(t);
            bundle_source(&doc)
        },
    }
}

} // verus!
