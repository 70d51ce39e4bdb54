//! What the generated module says of each message: its documentation, the
//! link to its source and the names of its parameters.

use vstd::prelude::*;
use crate::text::{chars_of, decimal, decimal_string, push_char};
use crate::ast_util::{rust_ident_of, to_rust_ident, ParsedMessage};
use crate::loader::{LocaleFiles, LocalesData};

verus! {

/// The path `rel` joined to `base` as `Path::join` gives it.
pub uninterp spec fn path_join(base: Seq<char>, rel: Seq<char>) -> Seq<char>;

/// Joins a path to a base directory (`Path::join`).
#[verifier::external_body]
fn join_path(base: &str, rel: &str) -> (r: String)
    ensures
        r@ == path_join(base@, rel@),
{
    std::path::Path::new(base).join(rel).to_string_lossy().into_owned()
}

/// `s` with each backslash made a slash.
pub open spec fn forward_slashes(s: Seq<char>) -> Seq<char> {
    s.map_values(|c: char| if c == '\\' { '/' } else { c })
}

/// The link to line `line` of the file at absolute path `abs`.
pub open spec fn spec_file_uri(abs: Seq<char>, line: nat) -> Seq<char> {
    let p = forward_slashes(abs);
    if p.len() > 0 && p[0] == '/' {
        "file://"@ + p + "#L"@ + decimal(line)
    } else {
        "file:///"@ + p + "#L"@ + decimal(line)
    }
}

/// The documentation of a message's function: its definition as a Fluent
/// block, then a link to where it is defined.
pub open spec fn spec_doc_comment(raw: Seq<char>, file_path: Seq<char>, line: nat, uri: Seq<char>) -> Seq<char> {
    "```fluent\n"@ + raw + "\n```\n["@ + file_path + ":"@ + decimal(line) + "]("@ + uri + ")"@
}

/// The link to a line of a file given by its absolute path.
pub fn file_uri(abs_path: &str, line: usize) -> (r: String)
    ensures
        r@ == spec_file_uri(abs_path@, line as nat),
{
    let cs = chars_of(abs_path);
    let mut p = String::new();
    let mut i: usize = 0;
    while i < cs.len()
        invariant
            i <= cs.len(),
            cs@ == abs_path@,
            p@ == forward_slashes(abs_path@.take(i as int)),
        decreases cs.len() - i,
    {
        let c = cs[i];
        push_char(&mut p, if c == '\\' { '/' } else { c });
        i = i + 1;
        assert(p@ =~= forward_slashes(abs_path@.take(i as int)));
    }
    assert(abs_path@.take(cs.len() as int) =~= abs_path@);
    let pv = chars_of(p.as_str());
    let mut r = String::new();
    if pv.len() > 0 && pv[0] == '/' {
        r.append("file://");
    } else {
        r.append("file:///");
    }
    r.append(p.as_str());
    r.append("#L");
    let n = decimal_string(line as u128);
    r.append(n.as_str());
    r
}

/// The documentation of a message's function.
pub fn doc_comment(raw: &str, file_path: &str, line: usize, uri: &str) -> (r: String)
    ensures
        r@ == spec_doc_comment(raw@, file_path@, line as nat, uri@),
{
    let mut r = String::new();
    r.append("```fluent\n");
    r.append(raw);
    r.append("\n```\n[");
    r.append(file_path);
    r.append(":");
    let n = decimal_string(line as u128);
    r.append(n.as_str());
    r.append("](");
    r.append(uri);
    r.append(")");
    r
}

/// The documentation of the function generated for a message of a crate whose
/// manifest directory is `manifest_path`.
pub fn message_doc(msg: &ParsedMessage, manifest_path: &str) -> (r: String)
    ensures
        r@ == spec_doc_comment(msg.raw_definition@, msg.file_path@, msg.line as nat,
            spec_file_uri(path_join(manifest_path@, msg.file_path@), msg.line as nat)),
{
    let abs = join_path(manifest_path, msg.file_path.as_str());
    let uri = file_uri(abs.as_str(), msg.line);
    doc_comment(msg.raw_definition.as_str(), msg.file_path.as_str(), msg.line, uri.as_str())
}

/// The Rust names of the parameters of a message's function, one per variable.
pub fn param_idents(variables: &Vec<String>) -> (r: Vec<String>)
    ensures
        r.deep_view() == variables.deep_view().map_values(|v: Seq<char>| rust_ident_of(v)),
{
    let mut r: Vec<String> = Vec::new();
    let mut i: usize = 0;
    while i < variables.len()
        invariant
            i <= variables.len(),
            r.deep_view() == variables.deep_view().take(i as int).map_values(|v: Seq<char>| rust_ident_of(v)),
        decreases variables.len() - i,
    {
        let ghost before = r@;
        let ghost bd = r.deep_view();
        let id = to_rust_ident(variables[i].as_str());
        let ghost iv = id@;
        r.push(id);
        proof {
            assert(variables.deep_view()[i as int] == variables@[i as int]@);
            assert forall|k: int| 0 <= k < r.len() implies r.deep_view()[k] == bd.push(iv)[k] by {
                if k < before.len() {
                    assert(r@[k] == before[k]);
                }
            }
            assert(variables.deep_view().take(i as int + 1).map_values(|v: Seq<char>| rust_ident_of(v))
                =~= variables.deep_view().take(i as int).map_values(|v: Seq<char>| rust_ident_of(v)).push(iv));
            assert(r.deep_view() =~= bd.push(iv));
        }
        i = i + 1;
    }
    assert(variables.deep_view().take(variables.len() as int) =~= variables.deep_view());
    r
}

/// The ids of the locales found, in order.
pub fn available_locale_ids(data: &LocalesData) -> (r: Vec<String>)
    ensures
        r.deep_view() == data.locales@.map_values(|l: LocaleFiles| l.id@),
{
    let mut r: Vec<String> = Vec::new();
    let mut i: usize = 0;
    while i < data.locales.len()
        invariant
            i <= data.locales.len(),
            r.deep_view() == data.locales@.take(i as int).map_values(|l: LocaleFiles| l.id@),
        decreases data.locales.len() - i,
    {
        let ghost before = r@;
        let ghost bd = r.deep_view();
        let id = crate::text::copy_string(&data.locales[i].id);
        let ghost iv = id@;
        r.push(id);
        proof {
            assert forall|k: int| 0 <= k < r.len() implies r.deep_view()[k] == bd.push(iv)[k] by {
                if k < before.len() {
                    assert(r@[k] == before[k]);
                }
            }
            assert(data.locales@.take(i as int + 1).map_values(|l: LocaleFiles| l.id@)
                =~= data.locales@.take(i as int).map_values(|l: LocaleFiles| l.id@).push(iv));
            assert(r.deep_view() =~= bd.push(iv));
        }
        i = i + 1;
    }
    assert(data.locales@.take(data.locales.len() as int) =~= data.locales@);
    r
}

} // verus!
