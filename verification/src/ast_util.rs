//! Parsed entries of a locale and the helpers that locate and quote source text.

use vstd::prelude::*;
use crate::text::{
    strictly_sorted, law_upsert_keeps_order,
    text_eq, text_less, text_lt, upsert, lemma_upsert_at, byte_len,
    char_width, chars_of, copy_string, has_char, has_prefix, join, lines_of, skip_ws,
    starts_with, text_lines, trim_start, utf8_width, is_ws,
};
use crate::syntax_error::{
    on_char_boundary, slices_text, spec_format_syntax_error, format_syntax_error, char_index_at,
    kind_slices_text,
};
use crate::loader::{LocaleFile, LocaleFiles, LocalesData};
use crate::validator::LocaleEntry;
use crate::fluent_model::{FtlEntry, FtlError, FtlParse, parse_ftl, str_address, fluent_parse_errors, entry_shapes, fluent_entry_shapes,
    EntryShape, entry_variables, entry_refs, file_source, entry_shape,
    add_unique, args_refs, args_var_uses, cat_refs, elements_refs, elements_var_uses, expr_refs,
    expr_var_uses, function_ref_view, inline_refs, inline_var_uses, inlines_refs, inlines_var_uses,
    lemma_add_unique_concat, message_ref_view, named_refs, named_var_uses, named_views, no_refs,
    offset_in, pattern_refs, pattern_var_uses, patterns_refs, patterns_var_uses, sat_add,
    term_ref_view, FtlCallArgs, FtlElement, FtlExpression, FtlInline, FtlNamedArg, FtlPattern, RefView, Refs, Source,
};

verus! {

/// A named argument of a call and the byte span of its name.
pub struct NamedArgSpan {
    pub name: String,
    pub start: usize,
    pub end: usize,
}

/// A reference to a term, message or function, with the byte span of its
/// name, the number of positional arguments and the named arguments.
pub struct ReferenceSpan {
    pub name: String,
    pub start: usize,
    pub end: usize,
    pub positional_count: usize,
    pub named_args: Vec<NamedArgSpan>,
}

/// A term (`-name = ...`) of a locale.
pub struct ParsedTerm {
    pub id: String,
    pub raw_definition: String,
    pub file_path: String,
    pub line: usize,
    pub variables: Vec<String>,
    pub term_references: Vec<ReferenceSpan>,
    pub message_references: Vec<ReferenceSpan>,
    pub function_references: Vec<ReferenceSpan>,
}

/// A message of a locale; `rust_ident` is the text of the identifier of the
/// function generated for it.
pub struct ParsedMessage {
    pub id: String,
    pub rust_ident: String,
    pub variables: Vec<String>,
    pub raw_definition: String,
    pub file_path: String,
    pub line: usize,
    pub term_references: Vec<ReferenceSpan>,
    pub message_references: Vec<ReferenceSpan>,
    pub function_references: Vec<ReferenceSpan>,
}

/// The text of a source file of a locale.
pub struct FileContent {
    pub path: String,
    pub content: String,
}

/// All entries of a locale: messages and terms each sorted by id without
/// repeats, and the text of each file by path.
pub struct ParsedLocale {
    pub messages: Vec<ParsedMessage>,
    pub terms: Vec<ParsedTerm>,
    pub file_contents: Vec<FileContent>,
}

/// Index of the first term with the given id, or -1.
pub open spec fn term_index(ts: Seq<ParsedTerm>, id: Seq<char>) -> int
    decreases ts.len(),
{
    if ts.len() == 0 {
        -1
    } else if ts[0].id@ == id {
        0
    } else {
        let r = term_index(ts.drop_first(), id);
        if r < 0 {
            -1
        } else {
            r + 1
        }
    }
}

/// Index of the first message with the given id, or -1.
pub open spec fn message_index(ms: Seq<ParsedMessage>, id: Seq<char>) -> int
    decreases ms.len(),
{
    if ms.len() == 0 {
        -1
    } else if ms[0].id@ == id {
        0
    } else {
        let r = message_index(ms.drop_first(), id);
        if r < 0 {
            -1
        } else {
            r + 1
        }
    }
}

/// The text of the file at `path`, or nothing when the locale has no such file.
pub open spec fn content_of(files: Seq<FileContent>, path: Seq<char>) -> Seq<char>
    decreases files.len(),
{
    if files.len() == 0 {
        Seq::<char>::empty()
    } else if files[0].path@ == path {
        files[0].content@
    } else {
        content_of(files.drop_first(), path)
    }
}

/// The index of a term by id is that of the first term with the id, or -1 when none has it.
pub proof fn lemma_term_index_pub(ts: Seq<ParsedTerm>, id: Seq<char>)
    ensures
        -1 <= term_index(ts, id) < ts.len(),
        term_index(ts, id) >= 0 ==> ts[term_index(ts, id)].id@ == id,
        term_index(ts, id) < 0 ==> forall|k: int| 0 <= k < ts.len() ==> #[trigger] ts[k].id@ != id,
{
    lemma_term_index(ts, id);
}

/// The index of a message by id is that of the first message with the id, or -1 when none has it.
pub proof fn lemma_message_index_pub(ms: Seq<ParsedMessage>, id: Seq<char>)
    ensures
        -1 <= message_index(ms, id) < ms.len(),
        message_index(ms, id) >= 0 ==> ms[message_index(ms, id)].id@ == id,
        message_index(ms, id) < 0 ==> forall|k: int| 0 <= k < ms.len() ==> #[trigger] ms[k].id@ != id,
{
    lemma_message_index(ms, id);
}

proof fn lemma_term_index(ts: Seq<ParsedTerm>, id: Seq<char>)
    ensures
        -1 <= term_index(ts, id) < ts.len(),
        term_index(ts, id) >= 0 ==> ts[term_index(ts, id)].id@ == id,
        term_index(ts, id) < 0 ==> forall|k: int| 0 <= k < ts.len() ==> #[trigger] ts[k].id@ != id,
        term_index(ts, id) >= 0 ==> forall|k: int| 0 <= k < term_index(ts, id) ==> #[trigger] ts[k].id@ != id,
    decreases ts.len(),
{
    if ts.len() > 0 && ts[0].id@ != id {
        lemma_term_index(ts.drop_first(), id);
        assert forall|k: int| 1 <= k < ts.len() implies ts[k] == ts.drop_first()[k - 1] by {}
    }
}

proof fn lemma_message_index(ms: Seq<ParsedMessage>, id: Seq<char>)
    ensures
        -1 <= message_index(ms, id) < ms.len(),
        message_index(ms, id) >= 0 ==> ms[message_index(ms, id)].id@ == id,
        message_index(ms, id) < 0 ==> forall|k: int| 0 <= k < ms.len() ==> #[trigger] ms[k].id@ != id,
        message_index(ms, id) >= 0 ==> forall|k: int| 0 <= k < message_index(ms, id) ==> #[trigger] ms[k].id@ != id,
    decreases ms.len(),
{
    if ms.len() > 0 && ms[0].id@ != id {
        lemma_message_index(ms.drop_first(), id);
        assert forall|k: int| 1 <= k < ms.len() implies ms[k] == ms.drop_first()[k - 1] by {}
    }
}

/// Position of the term with the given id.
pub fn find_term(ts: &Vec<ParsedTerm>, id: &str) -> (r: Option<usize>)
    ensures
        match r {
            Some(i) => i as int == term_index(ts@, id@) && (i as int) < ts@.len(),
            None => term_index(ts@, id@) == -1,
        },
{
    proof {
        lemma_term_index(ts@, id@);
    }
    let mut i: usize = 0;
    while i < ts.len()
        invariant
            i <= ts.len(),
            forall|k: int| 0 <= k < i ==> #[trigger] ts@[k].id@ != id@,
            -1 <= term_index(ts@, id@) < ts@.len(),
            term_index(ts@, id@) < 0 ==> forall|k: int| 0 <= k < ts@.len() ==> #[trigger] ts@[k].id@ != id@,
            term_index(ts@, id@) >= 0 ==> ts@[term_index(ts@, id@)].id@ == id@,
            term_index(ts@, id@) >= 0 ==> forall|k: int| 0 <= k < term_index(ts@, id@) ==> #[trigger] ts@[k].id@ != id@,
        decreases ts.len() - i,
    {
        if crate::text::text_eq(ts[i].id.as_str(), id) {
            proof {
                let ti = term_index(ts@, id@);
                assert(ts@[i as int].id@ == id@);
                if ti < 0 {
                    assert(ts@[i as int].id@ != id@);
                } else if ti < i {
                    assert(ts@[ti].id@ != id@);
                } else if ti > i {
                    assert(ts@[i as int].id@ != id@);
                }
            }
            return Some(i);
        }
        i = i + 1;
    }
    None
}

/// Position of the message with the given id.
pub fn find_message(ms: &Vec<ParsedMessage>, id: &str) -> (r: Option<usize>)
    ensures
        match r {
            Some(i) => i as int == message_index(ms@, id@) && (i as int) < ms@.len(),
            None => message_index(ms@, id@) == -1,
        },
{
    proof {
        lemma_message_index(ms@, id@);
    }
    let mut i: usize = 0;
    while i < ms.len()
        invariant
            i <= ms.len(),
            forall|k: int| 0 <= k < i ==> #[trigger] ms@[k].id@ != id@,
            -1 <= message_index(ms@, id@) < ms@.len(),
            message_index(ms@, id@) < 0 ==> forall|k: int| 0 <= k < ms@.len() ==> #[trigger] ms@[k].id@ != id@,
            message_index(ms@, id@) >= 0 ==> ms@[message_index(ms@, id@)].id@ == id@,
            message_index(ms@, id@) >= 0 ==> forall|k: int| 0 <= k < message_index(ms@, id@) ==> #[trigger] ms@[k].id@ != id@,
        decreases ms.len() - i,
    {
        if crate::text::text_eq(ms[i].id.as_str(), id) {
            proof {
                let ti = message_index(ms@, id@);
                assert(ms@[i as int].id@ == id@);
                if ti < 0 {
                    assert(ms@[i as int].id@ != id@);
                } else if ti < i {
                    assert(ms@[ti].id@ != id@);
                } else if ti > i {
                    assert(ms@[i as int].id@ != id@);
                }
            }
            return Some(i);
        }
        i = i + 1;
    }
    None
}

/// The text of the file at `path`.
pub fn file_content<'a>(files: &'a Vec<FileContent>, path: &str) -> (r: &'a str)
    ensures
        r@ == content_of(files@, path@),
{
    let mut i: usize = 0;
    assert(files@.skip(0) =~= files@);
    while i < files.len()
        invariant
            i <= files.len(),
            content_of(files@, path@) == content_of(files@.skip(i as int), path@),
        decreases files.len() - i,
    {
        assert(files@.skip(i as int).drop_first() =~= files@.skip(i as int + 1));
        if crate::text::text_eq(files[i].path.as_str(), path) {
            return files[i].content.as_str();
        }
        i = i + 1;
    }
    proof {
        reveal_strlit("");
        assert(files@.skip(i as int).len() == 0);
    }
    ""
}

/// Number of characters of `cs` whose first byte lies before byte `offset`.
pub open spec fn chars_before(cs: Seq<char>, offset: int) -> nat
    decreases cs.len(),
{
    if cs.len() == 0 || offset <= 0 {
        0
    } else {
        1 + chars_before(cs.drop_first(), offset - char_width(cs[0]))
    }
}

/// One-based line and column reached after reading `cs`: a newline moves to the
/// next line and resets the column, any other character advances the column.
pub open spec fn line_col(cs: Seq<char>) -> (nat, nat)
    decreases cs.len(),
{
    if cs.len() == 0 {
        (1, 1)
    } else {
        let p = line_col(cs.drop_last());
        if cs.last() == '\n' {
            ((p.0 + 1) as nat, 1)
        } else {
            (p.0, (p.1 + 1) as nat)
        }
    }
}

/// Line and column of byte `offset` in `text`: the position after every
/// character that starts before the offset.
pub open spec fn spec_line_col_at(text: Seq<char>, offset: int) -> (nat, nat) {
    line_col(text.take(chars_before(text, offset) as int))
}

proof fn lemma_line_col_bound(cs: Seq<char>)
    ensures
        1 <= line_col(cs).0 <= cs.len() + 1,
        1 <= line_col(cs).1 <= cs.len() + 1,
    decreases cs.len(),
{
    if cs.len() > 0 {
        lemma_line_col_bound(cs.drop_last());
    }
}

proof fn lemma_chars_before_bound(cs: Seq<char>, offset: int)
    ensures
        chars_before(cs, offset) <= cs.len(),
    decreases cs.len(),
{
    if cs.len() > 0 && offset > 0 {
        lemma_chars_before_bound(cs.drop_first(), offset - char_width(cs[0]));
    }
}

/// Line and column of an offset lie between 1 and one more than the number of characters.
pub proof fn lemma_line_col_at_bound(text: Seq<char>, offset: int)
    ensures
        1 <= spec_line_col_at(text, offset).0 <= text.len() + 1,
        1 <= spec_line_col_at(text, offset).1 <= text.len() + 1,
{
    lemma_chars_before_bound(text, offset);
    lemma_line_col_bound(text.take(chars_before(text, offset) as int));
}

/// Line and column (both starting at 1) of a byte offset in `text`.
pub fn offset_to_line_col(text: &str, offset: usize) -> (r: (usize, usize))
    requires
        text@.len() < usize::MAX,
    ensures
        r.0 == spec_line_col_at(text@, offset as int).0,
        r.1 == spec_line_col_at(text@, offset as int).1,
{
    let cs = chars_of(text);
    let ghost s = cs@;
    let mut line: usize = 1;
    let mut col: usize = 1;
    let mut k: usize = 0;
    let mut rem: usize = offset;
    assert(s.skip(0) =~= s);
    while k < cs.len() && rem > 0
        invariant
            s == cs@,
            s == text@,
            cs.len() < usize::MAX,
            k <= cs.len(),
            chars_before(s, offset as int) == k + chars_before(s.skip(k as int), rem as int),
            line == line_col(s.take(k as int)).0,
            col == line_col(s.take(k as int)).1,
            line <= k + 1,
            col <= k + 1,
        decreases cs.len() - k,
    {
        let c = cs[k];
        let w = utf8_width(c);
        proof {
            assert(s.skip(k as int).drop_first() =~= s.skip(k as int + 1));
            assert(s.skip(k as int)[0] == c);
            assert(s.take(k as int + 1).drop_last() =~= s.take(k as int));
            if rem <= w {
                assert(chars_before(s.skip(k as int + 1), rem - w) == 0);
                assert(chars_before(s.skip(k as int + 1), 0) == 0);
            }
        }
        if c == '\n' {
            line = line + 1;
            col = 1;
        } else {
            col = col + 1;
        }
        if rem <= w {
            rem = 0;
        } else {
            rem = rem - w;
        }
        k = k + 1;
    }
    proof {
        if k == cs.len() {
            assert(s.skip(k as int).len() == 0);
        }
    }
    (line, col)
}

/// Appends `name` to `vars` unless it is there already.
fn add_variable(vars: &mut Vec<String>, name: &String)
    ensures
        final(vars).deep_view() == add_unique(old(vars).deep_view(), seq![name@]),
{
    let ghost v0 = vars.deep_view();
    assert(seq![name@].drop_last() =~= Seq::<Seq<char>>::empty());
    assert(add_unique(v0, Seq::<Seq<char>>::empty()) == v0);
    assert(seq![name@].last() == name@);
    if !crate::text::contains_text(vars, name.as_str()) {
        let ghost before = vars@;
        vars.push(copy_string(name));
        assert forall|k: int| 0 <= k < vars.len() implies vars.deep_view()[k] == v0.push(name@)[k] by {
            if k < before.len() {
                assert(vars@[k] == before[k]);
            }
        }
        assert(vars.deep_view() =~= v0.push(name@));
    }
}

/// Collects the variables of an inline expression, each once, in order of appearance.
fn collect_inline_variables(inline: &FtlInline, vars: &mut Vec<String>)
    ensures
        final(vars).deep_view() == add_unique(old(vars).deep_view(), inline_var_uses(*inline)),
    decreases inline, 0nat,
{
    match inline {
        FtlInline::VariableReference { id } => {
            add_variable(vars, &id.text);
        },
        FtlInline::FunctionReference { id, arguments } => {
            collect_args_variables(arguments, vars);
        },
        FtlInline::TermReference { id, term_args } => {
            match term_args {
                Some(a) => {
                    collect_args_variables(a, vars);
                },
                None => {},
            }
        },
        FtlInline::Placeable { expression } => {
            collect_expression_variables(expression, vars);
        },
        _ => {},
    }
}

fn collect_args_variables(a: &FtlCallArgs, vars: &mut Vec<String>)
    ensures
        final(vars).deep_view() == add_unique(old(vars).deep_view(), args_var_uses(*a)),
    decreases a, 1nat,
{
    let ghost v0 = vars.deep_view();
    let mut i: usize = 0;
    while i < a.positional.len()
        invariant
            i <= a.positional.len(),
            vars.deep_view() == add_unique(v0, inlines_var_uses(a.positional@.take(i as int))),
        decreases a.positional.len() - i,
    {
        assert(a.positional@.take(i as int + 1).drop_last() =~= a.positional@.take(i as int));
        proof {
            lemma_add_unique_concat(v0, inlines_var_uses(a.positional@.take(i as int)), inline_var_uses(a.positional@[i as int]));
        }
        collect_inline_variables(&a.positional[i], vars);
        i = i + 1;
    }
    assert(a.positional@.take(a.positional.len() as int) =~= a.positional@);
    let ghost v1 = vars.deep_view();
    let mut i: usize = 0;
    while i < a.named.len()
        invariant
            i <= a.named.len(),
            vars.deep_view() == add_unique(v1, named_var_uses(a.named@.take(i as int))),
        decreases a.named.len() - i,
    {
        assert(a.named@.take(i as int + 1).drop_last() =~= a.named@.take(i as int));
        proof {
            lemma_add_unique_concat(v1, named_var_uses(a.named@.take(i as int)), inline_var_uses(a.named@[i as int].value));
        }
        collect_inline_variables(&a.named[i].value, vars);
        i = i + 1;
    }
    assert(a.named@.take(a.named.len() as int) =~= a.named@);
    proof {
        lemma_add_unique_concat(v0, inlines_var_uses(a.positional@), named_var_uses(a.named@));
    }
}

/// Collects the variables of an expression, each once, in order of appearance.
fn collect_expression_variables(expr: &FtlExpression, vars: &mut Vec<String>)
    ensures
        final(vars).deep_view() == add_unique(old(vars).deep_view(), expr_var_uses(*expr)),
    decreases expr, 0nat,
{
    match expr {
        FtlExpression::Inline { inline } => {
            collect_inline_variables(inline, vars);
        },
        FtlExpression::Select { selector, variants } => {
            let ghost v0 = vars.deep_view();
            collect_inline_variables(selector, vars);
            collect_patterns_variables(variants, vars);
            proof {
                lemma_add_unique_concat(v0, inline_var_uses(*selector), patterns_var_uses(variants@));
            }
        },
    }
}

fn collect_patterns_variables(variants: &Vec<FtlPattern>, vars: &mut Vec<String>)
    ensures
        final(vars).deep_view() == add_unique(old(vars).deep_view(), patterns_var_uses(variants@)),
    decreases variants, 1nat,
{
    let ghost v1 = vars.deep_view();
    let mut i: usize = 0;
    while i < variants.len()
        invariant
            i <= variants.len(),
            vars.deep_view() == add_unique(v1, patterns_var_uses(variants@.take(i as int))),
        decreases variants.len() - i,
    {
        assert(variants@.take(i as int + 1).drop_last() =~= variants@.take(i as int));
        proof {
            lemma_add_unique_concat(v1, patterns_var_uses(variants@.take(i as int)), pattern_var_uses(variants@[i as int]));
            assert(decreases_to!(*variants => variants@));
            assert(decreases_to!(variants@ => variants@[i as int]));
        }
        collect_pattern_variables(&variants[i], vars);
        i = i + 1;
    }
    assert(variants@.take(variants.len() as int) =~= variants@);
}

/// Collects the variables of a pattern, each once, in order of appearance.
fn collect_pattern_variables(pattern: &FtlPattern, vars: &mut Vec<String>)
    ensures
        final(vars).deep_view() == add_unique(old(vars).deep_view(), pattern_var_uses(*pattern)),
    decreases pattern, 0nat,
{
    let ghost v0 = vars.deep_view();
    let mut i: usize = 0;
    while i < pattern.elements.len()
        invariant
            i <= pattern.elements.len(),
            vars.deep_view() == add_unique(v0, elements_var_uses(pattern.elements@.take(i as int))),
        decreases pattern.elements.len() - i,
    {
        assert(pattern.elements@.take(i as int + 1).drop_last() =~= pattern.elements@.take(i as int));
        match &pattern.elements[i] {
            FtlElement::Placeable { expression } => {
                proof {
                    lemma_add_unique_concat(v0, elements_var_uses(pattern.elements@.take(i as int)), expr_var_uses(*expression));
                }
                collect_expression_variables(expression, vars);
            },
            FtlElement::Text => {
                assert(elements_var_uses(pattern.elements@.take(i as int + 1)) =~= elements_var_uses(pattern.elements@.take(i as int)));
            },
        }
        i = i + 1;
    }
    assert(pattern.elements@.take(pattern.elements.len() as int) =~= pattern.elements@);
}

/// What a recorded reference holds.
pub open spec fn ref_view(r: ReferenceSpan) -> RefView {
    RefView {
        name: r.name@,
        start: r.start,
        end: r.end,
        positional: r.positional_count,
        named: r.named_args@.map_values(|a: NamedArgSpan| (a.name@, a.start, a.end)),
    }
}

pub open spec fn refs_view(v: Seq<ReferenceSpan>) -> Seq<RefView> {
    v.map_values(|r: ReferenceSpan| ref_view(r))
}

/// The byte offset of `addr` within the `len` bytes at `base`, 0 when outside.
pub fn offset_within(base: usize, len: usize, addr: usize) -> (r: usize)
    ensures
        r == offset_in(base, len, addr),
{
    if addr >= base && addr - base <= len {
        addr - base
    } else {
        0
    }
}

fn add_sat(a: usize, b: usize) -> (r: usize)
    ensures
        r == sat_add(a, b as nat),
{
    if a <= usize::MAX - b {
        a + b
    } else {
        usize::MAX
    }
}

fn push_reference(v: &mut Vec<ReferenceSpan>, r: ReferenceSpan)
    ensures
        refs_view(final(v)@) == refs_view(old(v)@).push(ref_view(r)),
{
    let ghost before = v@;
    let ghost rv = ref_view(r);
    v.push(r);
    assert(refs_view(v@) =~= refs_view(before).push(rv));
}

/// The named arguments of a call with the spans of their names.
fn named_arg_spans(src_base: usize, bytes: &[u8], named: &Vec<FtlNamedArg>) -> (r: Vec<NamedArgSpan>)
    ensures
        r@.map_values(|a: NamedArgSpan| (a.name@, a.start, a.end)) == named_views(Source { base: src_base, bytes: bytes@ }, named@),
{
    let ghost src = Source { base: src_base, bytes: bytes@ };
    let mut r: Vec<NamedArgSpan> = Vec::new();
    let mut i: usize = 0;
    while i < named.len()
        invariant
            i <= named.len(),
            src == (Source { base: src_base, bytes: bytes@ }),
            r@.map_values(|a: NamedArgSpan| (a.name@, a.start, a.end)) == named_views(src, named@.take(i as int)),
        decreases named.len() - i,
    {
        let n = &named[i].name;
        assert(named@.take(i as int + 1).drop_last() =~= named@.take(i as int));
        let start = offset_within(src_base, bytes.len(), n.addr);
        let end = add_sat(start, n.text.as_str().len());
        r.push(NamedArgSpan { name: copy_string(&n.text), start, end });
        i = i + 1;
        assert(r@.map_values(|a: NamedArgSpan| (a.name@, a.start, a.end)) =~= named_views(src, named@.take(i as int)));
    }
    assert(named@.take(named.len() as int) =~= named@);
    r
}

/// The references recorded so far.
pub open spec fn recorded(t: Seq<ReferenceSpan>, m: Seq<ReferenceSpan>, f: Seq<ReferenceSpan>) -> Refs {
    (refs_view(t), refs_view(m), refs_view(f))
}

/// Records the references of an inline expression: a function before those of
/// its arguments, a term after them.
fn collect_inline_references(
    inline: &FtlInline,
    src_base: usize,
    bytes: &[u8],
    term_refs: &mut Vec<ReferenceSpan>,
    msg_refs: &mut Vec<ReferenceSpan>,
    func_refs: &mut Vec<ReferenceSpan>,
)
    ensures
        recorded(final(term_refs)@, final(msg_refs)@, final(func_refs)@) == cat_refs(
            recorded(old(term_refs)@, old(msg_refs)@, old(func_refs)@),
            inline_refs(Source { base: src_base, bytes: bytes@ }, *inline)),
    decreases inline, 0nat,
{
    let ghost src = Source { base: src_base, bytes: bytes@ };
    let ghost r0 = recorded(term_refs@, msg_refs@, func_refs@);
    match inline {
        FtlInline::TermReference { id, term_args } => {
            let raw_start = offset_within(src_base, bytes.len(), id.addr);
            let start = if raw_start > 0 && raw_start - 1 < bytes.len() && bytes[raw_start - 1] == 45u8 {
                raw_start - 1
            } else {
                raw_start
            };
            let end = add_sat(raw_start, id.text.as_str().len());
            let mut name = String::new();
            name.append("-");
            name.append(id.text.as_str());
            let mut positional_count: usize = 0;
            let mut named_args: Vec<NamedArgSpan> = Vec::new();
            match term_args {
                Some(a) => {
                    positional_count = a.positional.len();
                    named_args = named_arg_spans(src_base, bytes, &a.named);
                    collect_args_references(a, src_base, bytes, term_refs, msg_refs, func_refs);
                },
                None => {
                    assert(named_args@.map_values(|a: NamedArgSpan| (a.name@, a.start, a.end)) =~= Seq::empty());
                },
            }
            let ghost r1 = recorded(term_refs@, msg_refs@, func_refs@);
            let r = ReferenceSpan { name, start, end, positional_count, named_args };
            assert(ref_view(r) == term_ref_view(src, *id, *term_args));
            push_reference(term_refs, r);
            assert(recorded(term_refs@, msg_refs@, func_refs@) =~= cat_refs(r1, (seq![term_ref_view(src, *id, *term_args)], Seq::empty(), Seq::empty())));
            assert(recorded(term_refs@, msg_refs@, func_refs@) =~= cat_refs(r0, inline_refs(src, *inline)));
        },
        FtlInline::FunctionReference { id, arguments } => {
            let start = offset_within(src_base, bytes.len(), id.addr);
            let end = add_sat(start, id.text.as_str().len());
            let named_args = named_arg_spans(src_base, bytes, &arguments.named);
            let r = ReferenceSpan { name: copy_string(&id.text), start, end, positional_count: arguments.positional.len(), named_args };
            assert(ref_view(r) == function_ref_view(src, *id, *arguments));
            push_reference(func_refs, r);
            let ghost r1 = recorded(term_refs@, msg_refs@, func_refs@);
            assert(r1 =~= cat_refs(r0, (Seq::empty(), Seq::empty(), seq![function_ref_view(src, *id, *arguments)])));
            collect_args_references(arguments, src_base, bytes, term_refs, msg_refs, func_refs);
            assert(recorded(term_refs@, msg_refs@, func_refs@) =~= cat_refs(r0, inline_refs(src, *inline)));
        },
        FtlInline::MessageReference { id } => {
            let start = offset_within(src_base, bytes.len(), id.addr);
            let end = add_sat(start, id.text.as_str().len());
            let r = ReferenceSpan { name: copy_string(&id.text), start, end, positional_count: 0, named_args: Vec::new() };
            assert(r.named_args@.map_values(|a: NamedArgSpan| (a.name@, a.start, a.end)) =~= Seq::empty());
            assert(ref_view(r) == message_ref_view(src, *id));
            push_reference(msg_refs, r);
            assert(recorded(term_refs@, msg_refs@, func_refs@) =~= cat_refs(r0, inline_refs(src, *inline)));
        },
        FtlInline::Placeable { expression } => {
            collect_expression_references(expression, src_base, bytes, term_refs, msg_refs, func_refs);
        },
        _ => {
            assert(recorded(term_refs@, msg_refs@, func_refs@) =~= cat_refs(r0, inline_refs(src, *inline)));
        },
    }
}

fn collect_args_references(
    a: &FtlCallArgs,
    src_base: usize,
    bytes: &[u8],
    term_refs: &mut Vec<ReferenceSpan>,
    msg_refs: &mut Vec<ReferenceSpan>,
    func_refs: &mut Vec<ReferenceSpan>,
)
    ensures
        recorded(final(term_refs)@, final(msg_refs)@, final(func_refs)@) == cat_refs(
            recorded(old(term_refs)@, old(msg_refs)@, old(func_refs)@),
            args_refs(Source { base: src_base, bytes: bytes@ }, *a)),
    decreases a, 1nat,
{
    let ghost src = Source { base: src_base, bytes: bytes@ };
    let ghost r0 = recorded(term_refs@, msg_refs@, func_refs@);
    let mut i: usize = 0;
    while i < a.positional.len()
        invariant
            i <= a.positional.len(),
            src == (Source { base: src_base, bytes: bytes@ }),
            recorded(term_refs@, msg_refs@, func_refs@) == cat_refs(r0, inlines_refs(src, a.positional@.take(i as int))),
        decreases a.positional.len() - i,
    {
        assert(a.positional@.take(i as int + 1).drop_last() =~= a.positional@.take(i as int));
        collect_inline_references(&a.positional[i], src_base, bytes, term_refs, msg_refs, func_refs);
        i = i + 1;
        assert(recorded(term_refs@, msg_refs@, func_refs@) =~= cat_refs(r0, inlines_refs(src, a.positional@.take(i as int))));
    }
    assert(a.positional@.take(a.positional.len() as int) =~= a.positional@);
    let ghost r1 = recorded(term_refs@, msg_refs@, func_refs@);
    let mut i: usize = 0;
    while i < a.named.len()
        invariant
            i <= a.named.len(),
            src == (Source { base: src_base, bytes: bytes@ }),
            recorded(term_refs@, msg_refs@, func_refs@) == cat_refs(r1, named_refs(src, a.named@.take(i as int))),
        decreases a.named.len() - i,
    {
        assert(a.named@.take(i as int + 1).drop_last() =~= a.named@.take(i as int));
        collect_inline_references(&a.named[i].value, src_base, bytes, term_refs, msg_refs, func_refs);
        i = i + 1;
        assert(recorded(term_refs@, msg_refs@, func_refs@) =~= cat_refs(r1, named_refs(src, a.named@.take(i as int))));
    }
    assert(a.named@.take(a.named.len() as int) =~= a.named@);
    assert(recorded(term_refs@, msg_refs@, func_refs@) =~= cat_refs(r0, args_refs(src, *a)));
}

/// Records the references of an expression.
fn collect_expression_references(
    expr: &FtlExpression,
    src_base: usize,
    bytes: &[u8],
    term_refs: &mut Vec<ReferenceSpan>,
    msg_refs: &mut Vec<ReferenceSpan>,
    func_refs: &mut Vec<ReferenceSpan>,
)
    ensures
        recorded(final(term_refs)@, final(msg_refs)@, final(func_refs)@) == cat_refs(
            recorded(old(term_refs)@, old(msg_refs)@, old(func_refs)@),
            expr_refs(Source { base: src_base, bytes: bytes@ }, *expr)),
    decreases expr, 0nat,
{
    let ghost src = Source { base: src_base, bytes: bytes@ };
    let ghost r0 = recorded(term_refs@, msg_refs@, func_refs@);
    match expr {
        FtlExpression::Inline { inline } => {
            collect_inline_references(inline, src_base, bytes, term_refs, msg_refs, func_refs);
        },
        FtlExpression::Select { selector, variants } => {
            collect_inline_references(selector, src_base, bytes, term_refs, msg_refs, func_refs);
            collect_patterns_references(variants, src_base, bytes, term_refs, msg_refs, func_refs);
            assert(recorded(term_refs@, msg_refs@, func_refs@) =~= cat_refs(r0, expr_refs(src, *expr)));
        },
    }
}

fn collect_patterns_references(
    variants: &Vec<FtlPattern>,
    src_base: usize,
    bytes: &[u8],
    term_refs: &mut Vec<ReferenceSpan>,
    msg_refs: &mut Vec<ReferenceSpan>,
    func_refs: &mut Vec<ReferenceSpan>,
)
    ensures
        recorded(final(term_refs)@, final(msg_refs)@, final(func_refs)@) == cat_refs(
            recorded(old(term_refs)@, old(msg_refs)@, old(func_refs)@),
            patterns_refs(Source { base: src_base, bytes: bytes@ }, variants@)),
    decreases variants, 1nat,
{
    let ghost src = Source { base: src_base, bytes: bytes@ };
    let ghost r0 = recorded(term_refs@, msg_refs@, func_refs@);
    let mut i: usize = 0;
    while i < variants.len()
        invariant
            i <= variants.len(),
            src == (Source { base: src_base, bytes: bytes@ }),
            recorded(term_refs@, msg_refs@, func_refs@) == cat_refs(r0, patterns_refs(src, variants@.take(i as int))),
        decreases variants.len() - i,
    {
        assert(variants@.take(i as int + 1).drop_last() =~= variants@.take(i as int));
        proof {
            assert(decreases_to!(*variants => variants@));
            assert(decreases_to!(variants@ => variants@[i as int]));
        }
        collect_pattern_references(&variants[i], src_base, bytes, term_refs, msg_refs, func_refs);
        i = i + 1;
        assert(recorded(term_refs@, msg_refs@, func_refs@) =~= cat_refs(r0, patterns_refs(src, variants@.take(i as int))));
    }
    assert(variants@.take(variants.len() as int) =~= variants@);
}

/// Records the references of a pattern.
fn collect_pattern_references(
    pattern: &FtlPattern,
    src_base: usize,
    bytes: &[u8],
    term_refs: &mut Vec<ReferenceSpan>,
    msg_refs: &mut Vec<ReferenceSpan>,
    func_refs: &mut Vec<ReferenceSpan>,
)
    ensures
        recorded(final(term_refs)@, final(msg_refs)@, final(func_refs)@) == cat_refs(
            recorded(old(term_refs)@, old(msg_refs)@, old(func_refs)@),
            pattern_refs(Source { base: src_base, bytes: bytes@ }, *pattern)),
    decreases pattern, 0nat,
{
    let ghost src = Source { base: src_base, bytes: bytes@ };
    let ghost r0 = recorded(term_refs@, msg_refs@, func_refs@);
    let mut i: usize = 0;
    while i < pattern.elements.len()
        invariant
            i <= pattern.elements.len(),
            src == (Source { base: src_base, bytes: bytes@ }),
            recorded(term_refs@, msg_refs@, func_refs@) == cat_refs(r0, elements_refs(src, pattern.elements@.take(i as int))),
        decreases pattern.elements.len() - i,
    {
        assert(pattern.elements@.take(i as int + 1).drop_last() =~= pattern.elements@.take(i as int));
        match &pattern.elements[i] {
            FtlElement::Placeable { expression } => {
                collect_expression_references(expression, src_base, bytes, term_refs, msg_refs, func_refs);
            },
            FtlElement::Text => {},
        }
        i = i + 1;
        assert(recorded(term_refs@, msg_refs@, func_refs@) =~= cat_refs(r0, elements_refs(src, pattern.elements@.take(i as int))));
    }
    assert(pattern.elements@.take(pattern.elements.len() as int) =~= pattern.elements@);
}

/// Counts of `{` and `}` outside string literals, a backslash in a string
/// literal escaping the character after it.
pub open spec fn brace_scan(cs: Seq<char>, in_str: bool) -> (nat, nat)
    decreases cs.len(),
{
    if cs.len() == 0 {
        (0, 0)
    } else if cs[0] == '\\' && in_str {
        if cs.len() >= 2 {
            brace_scan(cs.skip(2), in_str)
        } else {
            (0, 0)
        }
    } else if cs[0] == '"' {
        brace_scan(cs.drop_first(), !in_str)
    } else if !in_str && cs[0] == '{' {
        let r = brace_scan(cs.drop_first(), in_str);
        ((r.0 + 1) as nat, r.1)
    } else if !in_str && cs[0] == '}' {
        let r = brace_scan(cs.drop_first(), in_str);
        (r.0, (r.1 + 1) as nat)
    } else {
        brace_scan(cs.drop_first(), in_str)
    }
}

proof fn lemma_brace_scan_bound(cs: Seq<char>, in_str: bool)
    ensures
        brace_scan(cs, in_str).0 + brace_scan(cs, in_str).1 <= cs.len(),
    decreases cs.len(),
{
    if cs.len() > 0 {
        if cs[0] == '\\' && in_str {
            if cs.len() >= 2 {
                lemma_brace_scan_bound(cs.skip(2), in_str);
            }
        } else if cs[0] == '"' {
            lemma_brace_scan_bound(cs.drop_first(), !in_str);
        } else {
            lemma_brace_scan_bound(cs.drop_first(), in_str);
        }
    }
}

/// Numbers of opening and closing braces of a line outside string literals.
fn count_braces(line: &Vec<char>) -> (r: (usize, usize))
    ensures
        r.0 == brace_scan(line@, false).0,
        r.1 == brace_scan(line@, false).1,
{
    let ghost cs = line@;
    let mut opens: usize = 0;
    let mut closes: usize = 0;
    let mut in_string = false;
    let mut i: usize = 0;
    assert(cs.skip(0) =~= cs);
    proof {
        lemma_brace_scan_bound(cs, false);
    }
    while i < line.len()
        invariant
            cs == line@,
            i <= line.len(),
            brace_scan(cs, false).0 == opens + brace_scan(cs.skip(i as int), in_string).0,
            brace_scan(cs, false).1 == closes + brace_scan(cs.skip(i as int), in_string).1,
            brace_scan(cs, false).0 + brace_scan(cs, false).1 <= cs.len(),
        decreases line.len() - i,
    {
        let ch = line[i];
        let ghost rest = cs.skip(i as int);
        assert(rest[0] == ch);
        assert(rest.drop_first() =~= cs.skip(i as int + 1));
        if ch == '\\' && in_string {
            if i + 1 < line.len() {
                assert(rest.skip(2) =~= cs.skip(i as int + 2));
                i = i + 2;
            } else {
                i = i + 1;
                assert(cs.skip(i as int).len() == 0);
            }
        } else {
            if ch == '"' {
                in_string = !in_string;
            } else if !in_string {
                if ch == '{' {
                    proof {
                        lemma_brace_scan_bound(cs.skip(i as int + 1), in_string);
                    }
                    opens = opens + 1;
                } else if ch == '}' {
                    proof {
                        lemma_brace_scan_bound(cs.skip(i as int + 1), in_string);
                    }
                    closes = closes + 1;
                }
            }
            i = i + 1;
        }
    }
    assert(cs.skip(i as int).len() == 0);
    (opens, closes)
}

/// The line opens the definition of `id`: it starts with the id followed by
/// optional white space and `=`, or with the id and a space and holds an `=`.
pub open spec fn opens_definition(line: Seq<char>, id: Seq<char>) -> bool {
    ||| (starts_with(line, id) && {
        let rest = trim_start(line.skip(id.len() as int));
        rest.len() > 0 && rest[0] == '='
    })
    ||| (starts_with(line, id.push(' ')) && line.contains('='))
}

/// Open braces after a line: `open + opens - closes`, never below zero.
pub open spec fn brace_step(open: usize, line: Seq<char>) -> usize {
    let b = brace_scan(line, false);
    let up = if open + b.0 <= usize::MAX { (open + b.0) as usize } else { usize::MAX };
    if up >= b.1 {
        (up - b.1) as usize
    } else {
        0
    }
}

/// Scan of the lines from `i` for the definition of `id`: the lines of the
/// definition start at the line that opens it and go on while braces are open
/// or lines are indented.
pub open spec fn scan_definition(
    ls: Seq<Seq<char>>,
    i: int,
    id: Seq<char>,
    found: bool,
    start: nat,
    open: usize,
    acc: Seq<Seq<char>>,
) -> (bool, nat, Seq<Seq<char>>)
    decreases ls.len() - i,
{
    if i < 0 || i >= ls.len() {
        (found, start, acc)
    } else {
        let line = ls[i];
        if !found {
            if opens_definition(line, id) {
                scan_definition(ls, i + 1, id, true, (i + 1) as nat, brace_step(open, line), acc.push(line))
            } else {
                scan_definition(ls, i + 1, id, false, start, open, acc)
            }
        } else if open > 0 || (line.len() > 0 && (line[0] == ' ' || line[0] == '\t')) {
            scan_definition(ls, i + 1, id, true, start, brace_step(open, line), acc.push(line))
        } else {
            (found, start, acc)
        }
    }
}

/// The source text of the definition of `id` and its first line, or
/// `<id> = ...` and line 1 when the text holds no such definition.
pub open spec fn spec_extract_raw_definition(content: Seq<char>, id: Seq<char>) -> (Seq<char>, nat) {
    let r = scan_definition(text_lines(content), 0, id, false, 1, 0, Seq::empty());
    if r.0 {
        (join(r.2, "\n"@), r.1)
    } else {
        (id + " = ..."@, 1)
    }
}

/// The source text of the definition of the message or term `msg_id` and the
/// number of the line it starts on.
pub fn extract_raw_definition(content: &str, msg_id: &str) -> (r: (String, usize))
    ensures
        r.0@ == spec_extract_raw_definition(content@, msg_id@).0,
        r.1 as nat == spec_extract_raw_definition(content@, msg_id@).1,
        r.1 >= 1,
        r.1 <= text_lines(content@).len() + 1,
{
    let cs = chars_of(content);
    let lines = lines_of(&cs);
    let ghost ls = lines.deep_view();
    let id = chars_of(msg_id);
    let mut id_sp = chars_of(msg_id);
    id_sp.push(' ');
    let mut def_lines: Vec<String> = Vec::new();
    let mut start_line: usize = 1;
    let mut found = false;
    let mut open_braces: usize = 0;
    let mut i: usize = 0;
    let mut stopped = false;
    assert(def_lines.deep_view() =~= Seq::<Seq<char>>::empty());
    while i < lines.len() && !stopped
        invariant
            ls == lines.deep_view(),
            ls == text_lines(content@),
            id@ == msg_id@,
            id_sp@ == msg_id@.push(' '),
            i <= lines.len(),
            1 <= start_line <= i + 1,
            !stopped ==> scan_definition(ls, 0, msg_id@, false, 1, 0, Seq::empty())
                == scan_definition(ls, i as int, msg_id@, found, start_line as nat, open_braces, def_lines.deep_view()),
            stopped ==> scan_definition(ls, 0, msg_id@, false, 1, 0, Seq::empty())
                == (found, start_line as nat, def_lines.deep_view()),
        decreases lines.len() - i + if stopped { 0int } else { 1int },
    {
        let line = &lines[i];
        assert(ls[i as int] == line@);
        if !found {
            let mut opens = false;
            if has_prefix(line, &id) {
                let k = skip_ws(line, id.len());
                opens = k < line.len() && line[k] == '=';
                proof {
                    let rest = trim_start(line@.skip(id.len() as int));
                    assert(line@.skip(k as int) == rest);
                    if k < line.len() {
                        assert(rest[0] == line@[k as int]);
                    }
                }
            }
            if !opens && has_prefix(line, &id_sp) && has_char(line, '=') {
                opens = true;
            }
            assert(opens == opens_definition(line@, msg_id@));
            if opens {
                found = true;
                start_line = i + 1;
                let ghost before = def_lines.deep_view();
                def_lines.push(crate::text::string_from(line));
                assert(def_lines.deep_view() =~= before.push(line@)) by {
                    assert forall|k: int| 0 <= k < before.len() implies def_lines.deep_view()[k] == before[k] by {}
                }
                let (o, c) = count_braces(line);
                let up = if open_braces <= usize::MAX - o { open_braces + o } else { usize::MAX };
                open_braces = if up >= c { up - c } else { 0 };
            }
            i = i + 1;
        } else if open_braces > 0 || (line.len() > 0 && (line[0] == ' ' || line[0] == '\t')) {
            let ghost before = def_lines.deep_view();
            def_lines.push(crate::text::string_from(line));
            assert(def_lines.deep_view() =~= before.push(line@)) by {
                assert forall|k: int| 0 <= k < before.len() implies def_lines.deep_view()[k] == before[k] by {}
            }
            let (o, c) = count_braces(line);
            let up = if open_braces <= usize::MAX - o { open_braces + o } else { usize::MAX };
            open_braces = if up >= c { up - c } else { 0 };
            i = i + 1;
        } else {
            stopped = true;
        }
    }
    if found {
        let mut out = String::new();
        crate::text::push_joined(&mut out, &def_lines, "\n");
        assert(out@ =~= join(def_lines.deep_view(), "\n"@));
        (out, start_line)
    } else {
        let mut out = String::new();
        out.append(msg_id);
        out.append(" = ...");
        (out, 1)
    }
}

/// Whether `syn::parse_str::<syn::Ident>` accepts the text as one identifier.
pub uninterp spec fn syn_parses_ident(text: Seq<char>) -> bool;

/// Whether `syn` parses the text as an identifier (`syn::parse_str::<syn::Ident>`).
#[verifier::external_body]
fn parses_as_ident(text: &str) -> (r: bool)
    ensures
        r == syn_parses_ident(text@),
{
    syn::parse_str::<syn::Ident>(text).is_ok()
}

/// `name` with each `-` replaced by `_`.
pub open spec fn snake_case(name: Seq<char>) -> Seq<char> {
    name.map_values(|c: char| if c == '-' { '_' } else { c })
}

/// The identifier for a name whose snake case is `snake`: the snake case when
/// it is an identifier, else its raw form `r#..` when that is one, else the
/// snake case behind an underscore.
pub open spec fn ident_choice(snake: Seq<char>, plain_ok: bool, raw_ok: bool) -> Seq<char> {
    if plain_ok {
        snake
    } else if raw_ok {
        "r#"@ + snake
    } else {
        "_"@ + snake
    }
}

/// The text of the Rust identifier of the function generated for `name`.
pub open spec fn rust_ident_of(name: Seq<char>) -> Seq<char> {
    ident_choice(snake_case(name), syn_parses_ident(snake_case(name)), syn_parses_ident("r#"@ + snake_case(name)))
}

/// The identifier for a snake-case name, given whether it parses as an
/// identifier and whether its raw form does.
pub fn choose_ident(snake: &str, plain_ok: bool, raw_ok: bool) -> (r: String)
    ensures
        r@ == ident_choice(snake@, plain_ok, raw_ok),
{
    let mut s = String::new();
    if plain_ok {
        s.append(snake);
    } else if raw_ok {
        s.append("r#");
        s.append(snake);
    } else {
        s.append("_");
        s.append(snake);
    }
    s
}

/// The text of the Rust identifier of the function generated for a message.
pub fn to_rust_ident(name: &str) -> (r: String)
    ensures
        r@ == rust_ident_of(name@),
{
    let cs = chars_of(name);
    let mut snake = String::new();
    let mut i: usize = 0;
    while i < cs.len()
        invariant
            i <= cs.len(),
            cs@ == name@,
            snake@ == snake_case(name@.take(i as int)),
        decreases cs.len() - i,
    {
        let c = cs[i];
        crate::text::push_char(&mut snake, if c == '-' { '_' } else { c });
        i = i + 1;
        assert(snake@ =~= snake_case(name@.take(i as int)));
    }
    assert(name@.take(cs.len() as int) =~= name@);
    let plain_ok = parses_as_ident(snake.as_str());
    let mut raw = String::new();
    raw.append("r#");
    raw.append(snake.as_str());
    let raw_ok = if plain_ok { true } else { parses_as_ident(raw.as_str()) };
    let r = choose_ident(snake.as_str(), plain_ok, raw_ok);
    assert(r@ == ident_choice(snake_case(name@), syn_parses_ident(snake_case(name@)), syn_parses_ident("r#"@ + snake_case(name@))));
    r
}

/// What a parsed message holds, as values.
pub struct MessageRecord {
    pub id: Seq<char>,
    pub rust_ident: Seq<char>,
    pub variables: Seq<Seq<char>>,
    pub raw_definition: Seq<char>,
    pub file_path: Seq<char>,
    pub line: nat,
    pub refs: Refs,
}

/// What a parsed term holds, as values.
pub struct TermRecord {
    pub id: Seq<char>,
    pub variables: Seq<Seq<char>>,
    pub raw_definition: Seq<char>,
    pub file_path: Seq<char>,
    pub line: nat,
    pub refs: Refs,
}

/// What a parsed locale holds: messages, terms and file texts, each list
/// ordered by its key.
pub struct LocaleRecord {
    pub messages: Seq<MessageRecord>,
    pub terms: Seq<TermRecord>,
    pub files: Seq<(Seq<char>, Seq<char>)>,
}

pub open spec fn message_record(m: ParsedMessage) -> MessageRecord {
    MessageRecord {
        id: m.id@,
        rust_ident: m.rust_ident@,
        variables: m.variables.deep_view(),
        raw_definition: m.raw_definition@,
        file_path: m.file_path@,
        line: m.line as nat,
        refs: recorded(m.term_references@, m.message_references@, m.function_references@),
    }
}

pub open spec fn term_record(t: ParsedTerm) -> TermRecord {
    TermRecord {
        id: t.id@,
        variables: t.variables.deep_view(),
        raw_definition: t.raw_definition@,
        file_path: t.file_path@,
        line: t.line as nat,
        refs: recorded(t.term_references@, t.message_references@, t.function_references@),
    }
}

pub open spec fn file_record(f: FileContent) -> (Seq<char>, Seq<char>) {
    (f.path@, f.content@)
}

pub open spec fn message_records(ms: Seq<ParsedMessage>) -> Seq<MessageRecord> {
    ms.map_values(|m: ParsedMessage| message_record(m))
}

pub open spec fn term_records(ts: Seq<ParsedTerm>) -> Seq<TermRecord> {
    ts.map_values(|t: ParsedTerm| term_record(t))
}

pub open spec fn file_records(fs: Seq<FileContent>) -> Seq<(Seq<char>, Seq<char>)> {
    fs.map_values(|f: FileContent| file_record(f))
}

pub open spec fn locale_record(l: ParsedLocale) -> LocaleRecord {
    LocaleRecord {
        messages: message_records(l.messages@),
        terms: term_records(l.terms@),
        files: file_records(l.file_contents@),
    }
}

/// Messages are kept by id.
pub open spec fn by_message_id() -> spec_fn(MessageRecord) -> Seq<char> {
    |m: MessageRecord| m.id
}

/// Terms are kept by id.
pub open spec fn by_term_id() -> spec_fn(TermRecord) -> Seq<char> {
    |t: TermRecord| t.id
}

/// File texts are kept by path.
pub open spec fn by_path() -> spec_fn((Seq<char>, Seq<char>)) -> Seq<char> {
    |f: (Seq<char>, Seq<char>)| f.0
}

/// The message with id `id` read from the file at `path` with text `content`.
pub open spec fn message_from(
    path: Seq<char>,
    content: Seq<char>,
    src: Source,
    id: Seq<char>,
    value: Option<FtlPattern>,
    attributes: Seq<FtlPattern>,
) -> MessageRecord {
    let def = spec_extract_raw_definition(content, id);
    MessageRecord {
        id: id,
        rust_ident: rust_ident_of(id),
        variables: entry_variables(value, attributes),
        raw_definition: def.0,
        file_path: path,
        line: def.1,
        refs: entry_refs(src, value, attributes),
    }
}

/// The term named `name` read from the file at `path`: its id is the name after `-`.
pub open spec fn term_from(
    path: Seq<char>,
    content: Seq<char>,
    src: Source,
    name: Seq<char>,
    value: FtlPattern,
    attributes: Seq<FtlPattern>,
) -> TermRecord {
    let id = "-"@ + name;
    let def = spec_extract_raw_definition(content, id);
    TermRecord {
        id: id,
        variables: entry_variables(Some(value), attributes),
        raw_definition: def.0,
        file_path: path,
        line: def.1,
        refs: entry_refs(src, Some(value), attributes),
    }
}

/// The locale after reading one entry of a file: a message or term takes the
/// place of one with the same id.
pub open spec fn record_entry(l: LocaleRecord, path: Seq<char>, content: Seq<char>, src: Source, e: FtlEntry) -> LocaleRecord {
    match e {
        FtlEntry::Message { id, value, attributes } => LocaleRecord {
            messages: upsert(l.messages, by_message_id(), message_from(path, content, src, id@, value, attributes@)),
            terms: l.terms,
            files: l.files,
        },
        FtlEntry::Term { id, value, attributes } => LocaleRecord {
            messages: l.messages,
            terms: upsert(l.terms, by_term_id(), term_from(path, content, src, id@, value, attributes@)),
            files: l.files,
        },
        FtlEntry::Other => l,
    }
}

/// The locale after reading the entries of a file in order.
pub open spec fn record_entries(l: LocaleRecord, path: Seq<char>, content: Seq<char>, src: Source, es: Seq<FtlEntry>) -> LocaleRecord
    decreases es.len(),
{
    if es.len() == 0 {
        l
    } else {
        record_entry(record_entries(l, path, content, src, es.drop_last()), path, content, src, es.last())
    }
}

/// The locale after reading a file whose text lies at `base` and whose parse
/// is `parsed`: the text is kept under its path, then the entries are read.
pub open spec fn record_file(l: LocaleRecord, path: Seq<char>, content: Seq<char>, base: usize, parsed: FtlParse) -> LocaleRecord {
    let with_file = LocaleRecord {
        messages: l.messages,
        terms: l.terms,
        files: upsert(l.files, by_path(), (path, content)),
    };
    record_entries(with_file, path, content, file_source(content, base), parsed.entries@)
}

/// The message of a text's entry of shape `s`, in the file at `path`.
pub open spec fn message_of_shape(path: Seq<char>, content: Seq<char>, s: EntryShape) -> MessageRecord {
    let def = spec_extract_raw_definition(content, s.id);
    MessageRecord {
        id: s.id,
        rust_ident: rust_ident_of(s.id),
        variables: s.variables,
        raw_definition: def.0,
        file_path: path,
        line: def.1,
        refs: s.refs,
    }
}

/// The term of a text's entry of shape `s`: its id is the name after `-`.
pub open spec fn term_of_shape(path: Seq<char>, content: Seq<char>, s: EntryShape) -> TermRecord {
    let id = "-"@ + s.id;
    let def = spec_extract_raw_definition(content, id);
    TermRecord { id: id, variables: s.variables, raw_definition: def.0, file_path: path, line: def.1, refs: s.refs }
}

/// The locale after reading one entry, given by its shape.
pub open spec fn record_shape(l: LocaleRecord, path: Seq<char>, content: Seq<char>, s: EntryShape) -> LocaleRecord {
    if s.kind == 0 {
        LocaleRecord { messages: upsert(l.messages, by_message_id(), message_of_shape(path, content, s)), terms: l.terms, files: l.files }
    } else if s.kind == 1 {
        LocaleRecord { messages: l.messages, terms: upsert(l.terms, by_term_id(), term_of_shape(path, content, s)), files: l.files }
    } else {
        l
    }
}

/// The locale after reading entries, given by their shapes, in order.
pub open spec fn record_shapes(l: LocaleRecord, path: Seq<char>, content: Seq<char>, ss: Seq<EntryShape>) -> LocaleRecord
    decreases ss.len(),
{
    if ss.len() == 0 {
        l
    } else {
        record_shape(record_shapes(l, path, content, ss.drop_last()), path, content, ss.last())
    }
}

/// The locale with the text of a file kept under its path.
pub open spec fn with_file(l: LocaleRecord, path: Seq<char>, content: Seq<char>) -> LocaleRecord {
    LocaleRecord { messages: l.messages, terms: l.terms, files: upsert(l.files, by_path(), (path, content)) }
}

/// The locale after reading a file: its text kept under its path, then the
/// entries that the Fluent parser reads from it, in order.
pub open spec fn read_file(l: LocaleRecord, path: Seq<char>, content: Seq<char>) -> LocaleRecord {
    record_shapes(with_file(l, path, content), path, content, fluent_entry_shapes(content))
}

/// Reading entries is reading their shapes.
proof fn lemma_record_entries_shapes(l: LocaleRecord, path: Seq<char>, content: Seq<char>, src: Source, es: Seq<FtlEntry>)
    ensures
        record_entries(l, path, content, src, es) == record_shapes(l, path, content, entry_shapes(es, src)),
    decreases es.len(),
{
    if es.len() > 0 {
        lemma_record_entries_shapes(l, path, content, src, es.drop_last());
        assert(entry_shapes(es, src).drop_last() =~= entry_shapes(es.drop_last(), src));
        let p = record_entries(l, path, content, src, es.drop_last());
        match es.last() {
            FtlEntry::Message { id, value, attributes } => {
                assert(message_from(path, content, src, id@, value, attributes@)
                    == message_of_shape(path, content, entry_shape(es.last(), src)));
            },
            FtlEntry::Term { id, value, attributes } => {
                assert(term_from(path, content, src, id@, value, attributes@)
                    == term_of_shape(path, content, entry_shape(es.last(), src)));
            },
            FtlEntry::Other => {},
        }
    }
}

/// The report of one syntax error of a file: a heading, and the snippet unless
/// the snippet would read the text up to an error that does not start a
/// character.
pub open spec fn syntax_error_report(path: Seq<char>, content: Seq<char>, err: FtlError) -> Seq<char> {
    "Syntax error in Fluent file '"@ + path + "'\n"@ + if !slices_text(err.kind) || on_char_boundary(content, err.start as int) {
        spec_format_syntax_error(path, content, err)
    } else {
        Seq::<char>::empty()
    }
}

pub open spec fn syntax_error_reports(path: Seq<char>, content: Seq<char>, errs: Seq<FtlError>) -> Seq<Seq<char>> {
    errs.map_values(|e: FtlError| syntax_error_report(path, content, e))
}

/// Where an item with key `id` belongs in `s`, ordered by `key`.
spec fn slot_ok<T>(s: Seq<T>, key: spec_fn(T) -> Seq<char>, id: Seq<char>, p: int) -> bool {
    &&& 0 <= p <= s.len()
    &&& forall|i: int| 0 <= i < p ==> text_lt(#[trigger] key(s[i]), id)
    &&& p < s.len() ==> !text_lt(key(s[p]), id)
}

fn message_slot(ms: &Vec<ParsedMessage>, id: &str) -> (p: usize)
    ensures
        slot_ok(message_records(ms@), by_message_id(), id@, p as int),
{
    let ghost rs = message_records(ms@);
    let mut i: usize = 0;
    while i < ms.len()
        invariant
            i <= ms.len(),
            rs == message_records(ms@),
            forall|j: int| 0 <= j < i ==> text_lt(#[trigger] by_message_id()(rs[j]), id@),
        decreases ms.len() - i,
    {
        if !text_less(ms[i].id.as_str(), id) {
            return i;
        }
        i = i + 1;
    }
    i
}

fn term_slot(ts: &Vec<ParsedTerm>, id: &str) -> (p: usize)
    ensures
        slot_ok(term_records(ts@), by_term_id(), id@, p as int),
{
    let ghost rs = term_records(ts@);
    let mut i: usize = 0;
    while i < ts.len()
        invariant
            i <= ts.len(),
            rs == term_records(ts@),
            forall|j: int| 0 <= j < i ==> text_lt(#[trigger] by_term_id()(rs[j]), id@),
        decreases ts.len() - i,
    {
        if !text_less(ts[i].id.as_str(), id) {
            return i;
        }
        i = i + 1;
    }
    i
}

fn file_slot(fs: &Vec<FileContent>, path: &str) -> (p: usize)
    ensures
        slot_ok(file_records(fs@), by_path(), path@, p as int),
{
    let ghost rs = file_records(fs@);
    let mut i: usize = 0;
    while i < fs.len()
        invariant
            i <= fs.len(),
            rs == file_records(fs@),
            forall|j: int| 0 <= j < i ==> text_lt(#[trigger] by_path()(rs[j]), path@),
        decreases fs.len() - i,
    {
        if !text_less(fs[i].path.as_str(), path) {
            return i;
        }
        i = i + 1;
    }
    i
}

/// Puts a message in the list ordered by id, in place of one with the same id.
fn insert_message(ms: &mut Vec<ParsedMessage>, m: ParsedMessage)
    ensures
        message_records(final(ms)@) == upsert(message_records(old(ms)@), by_message_id(), message_record(m)),
{
    let ghost rs = message_records(ms@);
    let ghost x = message_record(m);
    let p = message_slot(ms, m.id.as_str());
    proof {
        lemma_upsert_at(rs, by_message_id(), x, p as int);
    }
    if p < ms.len() && text_eq(ms[p].id.as_str(), m.id.as_str()) {
        ms.set(p, m);
        assert(message_records(ms@) =~= rs.take(p as int) + seq![x] + rs.skip(p as int + 1));
    } else {
        ms.insert(p, m);
        assert(message_records(ms@) =~= rs.take(p as int) + seq![x] + rs.skip(p as int));
    }
}

/// Puts a term in the list ordered by id, in place of one with the same id.
fn insert_term(ts: &mut Vec<ParsedTerm>, t: ParsedTerm)
    ensures
        term_records(final(ts)@) == upsert(term_records(old(ts)@), by_term_id(), term_record(t)),
{
    let ghost rs = term_records(ts@);
    let ghost x = term_record(t);
    let p = term_slot(ts, t.id.as_str());
    proof {
        lemma_upsert_at(rs, by_term_id(), x, p as int);
    }
    if p < ts.len() && text_eq(ts[p].id.as_str(), t.id.as_str()) {
        ts.set(p, t);
        assert(term_records(ts@) =~= rs.take(p as int) + seq![x] + rs.skip(p as int + 1));
    } else {
        ts.insert(p, t);
        assert(term_records(ts@) =~= rs.take(p as int) + seq![x] + rs.skip(p as int));
    }
}

/// Puts a file text in the list ordered by path, in place of one with the same path.
fn insert_file(fs: &mut Vec<FileContent>, f: FileContent)
    ensures
        file_records(final(fs)@) == upsert(file_records(old(fs)@), by_path(), file_record(f)),
{
    let ghost rs = file_records(fs@);
    let ghost x = file_record(f);
    let p = file_slot(fs, f.path.as_str());
    proof {
        lemma_upsert_at(rs, by_path(), x, p as int);
    }
    if p < fs.len() && text_eq(fs[p].path.as_str(), f.path.as_str()) {
        fs.set(p, f);
        assert(file_records(fs@) =~= rs.take(p as int) + seq![x] + rs.skip(p as int + 1));
    } else {
        fs.insert(p, f);
        assert(file_records(fs@) =~= rs.take(p as int) + seq![x] + rs.skip(p as int));
    }
}

/// The message `id` of the file at `path`, read from its value and attributes.
fn build_message(
    path: &String,
    content: &String,
    base: usize,
    bytes: &[u8],
    id: &String,
    value: &Option<FtlPattern>,
    attributes: &Vec<FtlPattern>,
) -> (m: ParsedMessage)
    requires
        bytes@ == vstd::utf8::encode_utf8(content@),
    ensures
        message_record(m) == message_from(path@, content@, file_source(content@, base), id@, *value, attributes@),
{
    let ghost src = file_source(content@, base);
    let rust_ident = to_rust_ident(id.as_str());
    let mut variables: Vec<String> = Vec::new();
    let mut term_references: Vec<ReferenceSpan> = Vec::new();
    let mut message_references: Vec<ReferenceSpan> = Vec::new();
    let mut function_references: Vec<ReferenceSpan> = Vec::new();
    assert(variables.deep_view() =~= Seq::<Seq<char>>::empty());
    assert(recorded(term_references@, message_references@, function_references@) =~= no_refs());
    match value {
        Some(v) => {
            collect_pattern_variables(v, &mut variables);
            collect_pattern_references(v, base, bytes, &mut term_references, &mut message_references, &mut function_references);
        },
        None => {
            assert(add_unique(Seq::<Seq<char>>::empty(), Seq::empty()) == Seq::<Seq<char>>::empty());
        },
    }
    collect_patterns_variables(attributes, &mut variables);
    collect_patterns_references(attributes, base, bytes, &mut term_references, &mut message_references, &mut function_references);
    assert(recorded(term_references@, message_references@, function_references@) =~= entry_refs(src, *value, attributes@));
    let (raw_definition, line) = extract_raw_definition(content.as_str(), id.as_str());
    ParsedMessage {
        id: copy_string(id),
        rust_ident,
        variables,
        raw_definition,
        file_path: copy_string(path),
        line,
        term_references,
        message_references,
        function_references,
    }
}

/// The term named `name` of the file at `path`, read from its value and attributes.
fn build_term(
    path: &String,
    content: &String,
    base: usize,
    bytes: &[u8],
    name: &String,
    value: &FtlPattern,
    attributes: &Vec<FtlPattern>,
) -> (t: ParsedTerm)
    requires
        bytes@ == vstd::utf8::encode_utf8(content@),
    ensures
        term_record(t) == term_from(path@, content@, file_source(content@, base), name@, *value, attributes@),
{
    let ghost src = file_source(content@, base);
    let mut id = String::new();
    id.append("-");
    id.append(name.as_str());
    let mut variables: Vec<String> = Vec::new();
    let mut term_references: Vec<ReferenceSpan> = Vec::new();
    let mut message_references: Vec<ReferenceSpan> = Vec::new();
    let mut function_references: Vec<ReferenceSpan> = Vec::new();
    assert(variables.deep_view() =~= Seq::<Seq<char>>::empty());
    assert(recorded(term_references@, message_references@, function_references@) =~= no_refs());
    collect_pattern_variables(value, &mut variables);
    collect_pattern_references(value, base, bytes, &mut term_references, &mut message_references, &mut function_references);
    collect_patterns_variables(attributes, &mut variables);
    collect_patterns_references(attributes, base, bytes, &mut term_references, &mut message_references, &mut function_references);
    assert(recorded(term_references@, message_references@, function_references@) =~= entry_refs(src, Some(*value), attributes@));
    let (raw_definition, line) = extract_raw_definition(content.as_str(), id.as_str());
    ParsedTerm {
        id,
        raw_definition,
        file_path: copy_string(path),
        line,
        variables,
        term_references,
        message_references,
        function_references,
    }
}

/// Adds a parsed file to a locale: its text under its path, then each message
/// and term in order (one with the id of an earlier one takes its place), and
/// appends a report for each syntax error. `base` is the address of the
/// file's text, which the names in `parsed` point into.
pub fn add_parsed_file(locale: &mut ParsedLocale, errors: &mut Vec<String>, file: &LocaleFile, base: usize, parsed: &FtlParse)
    requires
        byte_len(file.content@) + 2 < usize::MAX,
    ensures
        locale_record(*final(locale)) == record_file(locale_record(*old(locale)), file.path@, file.content@, base, *parsed),
        final(errors).deep_view() == old(errors).deep_view() + syntax_error_reports(file.path@, file.content@, parsed.errors@),
{
    let ghost path = file.path@;
    let ghost content = file.content@;
    let ghost src = file_source(content, base);
    let ghost l0 = locale_record(*locale);
    insert_file(&mut locale.file_contents, FileContent { path: copy_string(&file.path), content: copy_string(&file.content) });
    let ghost with_file = locale_record(*locale);
    assert(with_file == LocaleRecord { messages: l0.messages, terms: l0.terms, files: upsert(l0.files, by_path(), (path, content)) });
    let bytes = file.content.as_str().as_bytes();
    let mut i: usize = 0;
    while i < parsed.entries.len()
        invariant
            i <= parsed.entries.len(),
            bytes@ == vstd::utf8::encode_utf8(file.content@),
            src == file_source(file.content@, base),
            locale_record(*locale) == record_entries(with_file, file.path@, file.content@, src, parsed.entries@.take(i as int)),
        decreases parsed.entries.len() - i,
    {
        assert(parsed.entries@.take(i as int + 1).drop_last() =~= parsed.entries@.take(i as int));
        match &parsed.entries[i] {
            FtlEntry::Message { id, value, attributes } => {
                let m = build_message(&file.path, &file.content, base, bytes, id, value, attributes);
                insert_message(&mut locale.messages, m);
            },
            FtlEntry::Term { id, value, attributes } => {
                let t = build_term(&file.path, &file.content, base, bytes, id, value, attributes);
                insert_term(&mut locale.terms, t);
            },
            FtlEntry::Other => {},
        }
        i = i + 1;
    }
    assert(parsed.entries@.take(parsed.entries.len() as int) =~= parsed.entries@);
    let cs = chars_of(file.content.as_str());
    let ghost e0 = errors.deep_view();
    let mut j: usize = 0;
    while j < parsed.errors.len()
        invariant
            j <= parsed.errors.len(),
            cs@ == file.content@,
            byte_len(file.content@) + 2 < usize::MAX,
            errors.deep_view() == e0 + syntax_error_reports(file.path@, file.content@, parsed.errors@.take(j as int)),
        decreases parsed.errors.len() - j,
    {
        let err = &parsed.errors[j];
        let mut report = String::new();
        report.append("Syntax error in Fluent file '");
        report.append(file.path.as_str());
        report.append("'\n");
        if !kind_slices_text(&err.kind) || char_index_at(&cs, err.start).is_some() {
            let snippet = format_syntax_error(file.path.as_str(), file.content.as_str(), err);
            report.append(snippet.as_str());
        }
        assert(report@ =~= syntax_error_report(file.path@, file.content@, *err));
        let ghost before = errors@;
        let ghost bd = errors.deep_view();
        errors.push(report);
        proof {
            assert forall|k: int| 0 <= k < errors.len() implies errors.deep_view()[k] == bd.push(report@)[k] by {
                if k < before.len() {
                    assert(errors@[k] == before[k]);
                }
            }
            assert(errors.deep_view() =~= bd.push(report@));
            assert(parsed.errors@.take(j as int + 1) =~= parsed.errors@.take(j as int).push(*err));
            assert(syntax_error_reports(file.path@, file.content@, parsed.errors@.take(j as int + 1))
                =~= syntax_error_reports(file.path@, file.content@, parsed.errors@.take(j as int)).push(report@));
        }
        j = j + 1;
    }
    assert(parsed.errors@.take(parsed.errors.len() as int) =~= parsed.errors@);
}

/// A locale with nothing in it.
pub open spec fn empty_locale() -> LocaleRecord {
    LocaleRecord { messages: Seq::empty(), terms: Seq::empty(), files: Seq::empty() }
}

/// The locale after reading the files in order.
pub open spec fn read_files(l: LocaleRecord, files: Seq<LocaleFile>) -> LocaleRecord
    decreases files.len(),
{
    if files.len() == 0 {
        l
    } else {
        read_file(read_files(l, files.drop_last()), files.last().path@, files.last().content@)
    }
}

/// The reports of the syntax errors of all files, file by file.
pub open spec fn all_syntax_errors(files: Seq<LocaleFile>) -> Seq<Seq<char>>
    decreases files.len(),
{
    if files.len() == 0 {
        Seq::empty()
    } else {
        all_syntax_errors(files.drop_last())
            + syntax_error_reports(files.last().path@, files.last().content@, fluent_parse_errors(files.last().content@))
    }
}

/// The texts of the files fit in memory with room to spare.
pub open spec fn files_fit(files: Seq<LocaleFile>) -> bool {
    forall|i: int| 0 <= i < files.len() ==> byte_len(#[trigger] files[i].content@) + 2 < usize::MAX
}

/// `l` is what reading the files gives when none has a syntax error.
pub open spec fn parsed_from(files: Seq<LocaleFile>, l: ParsedLocale) -> bool {
    &&& all_syntax_errors(files).len() == 0
    &&& locale_record(l) == read_files(empty_locale(), files)
}

/// Parses the Fluent files of a locale. Every syntax error of every file is
/// reported; without any, the result holds each file text and every message
/// and term, a later one with the same id taking the place of the earlier.
pub fn parse_locale(files: &Vec<LocaleFile>) -> (r: Result<ParsedLocale, Vec<String>>)
    requires
        files_fit(files@),
    ensures
        match r {
            Ok(l) => parsed_from(files@, l),
            Err(e) => all_syntax_errors(files@).len() > 0 && e.deep_view() == all_syntax_errors(files@),
        },
{
    let mut locale = ParsedLocale { messages: Vec::new(), terms: Vec::new(), file_contents: Vec::new() };
    let mut errors: Vec<String> = Vec::new();
    proof {
        assert(message_records(locale.messages@) =~= Seq::<MessageRecord>::empty());
        assert(term_records(locale.terms@) =~= Seq::<TermRecord>::empty());
        assert(file_records(locale.file_contents@) =~= Seq::<(Seq<char>, Seq<char>)>::empty());
        assert(errors.deep_view() =~= Seq::<Seq<char>>::empty());
    }
    let mut i: usize = 0;
    while i < files.len()
        invariant
            i <= files.len(),
            files_fit(files@),
            locale_record(locale) == read_files(empty_locale(), files@.take(i as int)),
            errors.deep_view() == all_syntax_errors(files@.take(i as int)),
        decreases files.len() - i,
    {
        let file = &files[i];
        let ghost before = locale_record(locale);
        let (parsed, base) = parse_ftl(file.content.as_str());
        add_parsed_file(&mut locale, &mut errors, file, base, &parsed);
        proof {
            let t = files@.take(i as int + 1);
            assert(t.drop_last() =~= files@.take(i as int));
            assert(t.last() == *file);
            lemma_record_entries_shapes(with_file(before, file.path@, file.content@), file.path@, file.content@,
                file_source(file.content@, base), parsed.entries@);
        }
        i = i + 1;
    }
    assert(files@.take(files.len() as int) =~= files@);
    if errors.len() > 0 {
        Err(errors)
    } else {
        Ok(locale)
    }
}

/// The byte offset at which `needle` starts within `haystack`, found from the
/// addresses of the two texts in memory, when `needle` lies within it; else 0.
pub fn subslice_offset(haystack: &str, needle: &str) -> (r: usize)
    ensures
        r <= haystack.len(),
{
    let h = str_address(haystack);
    let n = str_address(needle);
    offset_within(h, haystack.len(), n)
}

/// The messages, terms and file texts of a locale are each ordered by key,
/// with no key twice.
pub open spec fn locale_ordered(l: LocaleRecord) -> bool {
    &&& strictly_sorted(l.messages, by_message_id())
    &&& strictly_sorted(l.terms, by_term_id())
    &&& strictly_sorted(l.files, by_path())
}

proof fn lemma_record_shapes_ordered(l: LocaleRecord, path: Seq<char>, content: Seq<char>, ss: Seq<EntryShape>)
    requires
        locale_ordered(l),
    ensures
        locale_ordered(record_shapes(l, path, content, ss)),
    decreases ss.len(),
{
    if ss.len() > 0 {
        lemma_record_shapes_ordered(l, path, content, ss.drop_last());
        let p = record_shapes(l, path, content, ss.drop_last());
        let s = ss.last();
        if s.kind == 0 {
            law_upsert_keeps_order(p.messages, by_message_id(), message_of_shape(path, content, s));
        } else if s.kind == 1 {
            law_upsert_keeps_order(p.terms, by_term_id(), term_of_shape(path, content, s));
        }
    }
}

/// Reading files into a locale keeps its messages, terms and file texts
/// ordered by key with no key twice: a later message, term or file with the
/// key of an earlier one takes its place.
pub proof fn law_parsed_locale_ordered(files: Seq<LocaleFile>)
    ensures
        locale_ordered(read_files(empty_locale(), files)),
    decreases files.len(),
{
    if files.len() > 0 {
        law_parsed_locale_ordered(files.drop_last());
        let l = read_files(empty_locale(), files.drop_last());
        let path = files.last().path@;
        let content = files.last().content@;
        law_upsert_keeps_order(l.files, by_path(), (path, content));
        lemma_record_shapes_ordered(with_file(l, path, content), path, content, fluent_entry_shapes(content));
    }
}

/// A message read last under an id is the one a locale keeps under it.
pub proof fn law_last_message_kept(l: LocaleRecord, path: Seq<char>, content: Seq<char>, src: Source, e: FtlEntry)
    requires
        locale_ordered(l),
        e is Message,
    ensures
        record_entry(l, path, content, src, e).messages.contains(
            message_from(path, content, src, e->Message_id@, e->Message_value, e->Message_attributes@)),
        forall|m: MessageRecord| #[trigger] record_entry(l, path, content, src, e).messages.contains(m) && m.id == e->Message_id@
            ==> m == message_from(path, content, src, e->Message_id@, e->Message_value, e->Message_attributes@),
{
    let x = message_from(path, content, src, e->Message_id@, e->Message_value, e->Message_attributes@);
    law_upsert_keeps_order(l.messages, by_message_id(), x);
    let u = upsert(l.messages, by_message_id(), x);
    assert forall|m: MessageRecord| #[trigger] u.contains(m) && m.id == e->Message_id@ implies m == x by {
        let i = choose|i: int| 0 <= i < u.len() && u[i] == m;
        let j = choose|j: int| 0 <= j < u.len() && u[j] == x;
        if i != j {
            if i < j {
                assert(text_lt(by_message_id()(u[i]), by_message_id()(u[j])));
            } else {
                assert(text_lt(by_message_id()(u[j]), by_message_id()(u[i])));
            }
            crate::text::lemma_text_lt_asym(m.id, m.id);
        }
    }
}

/// Number of newlines in `cs`.
pub open spec fn newlines(cs: Seq<char>) -> nat
    decreases cs.len(),
{
    if cs.len() == 0 {
        0
    } else {
        newlines(cs.drop_last()) + if cs.last() == '\n' { 1nat } else { 0nat }
    }
}

/// The line reached after a text is one more than its newlines, and the
/// column one more than the characters after its last newline.
pub proof fn law_line_col_counts(cs: Seq<char>)
    ensures
        line_col(cs).0 == newlines(cs) + 1,
        line_col(cs).1 == cs.len() - (crate::scan::last_index_of(cs, '\n') + 1) + 1,
    decreases cs.len(),
{
    if cs.len() > 0 {
        law_line_col_counts(cs.drop_last());
    }
}

/// Position `a` comes no later than position `b`: on an earlier line, or on
/// the same line at a column no greater.
pub open spec fn position_le(a: (nat, nat), b: (nat, nat)) -> bool {
    a.0 < b.0 || (a.0 == b.0 && a.1 <= b.1)
}

proof fn lemma_chars_before_mono(cs: Seq<char>, o1: int, o2: int)
    requires
        o1 <= o2,
    ensures
        chars_before(cs, o1) <= chars_before(cs, o2),
    decreases cs.len(),
{
    if cs.len() > 0 && o1 > 0 {
        lemma_chars_before_mono(cs.drop_first(), o1 - char_width(cs[0]), o2 - char_width(cs[0]));
    }
}

proof fn lemma_chars_before_past_end(cs: Seq<char>, o: int)
    requires
        o >= byte_len(cs),
    ensures
        chars_before(cs, o) == cs.len(),
    decreases cs.len(),
{
    if cs.len() > 0 {
        assert(cs =~= seq![cs[0]] + cs.drop_first());
        crate::scan::lemma_byte_len_concat(seq![cs[0]], cs.drop_first());
        assert(seq![cs[0]].drop_last() =~= Seq::<char>::empty());
        assert(o > 0);
        lemma_chars_before_past_end(cs.drop_first(), o - char_width(cs[0]));
    }
}

proof fn lemma_line_col_prefix_mono(cs: Seq<char>, a: int, b: int)
    requires
        0 <= a <= b <= cs.len(),
    ensures
        position_le(line_col(cs.take(a)), line_col(cs.take(b))),
    decreases b - a,
{
    if a < b {
        lemma_line_col_prefix_mono(cs, a, b - 1);
        assert(cs.take(b).drop_last() =~= cs.take(b - 1));
    }
}

/// Reading further into a text never moves back: a later byte offset is at the
/// same position or a later one, and every offset at or past the end of the
/// text is at the position of its end.
pub proof fn law_line_col_monotone(text: Seq<char>, o1: int, o2: int)
    requires
        o1 <= o2,
    ensures
        position_le(spec_line_col_at(text, o1), spec_line_col_at(text, o2)),
        o1 >= byte_len(text) ==> spec_line_col_at(text, o1) == spec_line_col_at(text, byte_len(text) as int),
{
    lemma_chars_before_mono(text, o1, o2);
    lemma_chars_before_bound(text, o2);
    lemma_line_col_prefix_mono(text, chars_before(text, o1) as int, chars_before(text, o2) as int);
    if o1 >= byte_len(text) {
        lemma_chars_before_past_end(text, o1);
        lemma_chars_before_past_end(text, byte_len(text) as int);
    }
}

/// The identifier generated for a name holds no hyphen.
pub proof fn law_rust_ident_has_no_hyphen(name: Seq<char>)
    ensures
        !rust_ident_of(name).contains('-'),
{
    let snake = snake_case(name);
    assert(!snake.contains('-'));
    let r = rust_ident_of(name);
    if !syn_parses_ident(snake) {
        if syn_parses_ident("r#"@ + snake) {
            reveal_strlit("r#");
            assert(!r.contains('-')) by {
                if r.contains('-') {
                    let i = choose|i: int| 0 <= i < r.len() && r[i] == '-';
                    if i >= 2 {
                        assert(r[i] == snake[i - 2]);
                    }
                }
            }
        } else {
            reveal_strlit("_");
            assert(!r.contains('-')) by {
                if r.contains('-') {
                    let i = choose|i: int| 0 <= i < r.len() && r[i] == '-';
                    if i >= 1 {
                        assert(r[i] == snake[i - 1]);
                    }
                }
            }
        }
    }
}

/// The syntax errors of the files of all locales, locale by locale.
pub open spec fn locales_syntax_errors(ls: Seq<LocaleFiles>) -> Seq<Seq<char>>
    decreases ls.len(),
{
    if ls.len() == 0 {
        Seq::empty()
    } else {
        locales_syntax_errors(ls.drop_last()) + all_syntax_errors(ls.last().files@)
    }
}

/// Parses every locale found. Gives each locale with its parsed entries, in
/// order, or the syntax errors of all locales when there is any.
pub fn parse_locales(data: &LocalesData) -> (r: Result<Vec<LocaleEntry>, Vec<String>>)
    requires
        forall|i: int| 0 <= i < data.locales.len() ==> files_fit(#[trigger] data.locales@[i].files@),
    ensures
        match r {
            Ok(ls) => {
                &&& locales_syntax_errors(data.locales@).len() == 0
                &&& ls.len() == data.locales.len()
                &&& forall|i: int| 0 <= i < ls.len() ==> (#[trigger] ls@[i]).id@ == data.locales@[i].id@
                    && parsed_from(data.locales@[i].files@, ls@[i].locale)
            },
            Err(e) => locales_syntax_errors(data.locales@).len() > 0 && e.deep_view() == locales_syntax_errors(data.locales@),
        },
{
    let mut parsed: Vec<LocaleEntry> = Vec::new();
    let mut errors: Vec<String> = Vec::new();
    let mut i: usize = 0;
    assert(errors.deep_view() =~= locales_syntax_errors(data.locales@.take(0)));
    while i < data.locales.len()
        invariant
            i <= data.locales.len(),
            forall|k: int| 0 <= k < data.locales.len() ==> files_fit(#[trigger] data.locales@[k].files@),
            errors.deep_view() == locales_syntax_errors(data.locales@.take(i as int)),
            errors.len() == 0 ==> parsed.len() == i && forall|k: int| 0 <= k < parsed.len() ==> (#[trigger] parsed@[k]).id@ == data.locales@[k].id@
                && parsed_from(data.locales@[k].files@, parsed@[k].locale),
        decreases data.locales.len() - i,
    {
        let lf = &data.locales[i];
        proof {
            assert(data.locales@.take(i as int + 1).drop_last() =~= data.locales@.take(i as int));
            assert(data.locales@.take(i as int + 1).last() == *lf);
        }
        let ghost before = errors.deep_view();
        match parse_locale(&lf.files) {
            Ok(l) => {
                assert(locales_syntax_errors(data.locales@.take(i as int + 1)) =~= before);
                if errors.len() == 0 {
                    let ghost pv = parsed@;
                    parsed.push(LocaleEntry { id: copy_string(&lf.id), locale: l });
                    assert forall|k: int| 0 <= k < parsed.len() implies (#[trigger] parsed@[k]).id@ == data.locales@[k].id@
                        && parsed_from(data.locales@[k].files@, parsed@[k].locale) by {
                        if k < pv.len() {
                            assert(parsed@[k] == pv[k]);
                        }
                    }
                }
            },
            Err(es) => {
                let ghost ev = errors@;
                let mut more = es;
                errors.append(&mut more);
                proof {
                    assert forall|k: int| 0 <= k < errors.len() implies errors.deep_view()[k] == (before + all_syntax_errors(lf.files@))[k] by {
                        if k < ev.len() {
                            assert(errors@[k] == ev[k]);
                        }
                    }
                    assert(errors.deep_view() =~= before + all_syntax_errors(lf.files@));
                }
            },
        }
        i = i + 1;
    }
    assert(data.locales@.take(data.locales.len() as int) =~= data.locales@);
    if errors.len() > 0 {
        Err(errors)
    } else {
        Ok(parsed)
    }
}

/// The line names `id` at its start and then, after optional white space, an
/// `=`; or names `id` followed by a space and holds an `=` further on. A line
/// that starts with a longer id of which `id` is a prefix does neither.
pub open spec fn names_definition(line: Seq<char>, id: Seq<char>) -> bool {
    &&& id.len() <= line.len()
    &&& forall|t: int| 0 <= t < id.len() ==> line[t] == id[t]
    &&& {
        ||| exists|k: int| #![trigger line[k]]
            id.len() <= k < line.len() && line[k] == '=' && forall|t: int| id.len() <= t < k ==> is_ws(#[trigger] line[t])
        ||| (id.len() < line.len() && line[id.len() as int] == ' ' && exists|k: int| 0 <= k < line.len() && #[trigger] line[k] == '=')
    }
}

proof fn lemma_trim_start_eq(x: Seq<char>)
    ensures
        (trim_start(x).len() > 0 && trim_start(x)[0] == '=') <==> exists|k: int| #![trigger x[k]]
            0 <= k < x.len() && x[k] == '=' && forall|t: int| 0 <= t < k ==> is_ws(#[trigger] x[t]),
    decreases x.len(),
{
    assert(!is_ws('='));
    if x.len() > 0 && is_ws(x[0]) {
        lemma_trim_start_eq(x.drop_first());
        let y = x.drop_first();
        if exists|k: int| #![trigger y[k]] 0 <= k < y.len() && y[k] == '=' && forall|t: int| 0 <= t < k ==> is_ws(#[trigger] y[t]) {
            let k = choose|k: int| #![trigger y[k]] 0 <= k < y.len() && y[k] == '=' && forall|t: int| 0 <= t < k ==> is_ws(#[trigger] y[t]);
            assert(x[k + 1] == '=');
            assert forall|t: int| 0 <= t < k + 1 implies is_ws(#[trigger] x[t]) by {
                if t > 0 {
                    assert(x[t] == y[t - 1]);
                }
            }
        }
        if exists|k: int| #![trigger x[k]] 0 <= k < x.len() && x[k] == '=' && forall|t: int| 0 <= t < k ==> is_ws(#[trigger] x[t]) {
            let k = choose|k: int| #![trigger x[k]] 0 <= k < x.len() && x[k] == '=' && forall|t: int| 0 <= t < k ==> is_ws(#[trigger] x[t]);
            assert(k > 0);
            assert(y[k - 1] == '=');
            assert forall|t: int| 0 <= t < k - 1 implies is_ws(#[trigger] y[t]) by {
                assert(is_ws(x[t + 1]));
            }
        }
    } else if x.len() > 0 {
        if exists|k: int| #![trigger x[k]] 0 <= k < x.len() && x[k] == '=' && forall|t: int| 0 <= t < k ==> is_ws(#[trigger] x[t]) {
            let k = choose|k: int| #![trigger x[k]] 0 <= k < x.len() && x[k] == '=' && forall|t: int| 0 <= t < k ==> is_ws(#[trigger] x[t]);
            if k > 0 {
                assert(is_ws(x[0]));
            }
        }
    }
}

proof fn lemma_opens_definition(line: Seq<char>, id: Seq<char>)
    ensures
        opens_definition(line, id) <==> names_definition(line, id),
{
    let x = line.skip(id.len() as int);
    if id.len() <= line.len() {
        if forall|t: int| 0 <= t < id.len() ==> line[t] == id[t] {
            assert(line.take(id.len() as int) =~= id);
        }
        lemma_trim_start_eq(x);
        if exists|k: int| #![trigger x[k]] 0 <= k < x.len() && x[k] == '=' && forall|t: int| 0 <= t < k ==> is_ws(#[trigger] x[t]) {
            let k = choose|k: int| #![trigger x[k]] 0 <= k < x.len() && x[k] == '=' && forall|t: int| 0 <= t < k ==> is_ws(#[trigger] x[t]);
            let kk = k + id.len();
            assert(line[kk] == '=');
            assert forall|t: int| id.len() <= t < kk implies is_ws(#[trigger] line[t]) by {
                assert(line[t] == x[t - id.len()]);
            }
        }
        if exists|k: int| #![trigger line[k]]
            id.len() <= k < line.len() && line[k] == '=' && forall|t: int| id.len() <= t < k ==> is_ws(#[trigger] line[t]) {
            let kk = choose|k: int| #![trigger line[k]]
                id.len() <= k < line.len() && line[k] == '=' && forall|t: int| id.len() <= t < k ==> is_ws(#[trigger] line[t]);
            let k = kk - id.len();
            assert(x[k] == '=');
            assert forall|t: int| 0 <= t < k implies is_ws(#[trigger] x[t]) by {
                assert(x[t] == line[t + id.len()]);
            }
        }
        if id.len() < line.len() {
            if forall|t: int| 0 <= t < id.len() ==> line[t] == id[t] {
                if line[id.len() as int] == ' ' {
                    assert(line.take(id.len() as int + 1) =~= id.push(' '));
                }
            }
            if starts_with(line, id.push(' ')) {
                assert(line.take(id.len() as int + 1)[id.len() as int] == ' ');
                assert forall|t: int| 0 <= t < id.len() implies line[t] == id[t] by {
                    assert(line.take(id.len() as int + 1)[t] == id.push(' ')[t]);
                }
            }
        }
        if starts_with(line, id) {
            assert forall|t: int| 0 <= t < id.len() implies line[t] == id[t] by {
                assert(line.take(id.len() as int)[t] == id[t]);
            }
        }
    }
    if line.contains('=') {
        let k = choose|k: int| 0 <= k < line.len() && line[k] == '=';
        assert(line[k] == '=');
    }
}

proof fn lemma_scan_found(ls: Seq<Seq<char>>, i: int, id: Seq<char>, start: nat, open: usize, acc: Seq<Seq<char>>)
    ensures
        scan_definition(ls, i, id, true, start, open, acc).0,
        scan_definition(ls, i, id, true, start, open, acc).1 == start,
        scan_definition(ls, i, id, true, start, open, acc).2.len() >= acc.len(),
        scan_definition(ls, i, id, true, start, open, acc).2.take(acc.len() as int) == acc,
    decreases ls.len() - i,
{
    if 0 <= i < ls.len() {
        let line = ls[i];
        if open > 0 || (line.len() > 0 && (line[0] == ' ' || line[0] == '\t')) {
            lemma_scan_found(ls, i + 1, id, start, brace_step(open, line), acc.push(line));
            let r = scan_definition(ls, i + 1, id, true, start, brace_step(open, line), acc.push(line));
            assert(r.2.take(acc.len() as int) =~= r.2.take(acc.len() as int + 1).take(acc.len() as int));
            assert(acc.push(line).take(acc.len() as int) =~= acc);
        } else {
            assert(acc.take(acc.len() as int) =~= acc);
        }
    } else {
        assert(acc.take(acc.len() as int) =~= acc);
    }
}

proof fn lemma_scan_first(ls: Seq<Seq<char>>, i: int, id: Seq<char>, start: nat, open: usize, acc: Seq<Seq<char>>, j: int)
    requires
        0 <= i <= j < ls.len(),
        opens_definition(ls[j], id),
        forall|t: int| i <= t < j ==> !opens_definition(#[trigger] ls[t], id),
    ensures
        scan_definition(ls, i, id, false, start, open, acc).0,
        scan_definition(ls, i, id, false, start, open, acc).1 == j + 1,
        scan_definition(ls, i, id, false, start, open, acc).2.len() > acc.len(),
        scan_definition(ls, i, id, false, start, open, acc).2[acc.len() as int] == ls[j],
    decreases j - i,
{
    let line = ls[i];
    if i == j {
        lemma_scan_found(ls, i + 1, id, (i + 1) as nat, brace_step(open, line), acc.push(line));
        let r = scan_definition(ls, i + 1, id, true, (i + 1) as nat, brace_step(open, line), acc.push(line));
        assert(r.2[acc.len() as int] == r.2.take(acc.len() as int + 1)[acc.len() as int]);
    } else {
        lemma_scan_first(ls, i + 1, id, start, open, acc, j);
    }
}

proof fn lemma_scan_none(ls: Seq<Seq<char>>, i: int, id: Seq<char>, start: nat, open: usize, acc: Seq<Seq<char>>)
    requires
        0 <= i,
        forall|t: int| i <= t < ls.len() ==> !opens_definition(#[trigger] ls[t], id),
    ensures
        scan_definition(ls, i, id, false, start, open, acc) == (false, start, acc),
    decreases ls.len() - i,
{
    if i < ls.len() {
        lemma_scan_none(ls, i + 1, id, start, open, acc);
    }
}

proof fn lemma_join_starts(list: Seq<Seq<char>>, sep: Seq<char>)
    requires
        list.len() >= 1,
    ensures
        starts_with(join(list, sep), list[0]),
    decreases list.len(),
{
    if list.len() == 1 {
        assert(join(list, sep).take(list[0].len() as int) =~= list[0]);
    } else {
        lemma_join_starts(list.drop_last(), sep);
        let j = join(list.drop_last(), sep);
        assert(list.drop_last()[0] == list[0]);
        assert((j + sep + list.last()).take(list[0].len() as int) =~= j.take(list[0].len() as int));
    }
}

/// The definition of an id is found at the first line that names it as
/// defined (the id, then `=` after optional white space, or a space and an
/// `=` later on): the line number given is that line's, and the definition
/// text begins with that line. When no line defines the id, the placeholder
/// `<id> = ...` on line 1 comes back.
pub proof fn law_definition_found_at_defining_line(content: Seq<char>, id: Seq<char>, i: int)
    ensures
        ({
            let ls = text_lines(content);
            0 <= i < ls.len() && names_definition(ls[i], id)
                && (forall|t: int| 0 <= t < i ==> !names_definition(#[trigger] ls[t], id))
            ==> spec_extract_raw_definition(content, id).1 == i + 1
                && starts_with(spec_extract_raw_definition(content, id).0, ls[i])
        }),
        (forall|t: int| 0 <= t < text_lines(content).len() ==> !names_definition(#[trigger] text_lines(content)[t], id))
            ==> spec_extract_raw_definition(content, id) == (id + " = ..."@, 1nat),
{
    let ls = text_lines(content);
    if 0 <= i < ls.len() && names_definition(ls[i], id)
        && (forall|t: int| 0 <= t < i ==> !names_definition(#[trigger] ls[t], id)) {
        lemma_opens_definition(ls[i], id);
        assert forall|t: int| 0 <= t < i implies !opens_definition(#[trigger] ls[t], id) by {
            lemma_opens_definition(ls[t], id);
        }
        lemma_scan_first(ls, 0, id, 1, 0, Seq::empty(), i);
        let r = scan_definition(ls, 0, id, false, 1, 0, Seq::empty());
        lemma_join_starts(r.2, "\n"@);
    }
    if forall|t: int| 0 <= t < ls.len() ==> !names_definition(#[trigger] ls[t], id) {
        assert forall|t: int| 0 <= t < ls.len() implies !opens_definition(#[trigger] ls[t], id) by {
            lemma_opens_definition(ls[t], id);
        }
        lemma_scan_none(ls, 0, id, 1, 0, Seq::empty());
    }
}

} // verus!
