//! The parts of a parsed Fluent resource that the checks read, held as plain
//! values, and the parse of a source text into them.

use vstd::prelude::*;
use fluent_syntax::ast::{CallArguments, Entry, Expression, Identifier, InlineExpression, Pattern, PatternElement};
use fluent_syntax::parser::{ErrorKind, ParserError};

verus! {

/// An identifier of the source and the address of its text in memory.
pub struct FtlName {
    pub text: String,
    pub addr: usize,
}

/// An inline expression.
pub enum FtlInline {
    StringLiteral,
    NumberLiteral,
    FunctionReference { id: FtlName, arguments: FtlCallArgs },
    MessageReference { id: FtlName },
    TermReference { id: FtlName, term_args: Option<FtlCallArgs> },
    VariableReference { id: FtlName },
    Placeable { expression: Box<FtlExpression> },
}

/// The arguments of a call.
pub struct FtlCallArgs {
    pub positional: Vec<FtlInline>,
    pub named: Vec<FtlNamedArg>,
}

/// A named argument of a call.
pub struct FtlNamedArg {
    pub name: FtlName,
    pub value: FtlInline,
}

/// An expression: inline, or a select expression with the patterns of its variants.
pub enum FtlExpression {
    Inline { inline: FtlInline },
    Select { selector: FtlInline, variants: Vec<FtlPattern> },
}

/// A pattern: text and placeables.
pub struct FtlPattern {
    pub elements: Vec<FtlElement>,
}

/// An element of a pattern.
pub enum FtlElement {
    Text,
    Placeable { expression: FtlExpression },
}

/// Variables used by an inline expression, in order of appearance, with repeats.
pub open spec fn inline_var_uses(e: FtlInline) -> Seq<Seq<char>>
    decreases e, 0nat,
{
    match e {
        FtlInline::VariableReference { id } => seq![id.text@],
        FtlInline::FunctionReference { id, arguments } => args_var_uses(arguments),
        FtlInline::TermReference { id, term_args } => match term_args {
            Some(a) => args_var_uses(a),
            None => Seq::empty(),
        },
        FtlInline::Placeable { expression } => expr_var_uses(*expression),
        _ => Seq::empty(),
    }
}

pub open spec fn args_var_uses(a: FtlCallArgs) -> Seq<Seq<char>>
    decreases a, 0nat,
{
    inlines_var_uses(a.positional@) + named_var_uses(a.named@)
}

pub open spec fn inlines_var_uses(s: Seq<FtlInline>) -> Seq<Seq<char>>
    decreases s, s.len(),
{
    if s.len() == 0 {
        Seq::empty()
    } else {
        inlines_var_uses(s.drop_last()) + inline_var_uses(s.last())
    }
}

pub open spec fn named_var_uses(s: Seq<FtlNamedArg>) -> Seq<Seq<char>>
    decreases s, s.len(),
{
    if s.len() == 0 {
        Seq::empty()
    } else {
        named_var_uses(s.drop_last()) + inline_var_uses(s.last().value)
    }
}

pub open spec fn expr_var_uses(e: FtlExpression) -> Seq<Seq<char>>
    decreases e, 0nat,
{
    match e {
        FtlExpression::Inline { inline } => inline_var_uses(inline),
        FtlExpression::Select { selector, variants } => inline_var_uses(selector) + patterns_var_uses(variants@),
    }
}

pub open spec fn patterns_var_uses(s: Seq<FtlPattern>) -> Seq<Seq<char>>
    decreases s, s.len(),
{
    if s.len() == 0 {
        Seq::empty()
    } else {
        patterns_var_uses(s.drop_last()) + pattern_var_uses(s.last())
    }
}

pub open spec fn pattern_var_uses(p: FtlPattern) -> Seq<Seq<char>>
    decreases p, 0nat,
{
    elements_var_uses(p.elements@)
}

pub open spec fn elements_var_uses(s: Seq<FtlElement>) -> Seq<Seq<char>>
    decreases s, s.len(),
{
    if s.len() == 0 {
        Seq::empty()
    } else {
        elements_var_uses(s.drop_last()) + match s.last() {
            FtlElement::Placeable { expression } => expr_var_uses(expression),
            FtlElement::Text => Seq::empty(),
        }
    }
}

/// What a reference records: name, byte span, positional count and the named
/// arguments with the byte spans of their names.
pub struct RefView {
    pub name: Seq<char>,
    pub start: usize,
    pub end: usize,
    pub positional: usize,
    pub named: Seq<(Seq<char>, usize, usize)>,
}

/// References found in an expression: to terms, to messages and to functions.
pub type Refs = (Seq<RefView>, Seq<RefView>, Seq<RefView>);

pub open spec fn no_refs() -> Refs {
    (Seq::empty(), Seq::empty(), Seq::empty())
}

pub open spec fn cat_refs(a: Refs, b: Refs) -> Refs {
    (a.0 + b.0, a.1 + b.1, a.2 + b.2)
}

/// Byte offset of the text at `addr` within a text of `len` bytes at `base`,
/// or 0 when it does not lie there.
pub open spec fn offset_in(base: usize, len: usize, addr: usize) -> usize {
    if addr >= base && addr - base <= len {
        (addr - base) as usize
    } else {
        0
    }
}

/// `a + b`, or the largest machine word when that does not fit.
pub open spec fn sat_add(a: usize, b: nat) -> usize {
    if a + b <= usize::MAX {
        (a + b) as usize
    } else {
        usize::MAX
    }
}

/// Number of bytes of a text, as `str::len` gives it.
pub open spec fn text_len(t: Seq<char>) -> usize {
    vstd::utf8::encode_utf8(t).len() as usize
}

/// The source being read: its address, its bytes.
pub struct Source {
    pub base: usize,
    pub bytes: Seq<u8>,
}

/// Byte offset of a name in the source.
pub open spec fn name_offset(src: Source, n: FtlName) -> usize {
    offset_in(src.base, src.bytes.len() as usize, n.addr)
}

/// The named arguments of a call with the spans of their names.
pub open spec fn named_views(src: Source, s: Seq<FtlNamedArg>) -> Seq<(Seq<char>, usize, usize)>
    decreases s.len(),
{
    if s.len() == 0 {
        Seq::empty()
    } else {
        let n = s.last().name;
        named_views(src, s.drop_last()).push((n.text@, name_offset(src, n), sat_add(name_offset(src, n), text_len(n.text@) as nat)))
    }
}

/// The reference to a term: its span starts at the `-` before the name when there is one.
pub open spec fn term_ref_view(src: Source, id: FtlName, arguments: Option<FtlCallArgs>) -> RefView {
    let raw = name_offset(src, id);
    let start = if raw > 0 && (raw - 1) < src.bytes.len() && src.bytes[raw - 1] == 45u8 {
        (raw - 1) as usize
    } else {
        raw
    };
    RefView {
        name: "-"@ + id.text@,
        start: start,
        end: sat_add(raw, text_len(id.text@) as nat),
        positional: match arguments {
            Some(a) => a.positional.len(),
            None => 0,
        },
        named: match arguments {
            Some(a) => named_views(src, a.named@),
            None => Seq::empty(),
        },
    }
}

/// The reference to a function.
pub open spec fn function_ref_view(src: Source, id: FtlName, a: FtlCallArgs) -> RefView {
    let start = name_offset(src, id);
    RefView {
        name: id.text@,
        start: start,
        end: sat_add(start, text_len(id.text@) as nat),
        positional: a.positional.len(),
        named: named_views(src, a.named@),
    }
}

/// The reference to a message.
pub open spec fn message_ref_view(src: Source, id: FtlName) -> RefView {
    let start = name_offset(src, id);
    RefView { name: id.text@, start: start, end: sat_add(start, text_len(id.text@) as nat), positional: 0, named: Seq::empty() }
}

/// References in an inline expression, in the order they are recorded: a
/// function before what its arguments reference, a term after.
pub open spec fn inline_refs(src: Source, e: FtlInline) -> Refs
    decreases e, 0nat,
{
    match e {
        FtlInline::TermReference { id, term_args } => cat_refs(
            match term_args {
                Some(a) => args_refs(src, a),
                None => no_refs(),
            },
            (seq![term_ref_view(src, id, term_args)], Seq::empty(), Seq::empty()),
        ),
        FtlInline::FunctionReference { id, arguments } => cat_refs(
            (Seq::empty(), Seq::empty(), seq![function_ref_view(src, id, arguments)]),
            args_refs(src, arguments),
        ),
        FtlInline::MessageReference { id } => (Seq::empty(), seq![message_ref_view(src, id)], Seq::empty()),
        FtlInline::Placeable { expression } => expr_refs(src, *expression),
        _ => no_refs(),
    }
}

pub open spec fn args_refs(src: Source, a: FtlCallArgs) -> Refs
    decreases a, 0nat,
{
    cat_refs(inlines_refs(src, a.positional@), named_refs(src, a.named@))
}

pub open spec fn inlines_refs(src: Source, s: Seq<FtlInline>) -> Refs
    decreases s, s.len(),
{
    if s.len() == 0 {
        no_refs()
    } else {
        cat_refs(inlines_refs(src, s.drop_last()), inline_refs(src, s.last()))
    }
}

pub open spec fn named_refs(src: Source, s: Seq<FtlNamedArg>) -> Refs
    decreases s, s.len(),
{
    if s.len() == 0 {
        no_refs()
    } else {
        cat_refs(named_refs(src, s.drop_last()), inline_refs(src, s.last().value))
    }
}

pub open spec fn expr_refs(src: Source, e: FtlExpression) -> Refs
    decreases e, 0nat,
{
    match e {
        FtlExpression::Inline { inline } => inline_refs(src, inline),
        FtlExpression::Select { selector, variants } => cat_refs(inline_refs(src, selector), patterns_refs(src, variants@)),
    }
}

pub open spec fn patterns_refs(src: Source, s: Seq<FtlPattern>) -> Refs
    decreases s, s.len(),
{
    if s.len() == 0 {
        no_refs()
    } else {
        cat_refs(patterns_refs(src, s.drop_last()), pattern_refs(src, s.last()))
    }
}

pub open spec fn pattern_refs(src: Source, p: FtlPattern) -> Refs
    decreases p, 0nat,
{
    elements_refs(src, p.elements@)
}

pub open spec fn elements_refs(src: Source, s: Seq<FtlElement>) -> Refs
    decreases s, s.len(),
{
    if s.len() == 0 {
        no_refs()
    } else {
        cat_refs(elements_refs(src, s.drop_last()), match s.last() {
            FtlElement::Placeable { expression } => expr_refs(src, expression),
            FtlElement::Text => no_refs(),
        })
    }
}

/// `vs` extended by each of `us` that it does not already hold.
pub open spec fn add_unique(vs: Seq<Seq<char>>, us: Seq<Seq<char>>) -> Seq<Seq<char>>
    decreases us.len(),
{
    if us.len() == 0 {
        vs
    } else {
        let p = add_unique(vs, us.drop_last());
        if p.contains(us.last()) {
            p
        } else {
            p.push(us.last())
        }
    }
}

/// Adding the uses of two lists is adding those of the first, then those of the second.
pub proof fn lemma_add_unique_concat(vs: Seq<Seq<char>>, a: Seq<Seq<char>>, b: Seq<Seq<char>>)
    ensures
        add_unique(vs, a + b) == add_unique(add_unique(vs, a), b),
    decreases b.len(),
{
    if b.len() == 0 {
        assert(a + b =~= a);
    } else {
        assert((a + b).drop_last() =~= a + b.drop_last());
        lemma_add_unique_concat(vs, a, b.drop_last());
    }
}

/// The variables of an entry: those of its value, then those of its
/// attributes, each once, in order of first use.
pub open spec fn entry_variables(value: Option<FtlPattern>, attributes: Seq<FtlPattern>) -> Seq<Seq<char>> {
    add_unique(
        add_unique(Seq::empty(), match value {
            Some(v) => pattern_var_uses(v),
            None => Seq::empty(),
        }),
        patterns_var_uses(attributes),
    )
}

/// The references of an entry: those of its value, then those of its attributes.
pub open spec fn entry_refs(src: Source, value: Option<FtlPattern>, attributes: Seq<FtlPattern>) -> Refs {
    cat_refs(
        match value {
            Some(v) => pattern_refs(src, v),
            None => no_refs(),
        },
        patterns_refs(src, attributes),
    )
}

/// The text of a file held at address `base`, as the references see it.
pub open spec fn file_source(content: Seq<char>, base: usize) -> Source {
    Source { base: base, bytes: vstd::utf8::encode_utf8(content) }
}

/// What an entry of a text says, with the places of its names taken within
/// that text: its kind (a message, a term, or anything else), its id, its
/// variables, and its references to terms, messages and functions with their
/// byte spans in the text, positional counts and named arguments.
pub struct EntryShape {
    pub kind: nat,
    pub id: Seq<char>,
    pub variables: Seq<Seq<char>>,
    pub refs: Refs,
}

/// The shape of an entry whose names point into the text `src`.
pub open spec fn entry_shape(e: FtlEntry, src: Source) -> EntryShape {
    match e {
        FtlEntry::Message { id, value, attributes } => EntryShape {
            kind: 0,
            id: id@,
            variables: entry_variables(value, attributes@),
            refs: entry_refs(src, value, attributes@),
        },
        FtlEntry::Term { id, value, attributes } => EntryShape {
            kind: 1,
            id: id@,
            variables: entry_variables(Some(value), attributes@),
            refs: entry_refs(src, Some(value), attributes@),
        },
        FtlEntry::Other => EntryShape { kind: 2, id: Seq::empty(), variables: Seq::empty(), refs: no_refs() },
    }
}

pub open spec fn entry_shapes(es: Seq<FtlEntry>, src: Source) -> Seq<EntryShape> {
    es.map_values(|e: FtlEntry| entry_shape(e, src))
}

/// An entry of a resource: a message (its id, value and the values of its
/// attributes), a term, or anything else (comments, junk).
#[allow(inconsistent_fields)]
pub enum FtlEntry {
    Message { id: String, value: Option<FtlPattern>, attributes: Vec<FtlPattern> },
    Term { id: String, value: FtlPattern, attributes: Vec<FtlPattern> },
    Other,
}

/// The kinds of syntax error of the Fluent parser.
pub enum FtlErrorKind {
    ExpectedToken { token: char },
    ExpectedCharRange { range: String },
    ExpectedMessageField { entry_id: String },
    ExpectedTermField { entry_id: String },
    ForbiddenCallee,
    MissingDefaultVariant,
    MissingValue,
    MultipleDefaultVariants,
    MessageReferenceAsSelector,
    TermReferenceAsSelector,
    MessageAttributeAsSelector,
    TermAttributeAsPlaceable,
    UnterminatedStringLiteral,
    PositionalArgumentFollowsNamed,
    DuplicatedNamedArgument { name: String },
    UnknownEscapeSequence { seq: String },
    InvalidUnicodeEscapeSequence { seq: String },
    UnbalancedClosingBrace,
    ExpectedInlineExpression,
    ExpectedSimpleExpressionAsSelector,
    ExpectedLiteral,
}

/// A syntax error: the byte range where it was found and its kind.
pub struct FtlError {
    pub start: usize,
    pub end: usize,
    pub kind: FtlErrorKind,
}

/// A parsed resource: its entries (with junk where the text did not parse)
/// and the syntax errors, none when the whole text parsed.
pub struct FtlParse {
    pub entries: Vec<FtlEntry>,
    pub errors: Vec<FtlError>,
}

/// The type `fluent_syntax::ast::Identifier`, read only by the conversions below.
#[verifier::external_type_specification]
#[verifier::external_body]
#[verifier::reject_recursive_types(S)]
pub struct ExIdentifier<S>(Identifier<S>);

/// The type `fluent_syntax::ast::InlineExpression`, read only by the conversions below.
#[verifier::external_type_specification]
#[verifier::external_body]
#[verifier::reject_recursive_types(S)]
pub struct ExInlineExpression<S>(InlineExpression<S>);

/// The type `fluent_syntax::ast::CallArguments`, read only by the conversions below.
#[verifier::external_type_specification]
#[verifier::external_body]
#[verifier::reject_recursive_types(S)]
pub struct ExCallArguments<S>(CallArguments<S>);

/// The type `fluent_syntax::ast::Expression`, read only by the conversions below.
#[verifier::external_type_specification]
#[verifier::external_body]
#[verifier::reject_recursive_types(S)]
pub struct ExExpression<S>(Expression<S>);

/// The type `fluent_syntax::ast::Pattern`, read only by the conversions below.
#[verifier::external_type_specification]
#[verifier::external_body]
#[verifier::reject_recursive_types(S)]
pub struct ExPattern<S>(Pattern<S>);

/// The type `fluent_syntax::ast::Entry`, read only by the conversions below.
#[verifier::external_type_specification]
#[verifier::external_body]
#[verifier::reject_recursive_types(S)]
pub struct ExEntry<S>(Entry<S>);

/// The type `fluent_syntax::parser::ParserError`, read only by the conversions below.
#[verifier::external_type_specification]
#[verifier::external_body]
pub struct ExParserError(ParserError);

/// The type `fluent_syntax::parser::ErrorKind`, read only by the conversions below.
#[verifier::external_type_specification]
#[verifier::external_body]
pub struct ExErrorKind(ErrorKind);

/// Converts an identifier of the parsed source: its text and the address of that text.
#[verifier::external_body]
fn convert_name(id: &Identifier<&str>) -> FtlName {
    FtlName { text: id.name.to_string(), addr: id.name.as_ptr() as usize }
}

/// Converts call arguments, one for one.
#[verifier::external_body]
fn convert_args(a: &CallArguments<&str>) -> FtlCallArgs {
    FtlCallArgs {
        positional: a.positional.iter().map(|p| convert_inline(p)).collect(),
        named: a.named.iter().map(|n| FtlNamedArg { name: convert_name(&n.name), value: convert_inline(&n.value) }).collect(),
    }
}

/// Converts an inline expression, one variant for one.
#[verifier::external_body]
fn convert_inline(e: &InlineExpression<&str>) -> FtlInline {
    match e {
        InlineExpression::StringLiteral { .. } => FtlInline::StringLiteral,
        InlineExpression::NumberLiteral { .. } => FtlInline::NumberLiteral,
        InlineExpression::FunctionReference { id, arguments } => FtlInline::FunctionReference { id: convert_name(id), arguments: convert_args(arguments) },
        InlineExpression::MessageReference { id, .. } => FtlInline::MessageReference { id: convert_name(id) },
        InlineExpression::TermReference { id, arguments, .. } => FtlInline::TermReference { id: convert_name(id), term_args: arguments.as_ref().map(|a| convert_args(a)) },
        InlineExpression::VariableReference { id } => FtlInline::VariableReference { id: convert_name(id) },
        InlineExpression::Placeable { expression } => FtlInline::Placeable { expression: Box::new(convert_expression(expression)) },
    }
}

/// Converts an expression; of a select expression the patterns of its variants are kept.
#[verifier::external_body]
fn convert_expression(e: &Expression<&str>) -> FtlExpression {
    match e {
        Expression::Inline(i) => FtlExpression::Inline { inline: convert_inline(i) },
        Expression::Select { selector, variants } => FtlExpression::Select {
            selector: convert_inline(selector),
            variants: variants.iter().map(|v| convert_pattern(&v.value)).collect(),
        },
    }
}

/// Converts a pattern, element for element.
#[verifier::external_body]
fn convert_pattern(p: &Pattern<&str>) -> FtlPattern {
    FtlPattern {
        elements: p.elements.iter().map(|e| match e {
            PatternElement::TextElement { .. } => FtlElement::Text,
            PatternElement::Placeable { expression } => FtlElement::Placeable { expression: convert_expression(expression) },
        }).collect(),
    }
}

/// Converts an entry; a message or a term keeps its id and the patterns of its value and attributes.
#[verifier::external_body]
fn convert_entry(e: &Entry<&str>) -> FtlEntry {
    match e {
        Entry::Message(m) => FtlEntry::Message {
            id: m.id.name.to_string(),
            value: m.value.as_ref().map(|v| convert_pattern(v)),
            attributes: m.attributes.iter().map(|a| convert_pattern(&a.value)).collect(),
        },
        Entry::Term(t) => FtlEntry::Term {
            id: t.id.name.to_string(),
            value: convert_pattern(&t.value),
            attributes: t.attributes.iter().map(|a| convert_pattern(&a.value)).collect(),
        },
        _ => FtlEntry::Other,
    }
}

/// Converts the first kinds of syntax error, one variant for one.
#[verifier::external_body]
fn convert_kind(k: &ErrorKind) -> FtlErrorKind {
    match k {
        ErrorKind::ExpectedToken(c) => FtlErrorKind::ExpectedToken { token: *c },
        ErrorKind::ExpectedCharRange { range } => FtlErrorKind::ExpectedCharRange { range: range.clone() },
        ErrorKind::ExpectedMessageField { entry_id } => FtlErrorKind::ExpectedMessageField { entry_id: entry_id.clone() },
        ErrorKind::ExpectedTermField { entry_id } => FtlErrorKind::ExpectedTermField { entry_id: entry_id.clone() },
        ErrorKind::ForbiddenCallee => FtlErrorKind::ForbiddenCallee,
        ErrorKind::MissingDefaultVariant => FtlErrorKind::MissingDefaultVariant,
        ErrorKind::MissingValue => FtlErrorKind::MissingValue,
        ErrorKind::MultipleDefaultVariants => FtlErrorKind::MultipleDefaultVariants,
        ErrorKind::MessageReferenceAsSelector => FtlErrorKind::MessageReferenceAsSelector,
        ErrorKind::TermReferenceAsSelector => FtlErrorKind::TermReferenceAsSelector,
        ErrorKind::MessageAttributeAsSelector => FtlErrorKind::MessageAttributeAsSelector,
        _ => convert_kind_rest(k),
    }
}

/// Converts the remaining kinds of syntax error, one variant for one.
#[verifier::external_body]
fn convert_kind_rest(k: &ErrorKind) -> FtlErrorKind {
    match k {
        ErrorKind::TermAttributeAsPlaceable => FtlErrorKind::TermAttributeAsPlaceable,
        ErrorKind::UnterminatedStringLiteral => FtlErrorKind::UnterminatedStringLiteral,
        ErrorKind::PositionalArgumentFollowsNamed => FtlErrorKind::PositionalArgumentFollowsNamed,
        ErrorKind::DuplicatedNamedArgument(n) => FtlErrorKind::DuplicatedNamedArgument { name: n.clone() },
        ErrorKind::UnknownEscapeSequence(s) => FtlErrorKind::UnknownEscapeSequence { seq: s.clone() },
        ErrorKind::InvalidUnicodeEscapeSequence(s) => FtlErrorKind::InvalidUnicodeEscapeSequence { seq: s.clone() },
        ErrorKind::UnbalancedClosingBrace => FtlErrorKind::UnbalancedClosingBrace,
        ErrorKind::ExpectedInlineExpression => FtlErrorKind::ExpectedInlineExpression,
        ErrorKind::ExpectedSimpleExpressionAsSelector => FtlErrorKind::ExpectedSimpleExpressionAsSelector,
        _ => FtlErrorKind::ExpectedLiteral,
    }
}

/// Converts a syntax error: its byte range and kind.
#[verifier::external_body]
fn convert_error(e: &ParserError) -> FtlError {
    FtlError { start: e.pos.start, end: e.pos.end, kind: convert_kind(&e.kind) }
}

/// The syntax errors that `fluent_syntax::parser::parse` reports for a source text.
pub uninterp spec fn fluent_parse_errors(source: Seq<char>) -> Seq<FtlError>;

/// The entries that `fluent_syntax::parser::parse` reads from a source text,
/// the places of their names taken within that text.
pub uninterp spec fn fluent_entry_shapes(source: Seq<char>) -> Seq<EntryShape>;

/// Parses a Fluent source text with `fluent_syntax::parser::parse` and converts
/// the resource and the errors; gives also the address of the text, into
/// which the parser's names point. The errors are those the parser reports
/// for the text (named by `fluent_parse_errors`), and so are the entries with
/// the places of their names taken relative to that address (named by
/// `fluent_entry_shapes`).
#[verifier::external_body]
pub(crate) fn parse_ftl(source: &str) -> (r: (FtlParse, usize))
    ensures
        r.0.errors@ == fluent_parse_errors(source@),
        entry_shapes(r.0.entries@, file_source(source@, r.1)) == fluent_entry_shapes(source@),
{
    let (resource, errors) = match fluent_syntax::parser::parse(source) {
        Ok(res) => (res, Vec::new()),
        Err((res, errs)) => (res, errs),
    };
    let parsed = FtlParse {
        entries: resource.body.iter().map(|e| convert_entry(e)).collect(),
        errors: errors.iter().map(|e| convert_error(e)).collect(),
    };
    (parsed, source.as_ptr() as usize)
}

/// The address of a string's text in memory (`str::as_ptr`).
#[verifier::external_body]
pub(crate) fn str_address(s: &str) -> usize {
    s.as_ptr() as usize
}

/// Variable `x` occurs in the inline expression: it is the variable itself,
/// or occurs in an argument of a call, or in a nested placeable.
pub open spec fn inline_mentions(e: FtlInline, x: Seq<char>) -> bool
    decreases e, 0nat,
{
    match e {
        FtlInline::VariableReference { id } => id.text@ == x,
        FtlInline::FunctionReference { id, arguments } => args_mention(arguments, x),
        FtlInline::TermReference { id, term_args } => match term_args {
            Some(a) => args_mention(a, x),
            None => false,
        },
        FtlInline::Placeable { expression } => expr_mentions(*expression, x),
        _ => false,
    }
}

/// Variable `x` occurs in some positional or named argument.
pub open spec fn args_mention(a: FtlCallArgs, x: Seq<char>) -> bool
    decreases a, 0nat,
{
    ||| inlines_mention(a.positional@, x)
    ||| nameds_mention(a.named@, x)
}

pub open spec fn inlines_mention(s: Seq<FtlInline>, x: Seq<char>) -> bool
    decreases s, s.len(),
{
    exists|i: int| 0 <= i < s.len() && inline_mentions(#[trigger] s[i], x)
}

pub open spec fn nameds_mention(s: Seq<FtlNamedArg>, x: Seq<char>) -> bool
    decreases s, s.len(),
{
    exists|i: int| 0 <= i < s.len() && inline_mentions(#[trigger] s[i].value, x)
}

/// Variable `x` occurs in the expression: in the selector or in the pattern
/// of any variant of a select expression.
pub open spec fn expr_mentions(e: FtlExpression, x: Seq<char>) -> bool
    decreases e, 0nat,
{
    match e {
        FtlExpression::Inline { inline } => inline_mentions(inline, x),
        FtlExpression::Select { selector, variants } => inline_mentions(selector, x) || patterns_mention(variants@, x),
    }
}

pub open spec fn patterns_mention(s: Seq<FtlPattern>, x: Seq<char>) -> bool
    decreases s, s.len(),
{
    exists|i: int| 0 <= i < s.len() && pattern_mentions(#[trigger] s[i], x)
}

/// Variable `x` occurs in some placeable of the pattern.
pub open spec fn pattern_mentions(p: FtlPattern, x: Seq<char>) -> bool
    decreases p, 0nat,
{
    elements_mention(p.elements@, x)
}

pub open spec fn elements_mention(s: Seq<FtlElement>, x: Seq<char>) -> bool
    decreases s, s.len(),
{
    exists|i: int| 0 <= i < s.len() && match #[trigger] s[i] {
        FtlElement::Placeable { expression } => expr_mentions(expression, x),
        FtlElement::Text => false,
    }
}

/// Variable `x` occurs anywhere in the value or the attributes of the entry.
pub open spec fn entry_mentions(e: FtlEntry, x: Seq<char>) -> bool {
    match e {
        FtlEntry::Message { id, value, attributes } =>
            (value is Some && pattern_mentions(value->Some_0, x)) || patterns_mention(attributes@, x),
        FtlEntry::Term { id, value, attributes } => pattern_mentions(value, x) || patterns_mention(attributes@, x),
        FtlEntry::Other => false,
    }
}

proof fn lemma_concat_contains(a: Seq<Seq<char>>, b: Seq<Seq<char>>, x: Seq<char>)
    ensures
        (a + b).contains(x) <==> (a.contains(x) || b.contains(x)),
{
    if (a + b).contains(x) {
        let k = choose|k: int| 0 <= k < (a + b).len() && (a + b)[k] == x;
        if k < a.len() {
            assert(a[k] == x);
        } else {
            assert(b[k - a.len()] == x);
        }
    }
    if a.contains(x) {
        let k = choose|k: int| 0 <= k < a.len() && a[k] == x;
        assert((a + b)[k] == x);
    }
    if b.contains(x) {
        let k = choose|k: int| 0 <= k < b.len() && b[k] == x;
        assert((a + b)[k + a.len()] == x);
    }
}

proof fn lemma_add_unique_contains(vs: Seq<Seq<char>>, us: Seq<Seq<char>>, x: Seq<char>)
    ensures
        add_unique(vs, us).contains(x) <==> (vs.contains(x) || us.contains(x)),
        vs.no_duplicates() ==> add_unique(vs, us).no_duplicates(),
    decreases us.len(),
{
    if us.len() > 0 {
        lemma_add_unique_contains(vs, us.drop_last(), x);
        lemma_add_unique_contains(vs, us.drop_last(), us.last());
        let p = add_unique(vs, us.drop_last());
        assert(us =~= us.drop_last().push(us.last()));
        if us.contains(x) {
            let k = choose|k: int| 0 <= k < us.len() && us[k] == x;
            if k < us.len() - 1 {
                assert(us.drop_last()[k] == x);
            }
        }
        if us.drop_last().contains(x) {
            let k = choose|k: int| 0 <= k < us.drop_last().len() && us.drop_last()[k] == x;
            assert(us[k] == x);
        }
        if !p.contains(us.last()) {
            assert(p.push(us.last())[p.len() as int] == us.last());
            if p.contains(x) {
                let k = choose|k: int| 0 <= k < p.len() && p[k] == x;
                assert(p.push(us.last())[k] == x);
            }
            if p.push(us.last()).contains(x) {
                let k = choose|k: int| 0 <= k < p.len() + 1 && p.push(us.last())[k] == x;
                if k < p.len() {
                    assert(p[k] == x);
                }
            }
            if vs.no_duplicates() {
                assert forall|a: int, b: int| 0 <= a < p.len() + 1 && 0 <= b < p.len() + 1 && a != b
                    implies p.push(us.last())[a] != p.push(us.last())[b] by {
                    if a == p.len() {
                        assert(p[b] == p.push(us.last())[b]);
                    } else if b == p.len() {
                        assert(p[a] == p.push(us.last())[a]);
                    }
                }
            }
        }
    }
}

proof fn lemma_inline_uses(e: FtlInline, x: Seq<char>)
    ensures
        inline_var_uses(e).contains(x) == inline_mentions(e, x),
    decreases e, 0nat,
{
    match e {
        FtlInline::VariableReference { id } => {
            assert(seq![id.text@][0] == id.text@);
        },
        FtlInline::FunctionReference { id, arguments } => {
            lemma_args_uses(arguments, x);
        },
        FtlInline::TermReference { id, term_args } => {
            match term_args {
                Some(a) => {
                    lemma_args_uses(a, x);
                },
                None => {},
            }
        },
        FtlInline::Placeable { expression } => {
            lemma_expr_uses(*expression, x);
        },
        _ => {},
    }
}

proof fn lemma_args_uses(a: FtlCallArgs, x: Seq<char>)
    ensures
        args_var_uses(a).contains(x) == args_mention(a, x),
    decreases a, 0nat,
{
    lemma_inlines_uses(a.positional@, x);
    lemma_named_uses(a.named@, x);
    lemma_concat_contains(inlines_var_uses(a.positional@), named_var_uses(a.named@), x);
}

proof fn lemma_inlines_uses(s: Seq<FtlInline>, x: Seq<char>)
    ensures
        inlines_var_uses(s).contains(x) == inlines_mention(s, x),
    decreases s, s.len(),
{
    if s.len() > 0 {
        let d = s.drop_last();
        lemma_inlines_uses(d, x);
        lemma_inline_uses(s.last(), x);
        lemma_concat_contains(inlines_var_uses(d), inline_var_uses(s.last()), x);
        if inlines_mention(d, x) {
            let i = choose|i: int| 0 <= i < d.len() && inline_mentions(#[trigger] d[i], x);
            assert(s[i] == d[i]);
        }
        if inline_mentions(s.last(), x) {
            assert(inline_mentions(s[s.len() - 1], x));
        }
        if inlines_mention(s, x) {
            let i = choose|i: int| 0 <= i < s.len() && inline_mentions(#[trigger] s[i], x);
            if i < s.len() - 1 {
                assert(d[i] == s[i]);
            }
        }
    }
}

proof fn lemma_named_uses(s: Seq<FtlNamedArg>, x: Seq<char>)
    ensures
        named_var_uses(s).contains(x) == nameds_mention(s, x),
    decreases s, s.len(),
{
    if s.len() > 0 {
        let d = s.drop_last();
        lemma_named_uses(d, x);
        lemma_inline_uses(s.last().value, x);
        lemma_concat_contains(named_var_uses(d), inline_var_uses(s.last().value), x);
        if nameds_mention(d, x) {
            let i = choose|i: int| 0 <= i < d.len() && inline_mentions(#[trigger] d[i].value, x);
            assert(s[i] == d[i]);
        }
        if inline_mentions(s.last().value, x) {
            assert(inline_mentions(s[s.len() - 1].value, x));
        }
        if nameds_mention(s, x) {
            let i = choose|i: int| 0 <= i < s.len() && inline_mentions(#[trigger] s[i].value, x);
            if i < s.len() - 1 {
                assert(d[i] == s[i]);
            }
        }
    }
}

proof fn lemma_expr_uses(e: FtlExpression, x: Seq<char>)
    ensures
        expr_var_uses(e).contains(x) == expr_mentions(e, x),
    decreases e, 0nat,
{
    match e {
        FtlExpression::Inline { inline } => {
            lemma_inline_uses(inline, x);
        },
        FtlExpression::Select { selector, variants } => {
            lemma_inline_uses(selector, x);
            lemma_patterns_uses(variants@, x);
            lemma_concat_contains(inline_var_uses(selector), patterns_var_uses(variants@), x);
        },
    }
}

proof fn lemma_patterns_uses(s: Seq<FtlPattern>, x: Seq<char>)
    ensures
        patterns_var_uses(s).contains(x) == patterns_mention(s, x),
    decreases s, s.len(),
{
    if s.len() > 0 {
        let d = s.drop_last();
        lemma_patterns_uses(d, x);
        lemma_pattern_uses(s.last(), x);
        lemma_concat_contains(patterns_var_uses(d), pattern_var_uses(s.last()), x);
        if patterns_mention(d, x) {
            let i = choose|i: int| 0 <= i < d.len() && pattern_mentions(#[trigger] d[i], x);
            assert(s[i] == d[i]);
        }
        if pattern_mentions(s.last(), x) {
            assert(pattern_mentions(s[s.len() - 1], x));
        }
        if patterns_mention(s, x) {
            let i = choose|i: int| 0 <= i < s.len() && pattern_mentions(#[trigger] s[i], x);
            if i < s.len() - 1 {
                assert(d[i] == s[i]);
            }
        }
    }
}

proof fn lemma_pattern_uses(p: FtlPattern, x: Seq<char>)
    ensures
        pattern_var_uses(p).contains(x) == pattern_mentions(p, x),
    decreases p, 0nat,
{
    lemma_elements_uses(p.elements@, x);
}

proof fn lemma_elements_uses(s: Seq<FtlElement>, x: Seq<char>)
    ensures
        elements_var_uses(s).contains(x) == elements_mention(s, x),
    decreases s, s.len(),
{
    if s.len() > 0 {
        let d = s.drop_last();
        lemma_elements_uses(d, x);
        let tail = match s.last() {
            FtlElement::Placeable { expression } => expr_var_uses(expression),
            FtlElement::Text => Seq::empty(),
        };
        match s.last() {
            FtlElement::Placeable { expression } => {
                lemma_expr_uses(expression, x);
            },
            FtlElement::Text => {},
        }
        lemma_concat_contains(elements_var_uses(d), tail, x);
        if elements_mention(d, x) {
            let i = choose|i: int| 0 <= i < d.len() && match #[trigger] d[i] {
                FtlElement::Placeable { expression } => expr_mentions(expression, x),
                FtlElement::Text => false,
            };
            assert(s[i] == d[i]);
        }
        assert(s[s.len() - 1] == s.last());
        if elements_mention(s, x) {
            let i = choose|i: int| 0 <= i < s.len() && match #[trigger] s[i] {
                FtlElement::Placeable { expression } => expr_mentions(expression, x),
                FtlElement::Text => false,
            };
            if i < s.len() - 1 {
                assert(d[i] == s[i]);
            }
        }
    }
}

/// The variables of an entry, which become the parameters of its generated
/// function, are exactly the variables that occur anywhere in its value or
/// attributes (in the selector or any variant of a select expression, in the
/// arguments of calls, in nested placeables), each listed once.
pub proof fn law_entry_variables_are_those_used(e: FtlEntry, src: Source, x: Seq<char>)
    ensures
        entry_shape(e, src).variables.contains(x) <==> entry_mentions(e, x),
        entry_shape(e, src).variables.no_duplicates(),
{
    match e {
        FtlEntry::Message { id, value, attributes } => {
            let vu = match value {
                Some(v) => pattern_var_uses(v),
                None => Seq::empty(),
            };
            match value {
                Some(v) => {
                    lemma_pattern_uses(v, x);
                },
                None => {},
            }
            lemma_add_unique_contains(Seq::empty(), vu, x);
            lemma_add_unique_contains(add_unique(Seq::empty(), vu), patterns_var_uses(attributes@), x);
            lemma_patterns_uses(attributes@, x);
        },
        FtlEntry::Term { id, value, attributes } => {
            lemma_pattern_uses(value, x);
            lemma_add_unique_contains(Seq::empty(), pattern_var_uses(value), x);
            lemma_add_unique_contains(add_unique(Seq::empty(), pattern_var_uses(value)), patterns_var_uses(attributes@), x);
            lemma_patterns_uses(attributes@, x);
        },
        FtlEntry::Other => {},
    }
}

} // verus!
