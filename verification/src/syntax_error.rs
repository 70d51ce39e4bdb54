//! Messages and source snippets for Fluent syntax errors.

use vstd::prelude::*;
use crate::text::{
    arrow_line, bar_line, blank_prefix, byte_len, chars_of, decimal, has_char, line_at,
    nth_line, push_arrow_line, push_bar_line, push_blank_prefix, push_char, push_chars,
    push_padded_number, push_repeat, push_source_line, decimal_string, decimal_width, pad_left,
    repeat, source_line, text_eq, trim_end, utf8_width,
};
use crate::ast_util::{chars_before, line_col};
use crate::scan::{
    all_whitespace, all_ws, find_arrow, find_char, find_unmatched_open, first_arrow,
    first_index_of, last_arrow, last_index_of, line_col_of, name_suffix, rfind_arrow, rfind_char,
    sub_chars, trailing_name, trim_end_chars, unmatched_open, byte_count, lemma_byte_len_take_mono,
    lemma_byte_len_split, lemma_byte_len_bounds, lemma_trim_end_prefix, lemma_last_index_of,
};
use crate::fluent_model::{FtlError, FtlErrorKind};

verus! {

/// The lower-case hexadecimal digit for `d < 16`.
pub open spec fn hex_digit(d: nat) -> char {
    if d < 10 {
        ((d + 48) as u32) as char
    } else {
        ((d + 87) as u32) as char
    }
}

/// The shortest lower-case hexadecimal notation of `n`.
pub open spec fn hex(n: nat) -> Seq<char>
    decreases n,
{
    if n < 16 {
        seq![hex_digit(n)]
    } else {
        hex(n / 16).push(hex_digit(n % 16))
    }
}

/// What `char::escape_default` gives for `c`: tab, carriage return, line feed,
/// quotes and backslash escaped by a backslash, printable ASCII as it is,
/// anything else as `\u{..}` with the shortest lower-case hex code.
pub open spec fn escape_char(c: char) -> Seq<char> {
    if c == '\t' {
        "\\t"@
    } else if c == '\r' {
        "\\r"@
    } else if c == '\n' {
        "\\n"@
    } else if c == '\'' {
        "\\'"@
    } else if c == '"' {
        "\\\""@
    } else if c == '\\' {
        "\\\\"@
    } else if 0x20 <= (c as u32) && (c as u32) <= 0x7e {
        seq![c]
    } else {
        "\\u{"@ + hex(c as u32 as nat) + "}"@
    }
}

/// Every character of `s` escaped, in order.
pub open spec fn escape_text(s: Seq<char>) -> Seq<char>
    decreases s.len(),
{
    if s.len() == 0 {
        Seq::<char>::empty()
    } else {
        escape_text(s.drop_last()) + escape_char(s.last())
    }
}

fn hex_string(n: u32) -> (s: String)
    ensures
        s@ == hex(n as nat),
    decreases n,
{
    let d: u32 = n % 16;
    let c: char = if d < 10 { ((48 + d) as u8) as char } else { ((87 + d) as u8) as char };
    assert(c == hex_digit(d as nat));
    if n < 16 {
        let mut s = String::new();
        push_char(&mut s, c);
        assert(s@ =~= hex(n as nat));
        s
    } else {
        let mut s = hex_string(n / 16);
        push_char(&mut s, c);
        s
    }
}

/// Appends the escape of `c`.
fn push_escaped(s: &mut String, c: char)
    ensures
        final(s)@ == old(s)@ + escape_char(c),
{
    let ghost start = s@;
    let u = c as u32;
    if c == '\t' {
        s.append("\\t");
    } else if c == '\r' {
        s.append("\\r");
    } else if c == '\n' {
        s.append("\\n");
    } else if c == '\'' {
        s.append("\\'");
    } else if c == '"' {
        s.append("\\\"");
    } else if c == '\\' {
        s.append("\\\\");
    } else if 0x20 <= u && u <= 0x7e {
        push_char(s, c);
    } else {
        s.append("\\u{");
        let h = hex_string(u);
        s.append(h.as_str());
        s.append("}");
    }
    assert(s@ =~= start + escape_char(c));
}

/// Appends the escape of every character of `v`.
fn push_escaped_text(s: &mut String, v: &Vec<char>)
    ensures
        final(s)@ == old(s)@ + escape_text(v@),
{
    let ghost start = s@;
    let mut i: usize = 0;
    while i < v.len()
        invariant
            i <= v.len(),
            s@ == start + escape_text(v@.take(i as int)),
        decreases v.len() - i,
    {
        assert(v@.take(i as int + 1).drop_last() =~= v@.take(i as int));
        push_escaped(s, v[i]);
        i = i + 1;
        assert(s@ =~= start + escape_text(v@.take(i as int)));
    }
    assert(v@.take(v.len() as int) =~= v@);
}

/// The message for a character outside the expected range, given the text
/// before the error.
pub open spec fn range_message(range: Seq<char>, before: Seq<char>) -> Seq<char> {
    let pre = trim_end(before);
    if range.contains('\n') || range.contains('\r') {
        "Expected line break"@
    } else if pre.len() > 0 && pre.last() == '$' {
        "Expected a variable name"@
    } else if pre.len() > 0 && pre.last() == '-' {
        "Expected a term name"@
    } else if range == "a-zA-Z"@ {
        "Expected an identifier"@
    } else if range == "0-9"@ {
        "Expected a digit (0-9)"@
    } else if range == "a-zA-Z0-9_-"@ {
        "Expected an identifier (letters, numbers, _, -)"@
    } else if range == "0-9a-fA-F"@ {
        "Expected a hex digit (0-9, a-f, A-F)"@
    } else {
        "Expected character in range '"@ + escape_text(range) + "'"@
    }
}

/// The message for a closing brace that closes nothing, given the text before
/// it: an unclosed `{` with an arrow after it means a select expression whose
/// closing brace stands on the line of a variant.
pub open spec fn unbalanced_brace_message(before: Seq<char>) -> Seq<char> {
    let i = unmatched_open(before, '{', '}', 0);
    if i >= 0 && first_arrow(before.skip(i)) >= 0 {
        "Closing '}' for select expression must be on a new line"@
    } else {
        "Unexpected closing '}', no matching '{' was opened"@
    }
}

/// The readable message for a syntax error of kind `kind`, where `before` is
/// the source text up to the error.
pub open spec fn friendly_message(kind: FtlErrorKind, before: Seq<char>) -> Seq<char> {
    match kind {
        FtlErrorKind::ExpectedToken { token } => if token == '"' {
            "Expected closing quote '\"'"@
        } else if token == '=' {
            "Expected = after identifier"@
        } else if token == ':' {
            "Expected : after argument name"@
        } else {
            "Expected "@.push(token)
        },
        FtlErrorKind::ExpectedCharRange { range } => range_message(range@, before),
        FtlErrorKind::ExpectedMessageField { entry_id } => "Expected a message field for '"@ + entry_id@ + "'"@,
        FtlErrorKind::ExpectedTermField { entry_id } => "Expected a term field for '"@ + entry_id@ + "'"@,
        FtlErrorKind::ForbiddenCallee => "Functions cannot be called here"@,
        FtlErrorKind::MissingDefaultVariant => "Select expression must have a default variant marked with '*' (e.g. *[other])"@,
        FtlErrorKind::MissingValue => "Expected a value or attribute after '='"@,
        FtlErrorKind::MultipleDefaultVariants => "Select expression can only have one default variant ('*')"@,
        FtlErrorKind::MessageReferenceAsSelector => "Message references cannot be used as select selectors"@,
        FtlErrorKind::TermReferenceAsSelector => "Term references cannot be used as select selectors"@,
        FtlErrorKind::MessageAttributeAsSelector => "Message attributes cannot be used as select selectors"@,
        FtlErrorKind::TermAttributeAsPlaceable => "Term attributes cannot be used as placeables"@,
        FtlErrorKind::UnterminatedStringLiteral => "Unterminated string literal, missing closing quote '\"'"@,
        FtlErrorKind::PositionalArgumentFollowsNamed => "Positional arguments must come before named arguments"@,
        FtlErrorKind::DuplicatedNamedArgument { name } => "Argument '"@ + name@ + "' is specified more than once"@,
        FtlErrorKind::UnknownEscapeSequence { seq } => "Unknown escape sequence '\\"@ + seq@ + "'"@,
        FtlErrorKind::InvalidUnicodeEscapeSequence { seq } => "Invalid Unicode escape sequence '\\"@ + seq@ + "'"@,
        FtlErrorKind::UnbalancedClosingBrace => unbalanced_brace_message(before),
        FtlErrorKind::ExpectedInlineExpression => "Expected an expression (such as a variable $name or literal)"@,
        FtlErrorKind::ExpectedSimpleExpressionAsSelector => "Expected a variable or function call as select selector"@,
        FtlErrorKind::ExpectedLiteral => "Expected a string or number literal"@,
    }
}

fn range_message_text(range: &String, before: &Vec<char>) -> (r: String)
    ensures
        r@ == range_message(range@, before@),
{
    let pre = trim_end_chars(before);
    let rv = chars_of(range.as_str());
    let mut s = String::new();
    if has_char(&rv, '\n') || has_char(&rv, '\r') {
        s.append("Expected line break");
    } else if pre.len() > 0 && pre[pre.len() - 1] == '$' {
        s.append("Expected a variable name");
    } else if pre.len() > 0 && pre[pre.len() - 1] == '-' {
        s.append("Expected a term name");
    } else if text_eq(range.as_str(), "a-zA-Z") {
        s.append("Expected an identifier");
    } else if text_eq(range.as_str(), "0-9") {
        s.append("Expected a digit (0-9)");
    } else if text_eq(range.as_str(), "a-zA-Z0-9_-") {
        s.append("Expected an identifier (letters, numbers, _, -)");
    } else if text_eq(range.as_str(), "0-9a-fA-F") {
        s.append("Expected a hex digit (0-9, a-f, A-F)");
    } else {
        s.append("Expected character in range '");
        push_escaped_text(&mut s, &rv);
        s.append("'");
    }
    s
}

fn unbalanced_brace_text(before: &Vec<char>) -> (r: String)
    ensures
        r@ == unbalanced_brace_message(before@),
{
    let mut s = String::new();
    match find_unmatched_open(before, '{', '}') {
        Some(i) => {
            let between = sub_chars(before, i, before.len());
            assert(between@ =~= before@.skip(i as int));
            match find_arrow(&between) {
                Some(_) => {
                    s.append("Closing '}' for select expression must be on a new line");
                },
                None => {
                    s.append("Unexpected closing '}', no matching '{' was opened");
                },
            }
        },
        None => {
            s.append("Unexpected closing '}', no matching '{' was opened");
        },
    }
    s
}

/// The readable message for a syntax error of kind `kind` found after the
/// text `before`.
pub fn friendly_message_after(kind: &FtlErrorKind, before: &Vec<char>) -> (r: String)
    ensures
        r@ == friendly_message(*kind, before@),
{
    let mut s = String::new();
    match kind {
        FtlErrorKind::ExpectedToken { token } => {
            let t = *token;
            if t == '"' {
                s.append("Expected closing quote '\"'");
            } else if t == '=' {
                s.append("Expected = after identifier");
            } else if t == ':' {
                s.append("Expected : after argument name");
            } else {
                s.append("Expected ");
                push_char(&mut s, t);
            }
        },
        FtlErrorKind::ExpectedCharRange { range } => {
            s = range_message_text(range, before);
        },
        FtlErrorKind::ExpectedMessageField { entry_id } => {
            s.append("Expected a message field for '");
            s.append(entry_id.as_str());
            s.append("'");
        },
        FtlErrorKind::ExpectedTermField { entry_id } => {
            s.append("Expected a term field for '");
            s.append(entry_id.as_str());
            s.append("'");
        },
        FtlErrorKind::ForbiddenCallee => {
            s.append("Functions cannot be called here");
        },
        FtlErrorKind::MissingDefaultVariant => {
            s.append("Select expression must have a default variant marked with '*' (e.g. *[other])");
        },
        FtlErrorKind::MissingValue => {
            s.append("Expected a value or attribute after '='");
        },
        FtlErrorKind::MultipleDefaultVariants => {
            s.append("Select expression can only have one default variant ('*')");
        },
        FtlErrorKind::MessageReferenceAsSelector => {
            s.append("Message references cannot be used as select selectors");
        },
        FtlErrorKind::TermReferenceAsSelector => {
            s.append("Term references cannot be used as select selectors");
        },
        FtlErrorKind::MessageAttributeAsSelector => {
            s.append("Message attributes cannot be used as select selectors");
        },
        FtlErrorKind::TermAttributeAsPlaceable => {
            s.append("Term attributes cannot be used as placeables");
        },
        FtlErrorKind::UnterminatedStringLiteral => {
            s.append("Unterminated string literal, missing closing quote '\"'");
        },
        FtlErrorKind::PositionalArgumentFollowsNamed => {
            s.append("Positional arguments must come before named arguments");
        },
        FtlErrorKind::DuplicatedNamedArgument { name } => {
            s.append("Argument '");
            s.append(name.as_str());
            s.append("' is specified more than once");
        },
        FtlErrorKind::UnknownEscapeSequence { seq } => {
            s.append("Unknown escape sequence '\\");
            s.append(seq.as_str());
            s.append("'");
        },
        FtlErrorKind::InvalidUnicodeEscapeSequence { seq } => {
            s.append("Invalid Unicode escape sequence '\\");
            s.append(seq.as_str());
            s.append("'");
        },
        FtlErrorKind::UnbalancedClosingBrace => {
            s = unbalanced_brace_text(before);
        },
        FtlErrorKind::ExpectedInlineExpression => {
            s.append("Expected an expression (such as a variable $name or literal)");
        },
        FtlErrorKind::ExpectedSimpleExpressionAsSelector => {
            s.append("Expected a variable or function call as select selector");
        },
        FtlErrorKind::ExpectedLiteral => {
            s.append("Expected a string or number literal");
        },
    }
    s
}

/// Byte `pos` starts a character of `cs`, or lies at or past its end.
pub open spec fn on_char_boundary(cs: Seq<char>, pos: int) -> bool {
    pos >= byte_len(cs) || byte_len(cs.take(chars_before(cs, pos) as int)) == pos
}

/// The error kinds whose report reads the source text up to the error, and so
/// needs the error position to start a character.
pub open spec fn slices_text(kind: FtlErrorKind) -> bool {
    ||| kind is ExpectedInlineExpression
    ||| kind is MissingValue
    ||| kind == FtlErrorKind::ExpectedToken { token: '}' }
    ||| kind is MissingDefaultVariant
    ||| kind is UnbalancedClosingBrace
    ||| kind is ExpectedCharRange
}

/// Whether the report of an error of kind `kind` reads the text before it.
pub fn kind_slices_text(kind: &FtlErrorKind) -> (b: bool)
    ensures
        b == slices_text(*kind),
{
    match kind {
        FtlErrorKind::ExpectedToken { token } => *token == '}',
        FtlErrorKind::ExpectedCharRange { .. } => true,
        FtlErrorKind::MissingDefaultVariant => true,
        FtlErrorKind::MissingValue => true,
        FtlErrorKind::UnbalancedClosingBrace => true,
        FtlErrorKind::ExpectedInlineExpression => true,
        _ => false,
    }
}

/// `a - b`, or 0 when `b` is larger.
pub open spec fn sat_sub(a: nat, b: nat) -> nat {
    if a >= b {
        (a - b) as nat
    } else {
        0
    }
}

/// Location `path:line:col`.
pub open spec fn location(path: Seq<char>, line: nat, col: nat) -> Seq<char> {
    path + ":"@ + decimal(line) + ":"@ + decimal(col)
}

/// Width of the line-number gutter of a snippet that ends at line `line`.
pub open spec fn gutter(line: nat) -> nat {
    decimal(line).len()
}

/// A note under a quoted line: the blank under the text before the mark, the
/// mark and the message.
pub open spec fn note_line(w: nat, prefix: Seq<char>, mark: Seq<char>, msg: Seq<char>) -> Seq<char> {
    repeat(' ', w + 1) + "| "@ + prefix + mark + " "@ + msg + "\n"@
}

/// The line that stands for lines left out.
pub open spec fn dots_line(w: nat) -> Seq<char> {
    repeat(' ', w + 1) + "...\n"@
}

/// A quoted line marked as the one that opened a brace, `what` following the brace.
pub open spec fn opened_line(n: nat, w: nat, text: Seq<char>, what: Seq<char>) -> Seq<char> {
    pad_left(decimal(n), w) + " | "@ + text + " <-- Opened {"@ + what + "\n"@
}

/// The snippet of one line with a caret under column `col` and the message.
pub open spec fn plain_snippet(path: Seq<char>, line: nat, col: nat, text: Seq<char>, msg: Seq<char>) -> Seq<char> {
    let w = gutter(line);
    arrow_line(w, location(path, line, col)) + bar_line(w) + source_line(line, w, text)
        + note_line(w, blank_prefix(text, col - 1), seq!['^'], msg)
}

/// For an error at character `k`: the byte columns (from 1) of the braces of
/// an empty placeable around it, that is the last `{` before it on its line
/// with only white space up to the error and the first `}` after it on its
/// line with only white space before.
pub open spec fn empty_placeable(cs: Seq<char>, k: int) -> Option<(nat, nat)> {
    let before = cs.take(k);
    let after = cs.skip(k);
    let bol = before.skip(last_index_of(before, '\n') + 1);
    let aol = if first_index_of(after, '\n') < 0 {
        after
    } else {
        after.take(first_index_of(after, '\n'))
    };
    let oi = last_index_of(bol, '{');
    let ci = first_index_of(aol, '}');
    if oi >= 0 && all_ws(bol.skip(oi + 1)) && ci >= 0 && all_ws(aol.take(ci)) {
        Some((byte_len(bol.take(oi)) + 1, byte_len(bol) + byte_len(aol.take(ci)) + 1))
    } else {
        None
    }
}

/// The snippet for an empty placeable: carets from its opening to its closing brace.
pub open spec fn empty_placeable_snippet(path: Seq<char>, line: nat, text: Seq<char>, open_col: nat, close_col: nat) -> Seq<char> {
    let w = gutter(line);
    arrow_line(w, location(path, line, open_col) + "-"@ + decimal(close_col)) + bar_line(w)
        + source_line(line, w, text)
        + note_line(w, blank_prefix(text, open_col - 1), repeat('^', sat_sub(close_col, open_col) + 1), "Expression can't be empty"@)
}

/// For a missing value at character `k` after a variant key `[..]`: the
/// snippet pointing after the key, with the line that opened the select
/// expression when that is an earlier line holding both `{` and `->`.
pub open spec fn variant_value_snippet(path: Seq<char>, cs: Seq<char>, k: int) -> Option<Seq<char>> {
    let tr = trim_end(cs.take(k));
    let ob = last_index_of(tr, '[');
    if tr.len() > 0 && tr.last() == ']' && ob >= 0 {
        let vl = line_col(tr).0;
        let vc = line_col(tr).1;
        let vt = nth_line(cs, vl - 1);
        let w = gutter(vl);
        let bb = tr.take(ob);
        let ai = last_arrow(bb);
        let obi = if ai >= 0 { last_index_of(bb.take(ai), '{') } else { -1 };
        let ol = line_col(cs.take(obi)).0;
        let oc = line_col(cs.take(obi)).1;
        let ot = nth_line(cs, ol - 1);
        let select = if obi >= 0 && ol < vl && ol == line_col(cs.take(ai)).0 {
            source_line(ol, w, ot)
                + note_line(w, blank_prefix(ot, oc - 1), repeat('-', sat_sub(line_col(cs.take(ai)).1 + 1, oc) + 1), "Select expression opened here"@)
                + if vl > ol + 1 { dots_line(w) } else { Seq::<char>::empty() }
        } else {
            Seq::<char>::empty()
        };
        Some(arrow_line(w, location(path, vl, vc + 1)) + bar_line(w) + select + source_line(vl, w, vt)
            + note_line(w, blank_prefix(vt, vc as int), seq!['^'], "Expected a value for variant '"@ + tr.skip(ob) + "'"@))
    } else {
        None
    }
}

/// The error kinds that a brace left open earlier may explain.
pub open spec fn may_be_unclosed(kind: FtlErrorKind) -> bool {
    ||| kind == FtlErrorKind::ExpectedToken { token: '}' }
    ||| kind is MissingDefaultVariant
    ||| kind is ExpectedInlineExpression
    ||| kind is UnbalancedClosingBrace
}

/// The name of the function whose call is still open at the end of `between`
/// (empty when there is none or it has no name).
pub open spec fn open_call(between: Seq<char>) -> Seq<char> {
    let j = unmatched_open(between, '(', ')', 0);
    if j >= 0 {
        name_suffix(trim_end(between.take(j)))
    } else {
        Seq::<char>::empty()
    }
}

/// The message for a call left open.
pub open spec fn open_call_message(f: Seq<char>) -> Seq<char> {
    "Expected ')' to close "@ + f + " and '}' to close expression"@
}

/// The snippet for the `{` at character `i`, still open at the error at
/// character `k` and on an earlier line: that line marked as opening the brace
/// (and the call left open in it, or the select expression it starts), lines
/// left out, and the line of the error.
pub open spec fn earlier_open_snippet(
    path: Seq<char>,
    cs: Seq<char>,
    k: int,
    kind: FtlErrorKind,
    line: nat,
    col: nat,
    text: Seq<char>,
    i: int,
) -> Seq<char> {
    let before = cs.take(k);
    let between = before.skip(i);
    let ol = line_col(cs.take(i)).0;
    let oc = line_col(cs.take(i)).1;
    let f = open_call(between);
    let w = gutter(line);
    let ot = nth_line(cs, ol - 1);
    let a = first_arrow(between);
    let mid = if f.len() > 0 {
        opened_line(ol, w, ot, " and "@ + f + "("@)
    } else if a >= 0 && line_col(cs.take(i + a)).0 == ol {
        source_line(ol, w, ot) + note_line(w, blank_prefix(ot, oc - 1),
            repeat('-', sat_sub(line_col(cs.take(i + a)).1 + 1, oc) + 1), "Select expression opened here"@)
    } else {
        opened_line(ol, w, ot, Seq::<char>::empty())
    };
    let msg = if f.len() > 0 { open_call_message(f) } else { friendly_message(kind, before) };
    arrow_line(w, location(path, line, col)) + bar_line(w) + mid
        + (if line > ol + 1 { dots_line(w) } else { Seq::<char>::empty() })
        + source_line(line, w, text) + note_line(w, blank_prefix(text, col - 1), seq!['^'], msg)
}

/// For an error at character `k`, on line `line`, column `col`, with line text
/// `text`: the snippet that shows the `{` still open before it when it is on
/// an earlier line, or the snippet for a call left open on the same line.
pub open spec fn unclosed_snippet(
    path: Seq<char>,
    cs: Seq<char>,
    k: int,
    kind: FtlErrorKind,
    line: nat,
    col: nat,
    text: Seq<char>,
) -> Option<Seq<char>> {
    let before = cs.take(k);
    let i = unmatched_open(before, '{', '}', 0);
    let ol = line_col(cs.take(i)).0;
    let f = open_call(before.skip(i));
    if !may_be_unclosed(kind) || i < 0 {
        None
    } else if ol < line {
        Some(earlier_open_snippet(path, cs, k, kind, line, col, text, i))
    } else if f.len() > 0 {
        Some(plain_snippet(path, line, col, text,
            if k < cs.len() && cs[k] == '}' { "Expected ')' to close "@ + f } else { open_call_message(f) }))
    } else {
        None
    }
}

/// The report of a syntax error found by the parser in the file at `path`
/// whose text is `cs`: the location and the quoted source, specialised for an
/// empty placeable, a variant without a value and a brace or call left open,
/// with a readable message.
pub open spec fn spec_format_syntax_error(path: Seq<char>, cs: Seq<char>, err: FtlError) -> Seq<char> {
    let k = chars_before(cs, err.start as int) as int;
    let line = line_col(cs.take(k)).0;
    let col = line_col(cs.take(k)).1;
    let text = nth_line(cs, line - 1);
    let ep = empty_placeable(cs, k);
    let vv = variant_value_snippet(path, cs, k);
    let uc = unclosed_snippet(path, cs, k, err.kind, line, col, text);
    if err.kind is ExpectedInlineExpression && ep is Some {
        empty_placeable_snippet(path, line, text, ep.unwrap().0, ep.unwrap().1)
    } else if err.kind is MissingValue && vv is Some {
        vv.unwrap()
    } else if uc is Some {
        uc.unwrap()
    } else {
        plain_snippet(path, line, col, text, friendly_message(err.kind, cs.take(k)))
    }
}

/// The index of the character that byte `pos` of `cs` starts, when it starts one
/// (or lies at or past the end).
pub fn char_index_at(cs: &Vec<char>, pos: usize) -> (r: Option<usize>)
    ensures
        r is Some <==> on_char_boundary(cs@, pos as int),
        r matches Some(k) ==> k == chars_before(cs@, pos as int) && k <= cs.len(),
{
    let ghost s = cs@;
    let mut k: usize = 0;
    let mut rem: usize = pos;
    assert(s.skip(0) =~= s);
    assert(s.take(0) =~= Seq::<char>::empty());
    while k < cs.len() && rem > 0
        invariant
            s == cs@,
            k <= cs.len(),
            rem <= pos,
            chars_before(s, pos as int) == k + chars_before(s.skip(k as int), rem as int),
            byte_len(s.take(k as int)) + rem == pos,
        decreases cs.len() - k,
    {
        let c = cs[k];
        let w = utf8_width(c);
        proof {
            assert(s.skip(k as int).drop_first() =~= s.skip(k as int + 1));
            assert(s.skip(k as int)[0] == c);
            assert(s.take(k as int + 1).drop_last() =~= s.take(k as int));
        }
        if rem < w {
            proof {
                assert(chars_before(s.skip(k as int + 1), rem - w) == 0);
                lemma_byte_len_take_mono(s, k as int + 1, s.len() as int);
                assert(s.take(s.len() as int) =~= s);
            }
            return None;
        }
        rem = rem - w;
        k = k + 1;
    }
    proof {
        if rem > 0 {
            assert(s.take(k as int) =~= s);
        } else {
            assert(chars_before(s.skip(k as int), 0) == 0);
        }
    }
    Some(k)
}

/// The number of characters of `cs` that start before byte `pos`.
pub fn count_chars_before(cs: &Vec<char>, pos: usize) -> (k: usize)
    ensures
        k == chars_before(cs@, pos as int),
        k <= cs.len(),
{
    let ghost s = cs@;
    let mut k: usize = 0;
    let mut rem: usize = pos;
    assert(s.skip(0) =~= s);
    while k < cs.len() && rem > 0
        invariant
            s == cs@,
            k <= cs.len(),
            chars_before(s, pos as int) == k + chars_before(s.skip(k as int), rem as int),
        decreases cs.len() - k,
    {
        let w = utf8_width(cs[k]);
        proof {
            assert(s.skip(k as int).drop_first() =~= s.skip(k as int + 1));
            assert(s.skip(k as int)[0] == cs[k as int]);
            if rem <= w {
                assert(chars_before(s.skip(k as int + 1), rem - w) == 0);
                assert(chars_before(s.skip(k as int + 1), 0) == 0);
            }
        }
        if rem <= w {
            rem = 0;
        } else {
            rem = rem - w;
        }
        k = k + 1;
    }
    proof {
        if k == cs.len() {
            assert(s.skip(k as int).len() == 0);
        }
    }
    k
}

/// Appends `path:line:col`.
fn push_location(s: &mut String, path: &str, line: usize, col: usize)
    ensures
        final(s)@ == old(s)@ + location(path@, line as nat, col as nat),
{
    let ghost start = s@;
    s.append(path);
    s.append(":");
    let l = decimal_string(line as u128);
    s.append(l.as_str());
    s.append(":");
    let c = decimal_string(col as u128);
    s.append(c.as_str());
    assert(s@ =~= start + location(path@, line as nat, col as nat));
}

/// Appends a note: the blank under the first `k` characters of `text`, `count`
/// marks and the message.
fn push_note(s: &mut String, w: usize, text: &Vec<char>, k: usize, mark: char, count: usize, msg: &str)
    requires
        w < usize::MAX,
    ensures
        final(s)@ == old(s)@ + note_line(w as nat, blank_prefix(text@, k as int), repeat(mark, count as nat), msg@),
{
    let ghost start = s@;
    push_repeat(s, ' ', w + 1);
    s.append("| ");
    push_blank_prefix(s, text, k);
    push_repeat(s, mark, count);
    s.append(" ");
    s.append(msg);
    s.append("\n");
    assert(s@ =~= start + note_line(w as nat, blank_prefix(text@, k as int), repeat(mark, count as nat), msg@));
}

fn push_dots_line(s: &mut String, w: usize)
    requires
        w < usize::MAX,
    ensures
        final(s)@ == old(s)@ + dots_line(w as nat),
{
    let ghost start = s@;
    push_repeat(s, ' ', w + 1);
    s.append("...\n");
    assert(s@ =~= start + dots_line(w as nat));
}

fn push_opened_line(s: &mut String, n: usize, w: usize, text: &Vec<char>, what: &str)
    ensures
        final(s)@ == old(s)@ + opened_line(n as nat, w as nat, text@, what@),
{
    let ghost start = s@;
    push_padded_number(s, n, w);
    s.append(" | ");
    push_chars(s, text);
    s.append(" <-- Opened {");
    s.append(what);
    s.append("\n");
    assert(s@ =~= start + opened_line(n as nat, w as nat, text@, what@));
}

proof fn lemma_one_caret()
    ensures
        repeat('^', 1) == seq!['^'],
{
    assert(repeat('^', 1) =~= seq!['^']);
}

/// The snippet of one line with a caret under column `col`.
fn plain_snippet_text(path: &str, line: usize, col: usize, text: &Vec<char>, msg: &str) -> (r: String)
    requires
        col >= 1,
    ensures
        r@ == plain_snippet(path@, line as nat, col as nat, text@, msg@),
{
    let w = decimal_width(line as u128);
    let mut loc = String::new();
    push_location(&mut loc, path, line, col);
    let mut s = String::new();
    push_arrow_line(&mut s, w, loc.as_str());
    push_bar_line(&mut s, w);
    push_source_line(&mut s, line, w, text);
    proof { lemma_one_caret(); }
    push_note(&mut s, w, text, col - 1, '^', 1, msg);
    s
}

/// The byte columns of the braces of an empty placeable around character `k`.
fn empty_placeable_cols(cs: &Vec<char>, k: usize) -> (r: Option<(usize, usize)>)
    requires
        k <= cs.len(),
        byte_len(cs@) < usize::MAX,
    ensures
        match r {
            Some(p) => empty_placeable(cs@, k as int) == Some((p.0 as nat, p.1 as nat)) && p.0 >= 1 && p.1 <= byte_len(cs@) + 1,
            None => empty_placeable(cs@, k as int) is None,
        },
{
    let ghost s = cs@;
    let before = sub_chars(cs, 0, k);
    let after = sub_chars(cs, k, cs.len());
    assert(before@ =~= s.take(k as int));
    assert(after@ =~= s.skip(k as int));
    let bls = match rfind_char(&before, '\n') {
        Some(i) => i + 1,
        None => 0,
    };
    proof {
        lemma_last_index_of(before@, '\n');
    }
    let bol = sub_chars(&before, bls, before.len());
    assert(bol@ =~= before@.skip(last_index_of(before@, '\n') + 1));
    let aol = match find_char(&after, '\n') {
        Some(e) => sub_chars(&after, 0, e),
        None => sub_chars(&after, 0, after.len()),
    };
    assert(aol@ =~= if first_index_of(after@, '\n') < 0 { after@ } else { after@.take(first_index_of(after@, '\n')) });
    let oi = match rfind_char(&bol, '{') {
        Some(oi) => oi,
        None => {
            return None;
        },
    };
    let tail = sub_chars(&bol, oi + 1, bol.len());
    assert(tail@ =~= bol@.skip(oi as int + 1));
    if !all_whitespace(&tail) {
        return None;
    }
    let ci = match find_char(&aol, '}') {
        Some(ci) => ci,
        None => {
            return None;
        },
    };
    let mid = sub_chars(&aol, 0, ci);
    assert(mid@ =~= aol@.take(ci as int));
    if !all_whitespace(&mid) {
        return None;
    }
    proof {
        lemma_byte_len_split(s, k as int);
        lemma_byte_len_split(before@, bls as int);
        assert(bol@ =~= before@.skip(bls as int));
        let ae = aol.len() as int;
        assert(aol@ =~= after@.take(ae));
        lemma_byte_len_split(after@, ae);
        lemma_byte_len_split(aol@, ci as int);
        lemma_byte_len_take_mono(bol@, oi as int, bol.len() as int);
        assert(bol@.take(bol.len() as int) =~= bol@);
        assert(aol@.take(aol.len() as int) =~= aol@);
    }
    let oc = byte_count(&bol, oi) + 1;
    let cc = byte_count(&bol, bol.len()) + byte_count(&aol, ci) + 1;
    Some((oc, cc))
}

/// The snippet for an empty placeable.
fn empty_placeable_text(path: &str, line: usize, text: &Vec<char>, open_col: usize, close_col: usize) -> (r: String)
    requires
        open_col >= 1,
        close_col < usize::MAX,
    ensures
        r@ == empty_placeable_snippet(path@, line as nat, text@, open_col as nat, close_col as nat),
{
    let w = decimal_width(line as u128);
    let mut loc = String::new();
    push_location(&mut loc, path, line, open_col);
    loc.append("-");
    let cc = decimal_string(close_col as u128);
    loc.append(cc.as_str());
    let mut s = String::new();
    push_arrow_line(&mut s, w, loc.as_str());
    push_bar_line(&mut s, w);
    push_source_line(&mut s, line, w, text);
    let count = if close_col >= open_col { close_col - open_col + 1 } else { 1 };
    push_note(&mut s, w, text, open_col - 1, '^', count, "Expression can't be empty");
    s
}

/// The snippet for a value missing after a variant key.
fn variant_value_text(path: &str, cs: &Vec<char>, k: usize) -> (r: Option<String>)
    requires
        k <= cs.len(),
        cs.len() + 2 < usize::MAX,
    ensures
        match r {
            Some(t) => variant_value_snippet(path@, cs@, k as int) == Some(t@),
            None => variant_value_snippet(path@, cs@, k as int) is None,
        },
{
    let ghost s0 = cs@;
    let before = sub_chars(cs, 0, k);
    assert(before@ =~= s0.take(k as int));
    let tr = trim_end_chars(&before);
    proof {
        lemma_trim_end_prefix(before@);
        assert(tr@ =~= s0.take(tr.len() as int));
    }
    if tr.len() == 0 || tr[tr.len() - 1] != ']' {
        return None;
    }
    let ob = match rfind_char(&tr, '[') {
        Some(ob) => ob,
        None => {
            return None;
        },
    };
    let (vl, vc) = line_col_of(&tr, tr.len());
    assert(tr@.take(tr.len() as int) =~= tr@);
    let vt = line_at(cs, vl - 1);
    let w = decimal_width(vl as u128);
    let bb = sub_chars(&tr, 0, ob);
    assert(bb@ =~= tr@.take(ob as int));
    let mut sel = String::new();
    let ghost bbv = bb@;
    match rfind_arrow(&bb) {
        Some(ai) => {
            let bba = sub_chars(&bb, 0, ai);
            assert(bba@ =~= bbv.take(ai as int));
            match rfind_char(&bba, '{') {
                Some(obi) => {
                    assert(s0.take(ai as int) =~= bbv.take(ai as int));
                    let (ol, oc) = line_col_of(cs, obi);
                    let (al, ac) = line_col_of(cs, ai);
                    if ol < vl && ol == al {
                        let ot = line_at(cs, ol - 1);
                        push_source_line(&mut sel, ol, w, &ot);
                        let arrow_end = ac + 1;
                        let count = if arrow_end >= oc { arrow_end - oc + 1 } else { 1 };
                        push_note(&mut sel, w, &ot, oc - 1, '-', count, "Select expression opened here");
                        if vl - ol > 1 {
                            push_dots_line(&mut sel, w);
                        }
                    }
                },
                None => {},
            }
        },
        None => {},
    }
    let mut loc = String::new();
    push_location(&mut loc, path, vl, vc + 1);
    let mut out = String::new();
    push_arrow_line(&mut out, w, loc.as_str());
    push_bar_line(&mut out, w);
    out.append(sel.as_str());
    push_source_line(&mut out, vl, w, &vt);
    let mut msg = String::new();
    msg.append("Expected a value for variant '");
    let variant = sub_chars(&tr, ob, tr.len());
    assert(variant@ =~= tr@.skip(ob as int));
    push_chars(&mut msg, &variant);
    msg.append("'");
    proof { lemma_one_caret(); }
    push_note(&mut out, w, &vt, vc, '^', 1, msg.as_str());
    Some(out)
}

fn open_call_message_text(f: &Vec<char>) -> (r: String)
    ensures
        r@ == open_call_message(f@),
{
    let mut s = String::new();
    s.append("Expected ')' to close ");
    push_chars(&mut s, f);
    s.append(" and '}' to close expression");
    s
}

/// The snippet for a `{` at character `i` still open at the error, on an earlier line.
#[verifier::spinoff_prover]
fn earlier_open_text(
    path: &str,
    cs: &Vec<char>,
    k: usize,
    kind: &FtlErrorKind,
    line: usize,
    col: usize,
    text: &Vec<char>,
    i: usize,
    before: &Vec<char>,
    between: &Vec<char>,
    f: &Vec<char>,
    ol: usize,
    oc: usize,
) -> (r: String)
    requires
        i < k <= cs.len(),
        cs.len() + 2 < usize::MAX,
        col >= 1,
        before@ == cs@.take(k as int),
        between@ == before@.skip(i as int),
        f@ == open_call(between@),
        ol == line_col(cs@.take(i as int)).0,
        oc == line_col(cs@.take(i as int)).1,
        1 <= ol < line,
        oc >= 1,
    ensures
        r@ == earlier_open_snippet(path@, cs@, k as int, *kind, line as nat, col as nat, text@, i as int),
{
    let w = decimal_width(line as u128);
    let ot = line_at(cs, ol - 1);
    let mut s = String::new();
    let mut loc = String::new();
    push_location(&mut loc, path, line, col);
    push_arrow_line(&mut s, w, loc.as_str());
    push_bar_line(&mut s, w);
    let msg: String;
    if f.len() > 0 {
        let mut what = String::new();
        what.append(" and ");
        push_chars(&mut what, f);
        what.append("(");
        push_opened_line(&mut s, ol, w, &ot, what.as_str());
        msg = open_call_message_text(f);
    } else {
        let sel: Option<usize> = match find_arrow(between) {
            Some(a) => {
                let (al, ac) = line_col_of(cs, i + a);
                if al == ol {
                    Some(ac)
                } else {
                    None
                }
            },
            None => None,
        };
        match sel {
            Some(ac) => {
                push_source_line(&mut s, ol, w, &ot);
                let ae = ac + 1;
                let count = if ae >= oc { ae - oc + 1 } else { 1 };
                push_note(&mut s, w, &ot, oc - 1, '-', count, "Select expression opened here");
            },
            None => {
                let nothing = String::new();
                push_opened_line(&mut s, ol, w, &ot, nothing.as_str());
            },
        }
        msg = friendly_message_after(kind, before);
    }
    if line - ol > 1 {
        push_dots_line(&mut s, w);
    }
    push_source_line(&mut s, line, w, text);
    proof { lemma_one_caret(); }
    push_note(&mut s, w, text, col - 1, '^', 1, msg.as_str());
    s
}

/// The snippet for a brace or call left open before the error.
fn unclosed_text(
    path: &str,
    cs: &Vec<char>,
    k: usize,
    kind: &FtlErrorKind,
    line: usize,
    col: usize,
    text: &Vec<char>,
) -> (r: Option<String>)
    requires
        k <= cs.len(),
        cs.len() + 2 < usize::MAX,
        line >= 1,
        col >= 1,
    ensures
        match r {
            Some(t) => unclosed_snippet(path@, cs@, k as int, *kind, line as nat, col as nat, text@) == Some(t@),
            None => unclosed_snippet(path@, cs@, k as int, *kind, line as nat, col as nat, text@) is None,
        },
{
    let ghost s0 = cs@;
    let may_be_open = match kind {
        FtlErrorKind::ExpectedToken { token } => *token == '}',
        FtlErrorKind::MissingDefaultVariant => true,
        FtlErrorKind::ExpectedInlineExpression => true,
        FtlErrorKind::UnbalancedClosingBrace => true,
        _ => false,
    };
    if !may_be_open {
        return None;
    }
    let before = sub_chars(cs, 0, k);
    assert(before@ =~= s0.take(k as int));
    let i = match find_unmatched_open(&before, '{', '}') {
        Some(i) => i,
        None => {
            return None;
        },
    };
    let between = sub_chars(&before, i, before.len());
    assert(between@ =~= before@.skip(i as int));
    let (ol, oc) = line_col_of(cs, i);
    let f: Vec<char> = match find_unmatched_open(&between, '(', ')') {
        Some(j) => {
            let bj = sub_chars(&between, 0, j);
            assert(bj@ =~= between@.take(j as int));
            let t = trim_end_chars(&bj);
            trailing_name(&t)
        },
        None => Vec::new(),
    };
    assert(f@ == open_call(between@));
    if ol < line {
        Some(earlier_open_text(path, cs, k, kind, line, col, text, i, &before, &between, &f, ol, oc))
    } else if f.len() > 0 {
        let mut msg = String::new();
        if k < cs.len() && cs[k] == '}' {
            msg.append("Expected ')' to close ");
            push_chars(&mut msg, &f);
        } else {
            msg = open_call_message_text(&f);
        }
        Some(plain_snippet_text(path, line, col, text, msg.as_str()))
    } else {
        None
    }
}

/// The report of a syntax error in the file at `file_path` with text `content`.
pub fn format_syntax_error(file_path: &str, content: &str, err: &FtlError) -> (r: String)
    requires
        slices_text(err.kind) ==> on_char_boundary(content@, err.start as int),
        byte_len(content@) + 2 < usize::MAX,
    ensures
        r@ == spec_format_syntax_error(file_path@, content@, *err),
{
    let cs = chars_of(content);
    proof {
        lemma_byte_len_bounds(cs@);
    }
    let k = count_chars_before(&cs, err.start);
    let (line, col) = line_col_of(&cs, k);
    let text = line_at(&cs, line - 1);
    match &err.kind {
        FtlErrorKind::ExpectedInlineExpression => {
            match empty_placeable_cols(&cs, k) {
                Some((oc, cc)) => {
                    return empty_placeable_text(file_path, line, &text, oc, cc);
                },
                None => {},
            }
        },
        FtlErrorKind::MissingValue => {
            match variant_value_text(file_path, &cs, k) {
                Some(t) => {
                    return t;
                },
                None => {},
            }
        },
        _ => {},
    }
    match unclosed_text(file_path, &cs, k, &err.kind, line, col, &text) {
        Some(t) => {
            return t;
        },
        None => {},
    }
    let before = sub_chars(&cs, 0, k);
    assert(before@ =~= cs@.take(k as int));
    let msg = friendly_message_after(&err.kind, &before);
    plain_snippet_text(file_path, line, col, &text, msg.as_str())
}

/// The readable message for a syntax error of kind `kind` at byte `pos` of `content`.
pub fn friendly_error_message(kind: &FtlErrorKind, content: &str, pos: usize) -> (r: String)
    requires
        (kind is ExpectedCharRange || kind is UnbalancedClosingBrace) ==> on_char_boundary(content@, pos as int),
    ensures
        r@ == friendly_message(*kind, content@.take(chars_before(content@, pos as int) as int)),
{
    let cs = chars_of(content);
    let k = count_chars_before(&cs, pos);
    let before = sub_chars(&cs, 0, k);
    assert(before@ =~= cs@.take(k as int));
    friendly_message_after(kind, &before)
}

} // verus!
