use ply_locales::fluent_model::{FtlError, FtlErrorKind};
use ply_locales::syntax_error::{format_syntax_error, friendly_error_message};

fn err(start: usize, kind: FtlErrorKind) -> FtlError {
    FtlError { start, end: start + 1, kind }
}

#[test]
fn empty_placeable_is_marked_from_brace_to_brace() {
    let content = "greet = Hello, { }";
    let r = format_syntax_error("locales/en-US.ftl", content, &err(17, FtlErrorKind::ExpectedInlineExpression));
    assert_eq!(
        r,
        " --> locales/en-US.ftl:1:16-18\n  |\n1 | greet = Hello, { }\n  |                ^^^ Expression can't be empty\n"
    );
}

#[test]
fn missing_variant_value_shows_select_line() {
    let content = "msg = { $n ->\n    [one]\n   *[other] x\n}\n";
    let pos = content.find("[one]").unwrap() + "[one]\n".len();
    let r = format_syntax_error("f.ftl", content, &err(pos, FtlErrorKind::MissingValue));
    assert_eq!(
        r,
        " --> f.ftl:2:11\n  |\n1 | msg = { $n ->\n  |       ------- Select expression opened here\n2 |     [one]\n  |          ^ Expected a value for variant '[one]'\n"
    );
}

#[test]
fn plain_error_points_at_column() {
    let r = format_syntax_error("f.ftl", "msg\n", &err(3, FtlErrorKind::ExpectedToken { token: '=' }));
    assert_eq!(r, " --> f.ftl:1:4\n  |\n1 | msg\n  |    ^ Expected = after identifier\n");
}

#[test]
fn call_left_open_on_same_line() {
    let content = "msg = { NUMBER($n }\n";
    let pos = content.find('}').unwrap();
    let r = format_syntax_error("f.ftl", content, &err(pos, FtlErrorKind::ExpectedToken { token: '}' }));
    assert_eq!(
        r,
        " --> f.ftl:1:19\n  |\n1 | msg = { NUMBER($n }\n  |                   ^ Expected ')' to close NUMBER\n"
    );
}

#[test]
fn placeable_left_open_on_earlier_line() {
    let content = "msg = { $a\n  x\n";
    let r = format_syntax_error("f.ftl", content, &err(13, FtlErrorKind::ExpectedToken { token: '}' }));
    assert_eq!(r, " --> f.ftl:2:3\n  |\n1 | msg = { $a <-- Opened {\n2 |   x\n  |   ^ Expected }\n");
}

#[test]
fn select_left_open_with_lines_between() {
    let content = "msg = { $n ->\n *[a] x\nz = y\n";
    let pos = content.find("z = y").unwrap();
    let r = format_syntax_error("f.ftl", content, &err(pos, FtlErrorKind::ExpectedToken { token: '}' }));
    assert_eq!(
        r,
        " --> f.ftl:3:1\n  |\n1 | msg = { $n ->\n  |       ------- Select expression opened here\n  ...\n3 | z = y\n  | ^ Expected }\n"
    );
}

#[test]
fn call_left_open_on_earlier_line() {
    let content = "msg = { NUMBER(\n  $n\n";
    let pos = content.len();
    let r = format_syntax_error("f.ftl", content, &err(pos, FtlErrorKind::ExpectedToken { token: '}' }));
    assert_eq!(
        r,
        " --> f.ftl:3:1\n  |\n1 | msg = { NUMBER( <-- Opened { and NUMBER(\n  ...\n3 | \n  | ^ Expected ')' to close NUMBER and '}' to close expression\n"
    );
}

#[test]
fn friendly_messages_per_kind() {
    let m = |k: FtlErrorKind, content: &str| friendly_error_message(&k, content, content.len());
    assert_eq!(m(FtlErrorKind::ExpectedToken { token: '"' }, ""), "Expected closing quote '\"'");
    assert_eq!(m(FtlErrorKind::ExpectedToken { token: ':' }, ""), "Expected : after argument name");
    assert_eq!(m(FtlErrorKind::ExpectedToken { token: ']' }, ""), "Expected ]");
    assert_eq!(m(FtlErrorKind::ExpectedCharRange { range: "a-z\n".to_string() }, ""), "Expected line break");
    assert_eq!(m(FtlErrorKind::ExpectedCharRange { range: "a-zA-Z".to_string() }, "x = { $ "), "Expected a variable name");
    assert_eq!(m(FtlErrorKind::ExpectedCharRange { range: "a-zA-Z".to_string() }, "x = { -"), "Expected a term name");
    assert_eq!(m(FtlErrorKind::ExpectedCharRange { range: "a-zA-Z".to_string() }, "x"), "Expected an identifier");
    assert_eq!(m(FtlErrorKind::ExpectedCharRange { range: "0-9".to_string() }, "x"), "Expected a digit (0-9)");
    assert_eq!(
        m(FtlErrorKind::ExpectedCharRange { range: "a-zA-Z0-9_-".to_string() }, "x"),
        "Expected an identifier (letters, numbers, _, -)"
    );
    assert_eq!(m(FtlErrorKind::ExpectedCharRange { range: "0-9a-fA-F".to_string() }, "x"), "Expected a hex digit (0-9, a-f, A-F)");
    assert_eq!(
        m(FtlErrorKind::ExpectedCharRange { range: "\u{e9}\t'".to_string() }, "x"),
        "Expected character in range '\\u{e9}\\t\\''"
    );
    assert_eq!(
        m(FtlErrorKind::ExpectedMessageField { entry_id: "hello".to_string() }, ""),
        "Expected a message field for 'hello'"
    );
    assert_eq!(m(FtlErrorKind::ExpectedTermField { entry_id: "t".to_string() }, ""), "Expected a term field for 't'");
    assert_eq!(
        m(FtlErrorKind::DuplicatedNamedArgument { name: "x".to_string() }, ""),
        "Argument 'x' is specified more than once"
    );
    assert_eq!(m(FtlErrorKind::UnknownEscapeSequence { seq: "q".to_string() }, ""), "Unknown escape sequence '\\q'");
    assert_eq!(
        m(FtlErrorKind::InvalidUnicodeEscapeSequence { seq: "u12".to_string() }, ""),
        "Invalid Unicode escape sequence '\\u12'"
    );
    assert_eq!(
        m(FtlErrorKind::UnbalancedClosingBrace, "x = { $n ->\n [a] b "),
        "Closing '}' for select expression must be on a new line"
    );
    assert_eq!(m(FtlErrorKind::UnbalancedClosingBrace, "x = a "), "Unexpected closing '}', no matching '{' was opened");
    assert_eq!(m(FtlErrorKind::MissingDefaultVariant, ""), "Select expression must have a default variant marked with '*' (e.g. *[other])");
    assert_eq!(m(FtlErrorKind::ExpectedLiteral, ""), "Expected a string or number literal");
}

#[test]
fn errors_inside_a_character_are_still_reported() {
    // Byte 1 lies inside the two-byte `é`; the report counts it as the column after it.
    let r = format_syntax_error("f.ftl", "\u{e9}x", &err(1, FtlErrorKind::ExpectedToken { token: '=' }));
    assert_eq!(r, " --> f.ftl:1:2\n  |\n1 | \u{e9}x\n  |  ^ Expected = after identifier\n");
    let m = friendly_error_message(&FtlErrorKind::MissingValue, "\u{e9}x", 1);
    assert_eq!(m, "Expected a value or attribute after '='");
}
