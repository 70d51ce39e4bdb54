use ply_locales::ast_util::{offset_to_line_col, parse_locale, subslice_offset, to_rust_ident, extract_raw_definition};
use ply_locales::ast_util::parse_locales;
use ply_locales::loader::{LocaleFile, LocaleFiles, LocalesData};

fn file(path: &str, content: &str) -> LocaleFile {
    LocaleFile { path: path.to_string(), content: content.to_string() }
}

#[test]
fn parses_messages_terms_and_references() {
    let content = "hello = Hi { $name }\n-brand = Ply\nuse-brand = { -brand } and { hello }\n";
    let l = match parse_locale(&vec![file("locales/en-US.ftl", content)]) {
        Ok(l) => l,
        Err(e) => panic!("unexpected errors: {:?}", e),
    };
    let ids: Vec<&str> = l.messages.iter().map(|m| m.id.as_str()).collect();
    assert_eq!(ids, vec!["hello", "use-brand"]);
    assert_eq!(l.terms.len(), 1);
    assert_eq!(l.terms[0].id, "-brand");
    assert_eq!(l.terms[0].line, 2);
    assert_eq!(l.terms[0].raw_definition, "-brand = Ply");
    let hello = &l.messages[0];
    assert_eq!(hello.variables, vec!["name".to_string()]);
    assert_eq!(hello.rust_ident, "hello");
    assert_eq!(hello.line, 1);
    let ub = &l.messages[1];
    assert_eq!(ub.rust_ident, "use_brand");
    assert_eq!(ub.raw_definition, "use-brand = { -brand } and { hello }");
    assert_eq!(ub.line, 3);
    assert_eq!(ub.file_path, "locales/en-US.ftl");
    assert_eq!(ub.term_references.len(), 1);
    assert_eq!(ub.term_references[0].name, "-brand");
    assert_eq!(ub.term_references[0].start, 48);
    assert_eq!(ub.term_references[0].end, 54);
    assert_eq!(ub.message_references.len(), 1);
    assert_eq!(ub.message_references[0].name, "hello");
    assert_eq!(ub.message_references[0].start, 63);
    assert_eq!(ub.message_references[0].end, 68);
    assert_eq!(l.file_contents.len(), 1);
    assert_eq!(l.file_contents[0].content, content);
}

#[test]
fn later_definition_replaces_earlier() {
    let files = vec![file("b.ftl", "hello = First\n"), file("a.ftl", "hello = Second { $x }\n")];
    let l = parse_locale(&files).ok().unwrap();
    assert_eq!(l.messages.len(), 1);
    assert_eq!(l.messages[0].file_path, "a.ftl");
    assert_eq!(l.messages[0].variables, vec!["x".to_string()]);
    let paths: Vec<&str> = l.file_contents.iter().map(|f| f.path.as_str()).collect();
    assert_eq!(paths, vec!["a.ftl", "b.ftl"]);
}

#[test]
fn function_references_record_arguments() {
    let content = "m = { NUMBER($n, minimumFractionDigits: 2) }\n";
    let l = parse_locale(&vec![file("f.ftl", content)]).ok().unwrap();
    let m = &l.messages[0];
    assert_eq!(m.function_references.len(), 1);
    let f = &m.function_references[0];
    assert_eq!(f.name, "NUMBER");
    assert_eq!(f.start, 6);
    assert_eq!(f.end, 12);
    assert_eq!(f.positional_count, 1);
    assert_eq!(f.named_args.len(), 1);
    assert_eq!(f.named_args[0].name, "minimumFractionDigits");
    assert_eq!(f.named_args[0].start, 17);
    assert_eq!(m.variables, vec!["n".to_string()]);
}

#[test]
fn syntax_errors_are_reported_with_snippets() {
    let r = parse_locale(&vec![file("locales/en-US.ftl", "greet = Hello, { }\n")]);
    match r {
        Ok(_) => panic!("expected a syntax error"),
        Err(e) => {
            assert_eq!(e.len(), 1);
            assert_eq!(
                e[0],
                "Syntax error in Fluent file 'locales/en-US.ftl'\n --> locales/en-US.ftl:1:16-18\n  |\n1 | greet = Hello, { }\n  |                ^^^ Expression can't be empty\n"
            );
        }
    }
}

#[test]
fn rust_identifiers_for_names() {
    assert_eq!(to_rust_ident("order-summary"), "order_summary");
    assert_eq!(to_rust_ident("type"), "r#type");
    assert_eq!(to_rust_ident("self"), "_self");
    assert_eq!(to_rust_ident("hello"), "hello");
}

#[test]
fn line_and_column_of_offsets() {
    assert_eq!(offset_to_line_col("ab\ncd", 0), (1, 1));
    assert_eq!(offset_to_line_col("ab\ncd", 4), (2, 2));
    assert_eq!(offset_to_line_col("ab\ncd", 100), (2, 3));
    assert_eq!(offset_to_line_col("\u{e9}x", 2), (1, 2));
}

#[test]
fn raw_definitions_span_indented_lines() {
    let content = "a = x\nmsg =\n    one\n    two\nb = y\n";
    assert_eq!(extract_raw_definition(content, "msg"), ("msg =\n    one\n    two".to_string(), 2));
    assert_eq!(extract_raw_definition(content, "nope"), ("nope = ...".to_string(), 1));
    let braces = "sel = { $n ->\n[a] x\n*[b] y\n}\nnext = z\n";
    assert_eq!(extract_raw_definition(braces, "sel"), ("sel = { $n ->\n[a] x\n*[b] y\n}".to_string(), 1));
}

#[test]
fn subslice_offsets() {
    let hay = "hello world";
    assert_eq!(subslice_offset(hay, &hay[6..]), 6);
    assert_eq!(subslice_offset(hay, "other"), 0);
}

#[test]
fn locales_are_parsed_in_order_and_errors_gathered() {
    let good = LocalesData {
        locales: vec![
            LocaleFiles { id: "de-DE".to_string(), files: vec![file("de.ftl", "a = eins\n")] },
            LocaleFiles { id: "en-US".to_string(), files: vec![file("en.ftl", "a = one\n")] },
        ],
        locales_dir: "/m/locales".to_string(),
    };
    let ls = parse_locales(&good).ok().unwrap();
    let ids: Vec<&str> = ls.iter().map(|l| l.id.as_str()).collect();
    assert_eq!(ids, vec!["de-DE", "en-US"]);
    assert_eq!(ls[1].locale.messages[0].raw_definition, "a = one");
    let bad = LocalesData {
        locales: vec![
            LocaleFiles { id: "de-DE".to_string(), files: vec![file("de.ftl", "a = { }\n")] },
            LocaleFiles { id: "en-US".to_string(), files: vec![file("en.ftl", "b = { }\n")] },
        ],
        locales_dir: "/m/locales".to_string(),
    };
    let e = parse_locales(&bad).err().unwrap();
    assert_eq!(e.len(), 2);
    assert!(e[0].starts_with("Syntax error in Fluent file 'de.ftl'\n"));
    assert!(e[1].starts_with("Syntax error in Fluent file 'en.ftl'\n"));
}

#[test]
fn later_offsets_never_move_back() {
    let text = "ab\n\u{e9}d\n";
    let mut prev = offset_to_line_col(text, 0);
    for o in 1..12 {
        let now = offset_to_line_col(text, o);
        assert!(prev <= now);
        prev = now;
    }
    assert_eq!(offset_to_line_col(text, 40), offset_to_line_col(text, text.len()));
    assert_eq!(offset_to_line_col(text, 4), (2, 2));
}
