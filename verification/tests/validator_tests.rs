use ply_locales::ast_util::{parse_locale, ParsedLocale};
use ply_locales::custom::CustomFunction;
use ply_locales::cycles::detect_cycles;
use ply_locales::loader::LocaleFile;
use ply_locales::validator::{
    format_cycle_error, format_snippet_and_notes, format_span_error, validate_locales, CycleEntryInfo,
    LocaleEntry,
};

fn locale(id: &str, path: &str, content: &str) -> LocaleEntry {
    let files = vec![LocaleFile { path: path.to_string(), content: content.to_string() }];
    let parsed: ParsedLocale = parse_locale(&files).ok().unwrap();
    LocaleEntry { id: id.to_string(), locale: parsed }
}

#[test]
fn mismatched_variables_are_an_error() {
    let en = locale(
        "en-US",
        "locales/en-US.ftl",
        "order-summary = Order { $order_id } for { $customer } has { $item_count } items.\n",
    );
    let de = locale(
        "de-DE",
        "locales/de-DE.ftl",
        "hello = Hallo\norder-summary = Bestellung { $order_id } für { $client } hat { $item_count } Artikel.\n",
    );
    let r = validate_locales(&vec![de, en], "en-US", &vec![]);
    let e = r.err().unwrap();
    assert_eq!(
        e,
        vec![
            "Mismatched Fluent variables in message 'order-summary' for locale 'de-DE'\n --> locales/de-DE.ftl:2\n  |\n2 | order-summary = Bestellung { $order_id } für { $client } hat { $item_count } Artikel.\n  |\n  = expected: [$order_id, $customer, $item_count]\n  = found:    [$order_id, $client, $item_count]\n"
                .to_string()
        ]
    );
}

#[test]
fn missing_term_argument_is_an_error() {
    let en = locale(
        "en-US",
        "locales/en-US.ftl",
        "-variable-inside = Inside { $hey }\ngreet = Hello, { $name } { -variable-inside }!\n",
    );
    let e = validate_locales(&vec![en], "en-US", &vec![]).err().unwrap();
    assert_eq!(
        e,
        vec![
            "Missing argument 'hey' in call to term '-variable-inside' in message 'greet' for locale 'en-US'\n --> locales/en-US.ftl:2:28-43\n  |\n2 | greet = Hello, { $name } { -variable-inside }!\n  |                            ^^^^^^^^^^^^^^^^ Missing argument 'hey'\n"
                .to_string()
        ]
    );
}

#[test]
fn circular_dependency_is_an_error() {
    let en = locale("en-US", "locales/en-US.ftl", "-a = { -b }\n-b = { -a }\n");
    let e = validate_locales(&vec![en], "en-US", &vec![]).err().unwrap();
    assert_eq!(
        e,
        vec![
            "Circular dependency detected in locale 'en-US'\n --> locales/en-US.ftl\n  |\n1 | -a = { -b }\n2 | -b = { -a }\n  |\n  = cycle: -a -> -b -> -a\n"
                .to_string()
        ]
    );
}

#[test]
fn missing_default_locale_is_an_error() {
    let en = locale("en-US", "locales/en-US.ftl", "hello = Hi\n");
    let e = validate_locales(&vec![en], "fr", &vec![]).err().unwrap();
    assert_eq!(
        e,
        vec!["Default locale 'fr' not found in locales directory. Available locales: [en-US]".to_string()]
    );
}

#[test]
fn missing_translations_are_warnings() {
    let en = locale("en-US", "locales/en-US.ftl", "hello = Hi\nbye = Bye\n");
    let de = locale("de-DE", "locales/de-DE.ftl", "hello = Hallo\n");
    let w = validate_locales(&vec![de, en], "en-US", &vec![]).ok().unwrap();
    assert_eq!(
        w,
        vec![
            "Locale 'de-DE' is missing translation for key 'bye' (defined in default locale 'en-US'). At runtime this key will fall back to 'en-US'."
                .to_string()
        ]
    );
}

#[test]
fn custom_functions_may_be_called() {
    let upper = CustomFunction { rust_ident: "upper".to_string(), fluent_name: "UPPER".to_string(), param_count: 1 };
    let en = locale("en-US", "locales/en-US.ftl", "greet = Hello, { UPPER($name) }!\n");
    assert!(validate_locales(&vec![en], "en-US", &vec![upper]).is_ok());
    let en = locale("en-US", "locales/en-US.ftl", "greet = Hello, { SHOUT($name) }!\n");
    assert!(validate_locales(&vec![en], "en-US", &vec![]).is_err());
}

#[test]
fn cycles_are_found_once_each() {
    let c = detect_cycles(&vec![vec![1], vec![0]]);
    assert_eq!(c, vec![vec![0, 1, 0]]);
    let c = detect_cycles(&vec![vec![1], vec![2], vec![]]);
    assert!(c.is_empty());
    let c = detect_cycles(&vec![vec![0]]);
    assert_eq!(c, vec![vec![0, 0]]);
}

#[test]
fn span_errors_quote_the_line() {
    let r = format_span_error("f.ftl", "a = 1\nb = { x }\n", 12, 13, "Header", "here");
    assert_eq!(r, "Header\n --> f.ftl:2:7\n  |\n2 | b = { x }\n  |       ^ here\n");
    let r = format_span_error("f.ftl", "abc def", 4, 7, "H", "l");
    assert_eq!(r, "H\n --> f.ftl:1:5-7\n  |\n1 | abc def\n  |     ^^^ l\n");
}

#[test]
fn snippets_with_notes() {
    let r = format_snippet_and_notes("f.ftl", 9, "m = { $a }\n    { $b }", &vec!["$a".to_string()], &vec!["$b".to_string()]);
    assert_eq!(
        r,
        "  --> f.ftl:9\n   |\n 9 | m = { $a }\n10 |     { $b }\n   |\n   = expected: [$a]\n   = found:    [$b]\n"
    );
}

#[test]
fn cycle_reports_without_entries() {
    let r = format_cycle_error("en-US", &vec!["-a".to_string(), "-a".to_string()], &Vec::<CycleEntryInfo>::new());
    assert_eq!(r, "Circular dependency detected in locale 'en-US'\n= cycle: -a -> -a\n");
}

#[test]
fn void_is_a_builtin_function() {
    let en = locale("en-US", "locales/en-US.ftl", "void-var = { VOID($gender) ->\n    [male] He\n   *[other] They\n}\n");
    assert!(validate_locales(&vec![en], "en-US", &vec![]).is_ok());
}

#[test]
fn cycles_come_in_search_order() {
    // a -> b, b -> c, b -> a, c -> a: the search from `a` closes a -> b -> c first.
    let c = detect_cycles(&vec![vec![1], vec![2, 0], vec![0]]);
    assert_eq!(c, vec![vec![0, 1, 2, 0], vec![0, 1, 0]]);
}
