use ply_locales::custom::{register_custom_functions, FnSignature};
use ply_locales::manifest::{resolve_fluent_bundle_source, BundleSource};
use ply_locales::codegen::{available_locale_ids, file_uri, message_doc, param_idents};
use ply_locales::ast_util::parse_locale;
use ply_locales::loader::{LocaleFile, LocaleFiles, LocalesData};

fn sig(name: &str, has_receiver: bool, param_count: usize) -> FnSignature {
    FnSignature { name: name.to_string(), has_receiver, param_count }
}

#[test]
fn functions_register_under_upper_case_names() {
    let cs = register_custom_functions(&vec![sig("upper", false, 1), sig("add", false, 2)]).ok().unwrap();
    let names: Vec<(&str, &str, usize)> =
        cs.iter().map(|c| (c.rust_ident.as_str(), c.fluent_name.as_str(), c.param_count)).collect();
    assert_eq!(names, vec![("add", "ADD", 2), ("upper", "UPPER", 1)]);
}

#[test]
fn registration_errors() {
    let e = register_custom_functions(&vec![sig("upper", false, 1), sig("method", true, 1)]).err().unwrap();
    assert_eq!(e.item, 1);
    assert!(e.at_receiver);
    assert_eq!(e.message, "Custom Fluent functions cannot have a 'self' parameter");
    let e = register_custom_functions(&vec![sig("number", false, 1)]).err().unwrap();
    assert!(!e.at_receiver);
    assert_eq!(e.message, "Cannot define custom function 'number': 'NUMBER' is a built-in Fluent function");
    let e = register_custom_functions(&vec![sig("shout", false, 1), sig("Shout", false, 1)]).err().unwrap();
    assert_eq!(e.item, 1);
    assert_eq!(e.message, "Duplicate Fluent function name 'SHOUT' for Rust functions 'shout' and 'Shout'");
}

#[test]
fn bundle_source_from_manifest() {
    assert!(matches!(resolve_fluent_bundle_source(None), Ok(BundleSource::FluentBundle)));
    assert!(matches!(resolve_fluent_bundle_source(Some("not [ toml")), Ok(BundleSource::FluentBundle)));
    let with = "[dependencies]\nply-engine = { version = \"1\", features = [\"locales\"] }\n";
    assert!(matches!(resolve_fluent_bundle_source(Some(with)), Ok(BundleSource::PlyEngine)));
    let without = "[dependencies]\nply_engine = \"1\"\n";
    let e = resolve_fluent_bundle_source(Some(without)).err().unwrap();
    assert!(e.starts_with("ply-engine was found in dependencies, but the 'locales' feature is not enabled."));
    let other = "[dependencies]\nserde = \"1\"\n";
    assert!(matches!(resolve_fluent_bundle_source(Some(other)), Ok(BundleSource::FluentBundle)));
}

#[test]
fn documentation_of_messages() {
    assert_eq!(file_uri("/m/locales/en.ftl", 3), "file:///m/locales/en.ftl#L3");
    assert_eq!(file_uri("C:\\m\\en.ftl", 1), "file:///C:/m/en.ftl#L1");
    let files = vec![LocaleFile { path: "locales/en-US.ftl".to_string(), content: "a = 1\nhello = Hi\n".to_string() }];
    let l = parse_locale(&files).ok().unwrap();
    let hello = &l.messages[1];
    assert_eq!(
        message_doc(hello, "/m"),
        "```fluent\nhello = Hi\n```\n[locales/en-US.ftl:2](file:///m/locales/en-US.ftl#L2)"
    );
}

#[test]
fn parameter_names_and_locale_ids() {
    assert_eq!(param_idents(&vec!["order-id".to_string(), "type".to_string()]), vec!["order_id".to_string(), "r#type".to_string()]);
    let d = LocalesData {
        locales: vec![
            LocaleFiles { id: "de-DE".to_string(), files: vec![] },
            LocaleFiles { id: "en-US".to_string(), files: vec![] },
        ],
        locales_dir: "/m/locales".to_string(),
    };
    assert_eq!(available_locale_ids(&d), vec!["de-DE".to_string(), "en-US".to_string()]);
}
