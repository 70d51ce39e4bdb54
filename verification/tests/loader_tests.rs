use ply_locales::loader::parse_language_id;

#[test]
fn test_langid_parsing() {
    assert!(parse_language_id("en-US").is_ok());
    assert!(parse_language_id("nl-NL").is_ok());
    assert!(parse_language_id("es-ES").is_ok());
    assert!(parse_language_id("fr").is_ok());
    assert!(parse_language_id("123").is_err());
    assert!(parse_language_id("not_a_locale").is_err());
    assert!(parse_language_id("en_US").is_err());
    assert!(parse_language_id("invalid-language-code").is_err());
}

use ply_locales::loader::{
    lists_directory, load_locales, reads_locale_file, reads_sub_file, relative_path, skips_entry, EntryKind,
    LocalesEntry, LocalesListing, SubEntry, SubListing,
};

fn text(s: &str) -> Option<Result<String, String>> {
    Some(Ok(s.to_string()))
}

fn sub(name: &str, content: Option<Result<String, String>>) -> SubEntry {
    SubEntry { name: name.to_string(), path: format!("/m/locales/en-US/{name}"), is_file: true, content }
}

fn entry(name: &str, kind: EntryKind) -> LocalesEntry {
    LocalesEntry { name: name.to_string(), path: format!("/m/locales/{name}"), kind }
}

#[test]
fn language_id_errors() {
    assert_eq!(
        parse_language_id("en_US").err().unwrap(),
        "Language tags use hyphens ('-'), not underscores ('_')"
    );
    assert_eq!(parse_language_id("abcdefg").err().unwrap(), "Invalid language subtag 'abcdefg'");
    assert!(parse_language_id("zh-Hant-TW").is_ok());
}

#[test]
fn listing_failures() {
    let e = load_locales("locales", "/m/locales", "/m", &LocalesListing::Missing).err().unwrap();
    assert_eq!(e, vec!["Locales directory not found: /m/locales".to_string()]);
    let e = load_locales("locales", "/m/locales", "/m", &LocalesListing::NotADirectory).err().unwrap();
    assert_eq!(e, vec!["Locales path is not a directory: /m/locales".to_string()]);
    let e = load_locales("locales", "/m/locales", "/m", &LocalesListing::ReadFailed { error: "denied".to_string() })
        .err()
        .unwrap();
    assert_eq!(e, vec!["Failed to read locales directory '/m/locales': denied".to_string()]);
    let e = load_locales("locales", "/m/locales", "/m", &LocalesListing::Entries { entries: vec![] }).err().unwrap();
    assert_eq!(e, vec!["No valid Fluent (.ftl) locales found in '/m/locales'.".to_string()]);
}

#[test]
fn loads_directories_and_files_in_name_order() {
    let entries = vec![
        entry("en-US.ftl", EntryKind::File { content: text("extra = x\n") }),
        entry(".hidden", EntryKind::File { content: None }),
        entry(
            "en-US",
            EntryKind::Dir {
                listing: SubListing::Entries {
                    entries: vec![sub("b.ftl", text("b = 2\n")), sub("a.ftl", text("a = 1\n")), sub("notes.txt", None)],
                },
            },
        ),
        entry("de-DE.ftl", EntryKind::File { content: text("a = eins\n") }),
    ];
    let d = load_locales("locales", "/m/locales", "/m", &LocalesListing::Entries { entries }).ok().unwrap();
    assert_eq!(d.locales_dir, "/m/locales");
    let ids: Vec<&str> = d.locales.iter().map(|l| l.id.as_str()).collect();
    assert_eq!(ids, vec!["de-DE", "en-US"]);
    let en: Vec<&str> = d.locales[1].files.iter().map(|f| f.path.as_str()).collect();
    assert_eq!(en, vec!["locales/en-US/a.ftl", "locales/en-US/b.ftl", "locales/en-US.ftl"]);
    assert_eq!(d.locales[0].files[0].content, "a = eins\n");
}

#[test]
fn entry_errors_are_gathered() {
    let entries = vec![
        entry("readme.md", EntryKind::File { content: None }),
        entry("en_US", EntryKind::Dir { listing: SubListing::Entries { entries: vec![] } }),
        entry("fr", EntryKind::Dir { listing: SubListing::Entries { entries: vec![] } }),
        entry("de-DE.ftl", EntryKind::File { content: Some(Err("gone".to_string())) }),
    ];
    let e = load_locales("locales", "/m/locales", "/m", &LocalesListing::Entries { entries }).err().unwrap();
    assert_eq!(
        e,
        vec![
            "Failed to read file '/m/locales/de-DE.ftl': gone".to_string(),
            "Invalid language identifier in directory name 'en_US' in 'locales': Language tags use hyphens ('-'), not underscores ('_').".to_string(),
            "Locale directory '/m/locales/fr' contains no .ftl files.".to_string(),
            "Unexpected file 'readme.md' in locales directory 'locales'. Expected a .ftl file or a locale directory.".to_string(),
        ]
    );
}

#[test]
fn a_fatal_entry_stops_the_reading() {
    let entries = vec![
        entry("b_c.ftl", EntryKind::File { content: None }),
        entry("a", EntryKind::Unknown { error: "io".to_string() }),
    ];
    let e = load_locales("locales", "/m/locales", "/m", &LocalesListing::Entries { entries }).err().unwrap();
    assert_eq!(e, vec!["Failed to determine file type for '/m/locales/a': io".to_string()]);
    let entries = vec![entry("fr", EntryKind::Dir { listing: SubListing::ReadFailed { error: "no".to_string() } })];
    let e = load_locales("locales", "/m/locales", "/m", &LocalesListing::Entries { entries }).err().unwrap();
    assert_eq!(e, vec!["Failed to read subdirectory '/m/locales/fr': no".to_string()]);
}

#[test]
fn paths_relative_to_manifest() {
    assert_eq!(relative_path("/m/locales/en-US.ftl", "/m"), "locales/en-US.ftl");
    assert_eq!(relative_path("/other/en-US.ftl", "/m"), "/other/en-US.ftl");
}

#[test]
fn unreadable_entries_stop_the_reading() {
    let e = load_locales("locales", "/m/locales", "/m", &LocalesListing::EntryFailed { error: "bad".to_string() })
        .err()
        .unwrap();
    assert_eq!(e, vec!["Failed to read directory entry: bad".to_string()]);
    let entries = vec![entry("fr", EntryKind::Dir { listing: SubListing::EntryFailed { error: "bad".to_string() } })];
    let e = load_locales("locales", "/m/locales", "/m", &LocalesListing::Entries { entries }).err().unwrap();
    assert_eq!(e, vec!["Failed to read directory entry in '/m/locales/fr': bad".to_string()]);
}

#[test]
fn which_entries_are_read() {
    assert!(skips_entry(".git"));
    assert!(!skips_entry("en-US"));
    assert!(lists_directory("en-US"));
    assert!(!lists_directory("en_US"));
    assert!(!lists_directory(".en"));
    assert!(reads_locale_file("de-DE.ftl"));
    assert!(!reads_locale_file("de_DE.ftl"));
    assert!(!reads_locale_file("notes.txt"));
    assert!(reads_sub_file("main.ftl", true));
    assert!(!reads_sub_file("main.ftl", false));
    assert!(!reads_sub_file(".main.ftl", true));
}
