use xliff_strings::xliff::{RawBody, RawFile, RawTransUnit, RawXliff};
use xliff_strings::{EntryOutcome, StringFiles, XliffError};

fn raw_doc(target_language: &str, id: &str, source: &str) -> RawXliff {
    RawXliff {
        version: "1.2".to_string(),
        xmln: "urn:oasis:names:tc:xliff:document:1.2".to_string(),
        file: RawFile {
            original: "strings".to_string(),
            source_language: "en".to_string(),
            target_language: target_language.to_string(),
            datatype: "plaintext".to_string(),
            body: RawBody {
                trans_unit: vec![RawTransUnit {
                    id: id.to_string(),
                    source: source.to_string(),
                    target: None,
                }],
            },
        },
    }
}

fn loaded(locale: &str, doc: RawXliff) -> EntryOutcome {
    EntryOutcome::Loaded {
        locale: locale.to_string(),
        document: doc,
    }
}

#[test]
fn two_locales_load_into_two_documents() {
    let outcomes = vec![
        loaded("en", raw_doc("en", "GREETING", "Hello %1")),
        loaded("fr", raw_doc("fr", "GREETING", "Bonjour %1")),
    ];
    let bundle = StringFiles::from_scan(Ok(outcomes)).unwrap();
    assert_eq!(bundle.len(), 2);

    let en = bundle.get("en").unwrap();
    let units = en.translation_units();
    assert_eq!(units.len(), 1);
    assert_eq!(units[0].id, "GREETING");
    assert_eq!(units[0].source.format_string, "Hello {arg_1}");
    assert!(units[0].target.is_none());

    let fr = bundle.get("fr").unwrap();
    assert_eq!(fr.translation_units()[0].id, "GREETING");
    assert_eq!(fr.translation_units()[0].source.format_string, "Bonjour {arg_1}");

    assert!(bundle.get("de").is_none());
}

#[test]
fn missing_file_fails_whole_load() {
    let outcomes = vec![
        loaded("en", raw_doc("en", "GREETING", "Hello %1")),
        EntryOutcome::OpenFailed {
            locale: "fr".to_string(),
            message: "No such file or directory".to_string(),
        },
    ];
    let err = StringFiles::from_scan(Ok(outcomes)).unwrap_err();
    match err {
        XliffError::CouldNotOpenFile { locale, .. } => assert_eq!(locale, "fr"),
        other => panic!("expected CouldNotOpenFile, got {:?}", other),
    }
}

#[test]
fn plain_file_under_root_fails_whole_load() {
    let outcomes = vec![
        loaded("en", raw_doc("en", "GREETING", "Hello %1")),
        EntryOutcome::NotADirectory {
            path: "strings/readme.txt".to_string(),
        },
        loaded("fr", raw_doc("fr", "GREETING", "Bonjour %1")),
    ];
    let err = StringFiles::from_scan(Ok(outcomes)).unwrap_err();
    match err {
        XliffError::NotADirectory { path } => assert_eq!(path, "strings/readme.txt"),
        other => panic!("expected NotADirectory, got {:?}", other),
    }
}

#[test]
fn unreadable_root_fails() {
    let err = StringFiles::from_scan(Err("permission denied".to_string())).unwrap_err();
    match err {
        XliffError::CouldNotReadRoot { message } => assert_eq!(message, "permission denied"),
        other => panic!("expected CouldNotReadRoot, got {:?}", other),
    }
}

#[test]
fn invalid_directory_name_fails() {
    let outcomes = vec![EntryOutcome::InvalidName {
        name: "fr\u{fffd}".to_string(),
    }];
    let err = StringFiles::from_scan(Ok(outcomes)).unwrap_err();
    assert!(matches!(err, XliffError::InvalidLocaleName { .. }));
}

#[test]
fn malformed_document_fails() {
    let outcomes = vec![EntryOutcome::ParseFailed {
        locale: "en".to_string(),
        message: "missing field `source-language`".to_string(),
    }];
    let err = StringFiles::from_scan(Ok(outcomes)).unwrap_err();
    match err {
        XliffError::Deserialize { locale, .. } => assert_eq!(locale, "en"),
        other => panic!("expected Deserialize, got {:?}", other),
    }
}

#[test]
fn first_failure_wins() {
    let outcomes = vec![
        EntryOutcome::OpenFailed {
            locale: "en".to_string(),
            message: "gone".to_string(),
        },
        EntryOutcome::NotADirectory {
            path: "strings/readme.txt".to_string(),
        },
    ];
    let err = StringFiles::from_scan(Ok(outcomes)).unwrap_err();
    assert!(matches!(err, XliffError::CouldNotOpenFile { .. }));
}

#[test]
fn empty_root_gives_empty_bundle() {
    let bundle = StringFiles::from_scan(Ok(vec![])).unwrap();
    assert_eq!(bundle.len(), 0);
}

#[test]
fn repeated_locale_keeps_the_last_document() {
    let outcomes = vec![
        loaded("en", raw_doc("en", "GREETING", "Hello %1")),
        loaded("en", raw_doc("en", "FAREWELL", "Bye %1")),
    ];
    let bundle = StringFiles::from_scan(Ok(outcomes)).unwrap();
    assert_eq!(bundle.len(), 1);
    let en = bundle.get("en").unwrap();
    assert_eq!(en.translation_units()[0].id, "FAREWELL");
    assert_eq!(en.translation_units()[0].source.format_string, "Bye {arg_1}");
}

#[test]
fn metadata_and_target_are_carried_through() {
    let mut doc = raw_doc("de", "GREETING", "Hello %1");
    doc.file.body.trans_unit[0].target = Some("Hallo %1".to_string());
    let bundle = StringFiles::from_scan(Ok(vec![loaded("de", doc)])).unwrap();
    let de = bundle.get("de").unwrap();
    assert_eq!(de.version, "1.2");
    assert_eq!(de.xmln, "urn:oasis:names:tc:xliff:document:1.2");
    assert_eq!(de.file.original, "strings");
    assert_eq!(de.file.source_language, "en");
    assert_eq!(de.file.target_language, "de");
    assert_eq!(de.file.datatype, "plaintext");
    let unit = &de.translation_units()[0];
    let target = unit.target.as_ref().unwrap();
    assert_eq!(target.format_string, "Hallo {arg_1}");
    assert_eq!(target.sections, vec!["Hallo ".to_string(), "".to_string()]);
}
