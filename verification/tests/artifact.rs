use i18n_table::artifact::{compile, Artifact};
use i18n_table::errors::{CompileError, LookupError};
use i18n_table::locale::normalize_locale;
use i18n_table::raw::{RawDocument, Scalar, TopValue};
use i18n_table::table::build;

fn compiled(text: &str, fallback: &str) -> Artifact {
    compile(text, fallback).expect("resource should compile")
}

#[test]
fn scenario_region_and_fallback() {
    let a = compiled("greeting:\n  en: Hello\n  fr: Bonjour\n", "en");
    assert_eq!(a.translate("greeting", "fr-CA").unwrap(), "Bonjour");
    assert_eq!(a.translate("greeting", "de").unwrap(), "Hello");
}

#[test]
fn scenario_missing_translation() {
    let a = compiled("greeting:\n  en: Hello\n", "fr");
    let err = a.translate("greeting", "de").unwrap_err();
    assert_eq!(
        err,
        LookupError::TranslationMissing {
            key: String::from("greeting"),
            locale: String::from("de"),
            fallback: String::from("fr"),
        }
    );
}

#[test]
fn scenario_metadata_key_excluded() {
    let a = compiled("_meta:\n  version: 1\ngreeting:\n  en: Hello\n", "en");
    assert_eq!(a.translate("greeting", "en").unwrap(), "Hello");
    let err = a.translate("_meta", "en").unwrap_err();
    assert_eq!(err, LookupError::UnknownKey { key: String::from("_meta") });
}

#[test]
fn scenario_locales_sorted_union() {
    let a = compiled(
        "greeting:\n  en: Hello\n  fr: Bonjour\nfarewell:\n  en: Bye\n  de: Tschuess\n",
        "en",
    );
    let locales: Vec<&str> = a.available_locales().iter().map(|s| s.as_str()).collect();
    assert_eq!(locales, vec!["de", "en", "fr"]);
}

#[test]
fn normalization_takes_base_language() {
    assert_eq!(normalize_locale("en-US"), "en");
    assert_eq!(normalize_locale("fr-CA"), "fr");
    assert_eq!(normalize_locale("en"), "en");
    assert_eq!(normalize_locale(""), "");
    assert_eq!(normalize_locale("zh-Hant-TW"), "zh");
    assert_eq!(normalize_locale("-odd"), "");
}

#[test]
fn exact_match_wins_over_fallback() {
    let a = compiled("greeting:\n  en: Hello\n  de: Hallo\n", "en");
    assert_eq!(a.translate("greeting", "de-AT").unwrap(), "Hallo");
    assert_eq!(a.translate("greeting", "de").unwrap(), "Hallo");
}

#[test]
fn malformed_text_is_rejected() {
    assert_eq!(
        compile("greeting: [unclosed", "en").unwrap_err(),
        CompileError::MalformedResource
    );
}

#[test]
fn duplicate_document_keys_are_rejected() {
    assert_eq!(
        compile("greeting:\n  en: Hello\ngreeting:\n  en: Hi\n", "en").unwrap_err(),
        CompileError::MalformedResource
    );
}

#[test]
fn non_mapping_root_is_rejected() {
    assert_eq!(
        compile("- just\n- a\n- list\n", "en").unwrap_err(),
        CompileError::TopLevelShapeError
    );
    assert_eq!(compile("hello", "en").unwrap_err(), CompileError::TopLevelShapeError);
}

#[test]
fn non_string_entries_are_dropped() {
    let a = compiled("greeting:\n  en: Hello\n  version: 2\n  3: numeric\n", "en");
    let locales: Vec<&str> = a.available_locales().iter().map(|s| s.as_str()).collect();
    assert_eq!(locales, vec!["en"]);
    assert_eq!(a.translate("greeting", "en").unwrap(), "Hello");
}

#[test]
fn non_mapping_section_is_dropped() {
    let a = compiled("greeting: plain text\nfarewell:\n  en: Bye\n", "en");
    assert_eq!(
        a.translate("greeting", "en").unwrap_err(),
        LookupError::UnknownKey { key: String::from("greeting") }
    );
    assert_eq!(a.translate("farewell", "en").unwrap(), "Bye");
}

#[test]
fn empty_section_is_dropped() {
    let a = compiled("greeting: {}\nfarewell:\n  en: Bye\n", "en");
    assert_eq!(
        a.translate("greeting", "en").unwrap_err(),
        LookupError::UnknownKey { key: String::from("greeting") }
    );
}

#[test]
fn key_dispatch_is_exact_and_case_sensitive() {
    let a = compiled("Greeting:\n  en: Hello\n", "en");
    assert_eq!(a.translate("Greeting", "en").unwrap(), "Hello");
    assert_eq!(
        a.translate("greeting", "en").unwrap_err(),
        LookupError::UnknownKey { key: String::from("greeting") }
    );
}

#[test]
fn fallback_locale_is_exposed() {
    let a = compiled("greeting:\n  en: Hello\n", "en-GB");
    assert_eq!(a.fallback_locale().as_str(), "en-GB");
}

#[test]
fn fallback_is_not_normalized_on_lookup() {
    // The fallback entry is matched under the exact fallback code.
    let a = compiled("greeting:\n  en-GB: Hullo\n  fr: Bonjour\n", "en-GB");
    assert_eq!(a.translate("greeting", "de").unwrap(), "Hullo");
    // A requested locale is normalized before matching, so "en-GB" itself
    // looks for "en" first and then falls back.
    assert_eq!(a.translate("greeting", "en-GB").unwrap(), "Hullo");
}

#[test]
fn compiling_twice_is_idempotent() {
    let text = "greeting:\n  en: Hello\n  fr: Bonjour\nfarewell:\n  de: Tschuess\n";
    let a = compiled(text, "en");
    let b = compiled(text, "en");
    assert_eq!(a.available_locales(), b.available_locales());
    assert_eq!(a.fallback_locale().as_str(), b.fallback_locale().as_str());
    for key in ["greeting", "farewell", "absent"] {
        for locale in ["en", "en-US", "fr", "de", "pt"] {
            assert_eq!(a.translate(key, locale), b.translate(key, locale));
        }
    }
}

#[test]
fn builder_keeps_last_entry_of_a_repeated_key() {
    // serde_yaml rejects a repeated mapping key outright, so a duplicate can
    // only reach the builder in a hand-made document; the builder keeps the
    // later entry, in the earlier entry's position.
    let doc = RawDocument::Mapping(vec![
        (
            Scalar::Text(String::from("greeting")),
            TopValue::Section(vec![(
                Scalar::Text(String::from("en")),
                Scalar::Text(String::from("Hello")),
            )]),
        ),
        (
            Scalar::Text(String::from("greeting")),
            TopValue::Section(vec![(
                Scalar::Text(String::from("en")),
                Scalar::Text(String::from("Hi")),
            )]),
        ),
    ]);
    let (table, _locales) = build(&doc).expect("a mapping root should build");
    assert_eq!(table.keys.len(), 1);
    assert_eq!(table.keys[0].key, "greeting");
    assert_eq!(table.keys[0].entries.len(), 1);
    assert_eq!(table.keys[0].entries[0].text, "Hi");
}

#[test]
fn builder_keeps_last_entry_of_a_repeated_locale() {
    let doc = RawDocument::Mapping(vec![(
        Scalar::Text(String::from("greeting")),
        TopValue::Section(vec![
            (Scalar::Text(String::from("en")), Scalar::Text(String::from("Hello"))),
            (Scalar::Text(String::from("fr")), Scalar::Text(String::from("Bonjour"))),
            (Scalar::Text(String::from("en")), Scalar::Text(String::from("Hi"))),
        ]),
    )]);
    let (table, _locales) = build(&doc).expect("a mapping root should build");
    assert_eq!(table.keys[0].entries.len(), 2);
    assert_eq!(table.keys[0].entries[0].locale, "en");
    assert_eq!(table.keys[0].entries[0].text, "Hi");
    assert_eq!(table.keys[0].entries[1].locale, "fr");
}

#[test]
fn empty_key_is_dropped() {
    let a = compiled("\"\":\n  en: Hello\nfarewell:\n  en: Bye\n", "en");
    assert_eq!(
        a.translate("", "en").unwrap_err(),
        LookupError::UnknownKey { key: String::new() }
    );
    assert_eq!(a.translate("farewell", "en").unwrap(), "Bye");
}
