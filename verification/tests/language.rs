use alignator::language;

#[test]
fn test_locale_language_modes_resolve_to_base_heuristics() {
    assert_eq!(
        language::resolve_heuristics("en-US"),
        language::resolve_heuristics("en")
    );
    assert_eq!(
        language::resolve_heuristics("es-MX"),
        language::resolve_heuristics("spanish")
    );
    assert_eq!(
        language::resolve_heuristics("pt-BR"),
        language::resolve_heuristics("portuguese")
    );
}

#[test]
fn test_auto_detection_is_stable_for_plain_english() {
    for _ in 0..100 {
        assert_eq!(
            language::detect_language("Hello world, this is a plain English lyric."),
            "en"
        );
    }
}

#[test]
fn test_auto_detection_for_japanese_and_korean() {
    assert_eq!(language::detect_language("ありがとう"), "japanese");
    assert_eq!(language::detect_language("ね"), "japanese");
    assert_eq!(language::detect_language("안녕하세요"), "korean");
    assert_eq!(language::detect_language("사랑"), "korean");
}

fn entry(name: &str, vowels: &str) -> language::LanguageEntry {
    let mut data = language::get_default_english_heuristics();
    data.syllables.vowels = vowels.to_string();
    language::LanguageEntry { name: name.to_string(), data }
}

// Spanish and Portuguese are not built in, so locale modes are checked
// against a table that holds them.
#[test]
fn locale_modes_resolve_to_base_languages_of_a_table() {
    let table = vec![entry("en", "aeiouy"), entry("spanish", "aeiouáéíóú"), entry("portuguese", "aeiouãõ")];
    let es = language::resolve_heuristics_in(&table, "es-MX");
    assert_eq!(es, language::resolve_heuristics_in(&table, "spanish"));
    assert_eq!(es.syllables.vowels, "aeiouáéíóú");
    let pt = language::resolve_heuristics_in(&table, "pt-BR");
    assert_eq!(pt, language::resolve_heuristics_in(&table, "portuguese"));
    assert_eq!(pt.syllables.vowels, "aeiouãõ");
    assert_eq!(language::resolve_heuristics_in(&table, "en-US").syllables.vowels, "aeiouy");
}
