use alignator::language::{
    detect_language, get_default_english_heuristics, normalize_language_mode, resolve_heuristics,
    strip_json_comments,
};

#[test]
fn language_modes_normalise() {
    assert_eq!(normalize_language_mode("  English-GB "), "en_gb");
    assert_eq!(normalize_language_mode("ES"), "spanish");
    assert_eq!(normalize_language_mode("pt-BR"), "portuguese_br");
    assert_eq!(normalize_language_mode("xx-YY"), "xx_yy");
    assert_eq!(normalize_language_mode("eng"), "en");
}

#[test]
fn unknown_languages_fall_back_to_english() {
    assert_eq!(resolve_heuristics("klingon"), get_default_english_heuristics());
    assert_eq!(resolve_heuristics("EN"), get_default_english_heuristics());
}

#[test]
fn english_heuristics_defaults() {
    let hd = get_default_english_heuristics();
    assert_eq!(hd.double_oomph_prefix, "oo");
    assert_eq!(hd.elastic_end.vowels, vec!["a", "e", "i", "o", "u", "y"]);
    assert_eq!(hd.elastic_end.special_sonorant_endings, vec!["ng"]);
}

#[test]
fn empty_text_is_english() {
    assert_eq!(detect_language(""), "en");
}

#[test]
fn comments_are_cut_line_by_line() {
    assert_eq!(strip_json_comments("{\"a\": 1} // note\n\"x//y\""), "{\"a\": 1} \n\"x\n");
    assert_eq!(strip_json_comments(""), "");
    assert_eq!(strip_json_comments("a/b\r\n"), "a/b\n");
}

fn table_with_russian() -> Vec<alignator::language::LanguageEntry> {
    let mut ru = get_default_english_heuristics();
    ru.syllables.vowels = "аеиоуыэюяё".to_string();
    vec![
        alignator::language::LanguageEntry { name: "en".to_string(), data: get_default_english_heuristics() },
        alignator::language::LanguageEntry { name: "russian".to_string(), data: ru },
    ]
}

#[test]
fn mixed_scripts_go_to_the_best_scoring_language() {
    let table = table_with_russian();
    assert_eq!(alignator::language::detect_language_in(&table, "Hello мир"), "russian");
    assert_eq!(alignator::language::detect_language_in(&table, "Hello world"), "en");
}

#[test]
fn resolution_uses_a_given_table() {
    let table = table_with_russian();
    let ru = alignator::language::resolve_heuristics_in(&table, "ru-RU");
    assert_eq!(ru.syllables.vowels, "аеиоуыэюяё");
    let fallback = alignator::language::resolve_heuristics_in(&table, "fr");
    assert_eq!(fallback, get_default_english_heuristics());
}
