use alignator::heuristics;
use alignator::language::{self, get_default_english_heuristics, get_japanese_heuristics, get_korean_heuristics};
use alignator::parser;

#[test]
fn test_moracore_japanese_mora_counting() {
    let hd = language::resolve_heuristics("japanese");

    let syllables_kyo = parser::split_into_syllables("きょう", &hd.syllables.vowels);
    assert_eq!(syllables_kyo, vec!["きょ", "う"]);
    assert_eq!(parser::count_line_syllables("きょう", &hd.syllables.vowels), 2);

    let syllables_ari = parser::split_into_syllables("ありがとう", &hd.syllables.vowels);
    assert_eq!(syllables_ari, vec!["あ", "り", "が", "と", "う"]);
    assert_eq!(parser::count_line_syllables("ありがとう", &hd.syllables.vowels), 5);

    let syllables_ram = parser::split_into_syllables("ラーメン", &hd.syllables.vowels);
    assert_eq!(syllables_ram, vec!["ラ", "ー", "メ", "ン"]);
    assert_eq!(parser::count_line_syllables("ラーメン", &hd.syllables.vowels), 4);
}

#[test]
fn test_batchimbound_korean_syllable_counting() {
    let hd = language::resolve_heuristics("korean");

    let syllables_hello = parser::split_into_syllables("안녕하세요", &hd.syllables.vowels);
    assert_eq!(syllables_hello, vec!["안", "녕", "하", "세", "요"]);
    assert_eq!(parser::count_line_syllables("안녕하세요", &hd.syllables.vowels), 5);

    let syllables_sarang = parser::split_into_syllables("사랑", &hd.syllables.vowels);
    assert_eq!(syllables_sarang, vec!["사", "랑"]);
    assert_eq!(parser::count_line_syllables("사랑", &hd.syllables.vowels), 2);
}

#[test]
fn test_moracore_japanese_lrc_line_splitting() {
    let lines = alignator::parse_lrc("[00:10.00]蒼い、蒼い、あの空", "japanese");
    assert_eq!(lines.len(), 1);
    let line = &lines[0];
    assert_eq!(line.text, "蒼い、蒼い、あの空");

    assert_eq!(line.words.len(), 7);
    assert_eq!(line.words[0].word, "蒼");
    assert_eq!(line.words[1].word, "い、");
    assert_eq!(line.words[2].word, "蒼");
    assert_eq!(line.words[3].word, "い、");
    assert_eq!(line.words[4].word, "あ");
    assert_eq!(line.words[5].word, "の");
    assert_eq!(line.words[6].word, "空");
}

#[test]
fn test_moracore_japanese_elastic_end_sustain() {
    let hd = language::resolve_heuristics("japanese");

    // "う" is a vowel: vowel sustain, 125 %.
    assert_eq!(heuristics::apply_elastic_end_sustain("ありがとう", true, &hd), 125);

    // "ン" is a sonorant: sonorant sustain, 115 %.
    assert_eq!(heuristics::apply_elastic_end_sustain("ラーメン", true, &hd), 115);
}

#[test]
fn test_batchimbound_korean_elastic_end_sustain() {
    let hd = language::resolve_heuristics("korean");

    // "요" ends in the diphthong "ㅛ": diphthong sustain, 140 %.
    assert_eq!(heuristics::apply_elastic_end_sustain("안녕하세요", true, &hd), 140);

    // "가" ends in the vowel "ㅏ": vowel sustain, 125 %.
    assert_eq!(heuristics::apply_elastic_end_sustain("가", true, &hd), 125);

    // "랑" ends in the batchim "ㅇ": sonorant sustain, 115 %.
    assert_eq!(heuristics::apply_elastic_end_sustain("사랑", true, &hd), 115);
}

#[test]
fn locale_modes_pick_the_built_in_languages() {
    assert_eq!(language::resolve_heuristics("ko-KR"), get_korean_heuristics());
    assert_eq!(language::resolve_heuristics("ja"), get_japanese_heuristics());
    assert_eq!(language::resolve_heuristics("korean"), get_korean_heuristics());
    assert_ne!(get_korean_heuristics(), get_default_english_heuristics());
    assert_eq!(language::resolve_heuristics("fr"), get_default_english_heuristics());
}

#[test]
fn auto_mode_gives_each_line_its_language() {
    let lrc = "[00:00.00]hello world\n[00:04.00]사랑 사랑\n[00:08.00]end";
    let auto = alignator::parse_lrc(lrc, "auto");
    assert_eq!(auto.len(), 3);
    assert_eq!(auto[1].text, "사랑 사랑");
    assert_eq!(auto[1].words.len(), 2);
    assert_eq!(language::detect_language("사랑 사랑"), "korean");
    let table = language::embedded_languages();
    assert_eq!(alignator::lrc::parse_lrc_in(&table, lrc, "auto"), auto);
    assert_eq!(
        alignator::lrc::parse_lrc_in(&table, lrc, "ko-KR"),
        alignator::parse_lrc(lrc, "korean")
    );
}
