use alignator::parser::{
    clean_whitespace, count_line_syllables, find_word_tags, is_batchimbound_syllable,
    is_moracore_kana, is_moracore_mora_extender, is_moracore_non_starter, parse_timestamp_ms,
    split_into_syllables,
};
use alignator::lrc::try_parse_lrc;
use alignator::source::parse_lrc_source_line;

#[test]
fn timestamps_in_their_forms() {
    assert_eq!(parse_timestamp_ms("01:02.5"), Some(62_500));
    assert_eq!(parse_timestamp_ms("01:02.05"), Some(62_050));
    assert_eq!(parse_timestamp_ms("01:02.1234"), Some(62_123));
    assert_eq!(parse_timestamp_ms(" 00:01 "), Some(1000));
    assert_eq!(parse_timestamp_ms("00:01."), Some(1000));
    assert_eq!(parse_timestamp_ms("35791:23.647"), Some(i32::MAX));
}

#[test]
fn malformed_timestamps_are_none() {
    assert_eq!(parse_timestamp_ms("00:01.x"), None);
    assert_eq!(parse_timestamp_ms("1:2:3"), None);
    assert_eq!(parse_timestamp_ms("00:01.2.3"), None);
    assert_eq!(parse_timestamp_ms("abc"), None);
    assert_eq!(parse_timestamp_ms(""), None);
    assert_eq!(parse_timestamp_ms("35791:23.648"), None);
}

#[test]
fn word_tags_are_found_at_byte_offsets() {
    let tags = find_word_tags("é<00:01.00>x<bad>y<00:02.5>");
    assert_eq!(tags.len(), 2);
    assert_eq!((tags[0].start_idx, tags[0].end_idx, tags[0].timestamp_ms), (2, 12, 1000));
    assert_eq!((tags[1].start_idx, tags[1].end_idx, tags[1].timestamp_ms), (19, 28, 2500));
    assert!(find_word_tags("no tags <here").is_empty());
}

#[test]
fn whitespace_is_trimmed_and_collapsed() {
    assert_eq!(clean_whitespace("  a   b\t c "), "a b c");
    assert_eq!(clean_whitespace("   "), "");
}

#[test]
fn character_classes() {
    assert!(is_moracore_kana('あ'));
    assert!(is_moracore_kana('カ'));
    assert!(!is_moracore_kana('a'));
    assert!(is_moracore_non_starter('ゃ'));
    assert!(!is_moracore_non_starter('や'));
    assert!(is_moracore_mora_extender('ー'));
    assert!(is_batchimbound_syllable('한'));
    assert!(!is_batchimbound_syllable('ㅎ'));
}

#[test]
fn latin_syllables() {
    let v = "aeiouyAEIOUY";
    assert_eq!(split_into_syllables("hello", v), vec!["hel", "lo"]);
    assert_eq!(split_into_syllables("banana", v), vec!["ba", "na", "na"]);
    assert_eq!(split_into_syllables("strong", v), vec!["strong"]);
    for w in ["elephant", "rhythm", "beautiful", "a"] {
        assert_eq!(split_into_syllables(w, v).concat(), w);
    }
    assert_eq!(count_line_syllables("Hello world", v), 3);
    assert_eq!(count_line_syllables("<00:01.00>banana!", v), 3);
    assert_eq!(count_line_syllables("...", v), 1);
}

#[test]
fn source_lines_expand_their_timestamps() {
    let ls = parse_lrc_source_line("[00:01.00][bad][00:02.00] text ");
    assert_eq!(ls.len(), 2);
    assert_eq!((ls[0].timestamp_ms, ls[0].text.as_str()), (1000, "text"));
    assert_eq!((ls[1].timestamp_ms, ls[1].text.as_str()), (2000, "text"));
    let spaced = parse_lrc_source_line("  [00:01.00]  spaced  ");
    assert_eq!((spaced[0].timestamp_ms, spaced[0].text.as_str()), (1000, "spaced"));
}

#[test]
fn source_lines_without_timestamps_give_nothing() {
    assert!(parse_lrc_source_line("[00:01.00").is_empty());
    assert!(parse_lrc_source_line("text [00:01.00]").is_empty());
    assert!(parse_lrc_source_line("[ar:Artist]").is_empty());
    assert!(parse_lrc_source_line("").is_empty());
}

#[test]
fn the_aligner_refuses_only_times_past_i32() {
    assert!(try_parse_lrc("[00:01.00]x\n[00:02.00]<00:02.50>y", "en").is_some());
    assert_eq!(try_parse_lrc("", "en"), Some(Vec::new()));
    let late = try_parse_lrc("[35790:00.00]word", "en").expect("fits in i32");
    assert_eq!(late[0].timestamp_ms, 2_147_400_000);
    assert!(late[0].words[0].end_ms > 2_147_400_000);
    assert_eq!(try_parse_lrc("[35791:23.00]word", "en"), None);
    assert_eq!(try_parse_lrc("[00:01.00]<35791:23.64>x", "en"), None);
}
