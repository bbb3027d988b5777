use alignator::formatters::{
    format_ms_to_lrc, format_ms_to_ttml, to_apple_music_ttml, to_enhanced_lrc, to_spotify_lyrics,
    ttml_times_ok,
};
use alignator::parser::parse_timestamp_ms;
use alignator::{Line, WordInfo};

fn line_at(ts: i32, text: &str, words: Vec<WordInfo>) -> Line {
    Line {
        timestamp_ms: ts,
        text: text.to_string(),
        words,
        is_right_aligned: false,
        braced_text: None,
        singing_duration_ms: 1000,
        is_gap_next: false,
    }
}

#[test]
fn ttml_times() {
    assert_eq!(format_ms_to_ttml(0), "00:00:00.000");
    assert_eq!(format_ms_to_ttml(3_723_004), "01:02:03.004");
    assert_eq!(format_ms_to_ttml(-1500), "00:00:-1.-500");
    assert_eq!(format_ms_to_ttml(-5), "00:00:00.-05");
    assert_eq!(format_ms_to_ttml(360_000_000), "100:00:00.000");
}

#[test]
fn lrc_times() {
    assert_eq!(format_ms_to_lrc(61_990), "01:01.99");
    assert_eq!(format_ms_to_lrc(6_000_000), "100:00.00");
    assert_eq!(format_ms_to_lrc(-1500), "00:-1.-50");
    assert_eq!(format_ms_to_lrc(9), "00:00.00");
}

#[test]
fn empty_documents() {
    assert_eq!(to_enhanced_lrc(&[]), "");
    let xml = to_apple_music_ttml(&[]);
    assert!(xml.starts_with("<?xml version=\"1.0\" encoding=\"utf-8\"?>\n<tt "));
    assert!(xml.ends_with("    <div>\n    </div>\n  </body>\n</tt>\n"));
}

#[test]
fn enhanced_lrc_of_several_lines() {
    let lines = vec![
        line_at(1000, "a", vec![WordInfo { word: "a".to_string(), start_ms: 1000, end_ms: 1200 }]),
        line_at(62_000, "", vec![]),
    ];
    assert_eq!(to_enhanced_lrc(&lines), "[00:01.00] <00:01.00>a\n[01:02.00]\n");
}

#[test]
fn ttml_times_that_overflow_are_detected() {
    let ok = line_at(0, "x", vec![WordInfo { word: "x".to_string(), start_ms: 0, end_ms: 10 }]);
    assert!(ttml_times_ok(&[ok]));
    let bad = line_at(i32::MIN, "x", vec![WordInfo { word: "x".to_string(), start_ms: i32::MAX, end_ms: i32::MAX }]);
    assert!(!ttml_times_ok(&[bad]));
    let mut late = line_at(i32::MAX, "", vec![]);
    late.singing_duration_ms = 1;
    assert!(!ttml_times_ok(&[late]));
}

#[test]
fn spotify_lyrics_structure() {
    let lines = vec![line_at(
        10_000,
        "Hello & world",
        vec![
            WordInfo { word: "Hello".to_string(), start_ms: 10_000, end_ms: 10_500 },
            WordInfo { word: "&".to_string(), start_ms: 10_500, end_ms: 10_700 },
        ],
    )];
    let lyrics = to_spotify_lyrics(&lines);
    assert_eq!(lyrics.lines.len(), 1);
    assert_eq!(lyrics.lines[0].start_time_ms, "10000");
    assert_eq!(lyrics.lines[0].words, "Hello & world");
    assert_eq!(lyrics.lines[0].syllables.len(), 2);
    assert_eq!(lyrics.lines[0].syllables[1].text, "&");
    assert_eq!(lyrics.lines[0].syllables[1].start_time_ms, 10_500);
    assert_eq!(lyrics.lines[0].syllables[1].end_time_ms, 10_700);
    let neg = to_spotify_lyrics(&[line_at(-42, "", vec![])]);
    assert_eq!(neg.lines[0].start_time_ms, "-42");
}

#[test]
fn lrc_times_read_back_to_the_centisecond() {
    for ms in [0, 9, 61_997, 3_599_999, 6_000_000, 359_999_999] {
        assert_eq!(parse_timestamp_ms(&format_ms_to_lrc(ms)), Some(ms - ms % 10));
    }
}

#[test]
fn escaped_words_hold_no_markup() {
    let l = line_at(0, "x", vec![WordInfo { word: "a<b>'c\"&".to_string(), start_ms: 0, end_ms: 5 }]);
    let xml = to_apple_music_ttml(&[l]);
    let start = xml.find("\">a").unwrap() + 2;
    let end = xml[start..].find("</span>").unwrap() + start;
    let text = &xml[start..end];
    assert_eq!(text, "a&lt;b&gt;&apos;c&quot;&amp;");
    assert!(!text.contains('<') && !text.contains('>') && !text.contains('"') && !text.contains('\''));
}
