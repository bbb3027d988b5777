use alignator::formatters::{to_apple_music_ttml, to_enhanced_lrc};
use alignator::{Line, WordInfo};

fn sample_line() -> Line {
    Line {
        timestamp_ms: 10_000,
        text: "Hello & world".to_string(),
        words: vec![
            WordInfo {
                word: "Hello".to_string(),
                start_ms: 10_000,
                end_ms: 10_500,
            },
            WordInfo {
                word: "&".to_string(),
                start_ms: 10_500,
                end_ms: 10_700,
            },
            WordInfo {
                word: "world".to_string(),
                start_ms: 10_700,
                end_ms: 11_200,
            },
        ],
        is_right_aligned: false,
        braced_text: None,
        singing_duration_ms: 1_200,
        is_gap_next: false,
    }
}

#[test]
fn ttml_uses_absolute_paragraph_and_relative_span_timing() {
    let xml = to_apple_music_ttml(&[sample_line()]);

    assert!(xml.contains("<p begin=\"00:00:10.000\" end=\"00:00:11.200\">"));
    assert!(xml.contains("<span begin=\"00:00:00.000\" end=\"00:00:00.500\">Hello</span>"));
    assert!(xml.contains("<span begin=\"00:00:00.500\" end=\"00:00:00.700\">&amp;</span>"));
}

#[test]
fn enhanced_lrc_keeps_absolute_word_timing() {
    let lrc = to_enhanced_lrc(&[sample_line()]);

    assert_eq!(
        lrc,
        "[00:10.00] <00:10.00>Hello <00:10.50>& <00:10.70>world\n"
    );
}

#[test]
fn ttml_escapes_all_xml_sensitive_word_text() {
    let mut line = sample_line();
    line.text = "<tag> \"quote\" 'apos' &".to_string();
    line.words = vec![WordInfo {
        word: "<tag>\"'&".to_string(),
        start_ms: 10_000,
        end_ms: 10_500,
    }];

    let xml = to_apple_music_ttml(&[line]);

    assert!(xml.contains("&lt;tag&gt;&quot;&apos;&amp;"));
}

#[test]
fn ttml_empty_line_uses_singing_duration_for_end() {
    let mut line = sample_line();
    line.text = String::new();
    line.words.clear();
    line.singing_duration_ms = 2_345;

    let xml = to_apple_music_ttml(&[line]);

    assert!(xml.contains("<p begin=\"00:00:10.000\" end=\"00:00:12.345\">"));
}
