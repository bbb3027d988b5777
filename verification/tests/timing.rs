use alignator::ratio::Ratio;
use alignator::{heuristics, parse_lrc, WordInfo};

#[test]
fn test_python_beta_timing_fixture() {
    let lrc = "[00:00.00] Odd, tiny, commas, bloom...\n[00:03.40] <00:03.50> go <00:04.00> go";
    let lines = parse_lrc(lrc, "en");

    assert_eq!(lines.len(), 2);
    assert_eq!(lines[0].timestamp_ms, 0);
    assert_eq!(lines[0].singing_duration_ms, 3400);
    assert_eq!(
        lines[0].words,
        vec![
            WordInfo {
                word: "Odd,".to_string(),
                start_ms: 0,
                end_ms: 288,
            },
            WordInfo {
                word: "tiny,".to_string(),
                start_ms: 491,
                end_ms: 972,
            },
            WordInfo {
                word: "commas,".to_string(),
                start_ms: 1175,
                end_ms: 1752,
            },
            WordInfo {
                word: "bloom...".to_string(),
                start_ms: 1955,
                end_ms: 2436,
            },
        ]
    );
    assert_eq!(
        lines[1].words,
        vec![
            WordInfo {
                word: "go".to_string(),
                start_ms: 3500,
                end_ms: 3830,
            },
            WordInfo {
                word: "go".to_string(),
                start_ms: 4000,
                end_ms: 4330,
            },
        ]
    );
}

#[test]
fn test_python_beta_truncation_helpers() {
    assert_eq!(heuristics::calculate_comma_cadence_pause(Ratio::new(3219, 10)), 160);
    assert_eq!(heuristics::calculate_span_sizer_duration(3, 1234), 1011);
    assert_eq!(heuristics::apply_double_oomph_weight("oooo", 4, "oo"), 5);
    assert_eq!(
        heuristics::apply_rapid_comma_emphasis("a,", &["a,", "b", "c,"], 0, 1),
        1
    );
}

#[test]
fn test_python_beta_gap_glide_fixture() {
    let lines = parse_lrc("[00:00.00] Hello world\n[00:08.00] Next line", "en");

    assert_eq!(lines.len(), 2);
    assert!(lines[0].is_gap_next);
    assert_eq!(lines[0].singing_duration_ms, 2500);
    assert_eq!(
        lines[0].words,
        vec![
            WordInfo {
                word: "Hello".to_string(),
                start_ms: 0,
                end_ms: 900,
            },
            WordInfo {
                word: "world".to_string(),
                start_ms: 900,
                end_ms: 1800,
            },
        ]
    );
    assert!(!lines[1].is_gap_next);
    assert_eq!(lines[1].singing_duration_ms, 5000);
}

#[test]
fn test_python_beta_braced_split_fixture() {
    let lines = parse_lrc(
        "[00:00.00] Lead (backing voice) tail\n[00:04.00] Next",
        "en",
    );

    assert_eq!(lines.len(), 3);
    assert_eq!(lines[0].timestamp_ms, 0);
    assert_eq!(lines[0].text, "Lead tail");
    assert!(!lines[0].is_right_aligned);
    assert_eq!(lines[1].timestamp_ms, 656);
    assert_eq!(lines[1].text, "(backing voice)");
    assert!(lines[1].is_right_aligned);
    assert_eq!(lines[1].braced_text.as_deref(), Some("(backing voice)"));
    assert_eq!(
        lines[1].words,
        vec![
            WordInfo {
                word: "(backing".to_string(),
                start_ms: 656,
                end_ms: 1804,
            },
            WordInfo {
                word: "voice)".to_string(),
                start_ms: 1804,
                end_ms: 2624,
            },
        ]
    );
}

#[test]
fn test_python_beta_accented_latin_weighting_fixture() {
    let lines = parse_lrc("[00:00.00] Café naïve ooze\n[00:03.00] Next", "en");

    assert_eq!(lines.len(), 2);
    assert_eq!(
        lines[0].words,
        vec![
            WordInfo {
                word: "Café".to_string(),
                start_ms: 0,
                end_ms: 656,
            },
            WordInfo {
                word: "naïve".to_string(),
                start_ms: 656,
                end_ms: 1476,
            },
            WordInfo {
                word: "ooze".to_string(),
                start_ms: 1476,
                end_ms: 2460,
            },
        ]
    );
}

#[test]
fn test_echoecho_and_flextrack_heuristics() {
    let lrc = "\
[00:00.00] Hello world hello world
[00:04.00] Hello world hello world
[00:15.00] Fast fast fast fast fast fast
[00:17.00] Next";
    let lines = parse_lrc(lrc, "en");

    assert_eq!(lines[1].text, "Hello world hello world");
    assert!(lines[1].is_gap_next);
    assert!(lines[1].singing_duration_ms > 4000 && lines[1].singing_duration_ms < 4150);

    let lrc_flextrack = "\
[00:00.00] Hello world hello world hello world hello world hello
[00:01.00] Next line";
    let lines_flextrack = parse_lrc(lrc_flextrack, "en");

    let words = &lines_flextrack[0].words;
    let duration = words[words.len() - 1].end_ms - words[0].start_ms;
    assert_eq!(duration, 2291);

    let lrc_slow = "\
[00:00.00] Slow slow slow slow slow slow
[00:05.00] Slow slow slow slow slow slow
[00:06.00] Next line";
    let lines_slow = parse_lrc(lrc_slow, "en");
    let words_slow = &lines_slow[1].words;
    let duration_slow = words_slow[words_slow.len() - 1].end_ms - words_slow[0].start_ms;
    assert_eq!(duration_slow, 1260);
}
