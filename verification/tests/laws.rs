use alignator::language::get_default_english_heuristics;
use alignator::ratio::Ratio;
use alignator::heuristics::decompose_batchimbound;
use alignator::parser::count_line_syllables;
use alignator::tempo::{apply_flextrack_compression, calculate_echo_echo_similarity, levenshtein_distance};
use alignator::{parse_line_to_words, parse_lrc, split_line_if_braced, Line, ParsedLrcLine, RateRider, WordInfo};

fn is_timeline(ws: &[WordInfo]) -> bool {
    ws.iter().all(|w| w.start_ms <= w.end_ms) && ws.windows(2).all(|p| p[0].start_ms <= p[1].start_ms)
}

fn word(w: &str, s: i32, e: i32) -> WordInfo {
    WordInfo { word: w.to_string(), start_ms: s, end_ms: e }
}

#[test]
fn lines_come_out_in_order_of_time() {
    let lrc = "[00:09.00]Third\n[00:01.00]First\n[00:05.00]Second\n[00:05.00]Second again";
    let lines = parse_lrc(lrc, "en");
    let stamps: Vec<i32> = lines.iter().map(|l| l.timestamp_ms).collect();
    assert_eq!(stamps, vec![1000, 5000, 5000, 9000]);
    assert_eq!(lines[1].text, "Second");
    assert_eq!(lines[2].text, "Second again");
}

#[test]
fn each_timed_line_gives_one_or_two_lines() {
    let lrc = "[00:00.00] Lead (backing voice) tail\n[00:04.00] Next\n[00:06.00][00:07.00] Twice";
    let lines = parse_lrc(lrc, "en");
    assert_eq!(lines.len(), 5);
    let lrc = "[00:00.00] one\n[00:02.00] two";
    assert_eq!(parse_lrc(lrc, "en").len(), 2);
}

#[test]
fn every_aligned_line_is_a_timeline() {
    let lrc = "[00:00.00] Odd, tiny, commas, bloom...\n[00:03.40] <00:03.50> go <00:04.00> go\n\
               [00:05.00] <00:06.00> late <00:05.50> early words\n[00:07.00] I I love love you";
    for line in parse_lrc(lrc, "auto") {
        assert!(is_timeline(&line.words), "{:?}", line);
    }
}

#[test]
fn untagged_words_do_not_overlap() {
    let hd = get_default_english_heuristics();
    let words = parse_line_to_words(1000, "Hello, hello world... again", 4000, Ratio::new(320, 1), &hd);
    assert_eq!(
        words,
        vec![
            word("Hello,", 1000, 1667),
            word("hello", 1927, 2594),
            word("world...", 2594, 3261),
            word("again", 3611, 4278),
        ]
    );
    assert!(is_timeline(&words));
    for p in words.windows(2) {
        assert!(p[0].end_ms <= p[1].start_ms);
    }
    assert_eq!(words[0].start_ms, 1000);
}

#[test]
fn tagged_words_are_sorted_by_start() {
    let hd = get_default_english_heuristics();
    let words = parse_line_to_words(0, "<00:02.00> b <00:01.00> a", 3000, Ratio::new(320, 1), &hd);
    assert_eq!(words.len(), 2);
    assert_eq!(words, vec![word("a", 1000, 1265), word("b", 2000, 2100)]);
    assert!(is_timeline(&words));
}

#[test]
fn echo_pause_leaves_a_gap_before_a_repeated_tagged_word() {
    let hd = get_default_english_heuristics();
    let words = parse_line_to_words(0, "<00:00.00> hello <00:00.20> hello", 1000, Ratio::new(320, 1), &hd);
    assert_eq!(words, vec![word("hello", 0, 100), word("hello", 200, 725)]);
}

#[test]
fn flextrack_ends_at_the_deadline_when_the_tempo_allows() {
    let mut words = vec![word("a", 0, 500), word("b", 500, 1000)];
    apply_flextrack_compression(&mut words, 1000, 0, Ratio::new(320, 1));
    assert_eq!(words[0].start_ms, 0);
    assert_eq!(words[1].end_ms, 850);
    assert!(is_timeline(&words));
}

#[test]
fn flextrack_stops_at_the_least_allowed_length() {
    let mut words = vec![word("a", 0, 1000), word("b", 1000, 2000)];
    apply_flextrack_compression(&mut words, 400, 0, Ratio::new(100, 1));
    assert_eq!(words[0].start_ms, 0);
    assert_eq!(words[1].end_ms, 1700);
    let mut slow = vec![word("a", 0, 1000), word("b", 1000, 2000)];
    apply_flextrack_compression(&mut slow, 400, 0, Ratio::new(600, 1));
    assert_eq!(slow[1].end_ms, 1400);
}

#[test]
fn flextrack_leaves_lines_that_end_in_time() {
    let mut words = vec![word("a", 0, 500), word("b", 500, 800)];
    let before = words.clone();
    apply_flextrack_compression(&mut words, 1000, 0, Ratio::new(320, 1));
    assert_eq!(words, before);
}

#[test]
fn split_keeps_every_word() {
    let line = Line {
        timestamp_ms: 0,
        text: "a (b c) d".to_string(),
        words: vec![word("a", 0, 1), word("(b", 1, 2), word("c)", 2, 3), word("d", 3, 4)],
        is_right_aligned: false,
        braced_text: None,
        singing_duration_ms: 1234,
        is_gap_next: true,
    };
    let parts = split_line_if_braced(line);
    assert_eq!(parts.len(), 2);
    assert_eq!(parts[0].text, "a d");
    assert_eq!(parts[1].text, "(b c)");
    assert_eq!(parts[1].braced_text.as_deref(), Some("(b c)"));
    assert_eq!(parts[0].words.len() + parts[1].words.len(), 4);
    assert_eq!(parts[1].timestamp_ms, 1);
    for p in &parts {
        assert_eq!(p.singing_duration_ms, 1234);
        assert!(p.is_gap_next);
    }
}

#[test]
fn split_leaves_lines_without_backing_words() {
    let line = Line {
        timestamp_ms: 5,
        text: "(all backing)".to_string(),
        words: vec![word("(all", 5, 6), word("backing)", 6, 7)],
        is_right_aligned: false,
        braced_text: None,
        singing_duration_ms: 10,
        is_gap_next: false,
    };
    let parts = split_line_if_braced(line.clone());
    assert_eq!(parts, vec![line]);
}

#[test]
fn levenshtein_is_a_distance() {
    assert_eq!(levenshtein_distance("kitten", "sitting"), 3);
    assert_eq!(levenshtein_distance("sitting", "kitten"), 3);
    assert_eq!(levenshtein_distance("same", "same"), 0);
    assert_eq!(levenshtein_distance("", "abc"), 3);
    assert!(levenshtein_distance("flaw", "lawn") <= 4);
    assert!(levenshtein_distance("abcdef", "ab") >= 4);
}

#[test]
fn rate_rider_tempo_is_positive() {
    let hd = get_default_english_heuristics();
    let lines = vec![
        ParsedLrcLine { timestamp_ms: 0, text: "Hello world".to_string() },
        ParsedLrcLine { timestamp_ms: 2000, text: "Again now".to_string() },
        ParsedLrcLine { timestamp_ms: 4000, text: "End".to_string() },
    ];
    let rr = RateRider::new(&lines, &hd);
    assert!(rr.ms_per_syllable.num > 0);
    assert!(rr.ms_per_syllable.den > 0);
    assert_eq!(rr.ms_per_syllable.num * 2, rr.ms_per_syllable.den * 1093);
    let empty = RateRider::new(&[], &hd);
    assert_eq!((empty.ms_per_syllable.num, empty.ms_per_syllable.den), (320, 1));
    assert_eq!(empty.estimate_duration("Hello world", &hd.syllables.vowels), 960);
}

#[test]
fn edit_distance_obeys_the_triangle_inequality() {
    let words = ["kitten", "sitting", "mitten", "", "sit", "kit"];
    for a in words {
        for b in words {
            for c in words {
                assert!(levenshtein_distance(a, c) <= levenshtein_distance(a, b) + levenshtein_distance(b, c));
            }
        }
    }
    assert_eq!(levenshtein_distance("kitten", "sitting"), 3);
    assert_eq!(levenshtein_distance("kitten", "mitten") + levenshtein_distance("mitten", "sitting"), 4);
}

#[test]
fn similarity_is_a_symmetric_fraction_of_one() {
    let s = calculate_echo_echo_similarity("kitten", "sitting");
    assert_eq!(s, calculate_echo_echo_similarity("sitting", "kitten"));
    assert_eq!(s, Ratio::new(4, 7));
    assert_eq!(calculate_echo_echo_similarity("same", "same"), Ratio::new(4, 4));
    assert!(calculate_echo_echo_similarity("", "abc").num == 0);
}

#[test]
fn hangul_syllables_come_back_from_their_jamo() {
    let cho = ['ㄱ', 'ㄲ', 'ㄴ', 'ㄷ', 'ㄸ', 'ㄹ', 'ㅁ', 'ㅂ', 'ㅃ', 'ㅅ', 'ㅆ', 'ㅇ', 'ㅈ', 'ㅉ', 'ㅊ', 'ㅋ', 'ㅌ', 'ㅍ', 'ㅎ'];
    let jung = [
        'ㅏ', 'ㅐ', 'ㅑ', 'ㅒ', 'ㅓ', 'ㅔ', 'ㅕ', 'ㅖ', 'ㅗ', 'ㅘ', 'ㅙ', 'ㅚ', 'ㅛ', 'ㅜ', 'ㅝ', 'ㅞ', 'ㅟ', 'ㅠ', 'ㅡ', 'ㅢ', 'ㅣ',
    ];
    let jong = [
        'ㄱ', 'ㄲ', 'ㄳ', 'ㄴ', 'ㄵ', 'ㄶ', 'ㄷ', 'ㄹ', 'ㄺ', 'ㄻ', 'ㄼ', 'ㄽ', 'ㄾ', 'ㄿ', 'ㅀ', 'ㅁ', 'ㅂ', 'ㅄ', 'ㅅ', 'ㅆ',
        'ㅇ', 'ㅈ', 'ㅊ', 'ㅋ', 'ㅌ', 'ㅍ', 'ㅎ',
    ];
    for c in ['한', '가', '요', '랑', '힣'] {
        let (i, v, f) = decompose_batchimbound(c).expect("a Hangul syllable");
        let ci = cho.iter().position(|&x| x == i).unwrap() as u32;
        let ji = jung.iter().position(|&x| x == v).unwrap() as u32;
        let ki = match f {
            Some(k) => jong.iter().position(|&x| x == k).unwrap() as u32 + 1,
            None => 0,
        };
        assert_eq!(0xAC00 + 588 * ci + 28 * ji + ki, c as u32);
    }
    assert_eq!(decompose_batchimbound('한'), Some(('ㅎ', 'ㅏ', Some('ㄴ'))));
    assert_eq!(decompose_batchimbound('a'), None);
}

#[test]
fn syllable_counts_skip_tags_and_add_up() {
    let v = "aeiouy";
    assert_eq!(
        count_line_syllables("hello <00:01.00>beautiful world", v),
        count_line_syllables("hello beautiful world", v)
    );
    assert_eq!(
        count_line_syllables("hello beautiful world", v),
        count_line_syllables("hello", v) + count_line_syllables("beautiful world", v)
    );
    assert_eq!(
        count_line_syllables("hello <00:01.00> world", v),
        count_line_syllables("hello world", v)
    );
    assert_eq!(count_line_syllables("", v), 1);
}

#[test]
fn backing_lines_carry_their_braced_text() {
    let lrc = "[00:00.00] Lead (backing voice) tail\n[00:04.00] Next";
    for line in parse_lrc(lrc, "en") {
        assert_eq!(line.is_right_aligned, line.braced_text.is_some());
        if let Some(b) = &line.braced_text {
            assert_eq!(b, &line.text);
        }
    }
}
