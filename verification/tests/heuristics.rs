use alignator::heuristics::{
    apply_double_oomph_weight, apply_echo_pause_check, apply_elastic_end_sustain,
    apply_rapid_comma_emphasis, apply_step_strider_fallback, apply_word_warden_cap,
    calculate_comma_cadence_pause, calculate_punctuation_pause, calculate_span_sizer_duration,
    decompose_batchimbound,
};
use alignator::language::get_default_english_heuristics;
use alignator::ratio::Ratio;
use alignator::tempo::{apply_gap_glide_estimation, apply_gap_sentry_check, calculate_echo_echo_similarity};

#[test]
fn comma_cadence_is_half_the_tempo_between_80_and_250() {
    assert_eq!(calculate_comma_cadence_pause(Ratio::new(100, 1)), 80);
    assert_eq!(calculate_comma_cadence_pause(Ratio::new(1000, 1)), 250);
    assert_eq!(calculate_comma_cadence_pause(Ratio::new(321, 1)), 160);
    assert_eq!(calculate_comma_cadence_pause(Ratio::new(400, 1)), 200);
}

#[test]
fn punctuation_pause_by_ending() {
    let t = Ratio::new(320, 1);
    assert_eq!(calculate_punctuation_pause("wait...", t), 350);
    assert_eq!(calculate_punctuation_pause("end.", t), 300);
    assert_eq!(calculate_punctuation_pause("hey!", t), 300);
    assert_eq!(calculate_punctuation_pause("why?", t), 300);
    assert_eq!(calculate_punctuation_pause("so,", t), 160);
    assert_eq!(calculate_punctuation_pause("so;", t), 160);
    assert_eq!(calculate_punctuation_pause("so:", t), 160);
    assert_eq!(calculate_punctuation_pause("word", t), 0);
    assert_eq!(calculate_punctuation_pause("", t), 0);
}

#[test]
fn span_sizer_bounds_the_active_span() {
    assert_eq!(calculate_span_sizer_duration(3, 1234), 1011);
    assert_eq!(calculate_span_sizer_duration(1, 100), 300);
    assert_eq!(calculate_span_sizer_duration(2, 10_000), 1800);
    assert_eq!(calculate_span_sizer_duration(4, 2000), 1640);
}

#[test]
fn word_warden_caps_long_words_spans() {
    assert_eq!(apply_word_warden_cap("hi", 0, 1000), 330);
    assert_eq!(apply_word_warden_cap("hi", 0, 200), 200);
    assert_eq!(apply_word_warden_cap("extraordinarily", 100, 5000), 950);
}

#[test]
fn step_strider_estimates_the_last_boundary() {
    let hd = get_default_english_heuristics();
    assert_eq!(apply_step_strider_fallback("a", 1000, &hd), 1375);
    assert_eq!(apply_step_strider_fallback("strong", 0, &hd), 1035);
    assert_eq!(apply_step_strider_fallback("stop", 0, &hd), 600);
    assert_eq!(apply_step_strider_fallback("stoppingstoppingstop", 0, &hd), 1200);
}

#[test]
fn echo_pause_compares_cleaned_words() {
    assert!(apply_echo_pause_check("I,", "i"));
    assert!(apply_echo_pause_check("Love", "love!"));
    assert!(!apply_echo_pause_check("I-I", "I"));
    assert!(!apply_echo_pause_check("...", "..."));
    assert!(!apply_echo_pause_check("", "a"));
}

#[test]
fn echo_pause_ignores_only_case_and_punctuation() {
    assert!(apply_echo_pause_check("I", "I,"));
    assert!(apply_echo_pause_check("사랑", "사랑"));
    assert!(apply_echo_pause_check("ありがとう!", "ありがとう"));
    assert!(apply_echo_pause_check("Café", "CAFÉ"));
    assert!(!apply_echo_pause_check("Bang-bang", "bang"));
    assert!(!apply_echo_pause_check("사랑", "사람"));
}

#[test]
fn double_oomph_boosts_words_starting_with_the_prefix() {
    assert_eq!(apply_double_oomph_weight("OOze", 4, "oo"), 5);
    assert_eq!(apply_double_oomph_weight("ooh", 3, "OO"), 4);
    assert_eq!(apply_double_oomph_weight("ze", 4, "oo"), 4);
}

#[test]
fn rapid_comma_looks_three_words_ahead() {
    assert_eq!(apply_rapid_comma_emphasis("up,", &["up,", "pull", "up,"], 0, 10), 13);
    assert_eq!(apply_rapid_comma_emphasis("up", &["up", "pull", "up,"], 0, 10), 10);
    assert_eq!(apply_rapid_comma_emphasis("a,", &["a,", "b", "c", "d", "e,"], 0, 10), 10);
    assert_eq!(apply_rapid_comma_emphasis("a,", &["a,", "b", "c", "d,"], 0, 10), 13);
}

#[test]
fn elastic_end_by_last_sound() {
    let hd = get_default_english_heuristics();
    assert_eq!(apply_elastic_end_sustain("go!", true, &hd), 125);
    assert_eq!(apply_elastic_end_sustain("go", false, &hd), 100);
    assert_eq!(apply_elastic_end_sustain("stop", true, &hd), 100);
    assert_eq!(apply_elastic_end_sustain("sing", true, &hd), 115);
    assert_eq!(apply_elastic_end_sustain("FREE", true, &hd), 140);
    assert_eq!(apply_elastic_end_sustain("", true, &hd), 100);
}

#[test]
fn batchimbound_decomposes_hangul() {
    assert_eq!(decompose_batchimbound('한'), Some(('ㅎ', 'ㅏ', Some('ㄴ'))));
    assert_eq!(decompose_batchimbound('가'), Some(('ㄱ', 'ㅏ', None)));
    assert_eq!(decompose_batchimbound('a'), None);
}

#[test]
fn gap_sentry_and_glide() {
    assert!(!apply_gap_sentry_check(6000, 0));
    assert!(apply_gap_sentry_check(8000, 7000));
    assert!(!apply_gap_sentry_check(8000, 7001));
    let hd = get_default_english_heuristics();
    let t = Ratio::new(320, 1);
    assert_eq!(apply_gap_glide_estimation("Hello world", 8000, t, &hd.syllables.vowels), 2500);
    assert_eq!(
        apply_gap_glide_estimation("Hello world hello world hello world", 20_000, t, &hd.syllables.vowels),
        3680
    );
    assert_eq!(
        apply_gap_glide_estimation("Hello world hello world hello world", 5000, t, &hd.syllables.vowels),
        3000
    );
}

#[test]
fn echo_echo_similarity_is_one_minus_relative_distance() {
    let s = calculate_echo_echo_similarity("kitten", "sitting");
    assert_eq!((s.num, s.den), (4, 7));
    let same = calculate_echo_echo_similarity("", "");
    assert_eq!((same.num, same.den), (1, 1));
}
