//! The timing heuristics applied word by word.
use vstd::prelude::*;
use crate::language::{HeuristicsData, HeuristicsView};
use crate::parser::{spec_split_syllables, split_syllables_vec};
use crate::ratio::{scale_pct, scale_pct_exec, Ratio};
use crate::text::{
    alphanumeric, append_chars, char_lowercase, chars_of, ends_with, ends_with_char,
    is_alphanumeric, lowercase_char, lowercase_str, seq_eq, starts_with, str_lowercase, string_of,
    sviews, vec_ends_with, vec_ends_with_char, vec_starts_with, vviews,
};

verus! {

// ---------------------------------------------------------------------------
// CommaCadence and punctuation pauses
// ---------------------------------------------------------------------------

/// Half the tempo, held between 80 and 250 ms (rounded down).
pub open spec fn spec_comma_cadence_pause(mps: Ratio) -> i32 {
    if mps.num < 160 * mps.den {
        80
    } else if mps.num > 500 * mps.den {
        250
    } else {
        (mps.num as int / (2 * mps.den as int)) as i32
    }
}

/// CommaCadence: the pause after a comma, half the tempo held between 80
/// and 250 ms.
pub fn calculate_comma_cadence_pause(ms_per_syllable: Ratio) -> (r: i32)
    requires
        ms_per_syllable.wf(),
    ensures
        r == spec_comma_cadence_pause(ms_per_syllable),
        80 <= r <= 250,
{
    let num = ms_per_syllable.num as i128;
    let den = ms_per_syllable.den as i128;
    if num < 160 * den {
        80
    } else if num > 500 * den {
        250
    } else {
        let q = num / (2 * den);
        proof {
            assert(q <= 250) by (nonlinear_arith)
                requires
                    q == num as int / (2 * den as int),
                    num <= 500 * den,
                    den > 0,
            ;
            assert(q >= 80) by (nonlinear_arith)
                requires
                    q == num as int / (2 * den as int),
                    num >= 160 * den,
                    den > 0,
            ;
        }
        q as i32
    }
}

pub open spec fn ellipsis() -> Seq<char> {
    seq!['.', '.', '.']
}

/// 350 ms after `"..."`, 300 ms after `.`, `!` or `?`, the comma cadence after
/// `,`, `;` or `:`, and none otherwise.
pub open spec fn spec_punctuation_pause(word: Seq<char>, mps: Ratio) -> i32 {
    if ends_with(word, ellipsis()) {
        350
    } else if ends_with_char(word, '.') || ends_with_char(word, '!') || ends_with_char(word, '?') {
        300
    } else if !(ends_with_char(word, ',') || ends_with_char(word, ';') || ends_with_char(
        word,
        ':',
    )) {
        0
    } else {
        spec_comma_cadence_pause(mps)
    }
}

pub fn punctuation_pause_vec(word: &Vec<char>, ms_per_syllable: Ratio) -> (r: i32)
    requires
        ms_per_syllable.wf(),
    ensures
        r == spec_punctuation_pause(word@, ms_per_syllable),
        0 <= r <= 350,
{
    let dots = vec!['.', '.', '.'];
    assert(dots@ =~= ellipsis());
    if vec_ends_with(word, &dots) {
        350
    } else if vec_ends_with_char(word, '.') || vec_ends_with_char(word, '!') || vec_ends_with_char(
        word,
        '?',
    ) {
        300
    } else if !(vec_ends_with_char(word, ',') || vec_ends_with_char(word, ';')
        || vec_ends_with_char(word, ':')) {
        0
    } else {
        calculate_comma_cadence_pause(ms_per_syllable)
    }
}

/// The pause that follows a word, by its final punctuation.
pub fn calculate_punctuation_pause(word: &str, ms_per_syllable: Ratio) -> (r: i32)
    requires
        ms_per_syllable.wf(),
    ensures
        r == spec_punctuation_pause(word@, ms_per_syllable),
{
    let w = chars_of(word);
    punctuation_pause_vec(&w, ms_per_syllable)
}

// ---------------------------------------------------------------------------
// BatchimBound
// ---------------------------------------------------------------------------

pub open spec fn choseong_table() -> Seq<char> {
    seq![
        'ㄱ', 'ㄲ', 'ㄴ', 'ㄷ', 'ㄸ', 'ㄹ', 'ㅁ', 'ㅂ', 'ㅃ', 'ㅅ', 'ㅆ', 'ㅇ', 'ㅈ', 'ㅉ', 'ㅊ', 'ㅋ',
        'ㅌ', 'ㅍ', 'ㅎ',
    ]
}

pub open spec fn jungseong_table() -> Seq<char> {
    seq![
        'ㅏ', 'ㅐ', 'ㅑ', 'ㅒ', 'ㅓ', 'ㅔ', 'ㅕ', 'ㅖ', 'ㅗ', 'ㅘ', 'ㅙ', 'ㅚ', 'ㅛ', 'ㅜ', 'ㅝ', 'ㅞ',
        'ㅟ', 'ㅠ', 'ㅡ', 'ㅢ', 'ㅣ',
    ]
}

pub open spec fn jongseong_table() -> Seq<char> {
    seq![
        '\0', 'ㄱ', 'ㄲ', 'ㄳ', 'ㄴ', 'ㄵ', 'ㄶ', 'ㄷ', 'ㄹ', 'ㄺ', 'ㄻ', 'ㄼ', 'ㄽ', 'ㄾ', 'ㄿ', 'ㅀ',
        'ㅁ', 'ㅂ', 'ㅄ', 'ㅅ', 'ㅆ', 'ㅇ', 'ㅈ', 'ㅊ', 'ㅋ', 'ㅌ', 'ㅍ', 'ㅎ',
    ]
}

/// A Hangul syllable split into its initial consonant, vowel and final
/// consonant (if any); `None` for any other character.
pub open spec fn spec_decompose_hangul(c: char) -> Option<(char, char, Option<char>)> {
    let cp = c as u32 as int;
    if !(0xAC00 <= cp <= 0xD7A3) {
        None
    } else {
        let idx = cp - 0xAC00;
        Some(
            (
                choseong_table()[idx / 588],
                jungseong_table()[(idx % 588) / 28],
                if idx % 28 > 0 {
                    Some(jongseong_table()[idx % 28])
                } else {
                    None
                },
            ),
        )
    }
}

/// The code point of the Hangul syllable made of the jamo at positions
/// `ci`, `ji` and `ki` of the three tables (`ki == 0`: no final consonant).
pub open spec fn hangul_code(ci: int, ji: int, ki: int) -> int {
    0xAC00 + 588 * ci + 28 * ji + ki
}

/// The jamo at positions `ci`, `ji` and `ki` of the three tables, as the
/// decomposition gives them.
pub open spec fn jamo_parts(ci: int, ji: int, ki: int) -> (char, char, Option<char>) {
    (
        choseong_table()[ci],
        jungseong_table()[ji],
        if ki > 0 {
            Some(jongseong_table()[ki])
        } else {
            None
        },
    )
}

pub open spec fn increasing(t: Seq<char>) -> bool {
    forall|i: int| 0 <= i < t.len() - 1 ==> (#[trigger] t[i] as u32) < (t[i + 1] as u32)
}

proof fn lemma_increasing_apart(t: Seq<char>, i: int, j: int)
    requires
        increasing(t),
        0 <= i < j < t.len(),
    ensures
        (t[i] as u32) < (t[j] as u32),
    decreases j - i,
{
    assert((t[j - 1] as u32) < (t[j] as u32));
    if i < j - 1 {
        lemma_increasing_apart(t, i, j - 1);
    }
}

proof fn lemma_jamo_tables_increasing()
    ensures
        increasing(choseong_table()),
        increasing(jungseong_table()),
        increasing(jongseong_table()),
{
}

/// BatchimBound decomposes exactly the Hangul syllables, each into the table
/// positions whose composition gives back its code point.
pub proof fn lemma_hangul_round_trip(c: char)
    ensures
        spec_decompose_hangul(c) is Some <==> 0xAC00 <= c as u32 <= 0xD7A3,
        spec_decompose_hangul(c) is Some ==> exists|ci: int, ji: int, ki: int|
            0 <= ci < choseong_table().len() && 0 <= ji < jungseong_table().len() && 0 <= ki
                < jongseong_table().len() && c as u32 == #[trigger] hangul_code(ci, ji, ki)
                && spec_decompose_hangul(c) == Some(jamo_parts(ci, ji, ki)),
{
    let cp = c as u32 as int;
    if 0xAC00 <= cp <= 0xD7A3 {
        let idx = cp - 0xAC00;
        let ci = idx / 588;
        let ji = (idx % 588) / 28;
        let ki = idx % 28;
        assert(idx == 588 * ci + 28 * ji + ki && 0 <= ci < 19 && 0 <= ji < 21 && 0 <= ki < 28) by (nonlinear_arith)
            requires
                0 <= idx <= 0xD7A3 - 0xAC00,
                ci == idx / 588,
                ji == (idx % 588) / 28,
                ki == idx % 28,
        ;
        assert(spec_decompose_hangul(c) == Some(jamo_parts(ci, ji, ki)));
        assert(c as u32 == hangul_code(ci, ji, ki));
    }
}

/// Decomposition loses nothing: two characters with the same Hangul
/// decomposition are the same syllable.
pub proof fn lemma_hangul_decomposition_injective(c1: char, c2: char)
    requires
        spec_decompose_hangul(c1) is Some,
        spec_decompose_hangul(c1) == spec_decompose_hangul(c2),
    ensures
        c1 == c2,
{
    lemma_hangul_round_trip(c1);
    lemma_hangul_round_trip(c2);
    lemma_jamo_tables_increasing();
    let (ci1, ji1, ki1) = choose|ci: int, ji: int, ki: int|
        0 <= ci < choseong_table().len() && 0 <= ji < jungseong_table().len() && 0 <= ki
            < jongseong_table().len() && c1 as u32 == #[trigger] hangul_code(ci, ji, ki)
            && spec_decompose_hangul(c1) == Some(jamo_parts(ci, ji, ki));
    let (ci2, ji2, ki2) = choose|ci: int, ji: int, ki: int|
        0 <= ci < choseong_table().len() && 0 <= ji < jungseong_table().len() && 0 <= ki
            < jongseong_table().len() && c2 as u32 == #[trigger] hangul_code(ci, ji, ki)
            && spec_decompose_hangul(c2) == Some(jamo_parts(ci, ji, ki));
    if ci1 != ci2 {
        if ci1 < ci2 {
            lemma_increasing_apart(choseong_table(), ci1, ci2);
        } else {
            lemma_increasing_apart(choseong_table(), ci2, ci1);
        }
    }
    if ji1 != ji2 {
        if ji1 < ji2 {
            lemma_increasing_apart(jungseong_table(), ji1, ji2);
        } else {
            lemma_increasing_apart(jungseong_table(), ji2, ji1);
        }
    }
    if ki1 != ki2 && ki1 > 0 && ki2 > 0 {
        if ki1 < ki2 {
            lemma_increasing_apart(jongseong_table(), ki1, ki2);
        } else {
            lemma_increasing_apart(jongseong_table(), ki2, ki1);
        }
    }
    assert(c1 as u32 == c2 as u32);
}

/// BatchimBound: splits a Hangul syllable into initial consonant, vowel and
/// final consonant (`None` when it has none); `None` for other characters.
pub fn decompose_batchimbound(c: char) -> (r: Option<(char, char, Option<char>)>)
    ensures
        r == spec_decompose_hangul(c),
{
    let cp = c as u32;
    if !(0xAC00 <= cp && cp <= 0xD7A3) {
        return None;
    }
    let syllable_index = cp - 0xAC00;
    let choseong_index = syllable_index / 588;
    let jungseong_index = (syllable_index % 588) / 28;
    let jongseong_index = syllable_index % 28;
    let choseongs: [char; 19] = [
        'ㄱ', 'ㄲ', 'ㄴ', 'ㄷ', 'ㄸ', 'ㄹ', 'ㅁ', 'ㅂ', 'ㅃ', 'ㅅ', 'ㅆ', 'ㅇ', 'ㅈ', 'ㅉ', 'ㅊ', 'ㅋ',
        'ㅌ', 'ㅍ', 'ㅎ',
    ];
    let jungseongs: [char; 21] = [
        'ㅏ', 'ㅐ', 'ㅑ', 'ㅒ', 'ㅓ', 'ㅔ', 'ㅕ', 'ㅖ', 'ㅗ', 'ㅘ', 'ㅙ', 'ㅚ', 'ㅛ', 'ㅜ', 'ㅝ', 'ㅞ',
        'ㅟ', 'ㅠ', 'ㅡ', 'ㅢ', 'ㅣ',
    ];
    let jongseongs: [char; 28] = [
        '\0', 'ㄱ', 'ㄲ', 'ㄳ', 'ㄴ', 'ㄵ', 'ㄶ', 'ㄷ', 'ㄹ', 'ㄺ', 'ㄻ', 'ㄼ', 'ㄽ', 'ㄾ', 'ㄿ', 'ㅀ',
        'ㅁ', 'ㅂ', 'ㅄ', 'ㅅ', 'ㅆ', 'ㅇ', 'ㅈ', 'ㅊ', 'ㅋ', 'ㅌ', 'ㅍ', 'ㅎ',
    ];
    assert(choseongs@ =~= choseong_table());
    assert(jungseongs@ =~= jungseong_table());
    assert(jongseongs@ =~= jongseong_table());
    let cho = choseongs[choseong_index as usize];
    let jung = jungseongs[jungseong_index as usize];
    let jong = if jongseong_index > 0 {
        Some(jongseongs[jongseong_index as usize])
    } else {
        None
    };
    Some((cho, jung, jong))
}

// ---------------------------------------------------------------------------
// ElasticEnd
// ---------------------------------------------------------------------------

/// Each character replaced by its lowercase form.
pub open spec fn lower_each(s: Seq<char>) -> Seq<char>
    decreases s.len(),
{
    if s.len() == 0 {
        Seq::empty()
    } else {
        lower_each(s.drop_last()) + char_lowercase(s.last())
    }
}

/// The alphanumeric characters of `s`.
pub open spec fn alnum_only(s: Seq<char>) -> Seq<char>
    decreases s.len(),
{
    if s.len() == 0 {
        Seq::empty()
    } else {
        let p = alnum_only(s.drop_last());
        if alphanumeric(s.last()) {
            p.push(s.last())
        } else {
            p
        }
    }
}

/// Some entry of `list`, lowercased, ends `s`.
pub open spec fn any_lower_suffix(list: Seq<Seq<char>>, s: Seq<char>) -> bool {
    exists|k: int| 0 <= k < list.len() && ends_with(s, str_lowercase(#[trigger] list[k]))
}

/// The sustain of a word that ends a line, in percent: 140 for a diphthong,
/// 125 for an open vowel, 115 for a sonorant, 100 otherwise; judged on the
/// last syllable (for Hangul, on the vowel and final consonant of the last
/// syllable block). Words that do not end a line get 100.
pub open spec fn spec_elastic_end_percent(word: Seq<char>, is_last_word: bool, hd: HeuristicsView) -> i32 {
    if !is_last_word {
        100
    } else {
        let syls = spec_split_syllables(word, hd.syllable_vowels);
        if syls.len() == 0 {
            100
        } else {
            let last_syl = syls.last();
            let last_char = if last_syl.len() > 0 {
                last_syl.last()
            } else {
                '\0'
            };
            match spec_decompose_hangul(last_char) {
                Some((_cho, jung, jong)) => match jong {
                    Some(j) => if hd.sonorants.contains(seq![j])
                        || hd.special_sonorant_endings.contains(seq![j]) {
                        115
                    } else {
                        100
                    },
                    None => if hd.diphthongs.contains(seq![jung]) {
                        140
                    } else if hd.vowels.contains(seq![jung]) {
                        125
                    } else {
                        100
                    },
                },
                None => {
                    let cleaned = alnum_only(lower_each(last_syl));
                    if cleaned.len() == 0 {
                        100
                    } else if any_lower_suffix(hd.diphthongs, cleaned) {
                        140
                    } else if any_lower_suffix(hd.vowels, cleaned) {
                        125
                    } else if any_lower_suffix(hd.sonorants, cleaned) || any_lower_suffix(
                        hd.special_sonorant_endings,
                        cleaned,
                    ) {
                        115
                    } else {
                        100
                    }
                },
            }
        }
    }
}

fn list_contains(list: &Vec<String>, x: &String) -> (r: bool)
    ensures
        r == sviews(list@).contains(x@),
{
    let mut i: usize = 0;
    while i < list.len()
        invariant
            i <= list.len(),
            forall|k: int| 0 <= k < i ==> (#[trigger] list@[k])@ != x@,
        decreases list.len() - i,
    {
        if list[i] == *x {
            assert(sviews(list@)[i as int] == x@);
            return true;
        }
        i = i + 1;
    }
    assert forall|k: int| 0 <= k < sviews(list@).len() implies sviews(list@)[k] != x@ by {
        assert(sviews(list@)[k] == list@[k]@);
    }
    false
}

fn string_of_char(c: char) -> (r: String)
    ensures
        r@ == seq![c],
{
    let mut s = String::new();
    crate::text::push_char(&mut s, c);
    assert(s@ =~= seq![c]);
    s
}

fn any_lower_suffix_exec(list: &Vec<String>, s: &Vec<char>) -> (r: bool)
    ensures
        r == any_lower_suffix(sviews(list@), s@),
{
    let mut i: usize = 0;
    while i < list.len()
        invariant
            i <= list.len(),
            forall|k: int| 0 <= k < i ==> !ends_with(s@, str_lowercase(#[trigger] sviews(list@)[k])),
        decreases list.len() - i,
    {
        let lower = lowercase_str(list[i].as_str());
        let lv = chars_of(lower.as_str());
        assert(sviews(list@)[i as int] == list@[i as int]@);
        if vec_ends_with(s, &lv) {
            return true;
        }
        i = i + 1;
    }
    false
}

fn lower_alnum_vec(s: &Vec<char>) -> (r: Vec<char>)
    ensures
        r@ == alnum_only(lower_each(s@)),
{
    let mut lowered: Vec<char> = Vec::new();
    let mut i: usize = 0;
    while i < s.len()
        invariant
            i <= s.len(),
            lowered@ == lower_each(s@.take(i as int)),
        decreases s.len() - i,
    {
        assert(s@.take(i + 1).drop_last() =~= s@.take(i as int));
        let l = lowercase_char(s[i]);
        append_chars(&mut lowered, &l);
        i = i + 1;
    }
    assert(s@.take(i as int) =~= s@);
    let mut out: Vec<char> = Vec::new();
    let mut j: usize = 0;
    while j < lowered.len()
        invariant
            j <= lowered.len(),
            out@ == alnum_only(lowered@.take(j as int)),
        decreases lowered.len() - j,
    {
        assert(lowered@.take(j + 1).drop_last() =~= lowered@.take(j as int));
        let c = lowered[j];
        if is_alphanumeric(c) {
            out.push(c);
        }
        j = j + 1;
    }
    assert(lowered@.take(j as int) =~= lowered@);
    out
}

pub proof fn lemma_alnum_only_len(s: Seq<char>)
    ensures
        alnum_only(s).len() <= s.len(),
    decreases s.len(),
{
    if s.len() > 0 {
        lemma_alnum_only_len(s.drop_last());
    }
}

pub proof fn lemma_elastic_end_range(word: Seq<char>, hd: HeuristicsView)
    ensures
        100 <= spec_elastic_end_percent(word, true, hd) <= 140,
{
}

pub proof fn lemma_punctuation_pause_range(word: Seq<char>, mps: Ratio)
    requires
        mps.wf(),
    ensures
        0 <= spec_punctuation_pause(word, mps) <= 350,
{
    if mps.num >= 160 * mps.den && mps.num <= 500 * mps.den {
        assert(mps.num as int / (2 * mps.den as int) <= 250) by (nonlinear_arith)
            requires
                mps.num <= 500 * mps.den,
                mps.den > 0,
        ;
        assert(mps.num as int / (2 * mps.den as int) >= 80) by (nonlinear_arith)
            requires
                mps.num >= 160 * mps.den,
                mps.den > 0,
        ;
    }
}

pub fn alnum_only_vec(s: &Vec<char>) -> (r: Vec<char>)
    ensures
        r@ == alnum_only(s@),
        r@.len() <= s@.len(),
{
    let mut out: Vec<char> = Vec::new();
    let mut j: usize = 0;
    while j < s.len()
        invariant
            j <= s.len(),
            out@ == alnum_only(s@.take(j as int)),
            out@.len() <= j,
        decreases s.len() - j,
    {
        assert(s@.take(j + 1).drop_last() =~= s@.take(j as int));
        let c = s[j];
        if is_alphanumeric(c) {
            out.push(c);
        }
        j = j + 1;
    }
    assert(s@.take(j as int) =~= s@);
    out
}

pub fn elastic_end_percent_vec(word: &Vec<char>, is_last_word: bool, hd: &HeuristicsData) -> (r: i32)
    ensures
        r == spec_elastic_end_percent(word@, is_last_word, hd@),
        r == 100 || r == 115 || r == 125 || r == 140,
{
    if !is_last_word {
        return 100;
    }
    let vowels = chars_of(hd.syllables.vowels.as_str());
    let syllables = split_syllables_vec(word, &vowels);
    if syllables.len() == 0 {
        return 100;
    }
    let last_syl = &syllables[syllables.len() - 1];
    assert(last_syl@ == vviews(syllables@).last());
    let last_char = if last_syl.len() > 0 {
        last_syl[last_syl.len() - 1]
    } else {
        '\0'
    };
    match decompose_batchimbound(last_char) {
        Some((_cho, jung, jong)) => {
            match jong {
                Some(j) => {
                    let j_str = string_of_char(j);
                    if list_contains(&hd.elastic_end.sonorants, &j_str) || list_contains(
                        &hd.elastic_end.special_sonorant_endings,
                        &j_str,
                    ) {
                        return 115;
                    }
                },
                None => {
                    let jung_str = string_of_char(jung);
                    if list_contains(&hd.elastic_end.diphthongs, &jung_str) {
                        return 140;
                    }
                    if list_contains(&hd.elastic_end.vowels, &jung_str) {
                        return 125;
                    }
                },
            }
            return 100;
        },
        None => {},
    }
    let cleaned = lower_alnum_vec(last_syl);
    if cleaned.len() == 0 {
        return 100;
    }
    if any_lower_suffix_exec(&hd.elastic_end.diphthongs, &cleaned) {
        return 140;
    }
    if any_lower_suffix_exec(&hd.elastic_end.vowels, &cleaned) {
        return 125;
    }
    if any_lower_suffix_exec(&hd.elastic_end.sonorants, &cleaned) {
        return 115;
    }
    if any_lower_suffix_exec(&hd.elastic_end.special_sonorant_endings, &cleaned) {
        return 115;
    }
    100
}

/// ElasticEnd: the sustain of a line's last word, in percent (100, 115, 125
/// or 140) by the sound its last syllable ends on.
pub fn apply_elastic_end_sustain(word: &str, is_last_word: bool, hd: &HeuristicsData) -> (r: i32)
    ensures
        r == spec_elastic_end_percent(word@, is_last_word, hd@),
{
    let w = chars_of(word);
    elastic_end_percent_vec(&w, is_last_word, hd)
}

// ---------------------------------------------------------------------------
// StepStrider
// ---------------------------------------------------------------------------

/// The estimated duration of an untagged last word: 150 ms per character,
/// stretched by its sustain and held between 300 and 1200 ms (both
/// stretched too).
pub open spec fn spec_step_strider_duration(word: Seq<char>, hd: HeuristicsView) -> int {
    let pct = spec_elastic_end_percent(word, true, hd) as int;
    let stretched = scale_pct((word.len() * 150) as int, pct) as int;
    let min_limit = 300 * pct / 100;
    let max_limit = 1200 * pct / 100;
    let lower = if min_limit > stretched {
        min_limit
    } else {
        stretched
    };
    if max_limit < lower {
        max_limit
    } else {
        lower
    }
}

pub proof fn lemma_step_strider_duration_bounds(word: Seq<char>, hd: HeuristicsView)
    ensures
        300 <= spec_step_strider_duration(word, hd) <= 1680,
{
}

/// StepStrider's estimated duration of a word of any length.
pub fn step_strider_duration_vec(word: &Vec<char>, hd: &HeuristicsData) -> (r: i32)
    ensures
        r == spec_step_strider_duration(word@, hd@),
{
    let pct = elastic_end_percent_vec(word, true, hd);
    let long = word.len() > 0x1000_0000;
    let base: i64 = if long {
        0x1000_0000 * 150
    } else {
        (word.len() as i64) * 150
    };
    let stretched = scale_pct_exec(base, pct as i64);
    proof {
        let full = (word@.len() * 150) as int;
        if long {
            assert(full * (pct as int) >= base * 100) by (nonlinear_arith)
                requires
                    full >= base,
                    base >= 0,
                    pct >= 100,
            ;
            assert(base * (pct as int) >= base * 100) by (nonlinear_arith)
                requires
                    base >= 0,
                    pct >= 100,
            ;
            assert(scale_pct(full, pct as int) == i32::MAX);
            assert(scale_pct(base as int, pct as int) == i32::MAX);
        }
    }
    let min_limit: i32 = 300 * pct / 100;
    let max_limit: i32 = 1200 * pct / 100;
    let lower = if min_limit > stretched {
        min_limit
    } else {
        stretched
    };
    if max_limit < lower {
        max_limit
    } else {
        lower
    }
}

pub fn step_strider_vec(word: &Vec<char>, current_ms: i32, hd: &HeuristicsData) -> (r: i32)
    requires
        word@.len() * 150 <= i32::MAX,
        current_ms + spec_step_strider_duration(word@, hd@) <= i32::MAX,
    ensures
        r == current_ms + spec_step_strider_duration(word@, hd@),
{
    proof {
        lemma_step_strider_duration_bounds(word@, hd@);
    }
    step_strider_duration_vec(word, hd) + current_ms
}

/// StepStrider: where an untagged last word ends, `current_ms` plus its
/// estimated duration.
pub fn apply_step_strider_fallback(word_text: &str, current_ms: i32, hd: &HeuristicsData) -> (r: i32)
    requires
        word_text@.len() * 150 <= i32::MAX,
        current_ms + spec_step_strider_duration(word_text@, hd@) <= i32::MAX,
    ensures
        r == current_ms + spec_step_strider_duration(word_text@, hd@),
{
    let w = chars_of(word_text);
    step_strider_vec(&w, current_ms, hd)
}

// ---------------------------------------------------------------------------
// SpanSizer
// ---------------------------------------------------------------------------

/// `min(max(n*300, min(safe*0.82, n*900)), max(safe, n*350))`.
pub open spec fn spec_span_sizer(n: int, safe: int) -> int {
    let v = crate::ratio::trunc_div(safe * 82, 100);
    let inner = if v < n * 900 {
        v
    } else {
        n * 900
    };
    let coerced = if n * 300 > inner {
        n * 300
    } else {
        inner
    };
    let cap = if safe > n * 350 {
        safe
    } else {
        n * 350
    };
    if coerced < cap {
        coerced
    } else {
        cap
    }
}

/// SpanSizer: the active singing span of a line of `words_count` words
/// given `safe_duration`.
pub fn calculate_span_sizer_duration(words_count: i32, safe_duration: i32) -> (r: i32)
    requires
        i32::MIN <= words_count * 900 <= i32::MAX,
    ensures
        r == spec_span_sizer(words_count as int, safe_duration as int),
{
    let p: i128 = (safe_duration as i128) * 82;
    let v = crate::ratio::trunc_div_exec(p, 100);
    let val_to_coerce: i32 = v as i32;
    let min_limit = words_count * 300;
    let max_limit = words_count * 900;
    let inner = if val_to_coerce < max_limit {
        val_to_coerce
    } else {
        max_limit
    };
    let coerced = if min_limit > inner {
        min_limit
    } else {
        inner
    };
    let cap = if safe_duration > words_count * 350 {
        safe_duration
    } else {
        words_count * 350
    };
    if coerced < cap {
        coerced
    } else {
        cap
    }
}

// ---------------------------------------------------------------------------
// EchoPause
// ---------------------------------------------------------------------------

/// The letters and digits of a word (its case and punctuation removed):
/// its alphanumeric characters, lowercased.
pub open spec fn echo_key(w: Seq<char>) -> Seq<char> {
    str_lowercase(alnum_only(w))
}

/// Two words repeat each other: the same letters and digits up to case,
/// and some of them.
pub open spec fn spec_echo_pause(w1: Seq<char>, w2: Seq<char>) -> bool {
    echo_key(w1).len() > 0 && echo_key(w2).len() > 0 && echo_key(w1) == echo_key(w2)
}

fn echo_key_vec(w: &Vec<char>) -> (r: Vec<char>)
    ensures
        r@ == echo_key(w@),
{
    let cleaned = alnum_only_vec(w);
    let s = string_of(&cleaned);
    let lower = lowercase_str(s.as_str());
    chars_of(lower.as_str())
}

pub fn echo_pause_vec(w1: &Vec<char>, w2: &Vec<char>) -> (r: bool)
    ensures
        r == spec_echo_pause(w1@, w2@),
{
    let c1 = echo_key_vec(w1);
    let c2 = echo_key_vec(w2);
    if c1.len() == 0 || c2.len() == 0 {
        return false;
    }
    seq_eq(&c1, &c2)
}

/// EchoPause: whether two adjacent words repeat each other (the same
/// letters and digits, ignoring case and punctuation).
pub fn apply_echo_pause_check(word1: &str, word2: &str) -> (r: bool)
    ensures
        r == spec_echo_pause(word1@, word2@),
{
    let a = chars_of(word1);
    let b = chars_of(word2);
    echo_pause_vec(&a, &b)
}

// ---------------------------------------------------------------------------
// DoubleOomph and rapid commas
// ---------------------------------------------------------------------------

/// The weight raised by 35% (rounded toward zero) when the word starts with
/// the prefix, ignoring case.
pub open spec fn spec_double_oomph(cleaned: Seq<char>, weight: i32, prefix: Seq<char>) -> i32 {
    if starts_with(str_lowercase(cleaned), str_lowercase(prefix)) {
        scale_pct(weight as int, 135)
    } else {
        weight
    }
}

pub fn double_oomph_vec(cleaned: &Vec<char>, current_weight: i32, prefix: &Vec<char>) -> (r: i32)
    ensures
        r == spec_double_oomph(cleaned@, current_weight, prefix@),
{
    let cs = crate::text::string_of(cleaned);
    let ps = crate::text::string_of(prefix);
    let lw = lowercase_str(cs.as_str());
    let lp = lowercase_str(ps.as_str());
    let a = chars_of(lw.as_str());
    let b = chars_of(lp.as_str());
    if vec_starts_with(&a, &b) {
        scale_pct_exec(current_weight as i64, 135)
    } else {
        current_weight
    }
}

/// DoubleOomph: a word that starts with the prefix (`"oo"` in English) gets
/// 35% more weight.
pub fn apply_double_oomph_weight(cleaned_word: &str, current_weight: i32, prefix: &str) -> (r: i32)
    ensures
        r == spec_double_oomph(cleaned_word@, current_weight, prefix@),
{
    let lw = lowercase_str(cleaned_word);
    let lp = lowercase_str(prefix);
    let a = chars_of(lw.as_str());
    let b = chars_of(lp.as_str());
    if vec_starts_with(&a, &b) {
        scale_pct_exec(current_weight as i64, 135)
    } else {
        current_weight
    }
}

/// Another word ending in `','` among the three words after position `idx`.
pub open spec fn comma_soon(words: Seq<Seq<char>>, idx: int) -> bool {
    exists|k: int|
        idx + 1 <= k < idx + 4 && k < words.len() && ends_with_char(#[trigger] words[k], ',')
}

/// The weight raised by 30% when the word ends in a comma and another comma
/// follows within three words.
pub open spec fn spec_rapid_comma(word: Seq<char>, words: Seq<Seq<char>>, idx: int, weight: i32) -> i32 {
    if ends_with_char(word, ',') && comma_soon(words, idx) {
        scale_pct(weight as int, 130)
    } else {
        weight
    }
}

pub fn rapid_comma_vec(word: &Vec<char>, words: &Vec<Vec<char>>, idx: usize, current_weight: i32) -> (r: i32)
    ensures
        r == spec_rapid_comma(word@, vviews(words@), idx as int, current_weight),
{
    if vec_ends_with_char(word, ',') && idx < words.len() {
        let end_idx = if words.len() - idx > 4 {
            idx + 4
        } else {
            words.len()
        };
        let mut k: usize = idx + 1;
        while k < end_idx
            invariant
                idx + 1 <= k,
                end_idx <= words.len(),
                end_idx == idx + 4 || end_idx == words.len(),
                end_idx <= idx + 4,
                ends_with_char(word@, ','),
                forall|q: int| idx + 1 <= q < k ==> !ends_with_char(#[trigger] vviews(words@)[q], ','),
            decreases end_idx - k,
        {
            assert(vviews(words@)[k as int] == words@[k as int]@);
            if vec_ends_with_char(&words[k], ',') {
                assert(ends_with_char(vviews(words@)[k as int], ','));
                return scale_pct_exec(current_weight as i64, 130);
            }
            k = k + 1;
        }
    }
    current_weight
}

/// Rapid comma emphasis: a word ending in a comma gets 30% more weight when
/// one of the next three words ends in a comma too.
pub fn apply_rapid_comma_emphasis(word: &str, words_list: &[&str], idx: usize, current_weight: i32) -> (r: i32)
    requires
        idx <= usize::MAX - 4,
    ensures
        r == spec_rapid_comma(
            word@,
            words_list@.map_values(|w: &str| w@),
            idx as int,
            current_weight,
        ),
{
    let w = chars_of(word);
    let mut ws: Vec<Vec<char>> = Vec::new();
    let mut i: usize = 0;
    while i < words_list.len()
        invariant
            i <= words_list.len(),
            vviews(ws@) == words_list@.take(i as int).map_values(|w: &str| w@),
        decreases words_list.len() - i,
    {
        let ghost before = vviews(ws@);
        let cv = chars_of(words_list[i]);
        ws.push(cv);
        assert(vviews(ws@) =~= before.push(words_list@[i as int]@));
        assert(words_list@.take(i + 1).map_values(|w: &str| w@) =~= words_list@.take(
            i as int,
        ).map_values(|w: &str| w@).push(words_list@[i as int]@));
        i = i + 1;
    }
    assert(words_list@.take(i as int) =~= words_list@);
    rapid_comma_vec(&w, &ws, idx, current_weight)
}

// ---------------------------------------------------------------------------
// WordWarden
// ---------------------------------------------------------------------------

/// The longest a tagged word may be lit: 65 ms per character plus 200 ms, at
/// most 850 ms.
pub open spec fn spec_word_warden_max(word: Seq<char>) -> int {
    if word.len() * 65 + 200 < 850 {
        (word.len() * 65 + 200) as int
    } else {
        850
    }
}

pub open spec fn spec_word_warden_cap(word: Seq<char>, start: int, uncapped_end: int) -> int {
    if uncapped_end - start > spec_word_warden_max(word) {
        start + spec_word_warden_max(word)
    } else {
        uncapped_end
    }
}

pub fn word_warden_vec(sub_word: &Vec<char>, sub_word_start: i32, uncapped_end: i32) -> (r: i32)
    ensures
        r == spec_word_warden_cap(sub_word@, sub_word_start as int, uncapped_end as int),
{
    let max_dur: i64 = if sub_word.len() < 10 {
        (sub_word.len() as i64) * 65 + 200
    } else {
        850
    };
    let max_dur: i64 = if max_dur < 850 {
        max_dur
    } else {
        850
    };
    if (uncapped_end as i64) - (sub_word_start as i64) > max_dur {
        ((sub_word_start as i64) + max_dur) as i32
    } else {
        uncapped_end
    }
}

/// WordWarden: ends a tagged word early when the time to the next tag is
/// longer than it can be sung.
pub fn apply_word_warden_cap(sub_word: &str, sub_word_start: i32, uncapped_end: i32) -> (r: i32)
    ensures
        r == spec_word_warden_cap(sub_word@, sub_word_start as int, uncapped_end as int),
{
    let w = chars_of(sub_word);
    word_warden_vec(&w, sub_word_start, uncapped_end)
}

} // verus!
