//! Word-level alignment of lyric lines.
use vstd::prelude::*;
use crate::heuristics::{
    double_oomph_vec, echo_pause_vec, elastic_end_percent_vec, punctuation_pause_vec,
    rapid_comma_vec, alnum_only_vec, spec_double_oomph, spec_echo_pause, spec_elastic_end_percent,
    spec_punctuation_pause, spec_rapid_comma, spec_span_sizer, calculate_span_sizer_duration,
    alnum_only,
};
use crate::language::{HeuristicsData, HeuristicsView};
use crate::lyrics::{WordInfo, WordView, words_view};
use crate::parser::{
    clean_whitespace_vec, is_cjk_ideograph, is_moracore_kana, is_moracore_mora_extender,
    is_moracore_non_starter, spec_clean_whitespace, spec_is_cjk, spec_is_kana, spec_is_non_starter,
    collapse_ws_fold,
};
use crate::ratio::{scale_pct, scale_pct_exec, Ratio};
use crate::text::{chars_of, copy_range, trim_vec};
use crate::parser::{scan_tags, scan_tags_vec, span_view, TagSpan};
use crate::heuristics::{spec_step_strider_duration, spec_word_warden_cap, step_strider_duration_vec, word_warden_vec};
use crate::sort::{Keyed, key_of, sort_by, stable_sort, lemma_sort_by_map, lemma_sort_by_map_multiset};
use crate::braces::word_texts;
use crate::text::{
    concat_all, is_whitespace, is_ws, split_whitespace_vec, string_of, trim,
    trim_end, trim_start, vviews, ws_words, ws_words_fold,
};

verus! {

// ---------------------------------------------------------------------------
// Lengths of pieces
// ---------------------------------------------------------------------------

proof fn lemma_piece_le_concat(ss: Seq<Seq<char>>, k: int)
    requires
        0 <= k < ss.len(),
    ensures
        ss[k].len() <= concat_all(ss).len(),
    decreases ss.len(),
{
    if k < ss.len() - 1 {
        lemma_piece_le_concat(ss.drop_last(), k);
    }
}

pub proof fn lemma_trim_len(s: Seq<char>)
    ensures
        trim(s).len() <= s.len(),
{
    lemma_trim_start_len(s);
    lemma_trim_end_len(trim_start(s));
}

proof fn lemma_trim_start_len(s: Seq<char>)
    ensures
        trim_start(s).len() <= s.len(),
    decreases s.len(),
{
    if s.len() > 0 && is_ws(s[0]) {
        lemma_trim_start_len(s.drop_first());
    }
}

proof fn lemma_trim_end_len(s: Seq<char>)
    ensures
        trim_end(s).len() <= s.len(),
    decreases s.len(),
{
    if s.len() > 0 && is_ws(s.last()) {
        lemma_trim_end_len(s.drop_last());
    }
}

proof fn lemma_collapse_len(s: Seq<char>)
    ensures
        collapse_ws_fold(s).0.len() <= s.len(),
    decreases s.len(),
{
    if s.len() > 0 {
        lemma_collapse_len(s.drop_last());
    }
}

proof fn lemma_clean_len(s: Seq<char>)
    ensures
        spec_clean_whitespace(s).len() <= s.len(),
{
    lemma_trim_len(s);
    lemma_collapse_len(trim(s));
}

proof fn lemma_all_nonempty_push(ss: Seq<Seq<char>>, x: Seq<char>)
    requires
        crate::parser::all_nonempty(ss),
        x.len() > 0,
    ensures
        crate::parser::all_nonempty(ss.push(x)),
{
    assert forall|k: int| 0 <= k < ss.push(x).len() implies (#[trigger] ss.push(x)[k]).len() > 0 by {
        if k < ss.len() {
            assert(ss.push(x)[k] == ss[k]);
        }
    }
}

proof fn lemma_concat_push(ss: Seq<Seq<char>>, x: Seq<char>)
    ensures
        concat_all(ss.push(x)).len() == concat_all(ss).len() + x.len(),
{
    assert(ss.push(x).drop_last() =~= ss);
}

proof fn lemma_ws_fold_len(s: Seq<char>)
    ensures
        crate::parser::all_nonempty(ws_words_fold(s).0),
        concat_all(ws_words_fold(s).0).len() + ws_words_fold(s).1.len() <= s.len(),
    decreases s.len(),
{
    if s.len() > 0 {
        lemma_ws_fold_len(s.drop_last());
        let (done, cur) = ws_words_fold(s.drop_last());
        if is_ws(s.last()) && cur.len() > 0 {
            lemma_all_nonempty_push(done, cur);
            lemma_concat_push(done, cur);
        }
    }
}

// ---------------------------------------------------------------------------
// Case A: lines without word tags
// ---------------------------------------------------------------------------

/// Kana, the long-vowel mark and CJK ideographs.
pub open spec fn is_kk(c: char) -> bool {
    spec_is_kana(c) || c == 'ー' || spec_is_cjk(c)
}

pub open spec fn has_kk(s: Seq<char>) -> bool {
    exists|k: int| 0 <= k < s.len() && is_kk(#[trigger] s[k])
}

pub open spec fn is_split_punct(c: char) -> bool {
    c == '、' || c == '。' || c == '？' || c == '！' || c == ',' || c == '.' || c == '?' || c == '!'
}

/// Splitting Japanese and Chinese text into words: white space separates,
/// punctuation closes the current word (or stands alone), each kana or
/// ideograph starts a word except a small kana, which joins the one before,
/// and other characters gather into words of their own.
pub open spec fn cjk_fold(s: Seq<char>) -> (Seq<Seq<char>>, Seq<char>)
    decreases s.len(),
{
    if s.len() == 0 {
        (Seq::empty(), Seq::empty())
    } else {
        let (ws, cur) = cjk_fold(s.drop_last());
        let c = s.last();
        if is_ws(c) || c == '\u{3000}' {
            if cur.len() > 0 {
                (ws.push(cur), Seq::empty())
            } else {
                (ws, cur)
            }
        } else if is_split_punct(c) {
            if cur.len() > 0 {
                (ws.push(cur.push(c)), Seq::empty())
            } else {
                (ws.push(seq![c]), cur)
            }
        } else if is_kk(c) {
            if spec_is_non_starter(c) {
                if cur.len() > 0 {
                    (ws, cur.push(c))
                } else if ws.len() > 0 {
                    (ws.update(ws.len() - 1, ws.last().push(c)), cur)
                } else {
                    (ws, cur.push(c))
                }
            } else if cur.len() > 0 {
                (ws.push(cur), seq![c])
            } else {
                (ws, seq![c])
            }
        } else if cur.len() > 0 && is_kk(cur[0]) {
            (ws.push(cur), seq![c])
        } else {
            (ws, cur.push(c))
        }
    }
}

pub open spec fn cjk_words(s: Seq<char>) -> Seq<Seq<char>> {
    let (ws, cur) = cjk_fold(s);
    if cur.len() > 0 {
        ws.push(cur)
    } else {
        ws
    }
}

/// The words of an untagged line: its white space cleaned, then split as
/// Japanese/Chinese text when it holds kana or ideographs, at white space
/// otherwise.
pub open spec fn plain_words(content: Seq<char>) -> Seq<Seq<char>> {
    let clean = spec_clean_whitespace(content);
    if has_kk(clean) {
        cjk_words(clean)
    } else {
        ws_words(clean)
    }
}

proof fn lemma_cjk_fold_len(s: Seq<char>)
    ensures
        crate::parser::all_nonempty(cjk_fold(s).0),
        concat_all(cjk_fold(s).0).len() + cjk_fold(s).1.len() <= s.len(),
    decreases s.len(),
{
    if s.len() > 0 {
        lemma_cjk_fold_len(s.drop_last());
        let (ws, cur) = cjk_fold(s.drop_last());
        let c = s.last();
        if is_ws(c) || c == '\u{3000}' {
            if cur.len() > 0 {
                lemma_all_nonempty_push(ws, cur);
                lemma_concat_push(ws, cur);
            }
        } else if is_split_punct(c) {
            if cur.len() > 0 {
                lemma_all_nonempty_push(ws, cur.push(c));
                lemma_concat_push(ws, cur.push(c));
            } else {
                lemma_all_nonempty_push(ws, seq![c]);
                lemma_concat_push(ws, seq![c]);
            }
        } else if is_kk(c) {
            if spec_is_non_starter(c) {
                if cur.len() == 0 && ws.len() > 0 {
                    let ws2 = ws.update(ws.len() - 1, ws.last().push(c));
                    assert(ws2.drop_last() =~= ws.drop_last());
                    assert(crate::parser::all_nonempty(ws2)) by {
                        assert forall|k: int| 0 <= k < ws2.len() implies (#[trigger] ws2[k]).len() > 0 by {
                            if k < ws.len() - 1 {
                                assert(ws2[k] == ws[k]);
                            }
                        }
                    }
                }
            } else if cur.len() > 0 {
                lemma_all_nonempty_push(ws, cur);
                lemma_concat_push(ws, cur);
            }
        } else if cur.len() > 0 && is_kk(cur[0]) {
            lemma_all_nonempty_push(ws, cur);
            lemma_concat_push(ws, cur);
        }
    }
}

/// The words of an untagged line are non-empty, and together no longer
/// than the line.
pub proof fn lemma_plain_words_len(content: Seq<char>)
    ensures
        crate::parser::all_nonempty(plain_words(content)),
        concat_all(plain_words(content)).len() <= content.len(),
        plain_words(content).len() <= content.len(),
        forall|k: int|
            0 <= k < plain_words(content).len() ==> (#[trigger] plain_words(content)[k]).len()
                <= content.len(),
{
    let clean = spec_clean_whitespace(content);
    lemma_clean_len(content);
    if has_kk(clean) {
        lemma_cjk_fold_len(clean);
        let (ws, cur) = cjk_fold(clean);
        if cur.len() > 0 {
            lemma_all_nonempty_push(ws, cur);
            lemma_concat_push(ws, cur);
        }
    } else {
        lemma_ws_fold_len(clean);
        let (ws, cur) = ws_words_fold(clean);
        if cur.len() > 0 {
            lemma_all_nonempty_push(ws, cur);
            lemma_concat_push(ws, cur);
        }
    }
    let pw = plain_words(content);
    crate::parser::lemma_concat_all_len_pub(pw);
    assert forall|k: int| 0 <= k < pw.len() implies (#[trigger] pw[k]).len() <= content.len() by {
        lemma_piece_le_concat(pw, k);
    }
}

fn any_kk(s: &Vec<char>) -> (r: bool)
    ensures
        r == has_kk(s@),
{
    let mut i: usize = 0;
    while i < s.len()
        invariant
            i <= s.len(),
            forall|k: int| 0 <= k < i ==> !is_kk(#[trigger] s@[k]),
        decreases s.len() - i,
    {
        let c = s[i];
        if is_moracore_kana(c) || is_moracore_mora_extender(c) || is_cjk_ideograph(c) {
            return true;
        }
        i = i + 1;
    }
    false
}

fn is_kk_exec(c: char) -> (r: bool)
    ensures
        r == is_kk(c),
{
    is_moracore_kana(c) || is_moracore_mora_extender(c) || is_cjk_ideograph(c)
}

fn cjk_words_vec(s: &Vec<char>) -> (r: Vec<Vec<char>>)
    ensures
        vviews(r@) == cjk_words(s@),
{
    let mut ws: Vec<Vec<char>> = Vec::new();
    let mut cur: Vec<char> = Vec::new();
    let mut i: usize = 0;
    while i < s.len()
        invariant
            i <= s.len(),
            (vviews(ws@), cur@) == cjk_fold(s@.take(i as int)),
        decreases s.len() - i,
    {
        assert(s@.take(i + 1).drop_last() =~= s@.take(i as int));
        let c = s[i];
        let ghost before = vviews(ws@);
        if is_whitespace(c) || c == '\u{3000}' {
            if cur.len() > 0 {
                let piece = cur;
                ws.push(piece);
                assert(vviews(ws@) =~= before.push(piece@));
                cur = Vec::new();
            }
        } else if c == '、' || c == '。' || c == '？' || c == '！' || c == ',' || c == '.' || c == '?'
            || c == '!' {
            if cur.len() > 0 {
                let mut piece = cur;
                piece.push(c);
                ws.push(piece);
                assert(vviews(ws@) =~= before.push(piece@));
                cur = Vec::new();
            } else {
                let mut one: Vec<char> = Vec::new();
                one.push(c);
                ws.push(one);
                assert(vviews(ws@) =~= before.push(seq![c]));
            }
        } else if is_kk_exec(c) {
            if is_moracore_non_starter(c) {
                if cur.len() > 0 {
                    cur.push(c);
                } else if ws.len() > 0 {
                    let mut last = ws.pop().unwrap();
                    last.push(c);
                    ws.push(last);
                    assert(vviews(ws@) =~= before.update(before.len() - 1, before.last().push(c)));
                } else {
                    cur.push(c);
                }
            } else {
                if cur.len() > 0 {
                    let piece = cur;
                    ws.push(piece);
                    assert(vviews(ws@) =~= before.push(piece@));
                }
                let mut one: Vec<char> = Vec::new();
                one.push(c);
                cur = one;
                assert(cur@ =~= seq![c]);
            }
        } else {
            if cur.len() > 0 && is_kk_exec(cur[0]) {
                let piece = cur;
                ws.push(piece);
                assert(vviews(ws@) =~= before.push(piece@));
                let mut one: Vec<char> = Vec::new();
                one.push(c);
                cur = one;
                assert(cur@ =~= seq![c]);
            } else {
                cur.push(c);
            }
        }
        i = i + 1;
    }
    assert(s@.take(i as int) =~= s@);
    let ghost before = vviews(ws@);
    if cur.len() > 0 {
        let piece = cur;
        ws.push(piece);
        assert(vviews(ws@) =~= before.push(piece@));
    }
    ws
}

pub fn plain_words_vec(content: &Vec<char>) -> (r: Vec<Vec<char>>)
    ensures
        vviews(r@) == plain_words(content@),
{
    let clean = clean_whitespace_vec(content);
    if any_kk(&clean) {
        cjk_words_vec(&clean)
    } else {
        let r = split_whitespace_vec(&clean);
        assert(vviews(r@) =~= ws_words(clean@));
        r
    }
}

// ---------------------------------------------------------------------------
// Case A: timing
// ---------------------------------------------------------------------------

/// The pause after word `i`: its punctuation pause, plus 100 ms before a
/// repeat of it (EchoPause).
pub open spec fn word_pause(words: Seq<Seq<char>>, i: int, mps: Ratio) -> int {
    spec_punctuation_pause(words[i], mps) as int + if i < words.len() - 1 && spec_echo_pause(
        words[i],
        words[i + 1],
    ) {
        100int
    } else {
        0int
    }
}

pub open spec fn pause_sum(words: Seq<Seq<char>>, mps: Ratio, k: int) -> int
    decreases k,
{
    if k <= 0 {
        0
    } else {
        pause_sum(words, mps, k - 1) + word_pause(words, k - 1, mps)
    }
}

/// The weight of word `i`: its number of alphanumeric characters (at least
/// 1), raised by DoubleOomph and rapid commas, and for the last word
/// stretched by its ElasticEnd sustain.
pub open spec fn word_weight(words: Seq<Seq<char>>, i: int, hd: HeuristicsView) -> int {
    let w = words[i];
    let cleaned = alnum_only(w);
    let c = cleaned.len() as i32;
    let w0: i32 = if 1 > c {
        1
    } else {
        c
    };
    let w1 = spec_double_oomph(cleaned, w0, hd.double_oomph_prefix);
    let w2 = spec_rapid_comma(w, words, i, w1);
    if i == words.len() - 1 {
        scale_pct(w2 as int, spec_elastic_end_percent(w, true, hd) as int) as int
    } else {
        w2 as int
    }
}

pub open spec fn weight_sum(words: Seq<Seq<char>>, hd: HeuristicsView, k: int) -> int
    decreases k,
{
    if k <= 0 {
        0
    } else {
        weight_sum(words, hd, k - 1) + word_weight(words, k - 1, hd)
    }
}

/// The time left for singing: the SpanSizer span less the pauses, but at
/// least 120 ms per word.
pub open spec fn plain_avail(words: Seq<Seq<char>>, dur: int, mps: Ratio) -> int {
    let n = words.len() as int;
    let safe = if 400 > dur {
        400
    } else {
        dur
    };
    let active = spec_span_sizer(n, safe);
    let left = active - pause_sum(words, mps, n);
    if left > n * 120 {
        left
    } else {
        n * 120
    }
}

/// Word `i`'s share of the singing time, by weight (rounded down).
pub open spec fn plain_duration(
    words: Seq<Seq<char>>,
    hd: HeuristicsView,
    mps: Ratio,
    dur: int,
    i: int,
) -> int {
    let tw = weight_sum(words, hd, words.len() as int);
    if tw > 0 {
        word_weight(words, i, hd) * plain_avail(words, dur, mps) / tw
    } else {
        200
    }
}

/// Where word `k` starts, after the line's start: the durations and pauses
/// of the words before it.
pub open spec fn plain_offset(
    words: Seq<Seq<char>>,
    hd: HeuristicsView,
    mps: Ratio,
    dur: int,
    k: int,
) -> int
    decreases k,
{
    if k <= 0 {
        0
    } else {
        plain_offset(words, hd, mps, dur, k - 1) + plain_duration(words, hd, mps, dur, k - 1)
            + word_pause(words, k - 1, mps)
    }
}

/// The timed words of an untagged line that starts at `ts` and lasts `dur`.
pub open spec fn spec_plain_times(
    ts: int,
    content: Seq<char>,
    dur: int,
    mps: Ratio,
    hd: HeuristicsView,
) -> Seq<WordView> {
    let words = plain_words(content);
    Seq::new(
        words.len(),
        |i: int|
            WordView {
                word: words[i],
                start_ms: (ts + plain_offset(words, hd, mps, dur, i)) as i32,
                end_ms: (ts + plain_offset(words, hd, mps, dur, i) + plain_duration(
                    words,
                    hd,
                    mps,
                    dur,
                    i,
                )) as i32,
            },
    )
}

proof fn lemma_scale_pct_bounds(v: int, pct: int)
    requires
        1 <= v <= i32::MAX,
        100 <= pct <= 200,
    ensures
        1 <= scale_pct(v, pct) <= i32::MAX,
{
    assert(v * 100 <= v * pct) by (nonlinear_arith)
        requires
            1 <= v,
            100 <= pct,
    ;
    assert(v <= (v * pct) / 100) by (nonlinear_arith)
        requires
            1 <= v,
            v * 100 <= v * pct,
    ;
}

proof fn lemma_word_weight_bounds(words: Seq<Seq<char>>, i: int, hd: HeuristicsView)
    requires
        0 <= i < words.len(),
    ensures
        1 <= word_weight(words, i, hd) <= i32::MAX,
{
    let w = words[i];
    let cleaned = alnum_only(w);
    let c = cleaned.len() as i32;
    let w0: i32 = if 1 > c {
        1
    } else {
        c
    };
    let w1 = spec_double_oomph(cleaned, w0, hd.double_oomph_prefix);
    lemma_scale_pct_bounds(w0 as int, 135);
    assert(1 <= w1);
    let w2 = spec_rapid_comma(w, words, i, w1);
    lemma_scale_pct_bounds(w1 as int, 130);
    assert(1 <= w2);
    if i == words.len() - 1 {
        let pct = spec_elastic_end_percent(w, true, hd);
        crate::heuristics::lemma_elastic_end_range(w, hd);
        lemma_scale_pct_bounds(w2 as int, pct as int);
    }
}

proof fn lemma_span_sizer_upper(n: int, safe: int)
    requires
        n >= 0,
    ensures
        spec_span_sizer(n, safe) <= 900 * n,
{
}

proof fn lemma_pause_sum_bounds(words: Seq<Seq<char>>, mps: Ratio, k: int)
    requires
        mps.wf(),
        0 <= k <= words.len(),
    ensures
        0 <= pause_sum(words, mps, k) <= 450 * k,
    decreases k,
{
    if k > 0 {
        lemma_pause_sum_bounds(words, mps, k - 1);
        crate::heuristics::lemma_punctuation_pause_range(words[k - 1], mps);
    }
}

proof fn lemma_weight_sum_bounds(words: Seq<Seq<char>>, hd: HeuristicsView, k: int)
    requires
        0 <= k <= words.len(),
    ensures
        k <= weight_sum(words, hd, k) <= i32::MAX * k,
    decreases k,
{
    if k > 0 {
        lemma_weight_sum_bounds(words, hd, k - 1);
        lemma_word_weight_bounds(words, k - 1, hd);
    }
}

/// The durations of words `0..k`.
pub open spec fn duration_sum(
    words: Seq<Seq<char>>,
    hd: HeuristicsView,
    mps: Ratio,
    dur: int,
    k: int,
) -> int
    decreases k,
{
    if k <= 0 {
        0
    } else {
        duration_sum(words, hd, mps, dur, k - 1) + plain_duration(words, hd, mps, dur, k - 1)
    }
}

proof fn lemma_offset_is_sums(words: Seq<Seq<char>>, hd: HeuristicsView, mps: Ratio, dur: int, k: int)
    ensures
        plain_offset(words, hd, mps, dur, k) == duration_sum(words, hd, mps, dur, k) + pause_sum(
            words,
            mps,
            k,
        ),
    decreases k,
{
    if k > 0 {
        lemma_offset_is_sums(words, hd, mps, dur, k - 1);
    }
}

proof fn lemma_duration_sum_bound(
    words: Seq<Seq<char>>,
    hd: HeuristicsView,
    mps: Ratio,
    dur: int,
    k: int,
)
    requires
        0 <= k <= words.len(),
        plain_avail(words, dur, mps) >= 0,
        words.len() > 0,
    ensures
        0 <= duration_sum(words, hd, mps, dur, k),
        duration_sum(words, hd, mps, dur, k) * weight_sum(words, hd, words.len() as int)
            <= plain_avail(words, dur, mps) * weight_sum(words, hd, k),
    decreases k,
{
    let tw = weight_sum(words, hd, words.len() as int);
    let a = plain_avail(words, dur, mps);
    lemma_weight_sum_bounds(words, hd, words.len() as int);
    if k > 0 {
        lemma_duration_sum_bound(words, hd, mps, dur, k - 1);
        lemma_word_weight_bounds(words, k - 1, hd);
        let w = word_weight(words, k - 1, hd);
        let d = plain_duration(words, hd, mps, dur, k - 1);
        let s0 = duration_sum(words, hd, mps, dur, k - 1);
        let w0 = weight_sum(words, hd, k - 1);
        assert(d == w * a / tw);
        assert(d >= 0 && d * tw <= w * a) by (nonlinear_arith)
            requires
                d == w * a / tw,
                tw > 0,
                w >= 0,
                a >= 0,
        ;
        assert((s0 + d) * tw <= a * (w0 + w)) by (nonlinear_arith)
            requires
                s0 * tw <= a * w0,
                d * tw <= w * a,
        ;
    }
}

proof fn lemma_duration_nonneg(words: Seq<Seq<char>>, hd: HeuristicsView, mps: Ratio, dur: int, k: int)
    requires
        0 <= k < words.len(),
        plain_avail(words, dur, mps) >= 0,
    ensures
        plain_duration(words, hd, mps, dur, k) >= 0,
{
    lemma_weight_sum_bounds(words, hd, words.len() as int);
    lemma_word_weight_bounds(words, k, hd);
    let tw = weight_sum(words, hd, words.len() as int);
    let w = word_weight(words, k, hd);
    let a = plain_avail(words, dur, mps);
    assert(w * a / tw >= 0) by (nonlinear_arith)
        requires
            w >= 0,
            a >= 0,
            tw > 0,
    ;
}

proof fn lemma_duration_sum_mono(words: Seq<Seq<char>>, hd: HeuristicsView, mps: Ratio, dur: int, k: int, m: int)
    requires
        0 <= k <= m <= words.len(),
        plain_avail(words, dur, mps) >= 0,
    ensures
        duration_sum(words, hd, mps, dur, k) <= duration_sum(words, hd, mps, dur, m),
    decreases m - k,
{
    if k < m {
        lemma_duration_sum_mono(words, hd, mps, dur, k, m - 1);
        lemma_duration_nonneg(words, hd, mps, dur, m - 1);
    }
}

proof fn lemma_pause_sum_mono(words: Seq<Seq<char>>, mps: Ratio, k: int, m: int)
    requires
        mps.wf(),
        0 <= k <= m <= words.len(),
    ensures
        pause_sum(words, mps, k) <= pause_sum(words, mps, m),
    decreases m - k,
{
    if k < m {
        lemma_pause_sum_mono(words, mps, k, m - 1);
        crate::heuristics::lemma_punctuation_pause_range(words[m - 1], mps);
    }
}

/// Every word of an untagged line starts and ends within `1350 * n` ms of
/// the line's start, `n` being the number of words.
pub proof fn lemma_plain_offsets_bounded(
    words: Seq<Seq<char>>,
    hd: HeuristicsView,
    mps: Ratio,
    dur: int,
    k: int,
)
    requires
        mps.wf(),
        0 <= k < words.len(),
    ensures
        0 <= plain_duration(words, hd, mps, dur, k),
        0 <= plain_offset(words, hd, mps, dur, k),
        plain_offset(words, hd, mps, dur, k) + plain_duration(words, hd, mps, dur, k) <= 1350
            * words.len(),
{
    let n = words.len() as int;
    let a = plain_avail(words, dur, mps);
    lemma_pause_sum_bounds(words, mps, n);
    let safe = if 400 > dur {
        400
    } else {
        dur
    };
    lemma_span_sizer_upper(n, safe);
    assert(120 * n <= a <= 900 * n);
    lemma_weight_sum_bounds(words, hd, n);
    let tw = weight_sum(words, hd, n);
    lemma_duration_sum_bound(words, hd, mps, dur, n);
    let dn = duration_sum(words, hd, mps, dur, n);
    assert(dn <= a) by (nonlinear_arith)
        requires
            dn * tw <= a * tw,
            tw > 0,
    ;
    lemma_duration_nonneg(words, hd, mps, dur, k);
    lemma_duration_sum_mono(words, hd, mps, dur, k + 1, n);
    lemma_duration_sum_mono(words, hd, mps, dur, 0, k);
    lemma_pause_sum_mono(words, mps, 0, k);
    lemma_pause_sum_mono(words, mps, k, n);
    lemma_offset_is_sums(words, hd, mps, dur, k);
}

fn plain_weight_exec(words: &Vec<Vec<char>>, i: usize, prefix: &Vec<char>, hd: &HeuristicsData) -> (r: i64)
    requires
        i < words.len(),
        prefix@ == hd@.double_oomph_prefix,
    ensures
        r == word_weight(vviews(words@), i as int, hd@),
{
    let ghost wv = vviews(words@);
    let w = &words[i];
    assert(wv[i as int] == w@);
    let cleaned = alnum_only_vec(w);
    let c = #[verifier::truncate] (cleaned.len() as i32);
    let w0: i32 = if 1 > c {
        1
    } else {
        c
    };
    let w1 = double_oomph_vec(&cleaned, w0, prefix);
    let w2 = rapid_comma_vec(w, words, i, w1);
    if i == words.len() - 1 {
        let pct = elastic_end_percent_vec(w, true, hd);
        scale_pct_exec(w2 as i64, pct as i64) as i64
    } else {
        w2 as i64
    }
}

/// SpanSizer over wide integers.
fn span_sizer_wide(n: i128, safe: i128) -> (r: i128)
    requires
        0 <= n <= u64::MAX,
        i32::MIN <= safe <= i32::MAX,
    ensures
        r == spec_span_sizer(n as int, safe as int),
{
    let v = crate::ratio::trunc_div_exec(safe * 82, 100);
    let inner = if v < n * 900 {
        v
    } else {
        n * 900
    };
    let coerced = if n * 300 > inner {
        n * 300
    } else {
        inner
    };
    let cap = if safe > n * 350 {
        safe
    } else {
        n * 350
    };
    if coerced < cap {
        coerced
    } else {
        cap
    }
}

/// The times of an untagged line fit in `i32`: every word's start and end.
pub open spec fn plain_fits(ts: int, content: Seq<char>, dur: int, mps: Ratio, hd: HeuristicsView) -> bool {
    let words = plain_words(content);
    forall|i: int|
        0 <= i < words.len() ==> i32::MIN <= ts + #[trigger] plain_offset(words, hd, mps, dur, i)
            <= i32::MAX && i32::MIN <= ts + plain_offset(words, hd, mps, dur, i) + plain_duration(
            words,
            hd,
            mps,
            dur,
            i,
        ) <= i32::MAX
}

/// Case A of `parse_line_to_words`: the words of an untagged line, spread
/// over its singing time by weight, with pauses after punctuation and
/// before repeated words; `None` when a time does not fit in `i32`.
pub fn plain_times_try(ts: i32, content: &Vec<char>, dur: i32, mps: Ratio, hd: &HeuristicsData) -> (r: Option<
    Vec<WordInfo>,
>)
    requires
        mps.wf(),
    ensures
        r is Some <==> plain_fits(ts as int, content@, dur as int, mps, hd@),
        r matches Some(v) ==> words_view(v@) == spec_plain_times(ts as int, content@, dur as int, mps, hd@),
{
    let words = plain_words_vec(content);
    let ghost wv = vviews(words@);
    let ghost hv = hd@;
    let n = words.len();
    assert(wv.len() == n);
    assert(wv == plain_words(content@));
    if n == 0 {
        let r: Vec<WordInfo> = Vec::new();
        assert(words_view(r@) =~= spec_plain_times(ts as int, content@, dur as int, mps, hd@));
        return Some(r);
    }
    let safe: i32 = if 400 > dur {
        400
    } else {
        dur
    };
    let active = span_sizer_wide(n as i128, safe as i128);
    let mut pauses: Vec<i64> = Vec::new();
    let mut psum: i128 = 0;
    let mut i: usize = 0;
    while i < n
        invariant
            i <= n,
            n == words.len(),
            wv == vviews(words@),
            mps.wf(),
            pauses@.len() == i,
            forall|j: int| 0 <= j < i ==> #[trigger] pauses@[j] == word_pause(wv, j, mps),
            psum == pause_sum(wv, mps, i as int),
            0 <= psum <= 450 * i,
        decreases n - i,
    {
        assert(wv[i as int] == words@[i as int]@);
        proof {
            crate::heuristics::lemma_punctuation_pause_range(wv[i as int], mps);
        }
        let mut p: i64 = punctuation_pause_vec(&words[i], mps) as i64;
        if i < n - 1 {
            assert(wv[i + 1] == words@[i + 1]@);
            if echo_pause_vec(&words[i], &words[i + 1]) {
                p = p + 100;
            }
        }
        pauses.push(p);
        psum = psum + p as i128;
        i = i + 1;
    }
    let left: i128 = active - psum;
    let avail: i128 = if left > (n as i128) * 120 {
        left
    } else {
        (n as i128) * 120
    };
    assert(avail == plain_avail(wv, dur as int, mps));
    proof {
        lemma_span_sizer_upper(n as int, safe as int);
    }
    let prefix = chars_of(hd.double_oomph_prefix.as_str());
    let mut weights: Vec<i64> = Vec::new();
    let mut wsum: i128 = 0;
    let mut i: usize = 0;
    while i < n
        invariant
            i <= n,
            n == words.len(),
            wv == vviews(words@),
            hv == hd@,
            prefix@ == hd@.double_oomph_prefix,
            weights@.len() == i,
            forall|j: int| 0 <= j < i ==> #[trigger] weights@[j] == word_weight(wv, j, hv),
            wsum == weight_sum(wv, hv, i as int),
            0 <= wsum <= i32::MAX * i,
        decreases n - i,
    {
        assert(wv[i as int] == words@[i as int]@);
        proof {
            lemma_word_weight_bounds(wv, i as int, hv);
        }
        let w = plain_weight_exec(&words, i, &prefix, hd);
        weights.push(w);
        wsum = wsum + w as i128;
        i = i + 1;
    }
    proof {
        lemma_weight_sum_bounds(wv, hv, n as int);
    }
    let mut out: Vec<WordInfo> = Vec::new();
    let mut offset: i128 = 0;
    let mut i: usize = 0;
    let ghost expected = spec_plain_times(ts as int, content@, dur as int, mps, hd@);
    while i < n
        invariant
            i <= n,
            n == words.len(),
            wv == vviews(words@),
            wv == plain_words(content@),
            hv == hd@,
            mps.wf(),
            expected == spec_plain_times(ts as int, content@, dur as int, mps, hd@),
            pauses@.len() == n,
            forall|j: int| 0 <= j < n ==> #[trigger] pauses@[j] == word_pause(wv, j, mps),
            weights@.len() == n,
            forall|j: int| 0 <= j < n ==> #[trigger] weights@[j] == word_weight(wv, j, hv),
            wsum == weight_sum(wv, hv, n as int),
            n <= wsum <= i32::MAX * n,
            avail == plain_avail(wv, dur as int, mps),
            120 * n <= avail <= 900 * n,
            offset == plain_offset(wv, hv, mps, dur as int, i as int),
            out@.len() == i,
            forall|j: int| 0 <= j < i ==> #[trigger] words_view(out@)[j] == expected[j],
            forall|j: int|
                0 <= j < i ==> i32::MIN <= ts + #[trigger] plain_offset(wv, hv, mps, dur as int, j)
                    <= i32::MAX && i32::MIN <= ts + plain_offset(wv, hv, mps, dur as int, j)
                    + plain_duration(wv, hv, mps, dur as int, j) <= i32::MAX,
        decreases n - i,
    {
        proof {
            lemma_plain_offsets_bounded(wv, hv, mps, dur as int, i as int);
            lemma_word_weight_bounds(wv, i as int, hv);
            assert(0 <= weights@[i as int] * avail <= i32::MAX * (900 * n)) by (nonlinear_arith)
                requires
                    1 <= weights@[i as int] <= i32::MAX,
                    0 <= avail <= 900 * n,
            ;
            assert(i32::MAX * (900 * n) <= i32::MAX * (900 * (u64::MAX as int))) by (nonlinear_arith)
                requires
                    n <= u64::MAX,
            ;
        }
        let d: i128 = (weights[i] as i128) * avail / wsum;
        assert(d == plain_duration(wv, hv, mps, dur as int, i as int));
        let start: i128 = (ts as i128) + offset;
        let end: i128 = start + d;
        if start < i32::MIN as i128 || start > i32::MAX as i128 || end < i32::MIN as i128 || end
            > i32::MAX as i128 {
            return None;
        }
        let word = string_of(&words[i]);
        assert(word@ == wv[i as int]);
        let ghost before = out@;
        out.push(WordInfo { word, start_ms: start as i32, end_ms: end as i32 });
        proof {
            assert forall|j: int| 0 <= j < i + 1 implies #[trigger] words_view(out@)[j] == expected[j] by {
                if j < i {
                    assert(words_view(out@)[j] == out@[j]@);
                    assert(words_view(before)[j] == before[j]@);
                    assert(out@[j] == before[j]);
                } else {
                    assert(words_view(out@)[j] == out@[j]@);
                }
            }
        }
        offset = offset + d + pauses[i] as i128;
        i = i + 1;
    }
    assert(words_view(out@) =~= expected);
    Some(out)
}

// ---------------------------------------------------------------------------
// Case B: lines with word tags
// ---------------------------------------------------------------------------

/// The words before the first tag, spread evenly from the line's start to
/// the first tag (100 ms each if the tag is not later than the line's start).
pub open spec fn leading_words(ts: int, content: Seq<char>, first: (int, int, i32)) -> Seq<WordView> {
    let lead = trim(content.take(first.0));
    let ws = ws_words(lead);
    let k = ws.len() as int;
    if first.0 > 0 && lead.len() > 0 && k > 0 {
        let d = first.2 - ts;
        let step = if d > 0 {
            d / k
        } else {
            100
        };
        Seq::new(
            ws.len(),
            |j: int|
                WordView {
                    word: ws[j],
                    start_ms: (ts + j * step) as i32,
                    end_ms: (ts + (j + 1) * step) as i32,
                },
        )
    } else {
        Seq::empty()
    }
}

/// The text after tag `i`, up to the next tag or the end, trimmed.
pub open spec fn tag_segment(content: Seq<char>, tags: Seq<(int, int, i32)>, i: int) -> Seq<char> {
    let e = if i < tags.len() - 1 {
        tags[i + 1].0
    } else {
        content.len() as int
    };
    trim(content.subrange(tags[i].1, e))
}

/// Where the text after tag `i` ends: at the next tag, or for the last tag
/// by StepStrider.
pub open spec fn tag_next_ms(content: Seq<char>, tags: Seq<(int, int, i32)>, i: int, hd: HeuristicsView) -> int {
    if i < tags.len() - 1 {
        tags[i + 1].2 as int
    } else {
        tags[i].2 + spec_step_strider_duration(tag_segment(content, tags, i), hd)
    }
}

/// The words after tag `i`, spread evenly up to where the text ends (100 ms
/// each if that is not later), each capped by WordWarden.
pub open spec fn tag_words(content: Seq<char>, tags: Seq<(int, int, i32)>, i: int, hd: HeuristicsView) -> Seq<WordView> {
    let cur = tags[i].2 as int;
    let wt = tag_segment(content, tags, i);
    let subs = ws_words(wt);
    let k = subs.len() as int;
    if wt.len() > 0 && k > 0 {
        let td = tag_next_ms(content, tags, i, hd) - cur;
        let step = if td > 0 {
            td / k
        } else {
            100
        };
        Seq::new(
            subs.len(),
            |j: int|
                WordView {
                    word: subs[j],
                    start_ms: (cur + j * step) as i32,
                    end_ms: spec_word_warden_cap(subs[j], cur + j * step, cur + (j + 1) * step) as i32,
                },
        )
    } else {
        Seq::empty()
    }
}

pub open spec fn all_tag_words(content: Seq<char>, tags: Seq<(int, int, i32)>, hd: HeuristicsView, k: int) -> Seq<WordView>
    decreases k,
{
    if k <= 0 {
        Seq::empty()
    } else {
        all_tag_words(content, tags, hd, k - 1) + tag_words(content, tags, k - 1, hd)
    }
}

pub open spec fn start_key() -> spec_fn(WordView) -> int {
    |w: WordView| w.start_ms as int
}

/// EchoPause for tagged words: a word followed by a repeat of itself less
/// than 100 ms later ends earlier, to leave a 100 ms gap, but keeps at
/// least 100 ms.
pub open spec fn echo_adjust_one(ws: Seq<WordView>, i: int) -> WordView {
    let w = ws[i];
    if i < ws.len() - 1 && spec_echo_pause(w.word, ws[i + 1].word) {
        let gap = ws[i + 1].start_ms - w.end_ms;
        let max_shorten = w.end_ms - w.start_ms - 100;
        if gap < 100 && max_shorten > 0 {
            let by = if 100 - gap < max_shorten {
                100 - gap
            } else {
                max_shorten
            };
            WordView { word: w.word, start_ms: w.start_ms, end_ms: (w.end_ms - by) as i32 }
        } else {
            w
        }
    } else {
        w
    }
}

pub open spec fn echo_adjust(ws: Seq<WordView>) -> Seq<WordView> {
    Seq::new(ws.len(), |i: int| echo_adjust_one(ws, i))
}

/// The timed words of a line with word tags that starts at `ts`.
pub open spec fn spec_tagged_times(ts: int, content: Seq<char>, hd: HeuristicsView) -> Seq<WordView> {
    let tags = scan_tags(content);
    let raw = leading_words(ts, content, tags[0]) + all_tag_words(content, tags, hd, tags.len() as int);
    echo_adjust(sort_by(raw, start_key()))
}

impl Keyed for WordInfo {
    open spec fn key_spec(&self) -> int {
        self.start_ms as int
    }

    fn key(&self) -> (r: i32) {
        self.start_ms
    }
}

/// Where the words before the first tag end (the line's start if there
/// are none).
pub open spec fn leading_end(ts: int, content: Seq<char>, first: (int, int, i32)) -> int {
    let lead = trim(content.take(first.0));
    let k = ws_words(lead).len() as int;
    if first.0 > 0 && lead.len() > 0 && k > 0 {
        let d = first.2 - ts;
        let step = if d > 0 {
            d / k
        } else {
            100
        };
        ts + k * step
    } else {
        ts
    }
}

/// Where the words after tag `i` end at the latest (the tag's time if
/// there are none).
pub open spec fn tag_end(content: Seq<char>, tags: Seq<(int, int, i32)>, i: int, hd: HeuristicsView) -> int {
    let cur = tags[i].2 as int;
    let wt = tag_segment(content, tags, i);
    let k = ws_words(wt).len() as int;
    if wt.len() > 0 && k > 0 {
        let td = tag_next_ms(content, tags, i, hd) - cur;
        let step = if td > 0 {
            td / k
        } else {
            100
        };
        cur + k * step
    } else {
        cur
    }
}

/// The times of a line with word tags fit in `i32`.
pub open spec fn tagged_fits(ts: int, content: Seq<char>, hd: HeuristicsView) -> bool {
    let tags = scan_tags(content);
    &&& leading_end(ts, content, tags[0]) <= i32::MAX
    &&& forall|i: int| 0 <= i < tags.len() ==> #[trigger] tag_end(content, tags, i, hd) <= i32::MAX
}

fn words_to_infos_even(
    ws: &Vec<Vec<char>>,
    base: i32,
    step: i128,
    hd: &HeuristicsData,
    cap: bool,
    out: &mut Vec<WordInfo>,
)
    requires
        0 <= step,
        base + ws.len() * step <= i32::MAX,
    ensures
        words_view(final(out)@) == words_view(old(out)@) + Seq::new(
            ws@.len(),
            |j: int|
                WordView {
                    word: ws@[j]@,
                    start_ms: (base + j * step) as i32,
                    end_ms: if cap {
                        spec_word_warden_cap(ws@[j]@, base + j * step, base + (j + 1) * step) as i32
                    } else {
                        (base + (j + 1) * step) as i32
                    },
                },
        ),
{
    let ghost start = words_view(out@);
    let mut j: usize = 0;
    while j < ws.len()
        invariant
            j <= ws.len(),
            0 <= step,
            base + ws.len() * step <= i32::MAX,
            words_view(out@) == start + Seq::new(
                j as nat,
                |q: int|
                    WordView {
                        word: ws@[q]@,
                        start_ms: (base + q * step) as i32,
                        end_ms: if cap {
                            spec_word_warden_cap(ws@[q]@, base + q * step, base + (q + 1) * step) as i32
                        } else {
                            (base + (q + 1) * step) as i32
                        },
                    },
            ),
        decreases ws.len() - j,
    {
        assert(0 <= j * step <= (j + 1) * step <= ws.len() * step) by (nonlinear_arith)
            requires
                j < ws.len(),
                step >= 0,
        ;
        let st: i128 = (base as i128) + (j as i128) * step;
        let oe: i128 = (base as i128) + ((j as i128) + 1) * step;
        let end: i32 = if cap {
            word_warden_vec(&ws[j], st as i32, oe as i32)
        } else {
            oe as i32
        };
        let ghost before = words_view(out@);
        out.push(WordInfo { word: string_of(&ws[j]), start_ms: st as i32, end_ms: end });
        assert(words_view(out@) =~= before.push(words_view(out@).last()));
        assert(words_view(out@) =~= start + Seq::new(
            (j + 1) as nat,
            |q: int|
                WordView {
                    word: ws@[q]@,
                    start_ms: (base + q * step) as i32,
                    end_ms: if cap {
                        spec_word_warden_cap(ws@[q]@, base + q * step, base + (q + 1) * step) as i32
                    } else {
                        (base + (q + 1) * step) as i32
                    },
                },
        ));
        j = j + 1;
    }
}

fn leading_words_vec(ts: i32, content: &Vec<char>, first: TagSpan, hd: &HeuristicsData, out: &mut Vec<WordInfo>) -> (ok: bool)
    requires
        first.start <= content@.len(),
        0 <= first.timestamp_ms,
    ensures
        ok == (leading_end(ts as int, content@, span_view(first)) <= i32::MAX),
        ok ==> words_view(final(out)@) == words_view(old(out)@) + leading_words(
            ts as int,
            content@,
            span_view(first),
        ),
{
    let ghost expected = leading_words(ts as int, content@, span_view(first));
    if first.start > 0 {
        let prefix = copy_range(content, 0, first.start);
        assert(prefix@ =~= content@.take(first.start as int));
        let lead = trim_vec(&prefix);
        if lead.len() > 0 {
            let ws = split_whitespace_vec(&lead);
            assert(vviews(ws@) =~= ws_words(lead@));
            if ws.len() > 0 {
                let k = ws.len() as i128;
                let d: i128 = (first.timestamp_ms as i128) - (ts as i128);
                let step: i128 = if d > 0 {
                    d / k
                } else {
                    100
                };
                assert(0 <= step <= 0x1_0000_0000) by (nonlinear_arith)
                    requires
                        d <= 0x1_0000_0000,
                        k >= 1,
                        step == if d > 0 {
                            d / k
                        } else {
                            100
                        },
                ;
                assert(k * step <= 0x1_0000_0000_0000_0000 * 0x1_0000_0000) by (nonlinear_arith)
                    requires
                        1 <= k <= 0x1_0000_0000_0000_0000,
                        0 <= step <= 0x1_0000_0000,
                ;
                if (ts as i128) + k * step > i32::MAX as i128 {
                    return false;
                }
                let ghost before = words_view(out@);
                words_to_infos_even(&ws, ts, step, hd, false, out);
                assert(words_view(out@) =~= before + expected);
                return true;
            }
        }
    }
    assert(expected =~= Seq::<WordView>::empty());
    assert(words_view(out@) =~= words_view(old(out)@) + expected);
    true
}

/// Tag positions from a scan of `content`, with the facts that the timing
/// needs.
pub open spec fn tags_ok(content: Seq<char>, tags: Seq<TagSpan>) -> bool {
    &&& tags.len() == scan_tags(content).len()
    &&& forall|k: int| 0 <= k < tags.len() ==> span_view(#[trigger] tags[k]) == scan_tags(content)[k]
    &&& forall|k: int|
        0 <= k < tags.len() ==> (#[trigger] tags[k]).start < tags[k].end <= content.len()
    &&& forall|k: int| 0 <= k < tags.len() - 1 ==> (#[trigger] tags[k]).end <= tags[k + 1].start
    &&& forall|k: int| 0 <= k < tags.len() ==> 0 <= (#[trigger] tags[k]).timestamp_ms
}

fn tag_words_vec(content: &Vec<char>, tags: &Vec<TagSpan>, i: usize, hd: &HeuristicsData, out: &mut Vec<WordInfo>) -> (ok: bool)
    requires
        i < tags.len(),
        tags_ok(content@, tags@),
    ensures
        ok == (tag_end(content@, scan_tags(content@), i as int, hd@) <= i32::MAX),
        ok ==> words_view(final(out)@) == words_view(old(out)@) + tag_words(
            content@,
            scan_tags(content@),
            i as int,
            hd@,
        ),
{
    let ghost st = scan_tags(content@);
    let ghost expected = tag_words(content@, st, i as int, hd@);
    assert(span_view(tags@[i as int]) == st[i as int]);
    let m = tags.len();
    let cur = tags[i].timestamp_ms;
    let s = tags[i].end;
    let e = if i < m - 1 {
        assert(span_view(tags@[i + 1]) == st[i + 1]);
        tags[i + 1].start
    } else {
        content.len()
    };
    let raw = copy_range(content, s, e);
    let seg = trim_vec(&raw);
    assert(seg@ == tag_segment(content@, st, i as int));
    if seg.len() == 0 {
        assert(words_view(out@) =~= words_view(old(out)@) + expected);
        return true;
    }
    let subs = split_whitespace_vec(&seg);
    assert(vviews(subs@) =~= ws_words(seg@));
    if subs.len() == 0 {
        assert(words_view(out@) =~= words_view(old(out)@) + expected);
        return true;
    }
    let next: i128 = if i < m - 1 {
        tags[i + 1].timestamp_ms as i128
    } else {
        (cur as i128) + step_strider_duration_vec(&seg, hd) as i128
    };
    assert(next == tag_next_ms(content@, st, i as int, hd@));
    let k = subs.len() as i128;
    let td: i128 = next - (cur as i128);
    let step: i128 = if td > 0 {
        td / k
    } else {
        100
    };
    proof {
        crate::heuristics::lemma_step_strider_duration_bounds(seg@, hd@);
    }
    assert(0 <= step <= 0x1_0000_0000) by (nonlinear_arith)
        requires
            td <= 0x1_0000_0000,
            k >= 1,
            step == if td > 0 {
                td / k
            } else {
                100
            },
    ;
    assert(k * step <= 0x1_0000_0000_0000_0000 * 0x1_0000_0000) by (nonlinear_arith)
        requires
            1 <= k <= 0x1_0000_0000_0000_0000,
            0 <= step <= 0x1_0000_0000,
    ;
    if (cur as i128) + k * step > i32::MAX as i128 {
        return false;
    }
    let ghost before = words_view(out@);
    words_to_infos_even(&subs, cur, step, hd, true, out);
    assert(words_view(out@) =~= before + expected);
    true
}

fn echo_adjust_vec(ws: &mut Vec<WordInfo>)
    ensures
        words_view(final(ws)@) == echo_adjust(words_view(old(ws)@)),
{
    let ghost orig = words_view(ws@);
    let n = ws.len();
    if n < 2 {
        assert(words_view(ws@) =~= echo_adjust(orig));
        return;
    }
    let mut i: usize = 0;
    while i < n - 1
        invariant
            n == ws.len(),
            n >= 2,
            i <= n - 1,
            orig.len() == n,
            forall|j: int| 0 <= j < i ==> #[trigger] words_view(ws@)[j] == echo_adjust_one(orig, j),
            forall|j: int| i <= j < n ==> #[trigger] words_view(ws@)[j] == orig[j],
        decreases n - 1 - i,
    {
        assert(words_view(ws@)[i as int] == orig[i as int]);
        assert(words_view(ws@)[i + 1] == orig[i + 1]);
        let mut w1 = ws[i].duplicate();
        let echo = echo_pause_vec(&chars_of(ws[i].word.as_str()), &chars_of(ws[i + 1].word.as_str()));
        if echo {
            let gap: i64 = (ws[i + 1].start_ms as i64) - (w1.end_ms as i64);
            let max_shorten: i64 = (w1.end_ms as i64) - (w1.start_ms as i64) - 100;
            if gap < 100 && max_shorten > 0 {
                let by: i64 = if 100 - gap < max_shorten {
                    100 - gap
                } else {
                    max_shorten
                };
                w1.end_ms = ((w1.end_ms as i64) - by) as i32;
            }
        }
        assert(w1@ == echo_adjust_one(orig, i as int));
        let ghost before = ws@;
        ws.set(i, w1);
        proof {
            assert forall|j: int| 0 <= j < n implies #[trigger] words_view(ws@)[j] == (if j == i {
                echo_adjust_one(orig, i as int)
            } else {
                words_view(before)[j]
            }) by {
                assert(words_view(ws@)[j] == ws@[j]@);
                if j != i {
                    assert(words_view(before)[j] == before[j]@);
                }
            }
        }
        i = i + 1;
    }
    assert(echo_adjust_one(orig, n - 1) == orig[n - 1]);
    assert(words_view(ws@) =~= echo_adjust(orig));
}

proof fn lemma_scanned_tags_ok(content: Seq<char>, tags: Seq<TagSpan>)
    requires
        tags.len() == scan_tags(content).len(),
        forall|k: int| 0 <= k < tags.len() ==> span_view(#[trigger] tags[k]) == scan_tags(content)[k],
    ensures
        tags_ok(content, tags),
{
    let st = scan_tags(content);
    crate::parser::lemma_scan_tags_bounds_pub(content);
    crate::parser::lemma_scan_tags_ordered(content, 0);
    assert forall|k: int| 0 <= k < tags.len() implies (#[trigger] tags[k]).start < tags[k].end
        <= content.len() by {
        assert(span_view(tags[k]) == st[k]);
    }
    assert forall|k: int| 0 <= k < tags.len() - 1 implies (#[trigger] tags[k]).end <= tags[k + 1].start by {
        assert(span_view(tags[k]) == st[k]);
        assert(span_view(tags[k + 1]) == st[k + 1]);
    }
    assert forall|k: int| 0 <= k < tags.len() implies 0 <= (#[trigger] tags[k]).timestamp_ms by {
        assert(span_view(tags[k]) == st[k]);
    }
}

/// Case B of `parse_line_to_words`: words timed by their tags; `None` when
/// a time does not fit in `i32`.
pub fn tagged_times_try(ts: i32, content: &Vec<char>, hd: &HeuristicsData) -> (r: Option<Vec<WordInfo>>)
    requires
        scan_tags(content@).len() > 0,
    ensures
        r is Some <==> tagged_fits(ts as int, content@, hd@),
        r matches Some(v) ==> words_view(v@) == spec_tagged_times(ts as int, content@, hd@),
{
    let tags = scan_tags_vec(content);
    let ghost st = scan_tags(content@);
    proof {
        lemma_scanned_tags_ok(content@, tags@);
    }
    let mut raw: Vec<WordInfo> = Vec::new();
    assert(span_view(tags@[0]) == st[0]);
    let ok = leading_words_vec(ts, content, tags[0], hd, &mut raw);
    if !ok {
        return None;
    }
    let ghost lead = leading_words(ts as int, content@, st[0]);
    assert(words_view(raw@) =~= lead);
    let mut i: usize = 0;
    while i < tags.len()
        invariant
            i <= tags.len(),
            tags_ok(content@, tags@),
            st == scan_tags(content@),
            words_view(raw@) == lead + all_tag_words(content@, st, hd@, i as int),
            forall|q: int| 0 <= q < i ==> #[trigger] tag_end(content@, st, q, hd@) <= i32::MAX,
        decreases tags.len() - i,
    {
        let ok = tag_words_vec(content, &tags, i, hd, &mut raw);
        if !ok {
            return None;
        }
        assert(lead + all_tag_words(content@, st, hd@, i + 1) =~= lead + all_tag_words(
            content@,
            st,
            hd@,
            i as int,
        ) + tag_words(content@, st, i as int, hd@));
        i = i + 1;
    }
    let ghost raw_seq = raw@;
    let mut sorted = stable_sort(raw);
    proof {
        let f = |w: WordInfo| w@;
        assert forall|a: WordInfo| #[trigger] start_key()(f(a)) == key_of::<WordInfo>()(a) by {}
        lemma_sort_by_map(raw_seq, key_of::<WordInfo>(), f, start_key());
        assert(raw_seq.map_values(f) =~= words_view(raw_seq));
        assert(sorted@.map_values(f) =~= words_view(sorted@));
    }
    echo_adjust_vec(&mut sorted);
    Some(sorted)
}

// ---------------------------------------------------------------------------
// A whole line
// ---------------------------------------------------------------------------

/// The timed words of a line that starts at `ts` and is sung for `dur`:
/// by its word tags where it has any, spread by weight otherwise.
pub open spec fn spec_line_words(ts: int, content: Seq<char>, dur: int, mps: Ratio, hd: HeuristicsView) -> Seq<WordView> {
    if scan_tags(content).len() == 0 {
        spec_plain_times(ts, content, dur, mps, hd)
    } else {
        spec_tagged_times(ts, content, hd)
    }
}

/// The white-space separated words of a line with word tags, outside its
/// tags: those before the first tag, then those after each tag up to the
/// next (or the end).
pub open spec fn outside_words(content: Seq<char>) -> Seq<Seq<char>> {
    let tags = scan_tags(content);
    ws_words(trim(content.take(tags[0].0))) + words_after_tags(content, tags, tags.len() as int)
}

pub open spec fn words_after_tags(content: Seq<char>, tags: Seq<(int, int, i32)>, k: int) -> Seq<Seq<char>>
    decreases k,
{
    if k <= 0 {
        Seq::empty()
    } else {
        let e = if k - 1 < tags.len() - 1 {
            tags[k].0
        } else {
            content.len() as int
        };
        words_after_tags(content, tags, k - 1) + ws_words(trim(content.subrange(tags[k - 1].1, e)))
    }
}

proof fn lemma_ws_words_empty()
    ensures
        ws_words(Seq::<char>::empty()) == Seq::<Seq<char>>::empty(),
        trim(Seq::<char>::empty()) == Seq::<char>::empty(),
{
}

proof fn lemma_leading_texts(ts: int, content: Seq<char>, first: (int, int, i32))
    requires
        0 <= first.0,
    ensures
        word_texts(leading_words(ts, content, first)) == ws_words(trim(content.take(first.0))),
{
    lemma_ws_words_empty();
    let lead = trim(content.take(first.0));
    let ws = ws_words(lead);
    if first.0 > 0 && lead.len() > 0 && ws.len() > 0 {
        assert(word_texts(leading_words(ts, content, first)) =~= ws);
    } else {
        if first.0 == 0 {
            assert(content.take(0) =~= Seq::<char>::empty());
        }
        if lead.len() == 0 {
            assert(lead =~= Seq::<char>::empty());
        }
        assert(word_texts(leading_words(ts, content, first)) =~= Seq::<Seq<char>>::empty());
    }
}

proof fn lemma_tag_words_texts(content: Seq<char>, tags: Seq<(int, int, i32)>, i: int, hd: HeuristicsView)
    ensures
        word_texts(tag_words(content, tags, i, hd)) == ws_words(tag_segment(content, tags, i)),
{
    lemma_ws_words_empty();
    let wt = tag_segment(content, tags, i);
    let subs = ws_words(wt);
    if wt.len() > 0 && subs.len() > 0 {
        assert(word_texts(tag_words(content, tags, i, hd)) =~= subs);
    } else {
        if wt.len() == 0 {
            assert(wt =~= Seq::<char>::empty());
        }
        assert(word_texts(tag_words(content, tags, i, hd)) =~= Seq::<Seq<char>>::empty());
    }
}

proof fn lemma_all_tag_texts(content: Seq<char>, tags: Seq<(int, int, i32)>, hd: HeuristicsView, k: int)
    ensures
        word_texts(all_tag_words(content, tags, hd, k)) == words_after_tags(content, tags, k),
    decreases k,
{
    if k > 0 {
        lemma_all_tag_texts(content, tags, hd, k - 1);
        lemma_tag_words_texts(content, tags, k - 1, hd);
        let a = all_tag_words(content, tags, hd, k - 1);
        let b = tag_words(content, tags, k - 1, hd);
        assert(word_texts(a + b) =~= word_texts(a) + word_texts(b));
    } else {
        assert(word_texts(all_tag_words(content, tags, hd, k)) =~= Seq::<Seq<char>>::empty());
    }
}

/// A line with word tags keeps every word of its text: the words it is
/// timed as are, counted with repeats, the white-space separated words
/// before its first tag and after each of its tags.
pub proof fn lemma_tagged_words_kept(ts: int, content: Seq<char>, dur: int, mps: Ratio, hd: HeuristicsView)
    requires
        scan_tags(content).len() > 0,
    ensures
        word_texts(spec_line_words(ts, content, dur, mps, hd)).to_multiset() == outside_words(content).to_multiset(),
{
    let tags = scan_tags(content);
    crate::parser::lemma_scan_tags_bounds_pub(content);
    assert(0 <= tags[0].0);
    let lead = leading_words(ts, content, tags[0]);
    let rest = all_tag_words(content, tags, hd, tags.len() as int);
    let raw = lead + rest;
    lemma_leading_texts(ts, content, tags[0]);
    lemma_all_tag_texts(content, tags, hd, tags.len() as int);
    assert(word_texts(raw) =~= word_texts(lead) + word_texts(rest));
    let sorted = sort_by(raw, start_key());
    lemma_sort_by_map_multiset(raw, start_key(), |w: WordView| w.word);
    assert(word_texts(echo_adjust(sorted)) =~= word_texts(sorted));
}

/// The text before a line's first word tag is timed from the line's
/// start: its first word is among the line's words, starting at the line's
/// timestamp.
pub proof fn lemma_leading_text_starts_line(ts: int, content: Seq<char>, dur: int, mps: Ratio, hd: HeuristicsView)
    requires
        i32::MIN <= ts <= i32::MAX,
        scan_tags(content).len() > 0,
        scan_tags(content)[0].0 > 0,
        ws_words(trim(content.take(scan_tags(content)[0].0))).len() > 0,
    ensures
        exists|i: int|
            0 <= i < spec_line_words(ts, content, dur, mps, hd).len() && (#[trigger] spec_line_words(
                ts,
                content,
                dur,
                mps,
                hd,
            )[i]).word == ws_words(trim(content.take(scan_tags(content)[0].0)))[0] && spec_line_words(
                ts,
                content,
                dur,
                mps,
                hd,
            )[i].start_ms == ts,
{
    broadcast use vstd::seq_lib::group_to_multiset_ensures, vstd::seq_lib::to_multiset_contains;

    let tags = scan_tags(content);
    let lead_text = trim(content.take(tags[0].0));
    lemma_ws_words_empty();
    if lead_text.len() == 0 {
        assert(lead_text =~= Seq::<char>::empty());
    }
    let lead = leading_words(ts, content, tags[0]);
    let raw = lead + all_tag_words(content, tags, hd, tags.len() as int);
    assert(lead.len() > 0);
    let w0 = raw[0];
    assert(w0 == lead[0]);
    assert(w0.word == ws_words(lead_text)[0] && w0.start_ms == ts);
    let sorted = sort_by(raw, start_key());
    crate::sort::lemma_sort_by_sorted(raw, start_key());
    assert(raw.contains(w0));
    assert(raw.to_multiset().count(w0) > 0);
    assert(sorted.contains(w0));
    let i = choose|i: int| 0 <= i < sorted.len() && sorted[i] == w0;
    let r = echo_adjust(sorted);
    assert(r[i] == echo_adjust_one(sorted, i));
    assert(r[i].word == w0.word && r[i].start_ms == w0.start_ms);
    let out = spec_line_words(ts, content, dur, mps, hd);
    assert(out == r);
    assert(0 <= i < out.len() && out[i].word == ws_words(lead_text)[0] && out[i].start_ms == ts);
}

/// The times of a line fit in `i32`.
pub open spec fn line_fits(ts: int, content: Seq<char>, dur: int, mps: Ratio, hd: HeuristicsView) -> bool {
    if scan_tags(content).len() == 0 {
        plain_fits(ts, content, dur, mps, hd)
    } else {
        tagged_fits(ts, content, hd)
    }
}

/// Splits a lyric line into words with start and end times.
///
/// A line with word tags (`<mm:ss.xx>`) is timed by its tags; any other line
/// has its words spread over its singing time by weight (see
/// `spec_plain_times`). The times are computed exactly; the line is taken
/// when they fit in `i32`.
pub fn parse_line_to_words(
    line_timestamp_ms: i32,
    line_content: &str,
    line_duration_ms: i32,
    ms_per_syllable: Ratio,
    hd: &HeuristicsData,
) -> (r: Vec<WordInfo>)
    requires
        ms_per_syllable.wf(),
        line_fits(line_timestamp_ms as int, line_content@, line_duration_ms as int, ms_per_syllable, hd@),
    ensures
        words_view(r@) == spec_line_words(
            line_timestamp_ms as int,
            line_content@,
            line_duration_ms as int,
            ms_per_syllable,
            hd@,
        ),
{
    let content = chars_of(line_content);
    match line_words_try(line_timestamp_ms, &content, line_duration_ms, ms_per_syllable, hd) {
        Some(v) => v,
        None => Vec::new(),
    }
}

/// `parse_line_to_words`, or `None` when a time of the line would not fit
/// in `i32`.
pub fn try_parse_line_to_words(
    line_timestamp_ms: i32,
    line_content: &str,
    line_duration_ms: i32,
    ms_per_syllable: Ratio,
    hd: &HeuristicsData,
) -> (r: Option<Vec<WordInfo>>)
    requires
        ms_per_syllable.wf(),
    ensures
        r is Some <==> line_fits(line_timestamp_ms as int, line_content@, line_duration_ms as int, ms_per_syllable, hd@),
        r matches Some(v) ==> words_view(v@) == spec_line_words(
            line_timestamp_ms as int,
            line_content@,
            line_duration_ms as int,
            ms_per_syllable,
            hd@,
        ),
{
    let content = chars_of(line_content);
    if line_words_try(line_timestamp_ms, &content, line_duration_ms, ms_per_syllable, hd).is_some() {
        Some(parse_line_to_words(line_timestamp_ms, line_content, line_duration_ms, ms_per_syllable, hd))
    } else {
        None
    }
}

/// The words of a line, or `None` when its times do not fit in `i32`.
pub fn line_words_try(ts: i32, content: &Vec<char>, dur: i32, mps: Ratio, hd: &HeuristicsData) -> (r: Option<
    Vec<WordInfo>,
>)
    requires
        mps.wf(),
    ensures
        r is Some <==> line_fits(ts as int, content@, dur as int, mps, hd@),
        r matches Some(v) ==> words_view(v@) == spec_line_words(ts as int, content@, dur as int, mps, hd@),
{
    let tags = scan_tags_vec(content);
    if tags.len() == 0 {
        plain_times_try(ts, content, dur, mps, hd)
    } else {
        tagged_times_try(ts, content, hd)
    }
}

} // verus!
