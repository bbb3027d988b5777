//! Aligning a whole LRC source: two passes over its timed lines.
use vstd::prelude::*;
use crate::align::{line_fits, line_words_try, spec_line_words};
use crate::braces::{
    lemma_split_keeps_words, lemma_split_timeline, spec_split_braced, split_line_if_braced, word_texts,
};
use crate::language::{
    HeuristicsData, HeuristicsView, LanguageEntry, detect_language_vec, embedded_languages,
    embedded_languages_view, resolve_heuristics_in, spec_detect_in, spec_resolve_in, table_view,
};
use crate::lyrics::{
    Line, LineView, ParsedLrcLine, ParsedLineView, WordInfo, WordView, lines_view, parsed_view,
    words_view,
};
use crate::parser::{
    clean_whitespace_vec, count_line_syllables, lemma_clean_text_tag_free, spec_clean_whitespace,
    spec_count_line_syllables, strip_tags, strip_tags_vec, tag_free,
};
use crate::rate::{RateRider, lemma_rate_tempo_positive, rate_fits, spec_rate_tempo};
use crate::ratio::{Ratio, RATIO_LIMIT};
use crate::sort::{
    Keyed, key_of, lemma_sort_by_keeps, lemma_sort_by_map, lemma_sort_by_sorted, sort_by, sorted_by,
    stable_sort,
};
use crate::source::{lemma_source_lines_len, lemma_source_lines_nonneg, source_lines, source_lines_vec};
use crate::tempo::{
    apply_flextrack_compression, apply_gap_glide_estimation, apply_gap_sentry_check,
    calculate_echo_echo_similarity, estimated_singing, spec_estimated_singing, spec_flextrack,
    spec_gap_glide, spec_gap_sentry, spec_similarity,
};
use crate::text::{chars_of, join_with, seq_eq, string_of};
use crate::timeline::{is_timeline, lemma_flextrack_timeline, lemma_line_words_timeline};

verus! {

// ---------------------------------------------------------------------------
// The model
// ---------------------------------------------------------------------------

pub open spec fn auto_mode() -> Seq<char> {
    seq!['a', 'u', 't', 'o']
}

/// The heuristics of the song, from the language table `t`: those of the
/// language mode, or in `"auto"` mode those of the language detected in the
/// whole source.
pub open spec fn song_heuristics(t: Seq<(Seq<char>, HeuristicsView)>, lrc: Seq<char>, mode: Seq<char>) -> HeuristicsView {
    if mode == auto_mode() {
        spec_resolve_in(t, spec_detect_in(t, lrc))
    } else {
        spec_resolve_in(t, mode)
    }
}

/// The heuristics of one line: in `"auto"` mode those of the language
/// detected in the line (its tags left out), otherwise the song's.
pub open spec fn line_heuristics(
    t: Seq<(Seq<char>, HeuristicsView)>,
    text: Seq<char>,
    mode: Seq<char>,
    song: HeuristicsView,
) -> HeuristicsView {
    if mode == auto_mode() {
        spec_resolve_in(t, spec_detect_in(t, strip_tags(text)))
    } else {
        song
    }
}

pub open spec fn ts_key() -> spec_fn(ParsedLineView) -> int {
    |l: ParsedLineView| l.timestamp_ms as int
}

pub open spec fn line_ts_key() -> spec_fn(LineView) -> int {
    |l: LineView| l.timestamp_ms as int
}

/// The timed lines of the source, in order of time (stable).
pub open spec fn sorted_lines(lrc: Seq<char>) -> Seq<ParsedLineView> {
    sort_by(source_lines(lrc), ts_key())
}

/// The time from line `idx` to the next, or 5000 ms for the last line.
pub open spec fn line_duration(lines: Seq<ParsedLineView>, idx: int) -> int {
    if idx < lines.len() - 1 {
        lines[idx + 1].timestamp_ms - lines[idx].timestamp_ms
    } else {
        5000
    }
}

/// How line `idx` is sung at tempo `mps`: whether an instrumental gap
/// follows it (GapSentry, on `syllables * tempo + 800 ms`), its singing
/// span (GapGlide before a gap, the time to the next line otherwise), and
/// its words, timed over that span and compressed by FlexTrack.
pub open spec fn line_timing(
    lines: Seq<ParsedLineView>,
    idx: int,
    hd: HeuristicsView,
    mps: Ratio,
) -> (bool, i32, Seq<WordView>) {
    let cur = lines[idx];
    let d = line_duration(lines, idx);
    let syl = spec_count_line_syllables(cur.text, hd.syllable_vowels);
    let gap = spec_gap_sentry(d, spec_estimated_singing(syl as int, mps) as int);
    let sing: i32 = if gap {
        spec_gap_glide(cur.text, d, mps, hd.syllable_vowels)
    } else {
        d as i32
    };
    let words = spec_flextrack(
        spec_line_words(cur.timestamp_ms as int, cur.text, sing as int, mps, hd),
        sing as int,
        cur.timestamp_ms as int,
        mps,
    );
    (gap, sing, words)
}

/// A standard line of the first pass: a line with words, not followed by a
/// gap, whose words end by 150 ms before the next line. It records its
/// text and its own tempo: the span of its words over its syllables.
pub open spec fn standard_entry(lines: Seq<ParsedLineView>, idx: int, hd: HeuristicsView, rr: Ratio) -> Option<
    (Seq<char>, Ratio),
> {
    let cur = lines[idx];
    let (gap, _sing, words) = line_timing(lines, idx, hd, rr);
    if !gap && words.len() > 0 && words.last().end_ms <= cur.timestamp_ms + line_duration(lines, idx)
        - 150 {
        Some(
            (
                cur.text,
                Ratio {
                    num: (words.last().end_ms - words[0].start_ms) as i64,
                    den: spec_count_line_syllables(cur.text, hd.syllable_vowels) as i64,
                },
            ),
        )
    } else {
        None
    }
}

pub open spec fn standard_lines(
    t: Seq<(Seq<char>, HeuristicsView)>,
    lines: Seq<ParsedLineView>,
    mode: Seq<char>,
    song: HeuristicsView,
    rr: Ratio,
    k: int,
) -> Seq<(Seq<char>, Ratio)>
    decreases k,
{
    if k <= 0 {
        Seq::empty()
    } else {
        let prev = standard_lines(t, lines, mode, song, rr, k - 1);
        match standard_entry(lines, k - 1, line_heuristics(t, lines[k - 1].text, mode, song), rr) {
            Some(e) => prev.push(e),
            None => prev,
        }
    }
}

/// EchoEcho over the first `k` standard lines: the best similarity so far
/// (from 0) and the tempo of the first line that reached it, among those
/// at least 0.70 similar.
pub open spec fn echo_fold(text: Seq<char>, stds: Seq<(Seq<char>, Ratio)>, k: int) -> (Ratio, Option<Ratio>)
    decreases k,
{
    if k <= 0 {
        (Ratio { num: 0, den: 1 }, None)
    } else {
        let (best, tempo) = echo_fold(text, stds, k - 1);
        let sim = spec_similarity(text, stds[k - 1].0);
        if 10 * sim.num >= 7 * sim.den && best.lt(sim) {
            (sim, Some(stds[k - 1].1))
        } else {
            (best, tempo)
        }
    }
}

/// The tempo of a line in the second pass: that of the most similar
/// standard line, if one is similar enough, else the RateRider tempo.
pub open spec fn line_tempo(text: Seq<char>, stds: Seq<(Seq<char>, Ratio)>, rr: Ratio) -> Ratio {
    match echo_fold(text, stds, stds.len() as int).1 {
        Some(t) => t,
        None => rr,
    }
}

/// A line of the second pass, before backing vocals are split off.
pub open spec fn final_line(
    t: Seq<(Seq<char>, HeuristicsView)>,
    lines: Seq<ParsedLineView>,
    idx: int,
    mode: Seq<char>,
    song: HeuristicsView,
    rr: Ratio,
    stds: Seq<(Seq<char>, Ratio)>,
) -> LineView {
    let cur = lines[idx];
    let hd = line_heuristics(t, cur.text, mode, song);
    let (gap, sing, words) = line_timing(lines, idx, hd, line_tempo(cur.text, stds, rr));
    LineView {
        timestamp_ms: cur.timestamp_ms,
        text: spec_clean_whitespace(strip_tags(cur.text)),
        words: words,
        is_right_aligned: false,
        braced_text: None,
        singing_duration_ms: sing,
        is_gap_next: gap,
    }
}

pub open spec fn final_lines_upto(
    t: Seq<(Seq<char>, HeuristicsView)>,
    lines: Seq<ParsedLineView>,
    mode: Seq<char>,
    song: HeuristicsView,
    rr: Ratio,
    stds: Seq<(Seq<char>, Ratio)>,
    k: int,
) -> Seq<LineView>
    decreases k,
{
    if k <= 0 {
        Seq::empty()
    } else {
        final_lines_upto(t, lines, mode, song, rr, stds, k - 1) + spec_split_braced(
            final_line(t, lines, k - 1, mode, song, rr, stds),
        )
    }
}

/// The aligned lines of an LRC source, in order of time, with the
/// heuristics of the language table `t`.
pub open spec fn spec_parse_lrc_in(t: Seq<(Seq<char>, HeuristicsView)>, lrc: Seq<char>, mode: Seq<char>) -> Seq<
    LineView,
> {
    let lines = sorted_lines(lrc);
    let song = song_heuristics(t, lrc, mode);
    let rr = spec_rate_tempo(lines, song);
    let stds = standard_lines(t, lines, mode, song, rr, lines.len() as int);
    sort_by(final_lines_upto(t, lines, mode, song, rr, stds, lines.len() as int), line_ts_key())
}

/// The aligned lines of an LRC source, with the built-in language data.
pub open spec fn spec_parse_lrc(lrc: Seq<char>, mode: Seq<char>) -> Seq<LineView> {
    spec_parse_lrc_in(embedded_languages_view(), lrc, mode)
}

/// Whether the word times of line `idx`, at tempo `mps`, fit in `i32`.
pub open spec fn timing_fits(lines: Seq<ParsedLineView>, idx: int, hd: HeuristicsView, mps: Ratio) -> bool {
    let cur = lines[idx];
    line_fits(cur.timestamp_ms as int, cur.text, line_timing(lines, idx, hd, mps).1 as int, mps, hd)
}

/// Whether both passes time line `idx` within `i32`: the first at the
/// song's tempo, the second at the line's own.
pub open spec fn passes_fit(
    t: Seq<(Seq<char>, HeuristicsView)>,
    lines: Seq<ParsedLineView>,
    idx: int,
    mode: Seq<char>,
    song: HeuristicsView,
    rr: Ratio,
    stds: Seq<(Seq<char>, Ratio)>,
) -> bool {
    let hd = line_heuristics(t, lines[idx].text, mode, song);
    &&& timing_fits(lines, idx, hd, rr)
    &&& timing_fits(lines, idx, hd, line_tempo(lines[idx].text, stds, rr))
}

/// The sources that the aligner takes with the language table `t`: those
/// whose times fit in `i32` throughout (RateRider's totals and every word
/// of both passes), of at most `RATIO_LIMIT` characters.
pub open spec fn lrc_fits_in(t: Seq<(Seq<char>, HeuristicsView)>, lrc: Seq<char>, mode: Seq<char>) -> bool {
    let lines = sorted_lines(lrc);
    let song = song_heuristics(t, lrc, mode);
    let rr = spec_rate_tempo(lines, song);
    let stds = standard_lines(t, lines, mode, song, rr, lines.len() as int);
    &&& lrc.len() <= RATIO_LIMIT
    &&& rate_fits(lines, song)
    &&& forall|idx: int| 0 <= idx < lines.len() ==> #[trigger] passes_fit(t, lines, idx, mode, song, rr, stds)
}

/// The sources that the aligner takes with the built-in language data.
pub open spec fn lrc_fits(lrc: Seq<char>, mode: Seq<char>) -> bool {
    lrc_fits_in(embedded_languages_view(), lrc, mode)
}

// ---------------------------------------------------------------------------
// Lemmas
// ---------------------------------------------------------------------------

/// Lines never before time 0, with texts of at most `RATIO_LIMIT` characters.
pub open spec fn lines_in_range(lines: Seq<ParsedLineView>) -> bool {
    forall|q: int| 0 <= q < lines.len() ==> (#[trigger] lines[q]).timestamp_ms >= 0 && lines[q].text.len() <= RATIO_LIMIT
}

proof fn lemma_sorted_in_range(lrc: Seq<char>)
    requires
        lrc.len() <= RATIO_LIMIT,
    ensures
        lines_in_range(sorted_lines(lrc)),
        sorted_lines(lrc).len() == source_lines(lrc).len(),
{
    let s = source_lines(lrc);
    lemma_source_lines_len(lrc);
    lemma_source_lines_nonneg(lrc);
    let p = |l: ParsedLineView| l.timestamp_ms >= 0 && l.text.len() <= RATIO_LIMIT;
    assert forall|i: int| 0 <= i < s.len() implies p(#[trigger] s[i]) by {}
    lemma_sort_by_keeps(s, ts_key(), p);
    let r = sorted_lines(lrc);
    assert forall|i: int| 0 <= i < r.len() implies (#[trigger] r[i]).timestamp_ms >= 0 && r[i].text.len()
        <= RATIO_LIMIT by {
        assert(p(r[i]));
    }
}

/// Tempos that the first pass records are proper fractions, and their texts
/// are at most `RATIO_LIMIT` characters.
pub open spec fn tempos_wf(stds: Seq<(Seq<char>, Ratio)>) -> bool {
    forall|k: int| 0 <= k < stds.len() ==> (#[trigger] stds[k]).1.wf() && stds[k].0.len() <= RATIO_LIMIT
}

proof fn lemma_line_timing_timeline(lines: Seq<ParsedLineView>, idx: int, hd: HeuristicsView, mps: Ratio)
    requires
        0 <= idx < lines.len(),
        timing_fits(lines, idx, hd, mps),
        mps.wf(),
    ensures
        is_timeline(line_timing(lines, idx, hd, mps).2),
{
    let cur = lines[idx];
    let sing = line_timing(lines, idx, hd, mps).1;
    lemma_line_words_timeline(cur.timestamp_ms as int, cur.text, sing as int, mps, hd);
    lemma_flextrack_timeline(
        spec_line_words(cur.timestamp_ms as int, cur.text, sing as int, mps, hd),
        sing as int,
        cur.timestamp_ms as int,
        mps,
    );
}

proof fn lemma_standard_entry_wf(lines: Seq<ParsedLineView>, idx: int, hd: HeuristicsView, rr: Ratio)
    requires
        0 <= idx < lines.len(),
        lines_in_range(lines),
        timing_fits(lines, idx, hd, rr),
        rr.wf(),
    ensures
        standard_entry(lines, idx, hd, rr) matches Some(e) ==> e.1.wf() && e.0.len() <= RATIO_LIMIT,
{
    lemma_line_timing_timeline(lines, idx, hd, rr);
    assert(lines[idx].text.len() <= RATIO_LIMIT);
    let words = line_timing(lines, idx, hd, rr).2;
    if words.len() > 0 {
        assert(words[0].start_ms <= words[words.len() - 1].start_ms);
        assert(words[words.len() - 1].start_ms <= words[words.len() - 1].end_ms);
    }
}

proof fn lemma_standard_lines_wf(
    t: Seq<(Seq<char>, HeuristicsView)>,
    lines: Seq<ParsedLineView>,
    mode: Seq<char>,
    song: HeuristicsView,
    rr: Ratio,
    k: int,
)
    requires
        0 <= k <= lines.len(),
        lines_in_range(lines),
        forall|q: int|
            0 <= q < k ==> #[trigger] timing_fits(lines, q, line_heuristics(t, lines[q].text, mode, song), rr),
        rr.wf(),
    ensures
        tempos_wf(standard_lines(t, lines, mode, song, rr, k)),
        standard_lines(t, lines, mode, song, rr, k).len() <= k,
    decreases k,
{
    if k > 0 {
        lemma_standard_lines_wf(t, lines, mode, song, rr, k - 1);
        let hd = line_heuristics(t, lines[k - 1].text, mode, song);
        assert(timing_fits(lines, k - 1, hd, rr));
        lemma_standard_entry_wf(lines, k - 1, hd, rr);
        let prev = standard_lines(t, lines, mode, song, rr, k - 1);
        let cur = standard_lines(t, lines, mode, song, rr, k);
        assert forall|q: int| 0 <= q < cur.len() implies (#[trigger] cur[q]).1.wf() && cur[q].0.len()
            <= RATIO_LIMIT by {
            if q < prev.len() {
                assert(cur[q] == prev[q]);
            }
        }
    }
}

proof fn lemma_echo_fold_tempo(text: Seq<char>, stds: Seq<(Seq<char>, Ratio)>, k: int)
    requires
        0 <= k <= stds.len(),
        tempos_wf(stds),
    ensures
        echo_fold(text, stds, k).1 matches Some(t) ==> t.wf(),
    decreases k,
{
    if k > 0 {
        lemma_echo_fold_tempo(text, stds, k - 1);
        assert(stds[k - 1].1.wf());
    }
}

// ---------------------------------------------------------------------------
// Laws
// ---------------------------------------------------------------------------

/// The aligned lines come out in order of time.
pub proof fn lemma_parse_lrc_sorted(t: Seq<(Seq<char>, HeuristicsView)>, lrc: Seq<char>, mode: Seq<char>)
    ensures
        sorted_by(spec_parse_lrc_in(t, lrc, mode), line_ts_key()),
{
    let lines = sorted_lines(lrc);
    let song = song_heuristics(t, lrc, mode);
    let rr = spec_rate_tempo(lines, song);
    let stds = standard_lines(t, lines, mode, song, rr, lines.len() as int);
    lemma_sort_by_sorted(final_lines_upto(t, lines, mode, song, rr, stds, lines.len() as int), line_ts_key());
}

proof fn lemma_final_lines_count(
    t: Seq<(Seq<char>, HeuristicsView)>,
    lines: Seq<ParsedLineView>,
    mode: Seq<char>,
    song: HeuristicsView,
    rr: Ratio,
    stds: Seq<(Seq<char>, Ratio)>,
    k: int,
)
    requires
        0 <= k,
    ensures
        k <= final_lines_upto(t, lines, mode, song, rr, stds, k).len() <= 2 * k,
    decreases k,
{
    if k > 0 {
        lemma_final_lines_count(t, lines, mode, song, rr, stds, k - 1);
        lemma_split_keeps_words(final_line(t, lines, k - 1, mode, song, rr, stds));
    }
}

/// Each timed line of the source gives one aligned line, or two when its
/// backing vocals split off.
pub proof fn lemma_parse_lrc_count(t: Seq<(Seq<char>, HeuristicsView)>, lrc: Seq<char>, mode: Seq<char>)
    ensures
        source_lines(lrc).len() <= spec_parse_lrc_in(t, lrc, mode).len() <= 2 * source_lines(lrc).len(),
{
    let lines = sorted_lines(lrc);
    let song = song_heuristics(t, lrc, mode);
    let rr = spec_rate_tempo(lines, song);
    let stds = standard_lines(t, lines, mode, song, rr, lines.len() as int);
    let tt = |l: ParsedLineView| true;
    lemma_sort_by_keeps(source_lines(lrc), ts_key(), tt);
    let fl = final_lines_upto(t, lines, mode, song, rr, stds, lines.len() as int);
    lemma_final_lines_count(t, lines, mode, song, rr, stds, lines.len() as int);
    let tl = |l: LineView| true;
    lemma_sort_by_keeps(fl, line_ts_key(), tl);
}

/// A line is right-aligned exactly when it carries braced text, and that
/// text is its own.
pub open spec fn brace_marked(l: LineView) -> bool {
    &&& l.is_right_aligned == l.braced_text is Some
    &&& l.braced_text is Some ==> l.braced_text == Some(l.text)
}

proof fn lemma_final_lines_marked(
    t: Seq<(Seq<char>, HeuristicsView)>,
    lines: Seq<ParsedLineView>,
    mode: Seq<char>,
    song: HeuristicsView,
    rr: Ratio,
    stds: Seq<(Seq<char>, Ratio)>,
    k: int,
)
    requires
        0 <= k,
    ensures
        forall|q: int|
            0 <= q < final_lines_upto(t, lines, mode, song, rr, stds, k).len() ==> brace_marked(
                #[trigger] final_lines_upto(t, lines, mode, song, rr, stds, k)[q],
            ),
    decreases k,
{
    if k > 0 {
        lemma_final_lines_marked(t, lines, mode, song, rr, stds, k - 1);
        let a = final_lines_upto(t, lines, mode, song, rr, stds, k - 1);
        let b = spec_split_braced(final_line(t, lines, k - 1, mode, song, rr, stds));
        assert forall|q: int| 0 <= q < (a + b).len() implies brace_marked(#[trigger] (a + b)[q]) by {
            if q < a.len() {
                assert((a + b)[q] == a[q]);
            } else {
                assert((a + b)[q] == b[q - a.len()]);
            }
        }
    }
}

/// Backing vocals are marked consistently: an aligned line is right-aligned
/// exactly when it carries braced text, and that text is the line's own.
pub proof fn lemma_parse_lrc_brace_marks(t: Seq<(Seq<char>, HeuristicsView)>, lrc: Seq<char>, mode: Seq<char>)
    ensures
        forall|k: int|
            0 <= k < spec_parse_lrc_in(t, lrc, mode).len() ==> brace_marked(
                #[trigger] spec_parse_lrc_in(t, lrc, mode)[k],
            ),
{
    let lines = sorted_lines(lrc);
    let song = song_heuristics(t, lrc, mode);
    let rr = spec_rate_tempo(lines, song);
    let stds = standard_lines(t, lines, mode, song, rr, lines.len() as int);
    lemma_final_lines_marked(t, lines, mode, song, rr, stds, lines.len() as int);
    let fl = final_lines_upto(t, lines, mode, song, rr, stds, lines.len() as int);
    let p = |l: LineView| brace_marked(l);
    assert forall|i: int| 0 <= i < fl.len() implies p(#[trigger] fl[i]) by {}
    lemma_sort_by_keeps(fl, line_ts_key(), p);
    let r = spec_parse_lrc_in(t, lrc, mode);
    assert forall|k: int| 0 <= k < r.len() implies brace_marked(#[trigger] r[k]) by {
        assert(p(r[k]));
    }
}

/// A line's text is the text of one of `lines` with its tags taken out and
/// its white space cleaned, or is its words joined by spaces.
pub open spec fn text_from(l: LineView, lines: Seq<ParsedLineView>) -> bool {
    (exists|j: int| 0 <= j < lines.len() && l.text == spec_clean_whitespace(strip_tags(#[trigger] lines[j].text)))
        || l.text == join_with(word_texts(l.words), ' ')
}

proof fn lemma_final_lines_text(
    t: Seq<(Seq<char>, HeuristicsView)>,
    lines: Seq<ParsedLineView>,
    mode: Seq<char>,
    song: HeuristicsView,
    rr: Ratio,
    stds: Seq<(Seq<char>, Ratio)>,
    k: int,
)
    requires
        0 <= k <= lines.len(),
    ensures
        forall|q: int|
            0 <= q < final_lines_upto(t, lines, mode, song, rr, stds, k).len() ==> text_from(
                #[trigger] final_lines_upto(t, lines, mode, song, rr, stds, k)[q],
                lines,
            ),
    decreases k,
{
    if k > 0 {
        lemma_final_lines_text(t, lines, mode, song, rr, stds, k - 1);
        let fl = final_line(t, lines, k - 1, mode, song, rr, stds);
        assert(fl.text == spec_clean_whitespace(strip_tags(lines[k - 1].text)));
        assert(text_from(fl, lines));
        let a = final_lines_upto(t, lines, mode, song, rr, stds, k - 1);
        let b = spec_split_braced(fl);
        assert forall|q: int| 0 <= q < b.len() implies text_from(#[trigger] b[q], lines) by {}
        assert forall|q: int| 0 <= q < (a + b).len() implies text_from(#[trigger] (a + b)[q], lines) by {
            if q < a.len() {
                assert((a + b)[q] == a[q]);
            } else {
                assert((a + b)[q] == b[q - a.len()]);
            }
        }
    }
}

/// No aligned line keeps a word tag in its text: every line's text is the
/// text of one of the source's timed lines with its tags taken out and its
/// white space cleaned, which has no `'<'` and no `'>'`, except the halves
/// of a line split at its backing vocals, whose texts are their words
/// joined by spaces.
pub proof fn lemma_parse_lrc_text_without_tags(t: Seq<(Seq<char>, HeuristicsView)>, lrc: Seq<char>, mode: Seq<char>)
    ensures
        forall|k: int|
            0 <= k < spec_parse_lrc_in(t, lrc, mode).len() ==> {
                let l = #[trigger] spec_parse_lrc_in(t, lrc, mode)[k];
                ||| tag_free(l.text) && exists|j: int|
                    0 <= j < source_lines(lrc).len() && l.text == spec_clean_whitespace(
                        strip_tags(#[trigger] source_lines(lrc)[j].text),
                    )
                ||| l.text == join_with(word_texts(l.words), ' ')
            },
{
    let lines = sorted_lines(lrc);
    let song = song_heuristics(t, lrc, mode);
    let rr = spec_rate_tempo(lines, song);
    let stds = standard_lines(t, lines, mode, song, rr, lines.len() as int);
    lemma_final_lines_text(t, lines, mode, song, rr, stds, lines.len() as int);
    let fl = final_lines_upto(t, lines, mode, song, rr, stds, lines.len() as int);
    let p = |l: LineView| text_from(l, lines);
    assert forall|i: int| 0 <= i < fl.len() implies p(#[trigger] fl[i]) by {}
    lemma_sort_by_keeps(fl, line_ts_key(), p);
    let src = source_lines(lrc);
    let in_src = |l: ParsedLineView| exists|j: int| 0 <= j < src.len() && #[trigger] src[j] == l;
    assert forall|i: int| 0 <= i < src.len() implies in_src(#[trigger] src[i]) by {}
    lemma_sort_by_keeps(src, ts_key(), in_src);
    let r = spec_parse_lrc_in(t, lrc, mode);
    assert forall|k: int| 0 <= k < r.len() implies {
        let l = #[trigger] r[k];
        ||| tag_free(l.text) && exists|j: int|
            0 <= j < src.len() && l.text == spec_clean_whitespace(strip_tags(#[trigger] src[j].text))
        ||| l.text == join_with(word_texts(l.words), ' ')
    } by {
        let l = r[k];
        assert(p(l));
        if l.text != join_with(word_texts(l.words), ' ') {
            let j = choose|j: int| 0 <= j < lines.len() && l.text == spec_clean_whitespace(strip_tags(#[trigger] lines[j].text));
            assert(in_src(lines[j]));
            let i = choose|i: int| 0 <= i < src.len() && #[trigger] src[i] == lines[j];
            lemma_clean_text_tag_free(src[i].text);
        }
    }
}

/// A line's text is the text of one of `lines` with its tags taken out and
/// its white space cleaned.
pub open spec fn text_of_source(l: LineView, lines: Seq<ParsedLineView>) -> bool {
    exists|j: int| 0 <= j < lines.len() && l.text == spec_clean_whitespace(strip_tags(#[trigger] lines[j].text))
}

proof fn lemma_final_lines_unsplit(
    t: Seq<(Seq<char>, HeuristicsView)>,
    lines: Seq<ParsedLineView>,
    mode: Seq<char>,
    song: HeuristicsView,
    rr: Ratio,
    stds: Seq<(Seq<char>, Ratio)>,
    k: int,
)
    requires
        0 <= k <= lines.len(),
        forall|q: int|
            0 <= q < final_lines_upto(t, lines, mode, song, rr, stds, k).len() ==> !(
            #[trigger] final_lines_upto(t, lines, mode, song, rr, stds, k)[q]).is_right_aligned,
    ensures
        forall|q: int|
            0 <= q < final_lines_upto(t, lines, mode, song, rr, stds, k).len() ==> text_of_source(
                #[trigger] final_lines_upto(t, lines, mode, song, rr, stds, k)[q],
                lines,
            ),
    decreases k,
{
    if k > 0 {
        let a = final_lines_upto(t, lines, mode, song, rr, stds, k - 1);
        let fl = final_line(t, lines, k - 1, mode, song, rr, stds);
        let b = spec_split_braced(fl);
        let ab = a + b;
        let whole = final_lines_upto(t, lines, mode, song, rr, stds, k);
        assert(whole == ab);
        assert forall|q: int| 0 <= q < a.len() implies !(#[trigger] a[q]).is_right_aligned by {
            assert(ab[q] == a[q]);
            assert(!whole[q].is_right_aligned);
        }
        lemma_final_lines_unsplit(t, lines, mode, song, rr, stds, k - 1);
        if b.len() == 2 {
            assert(ab[a.len() + 1int] == b[1]);
            assert(ab[a.len() + 1int].is_right_aligned);
            assert(!whole[a.len() + 1int].is_right_aligned);
            assert(false);
        }
        assert(b == seq![fl]);
        assert(fl.text == spec_clean_whitespace(strip_tags(lines[k - 1].text)));
        assert(text_of_source(fl, lines));
        assert forall|q: int| 0 <= q < ab.len() implies text_of_source(#[trigger] ab[q], lines) by {
            if q < a.len() {
                assert(ab[q] == a[q]);
            } else {
                assert(ab[q] == b[q - a.len()]);
            }
        }
    }
}

/// Without backing vocals no line is split, and every aligned line's text
/// is the text of one of the source's timed lines with its tags taken out
/// and its white space cleaned.
pub proof fn lemma_parse_lrc_unsplit_texts(t: Seq<(Seq<char>, HeuristicsView)>, lrc: Seq<char>, mode: Seq<char>)
    requires
        forall|k: int|
            0 <= k < spec_parse_lrc_in(t, lrc, mode).len() ==> !(#[trigger] spec_parse_lrc_in(
                t,
                lrc,
                mode,
            )[k]).is_right_aligned,
    ensures
        forall|k: int|
            0 <= k < spec_parse_lrc_in(t, lrc, mode).len() ==> exists|j: int|
                0 <= j < source_lines(lrc).len() && (#[trigger] spec_parse_lrc_in(t, lrc, mode)[k]).text
                    == spec_clean_whitespace(strip_tags(#[trigger] source_lines(lrc)[j].text)),
{
    broadcast use vstd::seq_lib::group_to_multiset_ensures, vstd::seq_lib::to_multiset_contains;

    let lines = sorted_lines(lrc);
    let song = song_heuristics(t, lrc, mode);
    let rr = spec_rate_tempo(lines, song);
    let stds = standard_lines(t, lines, mode, song, rr, lines.len() as int);
    let fl = final_lines_upto(t, lines, mode, song, rr, stds, lines.len() as int);
    let r = spec_parse_lrc_in(t, lrc, mode);
    lemma_sort_by_sorted(fl, line_ts_key());
    assert forall|q: int| 0 <= q < fl.len() implies !(#[trigger] fl[q]).is_right_aligned by {
        assert(fl.contains(fl[q]));
        assert(fl.to_multiset().count(fl[q]) > 0);
        assert(r.contains(fl[q]));
        let k = choose|k: int| 0 <= k < r.len() && r[k] == fl[q];
        assert(!r[k].is_right_aligned);
    }
    lemma_final_lines_unsplit(t, lines, mode, song, rr, stds, lines.len() as int);
    let p = |l: LineView| text_of_source(l, lines);
    assert forall|i: int| 0 <= i < fl.len() implies p(#[trigger] fl[i]) by {}
    lemma_sort_by_keeps(fl, line_ts_key(), p);
    let src = source_lines(lrc);
    let in_src = |l: ParsedLineView| exists|j: int| 0 <= j < src.len() && #[trigger] src[j] == l;
    assert forall|i: int| 0 <= i < src.len() implies in_src(#[trigger] src[i]) by {}
    lemma_sort_by_keeps(src, ts_key(), in_src);
    assert forall|k: int| 0 <= k < r.len() implies exists|j: int|
        0 <= j < src.len() && (#[trigger] r[k]).text == spec_clean_whitespace(strip_tags(#[trigger] src[j].text)) by {
        assert(p(r[k]));
        let j = choose|j: int| 0 <= j < lines.len() && r[k].text == spec_clean_whitespace(strip_tags(#[trigger] lines[j].text));
        assert(in_src(lines[j]));
        let i = choose|i: int| 0 <= i < src.len() && #[trigger] src[i] == lines[j];
        assert(r[k].text == spec_clean_whitespace(strip_tags(src[i].text)));
    }
}

proof fn lemma_final_lines_timelines(
    t: Seq<(Seq<char>, HeuristicsView)>,
    lines: Seq<ParsedLineView>,
    mode: Seq<char>,
    song: HeuristicsView,
    rr: Ratio,
    stds: Seq<(Seq<char>, Ratio)>,
    k: int,
)
    requires
        0 <= k <= lines.len(),
        forall|q: int| 0 <= q < k ==> #[trigger] passes_fit(t, lines, q, mode, song, rr, stds),
        rr.wf(),
        tempos_wf(stds),
    ensures
        forall|q: int|
            0 <= q < final_lines_upto(t, lines, mode, song, rr, stds, k).len() ==> is_timeline(
                #[trigger] final_lines_upto(t, lines, mode, song, rr, stds, k)[q].words,
            ),
    decreases k,
{
    if k > 0 {
        lemma_final_lines_timelines(t, lines, mode, song, rr, stds, k - 1);
        let cur = lines[k - 1];
        assert(passes_fit(t, lines, k - 1, mode, song, rr, stds));
        lemma_echo_fold_tempo(cur.text, stds, stds.len() as int);
        let hd = line_heuristics(t, cur.text, mode, song);
        lemma_line_timing_timeline(lines, k - 1, hd, line_tempo(cur.text, stds, rr));
        let fl = final_line(t, lines, k - 1, mode, song, rr, stds);
        lemma_split_timeline(fl);
        let a = final_lines_upto(t, lines, mode, song, rr, stds, k - 1);
        let b = spec_split_braced(fl);
        assert forall|q: int| 0 <= q < (a + b).len() implies is_timeline(#[trigger] (a + b)[q].words) by {
            if q < a.len() {
                assert((a + b)[q] == a[q]);
            } else {
                assert((a + b)[q] == b[q - a.len()]);
            }
        }
    }
}

/// The words of every aligned line form a timeline: each word ends no
/// earlier than it starts, and the words start in order.
pub proof fn lemma_parse_lrc_timelines(t: Seq<(Seq<char>, HeuristicsView)>, lrc: Seq<char>, mode: Seq<char>)
    requires
        lrc_fits_in(t, lrc, mode),
    ensures
        forall|k: int|
            0 <= k < spec_parse_lrc_in(t, lrc, mode).len() ==> is_timeline(
                #[trigger] spec_parse_lrc_in(t, lrc, mode)[k].words,
            ),
{
    let lines = sorted_lines(lrc);
    let song = song_heuristics(t, lrc, mode);
    lemma_sorted_in_range(lrc);
    lemma_rate_tempo_positive(lines, song);
    let rr = spec_rate_tempo(lines, song);
    let stds = standard_lines(t, lines, mode, song, rr, lines.len() as int);
    assert forall|q: int| 0 <= q < lines.len() implies #[trigger] timing_fits(
        lines,
        q,
        line_heuristics(t, lines[q].text, mode, song),
        rr,
    ) by {
        assert(passes_fit(t, lines, q, mode, song, rr, stds));
    }
    lemma_standard_lines_wf(t, lines, mode, song, rr, lines.len() as int);
    lemma_final_lines_timelines(t, lines, mode, song, rr, stds, lines.len() as int);
    let fl = final_lines_upto(t, lines, mode, song, rr, stds, lines.len() as int);
    let p = |l: LineView| is_timeline(l.words);
    assert forall|i: int| 0 <= i < fl.len() implies p(#[trigger] fl[i]) by {}
    lemma_sort_by_keeps(fl, line_ts_key(), p);
    let r = spec_parse_lrc_in(t, lrc, mode);
    assert forall|k: int| 0 <= k < r.len() implies is_timeline(#[trigger] r[k].words) by {
        assert(p(r[k]));
    }
}

// ---------------------------------------------------------------------------
// Executable parts
// ---------------------------------------------------------------------------

impl Keyed for ParsedLrcLine {
    open spec fn key_spec(&self) -> int {
        self.timestamp_ms as int
    }

    fn key(&self) -> (r: i32) {
        self.timestamp_ms
    }
}

impl Keyed for Line {
    open spec fn key_spec(&self) -> int {
        self.timestamp_ms as int
    }

    fn key(&self) -> (r: i32) {
        self.timestamp_ms
    }
}

/// A standard line of the first pass.
struct StandardLine {
    text: Vec<char>,
    tempo: Ratio,
}

spec fn std_views(v: Seq<StandardLine>) -> Seq<(Seq<char>, Ratio)> {
    v.map_values(|s: StandardLine| (s.text@, s.tempo))
}

fn is_auto(mode: &str) -> (r: bool)
    ensures
        r == (mode@ == auto_mode()),
{
    let m = chars_of(mode);
    let a: Vec<char> = vec!['a', 'u', 't', 'o'];
    assert(a@ =~= auto_mode());
    seq_eq(&m, &a)
}

fn line_heuristics_exec(
    table: &Vec<LanguageEntry>,
    text: &str,
    auto: bool,
    song: &HeuristicsData,
    mode: Ghost<Seq<char>>,
) -> (r: HeuristicsData)
    requires
        auto == (mode@ == auto_mode()),
    ensures
        r@ == line_heuristics(table_view(table@), text@, mode@, song@),
{
    if auto {
        let t = chars_of(text);
        let stripped = strip_tags_vec(&t);
        let lang = detect_language_vec(table, &stripped);
        resolve_heuristics_in(table, lang.as_str())
    } else {
        song.duplicate()
    }
}

/// How line `idx` is sung at tempo `mps`, or `None` when its word times do
/// not fit in `i32`.
fn line_timing_try(lines: &Vec<ParsedLrcLine>, idx: usize, hd: &HeuristicsData, mps: Ratio) -> (r: Option<
    (bool, i32, Vec<WordInfo>),
>)
    requires
        idx < lines.len(),
        lines_in_range(parsed_view(lines@)),
        mps.wf(),
    ensures
        r is Some <==> timing_fits(parsed_view(lines@), idx as int, hd@, mps),
        r matches Some(x) ==> (x.0, x.1, words_view(x.2@)) == line_timing(parsed_view(lines@), idx as int, hd@, mps),
{
    let ghost lv = parsed_view(lines@);
    let cur = &lines[idx];
    assert(cur@ == lv[idx as int]);
    let d: i32 = if idx < lines.len() - 1 {
        assert(lines[idx + 1]@ == lv[idx + 1]);
        lines[idx + 1].timestamp_ms - cur.timestamp_ms
    } else {
        5000
    };
    let syl = count_line_syllables(cur.text.as_str(), hd.syllables.vowels.as_str());
    let est = estimated_singing(syl, mps);
    let gap = apply_gap_sentry_check(d, est);
    let sing = if gap {
        apply_gap_glide_estimation(cur.text.as_str(), d, mps, hd.syllables.vowels.as_str())
    } else {
        d
    };
    let text = chars_of(cur.text.as_str());
    match line_words_try(cur.timestamp_ms, &text, sing, mps, hd) {
        None => None,
        Some(words) => {
            let mut words = words;
            apply_flextrack_compression(&mut words, sing, cur.timestamp_ms, mps);
            Some((gap, sing, words))
        },
    }
}

fn echo_tempo(text: &str, stds: &Vec<StandardLine>) -> (r: Option<Ratio>)
    requires
        tempos_wf(std_views(stds@)),
        text@.len() <= RATIO_LIMIT,
    ensures
        r == echo_fold(text@, std_views(stds@), stds@.len() as int).1,
{
    let ghost sv = std_views(stds@);
    let mut best = Ratio { num: 0, den: 1 };
    let mut tempo: Option<Ratio> = None;
    let mut k: usize = 0;
    while k < stds.len()
        invariant
            k <= stds.len(),
            sv == std_views(stds@),
            sv.len() == stds@.len(),
            tempos_wf(sv),
            text@.len() <= RATIO_LIMIT,
            (best, tempo) == echo_fold(text@, sv, k as int),
            best.wf(),
        decreases stds.len() - k,
    {
        assert(sv[k as int] == (stds@[k as int].text@, stds@[k as int].tempo));
        let other = string_of(&stds[k].text);
        let sim = calculate_echo_echo_similarity(text, other.as_str());
        if 10 * (sim.num as i128) >= 7 * (sim.den as i128) && best.lt_exec(&sim) {
            best = sim;
            tempo = Some(stds[k].tempo);
        }
        k = k + 1;
    }
    tempo
}

/// The standard-line entry of line `idx` in the first pass, or `None` when
/// its times do not fit in `i32`.
fn standard_entry_try(lines: &Vec<ParsedLrcLine>, idx: usize, hd: &HeuristicsData, rr: Ratio) -> (r: Option<
    Option<StandardLine>,
>)
    requires
        idx < lines.len(),
        lines_in_range(parsed_view(lines@)),
        rr.wf(),
    ensures
        r is Some <==> timing_fits(parsed_view(lines@), idx as int, hd@, rr),
        r matches Some(e) ==> (match e {
            Some(sl) => standard_entry(parsed_view(lines@), idx as int, hd@, rr) == Some((sl.text@, sl.tempo)),
            None => standard_entry(parsed_view(lines@), idx as int, hd@, rr) is None,
        }),
{
    let ghost lv = parsed_view(lines@);
    let n = lines.len();
    assert(lines[idx as int]@ == lv[idx as int]);
    let (gap, _sing, words) = match line_timing_try(lines, idx, hd, rr) {
        None => {
            return None;
        },
        Some(x) => x,
    };
    if gap || words.len() == 0 {
        return Some(None);
    }
    let d: i64 = if idx < n - 1 {
        assert(lines[idx + 1]@ == lv[idx + 1]);
        (lines[idx + 1].timestamp_ms as i64) - (lines[idx].timestamp_ms as i64)
    } else {
        5000
    };
    let first = words[0].start_ms;
    let last = words[words.len() - 1].end_ms;
    assert(words_view(words@)[0].start_ms == first);
    assert(words_view(words@).last().end_ms == last);
    if (last as i64) <= (lines[idx].timestamp_ms as i64) + d - 150 {
        let syl = count_line_syllables(lines[idx].text.as_str(), hd.syllables.vowels.as_str());
        let tempo = Ratio { num: (last as i64) - (first as i64), den: syl as i64 };
        Some(Some(StandardLine { text: chars_of(lines[idx].text.as_str()), tempo }))
    } else {
        Some(None)
    }
}

/// The first pass: the standard lines and their tempos, or `None` when a
/// line's times do not fit in `i32`.
fn first_pass(
    table: &Vec<LanguageEntry>,
    lines: &Vec<ParsedLrcLine>,
    auto: bool,
    song_hd: &HeuristicsData,
    rr: Ratio,
    mode: Ghost<Seq<char>>,
) -> (r: Option<Vec<StandardLine>>)
    requires
        lines_in_range(parsed_view(lines@)),
        rr.wf(),
        auto == (mode@ == auto_mode()),
    ensures
        r is Some <==> forall|q: int|
            0 <= q < lines@.len() ==> #[trigger] timing_fits(
                parsed_view(lines@),
                q,
                line_heuristics(table_view(table@), parsed_view(lines@)[q].text, mode@, song_hd@),
                rr,
            ),
        r matches Some(v) ==> std_views(v@) == standard_lines(
            table_view(table@),
            parsed_view(lines@),
            mode@,
            song_hd@,
            rr,
            lines@.len() as int,
        ),
{
    let ghost lv = parsed_view(lines@);
    let ghost t = table_view(table@);
    let ghost song = song_hd@;
    let mut stds: Vec<StandardLine> = Vec::new();
    let n = lines.len();
    let mut idx: usize = 0;
    while idx < n
        invariant
            n == lines.len(),
            idx <= n,
            lv == parsed_view(lines@),
            t == table_view(table@),
            song == song_hd@,
            lines_in_range(lv),
            rr.wf(),
            auto == (mode@ == auto_mode()),
            forall|q: int| 0 <= q < idx ==> #[trigger] timing_fits(lv, q, line_heuristics(t, lv[q].text, mode@, song), rr),
            std_views(stds@) == standard_lines(t, lv, mode@, song, rr, idx as int),
        decreases n - idx,
    {
        let hd = line_heuristics_exec(table, lines[idx].text.as_str(), auto, song_hd, mode);
        assert(lines[idx as int]@ == lv[idx as int]);
        let ghost before = std_views(stds@);
        match standard_entry_try(lines, idx, &hd, rr) {
            None => {
                return None;
            },
            Some(None) => {},
            Some(Some(sl)) => {
                let ghost e = (sl.text@, sl.tempo);
                stds.push(sl);
                assert(std_views(stds@) =~= before.push(e));
            },
        }
        idx = idx + 1;
    }
    Some(stds)
}

/// The second pass: the final lines, braced backing vocals split off, in
/// source order; `None` when a line's times do not fit in `i32`.
fn second_pass(
    table: &Vec<LanguageEntry>,
    lines: &Vec<ParsedLrcLine>,
    auto: bool,
    song_hd: &HeuristicsData,
    rr: Ratio,
    stds: &Vec<StandardLine>,
    mode: Ghost<Seq<char>>,
) -> (r: Option<Vec<Line>>)
    requires
        lines_in_range(parsed_view(lines@)),
        rr.wf(),
        tempos_wf(std_views(stds@)),
        auto == (mode@ == auto_mode()),
    ensures
        r is Some <==> forall|q: int|
            0 <= q < lines@.len() ==> #[trigger] timing_fits(
                parsed_view(lines@),
                q,
                line_heuristics(table_view(table@), parsed_view(lines@)[q].text, mode@, song_hd@),
                line_tempo(parsed_view(lines@)[q].text, std_views(stds@), rr),
            ),
        r matches Some(v) ==> lines_view(v@) == final_lines_upto(
            table_view(table@),
            parsed_view(lines@),
            mode@,
            song_hd@,
            rr,
            std_views(stds@),
            lines@.len() as int,
        ),
{
    let ghost lv = parsed_view(lines@);
    let ghost t = table_view(table@);
    let ghost song = song_hd@;
    let ghost sv = std_views(stds@);
    let mut out: Vec<Line> = Vec::new();
    let n = lines.len();
    let mut idx: usize = 0;
    while idx < n
        invariant
            n == lines.len(),
            idx <= n,
            lv == parsed_view(lines@),
            t == table_view(table@),
            song == song_hd@,
            sv == std_views(stds@),
            lines_in_range(lv),
            rr.wf(),
            tempos_wf(sv),
            auto == (mode@ == auto_mode()),
            forall|q: int|
                0 <= q < idx ==> #[trigger] timing_fits(
                    lv,
                    q,
                    line_heuristics(t, lv[q].text, mode@, song),
                    line_tempo(lv[q].text, sv, rr),
                ),
            lines_view(out@) == final_lines_upto(t, lv, mode@, song, rr, sv, idx as int),
        decreases n - idx,
    {
        assert(lines[idx as int]@ == lv[idx as int]);
        let text = lines[idx].text.as_str();
        let hd = line_heuristics_exec(table, text, auto, song_hd, mode);
        let prop = echo_tempo(text, stds);
        proof {
            lemma_echo_fold_tempo(text@, sv, sv.len() as int);
        }
        let line_mps = match prop {
            Some(tp) => tp,
            None => rr,
        };
        match line_timing_try(lines, idx, &hd, line_mps) {
            None => {
                return None;
            },
            Some(x) => {
                let (gap, sing, words) = x;
                let tc = chars_of(text);
                let stripped = strip_tags_vec(&tc);
                let clean = clean_whitespace_vec(&stripped);
                let initial = Line {
                    timestamp_ms: lines[idx].timestamp_ms,
                    text: string_of(&clean),
                    words,
                    is_right_aligned: false,
                    braced_text: None,
                    singing_duration_ms: sing,
                    is_gap_next: gap,
                };
                assert(initial@ == final_line(t, lv, idx as int, mode@, song, rr, sv));
                let mut split = split_line_if_braced(initial);
                let ghost before = out@;
                let ghost add = split@;
                out.append(&mut split);
                assert(out@ =~= before + add);
                assert(lines_view(out@) =~= lines_view(before) + lines_view(add));
            },
        }
        idx = idx + 1;
    }
    Some(out)
}

/// The whole alignment, or `None` when the source is not one that
/// `lrc_fits_in` admits.
fn align_lrc(table: &Vec<LanguageEntry>, lrc_text: &str, language_mode: &str) -> (r: Option<Vec<Line>>)
    ensures
        r is Some <==> lrc_fits_in(table_view(table@), lrc_text@, language_mode@),
        r matches Some(v) ==> lines_view(v@) == spec_parse_lrc_in(table_view(table@), lrc_text@, language_mode@),
{
    let ghost mode = language_mode@;
    let ghost lrc = lrc_text@;
    let ghost t = table_view(table@);
    let v = chars_of(lrc_text);
    if v.len() as u128 > RATIO_LIMIT as u128 {
        return None;
    }
    let auto = is_auto(language_mode);
    let song_hd = if auto {
        let lang = detect_language_vec(table, &v);
        resolve_heuristics_in(table, lang.as_str())
    } else {
        resolve_heuristics_in(table, language_mode)
    };
    assert(song_hd@ == song_heuristics(t, lrc, mode));
    let parsed = source_lines_vec(&v);
    let ghost parsed_seq = parsed@;
    let lines = stable_sort(parsed);
    proof {
        let f = |l: ParsedLrcLine| l@;
        assert forall|a: ParsedLrcLine| #[trigger] ts_key()(f(a)) == key_of::<ParsedLrcLine>()(a) by {}
        lemma_sort_by_map(parsed_seq, key_of::<ParsedLrcLine>(), f, ts_key());
        assert(parsed_seq.map_values(f) =~= parsed_view(parsed_seq));
        assert(lines@.map_values(f) =~= parsed_view(lines@));
        lemma_sorted_in_range(lrc);
    }
    let ghost lv = parsed_view(lines@);
    assert(lv == sorted_lines(lrc));
    let ghost song = song_hd@;
    let rate_rider = match RateRider::measure(lines.as_slice(), &song_hd) {
        None => {
            return None;
        },
        Some(rr) => rr,
    };
    let rr = rate_rider.ms_per_syllable;
    let ghost full = standard_lines(t, lv, mode, song, rr, lv.len() as int);
    let stds = match first_pass(table, &lines, auto, &song_hd, rr, Ghost(mode)) {
        None => {
            proof {
                let q = choose|q: int|
                    0 <= q < lv.len() && !#[trigger] timing_fits(lv, q, line_heuristics(t, lv[q].text, mode, song), rr);
                assert(!passes_fit(t, lv, q, mode, song, rr, full));
            }
            return None;
        },
        Some(s) => s,
    };
    let ghost sv = std_views(stds@);
    proof {
        lemma_standard_lines_wf(t, lv, mode, song, rr, lv.len() as int);
    }
    let out = match second_pass(table, &lines, auto, &song_hd, rr, &stds, Ghost(mode)) {
        None => {
            proof {
                let q = choose|q: int|
                    0 <= q < lv.len() && !#[trigger] timing_fits(
                        lv,
                        q,
                        line_heuristics(t, lv[q].text, mode, song),
                        line_tempo(lv[q].text, sv, rr),
                    );
                assert(!passes_fit(t, lv, q, mode, song, rr, full));
            }
            return None;
        },
        Some(o) => o,
    };
    assert forall|q: int| 0 <= q < lv.len() implies #[trigger] passes_fit(t, lv, q, mode, song, rr, full) by {
        assert(timing_fits(lv, q, line_heuristics(t, lv[q].text, mode, song), rr));
        assert(timing_fits(lv, q, line_heuristics(t, lv[q].text, mode, song), line_tempo(lv[q].text, sv, rr)));
    }
    let ghost final_seq = out@;
    let sorted = stable_sort(out);
    proof {
        let f = |l: Line| l@;
        assert forall|a: Line| #[trigger] line_ts_key()(f(a)) == key_of::<Line>()(a) by {}
        lemma_sort_by_map(final_seq, key_of::<Line>(), f, line_ts_key());
        assert(final_seq.map_values(f) =~= lines_view(final_seq));
        assert(sorted@.map_values(f) =~= lines_view(sorted@));
    }
    Some(sorted)
}

/// Whether `parse_lrc_in` takes the source: whether its times fit in `i32`
/// throughout the alignment.
pub fn lrc_fits_check(table: &Vec<LanguageEntry>, lrc_text: &str, language_mode: &str) -> (r: bool)
    ensures
        r == lrc_fits_in(table_view(table@), lrc_text@, language_mode@),
{
    align_lrc(table, lrc_text, language_mode).is_some()
}

/// Aligns an LRC source (standard or enhanced) to word level, with the
/// heuristics of a table of languages.
///
/// `language_mode` names the language of the heuristics, or is `"auto"` to
/// detect it, for the song and for each line. A first pass measures the
/// song's tempo (RateRider) and the tempo of each standard line; a second
/// times each line at the tempo of the most similar standard line
/// (EchoEcho) or at the song's, detects instrumental gaps, and splits off
/// backing vocals. The lines come out in order of time.
pub fn parse_lrc_in(table: &Vec<LanguageEntry>, lrc_text: &str, language_mode: &str) -> (r: Vec<Line>)
    requires
        lrc_fits_in(table_view(table@), lrc_text@, language_mode@),
    ensures
        lines_view(r@) == spec_parse_lrc_in(table_view(table@), lrc_text@, language_mode@),
{
    match align_lrc(table, lrc_text, language_mode) {
        Some(v) => v,
        None => Vec::new(),
    }
}

/// `parse_lrc_in`, or `None` for a source whose times would overflow `i32`.
pub fn try_parse_lrc_in(table: &Vec<LanguageEntry>, lrc_text: &str, language_mode: &str) -> (r: Option<Vec<Line>>)
    ensures
        r is Some <==> lrc_fits_in(table_view(table@), lrc_text@, language_mode@),
        r matches Some(v) ==> lines_view(v@) == spec_parse_lrc_in(table_view(table@), lrc_text@, language_mode@),
{
    if lrc_fits_check(table, lrc_text, language_mode) {
        Some(parse_lrc_in(table, lrc_text, language_mode))
    } else {
        None
    }
}

/// Aligns an LRC source with the built-in language data (English; other
/// languages come from a table given to `parse_lrc_in`).
pub fn parse_lrc(lrc_text: &str, language_mode: &str) -> (r: Vec<Line>)
    requires
        lrc_fits(lrc_text@, language_mode@),
    ensures
        lines_view(r@) == spec_parse_lrc(lrc_text@, language_mode@),
{
    let table = embedded_languages();
    parse_lrc_in(&table, lrc_text, language_mode)
}

/// `parse_lrc`, or `None` for a source whose times would overflow `i32`.
pub fn try_parse_lrc(lrc_text: &str, language_mode: &str) -> (r: Option<Vec<Line>>)
    ensures
        r is Some <==> lrc_fits(lrc_text@, language_mode@),
        r matches Some(v) ==> lines_view(v@) == spec_parse_lrc(lrc_text@, language_mode@),
{
    let table = embedded_languages();
    if lrc_fits_check(&table, lrc_text, language_mode) {
        Some(parse_lrc(lrc_text, language_mode))
    } else {
        None
    }
}

} // verus!
