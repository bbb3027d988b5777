//! What holds of every word timeline the aligner produces.
use vstd::prelude::*;
use crate::align::{
    all_tag_words, echo_adjust, echo_adjust_one, leading_words, plain_offset, plain_words, spec_line_words, spec_plain_times, spec_tagged_times, start_key,
    tag_next_ms, tag_segment, tag_words, word_pause, lemma_plain_words_len, plain_fits,
    tagged_fits, line_fits, leading_end, tag_end,
};
use crate::heuristics::{spec_word_warden_max, lemma_punctuation_pause_range};
use crate::language::HeuristicsView;
use crate::lyrics::WordView;
use crate::parser::{scan_tags, scan_tags_from};
use crate::ratio::{trunc_div, Ratio};
use crate::sort::{sort_by, sorted_by, lemma_sort_by_sorted};
use crate::tempo::{flex_applies, flex_target, flex_time, spec_flextrack};
use crate::text::{trim, ws_words};

verus! {

/// Every word ends no earlier than it starts, and the words start in order.
pub open spec fn is_timeline(ws: Seq<WordView>) -> bool {
    &&& forall|i: int| 0 <= i < ws.len() ==> (#[trigger] ws[i]).start_ms <= ws[i].end_ms
    &&& forall|i: int, j: int|
        0 <= i <= j < ws.len() ==> (#[trigger] ws[i]).start_ms <= (#[trigger] ws[j]).start_ms
}

/// No word ends after the next one starts.
pub open spec fn no_overlap(ws: Seq<WordView>) -> bool {
    forall|i: int| 0 <= i < ws.len() - 1 ==> (#[trigger] ws[i]).end_ms <= ws[i + 1].start_ms
}

// ---------------------------------------------------------------------------
// Untagged lines
// ---------------------------------------------------------------------------

proof fn lemma_pause_nonneg(words: Seq<Seq<char>>, mps: Ratio, k: int)
    requires
        mps.wf(),
        0 <= k < words.len(),
    ensures
        word_pause(words, k, mps) >= 0,
{
    lemma_punctuation_pause_range(words[k], mps);
}

proof fn lemma_plain_offset_mono(
    words: Seq<Seq<char>>,
    hd: HeuristicsView,
    mps: Ratio,
    dur: int,
    i: int,
    j: int,
)
    requires
        mps.wf(),
        0 <= i <= j < words.len(),
    ensures
        plain_offset(words, hd, mps, dur, i) <= plain_offset(words, hd, mps, dur, j),
    decreases j - i,
{
    if i < j {
        lemma_plain_offset_mono(words, hd, mps, dur, i, j - 1);
        crate::align::lemma_plain_offsets_bounded(words, hd, mps, dur, j - 1);
        lemma_pause_nonneg(words, mps, j - 1);
    }
}

/// The words of an untagged line form a timeline, none overlapping the
/// next: each starts where the one before ended, or after a pause.
pub proof fn lemma_plain_times_timeline(ts: int, content: Seq<char>, dur: int, mps: Ratio, hd: HeuristicsView)
    requires
        i32::MIN <= ts <= i32::MAX,
        mps.wf(),
        plain_fits(ts, content, dur, mps, hd),
    ensures
        is_timeline(spec_plain_times(ts, content, dur, mps, hd)),
        no_overlap(spec_plain_times(ts, content, dur, mps, hd)),
{
    let words = plain_words(content);
    lemma_plain_words_len(content);
    let r = spec_plain_times(ts, content, dur, mps, hd);
    assert forall|i: int| 0 <= i < r.len() implies (#[trigger] r[i]).start_ms <= r[i].end_ms by {
        crate::align::lemma_plain_offsets_bounded(words, hd, mps, dur, i);
    }
    assert forall|i: int, j: int| 0 <= i <= j < r.len() implies (#[trigger] r[i]).start_ms
        <= (#[trigger] r[j]).start_ms by {
        crate::align::lemma_plain_offsets_bounded(words, hd, mps, dur, i);
        crate::align::lemma_plain_offsets_bounded(words, hd, mps, dur, j);
        lemma_plain_offset_mono(words, hd, mps, dur, i, j);
    }
    assert forall|i: int| 0 <= i < r.len() - 1 implies (#[trigger] r[i]).end_ms <= r[i + 1].start_ms by {
        crate::align::lemma_plain_offsets_bounded(words, hd, mps, dur, i);
        crate::align::lemma_plain_offsets_bounded(words, hd, mps, dur, i + 1);
        lemma_pause_nonneg(words, mps, i);
    }
}

/// Between two words of an untagged line lies exactly the first word's
/// pause: its punctuation pause, plus 100 ms before a repeat of it
/// (EchoPause).
pub proof fn lemma_plain_gaps_are_pauses(
    ts: int,
    content: Seq<char>,
    dur: int,
    mps: Ratio,
    hd: HeuristicsView,
    i: int,
)
    requires
        i32::MIN <= ts <= i32::MAX,
        mps.wf(),
        plain_fits(ts, content, dur, mps, hd),
        0 <= i < spec_plain_times(ts, content, dur, mps, hd).len() - 1,
    ensures
        spec_plain_times(ts, content, dur, mps, hd)[i + 1].start_ms - spec_plain_times(
            ts,
            content,
            dur,
            mps,
            hd,
        )[i].end_ms == word_pause(plain_words(content), i, mps),
        crate::heuristics::spec_echo_pause(plain_words(content)[i], plain_words(content)[i + 1])
            ==> spec_plain_times(ts, content, dur, mps, hd)[i + 1].start_ms - spec_plain_times(
            ts,
            content,
            dur,
            mps,
            hd,
        )[i].end_ms >= 100,
{
    let words = plain_words(content);
    lemma_plain_words_len(content);
    crate::align::lemma_plain_offsets_bounded(words, hd, mps, dur, i);
    crate::align::lemma_plain_offsets_bounded(words, hd, mps, dur, i + 1);
    lemma_punctuation_pause_range(words[i], mps);
}

// ---------------------------------------------------------------------------
// Tagged lines
// ---------------------------------------------------------------------------

pub open spec fn forward(ws: Seq<WordView>) -> bool {
    forall|i: int| 0 <= i < ws.len() ==> (#[trigger] ws[i]).start_ms <= ws[i].end_ms
}

proof fn lemma_step_within(step: int, k: int, j: int)
    requires
        step >= 0,
        0 <= j < k,
    ensures
        0 <= j * step <= (j + 1) * step <= k * step,
{
    assert(0 <= j * step <= (j + 1) * step <= k * step) by (nonlinear_arith)
        requires
            step >= 0,
            0 <= j < k,
    ;
}

proof fn lemma_leading_forward(ts: int, content: Seq<char>, first: (int, int, i32))
    requires
        i32::MIN <= ts <= i32::MAX,
        0 <= first.0 <= content.len(),
        0 <= first.2,
        leading_end(ts, content, first) <= i32::MAX,
    ensures
        forward(leading_words(ts, content, first)),
{
    let lead = trim(content.take(first.0));
    let ws = ws_words(lead);
    let k = ws.len() as int;
    let r = leading_words(ts, content, first);
    if first.0 > 0 && lead.len() > 0 && k > 0 {
        let d = first.2 - ts;
        let step = if d > 0 {
            d / k
        } else {
            100
        };
        assert(step >= 0) by (nonlinear_arith)
            requires
                k > 0,
                step == if d > 0 {
                    d / k
                } else {
                    100
                },
        ;
        assert forall|j: int| 0 <= j < r.len() implies (#[trigger] r[j]).start_ms <= r[j].end_ms by {
            lemma_step_within(step, k, j);
        }
    }
}

proof fn lemma_tag_words_forward(content: Seq<char>, hd: HeuristicsView, i: int)
    requires
        0 <= i < scan_tags(content).len(),
        tag_end(content, scan_tags(content), i, hd) <= i32::MAX,
    ensures
        forward(tag_words(content, scan_tags(content), i, hd)),
{
    let tags = scan_tags(content);
    crate::parser::lemma_scan_tags_ordered(content, 0);
    assert(tags == scan_tags_from(content, 0));
    let cur = tags[i].2 as int;
    assert(0 <= cur);
    let wt = tag_segment(content, tags, i);
    let subs = ws_words(wt);
    let k = subs.len() as int;
    let r = tag_words(content, tags, i, hd);
    if wt.len() > 0 && k > 0 {
        let next = tag_next_ms(content, tags, i, hd);
        let td = next - cur;
        let step = if td > 0 {
            td / k
        } else {
            100
        };
        assert(step >= 0) by (nonlinear_arith)
            requires
                k > 0,
                step == if td > 0 {
                    td / k
                } else {
                    100
                },
        ;
        assert forall|j: int| 0 <= j < r.len() implies (#[trigger] r[j]).start_ms <= r[j].end_ms by {
            lemma_step_within(step, k, j);
            let mx = spec_word_warden_max(subs[j]);
            assert(200 <= mx <= 850);
        }
    }
}

proof fn lemma_all_tag_words_forward(content: Seq<char>, hd: HeuristicsView, k: int)
    requires
        0 <= k <= scan_tags(content).len(),
        forall|i: int|
            0 <= i < scan_tags(content).len() ==> #[trigger] tag_end(content, scan_tags(content), i, hd)
                <= i32::MAX,
    ensures
        forward(all_tag_words(content, scan_tags(content), hd, k)),
    decreases k,
{
    if k > 0 {
        let tags = scan_tags(content);
        lemma_all_tag_words_forward(content, hd, k - 1);
        assert(tag_end(content, tags, k - 1, hd) <= i32::MAX);
        lemma_tag_words_forward(content, hd, k - 1);
        let a = all_tag_words(content, tags, hd, k - 1);
        let b = tag_words(content, tags, k - 1, hd);
        let ab = all_tag_words(content, tags, hd, k);
        assert(ab == a + b);
        assert forall|j: int| 0 <= j < ab.len() implies (#[trigger] ab[j]).start_ms <= ab[j].end_ms by {
            if j < a.len() {
                assert(ab[j] == a[j]);
            } else {
                assert(ab[j] == b[j - a.len()]);
            }
        }
    }
}

proof fn lemma_sort_keeps_forward(raw: Seq<WordView>)
    requires
        forward(raw),
    ensures
        forward(sort_by(raw, start_key())),
        sorted_by(sort_by(raw, start_key()), start_key()),
        sort_by(raw, start_key()).len() == raw.len(),
{
    broadcast use vstd::seq_lib::to_multiset_contains, vstd::seq_lib::group_to_multiset_ensures;

    let s = sort_by(raw, start_key());
    lemma_sort_by_sorted(raw, start_key());
    assert(s.to_multiset().len() == raw.to_multiset().len());
    assert forall|i: int| 0 <= i < s.len() implies (#[trigger] s[i]).start_ms <= s[i].end_ms by {
        let x = s[i];
        assert(s.contains(x));
        assert(s.to_multiset().count(x) > 0);
        assert(raw.to_multiset().count(x) > 0);
        assert(raw.contains(x));
        let q = choose|q: int| 0 <= q < raw.len() && raw[q] == x;
        assert(raw[q].start_ms <= raw[q].end_ms);
    }
}

/// The words of a line with word tags form a timeline.
pub proof fn lemma_tagged_times_timeline(ts: int, content: Seq<char>, hd: HeuristicsView)
    requires
        i32::MIN <= ts <= i32::MAX,
        scan_tags(content).len() > 0,
        tagged_fits(ts, content, hd),
    ensures
        is_timeline(spec_tagged_times(ts, content, hd)),
{
    let tags = scan_tags(content);
    crate::parser::lemma_scan_tags_bounds_pub(content);
    crate::parser::lemma_scan_tags_ordered(content, 0);
    assert(tags == scan_tags_from(content, 0));
    assert(0 <= tags[0].2);
    lemma_leading_forward(ts, content, tags[0]);
    lemma_all_tag_words_forward(content, hd, tags.len() as int);
    let a = leading_words(ts, content, tags[0]);
    let b = all_tag_words(content, tags, hd, tags.len() as int);
    let raw = a + b;
    assert forall|j: int| 0 <= j < raw.len() implies (#[trigger] raw[j]).start_ms <= raw[j].end_ms by {
        if j < a.len() {
            assert(raw[j] == a[j]);
        } else {
            assert(raw[j] == b[j - a.len()]);
        }
    }
    lemma_sort_keeps_forward(raw);
    let s = sort_by(raw, start_key());
    let r = echo_adjust(s);
    assert(r == spec_tagged_times(ts, content, hd));
    assert forall|i: int| 0 <= i < r.len() implies (#[trigger] r[i]).start_ms <= r[i].end_ms
        && r[i].start_ms == s[i].start_ms by {
        assert(r[i] == echo_adjust_one(s, i));
        assert(s[i].start_ms <= s[i].end_ms);
    }
    assert forall|i: int, j: int| 0 <= i <= j < r.len() implies (#[trigger] r[i]).start_ms
        <= (#[trigger] r[j]).start_ms by {
        assert(r[i].start_ms == s[i].start_ms);
        assert(r[j].start_ms == s[j].start_ms);
        assert(start_key()(s[i]) <= start_key()(s[j]));
    }
}

/// The words of every line form a timeline: each word ends no earlier than
/// it starts, and the words start in order.
pub proof fn lemma_line_words_timeline(ts: int, content: Seq<char>, dur: int, mps: Ratio, hd: HeuristicsView)
    requires
        i32::MIN <= ts <= i32::MAX,
        mps.wf(),
        line_fits(ts, content, dur, mps, hd),
    ensures
        is_timeline(spec_line_words(ts, content, dur, mps, hd)),
{
    if scan_tags(content).len() == 0 {
        lemma_plain_times_timeline(ts, content, dur, mps, hd);
    } else {
        lemma_tagged_times_timeline(ts, content, hd);
    }
}

// ---------------------------------------------------------------------------
// EchoPause on tagged words
// ---------------------------------------------------------------------------

/// EchoPause on tagged words: a word followed by its repeat keeps its
/// start and never ends later; it then leaves at least 100 ms before the
/// repeat, or lasts at most 100 ms, and it is never cut below 100 ms (or
/// below its length, if that was shorter).
pub proof fn lemma_echo_pause_gap(ws: Seq<WordView>, i: int)
    requires
        0 <= i < ws.len() - 1,
        crate::heuristics::spec_echo_pause(ws[i].word, ws[i + 1].word),
        ws[i].start_ms <= ws[i].end_ms,
    ensures
        echo_adjust(ws)[i].start_ms == ws[i].start_ms,
        echo_adjust(ws)[i].word == ws[i].word,
        echo_adjust(ws)[i].end_ms <= ws[i].end_ms,
        ws[i + 1].start_ms - echo_adjust(ws)[i].end_ms >= 100 || echo_adjust(ws)[i].end_ms
            - echo_adjust(ws)[i].start_ms <= 100,
        echo_adjust(ws)[i].end_ms - echo_adjust(ws)[i].start_ms >= (if ws[i].end_ms - ws[i].start_ms
            < 100 {
            ws[i].end_ms - ws[i].start_ms
        } else {
            100
        }),
{
    assert(echo_adjust(ws)[i] == echo_adjust_one(ws, i));
}

// ---------------------------------------------------------------------------
// FlexTrack
// ---------------------------------------------------------------------------

proof fn lemma_trunc_div_mono(a: int, b: int, d: int)
    requires
        a <= b,
        d > 0,
    ensures
        trunc_div(a, d) <= trunc_div(b, d),
{
    if a >= 0 {
        assert(a / d <= b / d) by (nonlinear_arith)
            requires
                0 <= a <= b,
                d > 0,
        ;
    } else if b >= 0 {
        assert((-a) / d >= 0) by (nonlinear_arith)
            requires
                -a > 0,
                d > 0,
        ;
        assert(b / d >= 0) by (nonlinear_arith)
            requires
                b >= 0,
                d > 0,
        ;
    } else {
        assert((-b) / d <= (-a) / d) by (nonlinear_arith)
            requires
                0 < -b <= -a,
                d > 0,
        ;
    }
}

proof fn lemma_flex_time_between(t: int, os: int, od: int, target: int)
    requires
        od > 0,
        0 <= target <= od,
        i32::MIN <= t <= i32::MAX,
        i32::MIN <= os <= i32::MAX,
    ensures
        t >= os ==> os <= os + trunc_div((t - os) * target, od) <= t,
        t < os ==> t <= os + trunc_div((t - os) * target, od) <= os,
        flex_time(t, os, od, target) == os + trunc_div((t - os) * target, od),
{
    let a = t - os;
    if a >= 0 {
        assert(0 <= a * target <= a * od) by (nonlinear_arith)
            requires
                a >= 0,
                0 <= target <= od,
        ;
        assert((a * target) / od <= a) by (nonlinear_arith)
            requires
                0 <= a * target <= a * od,
                od > 0,
        ;
        assert((a * target) / od >= 0) by (nonlinear_arith)
            requires
                a * target >= 0,
                od > 0,
        ;
    } else {
        let b = -a;
        assert(0 <= b * target <= b * od) by (nonlinear_arith)
            requires
                b > 0,
                0 <= target <= od,
        ;
        assert((b * target) / od <= b) by (nonlinear_arith)
            requires
                0 <= b * target <= b * od,
                od > 0,
        ;
        assert((b * target) / od >= 0) by (nonlinear_arith)
            requires
                b * target >= 0,
                od > 0,
        ;
        assert(a * target == -(b * target)) by (nonlinear_arith)
            requires
                b == -a,
        ;
        if b * target == 0 {
            assert(trunc_div(a * target, od) == 0);
        }
    }
}

proof fn lemma_flex_time_mono(t1: int, t2: int, os: int, od: int, target: int)
    requires
        od > 0,
        0 <= target <= od,
        t1 <= t2,
        i32::MIN <= t1 <= i32::MAX,
        i32::MIN <= t2 <= i32::MAX,
        i32::MIN <= os <= i32::MAX,
    ensures
        flex_time(t1, os, od, target) <= flex_time(t2, os, od, target),
{
    lemma_flex_time_between(t1, os, od, target);
    lemma_flex_time_between(t2, os, od, target);
    assert((t1 - os) * target <= (t2 - os) * target) by (nonlinear_arith)
        requires
            t1 <= t2,
            target >= 0,
    ;
    lemma_trunc_div_mono((t1 - os) * target, (t2 - os) * target, od);
}

/// FlexTrack keeps the first word's start, and the last word then ends at
/// `first start + target`: at the deadline 150 ms before the line's end,
/// or later only by what the tempo's least allowed length demands.
pub proof fn lemma_flextrack_deadline(words: Seq<WordView>, sd: int, ls: int, mps: Ratio)
    requires
        mps.wf(),
        flex_applies(words, sd, ls),
    ensures
        spec_flextrack(words, sd, ls, mps).len() == words.len(),
        spec_flextrack(words, sd, ls, mps)[0].start_ms == words[0].start_ms,
        spec_flextrack(words, sd, ls, mps).last().end_ms == words[0].start_ms + flex_target(
            words,
            sd,
            ls,
            mps,
        ),
        spec_flextrack(words, sd, ls, mps).last().end_ms <= words.last().end_ms,
        ls + sd - 150 <= spec_flextrack(words, sd, ls, mps).last().end_ms,
{
    let r = spec_flextrack(words, sd, ls, mps);
    let os = words[0].start_ms as int;
    let oe = words.last().end_ms as int;
    let od = oe - os;
    let target = flex_target(words, sd, ls, mps);
    crate::tempo::lemma_flex_target_range(words, sd, ls, mps);
    lemma_flex_time_between(os, os, od, target);
    lemma_flex_time_between(oe, os, od, target);
    assert(od * target / od == target) by (nonlinear_arith)
        requires
            od > 0,
            target >= 0,
    ;
    assert(r[0] == words.map_values(|w: WordView| WordView {
        word: w.word,
        start_ms: flex_time(w.start_ms as int, os, od, target),
        end_ms: flex_time(w.end_ms as int, os, od, target),
    })[0]);
}

/// FlexTrack keeps a timeline a timeline.
pub proof fn lemma_flextrack_timeline(words: Seq<WordView>, sd: int, ls: int, mps: Ratio)
    requires
        mps.wf(),
        is_timeline(words),
    ensures
        is_timeline(spec_flextrack(words, sd, ls, mps)),
{
    if flex_applies(words, sd, ls) {
        let r = spec_flextrack(words, sd, ls, mps);
        let os = words[0].start_ms as int;
        let oe = words.last().end_ms as int;
        let od = oe - os;
        let target = flex_target(words, sd, ls, mps);
        crate::tempo::lemma_flex_target_range(words, sd, ls, mps);
        assert forall|i: int| 0 <= i < r.len() implies (#[trigger] r[i]).start_ms <= r[i].end_ms by {
            lemma_flex_time_mono(words[i].start_ms as int, words[i].end_ms as int, os, od, target);
        }
        assert forall|i: int, j: int| 0 <= i <= j < r.len() implies (#[trigger] r[i]).start_ms
            <= (#[trigger] r[j]).start_ms by {
            assert(words[i].start_ms <= words[j].start_ms);
            lemma_flex_time_mono(words[i].start_ms as int, words[j].start_ms as int, os, od, target);
        }
    }
}

} // verus!
