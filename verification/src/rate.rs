//! RateRider: the song's average singing tempo.
use vstd::prelude::*;
use crate::align::{line_fits, line_words_try, spec_line_words};
use crate::language::{HeuristicsData, HeuristicsView};
use crate::lyrics::{ParsedLrcLine, ParsedLineView, parsed_view, words_view};
use crate::parser::{count_line_syllables, spec_count_line_syllables};
use crate::ratio::{Ratio, RATIO_LIMIT};
use crate::text::chars_of;
use crate::tempo::{apply_flextrack_compression, spec_flextrack};

verus! {

/// The tempo assumed where none can be measured: 320 ms per syllable.
pub open spec fn base_tempo() -> Ratio {
    Ratio { num: 320, den: 1 }
}

/// What line `idx` adds to the tempo's totals, as (syllables,
/// milliseconds): a line followed by the next within 6000 ms, timed at the
/// base tempo and compressed by FlexTrack, adds its syllables and the span
/// from its first word's start to its last word's end. Other lines, and
/// the last line, add nothing.
pub open spec fn rate_step(lines: Seq<ParsedLineView>, idx: int, hd: HeuristicsView) -> (int, int) {
    if idx < lines.len() - 1 {
        let cur = lines[idx];
        let duration = lines[idx + 1].timestamp_ms - cur.timestamp_ms;
        if duration > 6000 {
            (0, 0)
        } else {
            let words = spec_line_words(cur.timestamp_ms as int, cur.text, duration, base_tempo(), hd);
            if words.len() == 0 {
                (0, 0)
            } else {
                let fw = spec_flextrack(words, duration, cur.timestamp_ms as int, base_tempo());
                (
                    spec_count_line_syllables(cur.text, hd.syllable_vowels) as int,
                    fw.last().end_ms - fw[0].start_ms,
                )
            }
        }
    } else {
        (0, 0)
    }
}

pub open spec fn rate_totals(lines: Seq<ParsedLineView>, hd: HeuristicsView, k: int) -> (int, int)
    decreases k,
{
    if k <= 0 {
        (0, 0)
    } else {
        let (s, d) = rate_totals(lines, hd, k - 1);
        let (s1, d1) = rate_step(lines, k - 1, hd);
        (s + s1, d + d1)
    }
}

/// The RateRider tempo: the measured milliseconds over the measured
/// syllables, or the base tempo when either is not positive.
pub open spec fn spec_rate_tempo(lines: Seq<ParsedLineView>, hd: HeuristicsView) -> Ratio {
    let (s, d) = rate_totals(lines, hd, lines.len() as int);
    if s > 0 && d > 0 {
        Ratio { num: d as i64, den: s as i64 }
    } else {
        base_tempo()
    }
}

/// Whether the arithmetic of line `idx` in the RateRider pass fits in
/// `i32`: the time to the next line, and the times of the line's words.
pub open spec fn rate_line_fits(lines: Seq<ParsedLineView>, idx: int, hd: HeuristicsView) -> bool {
    idx < lines.len() - 1 ==> {
        let cur = lines[idx];
        let duration = lines[idx + 1].timestamp_ms - cur.timestamp_ms;
        &&& i32::MIN <= duration <= i32::MAX
        &&& duration <= 6000 ==> line_fits(cur.timestamp_ms as int, cur.text, duration, base_tempo(), hd)
    }
}

/// Whether RateRider's measurement fits in `i32`: each line, and the
/// running totals of syllables and milliseconds.
pub open spec fn rate_fits(lines: Seq<ParsedLineView>, hd: HeuristicsView) -> bool {
    &&& forall|idx: int| 0 <= idx < lines.len() ==> #[trigger] rate_line_fits(lines, idx, hd)
    &&& forall|k: int|
        0 <= k <= lines.len() ==> #[trigger] rate_totals(lines, hd, k).0 <= i32::MAX && i32::MIN
            <= rate_totals(lines, hd, k).1 <= i32::MAX
}

proof fn lemma_rate_totals_nonneg(lines: Seq<ParsedLineView>, hd: HeuristicsView, k: int)
    requires
        0 <= k,
    ensures
        0 <= rate_totals(lines, hd, k).0,
    decreases k,
{
    if k > 0 {
        lemma_rate_totals_nonneg(lines, hd, k - 1);
    }
}

/// The RateRider tempo is a proper fraction, and positive: every line is
/// given some time per syllable.
pub proof fn lemma_rate_tempo_positive(lines: Seq<ParsedLineView>, hd: HeuristicsView)
    requires
        rate_fits(lines, hd),
    ensures
        spec_rate_tempo(lines, hd).wf(),
        spec_rate_tempo(lines, hd).num > 0,
{
    let n = lines.len() as int;
    assert(rate_totals(lines, hd, n).0 <= i32::MAX);
    lemma_rate_totals_nonneg(lines, hd, n);
}

/// RateRider: the tempo of a song, measured over its lines in order.
#[derive(Debug)]
pub struct RateRider {
    pub ms_per_syllable: Ratio,
}

/// What line `idx` adds to RateRider's totals, or `None` when its
/// arithmetic does not fit in `i32`.
fn rate_step_exec(sorted_lines: &[ParsedLrcLine], idx: usize, hd: &HeuristicsData) -> (r: Option<(i64, i64)>)
    requires
        idx < sorted_lines@.len(),
    ensures
        r is Some <==> rate_line_fits(parsed_view(sorted_lines@), idx as int, hd@),
        r matches Some(p) ==> (p.0 as int, p.1 as int) == rate_step(parsed_view(sorted_lines@), idx as int, hd@),
{
    let ghost lv = parsed_view(sorted_lines@);
    if idx >= sorted_lines.len() - 1 {
        return Some((0, 0));
    }
    let cur = &sorted_lines[idx];
    let next = &sorted_lines[idx + 1];
    assert(cur@ == lv[idx as int]);
    assert(next@ == lv[idx + 1]);
    let wide: i64 = (next.timestamp_ms as i64) - (cur.timestamp_ms as i64);
    if wide < i32::MIN as i64 || wide > i32::MAX as i64 {
        return None;
    }
    let duration = wide as i32;
    if duration > 6000 {
        return Some((0, 0));
    }
    let base = Ratio::whole(320);
    let text = chars_of(cur.text.as_str());
    match line_words_try(cur.timestamp_ms, &text, duration, base, hd) {
        None => None,
        Some(words) => {
            let mut words = words;
            if words.len() == 0 {
                return Some((0, 0));
            }
            let ghost before = words_view(words@);
            apply_flextrack_compression(&mut words, duration, cur.timestamp_ms, base);
            assert(words@.len() == words_view(words@).len());
            assert(words_view(words@).len() == before.len());
            let first = words[0].start_ms;
            let last = words[words.len() - 1].end_ms;
            assert(words_view(words@)[0].start_ms == first);
            assert(words_view(words@).last().end_ms == last);
            let syl = count_line_syllables(cur.text.as_str(), hd.syllables.vowels.as_str());
            Some((syl as i64, (last as i64) - (first as i64)))
        },
    }
}

impl RateRider {
    /// Measures the tempo over lines sorted by timestamp, or `None` when its
    /// arithmetic does not fit in `i32`.
    pub(crate) fn measure(sorted_lines: &[ParsedLrcLine], hd: &HeuristicsData) -> (r: Option<RateRider>)
        ensures
            r is Some <==> rate_fits(parsed_view(sorted_lines@), hd@),
            r matches Some(rr) ==> rr.ms_per_syllable == spec_rate_tempo(parsed_view(sorted_lines@), hd@)
                && rr.ms_per_syllable.wf(),
    {
        let ghost lv = parsed_view(sorted_lines@);
        let n = sorted_lines.len();
        let mut total_syllables: i64 = 0;
        let mut total_duration: i64 = 0;
        let mut idx: usize = 0;
        while idx < n
            invariant
                n == sorted_lines@.len(),
                lv == parsed_view(sorted_lines@),
                idx <= n,
                (total_syllables as int, total_duration as int) == rate_totals(lv, hd@, idx as int),
                forall|q: int| 0 <= q < idx ==> #[trigger] rate_line_fits(lv, q, hd@),
                forall|k: int|
                    0 <= k <= idx ==> #[trigger] rate_totals(lv, hd@, k).0 <= i32::MAX && i32::MIN
                        <= rate_totals(lv, hd@, k).1 <= i32::MAX,
            decreases n - idx,
        {
            proof {
                lemma_rate_totals_nonneg(lv, hd@, idx as int);
            }
            match rate_step_exec(sorted_lines, idx, hd) {
                None => {
                    return None;
                },
                Some(step) => {
                    total_syllables = total_syllables + step.0;
                    total_duration = total_duration + step.1;
                },
            }
            assert((total_syllables as int, total_duration as int) == rate_totals(lv, hd@, idx + 1));
            if total_syllables > i32::MAX as i64 || total_duration < i32::MIN as i64 || total_duration
                > i32::MAX as i64 {
                assert(!rate_fits(lv, hd@)) by {
                    assert(rate_totals(lv, hd@, idx + 1).0 == total_syllables);
                }
                return None;
            }
            idx = idx + 1;
        }
        let ms_per_syllable = if total_syllables > 0 && total_duration > 0 {
            Ratio::new(total_duration, total_syllables)
        } else {
            Ratio::whole(320)
        };
        Some(RateRider { ms_per_syllable })
    }

    /// Measures the tempo over lines sorted by timestamp.
    pub fn new(sorted_lines: &[ParsedLrcLine], hd: &HeuristicsData) -> (r: RateRider)
        requires
            rate_fits(parsed_view(sorted_lines@), hd@),
        ensures
            r.ms_per_syllable == spec_rate_tempo(parsed_view(sorted_lines@), hd@),
            r.ms_per_syllable.wf(),
    {
        match RateRider::measure(sorted_lines, hd) {
            Some(rr) => rr,
            None => RateRider { ms_per_syllable: Ratio::whole(320) },
        }
    }

    /// `new`, or `None` for lines whose measurement would overflow `i32`.
    pub fn try_new(sorted_lines: &[ParsedLrcLine], hd: &HeuristicsData) -> (r: Option<RateRider>)
        ensures
            r is Some <==> rate_fits(parsed_view(sorted_lines@), hd@),
            r matches Some(rr) ==> rr.ms_per_syllable == spec_rate_tempo(parsed_view(sorted_lines@), hd@)
                && rr.ms_per_syllable.wf(),
    {
        if RateRider::measure(sorted_lines, hd).is_some() {
            Some(RateRider::new(sorted_lines, hd))
        } else {
            None
        }
    }

    /// The time that `text` takes at this tempo: its syllables times the
    /// tempo, rounded down to whole milliseconds.
    pub fn estimate_duration(&self, text: &str, vowels: &str) -> (r: i128)
        requires
            self.ms_per_syllable.wf(),
        ensures
            r == spec_count_line_syllables(text@, vowels@) * self.ms_per_syllable.num
                / (self.ms_per_syllable.den as int),
    {
        let syllables = count_line_syllables(text, vowels);
        proof {
            crate::ratio::lemma_prod_bound(
                syllables as int,
                self.ms_per_syllable.num as int,
                i32::MAX as int,
                RATIO_LIMIT as int,
            );
        }
        (syllables as i128) * (self.ms_per_syllable.num as i128) / (self.ms_per_syllable.den as i128)
    }
}

} // verus!
