//! Line-level timing: gaps, compression and text similarity.
use vstd::prelude::*;
use crate::lyrics::{WordInfo, WordView, words_view};
use crate::parser::{count_line_syllables_vec, spec_count_line_syllables};
use crate::ratio::{sat_i32, sat_i32_exec, trunc_div, trunc_div_exec, lemma_prod_bound, Ratio, RATIO_LIMIT};
use crate::text::chars_of;

verus! {

// ---------------------------------------------------------------------------
// GapSentry and GapGlide
// ---------------------------------------------------------------------------

/// A line longer than 6000 ms whose estimated singing leaves at least 1000 ms
/// before the next line is followed by an instrumental gap.
pub open spec fn spec_gap_sentry(line_duration_ms: int, est_singing_duration_ms: int) -> bool {
    line_duration_ms > 6000 && line_duration_ms - est_singing_duration_ms >= 1000
}

/// GapSentry: whether an instrumental gap follows the line.
pub fn apply_gap_sentry_check(line_duration_ms: i32, est_singing_duration_ms: i32) -> (r: bool)
    ensures
        r == spec_gap_sentry(line_duration_ms as int, est_singing_duration_ms as int),
{
    if line_duration_ms <= 6000 {
        return false;
    }
    let remaining_gap: i64 = (line_duration_ms as i64) - (est_singing_duration_ms as i64);
    remaining_gap >= 1000
}

/// `syllables * tempo + 800` rounded down (saturated to `i32`).
pub open spec fn spec_estimated_singing(syllables: int, mps: Ratio) -> i32 {
    sat_i32((syllables * mps.num + 800 * mps.den) / (mps.den as int))
}

pub fn estimated_singing(syllables: i32, mps: Ratio) -> (r: i32)
    requires
        mps.wf(),
        syllables >= 0,
    ensures
        r == spec_estimated_singing(syllables as int, mps),
{
    proof {
        lemma_prod_bound(syllables as int, mps.num as int, i32::MAX as int, RATIO_LIMIT as int);
    }
    let total: i128 = (syllables as i128) * (mps.num as i128) + 800 * (mps.den as i128);
    let q = total / (mps.den as i128);
    sat_i32_exec(q)
}

/// `max(2500, min(syllables * tempo + 800, line - 2000))`.
pub open spec fn spec_gap_glide(
    text: Seq<char>,
    line_duration_ms: int,
    mps: Ratio,
    vowels: Seq<char>,
) -> i32 {
    let est = spec_estimated_singing(spec_count_line_syllables(text, vowels) as int, mps) as int;
    let allowed = line_duration_ms - 2000;
    let m = if est < allowed {
        est
    } else {
        allowed
    };
    if 2500 > m {
        2500
    } else {
        m as i32
    }
}

pub fn gap_glide_vec(text: &Vec<char>, line_duration_ms: i32, mps: Ratio, vowels: &Vec<char>) -> (r: i32)
    requires
        mps.wf(),
    ensures
        r == spec_gap_glide(text@, line_duration_ms as int, mps, vowels@),
        r >= 2500,
{
    let syllables = count_line_syllables_vec(text, vowels);
    let est = estimated_singing(syllables, mps);
    let allowed: i64 = (line_duration_ms as i64) - 2000;
    let m: i64 = if (est as i64) < allowed {
        est as i64
    } else {
        allowed
    };
    if 2500 > m {
        2500
    } else {
        m as i32
    }
}

/// GapGlide: the singing span of a line followed by an instrumental gap.
pub fn apply_gap_glide_estimation(
    text: &str,
    line_duration_ms: i32,
    ms_per_syllable: Ratio,
    vowels: &str,
) -> (r: i32)
    requires
        ms_per_syllable.wf(),
    ensures
        r == spec_gap_glide(text@, line_duration_ms as int, ms_per_syllable, vowels@),
{
    let t = chars_of(text);
    let v = chars_of(vowels);
    gap_glide_vec(&t, line_duration_ms, ms_per_syllable, &v)
}

// ---------------------------------------------------------------------------
// FlexTrack
// ---------------------------------------------------------------------------

/// The least fraction of its length that a line may be compressed to: 0.85
/// up to 200 ms per syllable, 0.70 from 500 ms, linear in between.
pub open spec fn flex_ratio(mps: Ratio) -> (int, int) {
    if mps.num <= 200 * mps.den {
        (85, 100)
    } else if mps.num >= 500 * mps.den {
        (70, 100)
    } else {
        (5700 * mps.den - 3 * mps.num, 6000 * mps.den)
    }
}

/// The target length of a line's words, when they run past the deadline
/// 150 ms before the line ends and start before it.
pub open spec fn flex_target(words: Seq<WordView>, singing_duration_ms: int, line_start_ms: int, mps: Ratio) -> int {
    let os = words[0].start_ms as int;
    let oe = words.last().end_ms as int;
    let deadline = line_start_ms + singing_duration_ms - 150;
    let od = if oe - os > 1 {
        oe - os
    } else {
        1
    };
    let tdd = if deadline - os > 1 {
        deadline - os
    } else {
        1
    };
    let min_allowed = od * flex_ratio(mps).0 / flex_ratio(mps).1;
    if tdd > min_allowed {
        tdd
    } else {
        min_allowed
    }
}

pub open spec fn flex_applies(words: Seq<WordView>, singing_duration_ms: int, line_start_ms: int) -> bool {
    words.len() > 0 && {
        let os = words[0].start_ms as int;
        let oe = words.last().end_ms as int;
        let deadline = line_start_ms + singing_duration_ms - 150;
        oe > deadline && deadline > os
    }
}

/// A time moved toward the line's first start in proportion `target / od`.
pub open spec fn flex_time(t: int, os: int, od: int, target: int) -> i32 {
    (os + trunc_div((t - os) * target, od)) as i32
}

/// FlexTrack: the words scaled toward the first start so that they end by
/// the deadline, but by no more than the tempo allows.
pub open spec fn spec_flextrack(
    words: Seq<WordView>,
    singing_duration_ms: int,
    line_start_ms: int,
    mps: Ratio,
) -> Seq<WordView> {
    if flex_applies(words, singing_duration_ms, line_start_ms) {
        let os = words[0].start_ms as int;
        let od = words.last().end_ms - os;
        let target = flex_target(words, singing_duration_ms, line_start_ms, mps);
        words.map_values(
            |w: WordView|
                WordView {
                    word: w.word,
                    start_ms: flex_time(w.start_ms as int, os, od, target),
                    end_ms: flex_time(w.end_ms as int, os, od, target),
                },
        )
    } else {
        words
    }
}

/// The FlexTrack target lies between the deadline's distance from the first
/// start and the words' length before compression.
pub proof fn lemma_flex_target_range(words: Seq<WordView>, singing_duration_ms: int, line_start_ms: int, mps: Ratio)
    requires
        mps.wf(),
        flex_applies(words, singing_duration_ms, line_start_ms),
    ensures
        words.last().end_ms - words[0].start_ms >= 2,
        line_start_ms + singing_duration_ms - 150 - words[0].start_ms <= flex_target(
            words,
            singing_duration_ms,
            line_start_ms,
            mps,
        ),
        0 <= flex_target(words, singing_duration_ms, line_start_ms, mps) <= words.last().end_ms
            - words[0].start_ms,
{
    let os = words[0].start_ms as int;
    let oe = words.last().end_ms as int;
    let od = oe - os;
    let (rn, rd) = flex_ratio(mps);
    assert(0 < rn <= rd);
    assert(0 <= od * rn / rd <= od) by (nonlinear_arith)
        requires
            od > 0,
            0 < rn <= rd,
    ;
}

proof fn lemma_scaled_offset(a: int, t: int, od: int)
    requires
        od > 0,
        0 <= t <= od,
    ensures
        a >= 0 ==> 0 <= trunc_div(a * t, od) <= a,
        a < 0 ==> a <= trunc_div(a * t, od) <= 0,
{
    if a >= 0 {
        assert(0 <= a * t <= a * od) by (nonlinear_arith)
            requires
                a >= 0,
                0 <= t <= od,
        ;
        assert((a * t) / od <= a) by (nonlinear_arith)
            requires
                a >= 0,
                0 <= a * t <= a * od,
                od > 0,
        ;
        assert((a * t) / od >= 0) by (nonlinear_arith)
            requires
                a * t >= 0,
                od > 0,
        ;
    } else {
        let b = -a;
        assert(0 <= b * t <= b * od) by (nonlinear_arith)
            requires
                b > 0,
                0 <= t <= od,
        ;
        assert((b * t) / od <= b) by (nonlinear_arith)
            requires
                b > 0,
                0 <= b * t <= b * od,
                od > 0,
        ;
        assert((b * t) / od >= 0) by (nonlinear_arith)
            requires
                b * t >= 0,
                od > 0,
        ;
        assert(a * t == -(b * t)) by (nonlinear_arith)
            requires
                b == -a,
        ;
        if t == 0 {
            assert(a * t == 0);
            assert(trunc_div(a * t, od) == 0);
        } else {
            assert(b * t > 0) by (nonlinear_arith)
                requires
                    b > 0,
                    t > 0,
            ;
            assert(a * t < 0);
            assert(trunc_div(a * t, od) == -((b * t) / od));
        }
    }
}

fn flex_time_exec(t: i32, os: i32, od: i128, target: i128) -> (r: i32)
    requires
        od > 0,
        0 <= target <= od,
        od <= 0x1_0000_0000,
    ensures
        r == flex_time(t as int, os as int, od as int, target as int),
{
    let a: i128 = (t as i128) - (os as i128);
    proof {
        lemma_scaled_offset(a as int, target as int, od as int);
        assert(-0x1_0000_0000 * 0x1_0000_0000 <= a * target <= 0x1_0000_0000 * 0x1_0000_0000)
            by (nonlinear_arith)
            requires
                -0x1_0000_0000 <= a <= 0x1_0000_0000,
                0 <= target <= 0x1_0000_0000,
        ;
    }
    let q = trunc_div_exec(a * target, od);
    ((os as i128) + q) as i32
}

/// FlexTrack: compresses the words of a line toward its first word when
/// they run past 150 ms before the line's end, but never below 85% of their
/// length on fast tracks (up to 200 ms per syllable) or 70% on slow ones
/// (from 500 ms), linear in between.
pub fn apply_flextrack_compression(
    words: &mut Vec<WordInfo>,
    singing_duration_ms: i32,
    line_start_ms: i32,
    ms_per_syllable: Ratio,
)
    requires
        ms_per_syllable.wf(),
    ensures
        words_view(final(words)@) == spec_flextrack(
            words_view(old(words)@),
            singing_duration_ms as int,
            line_start_ms as int,
            ms_per_syllable,
        ),
{
    let ghost ws = words_view(words@);
    if words.len() == 0 {
        return;
    }
    let first_start = words[0].start_ms;
    let last_end = words[words.len() - 1].end_ms;
    assert(ws[0].start_ms == first_start);
    assert(ws.last().end_ms == last_end);
    let deadline_ms: i64 = (line_start_ms as i64) + (singing_duration_ms as i64) - 150;
    if (last_end as i64) > deadline_ms && deadline_ms > (first_start as i64) {
        let od: i128 = (last_end as i128) - (first_start as i128);
        let tdd: i128 = (deadline_ms as i128) - (first_start as i128);
        let tdd: i128 = if tdd > 1 {
            tdd
        } else {
            1
        };
        let num = ms_per_syllable.num as i128;
        let den = ms_per_syllable.den as i128;
        let (rn, rd): (i128, i128) = if num <= 200 * den {
            (85, 100)
        } else if num >= 500 * den {
            (70, 100)
        } else {
            (5700 * den - 3 * num, 6000 * den)
        };
        proof {
            assert(0 < rn <= rd);
            lemma_prod_bound(od as int, rn as int, 0x1_0000_0000, 6000 * RATIO_LIMIT as int);
            assert((od as int * rn as int) / (rd as int) <= od as int) by (nonlinear_arith)
                requires
                    od > 0,
                    0 < rn <= rd,
            ;
        }
        let min_allowed: i128 = (od * rn) / rd;
        let target: i128 = if tdd > min_allowed {
            tdd
        } else {
            min_allowed
        };
        assert(target == flex_target(ws, singing_duration_ms as int, line_start_ms as int, ms_per_syllable));
        let ghost os = first_start as int;
        let ghost odg = od as int;
        let ghost tg = target as int;
        let mut i: usize = 0;
        while i < words.len()
            invariant
                0 <= i <= words.len(),
                words@.len() == ws.len(),
                od > 0,
                0 <= target <= od,
                od <= 0x1_0000_0000,
                odg == od,
                tg == target,
                os == first_start,
                forall|k: int|
                    0 <= k < i ==> (#[trigger] words_view(words@)[k]) == (WordView {
                        word: ws[k].word,
                        start_ms: flex_time(ws[k].start_ms as int, os, odg, tg),
                        end_ms: flex_time(ws[k].end_ms as int, os, odg, tg),
                    }),
                forall|k: int| i <= k < ws.len() ==> (#[trigger] words_view(words@)[k]) == ws[k],
            decreases words.len() - i,
        {
            assert(words_view(words@)[i as int] == ws[i as int]);
            let mut w = words[i].duplicate();
            w.start_ms = flex_time_exec(w.start_ms, first_start, od, target);
            w.end_ms = flex_time_exec(w.end_ms, first_start, od, target);
            let ghost before = words@;
            let ghost neww = w@;
            words.set(i, w);
            proof {
                assert forall|k: int| 0 <= k < words@.len() implies #[trigger] words_view(words@)[k]
                    == (if k == i {
                    neww
                } else {
                    words_view(before)[k]
                }) by {
                    assert(words_view(words@)[k] == words@[k]@);
                    if k != i {
                        assert(words_view(before)[k] == before[k]@);
                    }
                }
            }
            i = i + 1;
        }
        proof {
            let expected = spec_flextrack(ws, singing_duration_ms as int, line_start_ms as int, ms_per_syllable);
            assert(words_view(words@) =~= expected);
        }
    } else {
        assert(!flex_applies(ws, singing_duration_ms as int, line_start_ms as int));
    }
}

// ---------------------------------------------------------------------------
// EchoEcho
// ---------------------------------------------------------------------------

pub open spec fn min3(x: nat, y: nat, z: nat) -> nat {
    if x <= y && x <= z {
        x
    } else if y <= z {
        y
    } else {
        z
    }
}

/// The Levenshtein (edit) distance: the fewest insertions, deletions and
/// substitutions of characters that turn `a` into `b`.
pub open spec fn lev(a: Seq<char>, b: Seq<char>) -> nat
    decreases a.len() + b.len(),
{
    if a.len() == 0 {
        b.len()
    } else if b.len() == 0 {
        a.len()
    } else if a.last() == b.last() {
        lev(a.drop_last(), b.drop_last())
    } else {
        1 + min3(lev(a.drop_last(), b.drop_last()), lev(a.drop_last(), b), lev(a, b.drop_last()))
    }
}

pub open spec fn max_len(a: Seq<char>, b: Seq<char>) -> nat {
    if a.len() >= b.len() {
        a.len()
    } else {
        b.len()
    }
}

/// The distance is at most the length of the longer string.
pub proof fn lemma_lev_upper(a: Seq<char>, b: Seq<char>)
    ensures
        lev(a, b) <= max_len(a, b),
    decreases a.len() + b.len(),
{
    if a.len() > 0 && b.len() > 0 {
        lemma_lev_upper(a.drop_last(), b.drop_last());
    }
}

/// The distance is at least the difference of the lengths.
pub proof fn lemma_lev_lower(a: Seq<char>, b: Seq<char>)
    ensures
        lev(a, b) >= a.len() - b.len(),
        lev(a, b) >= b.len() - a.len(),
    decreases a.len() + b.len(),
{
    if a.len() > 0 && b.len() > 0 {
        lemma_lev_lower(a.drop_last(), b.drop_last());
        lemma_lev_lower(a.drop_last(), b);
        lemma_lev_lower(a, b.drop_last());
    }
}

/// A string is at distance 0 from itself, and only from itself.
pub proof fn lemma_lev_zero(a: Seq<char>, b: Seq<char>)
    ensures
        lev(a, b) == 0 <==> a == b,
    decreases a.len() + b.len(),
{
    if a.len() > 0 && b.len() > 0 {
        lemma_lev_zero(a.drop_last(), b.drop_last());
        if a.last() == b.last() && a.drop_last() == b.drop_last() {
            assert(a =~= a.drop_last().push(a.last()));
            assert(b =~= b.drop_last().push(b.last()));
        }
        if a == b {
            assert(a.drop_last() == b.drop_last());
        }
    } else if a.len() == 0 && b.len() == 0 {
        assert(a =~= b);
    }
}

/// The distance does not depend on the order of its arguments.
pub proof fn lemma_lev_symmetric(a: Seq<char>, b: Seq<char>)
    ensures
        lev(a, b) == lev(b, a),
    decreases a.len() + b.len(),
{
    if a.len() > 0 && b.len() > 0 {
        lemma_lev_symmetric(a.drop_last(), b.drop_last());
        lemma_lev_symmetric(a.drop_last(), b);
        lemma_lev_symmetric(a, b.drop_last());
    }
}

/// Dropping the last character of either string moves the distance by at
/// most 1.
pub proof fn lemma_lev_step(a: Seq<char>, b: Seq<char>)
    ensures
        a.len() > 0 ==> lev(a, b) <= lev(a.drop_last(), b) + 1 && lev(a.drop_last(), b) <= lev(a, b) + 1,
        b.len() > 0 ==> lev(a, b) <= lev(a, b.drop_last()) + 1 && lev(a, b.drop_last()) <= lev(a, b) + 1,
    decreases a.len() + b.len(),
{
    if a.len() > 0 && b.len() > 0 {
        let a1 = a.drop_last();
        let b1 = b.drop_last();
        lemma_lev_step(a1, b);
        lemma_lev_step(a, b1);
        if a1.len() == 0 {
            assert(lev(a1, b) == b.len());
            assert(lev(a1, b1) == b1.len());
        }
        if b1.len() == 0 {
            assert(lev(a, b1) == a.len());
            assert(lev(a1, b1) == a1.len());
        }
    }
}

/// The triangle inequality: going from `a` to `c` costs no more edits than
/// going through `b`.
pub proof fn lemma_lev_triangle(a: Seq<char>, b: Seq<char>, c: Seq<char>)
    ensures
        lev(a, c) <= lev(a, b) + lev(b, c),
    decreases a.len() + b.len() + c.len(),
{
    if a.len() == 0 {
        lemma_lev_lower(b, c);
    } else if c.len() == 0 {
        lemma_lev_lower(a, b);
    } else if b.len() == 0 {
        lemma_lev_upper(a, c);
    } else {
        let a1 = a.drop_last();
        let b1 = b.drop_last();
        let c1 = c.drop_last();
        lemma_lev_step(a, c);
        let x = lev(a, b);
        let y = lev(b, c);
        if x == lev(a1, b) + 1 {
            lemma_lev_triangle(a1, b, c);
        } else if y == lev(b, c1) + 1 {
            lemma_lev_triangle(a, b, c1);
        } else if x == lev(a, b1) + 1 {
            lemma_lev_triangle(a, b1, c);
            lemma_lev_step(b, c);
        } else if y == lev(b1, c) + 1 {
            lemma_lev_triangle(a, b1, c);
            lemma_lev_step(a, b);
        } else {
            lemma_lev_triangle(a1, b1, c1);
        }
    }
}

/// `t` is `s` with one character deleted, inserted or replaced.
pub open spec fn one_edit(s: Seq<char>, t: Seq<char>) -> bool {
    exists|p: Seq<char>, c: char, d: char, q: Seq<char>|
        #![trigger p + seq![c] + q, p + seq![d] + q]
        (s == p + seq![c] + q && t == p + q) || (s == p + q && t == p + seq![c] + q) || (s == p + seq![c] + q
            && t == p + seq![d] + q)
}

proof fn lemma_lev_suffix(u: Seq<char>, v: Seq<char>, q: Seq<char>)
    ensures
        lev(u + q, v + q) == lev(u, v),
    decreases q.len(),
{
    if q.len() == 0 {
        assert(u + q =~= u);
        assert(v + q =~= v);
    } else {
        lemma_lev_suffix(u, v, q.drop_last());
        assert((u + q).drop_last() =~= u + q.drop_last());
        assert((v + q).drop_last() =~= v + q.drop_last());
        assert((u + q).last() == q.last());
        assert((v + q).last() == q.last());
    }
}

proof fn lemma_lev_drop_one(p: Seq<char>, c: char)
    ensures
        lev(p + seq![c], p) <= 1,
{
    lemma_lev_step(p + seq![c], p);
    assert((p + seq![c]).drop_last() =~= p);
    lemma_lev_zero(p, p);
}

/// A single edit is at distance at most 1.
proof fn lemma_lev_one_edit(s: Seq<char>, t: Seq<char>)
    requires
        one_edit(s, t),
    ensures
        lev(s, t) <= 1,
{
    let (p, c, d, q) = choose|p: Seq<char>, c: char, d: char, q: Seq<char>|
        #![trigger p + seq![c] + q, p + seq![d] + q]
        (s == p + seq![c] + q && t == p + q) || (s == p + q && t == p + seq![c] + q) || (s == p + seq![c] + q
            && t == p + seq![d] + q);
    let pc = p + seq![c];
    let pd = p + seq![d];
    assert(p + seq![c] + q == pc + q);
    assert(p + seq![d] + q == pd + q);
    if s == p + seq![c] + q && t == p + q {
        lemma_lev_suffix(pc, p, q);
        lemma_lev_drop_one(p, c);
    } else if s == p + q && t == p + seq![c] + q {
        lemma_lev_suffix(p, pc, q);
        lemma_lev_symmetric(p, pc);
        lemma_lev_drop_one(p, c);
    } else {
        lemma_lev_suffix(pc, pd, q);
        assert(pc.drop_last() =~= p);
        assert(pd.drop_last() =~= p);
        lemma_lev_zero(p, p);
    }
}

/// No chain of single edits from `path[0]` to its last string is shorter
/// than their distance: the distance is the fewest edits.
pub proof fn lemma_lev_fewest_edits(path: Seq<Seq<char>>)
    requires
        path.len() >= 1,
        edit_chain(path),
    ensures
        lev(path[0], path.last()) <= path.len() - 1,
    decreases path.len(),
{
    let n = path.len() as int;
    if n == 1 {
        lemma_lev_zero(path[0], path[0]);
    } else {
        let front = path.drop_last();
        assert forall|k: int| 0 <= k < front.len() - 1 implies one_edit(#[trigger] front[k], front[k + 1]) by {
            assert(one_edit(path[k], path[k + 1]));
        }
        lemma_lev_fewest_edits(front);
        assert(one_edit(path[n - 2], path[n - 1]));
        lemma_lev_one_edit(path[n - 2], path[n - 1]);
        lemma_lev_triangle(path[0], path[n - 2], path[n - 1]);
    }
}

/// Each string of `path` is one edit away from the one before.
pub open spec fn edit_chain(path: Seq<Seq<char>>) -> bool {
    forall|k: int| 0 <= k < path.len() - 1 ==> one_edit(#[trigger] path[k], path[k + 1])
}

proof fn lemma_one_edit_append(s: Seq<char>, t: Seq<char>, x: char)
    requires
        one_edit(s, t),
    ensures
        one_edit(s + seq![x], t + seq![x]),
{
    let (p, c, d, q) = choose|p: Seq<char>, c: char, d: char, q: Seq<char>|
        #![trigger p + seq![c] + q, p + seq![d] + q]
        (s == p + seq![c] + q && t == p + q) || (s == p + q && t == p + seq![c] + q) || (s == p + seq![c] + q
            && t == p + seq![d] + q);
    let qx = q + seq![x];
    assert(p + seq![c] + q + seq![x] =~= p + seq![c] + qx);
    assert(p + seq![d] + q + seq![x] =~= p + seq![d] + qx);
    assert(p + q + seq![x] =~= p + qx);
}

proof fn lemma_one_insert(p: Seq<char>, c: char)
    ensures
        one_edit(p, p + seq![c]),
        one_edit(p + seq![c], p),
{
    let q = Seq::<char>::empty();
    assert(p + q =~= p);
    assert(p + seq![c] + q =~= p + seq![c]);
}

proof fn lemma_one_replace(p: Seq<char>, c: char, d: char)
    ensures
        one_edit(p + seq![c], p + seq![d]),
{
    let q = Seq::<char>::empty();
    assert(p + seq![c] + q =~= p + seq![c]);
    assert(p + seq![d] + q =~= p + seq![d]);
}

proof fn lemma_chain_append(path: Seq<Seq<char>>, x: char)
    requires
        edit_chain(path),
    ensures
        edit_chain(path.map_values(|s: Seq<char>| s + seq![x])),
{
    let m = path.map_values(|s: Seq<char>| s + seq![x]);
    assert forall|k: int| 0 <= k < m.len() - 1 implies one_edit(#[trigger] m[k], m[k + 1]) by {
        assert(one_edit(path[k], path[k + 1]));
        lemma_one_edit_append(path[k], path[k + 1], x);
    }
}

/// A chain of `lev(a, b)` single edits from `a` to `b`.
proof fn lev_chain(a: Seq<char>, b: Seq<char>) -> (path: Seq<Seq<char>>)
    ensures
        path.len() == lev(a, b) + 1,
        path[0] == a,
        path.last() == b,
        edit_chain(path),
    decreases a.len() + b.len(),
{
    if a.len() == 0 {
        let path = Seq::new(b.len() + 1, |k: int| b.take(k));
        assert forall|k: int| 0 <= k < path.len() - 1 implies one_edit(#[trigger] path[k], path[k + 1]) by {
            assert(b.take(k + 1) =~= b.take(k) + seq![b[k]]);
            lemma_one_insert(b.take(k), b[k]);
        }
        assert(b.take(0) =~= a);
        assert(b.take(b.len() as int) =~= b);
        path
    } else if b.len() == 0 {
        let path = Seq::new(a.len() + 1, |k: int| a.take(a.len() - k));
        assert forall|k: int| 0 <= k < path.len() - 1 implies one_edit(#[trigger] path[k], path[k + 1]) by {
            let j = a.len() - k - 1;
            assert(a.take(j + 1) =~= a.take(j) + seq![a[j]]);
            lemma_one_insert(a.take(j), a[j]);
        }
        assert(a.take(a.len() as int) =~= a);
        assert(a.take(0) =~= b);
        path
    } else {
        let a1 = a.drop_last();
        let b1 = b.drop_last();
        let x = a.last();
        let y = b.last();
        assert(a1 + seq![x] =~= a);
        assert(b1 + seq![y] =~= b);
        if x == y || lev(a, b) == 1 + lev(a1, b1) {
            let inner = lev_chain(a1, b1);
            lemma_chain_append(inner, x);
            let m = inner.map_values(|s: Seq<char>| s + seq![x]);
            if x == y {
                m
            } else {
                let path = m.push(b);
                lemma_one_replace(b1, x, y);
                assert forall|k: int| 0 <= k < path.len() - 1 implies one_edit(#[trigger] path[k], path[k + 1]) by {
                    if k < m.len() - 1 {
                        assert(one_edit(m[k], m[k + 1]));
                    }
                }
                path
            }
        } else if lev(a, b) == 1 + lev(a1, b) {
            let inner = lev_chain(a1, b);
            let path = seq![a] + inner;
            lemma_one_insert(a1, x);
            assert forall|k: int| 0 <= k < path.len() - 1 implies one_edit(#[trigger] path[k], path[k + 1]) by {
                if k > 0 {
                    assert(path[k] == inner[k - 1]);
                    assert(path[k + 1] == inner[k]);
                    assert(one_edit(inner[k - 1], inner[k]));
                }
            }
            path
        } else {
            let inner = lev_chain(a, b1);
            let path = inner.push(b);
            lemma_one_insert(b1, y);
            assert forall|k: int| 0 <= k < path.len() - 1 implies one_edit(#[trigger] path[k], path[k + 1]) by {
                if k < inner.len() - 1 {
                    assert(one_edit(inner[k], inner[k + 1]));
                }
            }
            path
        }
    }
}

/// The distance is reached: some chain of exactly `lev(a, b)` single edits
/// turns `a` into `b` (and by `lemma_lev_fewest_edits` none is shorter).
pub proof fn lemma_lev_reached(a: Seq<char>, b: Seq<char>)
    ensures
        exists|path: Seq<Seq<char>>|
            path.len() == lev(a, b) + 1 && path[0] == a && path.last() == b && #[trigger] edit_chain(path),
{
    let path = lev_chain(a, b);
    assert(edit_chain(path));
}

/// EchoEcho similarity lies between 0 and 1 (as a proper fraction), is 1
/// exactly for equal texts, does not depend on the order of the texts, and
/// is `1 - distance / longer length` when either text is non-empty.
pub proof fn lemma_similarity_laws(a: Seq<char>, b: Seq<char>)
    requires
        a.len() <= RATIO_LIMIT,
        b.len() <= RATIO_LIMIT,
    ensures
        spec_similarity(a, b).wf(),
        0 <= spec_similarity(a, b).num <= spec_similarity(a, b).den,
        spec_similarity(a, b).num == spec_similarity(a, b).den <==> a == b,
        spec_similarity(a, b) == spec_similarity(b, a),
        max_len(a, b) > 0 ==> spec_similarity(a, b).den == max_len(a, b) && spec_similarity(a, b).num
            == max_len(a, b) - lev(a, b),
{
    lemma_lev_upper(a, b);
    lemma_lev_zero(a, b);
    lemma_lev_symmetric(a, b);
    if max_len(a, b) == 0 {
        assert(a =~= b);
    }
}

fn min3_exec(x: usize, y: usize, z: usize) -> (r: usize)
    ensures
        r == min3(x as nat, y as nat, z as nat),
{
    if x <= y && x <= z {
        x
    } else if y <= z {
        y
    } else {
        z
    }
}

pub fn levenshtein_vec(v1: &Vec<char>, v2: &Vec<char>) -> (r: usize)
    ensures
        r == lev(v1@, v2@),
{
    let len1 = v1.len();
    let len2 = v2.len();
    let ghost a = v1@;
    let ghost b = v2@;
    let mut prev: Vec<usize> = Vec::new();
    assert(a.take(0).len() == 0);
    assert(b.take(0).len() == 0);
    prev.push(0);
    let mut j: usize = 0;
    while j < len2
        invariant
            j <= len2,
            len2 == b.len(),
            b == v2@,
            a == v1@,
            prev@.len() == j + 1,
            forall|q: int| 0 <= q <= j ==> #[trigger] prev@[q] == lev(a.take(0), b.take(q)),
        decreases len2 - j,
    {
        prev.push(j + 1);
        j = j + 1;
    }
    let mut i: usize = 0;
    while i < len1
        invariant
            i <= len1,
            len1 == a.len(),
            len2 == b.len(),
            a == v1@,
            b == v2@,
            prev@.len() == len2 + 1,
            forall|q: int| 0 <= q <= len2 ==> #[trigger] prev@[q] == lev(a.take(i as int), b.take(q)),
        decreases len1 - i,
    {
        let mut cur: Vec<usize> = Vec::new();
        cur.push(i + 1);
        let mut j: usize = 0;
        while j < len2
            invariant
                i < len1,
                j <= len2,
                len1 == a.len(),
                len2 == b.len(),
                a == v1@,
                b == v2@,
                prev@.len() == len2 + 1,
                forall|q: int| 0 <= q <= len2 ==> #[trigger] prev@[q] == lev(a.take(i as int), b.take(q)),
                cur@.len() == j + 1,
                forall|q: int| 0 <= q <= j ==> #[trigger] cur@[q] == lev(a.take(i + 1), b.take(q)),
            decreases len2 - j,
        {
            let ghost ai = a.take(i + 1);
            let ghost bj = b.take(j + 1);
            assert(ai.drop_last() =~= a.take(i as int));
            assert(bj.drop_last() =~= b.take(j as int));
            assert(ai.last() == v1@[i as int]);
            assert(bj.last() == v2@[j as int]);
            proof {
                lemma_lev_upper(ai, bj);
            }
            let val = if v1[i] == v2[j] {
                prev[j]
            } else {
                let m = min3_exec(prev[j], prev[j + 1], cur[j]);
                assert(m + 1 == lev(ai, bj));
                1 + m
            };
            cur.push(val);
            j = j + 1;
        }
        prev = cur;
        i = i + 1;
    }
    assert(a.take(len1 as int) =~= a);
    assert(b.take(len2 as int) =~= b);
    prev[len2]
}

/// EchoEcho: the Levenshtein distance between two strings, in characters.
pub fn levenshtein_distance(s1: &str, s2: &str) -> (r: usize)
    ensures
        r == lev(s1@, s2@),
{
    let a = chars_of(s1);
    let b = chars_of(s2);
    levenshtein_vec(&a, &b)
}

/// EchoEcho similarity: `1 - distance / longer length`, as the fraction
/// `(longer - distance) / longer`; two empty strings are fully similar.
pub open spec fn spec_similarity(a: Seq<char>, b: Seq<char>) -> Ratio {
    if max_len(a, b) == 0 {
        Ratio { num: 1, den: 1 }
    } else {
        Ratio { num: (max_len(a, b) - lev(a, b)) as i64, den: max_len(a, b) as i64 }
    }
}

pub fn similarity_vec(a: &Vec<char>, b: &Vec<char>) -> (r: Ratio)
    requires
        a@.len() <= RATIO_LIMIT,
        b@.len() <= RATIO_LIMIT,
    ensures
        r == spec_similarity(a@, b@),
        r.wf(),
{
    let dist = levenshtein_vec(a, b);
    proof {
        lemma_lev_upper(a@, b@);
    }
    let m = if a.len() >= b.len() {
        a.len()
    } else {
        b.len()
    };
    if m == 0 {
        return Ratio { num: 1, den: 1 };
    }
    Ratio { num: (m - dist) as i64, den: m as i64 }
}

/// EchoEcho: how similar two texts are, from 0 to 1.
pub fn calculate_echo_echo_similarity(s1: &str, s2: &str) -> (r: Ratio)
    requires
        s1@.len() <= RATIO_LIMIT,
        s2@.len() <= RATIO_LIMIT,
    ensures
        r == spec_similarity(s1@, s2@),
        r.wf(),
{
    let a = chars_of(s1);
    let b = chars_of(s2);
    similarity_vec(&a, &b)
}

} // verus!
