//! Timestamps, word tags, white space and syllables.
use vstd::prelude::*;
use crate::text::{
    alphanumeric, append_chars, ascii_digit, chars_of, concat_all, contains_char, copy_range,
    is_alphanumeric, is_ascii_digit, is_whitespace, is_ws, lemma_split_on_nonempty, seq_eq, split_on,
    split_vec, string_of, string_vec_of, sviews, trim, trim_end, trim_start, trim_vec, vviews,
};

verus! {

/// A word-level tag `<mm:ss.xx>` found in a line: the byte range it covers
/// (`start_idx` at `'<'`, `end_idx` just past `'>'`) and its time.
#[derive(Debug, PartialEq, Eq, Structural)]
pub struct TagMatch {
    pub start_idx: usize,
    pub end_idx: usize,
    pub timestamp_ms: i32,
}

// ---------------------------------------------------------------------------
// Integers and timestamps
// ---------------------------------------------------------------------------

pub open spec fn all_digits(s: Seq<char>) -> bool {
    forall|k: int| 0 <= k < s.len() ==> is_ascii_digit(#[trigger] s[k])
}

pub open spec fn digit_value(c: char) -> int {
    c as int - '0' as int
}

/// The value of a run of decimal digits.
pub open spec fn digits_value(s: Seq<char>) -> int
    decreases s.len(),
{
    if s.len() == 0 {
        0
    } else {
        digits_value(s.drop_last()) * 10 + digit_value(s.last())
    }
}

/// The integer that `i64::from_str` reads, before its range check: an optional
/// `'+'` or `'-'` and at least one ASCII digit.
pub open spec fn int_literal(s: Seq<char>) -> Option<int> {
    if s.len() > 0 && (s[0] == '+' || s[0] == '-') {
        let d = s.drop_first();
        if d.len() > 0 && all_digits(d) {
            Some(
                if s[0] == '-' {
                    -digits_value(d)
                } else {
                    digits_value(d)
                },
            )
        } else {
            None
        }
    } else if s.len() > 0 && all_digits(s) {
        Some(digits_value(s))
    } else {
        None
    }
}

/// `str::parse::<i64>`.
pub open spec fn parse_i64_spec(s: Seq<char>) -> Option<i64> {
    match int_literal(s) {
        Some(v) => if i64::MIN <= v <= i64::MAX {
            Some(v as i64)
        } else {
            None
        },
        None => None,
    }
}

proof fn lemma_digits_value_nonneg(s: Seq<char>)
    requires
        all_digits(s),
    ensures
        digits_value(s) >= 0,
    decreases s.len(),
{
    if s.len() > 0 {
        assert(all_digits(s.drop_last())) by {
            assert forall|k: int| 0 <= k < s.drop_last().len() implies is_ascii_digit(
                #[trigger] s.drop_last()[k],
            ) by {
                assert(s.drop_last()[k] == s[k]);
            }
        }
        lemma_digits_value_nonneg(s.drop_last());
        assert(is_ascii_digit(s[s.len() - 1]));
    }
}

proof fn lemma_digits_value_grows(s: Seq<char>, i: int)
    requires
        all_digits(s),
        0 <= i <= s.len(),
    ensures
        digits_value(s) >= digits_value(s.take(i)),
    decreases s.len() - i,
{
    if i < s.len() {
        lemma_digits_value_grows(s, i + 1);
        assert(s.take(i + 1).drop_last() =~= s.take(i));
        assert(is_ascii_digit(s[i]));
        assert(all_digits(s.take(i))) by {
            assert forall|k: int| 0 <= k < s.take(i).len() implies is_ascii_digit(
                #[trigger] s.take(i)[k],
            ) by {
                assert(s.take(i)[k] == s[k]);
            }
        }
        lemma_digits_value_nonneg(s.take(i));
    } else {
        assert(s.take(i) =~= s);
    }
}

/// `str::parse::<i64>`: an optional sign and at least one ASCII digit, within
/// the range of `i64`.
pub fn parse_i64(s: &Vec<char>) -> (r: Option<i64>)
    ensures
        r == parse_i64_spec(s@),
{
    if s.len() == 0 {
        return None;
    }
    let neg = s[0] == '-';
    let start: usize = if s[0] == '+' || s[0] == '-' {
        1
    } else {
        0
    };
    if start == s.len() {
        return None;
    }
    let ghost d = s@.skip(start as int);
    assert(start == 1 ==> d =~= s@.drop_first());
    assert(start == 0 ==> d =~= s@);
    let limit: i128 = 0x8000_0000_0000_0000;
    let mut acc: i128 = 0;
    let mut i: usize = start;
    while i < s.len()
        invariant
            start <= i <= s.len(),
            limit == 0x8000_0000_0000_0000,
            start == 0 || start == 1,
            start == 1 <==> (s@[0] == '+' || s@[0] == '-'),
            d == s@.skip(start as int),
            d.len() > 0,
            all_digits(d.take(i - start)),
            acc == digits_value(d.take(i - start)),
            0 <= acc <= limit,
        decreases s.len() - i,
    {
        let c = s[i];
        if !ascii_digit(c) {
            assert(d[i - start] == c);
            assert(!all_digits(d));
            assert(start == 0 ==> d =~= s@);
            assert(start == 1 ==> d =~= s@.drop_first());
            return None;
        }
        let dv: i128 = (c as u32 - '0' as u32) as i128;
        acc = acc * 10 + dv;
        proof {
            assert(d.take(i - start + 1).drop_last() =~= d.take(i - start));
            assert(all_digits(d.take(i - start + 1))) by {
                assert forall|k: int| 0 <= k < d.take(i - start + 1).len() implies is_ascii_digit(
                    #[trigger] d.take(i - start + 1)[k],
                ) by {
                    if k < i - start {
                        assert(d.take(i - start + 1)[k] == d.take(i - start)[k]);
                    }
                }
            }
        }
        i = i + 1;
        if acc > limit {
            proof {
                assert(start == 0 ==> d =~= s@);
                assert(start == 1 ==> d =~= s@.drop_first());
                if all_digits(d) {
                    lemma_digits_value_grows(d, i - start);
                }
            }
            return None;
        }
    }
    assert(d.take(i - start) =~= d);
    if neg {
        assert(-limit <= -acc);
        Some((-acc) as i64)
    } else {
        if acc > 0x7FFF_FFFF_FFFF_FFFF {
            return None;
        }
        Some(acc as i64)
    }
}

/// The first three characters of `f` (all of it when it is shorter).
pub open spec fn frac_head(f: Seq<char>) -> Seq<char> {
    if f.len() < 3 {
        f
    } else {
        f.take(3)
    }
}

/// The milliseconds that the fraction after `'.'` stands for: its first three
/// digits, scaled by how many digits it has.
pub open spec fn frac_ms(f: Seq<char>) -> int {
    let v = digits_value(frac_head(f));
    if f.len() == 1 {
        v * 100
    } else if f.len() == 2 {
        v * 10
    } else {
        v
    }
}

/// A timestamp `mm:ss[.fff]` in milliseconds: minutes at least 0, seconds in
/// `0..60`, a fraction of ASCII digits, and a total that fits in `i32`.
pub open spec fn spec_parse_timestamp_ms(s: Seq<char>) -> Option<i32> {
    let parts = split_on(trim(s), ':');
    if parts.len() != 2 {
        None
    } else if !(int_literal(parts[0]) is Some) {
        None
    } else {
        let m = int_literal(parts[0]).unwrap();
        let sp = split_on(parts[1], '.');
        if m < 0 || sp.len() > 2 || !(int_literal(sp[0]) is Some) {
            None
        } else {
            let sec = int_literal(sp[0]).unwrap();
            if !(0 <= sec < 60) {
                None
            } else if sp.len() > 1 && sp[1].len() > 0 && !all_digits(sp[1]) {
                None
            } else {
                let frac = if sp.len() > 1 && sp[1].len() > 0 {
                    frac_ms(sp[1])
                } else {
                    0
                };
                let total = m * 60000 + sec * 1000 + frac;
                if total <= i32::MAX {
                    Some(total as i32)
                } else {
                    None
                }
            }
        }
    }
}

proof fn lemma_frac_ms_bounds(f: Seq<char>)
    requires
        f.len() > 0,
        all_digits(f),
    ensures
        0 <= frac_ms(f) <= 999,
{
    let t = frac_head(f);
    assert(all_digits(t)) by {
        assert forall|k: int| 0 <= k < t.len() implies is_ascii_digit(#[trigger] t[k]) by {
            assert(t[k] == f[k]);
        }
    }
    lemma_digits_value_nonneg(t);
    let t1 = t.drop_last();
    if f.len() == 1 {
        assert(t1.len() == 0);
        assert(digits_value(t1) == 0);
        assert(is_ascii_digit(t[0]));
        assert(digits_value(t) == digit_value(t[0]));
    } else if f.len() == 2 {
        assert(t1.drop_last().len() == 0);
        assert(digits_value(t1.drop_last()) == 0);
        assert(is_ascii_digit(t[0]) && is_ascii_digit(t[1]));
        assert(t1.last() == t[0]);
        assert(digits_value(t1) == digit_value(t[0]));
        assert(digits_value(t) == digit_value(t[0]) * 10 + digit_value(t[1]));
    } else {
        let t2 = t1.drop_last();
        assert(t.len() == 3);
        assert(t2.drop_last().len() == 0);
        assert(digits_value(t2.drop_last()) == 0);
        assert(is_ascii_digit(t[0]) && is_ascii_digit(t[1]) && is_ascii_digit(t[2]));
        assert(t1.last() == t[1]);
        assert(t2.last() == t[0]);
        assert(digits_value(t2) == digit_value(t[0]));
        assert(digits_value(t1) == digit_value(t[0]) * 10 + digit_value(t[1]));
        assert(digits_value(t) == (digit_value(t[0]) * 10 + digit_value(t[1])) * 10 + digit_value(
            t[2],
        ));
    }
}

/// A timestamp is never negative.
pub proof fn lemma_parse_timestamp_nonneg(s: Seq<char>)
    ensures
        spec_parse_timestamp_ms(s) matches Some(t) ==> t >= 0,
{
    let parts = split_on(trim(s), ':');
    if parts.len() == 2 && int_literal(parts[0]) is Some {
        let sp = split_on(parts[1], '.');
        lemma_split_on_nonempty(parts[1], '.');
        if sp.len() <= 2 && int_literal(sp[0]) is Some {
            let sec = int_literal(sp[0]).unwrap();
            if 0 <= sec < 60 && sp.len() > 1 && sp[1].len() > 0 && all_digits(sp[1]) {
                lemma_frac_ms_bounds(sp[1]);
            }
        }
    }
}

/// The tags that a scan finds lie in order inside the text, none
/// overlapping the next.
pub proof fn lemma_scan_tags_ordered(s: Seq<char>, i: int)
    requires
        0 <= i,
    ensures
        forall|k: int|
            0 <= k < scan_tags_from(s, i).len() - 1 ==> (#[trigger] scan_tags_from(s, i)[k]).1
                <= scan_tags_from(s, i)[k + 1].0,
        forall|k: int|
            0 <= k < scan_tags_from(s, i).len() ==> (#[trigger] scan_tags_from(s, i)[k]).2 >= 0,
    decreases s.len() - i,
{
    let all = scan_tags_from(s, i);
    if i < s.len() {
        if s[i] == '<' && find_from(s, '>', i + 1) < s.len() {
            let j = find_from(s, '>', i + 1);
            lemma_find_from(s, '>', i + 1);
            lemma_scan_tags_ordered(s, j + 1);
            lemma_scan_tags_from_bounds(s, j + 1);
            let rest = scan_tags_from(s, j + 1);
            match spec_parse_timestamp_ms(s.subrange(i + 1, j)) {
                Some(ms) => {
                    lemma_parse_timestamp_nonneg(s.subrange(i + 1, j));
                    assert(all == seq![(i, j + 1, ms)] + rest);
                    assert forall|k: int| 0 <= k < all.len() - 1 implies (#[trigger] all[k]).1
                        <= all[k + 1].0 by {
                        assert(all[k + 1] == rest[k]);
                        if k > 0 {
                            assert(all[k] == rest[k - 1]);
                        }
                    }
                    assert forall|k: int| 0 <= k < all.len() implies (#[trigger] all[k]).2 >= 0 by {
                        if k > 0 {
                            assert(all[k] == rest[k - 1]);
                        }
                    }
                },
                None => {
                    assert(all == rest);
                },
            }
        } else {
            lemma_scan_tags_ordered(s, i + 1);
            assert(all == scan_tags_from(s, i + 1));
        }
    }
}

pub proof fn lemma_scan_tags_bounds_pub(s: Seq<char>)
    ensures
        forall|k: int|
            0 <= k < scan_tags(s).len() ==> 0 <= (#[trigger] scan_tags(s)[k]).0 && scan_tags(s)[k].0
                < scan_tags(s)[k].1 <= s.len(),
{
    lemma_scan_tags_from_bounds(s, 0);
}

proof fn lemma_timestamp_huge_minutes(s: Seq<char>)
    requires
        split_on(trim(s), ':').len() == 2,
        int_literal(split_on(trim(s), ':')[0]) is Some,
        int_literal(split_on(trim(s), ':')[0]).unwrap() > i32::MAX,
    ensures
        spec_parse_timestamp_ms(s) is None,
{
    let parts = split_on(trim(s), ':');
    let sp = split_on(parts[1], '.');
    lemma_split_on_nonempty(parts[1], '.');
    if sp.len() <= 2 && int_literal(sp[0]) is Some {
        let sec = int_literal(sp[0]).unwrap();
        if 0 <= sec < 60 && sp.len() > 1 && sp[1].len() > 0 && all_digits(sp[1]) {
            lemma_frac_ms_bounds(sp[1]);
        }
    }
}

#[verifier::loop_isolation(false)]
pub fn parse_timestamp_vec(s: &Vec<char>) -> (r: Option<i32>)
    ensures
        r == spec_parse_timestamp_ms(s@),
{
    let ghost sparts = split_on(trim(s@), ':');
    let t = trim_vec(s);
    let parts = split_vec(&t, ':');
    if parts.len() != 2 {
        return None;
    }
    assert(parts@[0]@ == sparts[0]);
    assert(parts@[1]@ == sparts[1]);
    let minutes = match parse_i64(&parts[0]) {
        Some(m) => m,
        None => {
            proof {
                if int_literal(sparts[0]) is Some && int_literal(sparts[0]).unwrap() > i64::MAX {
                    lemma_timestamp_huge_minutes(s@);
                }
            }
            return None;
        },
    };
    if minutes < 0 {
        return None;
    }
    let ghost ssp = split_on(sparts[1], '.');
    let sec_parts = split_vec(&parts[1], '.');
    proof {
        lemma_split_on_nonempty(sparts[1], '.');
    }
    if sec_parts.len() > 2 {
        return None;
    }
    assert(sec_parts@[0]@ == ssp[0]);
    let seconds = match parse_i64(&sec_parts[0]) {
        Some(v) => v,
        None => {
            return None;
        },
    };
    if !(0 <= seconds && seconds < 60) {
        return None;
    }
    let mut fraction_ms: i64 = 0;
    if sec_parts.len() > 1 {
        assert(sec_parts@[1]@ == ssp[1]);
        let frac_str = &sec_parts[1];
        if frac_str.len() > 0 {
            let mut k: usize = 0;
            while k < frac_str.len()
                invariant
                    k <= frac_str.len(),
                    ssp.len() > 1,
                    frac_str@ == ssp[1],
                    forall|q: int| 0 <= q < k ==> is_ascii_digit(#[trigger] frac_str@[q]),
                decreases frac_str.len() - k,
            {
                if !ascii_digit(frac_str[k]) {
                    assert(!all_digits(ssp[1]));
                    return None;
                }
                k = k + 1;
            }
            assert(all_digits(ssp[1]));
            let n = if frac_str.len() < 3 {
                frac_str.len()
            } else {
                3
            };
            let truncated = copy_range(frac_str, 0, n);
            assert(truncated@ =~= frac_head(frac_str@));
            proof {
                lemma_frac_ms_bounds(frac_str@);
                let tt = frac_head(frac_str@);
                assert(all_digits(tt)) by {
                    assert forall|q: int| 0 <= q < tt.len() implies is_ascii_digit(#[trigger] tt[q]) by {
                        assert(tt[q] == frac_str@[q]);
                    }
                }
                lemma_digits_value_nonneg(tt);
                assert(int_literal(tt) == Some(digits_value(tt)));
            }
            let parsed_val = match parse_i64(&truncated) {
                Some(v) => v,
                None => {
                    return None;
                },
            };
            fraction_ms = if frac_str.len() == 1 {
                parsed_val * 100
            } else if frac_str.len() == 2 {
                parsed_val * 10
            } else {
                parsed_val
            };
        }
    }
    let total: i128 = (minutes as i128) * 60000 + (seconds as i128) * 1000 + (fraction_ms as i128);
    if total > 0x7FFF_FFFF {
        return None;
    }
    Some(total as i32)
}

/// Reads a timestamp `mm:ss[.fff]`; `None` for anything else.
pub fn parse_timestamp_ms(s: &str) -> (r: Option<i32>)
    ensures
        r == spec_parse_timestamp_ms(s@),
{
    let v = chars_of(s);
    parse_timestamp_vec(&v)
}


// ---------------------------------------------------------------------------
// Word tags
// ---------------------------------------------------------------------------

/// The first position at or after `j` that holds `c`, or `s.len()`.
pub open spec fn find_from(s: Seq<char>, c: char, j: int) -> int
    decreases s.len() - j,
{
    if j < 0 || j >= s.len() {
        s.len() as int
    } else if s[j] == c {
        j
    } else {
        find_from(s, c, j + 1)
    }
}

pub proof fn lemma_find_from(s: Seq<char>, c: char, j: int)
    requires
        0 <= j,
    ensures
        j <= find_from(s, c, j) <= s.len() || (j > s.len() && find_from(s, c, j) == s.len()),
        find_from(s, c, j) < s.len() ==> s[find_from(s, c, j)] == c,
        forall|k: int| j <= k < find_from(s, c, j) ==> s[k] != c,
    decreases s.len() - j,
{
    if j < s.len() && s[j] != c {
        lemma_find_from(s, c, j + 1);
    }
}

/// A tag found by scanning characters: `start` is the position of `'<'`,
/// `end` the position just past `'>'`.
#[derive(Clone, Copy, Debug, PartialEq, Eq, Structural)]
pub struct TagSpan {
    pub start: usize,
    pub end: usize,
    pub timestamp_ms: i32,
}

/// The tags of `s` from position `i` on: a `'<'` that has a `'>'` after it
/// opens a candidate; the candidate is kept when its inside is a timestamp,
/// and the scan goes on after the `'>'` either way.
pub open spec fn scan_tags_from(s: Seq<char>, i: int) -> Seq<(int, int, i32)>
    decreases s.len() - i,
{
    if i < 0 || i >= s.len() {
        Seq::empty()
    } else if s[i] == '<' {
        let j = find_from(s, '>', i + 1);
        if j < s.len() {
            proof {
                lemma_find_from(s, '>', i + 1);
            }
            let rest = scan_tags_from(s, j + 1);
            match spec_parse_timestamp_ms(s.subrange(i + 1, j)) {
                Some(ms) => seq![(i, j + 1, ms)] + rest,
                None => rest,
            }
        } else {
            scan_tags_from(s, i + 1)
        }
    } else {
        scan_tags_from(s, i + 1)
    }
}

pub open spec fn scan_tags(s: Seq<char>) -> Seq<(int, int, i32)> {
    scan_tags_from(s, 0)
}

pub open spec fn span_view(t: TagSpan) -> (int, int, i32) {
    (t.start as int, t.end as int, t.timestamp_ms)
}

pub fn scan_tags_vec(s: &Vec<char>) -> (r: Vec<TagSpan>)
    ensures
        r@.len() == scan_tags(s@).len(),
        forall|k: int| 0 <= k < r@.len() ==> span_view(#[trigger] r@[k]) == scan_tags(s@)[k],
{
    let mut r: Vec<TagSpan> = Vec::new();
    let mut i: usize = 0;
    while i < s.len()
        invariant
            i <= s.len(),
            r@.map_values(|t: TagSpan| span_view(t)) + scan_tags_from(s@, i as int) == scan_tags(
                s@,
            ),
        decreases s.len() - i,
    {
        if s[i] == '<' {
            let mut j: usize = i + 1;
            while j < s.len() && s[j] != '>'
                invariant
                    i < j <= s.len(),
                    find_from(s@, '>', i + 1) == find_from(s@, '>', j as int),
                decreases s.len() - j,
            {
                j = j + 1;
            }
            if j < s.len() {
                proof {
                    lemma_find_from(s@, '>', i + 1);
                }
                let inner = copy_range(s, i + 1, j);
                let parsed = parse_timestamp_vec(&inner);
                let ghost before = r@;
                match parsed {
                    Some(ms) => {
                        r.push(TagSpan { start: i, end: j + 1, timestamp_ms: ms });
                        assert(r@.map_values(|t: TagSpan| span_view(t)) =~= before.map_values(
                            |t: TagSpan| span_view(t),
                        ) + seq![(i as int, j + 1, ms)]);
                    },
                    None => {},
                }
                i = j + 1;
                continue;
            }
        }
        i = i + 1;
    }
    assert(r@.map_values(|t: TagSpan| span_view(t)) =~= scan_tags(s@));
    proof {
        assert forall|k: int| 0 <= k < r@.len() implies span_view(#[trigger] r@[k]) == scan_tags(
            s@,
        )[k] by {
            assert(r@.map_values(|t: TagSpan| span_view(t))[k] == span_view(r@[k]));
        }
    }
    r
}

/// The number of bytes that UTF-8 takes for `c`.
pub open spec fn utf8_width(c: char) -> int {
    if (c as u32) < 0x80 {
        1
    } else if (c as u32) < 0x800 {
        2
    } else if (c as u32) < 0x10000 {
        3
    } else {
        4
    }
}

/// The number of bytes that UTF-8 takes for `s`.
pub open spec fn utf8_len(s: Seq<char>) -> int
    decreases s.len(),
{
    if s.len() == 0 {
        0
    } else {
        utf8_len(s.drop_last()) + utf8_width(s.last())
    }
}

proof fn lemma_utf8_len_bound(s: Seq<char>)
    ensures
        0 <= utf8_len(s) <= 4 * s.len(),
    decreases s.len(),
{
    if s.len() > 0 {
        lemma_utf8_len_bound(s.drop_last());
    }
}

fn utf8_width_exec(c: char) -> (r: usize)
    ensures
        r == utf8_width(c),
{
    let v = c as u32;
    if v < 0x80 {
        1
    } else if v < 0x800 {
        2
    } else if v < 0x10000 {
        3
    } else {
        4
    }
}

/// The tag matches of a line in byte positions, as `find_word_tags` reports them.
pub open spec fn spec_find_word_tags(s: Seq<char>) -> Seq<(int, int, i32)> {
    scan_tags(s).map_values(
        |t: (int, int, i32)| (utf8_len(s.take(t.0)), utf8_len(s.take(t.1 - 1)) + 1, t.2),
    )
}

pub open spec fn tag_match_view(t: TagMatch) -> (int, int, i32) {
    (t.start_idx as int, t.end_idx as int, t.timestamp_ms)
}

proof fn lemma_scan_tags_from_bounds(s: Seq<char>, i: int)
    requires
        0 <= i,
    ensures
        forall|k: int|
            0 <= k < scan_tags_from(s, i).len() ==> i <= (#[trigger] scan_tags_from(s, i)[k]).0
                && scan_tags_from(s, i)[k].0 < scan_tags_from(s, i)[k].1 <= s.len(),
    decreases s.len() - i,
{
    let all = scan_tags_from(s, i);
    if i < s.len() {
        if s[i] == '<' && find_from(s, '>', i + 1) < s.len() {
            let j = find_from(s, '>', i + 1);
            lemma_find_from(s, '>', i + 1);
            lemma_scan_tags_from_bounds(s, j + 1);
            let rest = scan_tags_from(s, j + 1);
            match spec_parse_timestamp_ms(s.subrange(i + 1, j)) {
                Some(ms) => {
                    assert(all == seq![(i, j + 1, ms)] + rest);
                    assert forall|k: int| 0 <= k < all.len() implies i <= (#[trigger] all[k]).0
                        && all[k].0 < all[k].1 <= s.len() by {
                        if k > 0 {
                            assert(all[k] == rest[k - 1]);
                        }
                    }
                },
                None => {
                    assert(all == rest);
                },
            }
        } else {
            lemma_scan_tags_from_bounds(s, i + 1);
            assert(all == scan_tags_from(s, i + 1));
        }
    }
}

/// Finds the word-level tags `<mm:ss.xx>` of a line, in order, with the byte
/// positions that they cover.
pub fn find_word_tags(line_content: &str) -> (r: Vec<TagMatch>)
    requires
        line_content@.len() <= usize::MAX / 4,
    ensures
        r@.len() == spec_find_word_tags(line_content@).len(),
        forall|k: int|
            0 <= k < r@.len() ==> tag_match_view(#[trigger] r@[k]) == spec_find_word_tags(
                line_content@,
            )[k],
{
    let s = chars_of(line_content);
    let spans = scan_tags_vec(&s);
    // byte offset of every character position
    let mut offsets: Vec<usize> = Vec::new();
    let mut acc: usize = 0;
    let mut i: usize = 0;
    proof {
        lemma_utf8_len_bound(s@);
    }
    while i <= s.len()
        invariant
            i <= s.len() + 1,
            s@.len() <= usize::MAX / 4,
            offsets@.len() == i,
            i <= s.len() ==> acc == utf8_len(s@.take(i as int)),
            forall|k: int| 0 <= k < i ==> #[trigger] offsets@[k] == utf8_len(s@.take(k)),
        decreases s.len() + 1 - i,
    {
        offsets.push(acc);
        if i < s.len() {
            proof {
                assert(s@.take(i + 1).drop_last() =~= s@.take(i as int));
                lemma_utf8_len_bound(s@.take(i + 1));
            }
            acc = acc + utf8_width_exec(s[i]);
        }
        i = i + 1;
    }
    let mut r: Vec<TagMatch> = Vec::new();
    let mut k: usize = 0;
    proof {
        lemma_scan_tags_from_bounds(s@, 0);
    }
    while k < spans.len()
        invariant
            k <= spans.len(),
            spans@.len() == scan_tags(s@).len(),
            forall|q: int| 0 <= q < spans@.len() ==> span_view(#[trigger] spans@[q]) == scan_tags(s@)[q],
            forall|q: int|
                0 <= q < scan_tags(s@).len() ==> 0 <= (#[trigger] scan_tags(s@)[q]).0 && scan_tags(
                    s@,
                )[q].0 < scan_tags(s@)[q].1 <= s@.len(),
            offsets@.len() == s@.len() + 1,
            s@.len() <= usize::MAX / 4,
            forall|q: int| 0 <= q <= s@.len() ==> #[trigger] offsets@[q] == utf8_len(s@.take(q)),
            r@.len() == k,
            forall|q: int|
                0 <= q < k ==> tag_match_view(#[trigger] r@[q]) == spec_find_word_tags(s@)[q],
        decreases spans.len() - k,
    {
        let sp = spans[k];
        assert(span_view(spans@[k as int]) == scan_tags(s@)[k as int]);
        proof {
            lemma_utf8_len_bound(s@.take(sp.end - 1));
        }
        let start_idx = offsets[sp.start];
        let end_idx = offsets[sp.end - 1] + 1;
        r.push(TagMatch { start_idx, end_idx, timestamp_ms: sp.timestamp_ms });
        k = k + 1;
    }
    r
}

// ---------------------------------------------------------------------------
// White space
// ---------------------------------------------------------------------------

pub open spec fn collapse_ws_fold(s: Seq<char>) -> (Seq<char>, bool)
    decreases s.len(),
{
    if s.len() == 0 {
        (Seq::empty(), false)
    } else {
        let (out, last_was_space) = collapse_ws_fold(s.drop_last());
        let c = s.last();
        if is_ws(c) {
            if !last_was_space {
                (out.push(' '), true)
            } else {
                (out, true)
            }
        } else {
            (out.push(c), false)
        }
    }
}

/// Trims `s` and turns each run of white space inside it into one `' '`.
pub open spec fn spec_clean_whitespace(s: Seq<char>) -> Seq<char> {
    collapse_ws_fold(trim(s)).0
}

pub fn clean_whitespace_vec(s: &Vec<char>) -> (r: Vec<char>)
    ensures
        r@ == spec_clean_whitespace(s@),
{
    let t = trim_vec(s);
    let mut result: Vec<char> = Vec::new();
    let mut last_was_space = false;
    let mut i: usize = 0;
    while i < t.len()
        invariant
            i <= t.len(),
            (result@, last_was_space) == collapse_ws_fold(t@.take(i as int)),
        decreases t.len() - i,
    {
        proof {
            assert(t@.take(i + 1).drop_last() =~= t@.take(i as int));
        }
        let c = t[i];
        if is_whitespace(c) {
            if !last_was_space {
                result.push(' ');
                last_was_space = true;
            }
        } else {
            result.push(c);
            last_was_space = false;
        }
        i = i + 1;
    }
    assert(t@.take(i as int) =~= t@);
    result
}

/// Trims the text and collapses each run of white space inside it to one space.
pub fn clean_whitespace(s: &str) -> (r: String)
    ensures
        r@ == spec_clean_whitespace(s@),
{
    let v = chars_of(s);
    let c = clean_whitespace_vec(&v);
    string_of(&c)
}

// ---------------------------------------------------------------------------
// Scripts
// ---------------------------------------------------------------------------

/// Hiragana, Katakana, Katakana phonetic extensions and half-width Katakana.
pub open spec fn spec_is_kana(c: char) -> bool {
    ||| ('\u{3040}' <= c && c <= '\u{309F}')
    ||| ('\u{30A0}' <= c && c <= '\u{30FF}')
    ||| ('\u{31F0}' <= c && c <= '\u{31FF}')
    ||| ('\u{FF65}' <= c && c <= '\u{FF9F}')
}

/// The small kana that join the mora before them.
pub open spec fn spec_is_non_starter(c: char) -> bool {
    ||| c == 'ぁ' || c == 'ぃ' || c == 'ぅ' || c == 'ぇ' || c == 'ぉ'
    ||| c == 'ゃ' || c == 'ゅ' || c == 'ょ' || c == 'ゎ'
    ||| c == 'ァ' || c == 'ィ' || c == 'ゥ' || c == 'ェ' || c == 'ォ'
    ||| c == 'ャ' || c == 'ュ' || c == 'ョ' || c == 'ヮ'
}

/// Precomposed Hangul syllables.
pub open spec fn spec_is_hangul(c: char) -> bool {
    '\u{AC00}' <= c && c <= '\u{D7A3}'
}

/// CJK Unified Ideographs.
pub open spec fn spec_is_cjk(c: char) -> bool {
    '\u{4E00}' <= c && c <= '\u{9FFF}'
}

pub fn is_moracore_kana(c: char) -> (r: bool)
    ensures
        r == spec_is_kana(c),
{
    ('\u{3040}' <= c && c <= '\u{309F}') || ('\u{30A0}' <= c && c <= '\u{30FF}') || ('\u{31F0}' <= c
        && c <= '\u{31FF}') || ('\u{FF65}' <= c && c <= '\u{FF9F}')
}

pub fn is_moracore_non_starter(c: char) -> (r: bool)
    ensures
        r == spec_is_non_starter(c),
{
    c == 'ぁ' || c == 'ぃ' || c == 'ぅ' || c == 'ぇ' || c == 'ぉ' || c == 'ゃ' || c == 'ゅ' || c == 'ょ'
        || c == 'ゎ' || c == 'ァ' || c == 'ィ' || c == 'ゥ' || c == 'ェ' || c == 'ォ' || c == 'ャ' || c
        == 'ュ' || c == 'ョ' || c == 'ヮ'
}

pub fn is_moracore_mora_extender(c: char) -> (r: bool)
    ensures
        r == (c == 'ー'),
{
    c == 'ー'
}

pub fn is_batchimbound_syllable(c: char) -> (r: bool)
    ensures
        r == spec_is_hangul(c),
{
    '\u{AC00}' <= c && c <= '\u{D7A3}'
}

pub fn is_cjk_ideograph(c: char) -> (r: bool)
    ensures
        r == spec_is_cjk(c),
{
    '\u{4E00}' <= c && c <= '\u{9FFF}'
}

// ---------------------------------------------------------------------------
// Syllables
// ---------------------------------------------------------------------------

pub open spec fn has_hangul(s: Seq<char>) -> bool {
    exists|k: int| 0 <= k < s.len() && spec_is_hangul(#[trigger] s[k])
}

pub open spec fn has_kana(s: Seq<char>) -> bool {
    exists|k: int| 0 <= k < s.len() && spec_is_kana(#[trigger] s[k])
}

/// Korean words: each Hangul syllable or other alphanumeric character is a
/// syllable of its own; anything else is dropped.
pub open spec fn hangul_syllables(s: Seq<char>) -> Seq<Seq<char>>
    decreases s.len(),
{
    if s.len() == 0 {
        Seq::empty()
    } else {
        let p = hangul_syllables(s.drop_last());
        let c = s.last();
        if spec_is_hangul(c) || alphanumeric(c) {
            p.push(seq![c])
        } else {
            p
        }
    }
}

/// Japanese words: each kana, `'ー'`, ideograph or other alphanumeric
/// character starts a mora; a small kana joins the mora before it.
pub open spec fn kana_syllables(s: Seq<char>) -> Seq<Seq<char>>
    decreases s.len(),
{
    if s.len() == 0 {
        Seq::empty()
    } else {
        let p = kana_syllables(s.drop_last());
        let c = s.last();
        if spec_is_non_starter(c) {
            if p.len() > 0 {
                p.update(p.len() - 1, p.last().push(c))
            } else {
                p.push(seq![c])
            }
        } else if spec_is_kana(c) || c == 'ー' || spec_is_cjk(c) || alphanumeric(c) {
            p.push(seq![c])
        } else {
            p
        }
    }
}

/// One step of the vowel-based splitter at position `i`, with the syllables
/// closed so far and the one being built: after a vowel followed by a
/// consonant, the syllable closes before a consonant-vowel pair (V-CV) or
/// after the first of two consonants before a vowel (VC-CV).
pub open spec fn latin_step(
    s: Seq<char>,
    vowels: Seq<char>,
    i: int,
    syls: Seq<Seq<char>>,
    cur: Seq<char>,
) -> Seq<Seq<char>>
    decreases s.len() - i,
{
    if i < 0 || i >= s.len() {
        if cur.len() > 0 {
            syls.push(cur)
        } else {
            syls
        }
    } else {
        let c = s[i];
        let cur1 = cur.push(c);
        if vowels.contains(c) && i + 1 < s.len() && !vowels.contains(s[i + 1]) {
            if i + 2 < s.len() && vowels.contains(s[i + 2]) {
                latin_step(s, vowels, i + 1, syls.push(cur1), Seq::empty())
            } else if i + 3 < s.len() && !vowels.contains(s[i + 2]) && vowels.contains(s[i + 3]) {
                latin_step(s, vowels, i + 2, syls.push(cur1.push(s[i + 1])), Seq::empty())
            } else {
                latin_step(s, vowels, i + 1, syls, cur1)
            }
        } else {
            latin_step(s, vowels, i + 1, syls, cur1)
        }
    }
}

/// Latin words: words of up to three characters are one syllable; longer
/// words are split by `latin_step`, and kept whole if the pieces would not
/// spell the word again.
pub open spec fn latin_syllables(s: Seq<char>, vowels: Seq<char>) -> Seq<Seq<char>> {
    if s.len() <= 3 {
        seq![s]
    } else {
        let r = latin_step(s, vowels, 0, Seq::empty(), Seq::empty());
        if concat_all(r) == s {
            r
        } else {
            seq![s]
        }
    }
}

/// The syllables (or morae) of a word.
pub open spec fn spec_split_syllables(s: Seq<char>, vowels: Seq<char>) -> Seq<Seq<char>> {
    if s.len() == 0 {
        Seq::empty()
    } else if has_hangul(s) {
        hangul_syllables(s)
    } else if has_kana(s) {
        kana_syllables(s)
    } else {
        latin_syllables(s, vowels)
    }
}

/// A word without Hangul or kana splits into syllables that, joined
/// again, give back the word.
pub proof fn lemma_latin_syllables_rejoin(s: Seq<char>, vowels: Seq<char>)
    requires
        !has_hangul(s),
        !has_kana(s),
    ensures
        concat_all(spec_split_syllables(s, vowels)) == s,
{
    if s.len() > 0 {
        let r = latin_step(s, vowels, 0, Seq::empty(), Seq::empty());
        if s.len() <= 3 || concat_all(r) != s {
            let one = seq![s];
            assert(one.drop_last() =~= Seq::<Seq<char>>::empty());
            assert(one.last() == s);
            assert(concat_all(one.drop_last()) == Seq::<char>::empty());
            assert(concat_all(one) == concat_all(one.drop_last()) + one.last());
            assert(Seq::<char>::empty() + s =~= s);
        }
    } else {
        assert(s =~= Seq::<char>::empty());
    }
}

pub open spec fn all_nonempty(ss: Seq<Seq<char>>) -> bool {
    forall|k: int| 0 <= k < ss.len() ==> (#[trigger] ss[k]).len() > 0
}

proof fn lemma_concat_all_len(ss: Seq<Seq<char>>)
    requires
        all_nonempty(ss),
    ensures
        ss.len() <= concat_all(ss).len(),
    decreases ss.len(),
{
    if ss.len() > 0 {
        assert(all_nonempty(ss.drop_last())) by {
            assert forall|k: int| 0 <= k < ss.drop_last().len() implies (
            #[trigger] ss.drop_last()[k]).len() > 0 by {
                assert(ss.drop_last()[k] == ss[k]);
            }
        }
        lemma_concat_all_len(ss.drop_last());
        assert(ss[ss.len() - 1].len() > 0);
    }
}

pub proof fn lemma_concat_all_len_pub(ss: Seq<Seq<char>>)
    requires
        all_nonempty(ss),
    ensures
        ss.len() <= concat_all(ss).len(),
{
    lemma_concat_all_len(ss);
}

proof fn lemma_concat_all_push(ss: Seq<Seq<char>>, x: Seq<char>)
    ensures
        concat_all(ss.push(x)) == concat_all(ss) + x,
{
    assert(ss.push(x).drop_last() =~= ss);
}

proof fn lemma_latin_step(
    s: Seq<char>,
    vowels: Seq<char>,
    i: int,
    syls: Seq<Seq<char>>,
    cur: Seq<char>,
)
    requires
        0 <= i <= s.len(),
        all_nonempty(syls),
        concat_all(syls) + cur == s.take(i),
    ensures
        all_nonempty(latin_step(s, vowels, i, syls, cur)),
        concat_all(latin_step(s, vowels, i, syls, cur)) == s,
    decreases s.len() - i,
{
    if i >= s.len() {
        assert(s.take(i) =~= s);
        if cur.len() > 0 {
            lemma_concat_all_push(syls, cur);
            assert(all_nonempty(syls.push(cur))) by {
                assert forall|k: int| 0 <= k < syls.push(cur).len() implies (#[trigger] syls.push(
                    cur,
                )[k]).len() > 0 by {
                    if k < syls.len() {
                        assert(syls.push(cur)[k] == syls[k]);
                    }
                }
            }
        } else {
            assert(concat_all(syls) + cur =~= concat_all(syls));
        }
    } else {
        let c = s[i];
        let cur1 = cur.push(c);
        assert(s.take(i + 1) =~= s.take(i).push(c));
        assert(concat_all(syls) + cur1 =~= (concat_all(syls) + cur).push(c));
        if vowels.contains(c) && i + 1 < s.len() && !vowels.contains(s[i + 1]) {
            if i + 2 < s.len() && vowels.contains(s[i + 2]) {
                lemma_concat_all_push(syls, cur1);
                assert(all_nonempty(syls.push(cur1))) by {
                    assert forall|k: int| 0 <= k < syls.push(cur1).len() implies (
                    #[trigger] syls.push(cur1)[k]).len() > 0 by {
                        if k < syls.len() {
                            assert(syls.push(cur1)[k] == syls[k]);
                        }
                    }
                }
                assert(concat_all(syls.push(cur1)) + Seq::<char>::empty() =~= s.take(i + 1));
                lemma_latin_step(s, vowels, i + 1, syls.push(cur1), Seq::empty());
            } else if i + 3 < s.len() && !vowels.contains(s[i + 2]) && vowels.contains(s[i + 3]) {
                let cur2 = cur1.push(s[i + 1]);
                lemma_concat_all_push(syls, cur2);
                assert(all_nonempty(syls.push(cur2))) by {
                    assert forall|k: int| 0 <= k < syls.push(cur2).len() implies (
                    #[trigger] syls.push(cur2)[k]).len() > 0 by {
                        if k < syls.len() {
                            assert(syls.push(cur2)[k] == syls[k]);
                        }
                    }
                }
                assert(concat_all(syls.push(cur2)) + Seq::<char>::empty() =~= s.take(i + 2));
                lemma_latin_step(s, vowels, i + 2, syls.push(cur2), Seq::empty());
            } else {
                lemma_latin_step(s, vowels, i + 1, syls, cur1);
            }
        } else {
            lemma_latin_step(s, vowels, i + 1, syls, cur1);
        }
    }
}

proof fn lemma_hangul_len(s: Seq<char>)
    ensures
        hangul_syllables(s).len() <= s.len(),
    decreases s.len(),
{
    if s.len() > 0 {
        lemma_hangul_len(s.drop_last());
    }
}

proof fn lemma_kana_len(s: Seq<char>)
    ensures
        kana_syllables(s).len() <= s.len(),
    decreases s.len(),
{
    if s.len() > 0 {
        lemma_kana_len(s.drop_last());
    }
}

/// A word never has more syllables than characters.
pub proof fn lemma_syllables_len(s: Seq<char>, vowels: Seq<char>)
    ensures
        spec_split_syllables(s, vowels).len() <= s.len(),
{
    if s.len() > 0 {
        if has_hangul(s) {
            lemma_hangul_len(s);
        } else if has_kana(s) {
            lemma_kana_len(s);
        } else if s.len() > 3 {
            assert(concat_all(Seq::<Seq<char>>::empty()) + Seq::<char>::empty() =~= s.take(0));
            lemma_latin_step(s, vowels, 0, Seq::empty(), Seq::empty());
            lemma_concat_all_len(latin_step(s, vowels, 0, Seq::empty(), Seq::empty()));
        }
    }
}

fn one_char(c: char) -> (r: Vec<char>)
    ensures
        r@ == seq![c],
{
    let mut r: Vec<char> = Vec::new();
    r.push(c);
    assert(r@ =~= seq![c]);
    r
}

fn concat_vec(ss: &Vec<Vec<char>>) -> (r: Vec<char>)
    ensures
        r@ == concat_all(vviews(ss@)),
{
    let mut r: Vec<char> = Vec::new();
    let mut i: usize = 0;
    while i < ss.len()
        invariant
            i <= ss.len(),
            r@ == concat_all(vviews(ss@.take(i as int))),
        decreases ss.len() - i,
    {
        assert(vviews(ss@.take(i + 1)).drop_last() =~= vviews(ss@.take(i as int)));
        append_chars(&mut r, &ss[i]);
        i = i + 1;
    }
    assert(ss@.take(i as int) =~= ss@);
    r
}

fn hangul_syllables_vec(s: &Vec<char>) -> (r: Vec<Vec<char>>)
    ensures
        vviews(r@) == hangul_syllables(s@),
{
    let mut r: Vec<Vec<char>> = Vec::new();
    let mut i: usize = 0;
    while i < s.len()
        invariant
            i <= s.len(),
            vviews(r@) == hangul_syllables(s@.take(i as int)),
        decreases s.len() - i,
    {
        assert(s@.take(i + 1).drop_last() =~= s@.take(i as int));
        let c = s[i];
        if is_batchimbound_syllable(c) || is_alphanumeric(c) {
            let one = one_char(c);
            r.push(one);
            assert(vviews(r@) =~= hangul_syllables(s@.take(i + 1)));
        }
        i = i + 1;
    }
    assert(s@.take(i as int) =~= s@);
    r
}

fn kana_syllables_vec(s: &Vec<char>) -> (r: Vec<Vec<char>>)
    ensures
        vviews(r@) == kana_syllables(s@),
{
    let mut r: Vec<Vec<char>> = Vec::new();
    let mut i: usize = 0;
    while i < s.len()
        invariant
            i <= s.len(),
            vviews(r@) == kana_syllables(s@.take(i as int)),
        decreases s.len() - i,
    {
        assert(s@.take(i + 1).drop_last() =~= s@.take(i as int));
        let c = s[i];
        let ghost before = vviews(r@);
        if is_moracore_non_starter(c) {
            if r.len() > 0 {
                let mut last = r.pop().unwrap();
                last.push(c);
                r.push(last);
                assert(vviews(r@) =~= before.update(before.len() - 1, before.last().push(c)));
            } else {
                let one = one_char(c);
                r.push(one);
                assert(vviews(r@) =~= before.push(seq![c]));
            }
        } else if is_moracore_kana(c) || is_moracore_mora_extender(c) || is_cjk_ideograph(c)
            || is_alphanumeric(c) {
            let one = one_char(c);
            r.push(one);
            assert(vviews(r@) =~= before.push(seq![c]));
        }
        i = i + 1;
    }
    assert(s@.take(i as int) =~= s@);
    r
}

fn latin_syllables_vec(s: &Vec<char>, vowels: &Vec<char>) -> (r: Vec<Vec<char>>)
    ensures
        vviews(r@) == latin_syllables(s@, vowels@),
{
    if s.len() <= 3 {
        let mut r: Vec<Vec<char>> = Vec::new();
        r.push(copy_range(s, 0, s.len()));
        assert(s@.subrange(0, s@.len() as int) =~= s@);
        assert(vviews(r@) =~= seq![s@]);
        return r;
    }
    let mut syls: Vec<Vec<char>> = Vec::new();
    let mut cur: Vec<char> = Vec::new();
    let mut i: usize = 0;
    let ghost target = latin_step(s@, vowels@, 0, Seq::empty(), Seq::empty());
    assert(vviews(syls@) =~= Seq::<Seq<char>>::empty());
    while i < s.len()
        invariant
            i <= s.len(),
            latin_step(s@, vowels@, i as int, vviews(syls@), cur@) == target,
        decreases s.len() - i,
    {
        let c = s[i];
        cur.push(c);
        let mut closed = false;
        if contains_char(vowels, c) && i + 1 < s.len() {
            let next_char = s[i + 1];
            if !contains_char(vowels, next_char) {
                if i + 2 < s.len() && contains_char(vowels, s[i + 2]) {
                    let ghost before = vviews(syls@);
                    let piece = cur;
                    syls.push(piece);
                    cur = Vec::new();
                    assert(vviews(syls@) =~= before.push(piece@));
                    closed = true;
                } else if s.len() - i > 3 && !contains_char(vowels, s[i + 2]) && contains_char(
                    vowels,
                    s[i + 3],
                ) {
                    cur.push(next_char);
                    i = i + 1;
                    let ghost before = vviews(syls@);
                    let piece = cur;
                    syls.push(piece);
                    cur = Vec::new();
                    assert(vviews(syls@) =~= before.push(piece@));
                    closed = true;
                }
            }
        }
        i = i + 1;
        assert(cur@ =~= cur@);
    }
    let ghost before = vviews(syls@);
    if cur.len() > 0 {
        syls.push(cur);
        assert(vviews(syls@) =~= before.push(cur@));
    }
    assert(vviews(syls@) == target);
    let rejoined = concat_vec(&syls);
    if !seq_eq(&rejoined, s) {
        let mut r: Vec<Vec<char>> = Vec::new();
        r.push(copy_range(s, 0, s.len()));
        assert(s@.subrange(0, s@.len() as int) =~= s@);
        assert(vviews(r@) =~= seq![s@]);
        return r;
    }
    syls
}

fn any_hangul(s: &Vec<char>) -> (r: bool)
    ensures
        r == has_hangul(s@),
{
    let mut i: usize = 0;
    while i < s.len()
        invariant
            i <= s.len(),
            forall|k: int| 0 <= k < i ==> !spec_is_hangul(#[trigger] s@[k]),
        decreases s.len() - i,
    {
        if is_batchimbound_syllable(s[i]) {
            return true;
        }
        i = i + 1;
    }
    false
}

fn any_kana(s: &Vec<char>) -> (r: bool)
    ensures
        r == has_kana(s@),
{
    let mut i: usize = 0;
    while i < s.len()
        invariant
            i <= s.len(),
            forall|k: int| 0 <= k < i ==> !spec_is_kana(#[trigger] s@[k]),
        decreases s.len() - i,
    {
        if is_moracore_kana(s[i]) {
            return true;
        }
        i = i + 1;
    }
    false
}

pub fn split_syllables_vec(word: &Vec<char>, vowels: &Vec<char>) -> (r: Vec<Vec<char>>)
    ensures
        vviews(r@) == spec_split_syllables(word@, vowels@),
{
    if word.len() == 0 {
        let r: Vec<Vec<char>> = Vec::new();
        assert(vviews(r@) =~= Seq::<Seq<char>>::empty());
        return r;
    }
    if any_hangul(word) {
        return hangul_syllables_vec(word);
    }
    if any_kana(word) {
        return kana_syllables_vec(word);
    }
    latin_syllables_vec(word, vowels)
}

/// Splits a word into syllables: Hangul syllables for Korean, morae for
/// Japanese, and vowel-based syllables otherwise.
pub fn split_into_syllables(word: &str, vowels: &str) -> (r: Vec<String>)
    ensures
        sviews(r@) == spec_split_syllables(word@, vowels@),
{
    let w = chars_of(word);
    let v = chars_of(vowels);
    let syls = split_syllables_vec(&w, &v);
    string_vec_of(&syls)
}

// ---------------------------------------------------------------------------
// Counting syllables in a line
// ---------------------------------------------------------------------------

pub open spec fn strip_tags_fold(s: Seq<char>) -> (Seq<char>, bool)
    decreases s.len(),
{
    if s.len() == 0 {
        (Seq::empty(), false)
    } else {
        let (out, in_tag) = strip_tags_fold(s.drop_last());
        let c = s.last();
        if c == '<' {
            (out, true)
        } else if c == '>' {
            (out, false)
        } else if !in_tag {
            (out.push(c), in_tag)
        } else {
            (out, in_tag)
        }
    }
}

/// The text with everything from a `'<'` to the next `'>'` removed.
pub open spec fn strip_tags(s: Seq<char>) -> Seq<char> {
    strip_tags_fold(s).0
}

pub fn strip_tags_vec(s: &Vec<char>) -> (r: Vec<char>)
    ensures
        r@ == strip_tags(s@),
{
    let mut out: Vec<char> = Vec::new();
    let mut in_tag = false;
    let mut i: usize = 0;
    while i < s.len()
        invariant
            i <= s.len(),
            (out@, in_tag) == strip_tags_fold(s@.take(i as int)),
        decreases s.len() - i,
    {
        assert(s@.take(i + 1).drop_last() =~= s@.take(i as int));
        let c = s[i];
        if c == '<' {
            in_tag = true;
        } else if c == '>' {
            in_tag = false;
        } else if !in_tag {
            out.push(c);
        }
        i = i + 1;
    }
    assert(s@.take(i as int) =~= s@);
    out
}

pub open spec fn is_word_char(c: char) -> bool {
    alphanumeric(c) || c == '_' || c == 'ー'
}

/// Running total of syllables over the words closed so far, and the word
/// being read.
pub open spec fn syllable_count_fold(s: Seq<char>, vowels: Seq<char>) -> (int, Seq<char>)
    decreases s.len(),
{
    if s.len() == 0 {
        (0, Seq::empty())
    } else {
        let (total, cur) = syllable_count_fold(s.drop_last(), vowels);
        let c = s.last();
        if is_word_char(c) {
            (total, cur.push(c))
        } else if cur.len() > 0 {
            (total + spec_split_syllables(cur, vowels).len(), Seq::empty())
        } else {
            (total, cur)
        }
    }
}

/// The number of syllables of the words (runs of alphanumerics, `'_'` and
/// `'ー'`) of a text, tags left out.
pub open spec fn syllable_total(text: Seq<char>, vowels: Seq<char>) -> int {
    let (total, cur) = syllable_count_fold(strip_tags(text), vowels);
    if cur.len() > 0 {
        total + spec_split_syllables(cur, vowels).len()
    } else {
        total
    }
}

/// `max(1, total as i32)` of `syllable_total`.
pub open spec fn spec_count_line_syllables(text: Seq<char>, vowels: Seq<char>) -> i32 {
    let t = syllable_total(text, vowels) as i32;
    if t > 1 {
        t
    } else {
        1
    }
}

proof fn lemma_syllable_count_fold_bound(s: Seq<char>, vowels: Seq<char>)
    ensures
        0 <= syllable_count_fold(s, vowels).0,
        syllable_count_fold(s, vowels).0 + syllable_count_fold(s, vowels).1.len() <= s.len(),
    decreases s.len(),
{
    if s.len() > 0 {
        lemma_syllable_count_fold_bound(s.drop_last(), vowels);
        let cur = syllable_count_fold(s.drop_last(), vowels).1;
        lemma_syllables_len(cur, vowels);
    }
}

proof fn lemma_strip_tags_len(s: Seq<char>)
    ensures
        strip_tags_fold(s).0.len() <= s.len(),
    decreases s.len(),
{
    if s.len() > 0 {
        lemma_strip_tags_len(s.drop_last());
    }
}

/// No `'<'` and no `'>'`.
pub open spec fn tag_free(s: Seq<char>) -> bool {
    forall|i: int| 0 <= i < s.len() ==> #[trigger] s[i] != '<' && s[i] != '>'
}

proof fn lemma_strip_tags_fold_free(s: Seq<char>)
    ensures
        tag_free(strip_tags_fold(s).0),
        tag_free(s) ==> strip_tags_fold(s) == (s, false),
    decreases s.len(),
{
    if s.len() > 0 {
        let p = s.drop_last();
        lemma_strip_tags_fold_free(p);
        let (out, in_tag) = strip_tags_fold(p);
        let c = s.last();
        if !in_tag && c != '<' && c != '>' {
            assert forall|i: int| 0 <= i < out.push(c).len() implies #[trigger] out.push(c)[i] != '<' && out.push(
                c,
            )[i] != '>' by {
                if i < out.len() {
                    assert(out.push(c)[i] == out[i]);
                }
            }
        }
        if tag_free(s) {
            assert(tag_free(p)) by {
                assert forall|i: int| 0 <= i < p.len() implies #[trigger] p[i] != '<' && p[i] != '>' by {
                    assert(p[i] == s[i]);
                }
            }
            assert(s[s.len() - 1] != '<' && s[s.len() - 1] != '>');
            assert(p.push(c) =~= s);
        }
    }
}

/// Word tags do not count: a line has the syllables of its text with the
/// tags taken out.
pub proof fn lemma_syllables_ignore_tags(text: Seq<char>, vowels: Seq<char>)
    ensures
        syllable_total(strip_tags(text), vowels) == syllable_total(text, vowels),
        spec_count_line_syllables(strip_tags(text), vowels) == spec_count_line_syllables(text, vowels),
{
    lemma_strip_tags_fold_free(text);
    lemma_strip_tags_fold_free(strip_tags(text));
}

proof fn lemma_trim_start_tag_free(s: Seq<char>)
    requires
        tag_free(s),
    ensures
        tag_free(trim_start(s)),
    decreases s.len(),
{
    if s.len() > 0 && is_ws(s[0]) {
        let d = s.drop_first();
        assert forall|i: int| 0 <= i < d.len() implies #[trigger] d[i] != '<' && d[i] != '>' by {
            assert(d[i] == s[i + 1]);
        }
        lemma_trim_start_tag_free(d);
    }
}

proof fn lemma_trim_end_tag_free(s: Seq<char>)
    requires
        tag_free(s),
    ensures
        tag_free(trim_end(s)),
    decreases s.len(),
{
    if s.len() > 0 && is_ws(s.last()) {
        let d = s.drop_last();
        assert forall|i: int| 0 <= i < d.len() implies #[trigger] d[i] != '<' && d[i] != '>' by {
            assert(d[i] == s[i]);
        }
        lemma_trim_end_tag_free(d);
    }
}

proof fn lemma_collapse_tag_free(s: Seq<char>)
    requires
        tag_free(s),
    ensures
        tag_free(collapse_ws_fold(s).0),
    decreases s.len(),
{
    if s.len() > 0 {
        let d = s.drop_last();
        assert forall|i: int| 0 <= i < d.len() implies #[trigger] d[i] != '<' && d[i] != '>' by {
            assert(d[i] == s[i]);
        }
        lemma_collapse_tag_free(d);
        let out = collapse_ws_fold(d).0;
        let c = s.last();
        assert(c == s[s.len() - 1]);
        assert forall|x: char| x != '<' && x != '>' implies tag_free(#[trigger] out.push(x)) by {
            assert forall|i: int| 0 <= i < out.push(x).len() implies #[trigger] out.push(x)[i] != '<' && out.push(
                x,
            )[i] != '>' by {
                if i < out.len() {
                    assert(out.push(x)[i] == out[i]);
                }
            }
        }
        assert(tag_free(out.push(' ')));
        assert(tag_free(out.push(c)));
    }
}

/// The text of a line with its tags taken out and its white space cleaned
/// has no `'<'` and no `'>'`.
pub proof fn lemma_clean_text_tag_free(text: Seq<char>)
    ensures
        tag_free(spec_clean_whitespace(strip_tags(text))),
{
    lemma_strip_tags_fold_free(text);
    let st = strip_tags(text);
    lemma_trim_start_tag_free(st);
    lemma_trim_end_tag_free(trim_start(st));
    lemma_collapse_tag_free(trim(st));
}

proof fn lemma_syllable_fold_concat(s: Seq<char>, t: Seq<char>, vowels: Seq<char>)
    requires
        syllable_count_fold(s, vowels).1.len() == 0,
    ensures
        syllable_count_fold(s + t, vowels) == (
            syllable_count_fold(s, vowels).0 + syllable_count_fold(t, vowels).0,
            syllable_count_fold(t, vowels).1,
        ),
    decreases t.len(),
{
    if t.len() == 0 {
        assert(s + t =~= s);
    } else {
        lemma_syllable_fold_concat(s, t.drop_last(), vowels);
        assert((s + t).drop_last() =~= s + t.drop_last());
        assert((s + t).last() == t.last());
    }
}

proof fn lemma_tag_free_concat(a: Seq<char>, b: Seq<char>)
    requires
        tag_free(a),
        tag_free(b),
    ensures
        tag_free(a + b),
{
    assert forall|i: int| 0 <= i < (a + b).len() implies #[trigger] (a + b)[i] != '<' && (a + b)[i] != '>' by {
        if i < a.len() {
            assert((a + b)[i] == a[i]);
        } else {
            assert((a + b)[i] == b[i - a.len()]);
        }
    }
}

proof fn lemma_strip_fold_concat(s: Seq<char>, t: Seq<char>)
    requires
        !strip_tags_fold(s).1,
    ensures
        strip_tags_fold(s + t) == (strip_tags_fold(s).0 + strip_tags_fold(t).0, strip_tags_fold(t).1),
    decreases t.len(),
{
    if t.len() == 0 {
        assert(s + t =~= s);
        assert(strip_tags_fold(s).0 + Seq::<char>::empty() =~= strip_tags_fold(s).0);
    } else {
        lemma_strip_fold_concat(s, t.drop_last());
        assert((s + t).drop_last() =~= s + t.drop_last());
        assert((s + t).last() == t.last());
        let (o, _b) = strip_tags_fold(t.drop_last());
        assert(strip_tags_fold(s).0 + o.push(t.last()) =~= (strip_tags_fold(s).0 + o).push(t.last()));
    }
}

proof fn lemma_strip_fold_open_tag(inner: Seq<char>)
    requires
        tag_free(inner),
    ensures
        strip_tags_fold(seq!['<'] + inner) == (Seq::<char>::empty(), true),
    decreases inner.len(),
{
    if inner.len() == 0 {
        assert(seq!['<'] + inner =~= seq!['<']);
        assert(seq!['<'].drop_last() =~= Seq::<char>::empty());
        assert(strip_tags_fold(Seq::<char>::empty()) == (Seq::<char>::empty(), false));
    } else {
        let i1 = inner.drop_last();
        assert(tag_free(i1)) by {
            assert forall|i: int| 0 <= i < i1.len() implies #[trigger] i1[i] != '<' && i1[i] != '>' by {
                assert(i1[i] == inner[i]);
            }
        }
        lemma_strip_fold_open_tag(i1);
        assert((seq!['<'] + inner).drop_last() =~= seq!['<'] + i1);
        assert((seq!['<'] + inner).last() == inner[inner.len() - 1]);
        assert(inner[inner.len() - 1] != '<' && inner[inner.len() - 1] != '>');
    }
}

/// A tag between two separators does not count: `x`, a separator, a tag
/// `<...>`, a separator and `y` have the syllables of `x`, a separator and
/// `y` (for texts without tags, and a separator that is not part of a word).
pub proof fn lemma_syllables_skip_tag(x: Seq<char>, sep: char, inner: Seq<char>, y: Seq<char>, vowels: Seq<char>)
    requires
        tag_free(x),
        tag_free(inner),
        tag_free(y),
        !is_word_char(sep),
        sep != '<',
        sep != '>',
    ensures
        syllable_total(x + seq![sep] + (seq!['<'] + inner + seq!['>']) + seq![sep] + y, vowels) == syllable_total(
            x + seq![sep] + y,
            vowels,
        ),
        spec_count_line_syllables(x + seq![sep] + (seq!['<'] + inner + seq!['>']) + seq![sep] + y, vowels)
            == spec_count_line_syllables(x + seq![sep] + y, vowels),
{
    let tag = seq!['<'] + inner + seq!['>'];
    let s1 = x + seq![sep];
    let s2 = seq![sep] + y;
    let sep1 = seq![sep];
    assert(tag_free(sep1));
    lemma_tag_free_concat(x, sep1);
    lemma_tag_free_concat(sep1, y);
    lemma_strip_tags_fold_free(s1);
    lemma_strip_tags_fold_free(s2);
    lemma_strip_fold_open_tag(inner);
    assert(tag.drop_last() =~= seq!['<'] + inner);
    assert(tag.last() == '>');
    assert(strip_tags_fold(tag) == (Seq::<char>::empty(), false));
    lemma_strip_fold_concat(s1, tag);
    assert(s1 + Seq::<char>::empty() =~= s1);
    lemma_strip_fold_concat(s1 + tag, s2);
    let whole = x + seq![sep] + tag + seq![sep] + y;
    assert(whole =~= (s1 + tag) + s2);
    assert(strip_tags(whole) == s1 + s2);
    lemma_syllables_ignore_tags(whole, vowels);
    lemma_tag_free_concat(s1, s2);
    lemma_strip_tags_fold_free(s1 + s2);
    assert(strip_tags(s1 + s2) == s1 + s2);
    let e = Seq::<char>::empty();
    assert(tag_free(e));
    lemma_syllables_additive(e, sep, y, vowels);
    assert(e + seq![sep] + y =~= s2);
    assert(syllable_count_fold(e, vowels) == (0int, Seq::<char>::empty()));
    lemma_syllables_additive(x, sep, s2, vowels);
    assert(x + seq![sep] + s2 =~= s1 + s2);
    lemma_syllables_additive(x, sep, y, vowels);
}

proof fn lemma_hangul_syllables_some(s: Seq<char>, k: int)
    requires
        0 <= k < s.len(),
        spec_is_hangul(s[k]),
    ensures
        hangul_syllables(s).len() >= 1,
    decreases s.len(),
{
    if k < s.len() - 1 {
        lemma_hangul_syllables_some(s.drop_last(), k);
    }
}

proof fn lemma_kana_syllables_some(s: Seq<char>, k: int)
    requires
        0 <= k < s.len(),
        spec_is_kana(s[k]),
    ensures
        kana_syllables(s).len() >= 1,
    decreases s.len(),
{
    if k < s.len() - 1 {
        lemma_kana_syllables_some(s.drop_last(), k);
    }
}

/// A non-empty word has at least one syllable.
proof fn lemma_split_nonempty(s: Seq<char>, vowels: Seq<char>)
    requires
        s.len() > 0,
    ensures
        spec_split_syllables(s, vowels).len() >= 1,
{
    if has_hangul(s) {
        let k = choose|k: int| 0 <= k < s.len() && spec_is_hangul(#[trigger] s[k]);
        lemma_hangul_syllables_some(s, k);
    } else if has_kana(s) {
        let k = choose|k: int| 0 <= k < s.len() && spec_is_kana(#[trigger] s[k]);
        lemma_kana_syllables_some(s, k);
    } else {
        lemma_latin_syllables_rejoin(s, vowels);
        if spec_split_syllables(s, vowels).len() == 0 {
            assert(concat_all(spec_split_syllables(s, vowels)) == Seq::<char>::empty());
        }
    }
}

proof fn lemma_fold_word_seen(s: Seq<char>, vowels: Seq<char>, k: int)
    requires
        0 <= k < s.len(),
        is_word_char(s[k]),
    ensures
        syllable_count_fold(s, vowels).0 >= 1 || syllable_count_fold(s, vowels).1.len() > 0,
    decreases s.len(),
{
    let p = s.drop_last();
    lemma_syllable_count_fold_bound(p, vowels);
    if k < s.len() - 1 {
        lemma_fold_word_seen(p, vowels, k);
    }
    let cur = syllable_count_fold(p, vowels).1;
    if cur.len() > 0 {
        lemma_split_nonempty(cur, vowels);
    }
}

/// A text with a word character (a letter or digit, `'_'` or `'ー'`)
/// outside its tags has at least one syllable.
pub proof fn lemma_word_has_syllable(a: Seq<char>, vowels: Seq<char>, k: int)
    requires
        tag_free(a),
        0 <= k < a.len(),
        is_word_char(a[k]),
    ensures
        syllable_total(a, vowels) >= 1,
{
    lemma_strip_tags_fold_free(a);
    lemma_fold_word_seen(a, vowels, k);
    lemma_syllable_count_fold_bound(a, vowels);
    let cur = syllable_count_fold(a, vowels).1;
    if cur.len() > 0 {
        lemma_split_nonempty(cur, vowels);
    }
}

/// Syllables add up over a separator: the words of `a`, a character that
/// is not part of a word, and the words of `b` have the syllables of `a`
/// and of `b` together (for texts without tags); so do their line counts
/// when each part has a word character.
pub proof fn lemma_syllables_additive(a: Seq<char>, sep: char, b: Seq<char>, vowels: Seq<char>)
    requires
        tag_free(a),
        tag_free(b),
        !is_word_char(sep),
        sep != '<',
        sep != '>',
    ensures
        syllable_total(a + seq![sep] + b, vowels) == syllable_total(a, vowels) + syllable_total(b, vowels),
        (exists|i: int| 0 <= i < a.len() && is_word_char(#[trigger] a[i])) && (exists|j: int|
            0 <= j < b.len() && is_word_char(#[trigger] b[j])) && a.len() + b.len() < i32::MAX
            ==> spec_count_line_syllables(a + seq![sep] + b, vowels) == spec_count_line_syllables(a, vowels)
            + spec_count_line_syllables(b, vowels),
{
    lemma_syllable_total_bound(a, vowels);
    lemma_syllable_total_bound(b, vowels);
    if exists|i: int| 0 <= i < a.len() && is_word_char(#[trigger] a[i]) {
        let i = choose|i: int| 0 <= i < a.len() && is_word_char(#[trigger] a[i]);
        lemma_word_has_syllable(a, vowels, i);
    }
    if exists|j: int| 0 <= j < b.len() && is_word_char(#[trigger] b[j]) {
        let j = choose|j: int| 0 <= j < b.len() && is_word_char(#[trigger] b[j]);
        lemma_word_has_syllable(b, vowels, j);
    }
    let s = a + seq![sep];
    let whole = s + b;
    assert(tag_free(whole)) by {
        assert forall|i: int| 0 <= i < whole.len() implies #[trigger] whole[i] != '<' && whole[i] != '>' by {
            if i < a.len() {
                assert(whole[i] == a[i]);
            } else if i == a.len() {
                assert(whole[i] == sep);
            } else {
                assert(whole[i] == b[i - a.len() - 1]);
            }
        }
    }
    lemma_strip_tags_fold_free(whole);
    lemma_strip_tags_fold_free(a);
    lemma_strip_tags_fold_free(b);
    assert(s.drop_last() =~= a);
    assert(s.last() == sep);
    lemma_syllable_fold_concat(s, b, vowels);
    assert(a + seq![sep] + b =~= whole);
}

/// A text never has more syllables than characters.
pub proof fn lemma_syllable_total_bound(text: Seq<char>, vowels: Seq<char>)
    ensures
        0 <= syllable_total(text, vowels) <= text.len(),
{
    let st = strip_tags(text);
    lemma_strip_tags_len(text);
    lemma_syllable_count_fold_bound(st, vowels);
    let cur = syllable_count_fold(st, vowels).1;
    lemma_syllables_len(cur, vowels);
}

pub fn syllable_total_vec(text: &Vec<char>, vowels: &Vec<char>) -> (r: usize)
    ensures
        r == syllable_total(text@, vowels@),
{
    let clean = strip_tags_vec(text);
    proof {
        lemma_strip_tags_len(text@);
    }
    let mut total: usize = 0;
    let mut cur: Vec<char> = Vec::new();
    let mut i: usize = 0;
    while i < clean.len()
        invariant
            i <= clean.len(),
            (total as int, cur@) == syllable_count_fold(clean@.take(i as int), vowels@),
        decreases clean.len() - i,
    {
        assert(clean@.take(i + 1).drop_last() =~= clean@.take(i as int));
        proof {
            lemma_syllable_count_fold_bound(clean@.take(i + 1), vowels@);
        }
        let c = clean[i];
        if is_alphanumeric(c) || c == '_' || c == 'ー' {
            cur.push(c);
        } else if cur.len() > 0 {
            let syls = split_syllables_vec(&cur, vowels);
            assert(syls@.len() == vviews(syls@).len());
            total = total + syls.len();
            cur = Vec::new();
        }
        i = i + 1;
    }
    assert(clean@.take(i as int) =~= clean@);
    proof {
        lemma_syllable_total_bound(text@, vowels@);
    }
    if cur.len() > 0 {
        let syls = split_syllables_vec(&cur, vowels);
        assert(syls@.len() == vviews(syls@).len());
        proof {
            lemma_syllable_count_fold_bound(clean@, vowels@);
            lemma_syllables_len(cur@, vowels@);
        }
        total = total + syls.len();
    }
    total
}

/// Counts the syllables of a line (tags left out), at least 1.
pub fn count_line_syllables(text: &str, vowels: &str) -> (r: i32)
    ensures
        r == spec_count_line_syllables(text@, vowels@),
        r >= 1,
        text@.len() <= i32::MAX ==> r as int == if syllable_total(text@, vowels@) > 1 {
            syllable_total(text@, vowels@)
        } else {
            1
        },
{
    let t = chars_of(text);
    let v = chars_of(vowels);
    count_line_syllables_vec(&t, &v)
}

pub fn count_line_syllables_vec(text: &Vec<char>, vowels: &Vec<char>) -> (r: i32)
    ensures
        r == spec_count_line_syllables(text@, vowels@),
        r >= 1,
        text@.len() <= i32::MAX ==> r as int == if syllable_total(text@, vowels@) > 1 {
            syllable_total(text@, vowels@)
        } else {
            1
        },
{
    let total = syllable_total_vec(text, vowels);
    proof {
        lemma_syllable_total_bound(text@, vowels@);
    }
    let t = total as i32;
    if t > 1 {
        t
    } else {
        1
    }
}

} // verus!
