//! Reading an LRC source: its lines, and the timestamps that open them.
use vstd::prelude::*;
use crate::lyrics::{ParsedLrcLine, ParsedLineView, parsed_view};
use crate::parser::{
    find_from, lemma_find_from, parse_timestamp_vec, spec_parse_timestamp_ms,
};
use crate::text::{
    chars_of, copy_range, lines_fold, lines_vec, string_of, text_lines, trim, trim_vec,
};

verus! {

/// The timestamps in the brackets that open `s`, and the text after them:
/// while the text starts with `'['` and has a `']'` after it, the bracket
/// is read, kept when it holds a timestamp, and dropped either way.
pub open spec fn line_tags(s: Seq<char>) -> (Seq<i32>, Seq<char>)
    decreases s.len(),
{
    if s.len() > 0 && s[0] == '[' {
        let k = find_from(s, ']', 1);
        if k < s.len() {
            proof {
                lemma_find_from(s, ']', 1);
            }
            let (ts, rest) = line_tags(s.skip(k + 1));
            match spec_parse_timestamp_ms(s.subrange(1, k)) {
                Some(t) => (seq![t] + ts, rest),
                None => (ts, rest),
            }
        } else {
            (Seq::empty(), s)
        }
    } else {
        (Seq::empty(), s)
    }
}

/// The timed lines of one source line: one for each of its timestamps, all
/// with the text after the brackets, trimmed.
pub open spec fn spec_source_line(line: Seq<char>) -> Seq<ParsedLineView> {
    let (ts, rest) = line_tags(trim(line));
    let text = trim(rest);
    Seq::new(ts.len(), |i: int| ParsedLineView { timestamp_ms: ts[i], text: text })
}

pub open spec fn source_lines_upto(lines: Seq<Seq<char>>, k: int) -> Seq<ParsedLineView>
    decreases k,
{
    if k <= 0 {
        Seq::empty()
    } else {
        source_lines_upto(lines, k - 1) + spec_source_line(lines[k - 1])
    }
}

/// The timed lines of an LRC source, in the order of its lines.
pub open spec fn source_lines(lrc: Seq<char>) -> Seq<ParsedLineView> {
    source_lines_upto(text_lines(lrc), text_lines(lrc).len() as int)
}

// ---------------------------------------------------------------------------
// Lengths
// ---------------------------------------------------------------------------

proof fn lemma_line_tags_len(s: Seq<char>)
    ensures
        line_tags(s).1.len() <= s.len(),
        2 * line_tags(s).0.len() + line_tags(s).1.len() <= s.len(),
    decreases s.len(),
{
    if s.len() > 0 && s[0] == '[' {
        let k = find_from(s, ']', 1);
        lemma_find_from(s, ']', 1);
        if k < s.len() {
            lemma_line_tags_len(s.skip(k + 1));
        }
    }
}

proof fn lemma_lines_fold_len(s: Seq<char>)
    ensures
        crate::text::concat_all(lines_fold(s).0).len() + lines_fold(s).0.len() + lines_fold(s).1.len()
            <= s.len(),
    decreases s.len(),
{
    if s.len() > 0 {
        lemma_lines_fold_len(s.drop_last());
        let (done, cur) = lines_fold(s.drop_last());
        if s.last() == '\n' {
            let line = if cur.len() > 0 && cur.last() == '\r' {
                cur.drop_last()
            } else {
                cur
            };
            assert(done.push(line).drop_last() =~= done);
        }
    }
}

proof fn lemma_piece_in_concat(ss: Seq<Seq<char>>, k: int)
    requires
        0 <= k < ss.len(),
    ensures
        ss[k].len() + k <= crate::text::concat_all(ss).len() + ss.len() - 1,
    decreases ss.len(),
{
    if k < ss.len() - 1 {
        lemma_piece_in_concat(ss.drop_last(), k);
    }
}

/// The lines of a text are no longer than the text, and there are no more
/// of them than characters.
pub proof fn lemma_text_lines_len(s: Seq<char>)
    ensures
        crate::text::concat_all(text_lines(s)).len() + text_lines(s).len() <= s.len() + 1,
        text_lines(s).len() <= s.len(),
        forall|k: int| 0 <= k < text_lines(s).len() ==> (#[trigger] text_lines(s)[k]).len() <= s.len(),
{
    lemma_lines_fold_len(s);
    let (done, cur) = lines_fold(s);
    let ls = text_lines(s);
    if cur.len() > 0 {
        assert(done.push(cur).drop_last() =~= done);
    }
    assert forall|k: int| 0 <= k < ls.len() implies (#[trigger] ls[k]).len() <= s.len() by {
        lemma_piece_in_concat(ls, k);
    }
}

proof fn lemma_source_line_bounds(line: Seq<char>)
    ensures
        2 * spec_source_line(line).len() <= line.len(),
        forall|k: int|
            0 <= k < spec_source_line(line).len() ==> (#[trigger] spec_source_line(line)[k]).text.len()
                <= line.len(),
{
    crate::align::lemma_trim_len(line);
    lemma_line_tags_len(trim(line));
    crate::align::lemma_trim_len(line_tags(trim(line)).1);
}

proof fn lemma_source_lines_upto_len(lines: Seq<Seq<char>>, k: int, bound: int)
    requires
        0 <= k <= lines.len(),
        forall|q: int| 0 <= q < lines.len() ==> (#[trigger] lines[q]).len() <= bound,
    ensures
        2 * source_lines_upto(lines, k).len() <= crate::text::concat_all(lines.take(k)).len(),
        forall|q: int|
            0 <= q < source_lines_upto(lines, k).len() ==> (#[trigger] source_lines_upto(lines, k)[q]).text.len()
                <= bound,
    decreases k,
{
    if k > 0 {
        lemma_source_lines_upto_len(lines, k - 1, bound);
        lemma_source_line_bounds(lines[k - 1]);
        assert(lines.take(k).drop_last() =~= lines.take(k - 1));
        let a = source_lines_upto(lines, k - 1);
        let b = spec_source_line(lines[k - 1]);
        assert forall|q: int| 0 <= q < (a + b).len() implies (#[trigger] (a + b)[q]).text.len() <= bound by {
            if q >= a.len() {
                assert((a + b)[q] == b[q - a.len()]);
            } else {
                assert((a + b)[q] == a[q]);
            }
        }
    }
}

/// An LRC source of `n` characters gives at most `n / 2` timed lines, none
/// with a text longer than the source.
pub proof fn lemma_source_lines_len(lrc: Seq<char>)
    ensures
        2 * source_lines(lrc).len() <= lrc.len(),
        forall|q: int| 0 <= q < source_lines(lrc).len() ==> (#[trigger] source_lines(lrc)[q]).text.len() <= lrc.len(),
{
    let ls = text_lines(lrc);
    lemma_text_lines_len(lrc);
    lemma_source_lines_upto_len(ls, ls.len() as int, lrc.len() as int);
    assert(ls.take(ls.len() as int) =~= ls);
}

proof fn lemma_line_tags_nonneg(s: Seq<char>)
    ensures
        forall|k: int| 0 <= k < line_tags(s).0.len() ==> (#[trigger] line_tags(s).0[k]) >= 0,
    decreases s.len(),
{
    if s.len() > 0 && s[0] == '[' {
        let k = find_from(s, ']', 1);
        lemma_find_from(s, ']', 1);
        if k < s.len() {
            lemma_line_tags_nonneg(s.skip(k + 1));
            crate::parser::lemma_parse_timestamp_nonneg(s.subrange(1, k));
            let rest = line_tags(s.skip(k + 1)).0;
            match spec_parse_timestamp_ms(s.subrange(1, k)) {
                Some(t) => {
                    assert forall|q: int| 0 <= q < line_tags(s).0.len() implies (#[trigger] line_tags(s).0[q]) >= 0 by {
                        if q > 0 {
                            assert(line_tags(s).0[q] == rest[q - 1]);
                        }
                    }
                },
                None => {},
            }
        }
    }
}

proof fn lemma_source_lines_upto_nonneg(lines: Seq<Seq<char>>, k: int)
    requires
        0 <= k <= lines.len(),
    ensures
        forall|q: int| 0 <= q < source_lines_upto(lines, k).len() ==> (#[trigger] source_lines_upto(lines, k)[q]).timestamp_ms >= 0,
    decreases k,
{
    if k > 0 {
        lemma_source_lines_upto_nonneg(lines, k - 1);
        lemma_line_tags_nonneg(trim(lines[k - 1]));
        let a = source_lines_upto(lines, k - 1);
        let b = spec_source_line(lines[k - 1]);
        assert forall|q: int| 0 <= q < (a + b).len() implies (#[trigger] (a + b)[q]).timestamp_ms >= 0 by {
            if q >= a.len() {
                assert((a + b)[q] == b[q - a.len()]);
            } else {
                assert((a + b)[q] == a[q]);
            }
        }
    }
}

/// The timed lines of an LRC source are never before time 0.
pub proof fn lemma_source_lines_nonneg(lrc: Seq<char>)
    ensures
        forall|q: int| 0 <= q < source_lines(lrc).len() ==> (#[trigger] source_lines(lrc)[q]).timestamp_ms >= 0,
{
    lemma_source_lines_upto_nonneg(text_lines(lrc), text_lines(lrc).len() as int);
}

// ---------------------------------------------------------------------------
// Executable parts
// ---------------------------------------------------------------------------

fn find_char_from(s: &Vec<char>, c: char, j: usize) -> (r: usize)
    requires
        j <= s.len(),
    ensures
        r == find_from(s@, c, j as int),
{
    let mut k = j;
    while k < s.len() && s[k] != c
        invariant
            j <= k <= s.len(),
            find_from(s@, c, j as int) == find_from(s@, c, k as int),
        decreases s.len() - k,
    {
        k = k + 1;
    }
    k
}

pub fn source_line_vec(line: &Vec<char>) -> (r: Vec<ParsedLrcLine>)
    ensures
        parsed_view(r@) == spec_source_line(line@),
{
    let t = trim_vec(line);
    let mut cur = copy_range(&t, 0, t.len());
    assert(cur@ =~= t@);
    let mut stamps: Vec<i32> = Vec::new();
    let mut done = false;
    while !done && cur.len() > 0 && cur[0] == '['
        invariant
            line_tags(t@).0 == stamps@ + line_tags(cur@).0,
            line_tags(t@).1 == line_tags(cur@).1,
            done ==> line_tags(cur@) == (Seq::<i32>::empty(), cur@),
        decreases cur.len(), if done {
            0int
        } else {
            1int
        },
    {
        let k = find_char_from(&cur, ']', 1);
        proof {
            lemma_find_from(cur@, ']', 1);
        }
        if k >= cur.len() {
            done = true;
        } else {
            let part = copy_range(&cur, 1, k);
            let parsed = parse_timestamp_vec(&part);
            let ghost old_cur = cur@;
            let ghost old_stamps = stamps@;
            match parsed {
                Some(ts) => {
                    stamps.push(ts);
                },
                None => {},
            }
            cur = copy_range(&cur, k + 1, cur.len());
            assert(cur@ =~= old_cur.skip(k + 1));
            match parsed {
                Some(ts) => {
                    assert(stamps@ =~= old_stamps + seq![ts]);
                    assert(line_tags(old_cur).0 == seq![ts] + line_tags(cur@).0);
                    assert(stamps@ + line_tags(cur@).0 =~= old_stamps + line_tags(old_cur).0);
                },
                None => {},
            }
        }
    }
    assert(line_tags(cur@) == (Seq::<i32>::empty(), cur@));
    assert(stamps@ =~= line_tags(t@).0);
    let text_chars = trim_vec(&cur);
    let mut out: Vec<ParsedLrcLine> = Vec::new();
    let ghost expected = spec_source_line(line@);
    let mut i: usize = 0;
    while i < stamps.len()
        invariant
            i <= stamps.len(),
            stamps@ == line_tags(t@).0,
            t@ == trim(line@),
            text_chars@ == trim(line_tags(t@).1),
            expected == spec_source_line(line@),
            expected.len() == stamps@.len(),
            forall|q: int| 0 <= q < expected.len() ==> #[trigger] expected[q] == (ParsedLineView {
                timestamp_ms: stamps@[q],
                text: text_chars@,
            }),
            parsed_view(out@) == expected.take(i as int),
        decreases stamps.len() - i,
    {
        let ghost before = out@;
        let item = ParsedLrcLine { timestamp_ms: stamps[i], text: string_of(&text_chars) };
        assert(item@ == expected[i as int]);
        out.push(item);
        assert(parsed_view(out@) =~= parsed_view(before).push(item@));
        assert(expected.take(i + 1) =~= expected.take(i as int).push(expected[i as int]));
        i = i + 1;
    }
    assert(expected.take(i as int) =~= expected);
    out
}

/// The timed lines of one LRC source line: one for each timestamp in the
/// brackets that open it, each with the text that follows them.
pub fn parse_lrc_source_line(line: &str) -> (r: Vec<ParsedLrcLine>)
    ensures
        parsed_view(r@) == spec_source_line(line@),
{
    let v = chars_of(line);
    source_line_vec(&v)
}

/// The timed lines of an LRC source, in the order of its lines.
pub fn source_lines_vec(lrc: &Vec<char>) -> (r: Vec<ParsedLrcLine>)
    ensures
        parsed_view(r@) == source_lines(lrc@),
{
    let lines = lines_vec(lrc);
    let ghost ls = text_lines(lrc@);
    let mut out: Vec<ParsedLrcLine> = Vec::new();
    let mut i: usize = 0;
    while i < lines.len()
        invariant
            i <= lines.len(),
            lines@.len() == ls.len(),
            ls == text_lines(lrc@),
            forall|k: int| 0 <= k < lines@.len() ==> #[trigger] lines@[k]@ == ls[k],
            parsed_view(out@) == source_lines_upto(ls, i as int),
        decreases lines.len() - i,
    {
        let mut more = source_line_vec(&lines[i]);
        assert(lines@[i as int]@ == ls[i as int]);
        let ghost before = out@;
        let ghost add = more@;
        out.append(&mut more);
        assert(out@ =~= before + add);
        assert(parsed_view(out@) =~= parsed_view(before) + parsed_view(add));
        i = i + 1;
    }
    out
}

} // verus!
