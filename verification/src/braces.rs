//! Backing vocals: words in parentheses split off into a line of their own.
use vstd::prelude::*;
use crate::lyrics::{Line, LineView, WordInfo, WordView, words_view};
use crate::text::{chars_of, ends_with_char, join_with, starts_with_char};
use crate::timeline::is_timeline;

verus! {

/// Reading the words in order: a word that starts with `'('` opens the
/// braces, a word that ends with `')'` closes them after itself. Words read
/// inside the braces are backing words, the others main words. The result
/// is `(main, backing, inside)`.
pub open spec fn brace_fold(ws: Seq<WordView>) -> (Seq<WordView>, Seq<WordView>, bool)
    decreases ws.len(),
{
    if ws.len() == 0 {
        (Seq::empty(), Seq::empty(), false)
    } else {
        let (m, b, inside) = brace_fold(ws.drop_last());
        let w = ws.last();
        let now = inside || starts_with_char(w.word, '(');
        let after = if ends_with_char(w.word, ')') {
            false
        } else {
            now
        };
        if now {
            (m, b.push(w), after)
        } else {
            (m.push(w), b, after)
        }
    }
}

pub open spec fn word_texts(ws: Seq<WordView>) -> Seq<Seq<char>> {
    ws.map_values(|w: WordView| w.word)
}

/// A line with both main and backing words becomes two lines: the main
/// words, then the backing words right-aligned, each starting at its first
/// word and with its words joined by spaces as text. Any other line stays
/// as it is.
pub open spec fn spec_split_braced(l: LineView) -> Seq<LineView> {
    let (m, b, _inside) = brace_fold(l.words);
    if l.words.len() == 0 || b.len() == 0 || m.len() == 0 {
        seq![l]
    } else {
        let mt = join_with(word_texts(m), ' ');
        let bt = join_with(word_texts(b), ' ');
        seq![
            LineView {
                timestamp_ms: m[0].start_ms,
                text: mt,
                words: m,
                is_right_aligned: false,
                braced_text: None,
                singing_duration_ms: l.singing_duration_ms,
                is_gap_next: l.is_gap_next,
            },
            LineView {
                timestamp_ms: b[0].start_ms,
                text: bt,
                words: b,
                is_right_aligned: true,
                braced_text: Some(bt),
                singing_duration_ms: l.singing_duration_ms,
                is_gap_next: l.is_gap_next,
            },
        ]
    }
}

/// Every word goes to exactly one side: the main and backing words number
/// as many as the line's words.
pub proof fn lemma_brace_fold_partition(ws: Seq<WordView>)
    ensures
        brace_fold(ws).0.len() + brace_fold(ws).1.len() == ws.len(),
        brace_fold(ws).0.to_multiset().add(brace_fold(ws).1.to_multiset()) == ws.to_multiset(),
    decreases ws.len(),
{
    broadcast use vstd::seq_lib::group_to_multiset_ensures;

    if ws.len() > 0 {
        lemma_brace_fold_partition(ws.drop_last());
        assert(ws =~= ws.drop_last().push(ws.last()));
    }
}

/// Splitting keeps every word of the line, on one of the resulting lines,
/// and keeps the line's singing span and gap flag on each.
pub proof fn lemma_split_keeps_words(l: LineView)
    ensures
        spec_split_braced(l).len() == 1 ==> spec_split_braced(l)[0] == l,
        spec_split_braced(l).len() == 2 ==> spec_split_braced(l)[0].words.len()
            + spec_split_braced(l)[1].words.len() == l.words.len(),
        spec_split_braced(l).len() == 2 ==> spec_split_braced(l)[0].words.to_multiset().add(
            spec_split_braced(l)[1].words.to_multiset(),
        ) == l.words.to_multiset(),
        forall|k: int|
            0 <= k < spec_split_braced(l).len() ==> (#[trigger] spec_split_braced(l)[k]).singing_duration_ms
                == l.singing_duration_ms && spec_split_braced(l)[k].is_gap_next == l.is_gap_next,
        1 <= spec_split_braced(l).len() <= 2,
{
    lemma_brace_fold_partition(l.words);
}

proof fn lemma_brace_fold_members(ws: Seq<WordView>)
    ensures
        forall|x: WordView| brace_fold(ws).0.contains(x) ==> ws.contains(x),
        forall|x: WordView| brace_fold(ws).1.contains(x) ==> ws.contains(x),
{
    broadcast use vstd::seq_lib::to_multiset_contains, vstd::multiset::group_multiset_axioms;

    lemma_brace_fold_partition(ws);
    let (m, b, _inside) = brace_fold(ws);
    assert forall|x: WordView| m.contains(x) implies ws.contains(x) by {
        assert(m.to_multiset().count(x) > 0);
        assert(ws.to_multiset().count(x) == m.to_multiset().count(x) + b.to_multiset().count(x));
    }
    assert forall|x: WordView| b.contains(x) implies ws.contains(x) by {
        assert(b.to_multiset().count(x) > 0);
        assert(ws.to_multiset().count(x) == m.to_multiset().count(x) + b.to_multiset().count(x));
    }
}

proof fn lemma_push_timeline(s: Seq<WordView>, w: WordView, ws: Seq<WordView>)
    requires
        is_timeline(s),
        w.start_ms <= w.end_ms,
        forall|x: WordView| s.contains(x) ==> ws.contains(x),
        forall|k: int| 0 <= k < ws.len() ==> (#[trigger] ws[k]).start_ms <= w.start_ms,
    ensures
        is_timeline(s.push(w)),
{
    let t = s.push(w);
    assert forall|i: int| 0 <= i < t.len() implies (#[trigger] t[i]).start_ms <= t[i].end_ms by {
        if i < s.len() {
            assert(t[i] == s[i]);
        }
    }
    assert forall|i: int, j: int| 0 <= i <= j < t.len() implies (#[trigger] t[i]).start_ms
        <= (#[trigger] t[j]).start_ms by {
        if j < s.len() {
            assert(t[i] == s[i]);
            assert(t[j] == s[j]);
        } else if i < s.len() {
            assert(t[i] == s[i]);
            assert(s.contains(s[i]));
            let k = choose|k: int| 0 <= k < ws.len() && ws[k] == s[i];
            assert(ws[k].start_ms <= w.start_ms);
        }
    }
}

/// The main words and the backing words of a timeline are timelines.
pub proof fn lemma_brace_fold_timeline(ws: Seq<WordView>)
    requires
        is_timeline(ws),
    ensures
        is_timeline(brace_fold(ws).0),
        is_timeline(brace_fold(ws).1),
    decreases ws.len(),
{
    if ws.len() > 0 {
        let d = ws.drop_last();
        let w = ws.last();
        assert(is_timeline(d)) by {
            assert forall|i: int| 0 <= i < d.len() implies (#[trigger] d[i]).start_ms <= d[i].end_ms by {
                assert(d[i] == ws[i]);
            }
            assert forall|i: int, j: int| 0 <= i <= j < d.len() implies (#[trigger] d[i]).start_ms
                <= (#[trigger] d[j]).start_ms by {
                assert(d[i] == ws[i]);
                assert(d[j] == ws[j]);
            }
        }
        lemma_brace_fold_timeline(d);
        lemma_brace_fold_members(d);
        assert(w == ws[ws.len() - 1]);
        assert forall|k: int| 0 <= k < d.len() implies (#[trigger] d[k]).start_ms <= w.start_ms by {
            assert(d[k] == ws[k]);
        }
        let (m, b, _inside) = brace_fold(d);
        lemma_push_timeline(m, w, d);
        lemma_push_timeline(b, w, d);
    }
}

/// Splitting a line whose words form a timeline gives lines whose words
/// form timelines.
pub proof fn lemma_split_timeline(l: LineView)
    requires
        is_timeline(l.words),
    ensures
        forall|k: int|
            0 <= k < spec_split_braced(l).len() ==> is_timeline(#[trigger] spec_split_braced(l)[k].words),
{
    lemma_brace_fold_timeline(l.words);
}

fn join_words(ws: &Vec<WordInfo>) -> (r: String)
    ensures
        r@ == join_with(word_texts(words_view(ws@)), ' '),
{
    let ghost wt = word_texts(words_view(ws@));
    let mut out: Vec<char> = Vec::new();
    let mut i: usize = 0;
    while i < ws.len()
        invariant
            i <= ws.len(),
            wt == word_texts(words_view(ws@)),
            wt.len() == ws.len(),
            out@ == join_with(wt.take(i as int), ' '),
        decreases ws.len() - i,
    {
        let w = chars_of(ws[i].word.as_str());
        assert(w@ == wt[i as int]);
        if i > 0 {
            out.push(' ');
        }
        let mut j: usize = 0;
        let ghost base = out@;
        while j < w.len()
            invariant
                j <= w.len(),
                out@ == base + w@.take(j as int),
            decreases w.len() - j,
        {
            out.push(w[j]);
            assert(w@.take(j + 1) =~= w@.take(j as int).push(w[j as int]));
            j = j + 1;
        }
        assert(w@.take(j as int) =~= w@);
        assert(wt.take(i + 1).drop_last() =~= wt.take(i as int));
        if i == 0 {
            assert(out@ =~= join_with(wt.take(1), ' '));
        }
        i = i + 1;
    }
    assert(wt.take(i as int) =~= wt);
    crate::text::string_of(&out)
}

/// Splits a line holding backing vocals in parentheses into its main line
/// and a right-aligned backing line; other lines come back alone.
pub fn split_line_if_braced(line: Line) -> (r: Vec<Line>)
    ensures
        crate::lyrics::lines_view(r@) == spec_split_braced(line@),
{
    let ghost ws = words_view(line.words@);
    if line.words.len() == 0 {
        let r = vec![line];
        assert(crate::lyrics::lines_view(r@) =~= spec_split_braced(line@));
        return r;
    }
    let mut main_words: Vec<WordInfo> = Vec::new();
    let mut braced_words: Vec<WordInfo> = Vec::new();
    let mut in_braces = false;
    let mut i: usize = 0;
    while i < line.words.len()
        invariant
            i <= line.words.len(),
            ws == words_view(line.words@),
            ws.len() == line.words.len(),
            brace_fold(ws.take(i as int)) == (words_view(main_words@), words_view(braced_words@), in_braces),
        decreases line.words.len() - i,
    {
        let w = line.words[i].duplicate();
        let cs = chars_of(w.word.as_str());
        assert(cs@ == ws[i as int].word);
        assert(ws.take(i + 1).drop_last() =~= ws.take(i as int));
        assert(ws.take(i + 1).last() == ws[i as int]);
        if cs.len() > 0 && cs[0] == '(' {
            in_braces = true;
        }
        let closes = cs.len() > 0 && cs[cs.len() - 1] == ')';
        if in_braces {
            braced_words.push(w);
            assert(words_view(braced_words@) =~= brace_fold(ws.take(i + 1)).1);
            assert(words_view(main_words@) =~= brace_fold(ws.take(i + 1)).0);
        } else {
            main_words.push(w);
            assert(words_view(braced_words@) =~= brace_fold(ws.take(i + 1)).1);
            assert(words_view(main_words@) =~= brace_fold(ws.take(i + 1)).0);
        }
        if closes {
            in_braces = false;
        }
        i = i + 1;
    }
    assert(ws.take(i as int) =~= ws);
    if braced_words.len() == 0 || main_words.len() == 0 {
        let r = vec![line];
        assert(crate::lyrics::lines_view(r@) =~= spec_split_braced(line@));
        return r;
    }
    let main_text = join_words(&main_words);
    let braced_text = join_words(&braced_words);
    let main_start = main_words[0].start_ms;
    let braced_start = braced_words[0].start_ms;
    let main_line = Line {
        timestamp_ms: main_start,
        text: main_text,
        words: main_words,
        is_right_aligned: false,
        braced_text: None,
        singing_duration_ms: line.singing_duration_ms,
        is_gap_next: line.is_gap_next,
    };
    let braced_line = Line {
        timestamp_ms: braced_start,
        text: braced_text.clone(),
        words: braced_words,
        is_right_aligned: true,
        braced_text: Some(braced_text),
        singing_duration_ms: line.singing_duration_ms,
        is_gap_next: line.is_gap_next,
    };
    let r = vec![main_line, braced_line];
    assert(crate::lyrics::lines_view(r@) =~= spec_split_braced(line@));
    r
}

} // verus!
