//! Output formats for aligned lines: Apple Music TTML, Enhanced LRC, and
//! the structure of Spotify-style JSON lyrics.
use vstd::prelude::*;
use crate::lyrics::{Line, LineView, WordInfo, WordView, lines_view, words_view};
use crate::ratio::trunc_div;
use crate::text::{append_chars, chars_of, concat_all, string_of};

verus! {

// ---------------------------------------------------------------------------
// Integers in decimal
// ---------------------------------------------------------------------------

pub open spec fn digit_char(d: int) -> char {
    seq!['0', '1', '2', '3', '4', '5', '6', '7', '8', '9'][d]
}

/// The decimal digits of `n`.
pub open spec fn digits(n: nat) -> Seq<char>
    decreases n,
{
    if n < 10 {
        seq![digit_char(n as int)]
    } else {
        digits(n / 10).push(digit_char((n % 10) as int))
    }
}

pub open spec fn zeros(k: int) -> Seq<char> {
    Seq::new(
        if k > 0 {
            k as nat
        } else {
            0
        },
        |i: int| '0',
    )
}

/// `s` with zeros in front up to width `w`.
pub open spec fn pad_zero(s: Seq<char>, w: int) -> Seq<char> {
    if s.len() >= w {
        s
    } else {
        zeros(w - s.len()) + s
    }
}

/// `n` in decimal, zero-padded after its sign to width `w`: what the
/// format `{:0w}` writes (`{}` for `w == 1`).
pub open spec fn fmt_int(n: int, w: int) -> Seq<char> {
    if n < 0 {
        seq!['-'] + pad_zero(digits((-n) as nat), w - 1)
    } else {
        pad_zero(digits(n as nat), w)
    }
}

/// The remainder that goes with `trunc_div`: it has the sign of `a`, as
/// Rust's `%` does.
pub open spec fn trunc_rem(a: int, b: int) -> int {
    a - b * trunc_div(a, b)
}

fn digit_exec(d: u64) -> (r: char)
    requires
        d < 10,
    ensures
        r == digit_char(d as int),
{
    let t: Vec<char> = vec!['0', '1', '2', '3', '4', '5', '6', '7', '8', '9'];
    assert(t@ =~= seq!['0', '1', '2', '3', '4', '5', '6', '7', '8', '9']);
    t[d as usize]
}

fn digits_vec(n: u64) -> (r: Vec<char>)
    ensures
        r@ == digits(n as nat),
{
    let mut m = n;
    let mut suffix: Vec<char> = Vec::new();
    while m >= 10
        invariant
            digits(n as nat) == digits(m as nat) + suffix@,
        decreases m,
    {
        let d = m % 10;
        let c = digit_exec(d);
        let ghost before = suffix@;
        suffix.insert(0, c);
        assert(suffix@ =~= seq![c] + before);
        assert(digits(m as nat) == digits((m / 10) as nat).push(c));
        assert(digits((m / 10) as nat).push(c) + before =~= digits((m / 10) as nat) + suffix@);
        m = m / 10;
    }
    let mut r: Vec<char> = Vec::new();
    r.push(digit_exec(m));
    append_chars(&mut r, &suffix);
    r
}

/// Appends `n` in decimal, zero-padded to width `w` (see `fmt_int`).
fn push_int(out: &mut Vec<char>, n: i64, w: usize)
    requires
        n > i64::MIN,
        w >= 1,
    ensures
        final(out)@ == old(out)@ + fmt_int(n as int, w as int),
{
    let neg = n < 0;
    let a: u64 = if neg {
        (-n) as u64
    } else {
        n as u64
    };
    let ds = digits_vec(a);
    let width = if neg {
        w - 1
    } else {
        w
    };
    let ghost before = out@;
    if neg {
        out.push('-');
    }
    let mut k: usize = ds.len();
    while k < width
        invariant
            ds.len() <= k <= width || (k == ds.len() && width < ds.len()),
            out@ == before + (if neg {
                seq!['-']
            } else {
                Seq::<char>::empty()
            }) + zeros(k - ds.len()),
        decreases width - k,
    {
        out.push('0');
        assert(zeros(k + 1 - ds.len()) =~= zeros(k - ds.len()).push('0'));
        k = k + 1;
    }
    append_chars(out, &ds);
    proof {
        let body = pad_zero(digits(a as nat), width as int);
        if ds.len() >= width {
            assert(zeros(k - ds.len()) =~= Seq::<char>::empty());
            assert(body == ds@);
        } else {
            assert(k == width);
        }
        if neg {
            assert(out@ =~= before + (seq!['-'] + body));
        } else {
            assert(out@ =~= before + body);
        }
    }
}

/// Appends the characters of `s`.
fn push_str(out: &mut Vec<char>, s: &str)
    ensures
        final(out)@ == old(out)@ + s@,
{
    let v = chars_of(s);
    append_chars(out, &v);
}

proof fn lemma_trunc_neg(x: int, b: int)
    requires
        x >= 0,
        b > 0,
    ensures
        trunc_div(-x, b) == -(x / b),
        trunc_rem(-x, b) == -(x % b),
        trunc_div(x, b) == x / b,
        trunc_rem(x, b) == x % b,
        0 <= x / b,
        0 <= x % b < b,
{
    assert(x == b * (x / b) + x % b && 0 <= x % b < b && x / b >= 0) by (nonlinear_arith)
        requires
            x >= 0,
            b > 0,
    ;
    let q = x / b;
    assert(b * (-q) == -(b * q)) by (nonlinear_arith);
    if x == 0 {
        assert(x / b == 0);
        assert(-x == 0);
    }
}

// ---------------------------------------------------------------------------
// Times
// ---------------------------------------------------------------------------

/// A time in TTML form, `hh:mm:ss.mmm` (fields as Rust's `/` and `%`
/// give them, so a negative time has negative fields).
pub open spec fn spec_ttml_time(ms: int) -> Seq<char> {
    let total = trunc_div(ms, 1000);
    fmt_int(trunc_div(total, 3600), 2) + seq![':'] + fmt_int(trunc_div(trunc_rem(total, 3600), 60), 2)
        + seq![':'] + fmt_int(trunc_rem(total, 60), 2) + seq!['.'] + fmt_int(trunc_rem(ms, 1000), 3)
}

/// A time in LRC form, `mm:ss.cc`.
pub open spec fn spec_lrc_time(ms: int) -> Seq<char> {
    let total = trunc_div(ms, 1000);
    fmt_int(trunc_div(total, 60), 2) + seq![':'] + fmt_int(trunc_rem(total, 60), 2) + seq!['.']
        + fmt_int(trunc_div(trunc_rem(ms, 1000), 10), 2)
}

fn signed(neg: bool, v: u64) -> (r: i64)
    requires
        v <= 0x1_0000_0000,
    ensures
        r == if neg {
            -(v as int)
        } else {
            v as int
        },
{
    if neg {
        -(v as i64)
    } else {
        v as i64
    }
}

fn push_ttml_time(out: &mut Vec<char>, ms: i64)
    requires
        -0x1_0000_0000 <= ms <= 0x1_0000_0000,
    ensures
        final(out)@ == old(out)@ + spec_ttml_time(ms as int),
{
    let neg = ms < 0;
    let a: u64 = if neg {
        (-ms) as u64
    } else {
        ms as u64
    };
    let total = a / 1000;
    proof {
        let ai = a as int;
        lemma_trunc_neg(ai, 1000);
        lemma_trunc_neg(ai / 1000, 3600);
        lemma_trunc_neg(ai / 1000, 60);
        lemma_trunc_neg((ai / 1000) % 3600, 60);
        if neg {
            assert(ms as int == -ai);
        } else {
            assert(ms as int == ai);
        }
    }
    let ghost before = out@;
    push_int(out, signed(neg, total / 3600), 2);
    out.push(':');
    push_int(out, signed(neg, (total % 3600) / 60), 2);
    out.push(':');
    push_int(out, signed(neg, total % 60), 2);
    out.push('.');
    push_int(out, signed(neg, a % 1000), 3);
    assert(out@ =~= before + spec_ttml_time(ms as int));
}

fn push_lrc_time(out: &mut Vec<char>, ms: i64)
    requires
        -0x1_0000_0000 <= ms <= 0x1_0000_0000,
    ensures
        final(out)@ == old(out)@ + spec_lrc_time(ms as int),
{
    let neg = ms < 0;
    let a: u64 = if neg {
        (-ms) as u64
    } else {
        ms as u64
    };
    let total = a / 1000;
    proof {
        let ai = a as int;
        lemma_trunc_neg(ai, 1000);
        lemma_trunc_neg(ai / 1000, 60);
        lemma_trunc_neg(ai % 1000, 10);
        if neg {
            assert(ms as int == -ai);
        } else {
            assert(ms as int == ai);
        }
    }
    let ghost before = out@;
    push_int(out, signed(neg, total / 60), 2);
    out.push(':');
    push_int(out, signed(neg, total % 60), 2);
    out.push('.');
    push_int(out, signed(neg, (a % 1000) / 10), 2);
    assert(out@ =~= before + spec_lrc_time(ms as int));
}

/// A time in milliseconds as TTML `hh:mm:ss.mmm`.
pub fn format_ms_to_ttml(ms: i32) -> (r: String)
    ensures
        r@ == spec_ttml_time(ms as int),
{
    let mut out: Vec<char> = Vec::new();
    push_ttml_time(&mut out, ms as i64);
    assert(out@ =~= spec_ttml_time(ms as int));
    string_of(&out)
}

/// A time in milliseconds as LRC `mm:ss.cc`.
pub fn format_ms_to_lrc(ms: i32) -> (r: String)
    ensures
        r@ == spec_lrc_time(ms as int),
{
    let mut out: Vec<char> = Vec::new();
    push_lrc_time(&mut out, ms as i64);
    assert(out@ =~= spec_lrc_time(ms as int));
    string_of(&out)
}

// ---------------------------------------------------------------------------
// Apple Music TTML
// ---------------------------------------------------------------------------

/// A character as XML text: `& < > " '` as entities, others as they are.
pub open spec fn xml_escape_char(c: char) -> Seq<char> {
    if c == '&' {
        "&amp;"@
    } else if c == '<' {
        "&lt;"@
    } else if c == '>' {
        "&gt;"@
    } else if c == '"' {
        "&quot;"@
    } else if c == '\'' {
        "&apos;"@
    } else {
        seq![c]
    }
}

pub open spec fn xml_escape(s: Seq<char>) -> Seq<char>
    decreases s.len(),
{
    if s.len() == 0 {
        Seq::empty()
    } else {
        xml_escape(s.drop_last()) + xml_escape_char(s.last())
    }
}

pub open spec fn markup_free(s: Seq<char>) -> bool {
    forall|i: int|
        0 <= i < s.len() ==> (#[trigger] s[i]) != '<' && s[i] != '>' && s[i] != '"' && s[i] != '\''
}

/// Escaped text holds no `<`, `>`, `"` or `'`: a word can neither open nor
/// close markup, nor end the attribute or element it stands in.
pub proof fn lemma_xml_escape_markup_free(s: Seq<char>)
    ensures
        markup_free(xml_escape(s)),
    decreases s.len(),
{
    if s.len() > 0 {
        lemma_xml_escape_markup_free(s.drop_last());
        reveal_strlit("&amp;");
        reveal_strlit("&lt;");
        reveal_strlit("&gt;");
        reveal_strlit("&quot;");
        reveal_strlit("&apos;");
        let a = xml_escape(s.drop_last());
        let b = xml_escape_char(s.last());
        assert(markup_free(b));
        assert forall|i: int| 0 <= i < (a + b).len() implies (#[trigger] (a + b)[i]) != '<' && (a
            + b)[i] != '>' && (a + b)[i] != '"' && (a + b)[i] != '\'' by {
            if i < a.len() {
                assert((a + b)[i] == a[i]);
            } else {
                assert((a + b)[i] == b[i - a.len()]);
            }
        }
    }
}

fn push_escaped(out: &mut Vec<char>, s: &Vec<char>)
    ensures
        final(out)@ == old(out)@ + xml_escape(s@),
{
    let ghost before = out@;
    let mut i: usize = 0;
    while i < s.len()
        invariant
            i <= s.len(),
            out@ == before + xml_escape(s@.take(i as int)),
        decreases s.len() - i,
    {
        let c = s[i];
        let ghost mid = out@;
        if c == '&' {
            push_str(out, "&amp;");
        } else if c == '<' {
            push_str(out, "&lt;");
        } else if c == '>' {
            push_str(out, "&gt;");
        } else if c == '"' {
            push_str(out, "&quot;");
        } else if c == '\'' {
            push_str(out, "&apos;");
        } else {
            out.push(c);
        }
        assert(out@ =~= mid + xml_escape_char(c));
        assert(s@.take(i + 1).drop_last() =~= s@.take(i as int));
        i = i + 1;
    }
    assert(s@.take(i as int) =~= s@);
}

pub open spec fn ttml_header() -> Seq<char> {
    "<?xml version=\"1.0\" encoding=\"utf-8\"?>\n"@
        + "<tt xmlns=\"http://www.w3.org/ns/ttml\" xmlns:ttm=\"http://www.w3.org/ns/ttml#metadata\" xmlns:tts=\"http://www.w3.org/ns/ttml#styling\" xml:lang=\"en\">\n"@
        + "  <head>\n"@ + "    <metadata>\n"@ + "      <ttm:title>Aligned Lyrics</ttm:title>\n"@
        + "    </metadata>\n"@ + "  </head>\n"@ + "  <body>\n"@ + "    <div>\n"@
}

pub open spec fn ttml_footer() -> Seq<char> {
    "    </div>\n"@ + "  </body>\n"@ + "</tt>\n"@
}

/// A word as a `<span>`, timed from its line's start.
pub open spec fn ttml_span(w: WordView, line_start: int) -> Seq<char> {
    "        <span begin=\""@ + spec_ttml_time(w.start_ms - line_start) + "\" end=\""@
        + spec_ttml_time(w.end_ms - line_start) + "\">"@ + xml_escape(w.word) + "</span>\n"@
}

pub open spec fn ttml_spans(ws: Seq<WordView>, line_start: int) -> Seq<char>
    decreases ws.len(),
{
    if ws.len() == 0 {
        Seq::empty()
    } else {
        ttml_spans(ws.drop_last(), line_start) + ttml_span(ws.last(), line_start)
    }
}

/// Where a line's paragraph ends: at its last word's end, or for a line
/// without words at the end of its singing span.
pub open spec fn ttml_line_end(l: LineView) -> int {
    if l.words.len() > 0 {
        l.words.last().end_ms as int
    } else {
        l.timestamp_ms + l.singing_duration_ms
    }
}

/// A line as a `<p>` with absolute times, holding its words.
pub open spec fn ttml_paragraph(l: LineView) -> Seq<char> {
    "      <p begin=\""@ + spec_ttml_time(l.timestamp_ms as int) + "\" end=\""@ + spec_ttml_time(
        ttml_line_end(l),
    ) + "\">\n"@ + ttml_spans(l.words, l.timestamp_ms as int) + "      </p>\n"@
}

pub open spec fn ttml_body(ls: Seq<LineView>) -> Seq<char>
    decreases ls.len(),
{
    if ls.len() == 0 {
        Seq::empty()
    } else {
        ttml_body(ls.drop_last()) + ttml_paragraph(ls.last())
    }
}

pub open spec fn spec_ttml(ls: Seq<LineView>) -> Seq<char> {
    ttml_header() + ttml_body(ls) + ttml_footer()
}

/// `piece` stands in `s` at position `i`.
pub open spec fn occurs_at(s: Seq<char>, piece: Seq<char>, i: int) -> bool {
    0 <= i && i + piece.len() <= s.len() && s.subrange(i, i + piece.len()) == piece
}

/// The opening tag of a paragraph from `begin` to `end`.
pub open spec fn p_open(begin: int, end: int) -> Seq<char> {
    "      <p begin=\""@ + spec_ttml_time(begin) + "\" end=\""@ + spec_ttml_time(end) + "\">\n"@
}

#[verifier::spinoff_prover]
#[verifier::rlimit(40)]
proof fn lemma_ttml_body_split(ls: Seq<LineView>, k: int)
    requires
        0 <= k < ls.len(),
    ensures
        exists|rest: Seq<char>| ttml_body(ls) == ttml_body(ls.take(k)) + ttml_paragraph(ls[k]) + rest,
    decreases ls.len(),
{
    if k == ls.len() - 1 {
        assert(ls.drop_last() =~= ls.take(k));
        assert(ttml_body(ls) =~= ttml_body(ls.take(k)) + ttml_paragraph(ls[k]) + Seq::<char>::empty());
    } else {
        let d = ls.drop_last();
        lemma_ttml_body_split(d, k);
        assert(d.take(k) =~= ls.take(k));
        assert(d[k] == ls[k]);
        let rest = choose|rest: Seq<char>| ttml_body(d) == ttml_body(d.take(k)) + ttml_paragraph(d[k]) + rest;
        let r2 = rest + ttml_paragraph(ls.last());
        assert(ttml_body(ls) =~= ttml_body(ls.take(k)) + ttml_paragraph(ls[k]) + r2);
    }
}

proof fn lemma_occurs_nested(x: Seq<char>, y: Seq<char>, p: Seq<char>, q: Seq<char>, r: Seq<char>, z: Seq<char>)
    ensures
        occurs_at(x + (y + (p + q) + r) + z, p, (x.len() + y.len()) as int),
{
    let s = x + (y + (p + q) + r) + z;
    let i = (x.len() + y.len()) as int;
    let e = i + p.len() as int;
    assert forall|j: int| 0 <= j < p.len() implies #[trigger] s.subrange(i, e)[j] == p[j] by {
        assert(s[i + j] == (y + (p + q) + r)[y.len() + j]);
        assert((y + (p + q) + r)[y.len() + j] == (p + q)[j]);
    }
    assert(s.subrange(i, e) =~= p);
}

#[verifier::spinoff_prover]
#[verifier::rlimit(40)]
proof fn lemma_paragraph_opens(l: LineView)
    ensures
        ttml_paragraph(l) == p_open(l.timestamp_ms as int, ttml_line_end(l)) + (ttml_spans(
            l.words,
            l.timestamp_ms as int,
        ) + "      </p>\n"@),
{
    assert(ttml_paragraph(l) =~= p_open(l.timestamp_ms as int, ttml_line_end(l)) + (ttml_spans(
        l.words,
        l.timestamp_ms as int,
    ) + "      </p>\n"@));
}

proof fn lemma_occurs_trans(s: Seq<char>, p: Seq<char>, q: Seq<char>, i: int, j: int)
    requires
        occurs_at(s, p, i),
        occurs_at(p, q, j),
    ensures
        occurs_at(s, q, i + j),
{
    assert forall|x: int| 0 <= x < q.len() implies #[trigger] s.subrange(i + j, i + j + q.len())[x] == q[x] by {
        assert(s.subrange(i, i + p.len())[j + x] == p[j + x]);
        assert(p.subrange(j, j + q.len())[x] == q[x]);
    }
    assert(s.subrange(i + j, i + j + q.len()) =~= q);
}

proof fn lemma_line_end(l: LineView)
    ensures
        l.words.len() > 0 ==> ttml_line_end(l) == l.words[l.words.len() - 1].end_ms as int,
        l.words.len() == 0 ==> ttml_line_end(l) == l.timestamp_ms + l.singing_duration_ms,
{
}

proof fn lemma_ttml_has_paragraph(ls: Seq<LineView>, k: int)
    requires
        0 <= k < ls.len(),
    ensures
        exists|i: int| #[trigger] occurs_at(spec_ttml(ls), ttml_paragraph(ls[k]), i),
{
    lemma_ttml_body_split(ls, k);
    let rest = choose|rest: Seq<char>| ttml_body(ls) == ttml_body(ls.take(k)) + ttml_paragraph(ls[k]) + rest;
    let b0 = ttml_body(ls.take(k));
    let e = Seq::<char>::empty();
    assert(ttml_paragraph(ls[k]) + e =~= ttml_paragraph(ls[k]));
    assert(spec_ttml(ls) == ttml_header() + (b0 + (ttml_paragraph(ls[k]) + e) + rest) + ttml_footer());
    lemma_occurs_nested(ttml_header(), b0, ttml_paragraph(ls[k]), e, rest, ttml_footer());
}

/// In the TTML, the paragraph of every line opens at the line's timestamp
/// and ends at its last word's end, or for a line without words at the end
/// of its singing span.
pub proof fn lemma_ttml_paragraph_ends(ls: Seq<LineView>, k: int)
    requires
        0 <= k < ls.len(),
    ensures
        ls[k].words.len() > 0 ==> exists|i: int|
            #[trigger] occurs_at(
                spec_ttml(ls),
                p_open(ls[k].timestamp_ms as int, ls[k].words[ls[k].words.len() - 1].end_ms as int),
                i,
            ),
        ls[k].words.len() == 0 ==> exists|i: int|
            #[trigger] occurs_at(
                spec_ttml(ls),
                p_open(ls[k].timestamp_ms as int, ls[k].timestamp_ms + ls[k].singing_duration_ms),
                i,
            ),
{
    lemma_ttml_has_paragraph(ls, k);
    let l = ls[k];
    let i = choose|i: int| #[trigger] occurs_at(spec_ttml(ls), ttml_paragraph(l), i);
    let end = if l.words.len() > 0 {
        l.words[l.words.len() - 1].end_ms as int
    } else {
        l.timestamp_ms + l.singing_duration_ms
    };
    lemma_line_end(l);
    let po = p_open(l.timestamp_ms as int, end);
    let inner = ttml_spans(l.words, l.timestamp_ms as int) + "      </p>\n"@;
    lemma_paragraph_opens(l);
    assert(ttml_paragraph(l) == po + inner);
    let e = Seq::<char>::empty();
    assert(po + inner =~= e + (e + (po + inner) + e) + e);
    lemma_occurs_nested(e, e, po, inner, e, e);
    lemma_occurs_trans(spec_ttml(ls), ttml_paragraph(l), po, i, 0);
}

#[verifier::spinoff_prover]
#[verifier::rlimit(40)]
proof fn lemma_ttml_spans_split(ws: Seq<WordView>, ts: int, j: int)
    requires
        0 <= j < ws.len(),
    ensures
        exists|rest: Seq<char>| ttml_spans(ws, ts) == ttml_spans(ws.take(j), ts) + ttml_span(ws[j], ts) + rest,
    decreases ws.len(),
{
    if j == ws.len() - 1 {
        assert(ws.drop_last() =~= ws.take(j));
        assert(ttml_spans(ws, ts) =~= ttml_spans(ws.take(j), ts) + ttml_span(ws[j], ts) + Seq::<char>::empty());
    } else {
        let d = ws.drop_last();
        lemma_ttml_spans_split(d, ts, j);
        assert(d.take(j) =~= ws.take(j));
        assert(d[j] == ws[j]);
        let rest = choose|rest: Seq<char>| ttml_spans(d, ts) == ttml_spans(d.take(j), ts) + ttml_span(d[j], ts) + rest;
        let r2 = rest + ttml_span(ws.last(), ts);
        assert(ttml_spans(ws, ts) =~= ttml_spans(ws.take(j), ts) + ttml_span(ws[j], ts) + r2);
    }
}

/// In the TTML, every word of every line is a `<span>` timed from its
/// line's start, holding the word with `&`, `<`, `>` and quotes escaped.
pub proof fn lemma_ttml_word_spans(ls: Seq<LineView>, k: int, j: int)
    requires
        0 <= k < ls.len(),
        0 <= j < ls[k].words.len(),
    ensures
        exists|i: int|
            #[trigger] occurs_at(
                spec_ttml(ls),
                "        <span begin=\""@ + spec_ttml_time(ls[k].words[j].start_ms - ls[k].timestamp_ms)
                    + "\" end=\""@ + spec_ttml_time(ls[k].words[j].end_ms - ls[k].timestamp_ms) + "\">"@
                    + xml_escape(ls[k].words[j].word) + "</span>\n"@,
                i,
            ),
{
    let l = ls[k];
    let ts = l.timestamp_ms as int;
    lemma_ttml_has_paragraph(ls, k);
    let i = choose|i: int| #[trigger] occurs_at(spec_ttml(ls), ttml_paragraph(l), i);
    lemma_ttml_spans_split(l.words, ts, j);
    let rest = choose|rest: Seq<char>| ttml_spans(l.words, ts) == ttml_spans(l.words.take(j), ts) + ttml_span(
        l.words[j],
        ts,
    ) + rest;
    let sp = ttml_span(l.words[j], ts);
    let po = p_open(ts, ttml_line_end(l));
    let e = Seq::<char>::empty();
    let close = "      </p>\n"@;
    assert(ttml_paragraph(l) =~= po + (ttml_spans(l.words.take(j), ts) + (sp + e) + rest) + close);
    lemma_occurs_nested(po, ttml_spans(l.words.take(j), ts), sp, e, rest, close);
    lemma_occurs_trans(spec_ttml(ls), ttml_paragraph(l), sp, i, (po.len() + ttml_spans(l.words.take(j), ts).len()) as int);
}

/// The times that the TTML writes of a line, each a sum or difference of
/// `i32` values, fit in `i32`.
pub open spec fn line_times_fit(l: LineView) -> bool {
    &&& i32::MIN <= ttml_line_end(l) <= i32::MAX
    &&& forall|j: int|
        0 <= j < l.words.len() ==> i32::MIN <= (#[trigger] l.words[j]).start_ms - l.timestamp_ms
            <= i32::MAX && i32::MIN <= l.words[j].end_ms - l.timestamp_ms <= i32::MAX
}

pub open spec fn ttml_times_fit(ls: Seq<LineView>) -> bool {
    forall|k: int| 0 <= k < ls.len() ==> line_times_fit(#[trigger] ls[k])
}

/// Whether every time that the TTML writes fits in `i32`.
pub fn ttml_times_ok(lines: &[Line]) -> (r: bool)
    ensures
        r == ttml_times_fit(lines_view(lines@)),
{
    let ghost lv = lines_view(lines@);
    let mut i: usize = 0;
    while i < lines.len()
        invariant
            i <= lines.len(),
            lv == lines_view(lines@),
            forall|k: int| 0 <= k < i ==> line_times_fit(#[trigger] lv[k]),
        decreases lines.len() - i,
    {
        let l = &lines[i];
        assert(lv[i as int] == l@);
        let ts = l.timestamp_ms as i64;
        let n = l.words.len();
        let end: i64 = if n > 0 {
            assert(words_view(l.words@).last().end_ms == l.words@[n - 1].end_ms);
            l.words[n - 1].end_ms as i64
        } else {
            ts + (l.singing_duration_ms as i64)
        };
        if end < i32::MIN as i64 || end > i32::MAX as i64 {
            return false;
        }
        let mut j: usize = 0;
        while j < n
            invariant
                j <= n,
                n == l.words.len(),
                ts == l.timestamp_ms,
                i < lines.len(),
                lv == lines_view(lines@),
                lv[i as int] == l@,
                forall|q: int|
                    0 <= q < j ==> i32::MIN <= (#[trigger] l.words@[q]).start_ms - ts <= i32::MAX
                        && i32::MIN <= l.words@[q].end_ms - ts <= i32::MAX,
            decreases n - j,
        {
            let s = (l.words[j].start_ms as i64) - ts;
            let e = (l.words[j].end_ms as i64) - ts;
            if s < i32::MIN as i64 || s > i32::MAX as i64 || e < i32::MIN as i64 || e > i32::MAX as i64 {
                proof {
                    assert(l@.words[j as int] == l.words@[j as int]@);
                    assert(!line_times_fit(lv[i as int]));
                }
                return false;
            }
            j = j + 1;
        }
        proof {
            assert forall|q: int| 0 <= q < l@.words.len() implies i32::MIN <= (#[trigger] l@.words[q]).start_ms
                - l@.timestamp_ms <= i32::MAX && i32::MIN <= l@.words[q].end_ms - l@.timestamp_ms
                <= i32::MAX by {
                assert(l@.words[q] == l.words@[q]@);
            }
        }
        i = i + 1;
    }
    true
}

fn span_chars(w: &WordInfo, ts: i64) -> (r: Vec<char>)
    requires
        i32::MIN <= ts <= i32::MAX,
    ensures
        r@ == ttml_span(w@, ts as int),
{
    let mut p: Vec<char> = Vec::new();
    push_str(&mut p, "        <span begin=\"");
    assert(p@ =~= "        <span begin=\""@);
    push_ttml_time(&mut p, (w.start_ms as i64) - ts);
    push_str(&mut p, "\" end=\"");
    push_ttml_time(&mut p, (w.end_ms as i64) - ts);
    push_str(&mut p, "\">");
    let wc = chars_of(w.word.as_str());
    push_escaped(&mut p, &wc);
    push_str(&mut p, "</span>\n");
    p
}

fn paragraph_chars(line: &Line) -> (r: Vec<char>)
    ensures
        r@ == ttml_paragraph(line@),
{
    let ghost lv = line@;
    let ts = line.timestamp_ms as i64;
    let n = line.words.len();
    let end: i64 = if n > 0 {
        assert(words_view(line.words@).last().end_ms == line.words@[n - 1].end_ms);
        line.words[n - 1].end_ms as i64
    } else {
        ts + (line.singing_duration_ms as i64)
    };
    let mut p: Vec<char> = Vec::new();
    push_str(&mut p, "      <p begin=\"");
    assert(p@ =~= "      <p begin=\""@);
    push_ttml_time(&mut p, ts);
    push_str(&mut p, "\" end=\"");
    push_ttml_time(&mut p, end);
    push_str(&mut p, "\">\n");
    let ghost head = p@;
    let mut spans: Vec<char> = Vec::new();
    let mut i: usize = 0;
    while i < n
        invariant
            i <= n,
            n == line.words.len(),
            lv == line@,
            ts == lv.timestamp_ms,
            spans@ == ttml_spans(lv.words.take(i as int), ts as int),
        decreases n - i,
    {
        let piece = span_chars(&line.words[i], ts);
        assert(lv.words[i as int] == line.words@[i as int]@);
        let ghost before = spans@;
        append_chars(&mut spans, &piece);
        assert(lv.words.take(i + 1).drop_last() =~= lv.words.take(i as int));
        i = i + 1;
    }
    assert(lv.words.take(i as int) =~= lv.words);
    append_chars(&mut p, &spans);
    push_str(&mut p, "      </p>\n");
    p
}

fn header_chars() -> (r: Vec<char>)
    ensures
        r@ == ttml_header(),
{
    let mut out: Vec<char> = Vec::new();
    push_str(&mut out, "<?xml version=\"1.0\" encoding=\"utf-8\"?>\n");
    assert(out@ =~= "<?xml version=\"1.0\" encoding=\"utf-8\"?>\n"@);
    push_str(
        &mut out,
        "<tt xmlns=\"http://www.w3.org/ns/ttml\" xmlns:ttm=\"http://www.w3.org/ns/ttml#metadata\" xmlns:tts=\"http://www.w3.org/ns/ttml#styling\" xml:lang=\"en\">\n",
    );
    push_str(&mut out, "  <head>\n");
    push_str(&mut out, "    <metadata>\n");
    push_str(&mut out, "      <ttm:title>Aligned Lyrics</ttm:title>\n");
    push_str(&mut out, "    </metadata>\n");
    push_str(&mut out, "  </head>\n");
    push_str(&mut out, "  <body>\n");
    push_str(&mut out, "    <div>\n");
    out
}

fn footer_chars() -> (r: Vec<char>)
    ensures
        r@ == ttml_footer(),
{
    let mut out: Vec<char> = Vec::new();
    push_str(&mut out, "    </div>\n");
    assert(out@ =~= "    </div>\n"@);
    push_str(&mut out, "  </body>\n");
    push_str(&mut out, "</tt>\n");
    out
}

/// Formats the aligned lines as Apple Music TTML: one `<p>` per line with
/// absolute times, one `<span>` per word with times from the line's start
/// and its text escaped for XML.
pub fn to_apple_music_ttml(lines: &[Line]) -> (r: String)
    requires
        ttml_times_fit(lines_view(lines@)),
    ensures
        r@ == spec_ttml(lines_view(lines@)),
{
    let ghost lv = lines_view(lines@);
    let mut body: Vec<char> = Vec::new();
    let mut i: usize = 0;
    while i < lines.len()
        invariant
            i <= lines.len(),
            lv == lines_view(lines@),
            body@ == ttml_body(lv.take(i as int)),
        decreases lines.len() - i,
    {
        assert(lv[i as int] == lines@[i as int]@);
        let piece = paragraph_chars(&lines[i]);
        append_chars(&mut body, &piece);
        assert(lv.take(i + 1).drop_last() =~= lv.take(i as int));
        i = i + 1;
    }
    assert(lv.take(i as int) =~= lv);
    let mut out = header_chars();
    append_chars(&mut out, &body);
    let footer = footer_chars();
    append_chars(&mut out, &footer);
    string_of(&out)
}

// ---------------------------------------------------------------------------
// Enhanced LRC
// ---------------------------------------------------------------------------

/// A word as ` <mm:ss.cc>word`, with its absolute start.
pub open spec fn lrc_word(w: WordView) -> Seq<char> {
    " <"@ + spec_lrc_time(w.start_ms as int) + ">"@ + w.word
}

pub open spec fn lrc_words(ws: Seq<WordView>) -> Seq<char>
    decreases ws.len(),
{
    if ws.len() == 0 {
        Seq::empty()
    } else {
        lrc_words(ws.drop_last()) + lrc_word(ws.last())
    }
}

/// A line as `[mm:ss.cc]` and its tagged words, ended by a newline.
pub open spec fn lrc_line(l: LineView) -> Seq<char> {
    "["@ + spec_lrc_time(l.timestamp_ms as int) + "]"@ + lrc_words(l.words) + seq!['\n']
}

pub open spec fn spec_enhanced_lrc(ls: Seq<LineView>) -> Seq<char>
    decreases ls.len(),
{
    if ls.len() == 0 {
        Seq::empty()
    } else {
        spec_enhanced_lrc(ls.drop_last()) + lrc_line(ls.last())
    }
}

/// No newline in `s`.
pub open spec fn no_newline(s: Seq<char>) -> bool {
    forall|i: int| 0 <= i < s.len() ==> #[trigger] s[i] != '\n'
}

proof fn lemma_no_newline_concat(a: Seq<char>, b: Seq<char>)
    requires
        no_newline(a),
        no_newline(b),
    ensures
        no_newline(a + b),
{
    assert forall|i: int| 0 <= i < (a + b).len() implies #[trigger] (a + b)[i] != '\n' by {
        if i < a.len() {
            assert((a + b)[i] == a[i]);
        } else {
            assert((a + b)[i] == b[i - a.len()]);
        }
    }
}

proof fn lemma_digits_no_newline(n: nat)
    ensures
        no_newline(digits(n)),
    decreases n,
{
    if n < 10 {
        assert(digit_char(n as int) != '\n');
    } else {
        lemma_digits_no_newline(n / 10);
        let d = (n % 10) as int;
        assert(digit_char(d) != '\n');
        assert forall|i: int| 0 <= i < digits(n).len() implies #[trigger] digits(n)[i] != '\n' by {
            if i < digits(n / 10).len() {
                assert(digits(n)[i] == digits(n / 10)[i]);
            }
        }
    }
}

proof fn lemma_fmt_int_no_newline(n: int, w: int)
    ensures
        no_newline(fmt_int(n, w)),
{
    let m: nat = if n < 0 {
        (-n) as nat
    } else {
        n as nat
    };
    lemma_digits_no_newline(m);
    let ww = if n < 0 {
        w - 1
    } else {
        w
    };
    let z = zeros(ww - digits(m).len());
    assert(no_newline(z));
    if digits(m).len() < ww {
        lemma_no_newline_concat(z, digits(m));
    }
    if n < 0 {
        assert(no_newline(seq!['-']));
        lemma_no_newline_concat(seq!['-'], pad_zero(digits(m), ww));
    }
}

proof fn lemma_lrc_time_no_newline(ms: int)
    ensures
        no_newline(spec_lrc_time(ms)),
{
    let total = trunc_div(ms, 1000);
    let a = fmt_int(trunc_div(total, 60), 2);
    let b = fmt_int(trunc_rem(total, 60), 2);
    let c = fmt_int(trunc_div(trunc_rem(ms, 1000), 10), 2);
    lemma_fmt_int_no_newline(trunc_div(total, 60), 2);
    lemma_fmt_int_no_newline(trunc_rem(total, 60), 2);
    lemma_fmt_int_no_newline(trunc_div(trunc_rem(ms, 1000), 10), 2);
    assert(no_newline(seq![':']));
    assert(no_newline(seq!['.']));
    lemma_no_newline_concat(a, seq![':']);
    lemma_no_newline_concat(a + seq![':'], b);
    lemma_no_newline_concat(a + seq![':'] + b, seq!['.']);
    lemma_no_newline_concat(a + seq![':'] + b + seq!['.'], c);
}

proof fn lemma_lrc_words_no_newline(ws: Seq<WordView>)
    requires
        forall|j: int| 0 <= j < ws.len() ==> no_newline(#[trigger] ws[j].word),
    ensures
        no_newline(lrc_words(ws)),
    decreases ws.len(),
{
    if ws.len() > 0 {
        lemma_lrc_words_no_newline(ws.drop_last());
        let w = ws.last();
        assert(no_newline(w.word));
        reveal_strlit(" <");
        reveal_strlit(">");
        lemma_lrc_time_no_newline(w.start_ms as int);
        lemma_no_newline_concat(" <"@, spec_lrc_time(w.start_ms as int));
        lemma_no_newline_concat(" <"@ + spec_lrc_time(w.start_ms as int), ">"@);
        lemma_no_newline_concat(" <"@ + spec_lrc_time(w.start_ms as int) + ">"@, w.word);
        lemma_no_newline_concat(lrc_words(ws.drop_last()), lrc_word(w));
    }
}

/// The head of a line in Enhanced LRC: `[mm:ss.cc]` of its timestamp.
pub open spec fn lrc_head(l: LineView) -> Seq<char> {
    "["@ + spec_lrc_time(l.timestamp_ms as int) + "]"@
}

proof fn lemma_enhanced_lrc_concat(ls: Seq<LineView>)
    ensures
        concat_all(Seq::new(ls.len(), |k: int| lrc_line(ls[k]))) == spec_enhanced_lrc(ls),
    decreases ls.len(),
{
    if ls.len() > 0 {
        let d = ls.drop_last();
        lemma_enhanced_lrc_concat(d);
        let p = Seq::new(ls.len(), |k: int| lrc_line(ls[k]));
        assert(p.drop_last() =~= Seq::new(d.len(), |k: int| lrc_line(d[k])));
    }
}

/// Enhanced LRC writes one line per aligned line, in order and none left
/// out: the output is `pieces[0] + pieces[1] + ...`, one piece per line,
/// each starting with `[mm:ss.cc]` of its line's timestamp and ended by its
/// only newline (for words without newlines).
pub proof fn lemma_enhanced_lrc_lines(ls: Seq<LineView>)
    requires
        forall|k: int, j: int|
            0 <= k < ls.len() && 0 <= j < ls[k].words.len() ==> no_newline(#[trigger] ls[k].words[j].word),
    ensures
        exists|pieces: Seq<Seq<char>>|
            pieces.len() == ls.len() && #[trigger] concat_all(pieces) == spec_enhanced_lrc(ls) && forall|k: int|
                0 <= k < pieces.len() ==> (#[trigger] pieces[k]).len() > lrc_head(ls[k]).len() && pieces[k].take(
                    lrc_head(ls[k]).len() as int,
                ) == lrc_head(ls[k]) && pieces[k].last() == '\n' && no_newline(pieces[k].drop_last()),
{
    let pieces = Seq::new(ls.len(), |k: int| lrc_line(ls[k]));
    lemma_enhanced_lrc_concat(ls);
    reveal_strlit("[");
    reveal_strlit("]");
    assert forall|k: int| 0 <= k < pieces.len() implies (#[trigger] pieces[k]).len() > lrc_head(ls[k]).len()
        && pieces[k].take(lrc_head(ls[k]).len() as int) == lrc_head(ls[k]) && pieces[k].last() == '\n'
        && no_newline(pieces[k].drop_last()) by {
        let l = ls[k];
        let h = lrc_head(l);
        let body = h + lrc_words(l.words);
        assert(pieces[k] =~= body + seq!['\n']);
        assert(pieces[k].drop_last() =~= body);
        assert(pieces[k].take(h.len() as int) =~= h);
        assert forall|j: int| 0 <= j < l.words.len() implies no_newline(#[trigger] l.words[j].word) by {
            assert(no_newline(ls[k].words[j].word));
        }
        lemma_lrc_words_no_newline(l.words);
        lemma_lrc_time_no_newline(l.timestamp_ms as int);
        lemma_no_newline_concat("["@, spec_lrc_time(l.timestamp_ms as int));
        lemma_no_newline_concat("["@ + spec_lrc_time(l.timestamp_ms as int), "]"@);
        lemma_no_newline_concat(h, lrc_words(l.words));
    }
}

#[verifier::spinoff_prover]
proof fn lemma_enhanced_lrc_split(ls: Seq<LineView>, k: int)
    requires
        0 <= k < ls.len(),
    ensures
        exists|rest: Seq<char>| spec_enhanced_lrc(ls) == spec_enhanced_lrc(ls.take(k)) + lrc_line(ls[k]) + rest,
    decreases ls.len(),
{
    if k == ls.len() - 1 {
        assert(ls.drop_last() =~= ls.take(k));
        assert(spec_enhanced_lrc(ls) =~= spec_enhanced_lrc(ls.take(k)) + lrc_line(ls[k]) + Seq::<char>::empty());
    } else {
        let d = ls.drop_last();
        lemma_enhanced_lrc_split(d, k);
        assert(d.take(k) =~= ls.take(k));
        assert(d[k] == ls[k]);
        let rest = choose|rest: Seq<char>| spec_enhanced_lrc(d) == spec_enhanced_lrc(d.take(k)) + lrc_line(d[k]) + rest;
        let r2 = rest + lrc_line(ls.last());
        assert(spec_enhanced_lrc(ls) =~= spec_enhanced_lrc(ls.take(k)) + lrc_line(ls[k]) + r2);
    }
}

#[verifier::spinoff_prover]
proof fn lemma_lrc_words_split(ws: Seq<WordView>, j: int)
    requires
        0 <= j < ws.len(),
    ensures
        exists|rest: Seq<char>| lrc_words(ws) == lrc_words(ws.take(j)) + lrc_word(ws[j]) + rest,
    decreases ws.len(),
{
    if j == ws.len() - 1 {
        assert(ws.drop_last() =~= ws.take(j));
        assert(lrc_words(ws) =~= lrc_words(ws.take(j)) + lrc_word(ws[j]) + Seq::<char>::empty());
    } else {
        let d = ws.drop_last();
        lemma_lrc_words_split(d, j);
        assert(d.take(j) =~= ws.take(j));
        assert(d[j] == ws[j]);
        let rest = choose|rest: Seq<char>| lrc_words(d) == lrc_words(d.take(j)) + lrc_word(d[j]) + rest;
        let r2 = rest + lrc_word(ws.last());
        assert(lrc_words(ws) =~= lrc_words(ws.take(j)) + lrc_word(ws[j]) + r2);
    }
}

/// In Enhanced LRC every word of every line is written, as ` <mm:ss.cc>`
/// of its start followed by the word.
pub proof fn lemma_enhanced_lrc_words(ls: Seq<LineView>, k: int, j: int)
    requires
        0 <= k < ls.len(),
        0 <= j < ls[k].words.len(),
    ensures
        exists|i: int|
            #[trigger] occurs_at(
                spec_enhanced_lrc(ls),
                " <"@ + spec_lrc_time(ls[k].words[j].start_ms as int) + ">"@ + ls[k].words[j].word,
                i,
            ),
{
    let l = ls[k];
    lemma_enhanced_lrc_split(ls, k);
    let rest = choose|rest: Seq<char>| spec_enhanced_lrc(ls) == spec_enhanced_lrc(ls.take(k)) + lrc_line(ls[k]) + rest;
    lemma_lrc_words_split(l.words, j);
    let wrest = choose|wrest: Seq<char>| lrc_words(l.words) == lrc_words(l.words.take(j)) + lrc_word(l.words[j])
        + wrest;
    let w = lrc_word(l.words[j]);
    let e = Seq::<char>::empty();
    let head = "["@ + spec_lrc_time(l.timestamp_ms as int) + "]"@;
    let line = lrc_line(l);
    assert(line =~= head + (lrc_words(l.words.take(j)) + (w + e) + wrest) + seq!['\n']);
    lemma_occurs_nested(head, lrc_words(l.words.take(j)), w, e, wrest, seq!['\n']);
    let pre = spec_enhanced_lrc(ls.take(k));
    assert(spec_enhanced_lrc(ls) == pre + (e + (line + e) + rest) + e);
    lemma_occurs_nested(pre, e, line, e, rest, e);
    lemma_occurs_trans(
        spec_enhanced_lrc(ls),
        line,
        w,
        pre.len() as int,
        (head.len() + lrc_words(l.words.take(j)).len()) as int,
    );
}

fn lrc_line_chars(line: &Line) -> (r: Vec<char>)
    ensures
        r@ == lrc_line(line@),
{
    let ghost l = line@;
    let mut p: Vec<char> = Vec::new();
    push_str(&mut p, "[");
    assert(p@ =~= "["@);
    push_lrc_time(&mut p, line.timestamp_ms as i64);
    push_str(&mut p, "]");
    let mut ws: Vec<char> = Vec::new();
    let mut j: usize = 0;
    while j < line.words.len()
        invariant
            j <= line.words.len(),
            l == line@,
            ws@ == lrc_words(l.words.take(j as int)),
        decreases line.words.len() - j,
    {
        let w = &line.words[j];
        assert(l.words[j as int] == w@);
        let mut piece: Vec<char> = Vec::new();
        push_str(&mut piece, " <");
        assert(piece@ =~= " <"@);
        push_lrc_time(&mut piece, w.start_ms as i64);
        push_str(&mut piece, ">");
        push_str(&mut piece, w.word.as_str());
        append_chars(&mut ws, &piece);
        assert(l.words.take(j + 1).drop_last() =~= l.words.take(j as int));
        j = j + 1;
    }
    assert(l.words.take(j as int) =~= l.words);
    append_chars(&mut p, &ws);
    p.push('\n');
    p
}

/// Formats the aligned lines as Enhanced LRC, each word tagged with its
/// absolute start.
pub fn to_enhanced_lrc(lines: &[Line]) -> (r: String)
    ensures
        r@ == spec_enhanced_lrc(lines_view(lines@)),
{
    let ghost lv = lines_view(lines@);
    let mut out: Vec<char> = Vec::new();
    let mut i: usize = 0;
    while i < lines.len()
        invariant
            i <= lines.len(),
            lv == lines_view(lines@),
            out@ == spec_enhanced_lrc(lv.take(i as int)),
        decreases lines.len() - i,
    {
        assert(lv[i as int] == lines@[i as int]@);
        let piece = lrc_line_chars(&lines[i]);
        append_chars(&mut out, &piece);
        assert(lv.take(i + 1).drop_last() =~= lv.take(i as int));
        i = i + 1;
    }
    assert(lv.take(i as int) =~= lv);
    string_of(&out)
}

// ---------------------------------------------------------------------------
// Spotify-style lyrics
// ---------------------------------------------------------------------------

/// A word of Spotify-style lyrics.
pub struct SpotifySyllable {
    pub text: String,
    pub start_time_ms: i32,
    pub end_time_ms: i32,
}

/// A line of Spotify-style lyrics: its start as a decimal string, its
/// text, and its words.
pub struct SpotifyLine {
    pub start_time_ms: String,
    pub words: String,
    pub syllables: Vec<SpotifySyllable>,
}

/// Spotify-style lyrics.
pub struct SpotifyLyrics {
    pub lines: Vec<SpotifyLine>,
}

/// The line that `to_spotify_lyrics` makes of an aligned line, as
/// (start, text, words).
pub open spec fn spotify_line_view(l: LineView) -> (Seq<char>, Seq<char>, Seq<WordView>) {
    (fmt_int(l.timestamp_ms as int, 1), l.text, l.words)
}

pub open spec fn syllables_view(s: Seq<SpotifySyllable>) -> Seq<WordView> {
    s.map_values(|x: SpotifySyllable| WordView { word: x.text@, start_ms: x.start_time_ms, end_ms: x.end_time_ms })
}

pub open spec fn spotify_view(s: SpotifyLine) -> (Seq<char>, Seq<char>, Seq<WordView>) {
    (s.start_time_ms@, s.words@, syllables_view(s.syllables@))
}

/// The Spotify-style lyrics of the aligned lines: per line its start in
/// decimal, its text, and each word with its start and end.
pub fn to_spotify_lyrics(lines: &[Line]) -> (r: SpotifyLyrics)
    ensures
        r.lines@.len() == lines@.len(),
        forall|k: int|
            0 <= k < lines@.len() ==> spotify_view(#[trigger] r.lines@[k]) == spotify_line_view(
                lines@[k]@,
            ),
{
    let mut out: Vec<SpotifyLine> = Vec::new();
    let mut i: usize = 0;
    while i < lines.len()
        invariant
            i <= lines.len(),
            out@.len() == i,
            forall|k: int|
                0 <= k < i ==> spotify_view(#[trigger] out@[k]) == spotify_line_view(lines@[k]@),
        decreases lines.len() - i,
    {
        let line = &lines[i];
        let mut syllables: Vec<SpotifySyllable> = Vec::new();
        let mut j: usize = 0;
        while j < line.words.len()
            invariant
                j <= line.words.len(),
                syllables_view(syllables@) == words_view(line.words@).take(j as int),
            decreases line.words.len() - j,
        {
            let w = &line.words[j];
            let ghost before = syllables@;
            let item = SpotifySyllable {
                text: string_of(&chars_of(w.word.as_str())),
                start_time_ms: w.start_ms,
                end_time_ms: w.end_ms,
            };
            assert(words_view(line.words@)[j as int] == w@);
            syllables.push(item);
            assert(syllables_view(syllables@) =~= syllables_view(before).push(w@));
            assert(syllables_view(syllables@) =~= words_view(line.words@).take(j + 1));
            j = j + 1;
        }
        assert(words_view(line.words@).take(j as int) =~= words_view(line.words@));
        let mut start: Vec<char> = Vec::new();
        push_int(&mut start, line.timestamp_ms as i64, 1);
        assert(start@ =~= fmt_int(line.timestamp_ms as int, 1));
        let sl = SpotifyLine {
            start_time_ms: string_of(&start),
            words: string_of(&chars_of(line.text.as_str())),
            syllables,
        };
        out.push(sl);
        i = i + 1;
    }
    SpotifyLyrics { lines: out }
}

} // verus!
