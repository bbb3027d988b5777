//! The records and entry points that native mobile bindings use.
use vstd::prelude::*;
use crate::formatters::{spec_enhanced_lrc, spec_ttml, ttml_times_fit};
use crate::lrc::{lrc_fits, spec_parse_lrc};
use crate::lyrics::{Line, LineView, WordInfo, WordView, lines_view, opt_view};

verus! {

/// A timed word, as the bindings carry it.
pub struct UdiWordInfo {
    pub word: String,
    pub start_ms: i32,
    pub end_ms: i32,
}

/// An aligned line, as the bindings carry it.
pub struct UdiLine {
    pub timestamp_ms: i32,
    pub text: String,
    pub words: Vec<UdiWordInfo>,
    pub is_right_aligned: bool,
    pub braced_text: Option<String>,
    pub singing_duration_ms: i32,
    pub is_gap_next: bool,
}

pub open spec fn udi_words_view(ws: Seq<UdiWordInfo>) -> Seq<WordView> {
    ws.map_values(|w: UdiWordInfo| WordView { word: w.word@, start_ms: w.start_ms, end_ms: w.end_ms })
}

pub open spec fn udi_line_view(l: UdiLine) -> LineView {
    LineView {
        timestamp_ms: l.timestamp_ms,
        text: l.text@,
        words: udi_words_view(l.words@),
        is_right_aligned: l.is_right_aligned,
        braced_text: opt_view(l.braced_text),
        singing_duration_ms: l.singing_duration_ms,
        is_gap_next: l.is_gap_next,
    }
}

pub open spec fn udi_lines_view(ls: Seq<UdiLine>) -> Seq<LineView> {
    ls.map_values(|l: UdiLine| udi_line_view(l))
}

fn copy_opt(o: &Option<String>) -> (r: Option<String>)
    ensures
        opt_view(r) == opt_view(*o),
{
    match o {
        Some(s) => Some(s.clone()),
        None => None,
    }
}

/// The record of a line.
pub fn udi_line_of(l: &Line) -> (r: UdiLine)
    ensures
        udi_line_view(r) == l@,
{
    let mut words: Vec<UdiWordInfo> = Vec::new();
    let mut j: usize = 0;
    while j < l.words.len()
        invariant
            j <= l.words.len(),
            udi_words_view(words@) == l@.words.take(j as int),
        decreases l.words.len() - j,
    {
        let w = &l.words[j];
        assert(l@.words[j as int] == w@);
        let ghost before = words@;
        let item = UdiWordInfo { word: w.word.clone(), start_ms: w.start_ms, end_ms: w.end_ms };
        words.push(item);
        assert(udi_words_view(words@) =~= udi_words_view(before).push(w@));
        assert(l@.words.take(j + 1) =~= l@.words.take(j as int).push(w@));
        j = j + 1;
    }
    assert(l@.words.take(j as int) =~= l@.words);
    UdiLine {
        timestamp_ms: l.timestamp_ms,
        text: l.text.clone(),
        words,
        is_right_aligned: l.is_right_aligned,
        braced_text: copy_opt(&l.braced_text),
        singing_duration_ms: l.singing_duration_ms,
        is_gap_next: l.is_gap_next,
    }
}

/// The line of a record.
pub fn line_of_udi(u: &UdiLine) -> (r: Line)
    ensures
        r@ == udi_line_view(*u),
{
    let mut words: Vec<WordInfo> = Vec::new();
    let mut j: usize = 0;
    while j < u.words.len()
        invariant
            j <= u.words.len(),
            crate::lyrics::words_view(words@) == udi_words_view(u.words@).take(j as int),
        decreases u.words.len() - j,
    {
        let w = &u.words[j];
        let ghost before = words@;
        let item = WordInfo { word: w.word.clone(), start_ms: w.start_ms, end_ms: w.end_ms };
        let ghost iv = item@;
        words.push(item);
        assert(crate::lyrics::words_view(words@) =~= crate::lyrics::words_view(before).push(iv));
        assert(udi_words_view(u.words@)[j as int] == iv);
        assert(udi_words_view(u.words@).take(j + 1) =~= udi_words_view(u.words@).take(j as int).push(iv));
        j = j + 1;
    }
    assert(udi_words_view(u.words@).take(j as int) =~= udi_words_view(u.words@));
    Line {
        timestamp_ms: u.timestamp_ms,
        text: u.text.clone(),
        words,
        is_right_aligned: u.is_right_aligned,
        braced_text: copy_opt(&u.braced_text),
        singing_duration_ms: u.singing_duration_ms,
        is_gap_next: u.is_gap_next,
    }
}

fn lines_of_udi(lines: &Vec<UdiLine>) -> (r: Vec<Line>)
    ensures
        lines_view(r@) == udi_lines_view(lines@),
{
    let mut out: Vec<Line> = Vec::new();
    let mut i: usize = 0;
    while i < lines.len()
        invariant
            i <= lines.len(),
            lines_view(out@) == udi_lines_view(lines@).take(i as int),
        decreases lines.len() - i,
    {
        let ghost before = out@;
        let item = line_of_udi(&lines[i]);
        let ghost iv = item@;
        out.push(item);
        assert(lines_view(out@) =~= lines_view(before).push(iv));
        assert(udi_lines_view(lines@)[i as int] == iv);
        assert(udi_lines_view(lines@).take(i + 1) =~= udi_lines_view(lines@).take(i as int).push(iv));
        i = i + 1;
    }
    assert(udi_lines_view(lines@).take(i as int) =~= udi_lines_view(lines@));
    out
}

/// Converts aligned lines into records.
fn udi_lines_of(lines: &Vec<Line>) -> (r: Vec<UdiLine>)
    ensures
        udi_lines_view(r@) == lines_view(lines@),
{
    let mut out: Vec<UdiLine> = Vec::new();
    let mut i: usize = 0;
    while i < lines.len()
        invariant
            i <= lines.len(),
            udi_lines_view(out@) == lines_view(lines@).take(i as int),
        decreases lines.len() - i,
    {
        let ghost before = out@;
        let item = udi_line_of(&lines[i]);
        let ghost iv = udi_line_view(item);
        out.push(item);
        assert(udi_lines_view(out@) =~= udi_lines_view(before).push(iv));
        assert(lines_view(lines@)[i as int] == iv);
        assert(lines_view(lines@).take(i + 1) =~= lines_view(lines@).take(i as int).push(iv));
        i = i + 1;
    }
    assert(lines_view(lines@).take(i as int) =~= lines_view(lines@));
    out
}

/// Aligns an LRC source, as `crate::lrc::parse_lrc` does, into records.
pub fn parse_lrc(lrc_text: String, language_mode: String) -> (r: Vec<UdiLine>)
    requires
        lrc_fits(lrc_text@, language_mode@),
    ensures
        udi_lines_view(r@) == spec_parse_lrc(lrc_text@, language_mode@),
{
    let lines = crate::lrc::parse_lrc(lrc_text.as_str(), language_mode.as_str());
    udi_lines_of(&lines)
}

/// `parse_lrc`, or `None` for a source whose times would overflow `i32`.
pub fn try_parse_lrc(lrc_text: String, language_mode: String) -> (r: Option<Vec<UdiLine>>)
    ensures
        r is Some <==> lrc_fits(lrc_text@, language_mode@),
        r matches Some(v) ==> udi_lines_view(v@) == spec_parse_lrc(lrc_text@, language_mode@),
{
    let table = crate::language::embedded_languages();
    if crate::lrc::lrc_fits_check(&table, lrc_text.as_str(), language_mode.as_str()) {
        Some(parse_lrc(lrc_text, language_mode))
    } else {
        None
    }
}

/// Formats records as Apple Music TTML.
pub fn to_apple_music_ttml(lines: Vec<UdiLine>) -> (r: String)
    requires
        ttml_times_fit(udi_lines_view(lines@)),
    ensures
        r@ == spec_ttml(udi_lines_view(lines@)),
{
    let core = lines_of_udi(&lines);
    crate::formatters::to_apple_music_ttml(core.as_slice())
}

/// Formats records as Enhanced LRC.
pub fn to_enhanced_lrc(lines: Vec<UdiLine>) -> (r: String)
    ensures
        r@ == spec_enhanced_lrc(udi_lines_view(lines@)),
{
    let core = lines_of_udi(&lines);
    crate::formatters::to_enhanced_lrc(core.as_slice())
}

} // verus!
