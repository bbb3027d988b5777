//! The aligned lyric types.
use vstd::prelude::*;

verus! {

/// A word with the time span in which it is sung.
#[derive(Debug, Clone, PartialEq, Eq)]
pub struct WordInfo {
    pub word: String,
    pub start_ms: i32,
    pub end_ms: i32,
}

/// An aligned lyric line.
#[derive(Debug, Clone, PartialEq, Eq)]
pub struct Line {
    pub timestamp_ms: i32,
    pub text: String,
    pub words: Vec<WordInfo>,
    pub is_right_aligned: bool,
    pub braced_text: Option<String>,
    pub singing_duration_ms: i32,
    pub is_gap_next: bool,
}

/// One timestamped line of an LRC source.
#[derive(Debug, Clone, PartialEq, Eq)]
pub struct ParsedLrcLine {
    pub timestamp_ms: i32,
    pub text: String,
}

/// The contents of a [`WordInfo`].
pub struct WordView {
    pub word: Seq<char>,
    pub start_ms: i32,
    pub end_ms: i32,
}

/// The contents of a [`Line`].
pub struct LineView {
    pub timestamp_ms: i32,
    pub text: Seq<char>,
    pub words: Seq<WordView>,
    pub is_right_aligned: bool,
    pub braced_text: Option<Seq<char>>,
    pub singing_duration_ms: i32,
    pub is_gap_next: bool,
}

/// The contents of a [`ParsedLrcLine`].
pub struct ParsedLineView {
    pub timestamp_ms: i32,
    pub text: Seq<char>,
}

impl View for WordInfo {
    type V = WordView;

    open spec fn view(&self) -> WordView {
        WordView { word: self.word@, start_ms: self.start_ms, end_ms: self.end_ms }
    }
}

pub open spec fn opt_view(o: Option<String>) -> Option<Seq<char>> {
    match o {
        Some(s) => Some(s@),
        None => None,
    }
}

pub open spec fn words_view(ws: Seq<WordInfo>) -> Seq<WordView> {
    ws.map_values(|w: WordInfo| w@)
}

impl View for Line {
    type V = LineView;

    open spec fn view(&self) -> LineView {
        LineView {
            timestamp_ms: self.timestamp_ms,
            text: self.text@,
            words: words_view(self.words@),
            is_right_aligned: self.is_right_aligned,
            braced_text: opt_view(self.braced_text),
            singing_duration_ms: self.singing_duration_ms,
            is_gap_next: self.is_gap_next,
        }
    }
}

impl View for ParsedLrcLine {
    type V = ParsedLineView;

    open spec fn view(&self) -> ParsedLineView {
        ParsedLineView { timestamp_ms: self.timestamp_ms, text: self.text@ }
    }
}

pub open spec fn lines_view(ls: Seq<Line>) -> Seq<LineView> {
    ls.map_values(|l: Line| l@)
}

pub open spec fn parsed_view(ls: Seq<ParsedLrcLine>) -> Seq<ParsedLineView> {
    ls.map_values(|l: ParsedLrcLine| l@)
}

impl WordInfo {
    /// A copy with the same contents.
    pub fn duplicate(&self) -> (r: WordInfo)
        ensures
            r@ == self@,
    {
        WordInfo { word: self.word.clone(), start_ms: self.start_ms, end_ms: self.end_ms }
    }
}

} // verus!
