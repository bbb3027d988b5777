//! Word-level alignment of line-synchronised lyrics (LRC), verified with
//! Verus.
pub mod text;
pub mod ratio;
pub mod sort;
pub mod parser;
pub mod language;
pub mod heuristics;
pub mod lyrics;
pub mod tempo;
pub mod align;
pub mod timeline;
pub mod braces;
pub mod source;
pub mod rate;
pub mod lrc;
pub mod formatters;
pub mod bridge;
pub mod roundtrip;

pub use align::parse_line_to_words;
pub use braces::split_line_if_braced;
pub use lrc::parse_lrc;
pub use lyrics::{Line, ParsedLrcLine, WordInfo};
pub use rate::RateRider;
