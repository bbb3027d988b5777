# alignator

A lyric aligner: it takes line-synchronised lyrics (standard or enhanced LRC)
and times every word, using tempo, pause and sustain heuristics, then writes
the result as Apple Music TTML, Enhanced LRC or Spotify-style lyrics.

The library in `src/` is verified with Verus. Tempos and ratios are exact
fractions (`ratio::Ratio`), so every timing rule is stated and proved over
integers.

- `text`, `ratio`, `sort`: characters and strings, exact fractions, stable sorting.
- `parser`: timestamps, word tags, white space, syllables (Latin, kana morae, Hangul).
- `language`: heuristics data, language modes, language detection.
- `heuristics`, `tempo`: the word- and line-level rules (CommaCadence,
  ElasticEnd, StepStrider, SpanSizer, EchoPause, DoubleOomph, WordWarden,
  GapSentry, GapGlide, FlexTrack, EchoEcho).
- `align`: the words of one line; `braces`: backing vocals; `source`: LRC
  lines; `rate`: RateRider; `lrc`: the whole two-pass alignment.
- `formatters`, `bridge`: output formats and the records of mobile bindings.
- `timeline`, `roundtrip`: properties of the results.

Language data: the library builds in English, Japanese and Korean
(`language::get_default_english_heuristics`, `get_japanese_heuristics`,
`get_korean_heuristics`): the Japanese and Korean data are the English data
with the kana and Hangul sound classes that ElasticEnd and BatchimBound
read. Any other language, and its automatic detection by vowels, comes from
a table of languages handed to `language::resolve_heuristics_in`,
`language::detect_language_in` and `lrc::parse_lrc_in`; `app/` builds such a
table from per-language heuristics files (`<language>.json`). With the
built-in data alone, other language modes resolve to English.

Times are computed exactly and kept in `i32`, as the format's times are: an
alignment whose times would leave `i32` is refused (`lrc::try_parse_lrc`
returns `None`, and `lrc::lrc_fits` states exactly when).

`app/` holds the serde records, the WebAssembly and UniFFI exports, and the
loading of heuristics files.
