//! Per-language heuristic data, language detection and resolution.
use vstd::prelude::*;
use crate::parser::{find_from, has_hangul, has_kana, spec_is_hangul, spec_is_kana, is_batchimbound_syllable, is_moracore_kana};
use crate::text::{
    alphabetic, chars_of, contains_char, copy_range, is_alphabetic, is_ascii_alpha, ascii_alpha,
    lowercase_str, push_char, seq_eq, split_on, split_vec, starts_with, string_of, sviews, trim,
    trim_vec, vec_starts_with, vviews, lemma_split_on_nonempty,
};

verus! {

/// The sound classes that decide how long a line's last word is held.
#[derive(Debug, Clone, PartialEq)]
pub struct ElasticEnd {
    pub diphthongs: Vec<String>,
    pub vowels: Vec<String>,
    pub sonorants: Vec<String>,
    pub special_sonorant_endings: Vec<String>,
}

#[derive(Debug, Clone, PartialEq)]
pub struct Syllables {
    pub vowels: String,
}

/// The heuristic data of one language.
#[derive(Debug, Clone, PartialEq)]
pub struct HeuristicsData {
    pub double_oomph_prefix: String,
    pub elastic_end: ElasticEnd,
    pub syllables: Syllables,
}

/// The contents of a [`HeuristicsData`].
pub struct HeuristicsView {
    pub double_oomph_prefix: Seq<char>,
    pub diphthongs: Seq<Seq<char>>,
    pub vowels: Seq<Seq<char>>,
    pub sonorants: Seq<Seq<char>>,
    pub special_sonorant_endings: Seq<Seq<char>>,
    pub syllable_vowels: Seq<char>,
}

impl View for HeuristicsData {
    type V = HeuristicsView;

    open spec fn view(&self) -> HeuristicsView {
        HeuristicsView {
            double_oomph_prefix: self.double_oomph_prefix@,
            diphthongs: sviews(self.elastic_end.diphthongs@),
            vowels: sviews(self.elastic_end.vowels@),
            sonorants: sviews(self.elastic_end.sonorants@),
            special_sonorant_endings: sviews(self.elastic_end.special_sonorant_endings@),
            syllable_vowels: self.syllables.vowels@,
        }
    }
}

pub fn copy_string(s: &String) -> (r: String)
    ensures
        r@ == s@,
{
    s.clone()
}

pub fn copy_strings(v: &Vec<String>) -> (r: Vec<String>)
    ensures
        sviews(r@) == sviews(v@),
{
    let mut r: Vec<String> = Vec::new();
    let mut i: usize = 0;
    while i < v.len()
        invariant
            i <= v.len(),
            sviews(r@) == sviews(v@.take(i as int)),
        decreases v.len() - i,
    {
        let ghost before = sviews(r@);
        r.push(copy_string(&v[i]));
        assert(sviews(r@) =~= before.push(v@[i as int]@));
        assert(sviews(v@.take(i + 1)) =~= sviews(v@.take(i as int)).push(v@[i as int]@));
        i = i + 1;
    }
    assert(v@.take(i as int) =~= v@);
    r
}

impl HeuristicsData {
    /// A copy with the same contents.
    pub fn duplicate(&self) -> (r: HeuristicsData)
        ensures
            r@ == self@,
    {
        HeuristicsData {
            double_oomph_prefix: copy_string(&self.double_oomph_prefix),
            elastic_end: ElasticEnd {
                diphthongs: copy_strings(&self.elastic_end.diphthongs),
                vowels: copy_strings(&self.elastic_end.vowels),
                sonorants: copy_strings(&self.elastic_end.sonorants),
                special_sonorant_endings: copy_strings(&self.elastic_end.special_sonorant_endings),
            },
            syllables: Syllables { vowels: copy_string(&self.syllables.vowels) },
        }
    }
}

fn str1(a: char) -> (r: String)
    ensures
        r@ == seq![a],
{
    let mut s = String::new();
    push_char(&mut s, a);
    assert(s@ =~= seq![a]);
    s
}

fn str2(a: char, b: char) -> (r: String)
    ensures
        r@ == seq![a, b],
{
    let mut s = String::new();
    push_char(&mut s, a);
    push_char(&mut s, b);
    assert(s@ =~= seq![a, b]);
    s
}

/// The English heuristics.
pub open spec fn default_english_view() -> HeuristicsView {
    HeuristicsView {
        double_oomph_prefix: seq!['o', 'o'],
        diphthongs: seq![
            seq!['e', 'e'],
            seq!['o', 'o'],
            seq!['a', 'a'],
            seq!['o', 'u'],
            seq!['o', 'w'],
            seq!['a', 'y'],
            seq!['e', 'y'],
            seq!['o', 'y'],
            seq!['e', 'a'],
            seq!['a', 'i'],
            seq!['i', 'e'],
            seq!['u', 'e'],
            seq!['u', 'i'],
            seq!['u', 'y'],
        ],
        vowels: seq![seq!['a'], seq!['e'], seq!['i'], seq!['o'], seq!['u'], seq!['y']],
        sonorants: seq![seq!['r'], seq!['l'], seq!['m'], seq!['n']],
        special_sonorant_endings: seq![seq!['n', 'g']],
        syllable_vowels: seq!['a', 'e', 'i', 'o', 'u', 'y', 'A', 'E', 'I', 'O', 'U', 'Y'],
    }
}

/// The English heuristics: `"oo"` as the emphasis prefix, the English
/// diphthongs, vowels and sonorants, and `aeiouy` in both cases as vowels.
pub fn get_default_english_heuristics() -> (r: HeuristicsData)
    ensures
        r@ == default_english_view(),
{
    let diphthongs = vec![
        str2('e', 'e'),
        str2('o', 'o'),
        str2('a', 'a'),
        str2('o', 'u'),
        str2('o', 'w'),
        str2('a', 'y'),
        str2('e', 'y'),
        str2('o', 'y'),
        str2('e', 'a'),
        str2('a', 'i'),
        str2('i', 'e'),
        str2('u', 'e'),
        str2('u', 'i'),
        str2('u', 'y'),
    ];
    let vowels = vec![str1('a'), str1('e'), str1('i'), str1('o'), str1('u'), str1('y')];
    let sonorants = vec![str1('r'), str1('l'), str1('m'), str1('n')];
    let special = vec![str2('n', 'g')];
    let syl_vowels = vec!['a', 'e', 'i', 'o', 'u', 'y', 'A', 'E', 'I', 'O', 'U', 'Y'];
    let r = HeuristicsData {
        double_oomph_prefix: str2('o', 'o'),
        elastic_end: ElasticEnd {
            diphthongs,
            vowels,
            sonorants,
            special_sonorant_endings: special,
        },
        syllables: Syllables { vowels: string_of(&syl_vowels) },
    };
    assert(r@.diphthongs =~= default_english_view().diphthongs);
    assert(r@.vowels =~= default_english_view().vowels);
    assert(r@.sonorants =~= default_english_view().sonorants);
    assert(r@.special_sonorant_endings =~= default_english_view().special_sonorant_endings);
    assert(r@.syllable_vowels =~= default_english_view().syllable_vowels);
    r
}

/// One-character strings, one for each character of `cs`.
pub open spec fn singletons(cs: Seq<char>) -> Seq<Seq<char>> {
    cs.map_values(|c: char| seq![c])
}

fn push_singletons(v: &mut Vec<String>, cs: &Vec<char>)
    ensures
        sviews(final(v)@) == sviews(old(v)@) + singletons(cs@),
{
    let ghost start = sviews(v@);
    let mut i: usize = 0;
    while i < cs.len()
        invariant
            i <= cs.len(),
            sviews(v@) == start + singletons(cs@.take(i as int)),
        decreases cs.len() - i,
    {
        let ghost before = v@;
        v.push(str1(cs[i]));
        assert(sviews(v@) =~= sviews(before).push(seq![cs@[i as int]]));
        assert(singletons(cs@.take(i + 1)) =~= singletons(cs@.take(i as int)).push(seq![cs@[i as int]]));
        i = i + 1;
    }
    assert(cs@.take(i as int) =~= cs@);
}

/// The Hangul vowel nuclei that are diphthongs.
pub open spec fn korean_diphthongs() -> Seq<char> {
    seq!['ㅑ', 'ㅕ', 'ㅛ', 'ㅠ', 'ㅒ', 'ㅖ', 'ㅘ', 'ㅙ', 'ㅚ', 'ㅝ', 'ㅞ', 'ㅟ', 'ㅢ']
}

/// The Hangul vowel nuclei that are monophthongs.
pub open spec fn korean_vowels() -> Seq<char> {
    seq!['ㅏ', 'ㅓ', 'ㅗ', 'ㅜ', 'ㅡ', 'ㅣ', 'ㅐ', 'ㅔ']
}

/// The Korean heuristics: the English ones, with the sound classes that
/// BatchimBound reads added: the diphthong and monophthong vowel nuclei,
/// and the sonorant final consonants `ㄴ`, `ㄹ`, `ㅁ` and the special
/// sonorant ending `ㅇ`.
pub open spec fn korean_view() -> HeuristicsView {
    let en = default_english_view();
    HeuristicsView {
        double_oomph_prefix: en.double_oomph_prefix,
        diphthongs: en.diphthongs + singletons(korean_diphthongs()),
        vowels: en.vowels + singletons(korean_vowels()),
        sonorants: en.sonorants + singletons(seq!['ㄴ', 'ㄹ', 'ㅁ']),
        special_sonorant_endings: en.special_sonorant_endings + singletons(seq!['ㅇ']),
        syllable_vowels: en.syllable_vowels,
    }
}

/// The Korean heuristics (see `korean_view`).
pub fn get_korean_heuristics() -> (r: HeuristicsData)
    ensures
        r@ == korean_view(),
{
    let mut r = get_default_english_heuristics();
    let d = vec!['ㅑ', 'ㅕ', 'ㅛ', 'ㅠ', 'ㅒ', 'ㅖ', 'ㅘ', 'ㅙ', 'ㅚ', 'ㅝ', 'ㅞ', 'ㅟ', 'ㅢ'];
    let v = vec!['ㅏ', 'ㅓ', 'ㅗ', 'ㅜ', 'ㅡ', 'ㅣ', 'ㅐ', 'ㅔ'];
    let so = vec!['ㄴ', 'ㄹ', 'ㅁ'];
    let sp = vec!['ㅇ'];
    assert(d@ =~= korean_diphthongs());
    assert(v@ =~= korean_vowels());
    assert(so@ =~= seq!['ㄴ', 'ㄹ', 'ㅁ']);
    assert(sp@ =~= seq!['ㅇ']);
    push_singletons(&mut r.elastic_end.diphthongs, &d);
    push_singletons(&mut r.elastic_end.vowels, &v);
    push_singletons(&mut r.elastic_end.sonorants, &so);
    push_singletons(&mut r.elastic_end.special_sonorant_endings, &sp);
    r
}

/// The Japanese heuristics: the English ones, with the sound classes that
/// ElasticEnd reads on kana added: the vowel kana `あいうえお` / `アイウエオ`,
/// and the moraic nasal `ん` / `ン` as a sonorant.
pub open spec fn japanese_view() -> HeuristicsView {
    let en = default_english_view();
    HeuristicsView {
        double_oomph_prefix: en.double_oomph_prefix,
        diphthongs: en.diphthongs,
        vowels: en.vowels + singletons(seq!['あ', 'い', 'う', 'え', 'お', 'ア', 'イ', 'ウ', 'エ', 'オ']),
        sonorants: en.sonorants + singletons(seq!['ん', 'ン']),
        special_sonorant_endings: en.special_sonorant_endings,
        syllable_vowels: en.syllable_vowels,
    }
}

/// The Japanese heuristics (see `japanese_view`).
pub fn get_japanese_heuristics() -> (r: HeuristicsData)
    ensures
        r@ == japanese_view(),
{
    let mut r = get_default_english_heuristics();
    let v = vec!['あ', 'い', 'う', 'え', 'お', 'ア', 'イ', 'ウ', 'エ', 'オ'];
    let so = vec!['ん', 'ン'];
    assert(v@ =~= seq!['あ', 'い', 'う', 'え', 'お', 'ア', 'イ', 'ウ', 'エ', 'オ']);
    assert(so@ =~= seq!['ん', 'ン']);
    push_singletons(&mut r.elastic_end.vowels, &v);
    push_singletons(&mut r.elastic_end.sonorants, &so);
    r
}

// ---------------------------------------------------------------------------
// Language names
// ---------------------------------------------------------------------------

/// The canonical name of a language code or name, if it has one.
pub open spec fn language_alias(p: Seq<char>) -> Option<Seq<char>> {
    if p == "eng"@ || p == "english"@ {
        Some("en"@)
    } else if p == "ar"@ {
        Some("arabic"@)
    } else if p == "bn"@ {
        Some("bengali"@)
    } else if p == "fr"@ {
        Some("french"@)
    } else if p == "gu"@ {
        Some("gujarati"@)
    } else if p == "hi"@ {
        Some("hindi"@)
    } else if p == "ja"@ || p == "jp"@ || p == "japanese"@ {
        Some("japanese"@)
    } else if p == "kn"@ {
        Some("kannada"@)
    } else if p == "ko"@ || p == "kr"@ || p == "korean"@ {
        Some("korean"@)
    } else if p == "ml"@ {
        Some("malayalam"@)
    } else if p == "mr"@ {
        Some("marathi_devanagari"@)
    } else if p == "or"@ {
        Some("odia"@)
    } else if p == "pt"@ {
        Some("portuguese"@)
    } else if p == "pa"@ {
        Some("punjabi_gurmukhi"@)
    } else if p == "ru"@ {
        Some("russian"@)
    } else if p == "es"@ {
        Some("spanish"@)
    } else if p == "ta"@ {
        Some("tamil"@)
    } else if p == "te"@ {
        Some("telugu"@)
    } else {
        None
    }
}

fn is_name(p: &Vec<char>, name: &str) -> (r: bool)
    ensures
        r == (p@ == name@),
{
    let n = chars_of(name);
    seq_eq(p, &n)
}

fn language_alias_exec(p: &Vec<char>) -> (r: Option<Vec<char>>)
    ensures
        match r {
            Some(v) => language_alias(p@) == Some(v@),
            None => language_alias(p@) is None,
        },
{
    if is_name(p, "eng") || is_name(p, "english") {
        Some(chars_of("en"))
    } else if is_name(p, "ar") {
        Some(chars_of("arabic"))
    } else if is_name(p, "bn") {
        Some(chars_of("bengali"))
    } else if is_name(p, "fr") {
        Some(chars_of("french"))
    } else if is_name(p, "gu") {
        Some(chars_of("gujarati"))
    } else if is_name(p, "hi") {
        Some(chars_of("hindi"))
    } else if is_name(p, "ja") || is_name(p, "jp") || is_name(p, "japanese") {
        Some(chars_of("japanese"))
    } else if is_name(p, "kn") {
        Some(chars_of("kannada"))
    } else if is_name(p, "ko") || is_name(p, "kr") || is_name(p, "korean") {
        Some(chars_of("korean"))
    } else if is_name(p, "ml") {
        Some(chars_of("malayalam"))
    } else if is_name(p, "mr") {
        Some(chars_of("marathi_devanagari"))
    } else if is_name(p, "or") {
        Some(chars_of("odia"))
    } else if is_name(p, "pt") {
        Some(chars_of("portuguese"))
    } else if is_name(p, "pa") {
        Some(chars_of("punjabi_gurmukhi"))
    } else if is_name(p, "ru") {
        Some(chars_of("russian"))
    } else if is_name(p, "es") {
        Some(chars_of("spanish"))
    } else if is_name(p, "ta") {
        Some(chars_of("tamil"))
    } else if is_name(p, "te") {
        Some(chars_of("telugu"))
    } else {
        None
    }
}

/// Each `from` in `s` replaced by `to`.
pub open spec fn replace_char(s: Seq<char>, from: char, to: char) -> Seq<char> {
    s.map_values(|c: char| if c == from { to } else { c })
}

/// A language mode in canonical form: trimmed, lowercased, `'-'` read as
/// `'_'`, and a known code or name before the first `'_'` replaced by the
/// language's canonical name (the rest kept after an `'_'`).
pub open spec fn spec_normalize_language(lang: Seq<char>) -> Seq<char> {
    let n = replace_char(str_lowercase_of_trim(lang), '-', '_');
    let primary = split_on(n, '_')[0];
    let mapped = match language_alias(primary) {
        Some(m) => m,
        None => n,
    };
    if mapped == n || !n.contains('_') {
        mapped
    } else {
        mapped + seq!['_'] + n.skip(find_from(n, '_', 0) + 1)
    }
}

pub open spec fn str_lowercase_of_trim(lang: Seq<char>) -> Seq<char> {
    crate::text::str_lowercase(trim(lang))
}

pub fn normalize_language_vec(lang: &Vec<char>) -> (r: Vec<char>)
    ensures
        r@ == spec_normalize_language(lang@),
{
    let t = trim_vec(lang);
    let ts = string_of(&t);
    let lower = lowercase_str(ts.as_str());
    let lv = chars_of(lower.as_str());
    let mut n: Vec<char> = Vec::new();
    let mut i: usize = 0;
    while i < lv.len()
        invariant
            i <= lv.len(),
            n@ == replace_char(lv@.take(i as int), '-', '_'),
        decreases lv.len() - i,
    {
        let c = lv[i];
        n.push(if c == '-' {
            '_'
        } else {
            c
        });
        i = i + 1;
        assert(n@ =~= replace_char(lv@.take(i as int), '-', '_'));
    }
    assert(lv@.take(i as int) =~= lv@);
    let ghost ns = n@;
    let pieces = split_vec(&n, '_');
    proof {
        lemma_split_on_nonempty(ns, '_');
    }
    assert(pieces@[0]@ == split_on(ns, '_')[0]);
    let mapped = match language_alias_exec(&pieces[0]) {
        Some(m) => m,
        None => copy_range(&n, 0, n.len()),
    };
    assert(n@.subrange(0, n@.len() as int) =~= n@);
    if seq_eq(&mapped, &n) || !contains_char(&n, '_') {
        return mapped;
    }
    let mut k: usize = 0;
    while k < n.len() && n[k] != '_'
        invariant
            k <= n.len(),
            find_from(ns, '_', 0) == find_from(ns, '_', k as int),
            ns == n@,
            ns.contains('_'),
            forall|q: int| 0 <= q < k ==> ns[q] != '_',
        decreases n.len() - k,
    {
        k = k + 1;
    }
    let mut out = mapped;
    out.push('_');
    let rest = copy_range(&n, k + 1, n.len());
    let ghost before = out@;
    crate::text::append_chars(&mut out, &rest);
    assert(rest@ =~= ns.skip(find_from(ns, '_', 0) + 1));
    out
}

/// A language mode in canonical form (see `spec_normalize_language`).
pub fn normalize_language_mode(lang: &str) -> (r: String)
    ensures
        r@ == spec_normalize_language(lang@),
{
    let v = chars_of(lang);
    let n = normalize_language_vec(&v);
    string_of(&n)
}

// ---------------------------------------------------------------------------
// Heuristics files
// ---------------------------------------------------------------------------

/// Where a `"//"` comment starts in `s`, at or after `j`, or `s.len()`.
pub open spec fn comment_start(s: Seq<char>, j: int) -> int
    decreases s.len() - j,
{
    if j < 0 || j + 1 >= s.len() {
        s.len() as int
    } else if s[j] == '/' && s[j + 1] == '/' {
        j
    } else {
        comment_start(s, j + 1)
    }
}

pub open spec fn strip_comments_upto(lines: Seq<Seq<char>>, k: int) -> Seq<char>
    decreases k,
{
    if k <= 0 {
        Seq::empty()
    } else {
        strip_comments_upto(lines, k - 1) + lines[k - 1].take(comment_start(lines[k - 1], 0)) + seq!['\n']
    }
}

/// A heuristics file without its `//` comments: each line cut before its
/// first `"//"` and ended by a newline.
pub open spec fn spec_strip_comments(content: Seq<char>) -> Seq<char> {
    strip_comments_upto(crate::text::text_lines(content), crate::text::text_lines(content).len() as int)
}

proof fn lemma_comment_start(s: Seq<char>, j: int)
    requires
        0 <= j,
    ensures
        j <= comment_start(s, j) <= s.len() || (j >= s.len() && comment_start(s, j) == s.len()),
    decreases s.len() - j,
{
    if j + 1 < s.len() && !(s[j] == '/' && s[j + 1] == '/') {
        lemma_comment_start(s, j + 1);
    }
}

/// Removes the `//` comments of a heuristics file (JSON with comments),
/// line by line.
pub fn strip_json_comments(content: &str) -> (r: String)
    ensures
        r@ == spec_strip_comments(content@),
{
    let v = chars_of(content);
    let lines = crate::text::lines_vec(&v);
    let ghost ls = crate::text::text_lines(v@);
    let mut out: Vec<char> = Vec::new();
    let mut i: usize = 0;
    while i < lines.len()
        invariant
            i <= lines.len(),
            ls == crate::text::text_lines(v@),
            v@ == content@,
            lines@.len() == ls.len(),
            forall|k: int| 0 <= k < lines@.len() ==> #[trigger] lines@[k]@ == ls[k],
            out@ == strip_comments_upto(ls, i as int),
        decreases lines.len() - i,
    {
        let line = &lines[i];
        assert(line@ == ls[i as int]);
        let mut j: usize = 0;
        while j < line.len() && j + 1 < line.len() && !(line[j] == '/' && line[j + 1] == '/')
            invariant
                j <= line.len(),
                comment_start(line@, 0) == comment_start(line@, j as int),
            decreases line.len() - j,
        {
            j = j + 1;
        }
        let end = if j < line.len() && j + 1 < line.len() {
            j
        } else {
            line.len()
        };
        proof {
            lemma_comment_start(line@, j as int);
        }
        let prefix = copy_range(line, 0, end);
        assert(prefix@ =~= line@.take(comment_start(line@, 0)));
        crate::text::append_chars(&mut out, &prefix);
        out.push('\n');
        i = i + 1;
    }
    string_of(&out)
}

// ---------------------------------------------------------------------------
// Resolving a language's heuristics
// ---------------------------------------------------------------------------

/// A language and its heuristic data.
#[derive(Debug, Clone, PartialEq)]
pub struct LanguageEntry {
    pub name: String,
    pub data: HeuristicsData,
}

pub open spec fn table_view(t: Seq<LanguageEntry>) -> Seq<(Seq<char>, HeuristicsView)> {
    t.map_values(|e: LanguageEntry| (e.name@, e.data@))
}

/// The data of the first entry named `key`: a table may name a language
/// twice, and then its first entry counts.
pub open spec fn table_lookup(t: Seq<(Seq<char>, HeuristicsView)>, key: Seq<char>) -> Option<HeuristicsView>
    decreases t.len(),
{
    if t.len() == 0 {
        None
    } else if t[0].0 == key {
        Some(t[0].1)
    } else {
        table_lookup(t.drop_first(), key)
    }
}

/// The languages in the order in which prefixes and scores are tried.
pub open spec fn language_order() -> Seq<Seq<char>> {
    seq![
        "en"@,
        "arabic"@,
        "bengali"@,
        "french"@,
        "gujarati"@,
        "hindi"@,
        "japanese"@,
        "kannada"@,
        "korean"@,
        "malayalam"@,
        "marathi_devanagari"@,
        "odia"@,
        "portuguese"@,
        "punjabi_gurmukhi"@,
        "russian"@,
        "spanish"@,
        "tamil"@,
        "telugu"@,
    ]
}

pub fn language_order_exec() -> (r: Vec<Vec<char>>)
    ensures
        vviews(r@) == language_order(),
{
    let r = vec![
        chars_of("en"),
        chars_of("arabic"),
        chars_of("bengali"),
        chars_of("french"),
        chars_of("gujarati"),
        chars_of("hindi"),
        chars_of("japanese"),
        chars_of("kannada"),
        chars_of("korean"),
        chars_of("malayalam"),
        chars_of("marathi_devanagari"),
        chars_of("odia"),
        chars_of("portuguese"),
        chars_of("punjabi_gurmukhi"),
        chars_of("russian"),
        chars_of("spanish"),
        chars_of("tamil"),
        chars_of("telugu"),
    ];
    assert(vviews(r@) =~= language_order());
    r
}

/// The first language of `order[i..]` that `lang` starts with and that the
/// table has.
pub open spec fn prefix_match(
    t: Seq<(Seq<char>, HeuristicsView)>,
    lang: Seq<char>,
    order: Seq<Seq<char>>,
    i: int,
) -> Option<HeuristicsView>
    decreases order.len() - i,
{
    if i < 0 || i >= order.len() {
        None
    } else if starts_with(lang, order[i]) && table_lookup(t, order[i]) is Some {
        table_lookup(t, order[i])
    } else {
        prefix_match(t, lang, order, i + 1)
    }
}

/// The data for a language mode: the entry of its canonical name, else the
/// first listed language that the name starts with, else English.
pub open spec fn spec_resolve_in(t: Seq<(Seq<char>, HeuristicsView)>, lang: Seq<char>) -> HeuristicsView {
    let l = spec_normalize_language(lang);
    match table_lookup(t, l) {
        Some(h) => h,
        None => match prefix_match(t, l, language_order(), 0) {
            Some(h) => h,
            None => match table_lookup(t, "en"@) {
                Some(h) => h,
                None => default_english_view(),
            },
        },
    }
}

fn table_lookup_exec(t: &Vec<LanguageEntry>, key: &Vec<char>) -> (r: Option<usize>)
    ensures
        match r {
            Some(i) => i < t@.len() && table_lookup(table_view(t@), key@) == Some(t@[i as int].data@),
            None => table_lookup(table_view(t@), key@) is None,
        },
{
    let mut i: usize = 0;
    assert(table_view(t@).skip(0) =~= table_view(t@));
    while i < t.len()
        invariant
            i <= t.len(),
            table_lookup(table_view(t@), key@) == table_lookup(table_view(t@).skip(i as int), key@),
        decreases t.len() - i,
    {
        let name = chars_of(t[i].name.as_str());
        let ghost rest = table_view(t@).skip(i as int);
        assert(rest[0] == (t@[i as int].name@, t@[i as int].data@));
        assert(rest.drop_first() =~= table_view(t@).skip(i + 1));
        if seq_eq(&name, key) {
            return Some(i);
        }
        i = i + 1;
    }
    assert(table_view(t@).skip(i as int).len() == 0);
    None
}

/// The heuristics for a language mode, from a table of languages (the first
/// entry of a name counts, see `table_lookup`).
pub fn resolve_heuristics_in(table: &Vec<LanguageEntry>, lang: &str) -> (r: HeuristicsData)
    ensures
        r@ == spec_resolve_in(table_view(table@), lang@),
{
    let lv = chars_of(lang);
    let l = normalize_language_vec(&lv);
    match table_lookup_exec(table, &l) {
        Some(i) => {
            return table[i].data.duplicate();
        },
        None => {},
    }
    let order = language_order_exec();
    let mut k: usize = 0;
    while k < order.len()
        invariant
            k <= order.len(),
            vviews(order@) == language_order(),
            l@ == spec_normalize_language(lang@),
            table_lookup(table_view(table@), l@) is None,
            prefix_match(table_view(table@), l@, language_order(), 0) == prefix_match(
                table_view(table@),
                l@,
                language_order(),
                k as int,
            ),
        decreases order.len() - k,
    {
        assert(vviews(order@)[k as int] == order@[k as int]@);
        if vec_starts_with(&l, &order[k]) {
            match table_lookup_exec(table, &order[k]) {
                Some(i) => {
                    assert(prefix_match(table_view(table@), l@, language_order(), k as int)
                        == table_lookup(table_view(table@), order@[k as int]@));
                    return table[i].data.duplicate();
                },
                None => {},
            }
        }
        k = k + 1;
    }
    let en = chars_of("en");
    match table_lookup_exec(table, &en) {
        Some(i) => table[i].data.duplicate(),
        None => get_default_english_heuristics(),
    }
}

/// The language data built into the library: English, Japanese and
/// Korean. Other languages come from a table handed to
/// `resolve_heuristics_in`, `detect_language_in` or `lrc::parse_lrc_in`;
/// without one they resolve to English.
pub open spec fn embedded_languages_view() -> Seq<(Seq<char>, HeuristicsView)> {
    seq![("en"@, default_english_view()), ("japanese"@, japanese_view()), ("korean"@, korean_view())]
}

pub fn embedded_languages() -> (r: Vec<LanguageEntry>)
    ensures
        table_view(r@) == embedded_languages_view(),
{
    let r = vec![
        LanguageEntry { name: named("en"), data: get_default_english_heuristics() },
        LanguageEntry { name: named("japanese"), data: get_japanese_heuristics() },
        LanguageEntry { name: named("korean"), data: get_korean_heuristics() },
    ];
    assert(table_view(r@) =~= embedded_languages_view());
    r
}

/// The heuristics for a language mode (a code, a name or a locale such as
/// `"es-MX"`), from the built-in data (English, Japanese, Korean), falling
/// back to English. `resolve_heuristics_in` resolves with a table of
/// languages.
pub fn resolve_heuristics(lang: &str) -> (r: HeuristicsData)
    ensures
        r@ == spec_resolve_in(embedded_languages_view(), lang@),
{
    let t = embedded_languages();
    resolve_heuristics_in(&t, lang)
}

// ---------------------------------------------------------------------------
// Detecting the language of a text
// ---------------------------------------------------------------------------

/// What one character adds to a language's score: 1 for an ASCII vowel of
/// the language, 10 for any other vowel of it.
pub open spec fn char_score(vowels: Seq<char>, c: char) -> int {
    if vowels.contains(c) {
        if (c as u32) > 127 {
            10
        } else {
            1
        }
    } else {
        0
    }
}

pub open spec fn vowel_score(vowels: Seq<char>, text: Seq<char>) -> int
    decreases text.len(),
{
    if text.len() == 0 {
        0
    } else {
        vowel_score(vowels, text.drop_last()) + char_score(vowels, text.last())
    }
}

/// A language's score for a text, 0 when the table lacks the language.
pub open spec fn lang_score(t: Seq<(Seq<char>, HeuristicsView)>, text: Seq<char>, name: Seq<char>) -> int {
    match table_lookup(t, name) {
        Some(h) => vowel_score(h.syllable_vowels, text),
        None => 0,
    }
}

/// The first of the first `n` listed languages with the highest score above
/// zero, and that score (English and 0 when none scores).
pub open spec fn best_language(t: Seq<(Seq<char>, HeuristicsView)>, text: Seq<char>, n: int) -> (Seq<char>, int)
    decreases n,
{
    if n <= 0 {
        ("en"@, 0)
    } else {
        let (ml, ms) = best_language(t, text, n - 1);
        let sc = lang_score(t, text, language_order()[n - 1]);
        if sc > ms {
            (language_order()[n - 1], sc)
        } else {
            (ml, ms)
        }
    }
}

pub open spec fn has_any_of(text: Seq<char>, set: Seq<char>) -> bool {
    exists|k: int| 0 <= k < text.len() && set.contains(#[trigger] text[k])
}

pub open spec fn has_ascii_alpha(text: Seq<char>) -> bool {
    exists|k: int| 0 <= k < text.len() && is_ascii_alpha(#[trigger] text[k])
}

pub open spec fn has_other_alpha(text: Seq<char>) -> bool {
    exists|k: int| 0 <= k < text.len() && alphabetic(#[trigger] text[k]) && !is_ascii_alpha(text[k])
}

/// The language of a text: Japanese for kana, Korean for Hangul, otherwise
/// the listed language whose vowels score highest, with tie-breaks for
/// Marathi and Hindi, French, Portuguese and Spanish letters, and English
/// for text in ASCII letters only.
pub open spec fn spec_detect_in(t: Seq<(Seq<char>, HeuristicsView)>, text: Seq<char>) -> Seq<char> {
    if text.len() == 0 {
        "en"@
    } else if has_kana(text) {
        "japanese"@
    } else if has_hangul(text) {
        "korean"@
    } else {
        let (max_lang, max_score) = best_language(t, text, 18);
        let his = lang_score(t, text, "hindi"@);
        let mrs = lang_score(t, text, "marathi_devanagari"@);
        if max_score == 0 {
            "en"@
        } else if (his > 0 || mrs > 0) && has_any_of(text, "ॲऑ"@) {
            "marathi_devanagari"@
        } else if his > 0 && mrs > 0 {
            "hindi"@
        } else if has_any_of(text, "èêîôùûœæëïÈÊÎÔÙÛŒÆËÏ"@) {
            "french"@
        } else if has_any_of(text, "ãõàâÃÕÀÂ"@) {
            "portuguese"@
        } else if has_any_of(text, "ñíóúüÑÍÓÚÜ"@) {
            "spanish"@
        } else if has_ascii_alpha(text) && !has_other_alpha(text) {
            "en"@
        } else {
            max_lang
        }
    }
}

proof fn lemma_best_language_ge(t: Seq<(Seq<char>, HeuristicsView)>, text: Seq<char>, n: int, j: int)
    requires
        0 <= j < n,
    ensures
        best_language(t, text, n).1 >= lang_score(t, text, language_order()[j]),
    decreases n,
{
    if j < n - 1 {
        lemma_best_language_ge(t, text, n - 1, j);
    }
}

/// Detection by script: a text with kana is Japanese; one with Hangul and
/// no kana is Korean; the empty text is English.
pub proof fn lemma_detect_by_script(t: Seq<(Seq<char>, HeuristicsView)>, text: Seq<char>)
    ensures
        (exists|k: int| 0 <= k < text.len() && crate::parser::spec_is_kana(#[trigger] text[k])) ==> spec_detect_in(
            t,
            text,
        ) == "japanese"@,
        !(exists|k: int| 0 <= k < text.len() && crate::parser::spec_is_kana(#[trigger] text[k])) && (exists|k: int|
            0 <= k < text.len() && crate::parser::spec_is_hangul(#[trigger] text[k])) ==> spec_detect_in(t, text)
            == "korean"@,
        text.len() == 0 ==> spec_detect_in(t, text) == "en"@,
{
}

/// The letter tie-breaks: for a text without kana or Hangul that scores
/// for some listed language but neither for Hindi nor for Marathi, a French
/// letter makes it French; else a Portuguese letter Portuguese; else a
/// Spanish letter Spanish; else ASCII letters alone make it English.
pub proof fn lemma_detect_by_letters(t: Seq<(Seq<char>, HeuristicsView)>, text: Seq<char>, j: int)
    requires
        !has_kana(text),
        !has_hangul(text),
        0 <= j < 18,
        lang_score(t, text, language_order()[j]) > 0,
        lang_score(t, text, "hindi"@) == 0,
        lang_score(t, text, "marathi_devanagari"@) == 0,
    ensures
        has_any_of(text, "èêîôùûœæëïÈÊÎÔÙÛŒÆËÏ"@) ==> spec_detect_in(t, text) == "french"@,
        !has_any_of(text, "èêîôùûœæëïÈÊÎÔÙÛŒÆËÏ"@) && has_any_of(text, "ãõàâÃÕÀÂ"@) ==> spec_detect_in(t, text)
            == "portuguese"@,
        !has_any_of(text, "èêîôùûœæëïÈÊÎÔÙÛŒÆËÏ"@) && !has_any_of(text, "ãõàâÃÕÀÂ"@) && has_any_of(
            text,
            "ñíóúüÑÍÓÚÜ"@,
        ) ==> spec_detect_in(t, text) == "spanish"@,
        !has_any_of(text, "èêîôùûœæëïÈÊÎÔÙÛŒÆËÏ"@) && !has_any_of(text, "ãõàâÃÕÀÂ"@) && !has_any_of(
            text,
            "ñíóúüÑÍÓÚÜ"@,
        ) && has_ascii_alpha(text) && !has_other_alpha(text) ==> spec_detect_in(t, text) == "en"@,
{
    lemma_best_language_ge(t, text, 18, j);
    if text.len() == 0 {
        assert(vowel_score(table_lookup(t, language_order()[j]).unwrap().syllable_vowels, text) == 0);
    }
}

/// The Devanagari tie-break: a text without kana or Hangul that scores for
/// both Hindi and Marathi is Marathi exactly when it has `ॲ` or `ऑ`, and
/// Hindi otherwise.
pub proof fn lemma_detect_hindi_marathi(t: Seq<(Seq<char>, HeuristicsView)>, text: Seq<char>)
    requires
        !has_kana(text),
        !has_hangul(text),
        lang_score(t, text, "hindi"@) > 0,
        lang_score(t, text, "marathi_devanagari"@) > 0,
    ensures
        (exists|k: int| 0 <= k < text.len() && (text[k] == 'ॲ' || text[k] == 'ऑ')) ==> spec_detect_in(t, text)
            == "marathi_devanagari"@,
        !(exists|k: int| 0 <= k < text.len() && (text[k] == 'ॲ' || text[k] == 'ऑ')) ==> spec_detect_in(t, text)
            == "hindi"@,
{
    reveal_strlit("ॲऑ");
    assert(language_order()[5] == "hindi"@);
    lemma_best_language_ge(t, text, 18, 5);
    if text.len() == 0 {
        assert(vowel_score(table_lookup(t, "hindi"@).unwrap().syllable_vowels, text) == 0);
    }
    let set = "ॲऑ"@;
    if exists|k: int| 0 <= k < text.len() && (text[k] == 'ॲ' || text[k] == 'ऑ') {
        let k = choose|k: int| 0 <= k < text.len() && (text[k] == 'ॲ' || text[k] == 'ऑ');
        assert(set[0] == 'ॲ' && set[1] == 'ऑ');
        assert(set.contains(text[k]));
        assert(has_any_of(text, set));
    } else {
        assert forall|k: int| 0 <= k < text.len() implies !set.contains(#[trigger] text[k]) by {
            if set.contains(text[k]) {
                let i = choose|i: int| 0 <= i < set.len() && set[i] == text[k];
                assert(i == 0 || i == 1);
            }
        }
    }
}

proof fn lemma_vowel_score_bound(vowels: Seq<char>, text: Seq<char>)
    ensures
        0 <= vowel_score(vowels, text) <= 10 * text.len(),
    decreases text.len(),
{
    if text.len() > 0 {
        lemma_vowel_score_bound(vowels, text.drop_last());
    }
}

fn vowel_score_exec(vowels: &Vec<char>, text: &Vec<char>) -> (r: i128)
    ensures
        r == vowel_score(vowels@, text@),
{
    let mut total: i128 = 0;
    let mut i: usize = 0;
    while i < text.len()
        invariant
            i <= text.len(),
            total == vowel_score(vowels@, text@.take(i as int)),
        decreases text.len() - i,
    {
        assert(text@.take(i + 1).drop_last() =~= text@.take(i as int));
        proof {
            lemma_vowel_score_bound(vowels@, text@.take(i as int));
        }
        let c = text[i];
        if contains_char(vowels, c) {
            total = total + if (c as u32) > 127 {
                10
            } else {
                1
            };
        }
        i = i + 1;
    }
    assert(text@.take(i as int) =~= text@);
    total
}

fn lang_score_exec(table: &Vec<LanguageEntry>, text: &Vec<char>, name: &Vec<char>) -> (r: i128)
    ensures
        r == lang_score(table_view(table@), text@, name@),
{
    match table_lookup_exec(table, name) {
        Some(i) => {
            let v = chars_of(table[i].data.syllables.vowels.as_str());
            vowel_score_exec(&v, text)
        },
        None => 0,
    }
}

fn has_any_of_exec(text: &Vec<char>, set: &str) -> (r: bool)
    ensures
        r == has_any_of(text@, set@),
{
    let sv = chars_of(set);
    let mut i: usize = 0;
    while i < text.len()
        invariant
            i <= text.len(),
            sv@ == set@,
            forall|k: int| 0 <= k < i ==> !set@.contains(#[trigger] text@[k]),
        decreases text.len() - i,
    {
        if contains_char(&sv, text[i]) {
            return true;
        }
        i = i + 1;
    }
    false
}

fn any_kana_text(text: &Vec<char>) -> (r: bool)
    ensures
        r == has_kana(text@),
{
    let mut i: usize = 0;
    while i < text.len()
        invariant
            i <= text.len(),
            forall|k: int| 0 <= k < i ==> !spec_is_kana(#[trigger] text@[k]),
        decreases text.len() - i,
    {
        if is_moracore_kana(text[i]) {
            return true;
        }
        i = i + 1;
    }
    false
}

fn any_hangul_text(text: &Vec<char>) -> (r: bool)
    ensures
        r == has_hangul(text@),
{
    let mut i: usize = 0;
    while i < text.len()
        invariant
            i <= text.len(),
            forall|k: int| 0 <= k < i ==> !spec_is_hangul(#[trigger] text@[k]),
        decreases text.len() - i,
    {
        if is_batchimbound_syllable(text[i]) {
            return true;
        }
        i = i + 1;
    }
    false
}

fn latin_only(text: &Vec<char>) -> (r: bool)
    ensures
        r == (has_ascii_alpha(text@) && !has_other_alpha(text@)),
{
    let mut latin = false;
    let mut other = false;
    let mut i: usize = 0;
    while i < text.len()
        invariant
            i <= text.len(),
            latin == (exists|k: int| 0 <= k < i && is_ascii_alpha(#[trigger] text@[k])),
            other == (exists|k: int|
                0 <= k < i && alphabetic(#[trigger] text@[k]) && !is_ascii_alpha(text@[k])),
        decreases text.len() - i,
    {
        let c = text[i];
        let a = ascii_alpha(c);
        if a {
            latin = true;
        }
        if is_alphabetic(c) && !a {
            other = true;
        }
        proof {
            if a {
                assert(is_ascii_alpha(text@[i as int]));
            }
            if !a && alphabetic(c) {
                assert(alphabetic(text@[i as int]) && !is_ascii_alpha(text@[i as int]));
            }
        }
        i = i + 1;
    }
    latin && !other
}

fn named(name: &str) -> (r: String)
    ensures
        r@ == name@,
{
    string_of(&chars_of(name))
}

pub fn detect_language_vec(table: &Vec<LanguageEntry>, text: &Vec<char>) -> (r: String)
    ensures
        r@ == spec_detect_in(table_view(table@), text@),
{
    if text.len() == 0 {
        return named("en");
    }
    if any_kana_text(text) {
        return named("japanese");
    }
    if any_hangul_text(text) {
        return named("korean");
    }
    let order = language_order_exec();
    let mut max_lang: Vec<char> = chars_of("en");
    let mut max_score: i128 = 0;
    let mut i: usize = 0;
    assert(vviews(order@).len() == order@.len());
    assert(language_order().len() == 18);
    while i < order.len()
        invariant
            i <= order.len(),
            order@.len() == 18,
            vviews(order@) == language_order(),
            (max_lang@, max_score as int) == best_language(table_view(table@), text@, i as int),
        decreases order.len() - i,
    {
        assert(vviews(order@)[i as int] == order@[i as int]@);
        let sc = lang_score_exec(table, text, &order[i]);
        if sc > max_score {
            max_score = sc;
            max_lang = copy_range(&order[i], 0, order[i].len());
            assert(max_lang@ =~= order@[i as int]@);
        }
        i = i + 1;
    }
    if max_score == 0 {
        return named("en");
    }
    let his = lang_score_exec(table, text, &chars_of("hindi"));
    let mrs = lang_score_exec(table, text, &chars_of("marathi_devanagari"));
    if (his > 0 || mrs > 0) && has_any_of_exec(text, "ॲऑ") {
        return named("marathi_devanagari");
    }
    if his > 0 && mrs > 0 {
        return named("hindi");
    }
    if has_any_of_exec(text, "èêîôùûœæëïÈÊÎÔÙÛŒÆËÏ") {
        return named("french");
    }
    if has_any_of_exec(text, "ãõàâÃÕÀÂ") {
        return named("portuguese");
    }
    if has_any_of_exec(text, "ñíóúüÑÍÓÚÜ") {
        return named("spanish");
    }
    if latin_only(text) {
        return named("en");
    }
    string_of(&max_lang)
}

/// The language of a text, judged with a table of languages.
pub fn detect_language_in(table: &Vec<LanguageEntry>, text: &str) -> (r: String)
    ensures
        r@ == spec_detect_in(table_view(table@), text@),
{
    let t = chars_of(text);
    detect_language_vec(table, &t)
}

/// The language of a text: `"japanese"` for kana, `"korean"` for Hangul,
/// otherwise judged by the vowels of the built-in languages, which share
/// the English vowels, so `"en"`. `detect_language_in` judges with a table
/// of languages.
pub fn detect_language(text: &str) -> (r: String)
    ensures
        r@ == spec_detect_in(embedded_languages_view(), text@),
{
    let t = embedded_languages();
    detect_language_in(&t, text)
}

} // verus!
