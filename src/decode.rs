//! Reading a source map through the `sourcemap` decoder, and rewriting text
//! with regular expressions: relocating source paths, and keys for URLs.
use vstd::prelude::*;
use crate::mapping::{SourceFile, SourceMapData, Token};
use crate::script::{RelocateError, relocate_parts, relocate_rule};

verus! {

#[verifier::external_type_specification]
#[verifier::external_body]
pub struct ExRegex(regex::Regex);

#[verifier::external_type_specification]
#[verifier::external_body]
pub struct ExRegexError(regex::Error);

/// A decoded token: destination line and column, raw source id, source line
/// and column.
pub type RawToken = (u32, u32, u32, u32, u32);

/// A decoded source: its path and its embedded text, where present.
pub type RawSource = (Option<String>, Option<String>);

/// A decoded map: its file, its sources and its tokens.
pub type RawMap = (Option<String>, Vec<RawSource>, Vec<RawToken>);

pub type RawMapView = (Option<Seq<char>>, Seq<(Option<Seq<char>>, Option<Seq<char>>)>, Seq<RawToken>);

pub open spec fn opt_chars(o: Option<String>) -> Option<Seq<char>> {
    match o {
        Some(s) => Some(s@),
        None => None,
    }
}

pub open spec fn raw_map_view(m: RawMap) -> RawMapView {
    (opt_chars(m.0), m.1@.map_values(|s: RawSource| (opt_chars(s.0), opt_chars(s.1))), m.2@)
}

/// What the `sourcemap` decoder reads from the bytes of a regular source map:
/// its file, the path and embedded text of each source, and its tokens in
/// order; none where it refuses the bytes.
pub uninterp spec fn decoded_map(bytes: Seq<u8>) -> Option<RawMapView>;

/// Relies on `sourcemap::SourceMap::from_slice` and the map's getters
/// (`get_file`, `get_source_count`, `get_source`, `get_source_contents`,
/// `tokens` and the token getters): the decoded content, read as plain values.
#[verifier::external_body]
fn decode_raw(bytes: &[u8]) -> (r: Option<RawMap>)
    ensures
        r is Some <==> decoded_map(bytes@) is Some,
        r matches Some(m) ==> raw_map_view(m) == decoded_map(bytes@)->0,
{
    let sm = sourcemap::SourceMap::from_slice(bytes).ok()?;
    let sources = (0..sm.get_source_count()).map(
        |i| (sm.get_source(i).map(String::from), sm.get_source_contents(i).map(String::from)),
    ).collect();
    let tokens = sm.tokens().map(
        |t| (t.get_dst_line(), t.get_dst_col(), t.get_src_id(), t.get_src_line(), t.get_src_col()),
    ).collect();
    Some((sm.get_file().map(String::from), sources, tokens))
}

/// Why a source map could not be read.
#[derive(Clone, Copy, Debug, PartialEq, Eq, Structural)]
pub enum DecodeError {
    /// The decoder refused the bytes.
    Invalid,
}

/// A token of the resolver from a decoded one; the decoder writes
/// `u32::MAX` for a token without source.
pub open spec fn token_of_raw(t: RawToken) -> Token {
    Token {
        dst_line: t.0,
        dst_col: t.1,
        src_id: if t.2 == u32::MAX {
            None
        } else {
            Some(t.2)
        },
        src_line: t.3,
        src_col: t.4,
    }
}

pub open spec fn path_or_empty(o: Option<Seq<char>>) -> Seq<char> {
    match o {
        Some(p) => p,
        None => Seq::empty(),
    }
}

/// `d` holds decoded map `m`: a missing source path read as empty.
pub open spec fn decoded_as(d: SourceMapData, m: RawMapView) -> bool {
    &&& opt_chars(d.file) == m.0
    &&& d.sources@.len() == m.1.len()
    &&& forall|i: int|
        0 <= i < m.1.len() ==> (#[trigger] d.sources@[i]).path@ == path_or_empty(m.1[i].0) && opt_chars(
            d.sources@[i].contents,
        ) == m.1[i].1
    &&& d.tokens@ == m.2.map_values(|t: RawToken| token_of_raw(t))
}

fn copy_opt(o: &Option<String>) -> (r: Option<String>)
    ensures
        opt_chars(r) == opt_chars(*o),
{
    match o {
        Some(s) => Some(s.clone()),
        None => None,
    }
}

/// What the resolver reads of a source map, as the decoder reads it.
pub fn decode_source_map(bytes: &[u8]) -> (r: Result<SourceMapData, DecodeError>)
    ensures
        r is Ok <==> decoded_map(bytes@) is Some,
        r matches Ok(d) ==> decoded_as(d, decoded_map(bytes@)->0),
{
    let m = match decode_raw(bytes) {
        Some(m) => m,
        None => {
            return Err(DecodeError::Invalid);
        },
    };
    let ghost mv = raw_map_view(m);
    let mut tokens: Vec<Token> = Vec::new();
    let mut i: usize = 0;
    while i < m.2.len()
        invariant
            i <= m.2@.len(),
            tokens@ == m.2@.take(i as int).map_values(|t: RawToken| token_of_raw(t)),
        decreases m.2@.len() - i,
    {
        let (dst_line, dst_col, src, src_line, src_col) = m.2[i];
        let src_id = if src == u32::MAX {
            None
        } else {
            Some(src)
        };
        tokens.push(Token { dst_line, dst_col, src_id, src_line, src_col });
        assert(tokens@ =~= m.2@.take(i + 1).map_values(|t: RawToken| token_of_raw(t)));
        i = i + 1;
    }
    assert(m.2@.take(m.2@.len() as int) =~= m.2@);
    let mut sources: Vec<SourceFile> = Vec::new();
    let mut j: usize = 0;
    while j < m.1.len()
        invariant
            j <= m.1@.len(),
            mv == raw_map_view(m),
            sources@.len() == j,
            forall|k: int|
                0 <= k < j ==> (#[trigger] sources@[k]).path@ == path_or_empty(mv.1[k].0) && opt_chars(
                    sources@[k].contents,
                ) == mv.1[k].1,
        decreases m.1@.len() - j,
    {
        let path = match &m.1[j].0 {
            Some(p) => p.clone(),
            None => String::new(),
        };
        let contents = copy_opt(&m.1[j].1);
        sources.push(SourceFile { path, contents });
        j = j + 1;
    }
    let d = SourceMapData { file: copy_opt(&m.0), sources, tokens };
    assert(decoded_as(d, mv));
    Ok(d)
}

/// Whether a regular expression pattern compiles.
pub uninterp spec fn regex_compiles(pattern: Seq<char>) -> bool;

/// `text` with the first match of `pattern` replaced by `replacement`.
pub uninterp spec fn replaced_first(pattern: Seq<char>, text: Seq<char>, replacement: Seq<char>) -> Seq<char>;

/// `text` with every match of `pattern` replaced by `replacement`.
pub uninterp spec fn replaced_all(pattern: Seq<char>, text: Seq<char>, replacement: Seq<char>) -> Seq<char>;

/// A compiled regular expression with the pattern it was compiled from; only
/// `compile_pattern` builds one.
#[derive(Debug)]
pub struct CompiledPattern {
    text: String,
    regex: regex::Regex,
}

impl CompiledPattern {
    pub closed spec fn pattern(&self) -> Seq<char> {
        self.text@
    }

    /// The pattern the expression was compiled from.
    pub fn as_str(&self) -> (r: &str)
        ensures
            r@ == self.pattern(),
    {
        self.text.as_str()
    }
}

/// Relies on `regex::Regex::new`: whether a pattern compiles depends on the
/// pattern alone.
#[verifier::external_body]
fn compile_regex(pattern: &str) -> (r: Result<regex::Regex, regex::Error>)
    ensures
        r is Ok <==> regex_compiles(pattern@),
{
    regex::Regex::new(pattern)
}

/// The compiled pattern, where it compiles.
pub fn compile_pattern(pattern: &str) -> (r: Option<CompiledPattern>)
    ensures
        r is Some <==> regex_compiles(pattern@),
        r matches Some(c) ==> c.pattern() == pattern@,
{
    match compile_regex(pattern) {
        Ok(regex) => Some(CompiledPattern { text: pattern.to_owned(), regex }),
        Err(_) => None,
    }
}

/// Relies on `regex::Regex::replace`: the text with its first match
/// replaced, a function of the pattern, the text and the replacement.
#[verifier::external_body]
fn regex_replace_first(p: &CompiledPattern, text: &str, replacement: &str) -> (r: String)
    ensures
        r@ == replaced_first(p.pattern(), text@, replacement@),
{
    p.regex.replace(text, replacement).to_string()
}

/// Relies on `regex::Regex::replace_all`: the text with every match
/// replaced, a function of the pattern, the text and the replacement.
#[verifier::external_body]
fn regex_replace_all(p: &CompiledPattern, text: &str, replacement: &str) -> (r: String)
    ensures
        r@ == replaced_all(p.pattern(), text@, replacement@),
{
    p.regex.replace_all(text, replacement).to_string()
}

/// Why a relocation rule was refused.
#[derive(Clone, Copy, Debug, PartialEq, Eq, Structural)]
pub enum RuleError {
    /// The rule is empty.
    Empty,
    /// The rule's pattern is not a valid regular expression.
    BadPattern,
}

/// The compiled pattern and the replacement of a relocation rule
/// `<d>pattern<d>replacement<d>`.
pub fn relocate(pattern: &str) -> (r: Result<(CompiledPattern, String), RuleError>)
    ensures
        pattern@.len() == 0 <==> (r matches Err(RuleError::Empty)),
        (r matches Err(RuleError::BadPattern)) <==> pattern@.len() > 0 && !regex_compiles(
            relocate_parts(pattern@).0,
        ),
        r matches Ok((c, b)) ==> c.pattern() == relocate_parts(pattern@).0 && b@ == relocate_parts(
            pattern@,
        ).1,
{
    match relocate_rule(pattern) {
        Err(RelocateError::Empty) => Err(RuleError::Empty),
        Ok((p, b)) => match compile_pattern(p.as_str()) {
            Some(c) => Ok((c, b)),
            None => Err(RuleError::BadPattern),
        },
    }
}

/// The source map with every source path rewritten by the relocation rule
/// (its first match replaced); tokens, file, contents and the order of
/// sources are kept.
pub fn relocate_sources(data: &mut SourceMapData, pattern: &CompiledPattern, replacement: &str)
    ensures
        final(data).tokens@ == old(data).tokens@,
        final(data).file == old(data).file,
        final(data).sources@.len() == old(data).sources@.len(),
        forall|i: int|
            0 <= i < old(data).sources@.len() ==> (#[trigger] final(data).sources@[i]).path@ == replaced_first(
                pattern.pattern(),
                old(data).sources@[i].path@,
                replacement@,
            ) && final(data).sources@[i].contents == old(data).sources@[i].contents,
{
    let ghost before = data.sources@;
    let mut out: Vec<SourceFile> = Vec::new();
    let mut i: usize = 0;
    while i < data.sources.len()
        invariant
            i <= data.sources@.len(),
            data.sources@ == before,
            out@.len() == i,
            forall|k: int|
                0 <= k < i ==> (#[trigger] out@[k]).path@ == replaced_first(
                    pattern.pattern(),
                    before[k].path@,
                    replacement@,
                ) && out@[k].contents == before[k].contents,
        decreases data.sources@.len() - i,
    {
        let path = regex_replace_first(pattern, data.sources[i].path.as_str(), replacement);
        let contents = match &data.sources[i].contents {
            Some(c) => Some(c.clone()),
            None => None,
        };
        assert(contents == before[i as int].contents);
        out.push(SourceFile { path, contents });
        i = i + 1;
    }
    data.sources = out;
}

/// The pattern of runs of non-word characters.
pub const NON_WORD_RUNS: &'static str = "\\W+";

/// A key for a URL that is safe as a file name: every run of non-word
/// characters replaced by `_`.
pub fn url_key(u: &str) -> (r: String)
    ensures
        regex_compiles(NON_WORD_RUNS@) ==> r@ == replaced_all(NON_WORD_RUNS@, u@, "_"@),
        !regex_compiles(NON_WORD_RUNS@) ==> r@ == u@,
{
    match compile_pattern(NON_WORD_RUNS) {
        Some(p) => regex_replace_all(&p, u, "_"),
        None => u.to_owned(),
    }
}

} // verus!
