//! The statement boundary resolver: from a decoded source map and the
//! generated code, the generated span and the original span of every token.
use vstd::prelude::*;
use crate::lines::{ints, line_lengths, line_starts, lemma_line_lengths, lemma_line_starts, line_length_table, line_start_table};
use crate::mapping::{ItemView, MappingItem, SourceFile, SourceMapData, Token, views};
use crate::resolve::{resolve_span, resolve_group_span};
use crate::text::{chars_of, chars_eq, contains, contains_exec, extension_of, extension_or_empty, starts_with, starts_with_exec, string_from_chars};

verus! {

/// Why a script's statements could not be resolved.
#[derive(Clone, Copy, Debug, PartialEq, Eq, Structural)]
pub enum LinkError {
    /// The generated code or an embedded source has `u32::MAX` characters or more.
    TextTooLong,
    /// A source that is not excluded has no embedded text.
    MissingContents,
    /// A token points outside the generated code.
    TokenOutOfRange,
    /// The tokens are not in strictly increasing order of generated position.
    TokensOutOfOrder,
    /// A token points to a line its original source does not have.
    LineOutOfRange,
}

/// Sources left out of coverage: bundler internals and dependencies.
pub open spec fn excluded_source(p: Seq<char>) -> bool {
    starts_with(p, "external script "@) || starts_with(p, "webpack:"@) || contains(
        p,
        "node_modules"@,
    )
}

/// Sources reported on: those of a script extension.
pub open spec fn script_path(p: Seq<char>) -> bool {
    let e = extension_or_empty(p);
    e == "js"@ || e == "jsx"@ || e == "ts"@ || e == "tsx"@
}

pub fn is_excluded_source(p: &Vec<char>) -> (r: bool)
    ensures
        r == excluded_source(p@),
{
    starts_with_exec(p, &chars_of("external script ")) || starts_with_exec(p, &chars_of("webpack:"))
        || contains_exec(p, &chars_of("node_modules"))
}

pub fn is_script_path(p: &Vec<char>) -> (r: bool)
    ensures
        r == script_path(p@),
{
    let e = match extension_of(p) {
        Some(e) => e,
        None => Vec::new(),
    };
    assert(e@ == extension_or_empty(p@));
    chars_eq(&e, &chars_of("js")) || chars_eq(&e, &chars_of("jsx")) || chars_eq(&e, &chars_of("ts"))
        || chars_eq(&e, &chars_of("tsx"))
}

/// The path of a token's source; empty where it has none.
pub open spec fn path_of(sources: Seq<SourceFile>, t: Token) -> Seq<char> {
    match t.src_id {
        Some(i) => if (i as int) < sources.len() {
            sources[i as int].path@
        } else {
            Seq::<char>::empty()
        },
        None => Seq::<char>::empty(),
    }
}

pub open spec fn contents_of(f: SourceFile) -> Seq<char> {
    match f.contents {
        Some(c) => c@,
        None => Seq::<char>::empty(),
    }
}

/// The last source before index `n` that is not excluded and has path `p`.
pub open spec fn table_source_before(sources: Seq<SourceFile>, p: Seq<char>, n: int) -> Option<int>
    decreases n,
{
    if n <= 0 {
        None
    } else if !excluded_source(sources[n - 1].path@) && sources[n - 1].path@ == p {
        Some(n - 1)
    } else {
        table_source_before(sources, p, n - 1)
    }
}

/// The source whose text gives the line lengths of path `p`: the last one
/// with that path.
pub open spec fn table_source(sources: Seq<SourceFile>, p: Seq<char>) -> Option<int> {
    table_source_before(sources, p, sources.len() as int)
}

/// The line lengths of the original source at path `p`, if it has any.
pub open spec fn lines_of(sources: Seq<SourceFile>, p: Seq<char>) -> Option<Seq<int>> {
    match table_source(sources, p) {
        Some(j) => Some(line_lengths(contents_of(sources[j]))),
        None => None,
    }
}

/// The flat offset of a token's generated position.
pub open spec fn token_start(text: Seq<char>, t: Token) -> int {
    line_starts(line_lengths(text))[t.dst_line as int] + t.dst_col
}

/// The last generated offset token `k` covers: one before the next token, or
/// the end of its own line for the last token.
pub open spec fn token_end(text: Seq<char>, tokens: Seq<Token>, k: int) -> int {
    if k + 1 < tokens.len() {
        token_start(text, tokens[k + 1]) - 1
    } else {
        line_starts(line_lengths(text))[tokens[k].dst_line + 1] - 1
    }
}

pub open spec fn missing_contents(sources: Seq<SourceFile>) -> bool {
    exists|j: int|
        0 <= j < sources.len() && !excluded_source(sources[j].path@) && (#[trigger] sources[j]).contents
            is None
}

pub open spec fn contents_too_long(sources: Seq<SourceFile>) -> bool {
    exists|j: int|
        0 <= j < sources.len() && !excluded_source(sources[j].path@) && contents_of(
            #[trigger] sources[j],
        ).len() >= u32::MAX
}

pub open spec fn token_in_range(text: Seq<char>, t: Token) -> bool {
    (t.dst_line as int) < line_lengths(text).len() && t.dst_col <= line_lengths(text)[t.dst_line as int]
}

pub open spec fn tokens_in_range(text: Seq<char>, tokens: Seq<Token>) -> bool {
    forall|k: int| 0 <= k < tokens.len() ==> token_in_range(text, #[trigger] tokens[k])
}

pub open spec fn tokens_ordered(text: Seq<char>, tokens: Seq<Token>) -> bool {
    forall|k: int|
        0 <= k < tokens.len() - 1 ==> token_start(text, #[trigger] tokens[k]) < token_start(
            text,
            tokens[k + 1],
        )
}

pub open spec fn kept(sources: Seq<SourceFile>, t: Token) -> bool {
    !excluded_source(path_of(sources, t))
}

pub open spec fn token_line_in_range(sources: Seq<SourceFile>, t: Token) -> bool {
    kept(sources, t) && lines_of(sources, path_of(sources, t)) is Some ==> (t.src_line as int)
        < lines_of(sources, path_of(sources, t))->0.len()
}

pub open spec fn lines_in_range(sources: Seq<SourceFile>, tokens: Seq<Token>) -> bool {
    forall|k: int| 0 <= k < tokens.len() ==> token_line_in_range(sources, #[trigger] tokens[k])
}

/// A sort key: a text and four numbers, ordered lexicographically. The
/// resolver's keys hold a source path, an original line and column, a
/// generated start and a token index.
pub type SortEntry = (Vec<char>, u32, u32, u32, usize);

pub type EntryView = (Seq<char>, u32, u32, u32, usize);

pub open spec fn entry_view(e: SortEntry) -> EntryView {
    (e.0@, e.1, e.2, e.3, e.4)
}

/// Lexicographic order of character sequences, by code point.
pub open spec fn chars_lt(a: Seq<char>, b: Seq<char>) -> bool
    decreases a.len(),
{
    if a.len() == 0 {
        b.len() > 0
    } else if b.len() == 0 {
        false
    } else if a[0] != b[0] {
        (a[0] as u32) < (b[0] as u32)
    } else {
        chars_lt(a.drop_first(), b.drop_first())
    }
}

pub open spec fn entry_lt(a: EntryView, b: EntryView) -> bool {
    chars_lt(a.0, b.0) || (a.0 == b.0 && (a.1 < b.1 || (a.1 == b.1 && (a.2 < b.2 || (a.2 == b.2 && (
    a.3 < b.3 || (a.3 == b.3 && a.4 < b.4)))))))
}

/// Relies on `slice::sort_unstable`: the entries are reordered ascending by
/// the lexicographic order of tuples, in which `Vec<char>` compares
/// lexicographically and `char` by code point.
#[verifier::external_body]
pub(crate) fn sort_entries(v: &mut Vec<SortEntry>)
    ensures
        final(v)@.to_multiset() == old(v)@.to_multiset(),
        forall|i: int, j: int|
            0 <= i < j < final(v)@.len() ==> !entry_lt(entry_view(final(v)@[j]), entry_view(final(v)@[i])),
{
    v.sort_unstable()
}

/// The sort key of token `k`.
pub open spec fn token_entry(text: Seq<char>, sources: Seq<SourceFile>, tokens: Seq<Token>, k: int) -> EntryView {
    (
        path_of(sources, tokens[k]),
        tokens[k].src_line,
        tokens[k].src_col,
        token_start(text, tokens[k]) as u32,
        k as usize,
    )
}

/// `sv` holds the sort key of every kept token once, in ascending order.
pub open spec fn sorted_entries(
    text: Seq<char>,
    sources: Seq<SourceFile>,
    tokens: Seq<Token>,
    sv: Seq<EntryView>,
) -> bool {
    &&& forall|p: int|
        0 <= p < sv.len() ==> {
            &&& 0 <= (#[trigger] sv[p]).4 < tokens.len()
            &&& kept(sources, tokens[sv[p].4 as int])
            &&& sv[p] == token_entry(text, sources, tokens, sv[p].4 as int)
        }
    &&& forall|k: int|
        0 <= k < tokens.len() && kept(sources, #[trigger] tokens[k]) ==> exists|p: int|
            0 <= p < sv.len() && sv[p].4 == k
    &&& forall|p: int, q: int| 0 <= p < q < sv.len() ==> sv[p].4 != sv[q].4
    &&& forall|p: int, q: int| 0 <= p < q < sv.len() ==> !entry_lt(sv[q], sv[p])
}

pub open spec fn same_group(a: EntryView, b: EntryView) -> bool {
    a.0 == b.0 && a.1 == b.1 && a.2 == b.2
}

/// The first position from `q` on whose group differs from that of `p`.
pub open spec fn next_group_from(sv: Seq<EntryView>, p: int, q: int) -> Option<int>
    decreases sv.len() - q,
{
    if q < 0 || q >= sv.len() {
        None
    } else if !same_group(sv[q], sv[p]) {
        Some(q)
    } else {
        next_group_from(sv, p, q + 1)
    }
}

/// The statement of sort key `e`, whose group is followed by the one of
/// key `next`, if any.
pub open spec fn item_of(
    text: Seq<char>,
    sources: Seq<SourceFile>,
    tokens: Seq<Token>,
    e: EntryView,
    next: Option<EntryView>,
) -> ItemView {
    let s = match lines_of(sources, e.0) {
        None => (e.1 as int, e.2 as int, e.1 as int, e.2 as int),
        Some(lens) => resolve_span(
            lens,
            e.1 as int,
            e.2 as int,
            match next {
                Some(n) => Some((n.0 == e.0, n.1 as int, n.2 as int)),
                None => None,
            },
        ),
    };
    ItemView {
        source: e.0,
        gs: e.3 as int,
        ge: token_end(text, tokens, e.4 as int),
        osl: s.0,
        osc: s.1,
        oel: s.2,
        oec: s.3,
        count: 0,
        idx: e.4 as int,
    }
}

pub open spec fn items_of(
    text: Seq<char>,
    sources: Seq<SourceFile>,
    tokens: Seq<Token>,
    sv: Seq<EntryView>,
) -> Seq<ItemView> {
    Seq::new(
        sv.len(),
        |p: int|
            item_of(
                text,
                sources,
                tokens,
                sv[p],
                match next_group_from(sv, p, p + 1) {
                    Some(q) => Some(sv[q]),
                    None => None,
                },
            ),
    )
}

pub open spec fn reported(items: Seq<ItemView>) -> Seq<ItemView> {
    items.filter(|v: ItemView| script_path(v.source))
}

/// Every condition under which the statements of a script can be resolved.
pub open spec fn link_valid(text: Seq<char>, sources: Seq<SourceFile>, tokens: Seq<Token>) -> bool {
    &&& text.len() < u32::MAX
    &&& !missing_contents(sources)
    &&& !contents_too_long(sources)
    &&& tokens_in_range(text, tokens)
    &&& tokens_ordered(text, tokens)
    &&& lines_in_range(sources, tokens)
}

/// The outcome of resolving the statements of generated code `text`.
pub open spec fn link_outcome(
    text: Seq<char>,
    sources: Seq<SourceFile>,
    tokens: Seq<Token>,
    r: Result<Vec<MappingItem>, LinkError>,
) -> bool {
    match r {
        Err(LinkError::TextTooLong) => text.len() >= u32::MAX || (!missing_contents(sources)
            && contents_too_long(sources)),
        Err(LinkError::MissingContents) => text.len() < u32::MAX && missing_contents(sources),
        Err(LinkError::TokenOutOfRange) => text.len() < u32::MAX && !missing_contents(sources)
            && !contents_too_long(sources) && !tokens_in_range(text, tokens),
        Err(LinkError::TokensOutOfOrder) => text.len() < u32::MAX && !missing_contents(sources)
            && !contents_too_long(sources) && tokens_in_range(text, tokens) && !tokens_ordered(
            text,
            tokens,
        ),
        Err(LinkError::LineOutOfRange) => text.len() < u32::MAX && !missing_contents(sources)
            && !contents_too_long(sources) && tokens_in_range(text, tokens) && tokens_ordered(
            text,
            tokens,
        ) && !lines_in_range(sources, tokens),
        Ok(items) => link_valid(text, sources, tokens) && exists|sv: Seq<EntryView>|
            sorted_entries(text, sources, tokens, sv) && views(items@) == reported(
                items_of(text, sources, tokens, sv),
            ),
    }
}

pub proof fn lemma_same_elements<A>(a: Seq<A>, b: Seq<A>)
    requires
        a.to_multiset() == b.to_multiset(),
    ensures
        forall|i: int| 0 <= i < b.len() ==> a.contains(#[trigger] b[i]),
        forall|j: int| 0 <= j < a.len() ==> b.contains(#[trigger] a[j]),
        a.no_duplicates() ==> b.no_duplicates(),
{
    broadcast use vstd::seq_lib::to_multiset_contains;

    assert forall|i: int| 0 <= i < b.len() implies a.contains(#[trigger] b[i]) by {
        assert(b.contains(b[i]));
        assert(b.to_multiset().count(b[i]) > 0);
        assert(a.contains(b[i]));
    }
    assert forall|j: int| 0 <= j < a.len() implies b.contains(#[trigger] a[j]) by {
        assert(a.contains(a[j]));
        assert(a.to_multiset().count(a[j]) > 0);
        assert(b.contains(a[j]));
    }
    if a.no_duplicates() {
        a.lemma_multiset_has_no_duplicates();
        b.lemma_multiset_has_no_duplicates_conv();
    }
}

proof fn lemma_chars_lt_irreflexive(a: Seq<char>)
    ensures
        !chars_lt(a, a),
    decreases a.len(),
{
    if a.len() > 0 {
        lemma_chars_lt_irreflexive(a.drop_first());
    }
}

pub open spec fn table_matches(t: Vec<u32>, f: SourceFile) -> bool {
    ints(t@) == line_lengths(contents_of(f)) && line_lengths(contents_of(f)).len() <= u32::MAX
}

/// The characters of every source path, and whether each is excluded.
fn source_paths(sources: &Vec<SourceFile>) -> (r: (Vec<Vec<char>>, Vec<bool>))
    ensures
        r.0@.len() == sources@.len(),
        r.1@.len() == sources@.len(),
        forall|j: int| 0 <= j < sources@.len() ==> (#[trigger] r.0@[j])@ == sources@[j].path@,
        forall|j: int| 0 <= j < sources@.len() ==> #[trigger] r.1@[j] == excluded_source(sources@[j].path@),
{
    let mut paths: Vec<Vec<char>> = Vec::new();
    let mut excl: Vec<bool> = Vec::new();
    let mut j: usize = 0;
    while j < sources.len()
        invariant
            j <= sources@.len(),
            paths@.len() == j,
            excl@.len() == j,
            forall|i: int| 0 <= i < j ==> (#[trigger] paths@[i])@ == sources@[i].path@,
            forall|i: int| 0 <= i < j ==> #[trigger] excl@[i] == excluded_source(sources@[i].path@),
        decreases sources@.len() - j,
    {
        let p = chars_of(sources[j].path.as_str());
        let x = is_excluded_source(&p);
        paths.push(p);
        excl.push(x);
        j = j + 1;
    }
    (paths, excl)
}

/// The line lengths of every source that is not excluded (empty for the others).
fn source_tables(sources: &Vec<SourceFile>, excl: &Vec<bool>) -> (r: Result<Vec<Vec<u32>>, LinkError>)
    requires
        excl@.len() == sources@.len(),
        forall|j: int| 0 <= j < sources@.len() ==> #[trigger] excl@[j] == excluded_source(sources@[j].path@),
    ensures
        match r {
            Err(LinkError::MissingContents) => missing_contents(sources@),
            Err(LinkError::TextTooLong) => !missing_contents(sources@) && contents_too_long(sources@),
            Err(_) => false,
            Ok(t) => {
                &&& !missing_contents(sources@)
                &&& !contents_too_long(sources@)
                &&& t@.len() == sources@.len()
                &&& forall|j: int|
                    0 <= j < sources@.len() && !excl@[j] ==> table_matches(#[trigger] t@[j], sources@[j])
            },
        },
{
    let mut j: usize = 0;
    while j < sources.len()
        invariant
            j <= sources@.len(),
            excl@.len() == sources@.len(),
            forall|i: int| 0 <= i < sources@.len() ==> #[trigger] excl@[i] == excluded_source(sources@[i].path@),
            forall|i: int| 0 <= i < j ==> !(!excluded_source(sources@[i].path@) && (#[trigger] sources@[i]).contents is None),
        decreases sources@.len() - j,
    {
        if !excl[j] && sources[j].contents.is_none() {
            assert(!excluded_source(sources@[j as int].path@) && sources@[j as int].contents is None);
            return Err(LinkError::MissingContents);
        }
        j = j + 1;
    }
    let mut tables: Vec<Vec<u32>> = Vec::new();
    let mut j: usize = 0;
    while j < sources.len()
        invariant
            j <= sources@.len(),
            !missing_contents(sources@),
            excl@.len() == sources@.len(),
            forall|i: int| 0 <= i < sources@.len() ==> #[trigger] excl@[i] == excluded_source(sources@[i].path@),
            forall|i: int| 0 <= i < j ==> !(!excluded_source(sources@[i].path@) && contents_of(#[trigger] sources@[i]).len() >= u32::MAX),
            tables@.len() == j,
            forall|i: int| 0 <= i < j && !excl@[i] ==> table_matches(#[trigger] tables@[i], sources@[i]),
        decreases sources@.len() - j,
    {
        let ghost old_tables = tables@;
        if excl[j] {
            tables.push(Vec::new());
        } else {
            let c = match &sources[j].contents {
                Some(c) => chars_of(c.as_str()),
                None => Vec::new(),
            };
            assert(c@ == contents_of(sources@[j as int]));
            if c.len() >= u32::MAX as usize {
                assert(!excluded_source(sources@[j as int].path@) && contents_of(sources@[j as int]).len() >= u32::MAX);
                return Err(LinkError::TextTooLong);
            }
            proof {
                lemma_line_lengths(c@);
            }
            let tb = line_length_table(&c);
            assert(ints(tb@) == line_lengths(contents_of(sources@[j as int])));
            tables.push(tb);
            assert(tables@[j as int] == tb);
            assert(line_lengths(contents_of(sources@[j as int])).len() <= u32::MAX);
        }
        j = j + 1;
    }
    Ok(tables)
}

/// The index of the source whose text gives the line lengths of path `p`.
fn table_index(
    paths: &Vec<Vec<char>>,
    excl: &Vec<bool>,
    p: &Vec<char>,
    Ghost(sources): Ghost<Seq<SourceFile>>,
) -> (r: Option<usize>)
    requires
        paths@.len() == sources.len(),
        excl@.len() == sources.len(),
        forall|j: int| 0 <= j < sources.len() ==> (#[trigger] paths@[j])@ == sources[j].path@,
        forall|j: int| 0 <= j < sources.len() ==> #[trigger] excl@[j] == excluded_source(sources[j].path@),
    ensures
        r is None ==> table_source(sources, p@) is None,
        r is Some ==> table_source(sources, p@) == Some(r->0 as int),
{
    let mut n: usize = paths.len();
    while n > 0
        invariant
            n <= sources.len(),
            paths@.len() == sources.len(),
            excl@.len() == sources.len(),
            forall|j: int| 0 <= j < sources.len() ==> (#[trigger] paths@[j])@ == sources[j].path@,
            forall|j: int| 0 <= j < sources.len() ==> #[trigger] excl@[j] == excluded_source(sources[j].path@),
            table_source(sources, p@) == table_source_before(sources, p@, n as int),
        decreases n,
    {
        if !excl[n - 1] && chars_eq(&paths[n - 1], p) {
            return Some(n - 1);
        }
        n = n - 1;
    }
    None
}

/// The flat generated start of every token.
fn token_starts(
    lens: &Vec<u32>,
    starts: &Vec<u32>,
    tokens: &Vec<Token>,
    Ghost(text): Ghost<Seq<char>>,
) -> (r: Result<Vec<u32>, LinkError>)
    requires
        text.len() < u32::MAX,
        ints(lens@) == line_lengths(text),
        ints(starts@) == line_starts(ints(lens@)),
    ensures
        match r {
            Err(LinkError::TokenOutOfRange) => !tokens_in_range(text, tokens@),
            Err(LinkError::TokensOutOfOrder) => tokens_in_range(text, tokens@) && !tokens_ordered(text, tokens@),
            Err(_) => false,
            Ok(v) => {
                &&& tokens_in_range(text, tokens@)
                &&& tokens_ordered(text, tokens@)
                &&& v@.len() == tokens@.len()
                &&& forall|k: int| 0 <= k < tokens@.len() ==> #[trigger] v@[k] as int == token_start(text, tokens@[k])
            },
        },
{
    proof {
        lemma_line_lengths(text);
        lemma_line_starts(line_lengths(text));
    }
    let ghost ls = line_starts(line_lengths(text));
    let mut v: Vec<u32> = Vec::new();
    let mut k: usize = 0;
    while k < tokens.len()
        invariant
            k <= tokens@.len(),
            text.len() < u32::MAX,
            ints(lens@) == line_lengths(text),
            ints(starts@) == ls,
            ls == line_starts(line_lengths(text)),
            ls.len() == lens@.len() + 1,
            ls.last() == text.len() + 1,
            forall|i: int| 0 <= i < lens@.len() ==> #[trigger] ls[i + 1] == ls[i] + lens@[i] + 1,
            forall|a: int, b: int| 0 <= a <= b <= lens@.len() ==> ls[a] <= ls[b],
            v@.len() == k,
            forall|i: int| 0 <= i < k ==> token_in_range(text, #[trigger] tokens@[i]),
            forall|i: int| 0 <= i < k ==> #[trigger] v@[i] as int == token_start(text, tokens@[i]),
        decreases tokens@.len() - k,
    {
        let t = tokens[k];
        if t.dst_line as usize >= lens.len() || t.dst_col > lens[t.dst_line as usize] {
            assert(!token_in_range(text, tokens@[k as int]));
            return Err(LinkError::TokenOutOfRange);
        }
        let li = t.dst_line as usize;
        assert(ls[li + 1] == ls[li as int] + lens@[li as int] + 1);
        assert(ls[li + 1] <= ls[lens@.len() as int]);
        v.push(starts[li] + t.dst_col);
        k = k + 1;
    }
    let mut k: usize = 0;
    while k < v.len() && k + 1 < v.len()
        invariant
            tokens_in_range(text, tokens@),
            v@.len() == tokens@.len(),
            k <= v@.len(),
            forall|i: int| 0 <= i < tokens@.len() ==> #[trigger] v@[i] as int == token_start(text, tokens@[i]),
            forall|i: int| 0 <= i < k && i < tokens@.len() - 1 ==> token_start(text, #[trigger] tokens@[i]) < token_start(text, tokens@[i + 1]),
        decreases v@.len() - k,
    {
        if v[k] >= v[k + 1] {
            assert(v@[k as int] as int == token_start(text, tokens@[k as int]));
            assert(v@[k + 1] as int == token_start(text, tokens@[k + 1]));
            return Err(LinkError::TokensOutOfOrder);
        }
        k = k + 1;
    }
    Ok(v)
}

proof fn lemma_table_source(sources: Seq<SourceFile>, p: Seq<char>, n: int)
    requires
        n <= sources.len(),
    ensures
        table_source_before(sources, p, n) matches Some(j) ==> 0 <= j < n && !excluded_source(
            sources[j].path@,
        ) && sources[j].path@ == p,
    decreases n,
{
    if n > 0 {
        lemma_table_source(sources, p, n - 1);
    }
}

pub open spec fn index_matches(r: Option<usize>, o: Option<int>) -> bool {
    match (r, o) {
        (None, None) => true,
        (Some(a), Some(b)) => a as int == b,
        _ => false,
    }
}

fn copy_chars(v: &Vec<char>) -> (r: Vec<char>)
    ensures
        r@ == v@,
{
    let mut r: Vec<char> = Vec::new();
    let mut i: usize = 0;
    while i < v.len()
        invariant
            i <= v@.len(),
            r@ == v@.subrange(0, i as int),
        decreases v@.len() - i,
    {
        r.push(v[i]);
        i = i + 1;
    }
    assert(r@ =~= v@);
    r
}

/// The facts about the per-source tables that the later steps read.
pub open spec fn tables_ready(
    sources: Seq<SourceFile>,
    paths: Seq<Vec<char>>,
    excl: Seq<bool>,
    tix: Seq<Option<usize>>,
    tix_none: Option<usize>,
    excl_none: bool,
    tables: Seq<Vec<u32>>,
) -> bool {
    &&& paths.len() == sources.len()
    &&& excl.len() == sources.len()
    &&& tix.len() == sources.len()
    &&& tables.len() == sources.len()
    &&& forall|j: int| 0 <= j < sources.len() ==> (#[trigger] paths[j])@ == sources[j].path@
    &&& forall|j: int| 0 <= j < sources.len() ==> #[trigger] excl[j] == excluded_source(sources[j].path@)
    &&& forall|j: int|
        0 <= j < sources.len() ==> index_matches(#[trigger] tix[j], table_source(sources, sources[j].path@))
    &&& index_matches(tix_none, table_source(sources, Seq::<char>::empty()))
    &&& excl_none == excluded_source(Seq::<char>::empty())
    &&& forall|j: int| 0 <= j < sources.len() && !excl[j] ==> table_matches(#[trigger] tables[j], sources[j])
}

/// The table index, exclusion and path of a token's source.
fn token_source(
    paths: &Vec<Vec<char>>,
    excl: &Vec<bool>,
    tix: &Vec<Option<usize>>,
    tix_none: Option<usize>,
    excl_none: bool,
    t: Token,
    Ghost(sources): Ghost<Seq<SourceFile>>,
    Ghost(tables): Ghost<Seq<Vec<u32>>>,
) -> (r: (Vec<char>, bool, Option<usize>))
    requires
        tables_ready(sources, paths@, excl@, tix@, tix_none, excl_none, tables),
    ensures
        r.0@ == path_of(sources, t),
        r.1 == excluded_source(path_of(sources, t)),
        index_matches(r.2, table_source(sources, path_of(sources, t))),
        r.2 matches Some(j) ==> j < sources.len() && !excluded_source(sources[j as int].path@)
            && table_matches(tables[j as int], sources[j as int]) && lines_of(sources, path_of(sources, t))
            == Some(ints(tables[j as int]@)),
{
    let r = match t.src_id {
        Some(i) => if (i as usize) < paths.len() {
            (copy_chars(&paths[i as usize]), excl[i as usize], tix[i as usize])
        } else {
            (Vec::new(), excl_none, tix_none)
        },
        None => (Vec::new(), excl_none, tix_none),
    };
    proof {
        assert(r.0@ =~= path_of(sources, t));
        lemma_table_source(sources, path_of(sources, t), sources.len() as int);
    }
    r
}

/// The sort key of every kept token, in token order.
fn build_entries(
    paths: &Vec<Vec<char>>,
    excl: &Vec<bool>,
    tix: &Vec<Option<usize>>,
    tix_none: Option<usize>,
    excl_none: bool,
    tables: &Vec<Vec<u32>>,
    tstarts: &Vec<u32>,
    tokens: &Vec<Token>,
    Ghost(text): Ghost<Seq<char>>,
    Ghost(sources): Ghost<Seq<SourceFile>>,
) -> (r: Result<Vec<SortEntry>, LinkError>)
    requires
        tables_ready(sources, paths@, excl@, tix@, tix_none, excl_none, tables@),
        tstarts@.len() == tokens@.len(),
        forall|k: int| 0 <= k < tokens@.len() ==> #[trigger] tstarts@[k] as int == token_start(text, tokens@[k]),
    ensures
        r is Err ==> r == Err::<Vec<SortEntry>, LinkError>(LinkError::LineOutOfRange) && !lines_in_range(sources, tokens@),
        r matches Ok(es) ==> lines_in_range(sources, tokens@),
        r matches Ok(es) ==> forall|p: int|
                0 <= p < es@.len() ==> {
                    &&& 0 <= (#[trigger] es@[p]).4 < tokens@.len()
                    &&& kept(sources, tokens@[es@[p].4 as int])
                    &&& entry_view(es@[p]) == token_entry(text, sources, tokens@, es@[p].4 as int)
                },
        r matches Ok(es) ==> forall|k: int|
                0 <= k < tokens@.len() && kept(sources, #[trigger] tokens@[k]) ==> exists|p: int|
                    0 <= p < es@.len() && (#[trigger] es@[p]).4 == k,
        r matches Ok(es) ==> forall|p: int, q: int| 0 <= p < q < es@.len() ==> es@[p].4 < es@[q].4,
{
    let mut v: Vec<SortEntry> = Vec::new();
    let mut k: usize = 0;
    while k < tokens.len()
        invariant
            k <= tokens@.len(),
            tables_ready(sources, paths@, excl@, tix@, tix_none, excl_none, tables@),
            tstarts@.len() == tokens@.len(),
            forall|i: int| 0 <= i < tokens@.len() ==> #[trigger] tstarts@[i] as int == token_start(text, tokens@[i]),
            forall|i: int| 0 <= i < k ==> token_line_in_range(sources, #[trigger] tokens@[i]),
            forall|p: int|
                0 <= p < v@.len() ==> {
                    &&& 0 <= (#[trigger] v@[p]).4 < k
                    &&& kept(sources, tokens@[v@[p].4 as int])
                    &&& entry_view(v@[p]) == token_entry(text, sources, tokens@, v@[p].4 as int)
                },
            forall|i: int|
                0 <= i < k && kept(sources, #[trigger] tokens@[i]) ==> exists|p: int|
                    0 <= p < v@.len() && v@[p].4 == i,
            forall|p: int, q: int| 0 <= p < q < v@.len() ==> v@[p].4 < v@[q].4,
        decreases tokens@.len() - k,
    {
        let t = tokens[k];
        let (path, ex, ti) = token_source(paths, excl, tix, tix_none, excl_none, t, Ghost(sources), Ghost(tables@));
        if !ex {
            match ti {
                Some(j) => {
                    if t.src_line as usize >= tables[j].len() {
                        assert(!token_line_in_range(sources, tokens@[k as int]));
                        return Err(LinkError::LineOutOfRange);
                    }
                },
                None => {},
            }
            let ghost before = v@;
            v.push((path, t.src_line, t.src_col, tstarts[k], k));
            assert(v@[v@.len() - 1].4 == k);
            assert forall|i: int|
                0 <= i < k + 1 && kept(sources, #[trigger] tokens@[i]) implies exists|p: int|
                    0 <= p < v@.len() && v@[p].4 == i by {
                if i < k {
                    let p = choose|p: int| 0 <= p < before.len() && before[p].4 == i;
                    assert(v@[p] == before[p]);
                } else {
                    assert(v@[v@.len() - 1].4 == i);
                }
            }
        }
        k = k + 1;
    }
    let ghost vv = v@;
    let res: Result<Vec<SortEntry>, LinkError> = Ok(v);
    assert(res->Ok_0@ == vv);
    res
}

/// The statement of sort key `e`, given the next group's key, the line
/// lengths of `e`'s source and the end of `e`'s generated span.
fn make_item(
    e: &SortEntry,
    next: Option<&SortEntry>,
    table: Option<&Vec<u32>>,
    ge: u32,
    Ghost(text): Ghost<Seq<char>>,
    Ghost(sources): Ghost<Seq<SourceFile>>,
    Ghost(tokens): Ghost<Seq<Token>>,
) -> (r: MappingItem)
    requires
        ge as int == token_end(text, tokens, e.4 as int),
        match table {
            None => lines_of(sources, e.0@) is None,
            Some(t) => {
                &&& lines_of(sources, e.0@) == Some(ints(t@))
                &&& t@.len() <= u32::MAX
                &&& (e.1 as int) < t@.len()
                &&& next matches Some(n) ==> (n.0@ == e.0@ ==> (n.1 as int) < t@.len() && e.1 <= n.1 && (n.1
                    == e.1 ==> e.2 < n.2))
            },
        },
    ensures
        r@ == item_of(
            text,
            sources,
            tokens,
            entry_view(*e),
            match next {
                Some(n) => Some(entry_view(*n)),
                None => None,
            },
        ),
{
    let s = match table {
        None => (e.1, e.2, e.1, e.2),
        Some(t) => {
            let n = match next {
                Some(n) => Some((chars_eq(&n.0, &e.0), n.1, n.2)),
                None => None,
            };
            resolve_group_span(t, e.1, e.2, n)
        },
    };
    MappingItem {
        source: string_from_chars(&e.0),
        generated_column: e.3,
        last_generated_column: ge,
        original_line: s.0,
        original_column: s.1,
        last_original_line: s.2,
        last_original_column: s.3,
        count: 0,
        idx: e.4,
    }
}

pub open spec fn entry_views(v: Seq<SortEntry>) -> Seq<EntryView> {
    v.map_values(|e: SortEntry| entry_view(e))
}

proof fn lemma_sorted_entries(
    text: Seq<char>,
    sources: Seq<SourceFile>,
    tokens: Seq<Token>,
    orig: Seq<SortEntry>,
    sorted: Seq<SortEntry>,
)
    requires
        orig.to_multiset() == sorted.to_multiset(),
        forall|i: int, j: int| 0 <= i < j < sorted.len() ==> !entry_lt(entry_view(sorted[j]), entry_view(sorted[i])),
        forall|p: int|
            0 <= p < orig.len() ==> {
                &&& 0 <= (#[trigger] orig[p]).4 < tokens.len()
                &&& kept(sources, tokens[orig[p].4 as int])
                &&& entry_view(orig[p]) == token_entry(text, sources, tokens, orig[p].4 as int)
            },
        forall|k: int|
            0 <= k < tokens.len() && kept(sources, #[trigger] tokens[k]) ==> exists|p: int|
                0 <= p < orig.len() && (#[trigger] orig[p]).4 == k,
        forall|p: int, q: int| 0 <= p < q < orig.len() ==> orig[p].4 < orig[q].4,
    ensures
        sorted_entries(text, sources, tokens, entry_views(sorted)),
{
    let sv = entry_views(sorted);
    assert(orig.no_duplicates()) by {
        assert forall|i: int, j: int| 0 <= i < orig.len() && 0 <= j < orig.len() && i != j implies orig[i]
            != orig[j] by {
            if i < j {
                assert(orig[i].4 < orig[j].4);
            } else {
                assert(orig[j].4 < orig[i].4);
            }
        }
    }
    lemma_same_elements(orig, sorted);
    assert forall|p: int| 0 <= p < sv.len() implies {
        &&& 0 <= (#[trigger] sv[p]).4 < tokens.len()
        &&& kept(sources, tokens[sv[p].4 as int])
        &&& sv[p] == token_entry(text, sources, tokens, sv[p].4 as int)
    } by {
        assert(orig.contains(sorted[p]));
        let j = choose|j: int| 0 <= j < orig.len() && orig[j] == sorted[p];
        assert(orig[j] == sorted[p]);
    }
    assert forall|k: int| 0 <= k < tokens.len() && kept(sources, #[trigger] tokens[k]) implies exists|p: int|
        0 <= p < sv.len() && sv[p].4 == k by {
        let j = choose|j: int| 0 <= j < orig.len() && (#[trigger] orig[j]).4 == k;
        assert(sorted.contains(orig[j]));
        let p = choose|p: int| 0 <= p < sorted.len() && sorted[p] == orig[j];
        assert(sv[p].4 == k);
    }
    assert forall|p: int, q: int| 0 <= p < q < sv.len() implies sv[p].4 != sv[q].4 by {
        assert(orig.contains(sorted[p]));
        assert(orig.contains(sorted[q]));
        let a = choose|a: int| 0 <= a < orig.len() && orig[a] == sorted[p];
        let b = choose|b: int| 0 <= b < orig.len() && orig[b] == sorted[q];
        if sv[p].4 == sv[q].4 {
            if a < b {
                assert(orig[a].4 < orig[b].4);
            } else if b < a {
                assert(orig[b].4 < orig[a].4);
            } else {
                assert(sorted[p] == sorted[q]);
            }
        }
    }
    assert forall|p: int, q: int| 0 <= p < q < sv.len() implies !entry_lt(sv[q], sv[p]) by {
        assert(!entry_lt(entry_view(sorted[q]), entry_view(sorted[p])));
    }
}

proof fn lemma_next_group(sv: Seq<EntryView>, p: int, q: int, g: int, e: int)
    requires
        0 <= g <= p < q <= e <= sv.len(),
        forall|x: int| g <= x < e ==> same_group(#[trigger] sv[x], sv[g]),
        e < sv.len() ==> !same_group(sv[e], sv[g]),
    ensures
        next_group_from(sv, p, q) == if e < sv.len() {
            Some(e)
        } else {
            None
        },
    decreases e - q,
{
    assert(same_group(sv[p], sv[g]));
    if q < e {
        assert(same_group(sv[q], sv[g]));
        lemma_next_group(sv, p, q + 1, g, e);
    }
}

fn same_group_exec(a: &SortEntry, b: &SortEntry) -> (r: bool)
    ensures
        r == same_group(entry_view(*a), entry_view(*b)),
{
    chars_eq(&a.0, &b.0) && a.1 == b.1 && a.2 == b.2
}

/// The statements of the sorted keys whose source is a script file.
fn emit_items(
    entries: &Vec<SortEntry>,
    paths: &Vec<Vec<char>>,
    excl: &Vec<bool>,
    tix: &Vec<Option<usize>>,
    tix_none: Option<usize>,
    excl_none: bool,
    tables: &Vec<Vec<u32>>,
    tstarts: &Vec<u32>,
    gen_starts: &Vec<u32>,
    tokens: &Vec<Token>,
    Ghost(text): Ghost<Seq<char>>,
    Ghost(sources): Ghost<Seq<SourceFile>>,
) -> (out: Vec<MappingItem>)
    requires
        tables_ready(sources, paths@, excl@, tix@, tix_none, excl_none, tables@),
        sorted_entries(text, sources, tokens@, entry_views(entries@)),
        link_valid(text, sources, tokens@),
        tstarts@.len() == tokens@.len(),
        forall|k: int| 0 <= k < tokens@.len() ==> #[trigger] tstarts@[k] as int == token_start(text, tokens@[k]),
        ints(gen_starts@) == line_starts(line_lengths(text)),
    ensures
        views(out@) == reported(items_of(text, sources, tokens@, entry_views(entries@))),
{
    let ghost sv = entry_views(entries@);
    let ghost all = items_of(text, sources, tokens@, sv);
    let ghost pred = |v: ItemView| script_path(v.source);
    proof {
        lemma_line_lengths(text);
        lemma_line_starts(line_lengths(text));
    }
    let m = entries.len();
    let mut out: Vec<MappingItem> = Vec::new();
    let mut g: usize = 0;
    assert(all.take(0).filter(pred) =~= Seq::<ItemView>::empty());
    assert(views(out@) =~= Seq::<ItemView>::empty());
    while g < m
        invariant
            m == entries@.len(),
            g <= m,
            sv == entry_views(entries@),
            all == items_of(text, sources, tokens@, sv),
            pred == (|v: ItemView| script_path(v.source)),
            tables_ready(sources, paths@, excl@, tix@, tix_none, excl_none, tables@),
            sorted_entries(text, sources, tokens@, sv),
            link_valid(text, sources, tokens@),
            tstarts@.len() == tokens@.len(),
            forall|k: int| 0 <= k < tokens@.len() ==> #[trigger] tstarts@[k] as int == token_start(text, tokens@[k]),
            ints(gen_starts@) == line_starts(line_lengths(text)),
            gen_starts@.len() == line_lengths(text).len() + 1,
            forall|i: int| 0 <= i < line_lengths(text).len() ==> #[trigger] line_starts(line_lengths(text))[i + 1]
                == line_starts(line_lengths(text))[i] + line_lengths(text)[i] + 1,
            forall|i: int| 0 <= i < line_lengths(text).len() ==> 0 <= #[trigger] line_lengths(text)[i],
            line_starts(line_lengths(text))[0] == 0,
            views(out@) == all.take(g as int).filter(pred),
        decreases m - g,
    {
        let mut e: usize = g + 1;
        while e < m && same_group_exec(&entries[e], &entries[g])
            invariant
                m == entries@.len(),
                sv == entry_views(entries@),
                g < e <= m,
                forall|x: int| g <= x < e ==> same_group(#[trigger] sv[x], sv[g as int]),
            decreases m - e,
        {
            e = e + 1;
        }
        let mut p: usize = g;
        while p < e
            invariant
                m == entries@.len(),
                g <= p <= e <= m,
                forall|x: int| g <= x < e ==> same_group(#[trigger] sv[x], sv[g as int]),
                e < m ==> !same_group(sv[e as int], sv[g as int]),
                sv == entry_views(entries@),
                all == items_of(text, sources, tokens@, sv),
                pred == (|v: ItemView| script_path(v.source)),
                tables_ready(sources, paths@, excl@, tix@, tix_none, excl_none, tables@),
                sorted_entries(text, sources, tokens@, sv),
                link_valid(text, sources, tokens@),
                tstarts@.len() == tokens@.len(),
                forall|k: int| 0 <= k < tokens@.len() ==> #[trigger] tstarts@[k] as int == token_start(text, tokens@[k]),
                ints(gen_starts@) == line_starts(line_lengths(text)),
                gen_starts@.len() == line_lengths(text).len() + 1,
                forall|i: int| 0 <= i < line_lengths(text).len() ==> #[trigger] line_starts(line_lengths(text))[i + 1]
                    == line_starts(line_lengths(text))[i] + line_lengths(text)[i] + 1,
                forall|i: int| 0 <= i < line_lengths(text).len() ==> 0 <= #[trigger] line_lengths(text)[i],
                line_starts(line_lengths(text))[0] == 0,
                views(out@) == all.take(p as int).filter(pred),
            decreases e - p,
        {
            let ent = &entries[p];
            let k = ent.4;
            assert(sv[p as int] == entry_view(entries@[p as int]));
            assert(0 <= sv[p as int].4 < tokens@.len());
            assert(k as int == sv[p as int].4);
            let t = tokens[k];
            assert(t == tokens@[k as int]);
            let n_tokens = tokens.len();
            let ge: u32 = if k + 1 < n_tokens {
                assert(token_start(text, tokens@[k as int]) < token_start(text, tokens@[k + 1]));
                assert(tstarts@[k as int] as int == token_start(text, tokens@[k as int]));
                assert(tstarts@[k + 1] as int == token_start(text, tokens@[k + 1]));
                tstarts[k + 1] - 1
            } else {
                assert(token_in_range(text, tokens@[k as int]));
                assert((t.dst_line as int) < line_lengths(text).len());
                let li = t.dst_line as usize;
                let gl = gen_starts.len();
                assert(li + 1 < gl);
                assert(line_starts(line_lengths(text))[li + 1] == line_starts(line_lengths(text))[li as int]
                    + line_lengths(text)[li as int] + 1);
                gen_starts[li + 1] - 1
            };
            let (_, _, ti) = token_source(paths, excl, tix, tix_none, excl_none, t, Ghost(sources), Ghost(tables@));
            let table: Option<&Vec<u32>> = match ti {
                Some(j) => Some(&tables[j]),
                None => None,
            };
            let next: Option<&SortEntry> = if e < m {
                Some(&entries[e])
            } else {
                None
            };
            proof {
                lemma_next_group(sv, p as int, p + 1, g as int, e as int);
                assert(token_line_in_range(sources, tokens@[k as int]));
                if e < m {
                    let n = sv[e as int];
                    assert(n == entry_view(entries@[e as int]));
                    assert(0 <= n.4 < tokens@.len());
                    assert(token_line_in_range(sources, tokens@[n.4 as int]));
                    assert(!entry_lt(sv[e as int], sv[p as int]));
                    lemma_chars_lt_irreflexive(sv[p as int].0);
                }
            }
            let item = make_item(ent, next, table, ge, Ghost(text), Ghost(sources), Ghost(tokens@));
            assert(item@ == all[p as int]);
            assert(all.take(p + 1) =~= all.take(p as int).push(all[p as int]));
            proof {
                all.take(p as int).lemma_filter_push(all[p as int], pred);
            }
            if is_script_path(&ent.0) {
                out.push(item);
                assert(views(out@) =~= all.take(p as int).filter(pred).push(all[p as int]));
            }
            p = p + 1;
        }
        g = e;
    }
    assert(all.take(m as int) =~= all);
    out
}

/// Resolves, for every token of a decoded source map over the generated code
/// `source_content`, its generated span and its original span, and keeps
/// those of script sources.
pub fn source_map_link(source_content: &str, map: &SourceMapData) -> (r: Result<Vec<MappingItem>, LinkError>)
    ensures
        link_outcome(source_content@, map.sources@, map.tokens@, r),
{
    let ghost text = source_content@;
    let ghost sources = map.sources@;
    let chars = chars_of(source_content);
    if chars.len() >= u32::MAX as usize {
        return Err(LinkError::TextTooLong);
    }
    proof {
        lemma_line_lengths(text);
    }
    let lens = line_length_table(&chars);
    let gen_starts = line_start_table(&lens);
    let (paths, excl) = source_paths(&map.sources);
    let tables = match source_tables(&map.sources, &excl) {
        Ok(t) => t,
        Err(e) => {
            return Err(e);
        },
    };
    let mut tix: Vec<Option<usize>> = Vec::new();
    let mut i: usize = 0;
    while i < paths.len()
        invariant
            i <= paths@.len(),
            paths@.len() == sources.len(),
            excl@.len() == sources.len(),
            sources == map.sources@,
            forall|j: int| 0 <= j < sources.len() ==> (#[trigger] paths@[j])@ == sources[j].path@,
            forall|j: int| 0 <= j < sources.len() ==> #[trigger] excl@[j] == excluded_source(sources[j].path@),
            tix@.len() == i,
            forall|j: int| 0 <= j < i ==> index_matches(#[trigger] tix@[j], table_source(sources, sources[j].path@)),
        decreases paths@.len() - i,
    {
        let x = table_index(&paths, &excl, &paths[i], Ghost(sources));
        tix.push(x);
        i = i + 1;
    }
    let empty: Vec<char> = Vec::new();
    let tix_none = table_index(&paths, &excl, &empty, Ghost(sources));
    let excl_none = is_excluded_source(&empty);
    assert(empty@ =~= Seq::<char>::empty());
    let tstarts = match token_starts(&lens, &gen_starts, &map.tokens, Ghost(text)) {
        Ok(v) => v,
        Err(e) => {
            return Err(e);
        },
    };
    let mut entries = match build_entries(
        &paths,
        &excl,
        &tix,
        tix_none,
        excl_none,
        &tables,
        &tstarts,
        &map.tokens,
        Ghost(text),
        Ghost(sources),
    ) {
        Ok(v) => v,
        Err(e) => {
            return Err(e);
        },
    };
    let ghost orig = entries@;
    sort_entries(&mut entries);
    proof {
        lemma_sorted_entries(text, sources, map.tokens@, orig, entries@);
    }
    let out = emit_items(
        &entries,
        &paths,
        &excl,
        &tix,
        tix_none,
        excl_none,
        &tables,
        &tstarts,
        &gen_starts,
        &map.tokens,
        Ghost(text),
        Ghost(sources),
    );
    let ghost ov = out@;
    let r: Result<Vec<MappingItem>, LinkError> = Ok(out);
    assert(r->Ok_0@ == ov);
    r
}

} // verus!
