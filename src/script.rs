//! Script identities and selection: URL forms, script names, source paths
//! worth reporting, and the rule that relocates source paths.
use vstd::prelude::*;
use crate::paths::{join_path, normalize, path_join, path_normalize};
use crate::text::{chars_of, contains, contains_exec, starts_with, starts_with_exec, string_from_chars};
use crate::tree::{CoverageRange, FunctionCoverage, ScriptCoverage, ScriptCoverageRaw};

verus! {

/// The index of the first `c` in `s`, or its length.
pub open spec fn first_index_of(s: Seq<char>, c: char) -> int
    decreases s.len(),
{
    if s.len() == 0 {
        0
    } else if s[0] == c {
        0
    } else {
        1 + first_index_of(s.drop_first(), c)
    }
}

proof fn lemma_first_index_of(s: Seq<char>, c: char)
    ensures
        0 <= first_index_of(s, c) <= s.len(),
        first_index_of(s, c) < s.len() ==> s[first_index_of(s, c)] == c,
        forall|i: int| 0 <= i < first_index_of(s, c) ==> s[i] != c,
    decreases s.len(),
{
    if s.len() > 0 && s[0] != c {
        lemma_first_index_of(s.drop_first(), c);
        assert forall|i: int| 0 <= i < first_index_of(s, c) implies s[i] != c by {
            if i > 0 {
                assert(s[i] == s.drop_first()[i - 1]);
            }
        }
    }
}

fn first_index_exec(s: &Vec<char>, from: usize, c: char) -> (r: usize)
    requires
        from <= s@.len(),
    ensures
        from <= r <= s@.len(),
        r as int == from + first_index_of(s@.subrange(from as int, s@.len() as int), c),
{
    let ghost t = s@.subrange(from as int, s@.len() as int);
    proof {
        lemma_first_index_of(t, c);
    }
    let mut i: usize = from;
    while i < s.len() && s[i] != c
        invariant
            from <= i <= s@.len(),
            t == s@.subrange(from as int, s@.len() as int),
            0 <= first_index_of(t, c) <= t.len(),
            first_index_of(t, c) < t.len() ==> t[first_index_of(t, c)] == c,
            forall|j: int| 0 <= j < first_index_of(t, c) ==> t[j] != c,
            forall|j: int| from <= j < i ==> s@[j] != c,
        decreases s@.len() - i,
    {
        i = i + 1;
    }
    proof {
        let f = first_index_of(t, c);
        if f < i - from {
            assert(s@[from + f] == t[f]);
        }
        if f > i - from {
            assert(t[i - from] == s@[i as int]);
        }
    }
    i
}

fn sub_chars(s: &Vec<char>, a: usize, b: usize) -> (r: Vec<char>)
    requires
        a <= b <= s@.len(),
    ensures
        r@ == s@.subrange(a as int, b as int),
{
    let mut r: Vec<char> = Vec::new();
    let mut i: usize = a;
    while i < b
        invariant
            a <= i <= b <= s@.len(),
            r@ == s@.subrange(a as int, i as int),
        decreases b - i,
    {
        r.push(s[i]);
        i = i + 1;
    }
    r
}

/// The script name of a URL: its part before any `?`, after its last `/`.
pub open spec fn url_filename_spec(u: Seq<char>) -> Seq<char> {
    let s = u.take(first_index_of(u, '?'));
    s.subrange(crate::text::last_index_of(s, '/') + 1, s.len() as int)
}

pub fn url_filename(u: &str) -> (r: String)
    ensures
        r@ == url_filename_spec(u@),
{
    let cs = chars_of(u);
    let q = first_index_exec(&cs, 0, '?');
    assert(cs@.subrange(0, cs@.len() as int) =~= cs@);
    let s = sub_chars(&cs, 0, q);
    assert(s@ =~= u@.take(first_index_of(u@, '?')));
    let mut i: usize = s.len();
    assert(s@.subrange(0, s@.len() as int) =~= s@);
    while i > 0 && s[i - 1] != '/'
        invariant
            i <= s@.len(),
            crate::text::last_index_of(s@, '/') == crate::text::last_index_of(s@.subrange(0, i as int), '/'),
        decreases i,
    {
        assert(s@.subrange(0, i as int).drop_last() =~= s@.subrange(0, i - 1));
        i = i - 1;
    }
    proof {
        if i > 0 {
            assert(s@.subrange(0, i as int).last() == '/');
        } else {
            assert(s@.subrange(0, 0) =~= Seq::<char>::empty());
        }
    }
    let r = sub_chars(&s, i, s.len());
    string_from_chars(&r)
}

/// A protocol-relative URL (`//host/...`) read as `https:`.
pub open spec fn url_normalize_spec(u: Seq<char>) -> Seq<char> {
    if starts_with(u, seq!['/', '/']) {
        seq!['h', 't', 't', 'p', 's', ':'] + u
    } else {
        u
    }
}

pub fn url_normalize(u: &str) -> (r: String)
    ensures
        r@ == url_normalize_spec(u@),
{
    let cs = chars_of(u);
    let mut slashes: Vec<char> = Vec::new();
    slashes.push('/');
    slashes.push('/');
    assert(slashes@ =~= seq!['/', '/']);
    if starts_with_exec(&cs, &slashes) {
        let mut out = chars_of("https:");
        proof {
            reveal_strlit("https:");
        }
        assert(out@ =~= seq!['h', 't', 't', 'p', 's', ':']);
        let ghost mid = out@;
        let mut j: usize = 0;
        while j < cs.len()
            invariant
                j <= cs@.len(),
                out@ == mid + cs@.subrange(0, j as int),
            decreases cs@.len() - j,
        {
            out.push(cs[j]);
            j = j + 1;
        }
        assert(cs@.subrange(0, cs@.len() as int) =~= cs@);
        string_from_chars(&out)
    } else {
        string_from_chars(&cs)
    }
}

/// A directory that no source path can name, used to see whether a relative
/// path climbs out of the directory it is placed in.
pub const PROBE_DIR: &'static str = "/abc/def/xyz/817457891234/";

/// A source path that may be written below an output directory: not a
/// bundler internal, a URL or a dependency, and not climbing out of the
/// directory it is joined to.
pub open spec fn legal_source_path(s: Seq<char>) -> bool {
    let probe = PROBE_DIR@;
    !(starts_with(s, "external script "@) || starts_with(s, "webpack:"@) || starts_with(s, "http:/"@)
        || starts_with(s, "https:/"@) || contains(s, "node_modules"@)) && starts_with(
        normalize(join_path(probe, s)),
        probe,
    )
}

pub fn is_legal_source_path(s: &str) -> (r: bool)
    ensures
        r == legal_source_path(s@),
{
    let p = chars_of(s);
    if starts_with_exec(&p, &chars_of("external script ")) || starts_with_exec(&p, &chars_of("webpack:"))
        || starts_with_exec(&p, &chars_of("http:/")) || starts_with_exec(&p, &chars_of("https:/"))
        || contains_exec(&p, &chars_of("node_modules")) {
        return false;
    }
    let joined = path_normalize(path_join(PROBE_DIR, s).as_str());
    starts_with_exec(&chars_of(joined.as_str()), &chars_of(PROBE_DIR))
}

/// Whether a script is selected by the URL filters: every script where there
/// are none, else those whose URL contains one of them.
pub open spec fn selected(url: Seq<char>, filters: Seq<String>) -> bool {
    filters.len() == 0 || exists|i: int| 0 <= i < filters.len() && contains(url, #[trigger] filters[i]@)
}

pub fn script_selected(url: &str, filters: &Vec<String>) -> (r: bool)
    ensures
        r == selected(url@, filters@),
{
    if filters.len() == 0 {
        return true;
    }
    let u = chars_of(url);
    let mut i: usize = 0;
    while i < filters.len()
        invariant
            i <= filters@.len(),
            u@ == url@,
            forall|j: int| 0 <= j < i ==> !contains(url@, #[trigger] filters@[j]@),
        decreases filters@.len() - i,
    {
        if contains_exec(&u, &chars_of(filters[i].as_str())) {
            assert(contains(url@, filters@[i as int]@));
            return true;
        }
        i = i + 1;
    }
    false
}

fn copy_functions(fs: &Vec<FunctionCoverage>) -> (r: Vec<FunctionCoverage>)
    ensures
        r@.len() == fs@.len(),
        forall|i: int|
            0 <= i < fs@.len() ==> (#[trigger] r@[i]).function_name@ == fs@[i].function_name@ && r@[i].ranges@
                == fs@[i].ranges@ && r@[i].is_block_coverage == fs@[i].is_block_coverage,
{
    let mut r: Vec<FunctionCoverage> = Vec::new();
    let mut i: usize = 0;
    while i < fs.len()
        invariant
            i <= fs@.len(),
            r@.len() == i,
            forall|k: int|
                0 <= k < i ==> (#[trigger] r@[k]).function_name@ == fs@[k].function_name@ && r@[k].ranges@
                    == fs@[k].ranges@ && r@[k].is_block_coverage == fs@[k].is_block_coverage,
        decreases fs@.len() - i,
    {
        let f = &fs[i];
        let mut rs: Vec<CoverageRange> = Vec::new();
        let mut j: usize = 0;
        while j < f.ranges.len()
            invariant
                j <= f.ranges@.len(),
                rs@ == f.ranges@.subrange(0, j as int),
            decreases f.ranges@.len() - j,
        {
            rs.push(f.ranges[j]);
            j = j + 1;
        }
        assert(rs@ =~= f.ranges@);
        r.push(FunctionCoverage { function_name: f.function_name.clone(), ranges: rs, is_block_coverage: f.is_block_coverage });
        i = i + 1;
    }
    r
}

/// The coverage of a collected script with its text: named by the script
/// name of its normalised URL.
pub fn complete_script_coverage(raw: &ScriptCoverageRaw, source: String) -> (r: ScriptCoverage)
    ensures
        r.url@ == url_filename_spec(url_normalize_spec(raw.url@)),
        r.source@ == source@,
        r.functions@.len() == raw.functions@.len(),
        forall|i: int|
            0 <= i < raw.functions@.len() ==> (#[trigger] r.functions@[i]).function_name@
                == raw.functions@[i].function_name@ && r.functions@[i].ranges@ == raw.functions@[i].ranges@
                && r.functions@[i].is_block_coverage == raw.functions@[i].is_block_coverage,
{
    let u = url_normalize(raw.url.as_str());
    ScriptCoverage { url: url_filename(u.as_str()), source, functions: copy_functions(&raw.functions) }
}

/// Why a relocation rule was refused.
#[derive(Clone, Copy, Debug, PartialEq, Eq, Structural)]
pub enum RelocateError {
    /// The rule is empty.
    Empty,
}

/// A relocation rule `<d>pattern<d>replacement<d>`, its delimiter `<d>` being
/// its first character: the pattern and the replacement, each empty where
/// missing.
pub open spec fn relocate_parts(p: Seq<char>) -> (Seq<char>, Seq<char>) {
    let d = p[0];
    let rest = p.drop_first();
    let a = first_index_of(rest, d);
    let pattern = rest.take(a);
    let after = if a < rest.len() {
        rest.skip(a + 1)
    } else {
        Seq::<char>::empty()
    };
    (pattern, after.take(first_index_of(after, d)))
}

/// The pattern and the replacement of a relocation rule, as
/// `relocate_parts` states them.
pub fn relocate_rule(pattern: &str) -> (r: Result<(String, String), RelocateError>)
    ensures
        pattern@.len() == 0 <==> (r matches Err(RelocateError::Empty)),
        r matches Ok((a, b)) ==> (a@, b@) == relocate_parts(pattern@),
{
    let p = chars_of(pattern);
    if p.len() == 0 {
        return Err(RelocateError::Empty);
    }
    let d = p[0];
    let a = first_index_exec(&p, 1, d);
    let ghost rest = p@.drop_first();
    assert(p@.subrange(1, p@.len() as int) =~= rest);
    let pat = sub_chars(&p, 1, a);
    assert(pat@ =~= rest.take(a - 1));
    let rep = if a < p.len() {
        let b = first_index_exec(&p, a + 1, d);
        assert(p@.subrange(a + 1, p@.len() as int) =~= rest.skip(a as int));
        let x = sub_chars(&p, a + 1, b);
        assert(x@ =~= rest.skip(a as int).take(b - a - 1));
        x
    } else {
        assert(Seq::<char>::empty().take(first_index_of(Seq::<char>::empty(), d)) =~= Seq::<char>::empty());
        Vec::new()
    };
    Ok((string_from_chars(&pat), string_from_chars(&rep)))
}

} // verus!
