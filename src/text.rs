//! Character-level helpers over string views: prefixes, infixes, path
//! extensions and the per-line length table of a text.
use vstd::prelude::*;

verus! {

/// Relies on `FromIterator<char>` for `String`: collecting characters keeps them in order.
#[verifier::external_body]
pub(crate) fn string_from_chars(v: &Vec<char>) -> (r: String)
    ensures
        r@ == v@,
{
    v.iter().collect()
}

/// The characters of a string, in order.
pub fn chars_of(s: &str) -> (r: Vec<char>)
    ensures
        r@ == s@,
{
    let mut v: Vec<char> = Vec::new();
    for c in it: s.chars()
        invariant
            v@ == it.seq().subrange(0, it.index() as int),
            it.seq() == s@,
    {
        v.push(c);
    }
    v
}

pub open spec fn starts_with(s: Seq<char>, p: Seq<char>) -> bool {
    p.len() <= s.len() && s.subrange(0, p.len() as int) == p
}

pub open spec fn occurs_at(s: Seq<char>, p: Seq<char>, i: int) -> bool {
    0 <= i && i + p.len() <= s.len() && s.subrange(i, i + p.len()) == p
}

pub open spec fn contains(s: Seq<char>, p: Seq<char>) -> bool {
    exists|i: int| occurs_at(s, p, i)
}

/// Whether `p` occurs in `s` at position `i`.
pub fn occurs_at_exec(s: &Vec<char>, p: &Vec<char>, i: usize) -> (r: bool)
    ensures
        r == occurs_at(s@, p@, i as int),
{
    if i > s.len() || p.len() > s.len() - i {
        return false;
    }
    let mut k: usize = 0;
    while k < p.len()
        invariant
            i + p.len() <= s.len(),
            k <= p.len(),
            forall|j: int| 0 <= j < k ==> s@[i + j] == p@[j],
        decreases p.len() - k,
    {
        if s[i + k] != p[k] {
            assert(s@.subrange(i as int, i + p.len())[k as int] != p@[k as int]);
            return false;
        }
        k = k + 1;
    }
    assert(s@.subrange(i as int, i + p.len()) =~= p@);
    true
}

pub fn starts_with_exec(s: &Vec<char>, p: &Vec<char>) -> (r: bool)
    ensures
        r == starts_with(s@, p@),
{
    occurs_at_exec(s, p, 0)
}

pub fn contains_exec(s: &Vec<char>, p: &Vec<char>) -> (r: bool)
    ensures
        r == contains(s@, p@),
{
    if p.len() == 0 {
        assert(s@.subrange(0, 0) =~= p@);
        assert(occurs_at(s@, p@, 0));
        return true;
    }
    if p.len() > s.len() {
        return false;
    }
    let last = s.len() - p.len();
    let mut i: usize = 0;
    while i <= last
        invariant
            last == s.len() - p.len(),
            last < s.len(),
            i <= last + 1,
            forall|j: int| 0 <= j < i ==> !occurs_at(s@, p@, j),
        decreases last + 1 - i,
    {
        if occurs_at_exec(s, p, i) {
            return true;
        }
        i = i + 1;
    }
    assert forall|j: int| !occurs_at(s@, p@, j) by {
        if 0 <= j && j + p.len() <= s.len() {
            assert(j < i);
        }
    }
    false
}

pub fn chars_eq(a: &Vec<char>, b: &Vec<char>) -> (r: bool)
    ensures
        r == (a@ == b@),
{
    if a.len() != b.len() {
        return false;
    }
    let r = occurs_at_exec(a, b, 0);
    proof {
        if r {
            assert(a@ =~= a@.subrange(0, b@.len() as int));
        } else {
            assert(a@.subrange(0, b@.len() as int) =~= a@);
        }
    }
    r
}

/// A path with its trailing slashes and trailing `.` components removed.
pub open spec fn trim_trailing_slashes(s: Seq<char>) -> Seq<char>
    decreases s.len(),
{
    if s.len() > 0 && s.last() == '/' {
        trim_trailing_slashes(s.drop_last())
    } else if s.len() >= 2 && s.last() == '.' && s[s.len() - 2] == '/' {
        trim_trailing_slashes(s.drop_last())
    } else {
        s
    }
}

/// The index of the last occurrence of `c` in `s`, or -1.
pub open spec fn last_index_of(s: Seq<char>, c: char) -> int
    decreases s.len(),
{
    if s.len() == 0 {
        -1
    } else if s.last() == c {
        s.len() - 1
    } else {
        last_index_of(s.drop_last(), c)
    }
}

/// The last segment of a path.
pub open spec fn file_name(p: Seq<char>) -> Seq<char> {
    let t = trim_trailing_slashes(p);
    t.subrange(last_index_of(t, '/') + 1, t.len() as int)
}

/// The text after the last dot of the file name, where that dot is not the
/// name's first character; `..` has none.
pub open spec fn extension(p: Seq<char>) -> Option<Seq<char>> {
    let n = file_name(p);
    let k = last_index_of(n, '.');
    if n == seq!['.', '.'] || k <= 0 {
        None
    } else {
        Some(n.subrange(k + 1, n.len() as int))
    }
}

pub open spec fn extension_or_empty(p: Seq<char>) -> Seq<char> {
    match extension(p) {
        Some(e) => e,
        None => Seq::<char>::empty(),
    }
}

proof fn lemma_last_index_of_bounds(s: Seq<char>, c: char)
    ensures
        -1 <= last_index_of(s, c) < s.len(),
        last_index_of(s, c) >= 0 ==> s[last_index_of(s, c)] == c,
    decreases s.len(),
{
    if s.len() > 0 && s.last() != c {
        lemma_last_index_of_bounds(s.drop_last(), c);
    }
}

fn last_index_of_exec(s: &Vec<char>, end: usize, c: char) -> (r: Option<usize>)
    requires
        end <= s.len(),
    ensures
        r is None ==> last_index_of(s@.subrange(0, end as int), c) == -1,
        r is Some ==> r->0 == last_index_of(s@.subrange(0, end as int), c),
{
    let mut i: usize = end;
    while i > 0
        invariant
            i <= end <= s.len(),
            last_index_of(s@.subrange(0, end as int), c) == last_index_of(
                s@.subrange(0, i as int),
                c,
            ),
        decreases i,
    {
        assert(s@.subrange(0, i as int).drop_last() =~= s@.subrange(0, i - 1));
        if s[i - 1] == c {
            return Some(i - 1);
        }
        i = i - 1;
    }
    None
}

/// The extension of a path, as `extension` defines it.
pub fn extension_of(p: &Vec<char>) -> (r: Option<Vec<char>>)
    ensures
        r is Some <==> extension(p@) is Some,
        r is Some ==> r->0@ == extension(p@)->0,
{
    let mut t: usize = p.len();
    assert(p@.subrange(0, t as int) =~= p@);
    while t > 0 && (p[t - 1] == '/' || (t >= 2 && p[t - 1] == '.' && p[t - 2] == '/'))
        invariant
            t <= p.len(),
            trim_trailing_slashes(p@) == trim_trailing_slashes(p@.subrange(0, t as int)),
        decreases t,
    {
        assert(p@.subrange(0, t as int).drop_last() =~= p@.subrange(0, t - 1));
        t = t - 1;
    }
    let ghost tr = p@.subrange(0, t as int);
    assert(trim_trailing_slashes(tr) == tr);
    let slash = last_index_of_exec(p, t, '/');
    proof {
        lemma_last_index_of_bounds(tr, '/');
    }
    let start: usize = match slash {
        Some(k) => k + 1,
        None => 0,
    };
    let mut name: Vec<char> = Vec::new();
    let mut j: usize = start;
    while j < t
        invariant
            start <= j <= t <= p.len(),
            name@ == p@.subrange(start as int, j as int),
        decreases t - j,
    {
        name.push(p[j]);
        j = j + 1;
    }
    assert(name@ == file_name(p@)) by {
        assert(name@ =~= tr.subrange(start as int, t as int));
    }
    let dot = last_index_of_exec(&name, name.len(), '.');
    assert(name@.subrange(0, name.len() as int) =~= name@);
    proof {
        lemma_last_index_of_bounds(name@, '.');
    }
    let is_parent = name.len() == 2 && name[0] == '.' && name[1] == '.';
    assert(is_parent == (name@ == seq!['.', '.'])) by {
        if name@ == seq!['.', '.'] {
            assert(name@[0] == '.' && name@[1] == '.');
        }
        if is_parent {
            assert(name@ =~= seq!['.', '.']);
        }
    }
    let dot: usize = match dot {
        Some(k) => k,
        None => 0,
    };
    if is_parent || dot == 0 {
        return None;
    }
    let mut e: Vec<char> = Vec::new();
    let mut k: usize = dot + 1;
    while k < name.len()
        invariant
            dot + 1 <= k <= name.len(),
            e@ == name@.subrange(dot + 1, k as int),
        decreases name.len() - k,
    {
        e.push(name[k]);
        k = k + 1;
    }
    Some(e)
}

/// Whether the extension of `path` is one of `file_extensions`; a path without
/// an extension counts as having the empty one.
pub fn is_file_extension_allowed(path: &str, file_extensions: &[&str]) -> (r: bool)
    ensures
        r == exists|i: int|
            0 <= i < file_extensions@.len() && #[trigger] file_extensions@[i]@
                == extension_or_empty(path@),
{
    let p = chars_of(path);
    let e = match extension_of(&p) {
        Some(e) => e,
        None => Vec::new(),
    };
    let ghost want = extension_or_empty(path@);
    assert(e@ == want);
    let mut i: usize = 0;
    while i < file_extensions.len()
        invariant
            i <= file_extensions@.len(),
            e@ == want,
            want == extension_or_empty(path@),
            forall|j: int| 0 <= j < i ==> file_extensions@[j]@ != want,
        decreases file_extensions@.len() - i,
    {
        let fx: &str = file_extensions[i];
        assert(fx@ == file_extensions@[i as int]@);
        let x = chars_of(fx);
        if chars_eq(&x, &e) {
            assert(file_extensions@[i as int]@ == want);
            return true;
        }
        i = i + 1;
    }
    false
}

} // verus!
