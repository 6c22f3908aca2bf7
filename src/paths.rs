//! Lexical path handling: joining, normalising `.` and `..`, and reading
//! script names out of URLs. Nothing here touches a file system.
use vstd::prelude::*;
use crate::text::{chars_of, string_from_chars};

verus! {

/// The segments of `s` between slashes.
pub open spec fn split_slash(s: Seq<char>) -> Seq<Seq<char>>
    decreases s.len(),
{
    if s.len() == 0 {
        seq![Seq::<char>::empty()]
    } else {
        let p = split_slash(s.drop_last());
        if s.last() == '/' {
            p.push(Seq::<char>::empty())
        } else {
            p.update(p.len() - 1, p.last().push(s.last()))
        }
    }
}

/// One segment applied to a stack of resolved segments: empty segments and
/// `.` are dropped, `..` removes the last segment (if any), others are pushed.
pub open spec fn path_step(stack: Seq<Seq<char>>, c: Seq<char>) -> Seq<Seq<char>> {
    if c.len() == 0 || c == seq!['.'] {
        stack
    } else if c == seq!['.', '.'] {
        if stack.len() > 0 {
            stack.drop_last()
        } else {
            stack
        }
    } else {
        stack.push(c)
    }
}

pub open spec fn resolve_segments(cs: Seq<Seq<char>>) -> Seq<Seq<char>>
    decreases cs.len(),
{
    if cs.len() == 0 {
        Seq::empty()
    } else {
        path_step(resolve_segments(cs.drop_last()), cs.last())
    }
}

pub open spec fn join_segments(cs: Seq<Seq<char>>) -> Seq<char>
    decreases cs.len(),
{
    if cs.len() == 0 {
        Seq::empty()
    } else if cs.len() == 1 {
        cs[0]
    } else {
        join_segments(cs.drop_last()) + seq!['/'] + cs.last()
    }
}

/// The normal form of a path: a leading slash kept, then the resolved
/// segments joined by single slashes.
pub open spec fn normalize(s: Seq<char>) -> Seq<char> {
    (if s.len() > 0 && s[0] == '/' {
        seq!['/']
    } else {
        Seq::empty()
    }) + join_segments(resolve_segments(split_slash(s)))
}

/// `p` appended to `base` as one more component; an absolute `p` replaces it.
pub open spec fn join_path(base: Seq<char>, p: Seq<char>) -> Seq<char> {
    if p.len() > 0 && p[0] == '/' {
        p
    } else if base.len() == 0 {
        p
    } else if base.last() == '/' {
        base + p
    } else {
        base + seq!['/'] + p
    }
}

fn path_step_exec(stack: &mut Vec<Vec<char>>, c: Vec<char>)
    ensures
        final(stack)@.map_values(|v: Vec<char>| v@) == path_step(old(stack)@.map_values(|v: Vec<char>| v@), c@),
{
    let ghost before = stack@.map_values(|v: Vec<char>| v@);
    let is_dot = c.len() == 1 && c[0] == '.';
    let is_dotdot = c.len() == 2 && c[0] == '.' && c[1] == '.';
    assert(is_dot == (c@ == seq!['.'])) by {
        if c@ == seq!['.'] {
            assert(c@[0] == '.');
        }
        if is_dot {
            assert(c@ =~= seq!['.']);
        }
    }
    assert(is_dotdot == (c@ == seq!['.', '.'])) by {
        if c@ == seq!['.', '.'] {
            assert(c@[0] == '.' && c@[1] == '.');
        }
        if is_dotdot {
            assert(c@ =~= seq!['.', '.']);
        }
    }
    if c.len() == 0 || is_dot {
    } else if is_dotdot {
        if stack.len() > 0 {
            stack.pop();
            assert(stack@.map_values(|v: Vec<char>| v@) =~= before.drop_last());
        }
    } else {
        stack.push(c);
        assert(stack@.map_values(|v: Vec<char>| v@) =~= before.push(c@));
    }
}

/// The path in normal form, as `normalize` states it.
pub fn path_normalize(s: &str) -> (r: String)
    ensures
        r@ == normalize(s@),
{
    let cs = chars_of(s);
    let mut stack: Vec<Vec<char>> = Vec::new();
    let mut cur: Vec<char> = Vec::new();
    let mut i: usize = 0;
    assert(cs@.subrange(0, 0) =~= Seq::<char>::empty());
    assert(split_slash(Seq::<char>::empty()).drop_last() =~= Seq::<Seq<char>>::empty());
    assert(stack@.map_values(|v: Vec<char>| v@) =~= Seq::<Seq<char>>::empty());
    while i < cs.len()
        invariant
            i <= cs@.len(),
            stack@.map_values(|v: Vec<char>| v@) == resolve_segments(
                split_slash(cs@.subrange(0, i as int)).drop_last(),
            ),
            cur@ == split_slash(cs@.subrange(0, i as int)).last(),
            split_slash(cs@.subrange(0, i as int)).len() >= 1,
        decreases cs@.len() - i,
    {
        let ghost pre = split_slash(cs@.subrange(0, i as int));
        assert(cs@.subrange(0, i + 1).drop_last() =~= cs@.subrange(0, i as int));
        if cs[i] == '/' {
            let c = cur;
            cur = Vec::new();
            assert(pre.push(Seq::<char>::empty()).drop_last() =~= pre);
            assert(pre =~= pre.drop_last().push(pre.last()));
            path_step_exec(&mut stack, c);
        } else {
            cur.push(cs[i]);
            let ghost post = pre.update(pre.len() - 1, pre.last().push(cs@[i as int]));
            assert(post.drop_last() =~= pre.drop_last());
        }
        i = i + 1;
    }
    assert(cs@.subrange(0, cs@.len() as int) =~= cs@);
    let ghost sp = split_slash(cs@);
    assert(sp =~= sp.drop_last().push(sp.last()));
    path_step_exec(&mut stack, cur);
    let ghost segs = stack@.map_values(|v: Vec<char>| v@);
    assert(segs == resolve_segments(split_slash(s@)));
    let mut out: Vec<char> = Vec::new();
    if cs.len() > 0 && cs[0] == '/' {
        out.push('/');
    }
    let ghost prefix = out@;
    let mut k: usize = 0;
    assert(segs.take(0) =~= Seq::<Seq<char>>::empty());
    while k < stack.len()
        invariant
            k <= stack@.len(),
            segs == stack@.map_values(|v: Vec<char>| v@),
            out@ == prefix + join_segments(segs.take(k as int)),
        decreases stack@.len() - k,
    {
        assert(segs.take(k + 1).drop_last() =~= segs.take(k as int));
        if k > 0 {
            out.push('/');
        }
        let seg = &stack[k];
        let mut j: usize = 0;
        let ghost mid = out@;
        while j < seg.len()
            invariant
                j <= seg@.len(),
                out@ == mid + seg@.subrange(0, j as int),
            decreases seg@.len() - j,
        {
            out.push(seg[j]);
            j = j + 1;
        }
        assert(seg@.subrange(0, seg@.len() as int) =~= seg@);
        if k == 0 {
            assert(segs.take(1) =~= seq![segs[0]]);
            assert(out@ =~= prefix + join_segments(segs.take(1)));
        } else {
            assert(out@ =~= prefix + join_segments(segs.take(k + 1)));
        }
        k = k + 1;
    }
    assert(segs.take(stack@.len() as int) =~= segs);
    string_from_chars(&out)
}

/// `p` joined onto `base`, as `join_path` states it.
pub fn path_join(base: &str, p: &str) -> (r: String)
    ensures
        r@ == join_path(base@, p@),
{
    let b = chars_of(base);
    let q = chars_of(p);
    if q.len() > 0 && q[0] == '/' {
        return string_from_chars(&q);
    }
    if b.len() == 0 {
        return string_from_chars(&q);
    }
    let mut out = b;
    if out[out.len() - 1] != '/' {
        out.push('/');
    }
    let ghost mid = out@;
    let mut j: usize = 0;
    while j < q.len()
        invariant
            j <= q@.len(),
            out@ == mid + q@.subrange(0, j as int),
        decreases q@.len() - j,
    {
        out.push(q[j]);
        j = j + 1;
    }
    assert(q@.subrange(0, q@.len() as int) =~= q@);
    proof {
        if b@.last() == '/' {
            assert(out@ =~= b@ + q@);
        } else {
            assert(out@ =~= b@ + seq!['/'] + q@);
        }
    }
    string_from_chars(&out)
}

} // verus!
