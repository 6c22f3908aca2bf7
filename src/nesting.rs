//! Nesting of the range tree: a range strictly inside another ends up below
//! it, for well-nested input.
use vstd::prelude::*;
use crate::project::root_node;
use crate::tree::{NodeView, arena_wf, covers, find_from, find_node, insert_all, insert_range, range_lt, lemma_find_from};

verus! {

pub open spec fn inside(a: (u32, u32, u32), b: (u32, u32, u32)) -> bool {
    b.0 <= a.0 && a.1 <= b.1
}

pub open spec fn strictly_inside(a: (u32, u32, u32), b: (u32, u32, u32)) -> bool {
    inside(a, b) && (a.0 != b.0 || a.1 != b.1)
}

/// Sorted ranges as execution coverage nests them: each non-empty and inside
/// `[0, n]`, any two either nested or apart, and a range strictly containing
/// another starting before it.
pub open spec fn well_nested(n: u32, rs: Seq<(u32, u32, u32)>) -> bool {
    &&& forall|p: int| 0 <= p < rs.len() ==> (#[trigger] rs[p]).0 < rs[p].1 && rs[p].1 <= n
    &&& forall|p: int, q: int|
        0 <= p < rs.len() && 0 <= q < rs.len() ==> inside(#[trigger] rs[p], #[trigger] rs[q]) || inside(rs[q], rs[p])
            || rs[p].1 <= rs[q].0 || rs[q].1 <= rs[p].0
    &&& forall|p: int, q: int|
        0 <= p < rs.len() && 0 <= q < rs.len() && strictly_inside(#[trigger] rs[q], #[trigger] rs[p]) ==> rs[p].0
            < rs[q].0
    &&& forall|p: int, q: int| 0 <= p < q < rs.len() ==> !range_lt(#[trigger] rs[q], #[trigger] rs[p])
}

/// The tree after the first `k` ranges.
pub open spec fn tree_after(n: u32, rs: Seq<(u32, u32, u32)>, k: int) -> Seq<NodeView> {
    insert_all(seq![root_node(n as int)], rs.take(k))
}

/// The node under which range `j` was placed.
pub open spec fn parent_at(n: u32, rs: Seq<(u32, u32, u32)>, j: int) -> int {
    match find_node(tree_after(n, rs, j), rs[j].0 as int, rs[j].1 as int) {
        Some(i) => i,
        None => -1,
    }
}

/// Node `a` is node `d` or one of its ancestors; node `j + 1` holds range `j`.
pub open spec fn is_ancestor(n: u32, rs: Seq<(u32, u32, u32)>, a: int, d: int) -> bool
    decreases d,
{
    if d == a {
        true
    } else if d <= a || d < 1 || d > rs.len() {
        false
    } else {
        let par = parent_at(n, rs, d - 1);
        if 0 <= par < d {
            is_ancestor(n, rs, a, par)
        } else {
            false
        }
    }
}

pub open spec fn apart(x: NodeView, y: NodeView) -> bool {
    x.right <= y.left || y.right <= x.left
}

pub open spec fn inv_shape(n: u32, rs: Seq<(u32, u32, u32)>, t: Seq<NodeView>, k: int) -> bool {
    &&& t.len() == k + 1
    &&& t[0].left == 0 && t[0].right == n
    &&& forall|j: int| 0 <= j < k ==> t[j + 1].left == (#[trigger] rs[j]).0 && t[j + 1].right == rs[j].1
    &&& arena_wf(t)
}

pub open spec fn inv_links(n: u32, rs: Seq<(u32, u32, u32)>, t: Seq<NodeView>) -> bool {
    forall|i: int, c: int|
        0 <= i < t.len() && 0 <= c < t[i].children.len() ==> parent_at(n, rs, #[trigger] t[i].children[c] - 1) == i
            && covers(t[i], t[t[i].children[c] as int].left, t[t[i].children[c] as int].right)
}

pub open spec fn inv_apart(t: Seq<NodeView>) -> bool {
    forall|i: int, c: int, d: int|
        0 <= i < t.len() && 0 <= c < d < t[i].children.len() ==> apart(
            t[#[trigger] t[i].children[c] as int],
            t[#[trigger] t[i].children[d] as int],
        )
}

pub open spec fn inv_parents(n: u32, rs: Seq<(u32, u32, u32)>, t: Seq<NodeView>, k: int) -> bool {
    forall|j: int|
        0 <= j < k ==> 0 <= #[trigger] parent_at(n, rs, j) <= j && t[parent_at(n, rs, j)].children.contains(
            (j + 1) as usize,
        )
}

pub open spec fn tree_inv(n: u32, rs: Seq<(u32, u32, u32)>, k: int) -> bool {
    let t = tree_after(n, rs, k);
    &&& inv_shape(n, rs, t, k)
    &&& inv_links(n, rs, t)
    &&& inv_apart(t)
    &&& inv_parents(n, rs, t, k)
}

proof fn lemma_find_from_ge(t: Seq<NodeView>, i: int, l: int, r: int, c: int)
    requires
        arena_wf(t),
        0 <= i < t.len(),
    ensures
        find_from(t, i, l, r, c) matches Some(x) ==> i <= x < t.len(),
    decreases t.len() - i, t[i].children.len() - c,
{
    if !(c < 0 || c >= t[i].children.len()) {
        let ch = t[i].children[c] as int;
        if i < ch < t.len() && covers(t[ch], l, r) {
            lemma_find_from_ge(t, ch, l, r, 0);
        } else {
            lemma_find_from_ge(t, i, l, r, c + 1);
        }
    }
}

/// Where the search stops at `i`, no child of `i` from position `c` on covers the span.
proof fn lemma_find_from_stops(t: Seq<NodeView>, i: int, l: int, r: int, c: int)
    requires
        arena_wf(t),
        0 <= i < t.len(),
        0 <= c,
        find_from(t, i, l, r, c) == Some(i),
    ensures
        forall|e: int| c <= e < t[i].children.len() ==> !covers(t[#[trigger] t[i].children[e] as int], l, r),
    decreases t[i].children.len() - c,
{
    if c < t[i].children.len() {
        let ch = t[i].children[c] as int;
        if covers(t[ch], l, r) {
            lemma_find_from_ge(t, ch, l, r, 0);
        } else {
            lemma_find_from_stops(t, i, l, r, c + 1);
        }
    }
}

proof fn lemma_tree_step(n: u32, rs: Seq<(u32, u32, u32)>, k: int)
    requires
        well_nested(n, rs),
        0 <= k < rs.len(),
    ensures
        tree_after(n, rs, k + 1) == insert_range(tree_after(n, rs, k), rs[k]),
{
    assert(rs.take(k + 1).drop_last() =~= rs.take(k));
}

/// The tree after one more range, from where the search placed it.
pub open spec fn grown(t: Seq<NodeView>, p: int, g: (u32, u32, u32), k: int) -> Seq<NodeView> {
    t.update(p, NodeView { children: t[p].children.push(k as usize), ..t[p] }).push(
        NodeView { left: g.0 as int, right: g.1 as int, value: g.2, children: Seq::empty() },
    )
}

proof fn lemma_step_facts(n: u32, rs: Seq<(u32, u32, u32)>, j: int)
    requires
        well_nested(n, rs),
        0 <= j < rs.len(),
        tree_inv(n, rs, j),
    ensures
        0 <= parent_at(n, rs, j) <= j,
        tree_after(n, rs, j + 1) == grown(tree_after(n, rs, j), parent_at(n, rs, j), rs[j], j + 1),
        covers(tree_after(n, rs, j)[parent_at(n, rs, j)], rs[j].0 as int, rs[j].1 as int),
        forall|e: int|
            0 <= e < tree_after(n, rs, j)[parent_at(n, rs, j)].children.len() ==> !covers(
                tree_after(n, rs, j)[#[trigger] tree_after(n, rs, j)[parent_at(n, rs, j)].children[e] as int],
                rs[j].0 as int,
                rs[j].1 as int,
            ),
{
    lemma_tree_step(n, rs, j);
    let t = tree_after(n, rs, j);
    let g = rs[j];
    let l = g.0 as int;
    let r = g.1 as int;
    assert(covers(t[0], l, r));
    lemma_find_from(t, 0, l, r, 0);
    lemma_find_from_ge(t, 0, l, r, 0);
    lemma_find_from_some(t, 0, l, r, 0);
    let p = find_from(t, 0, l, r, 0)->0;
    assert(parent_at(n, rs, j) == p);
    lemma_find_from_parent(t, l, r);
    lemma_find_from_stops(t, p, l, r, 0);
}

proof fn lemma_step_shape(n: u32, rs: Seq<(u32, u32, u32)>, j: int)
    requires
        well_nested(n, rs),
        rs.len() < usize::MAX,
        0 <= j < rs.len(),
        tree_inv(n, rs, j),
    ensures
        inv_shape(n, rs, tree_after(n, rs, j + 1), j + 1),
{
    lemma_step_facts(n, rs, j);
    let t = tree_after(n, rs, j);
    let u = tree_after(n, rs, j + 1);
    let p = parent_at(n, rs, j);
    assert forall|x: int| 0 <= x < j + 1 implies u[x + 1].left == (#[trigger] rs[x]).0 && u[x + 1].right == rs[x].1 by {
        if x < j {
            assert(u[x + 1].left == t[x + 1].left);
        }
    }
    assert forall|i: int, c: int|
        0 <= i < u.len() && 0 <= c < u[i].children.len() implies i < #[trigger] u[i].children[c] < u.len() by {
        if i == p && c == t[p].children.len() {
            assert(u[i].children[c] == j + 1);
        } else if i < t.len() {
            assert(u[i].children[c] == t[i].children[c]);
        }
    }
}

proof fn lemma_step_links(n: u32, rs: Seq<(u32, u32, u32)>, j: int)
    requires
        well_nested(n, rs),
        rs.len() < usize::MAX,
        0 <= j < rs.len(),
        tree_inv(n, rs, j),
    ensures
        inv_links(n, rs, tree_after(n, rs, j + 1)),
{
    lemma_step_facts(n, rs, j);
    let t = tree_after(n, rs, j);
    let u = tree_after(n, rs, j + 1);
    let p = parent_at(n, rs, j);
    assert forall|i: int, c: int|
        0 <= i < u.len() && 0 <= c < u[i].children.len() implies parent_at(n, rs, #[trigger] u[i].children[c] - 1) == i
            && covers(u[i], u[u[i].children[c] as int].left, u[u[i].children[c] as int].right) by {
        if i == p && c == t[p].children.len() {
            assert(u[i].children[c] == j + 1);
        } else {
            assert(u[i].children[c] == t[i].children[c]);
            assert(t[i].children[c] < t.len());
        }
    }
}

proof fn lemma_step_apart(n: u32, rs: Seq<(u32, u32, u32)>, j: int)
    requires
        well_nested(n, rs),
        rs.len() < usize::MAX,
        0 <= j < rs.len(),
        tree_inv(n, rs, j),
    ensures
        inv_apart(tree_after(n, rs, j + 1)),
{
    lemma_step_facts(n, rs, j);
    let t = tree_after(n, rs, j);
    let u = tree_after(n, rs, j + 1);
    let p = parent_at(n, rs, j);
    assert forall|i: int, c: int, d: int|
        0 <= i < u.len() && 0 <= c < d < u[i].children.len() implies apart(
            u[#[trigger] u[i].children[c] as int],
            u[#[trigger] u[i].children[d] as int],
        ) by {
        if i == p && d == t[p].children.len() {
            let ch = t[p].children[c] as int;
            assert(u[i].children[c] == ch);
            assert(u[i].children[d] == j + 1);
            assert(!covers(t[ch], rs[j].0 as int, rs[j].1 as int));
            let q = ch - 1;
            assert(0 <= q < j);
            assert(t[q + 1].left == rs[q].0 && t[q + 1].right == rs[q].1);
            assert(!range_lt(rs[j], rs[q]));
            assert(inside(rs[q], rs[j]) || inside(rs[j], rs[q]) || rs[q].1 <= rs[j].0 || rs[j].1 <= rs[q].0);
            if inside(rs[q], rs[j]) {
                if strictly_inside(rs[q], rs[j]) {
                    assert(rs[j].0 < rs[q].0);
                }
            }
        } else {
            assert(u[i].children[c] == t[i].children[c]);
            assert(u[i].children[d] == t[i].children[d]);
        }
    }
}

proof fn lemma_step_parents(n: u32, rs: Seq<(u32, u32, u32)>, j: int)
    requires
        well_nested(n, rs),
        rs.len() < usize::MAX,
        0 <= j < rs.len(),
        tree_inv(n, rs, j),
    ensures
        inv_parents(n, rs, tree_after(n, rs, j + 1), j + 1),
{
    lemma_step_facts(n, rs, j);
    let t = tree_after(n, rs, j);
    let u = tree_after(n, rs, j + 1);
    let p = parent_at(n, rs, j);
    assert forall|x: int| 0 <= x < j + 1 implies 0 <= #[trigger] parent_at(n, rs, x) <= x && u[parent_at(
        n,
        rs,
        x,
    )].children.contains((x + 1) as usize) by {
        if x == j {
            assert(u[p].children[t[p].children.len() as int] == (j + 1) as usize);
        } else {
            let px = parent_at(n, rs, x);
            let w = choose|w: int| 0 <= w < t[px].children.len() && t[px].children[w] == (x + 1) as usize;
            assert(u[px].children[w] == (x + 1) as usize);
        }
    }
}

proof fn lemma_tree_inv(n: u32, rs: Seq<(u32, u32, u32)>, k: int)
    requires
        well_nested(n, rs),
        rs.len() < usize::MAX,
        0 <= k <= rs.len(),
    ensures
        tree_inv(n, rs, k),
    decreases k,
{
    if k == 0 {
        assert(rs.take(0) =~= Seq::<(u32, u32, u32)>::empty());
        let t = tree_after(n, rs, 0);
        assert(t == seq![root_node(n as int)]);
        assert(t[0].children.len() == 0);
    } else {
        lemma_tree_inv(n, rs, k - 1);
        lemma_step_shape(n, rs, k - 1);
        lemma_step_links(n, rs, k - 1);
        lemma_step_apart(n, rs, k - 1);
        lemma_step_parents(n, rs, k - 1);
    }
}

proof fn lemma_find_from_some(t: Seq<NodeView>, i: int, l: int, r: int, c: int)
    ensures
        find_from(t, i, l, r, c) is Some,
    decreases t.len() - i, t[i].children.len() - c,
{
    if 0 <= i < t.len() && !(c < 0 || c >= t[i].children.len()) {
        let ch = t[i].children[c] as int;
        if i < ch < t.len() && covers(t[ch], l, r) {
            lemma_find_from_some(t, ch, l, r, 0);
        } else {
            lemma_find_from_some(t, i, l, r, c + 1);
        }
    }
}

proof fn lemma_find_from_parent(t: Seq<NodeView>, l: int, r: int)
    requires
        arena_wf(t),
        covers(t[0], l, r),
    ensures
        find_from(t, find_from(t, 0, l, r, 0)->0, l, r, 0) == find_from(t, 0, l, r, 0),
{
    lemma_find_from_some(t, 0, l, r, 0);
    lemma_find_from_fixed(t, 0, l, r, 0);
}

/// The search from the node it selects selects that node again.
proof fn lemma_find_from_fixed(t: Seq<NodeView>, i: int, l: int, r: int, c: int)
    requires
        arena_wf(t),
        0 <= i < t.len(),
        0 <= c,
    ensures
        find_from(t, i, l, r, c) matches Some(x) ==> (x == i ==> forall|e: int|
            c <= e < t[i].children.len() ==> !covers(t[#[trigger] t[i].children[e] as int], l, r)) && (x != i
            ==> find_from(t, x, l, r, 0) == Some(x)),
    decreases t.len() - i, t[i].children.len() - c,
{
    if c < t[i].children.len() {
        let ch = t[i].children[c] as int;
        if covers(t[ch], l, r) {
            lemma_find_from_fixed(t, ch, l, r, 0);
            lemma_find_from_ge(t, ch, l, r, 0);
        } else {
            lemma_find_from_fixed(t, i, l, r, c + 1);
        }
    }
}

proof fn lemma_ancestor_le(n: u32, rs: Seq<(u32, u32, u32)>, a: int, d: int)
    requires
        is_ancestor(n, rs, a, d),
    ensures
        a <= d,
    decreases d,
{
    if d != a && !(d <= a || d < 1 || d > rs.len()) {
        let par = parent_at(n, rs, d - 1);
        if 0 <= par < d {
            lemma_ancestor_le(n, rs, a, par);
        }
    }
}

proof fn lemma_ancestor_trans(n: u32, rs: Seq<(u32, u32, u32)>, a: int, b: int, c: int)
    requires
        is_ancestor(n, rs, a, b),
        is_ancestor(n, rs, b, c),
    ensures
        is_ancestor(n, rs, a, c),
    decreases c,
{
    if c != b {
        let par = parent_at(n, rs, c - 1);
        lemma_ancestor_trans(n, rs, a, b, par);
        lemma_ancestor_le(n, rs, a, par);
    }
}

proof fn lemma_root_ancestor(n: u32, rs: Seq<(u32, u32, u32)>, k: int, d: int)
    requires
        0 <= d <= k <= rs.len(),
        inv_parents(n, rs, tree_after(n, rs, k), k),
    ensures
        is_ancestor(n, rs, 0, d),
    decreases d,
{
    if d > 0 {
        let par = parent_at(n, rs, d - 1);
        assert(0 <= parent_at(n, rs, d - 1) <= d - 1);
        lemma_root_ancestor(n, rs, k, par);
    }
}

/// The node the search selects below `i` lies in the subtree of `i`.
proof fn lemma_find_below(n: u32, rs: Seq<(u32, u32, u32)>, k: int, i: int, l: int, r: int, c: int)
    requires
        0 <= k <= rs.len(),
        tree_inv(n, rs, k),
        0 <= i < tree_after(n, rs, k).len(),
    ensures
        find_from(tree_after(n, rs, k), i, l, r, c) matches Some(x) ==> is_ancestor(n, rs, i, x),
    decreases tree_after(n, rs, k).len() - i, tree_after(n, rs, k)[i].children.len() - c,
{
    let t = tree_after(n, rs, k);
    if !(c < 0 || c >= t[i].children.len()) {
        let ch = t[i].children[c] as int;
        if i < ch < t.len() && covers(t[ch], l, r) {
            lemma_find_below(n, rs, k, ch, l, r, 0);
            assert(parent_at(n, rs, t[i].children[c] - 1) == i);
            assert(is_ancestor(n, rs, i, i));
            assert(is_ancestor(n, rs, i, ch));
            lemma_find_from_some(t, ch, l, r, 0);
            lemma_ancestor_trans(n, rs, i, ch, find_from(t, ch, l, r, 0)->0);
        } else {
            lemma_find_below(n, rs, k, i, l, r, c + 1);
        }
    }
}

proof fn lemma_skip_to(t: Seq<NodeView>, i: int, l: int, r: int, c: int, c2: int)
    requires
        0 <= i < t.len(),
        0 <= c <= c2 <= t[i].children.len(),
        arena_wf(t),
        forall|e: int| c <= e < c2 ==> !covers(t[#[trigger] t[i].children[e] as int], l, r),
    ensures
        find_from(t, i, l, r, c) == find_from(t, i, l, r, c2),
    decreases c2 - c,
{
    if c < c2 {
        lemma_skip_to(t, i, l, r, c + 1, c2);
    }
}

/// From any ancestor of a node that covers a non-empty span, the search
/// reaches that node.
proof fn lemma_descent(n: u32, rs: Seq<(u32, u32, u32)>, k: int, x: int, a: int, l: int, r: int)
    requires
        0 <= k <= rs.len(),
        rs.len() < usize::MAX,
        tree_inv(n, rs, k),
        0 <= a <= k,
        l < r,
        covers(tree_after(n, rs, k)[a], l, r),
        is_ancestor(n, rs, x, a),
    ensures
        find_from(tree_after(n, rs, k), x, l, r, 0) == find_from(tree_after(n, rs, k), a, l, r, 0),
    decreases a,
{
    let t = tree_after(n, rs, k);
    if x != a {
        let par = parent_at(n, rs, a - 1);
        assert(0 <= par < a);
        assert(0 <= parent_at(n, rs, a - 1) <= a - 1);
        assert(t[par].children.contains(a as usize));
        let ca = choose|w: int| 0 <= w < t[par].children.len() && t[par].children[w] == a as usize;
        assert(t[par].children[ca] as int == a);
        assert(covers(t[par], t[t[par].children[ca] as int].left, t[t[par].children[ca] as int].right));
        assert(covers(t[par], l, r));
        lemma_descent(n, rs, k, x, par, l, r);
        assert forall|e: int| 0 <= e < ca implies !covers(t[#[trigger] t[par].children[e] as int], l, r) by {
            let w = t[par].children[e] as int;
            assert(apart(t[t[par].children[e] as int], t[t[par].children[ca] as int]));
        }
        lemma_skip_to(t, par, l, r, 0, ca);
    }
}

/// In the tree built from well-nested sorted ranges, node `j + 1` holds range
/// `j` and lies below the node its search selected. A range strictly inside
/// another lies in that range's subtree, and never the other way round.
pub proof fn law_nested_ranges_descend(n: u32, rs: Seq<(u32, u32, u32)>, p: int, q: int)
    requires
        well_nested(n, rs),
        rs.len() < usize::MAX,
        0 <= p < rs.len(),
        0 <= q < rs.len(),
        strictly_inside(rs[q], rs[p]),
    ensures
        is_ancestor(n, rs, p + 1, q + 1),
        !is_ancestor(n, rs, q + 1, p + 1),
        insert_all(seq![root_node(n as int)], rs) == tree_after(n, rs, rs.len() as int),
{
    assert(rs.take(rs.len() as int) =~= rs);
    assert(rs[p].0 < rs[q].0);
    if q < p {
        assert(!range_lt(rs[p], rs[q]));
    }
    assert(p < q);
    lemma_tree_inv(n, rs, q);
    lemma_tree_inv(n, rs, q + 1);
    let t = tree_after(n, rs, q);
    let a = p + 1;
    let l = rs[q].0 as int;
    let r = rs[q].1 as int;
    assert(t[a].left == rs[p].0 && t[a].right == rs[p].1);
    lemma_root_ancestor(n, rs, q, a);
    lemma_descent(n, rs, q, 0, a, l, r);
    assert(covers(t[0], l, r));
    lemma_find_below(n, rs, q, a, l, r, 0);
    lemma_find_from_some(t, a, l, r, 0);
    let x = find_from(t, a, l, r, 0)->0;
    assert(parent_at(n, rs, q) == x);
    assert(0 <= parent_at(n, rs, q) <= q);
    assert(is_ancestor(n, rs, a, q + 1));
    if is_ancestor(n, rs, q + 1, a) {
        lemma_ancestor_le(n, rs, q + 1, a);
    }
}

} // verus!
