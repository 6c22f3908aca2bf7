//! Execution ranges of a script and the nesting tree searched for the
//! innermost range around a span of generated code. Nodes live in an arena
//! and refer to their children by index.
use vstd::prelude::*;
use crate::link::{SortEntry, entry_view, entry_lt, chars_lt};

verus! {

/// One execution range: `count` runs over offsets `[start_offset, end_offset)`.
#[derive(Clone, Copy, Debug, PartialEq, Eq)]
pub struct CoverageRange {
    pub start_offset: u32,
    pub end_offset: u32,
    pub count: u32,
}

/// The execution ranges of one function.
#[derive(Clone, Debug)]
pub struct FunctionCoverage {
    pub function_name: String,
    pub ranges: Vec<CoverageRange>,
    pub is_block_coverage: bool,
}

/// The execution coverage of one script, with its text.
#[derive(Clone, Debug)]
pub struct ScriptCoverage {
    pub url: String,
    pub source: String,
    pub functions: Vec<FunctionCoverage>,
}

/// The execution coverage of one script as collected, its text possibly absent.
#[derive(Clone, Debug)]
pub struct ScriptCoverageRaw {
    pub url: String,
    pub source: Option<String>,
    pub functions: Vec<FunctionCoverage>,
}

/// A node of the range tree: an interval, its count, and its children's
/// indices in the arena.
#[derive(Clone, Debug)]
pub struct CoverRangeNode {
    pub children: Vec<usize>,
    pub value: u32,
    pub left: u32,
    pub right: u32,
}

impl CoverRangeNode {
    /// A node without children for `range`.
    pub fn new(range: &CoverageRange) -> (r: Self)
        ensures
            r.children@.len() == 0,
            r.value == range.count,
            r.left == range.start_offset,
            r.right == range.end_offset,
    {
        CoverRangeNode {
            children: Vec::new(),
            value: range.count,
            left: range.start_offset,
            right: range.end_offset,
        }
    }
}

/// The mathematical content of a node.
pub struct NodeView {
    pub left: int,
    pub right: int,
    pub value: u32,
    pub children: Seq<usize>,
}

impl View for CoverRangeNode {
    type V = NodeView;

    open spec fn view(&self) -> NodeView {
        NodeView { left: self.left as int, right: self.right as int, value: self.value, children: self.children@ }
    }
}

pub open spec fn arena(nodes: Seq<CoverRangeNode>) -> Seq<NodeView> {
    nodes.map_values(|n: CoverRangeNode| n@)
}

/// A range tree under construction; node 0 is the root.
#[derive(Clone, Debug)]
pub struct CoverRangeTree {
    pub nodes: Vec<CoverRangeNode>,
}

/// A finished range tree, only searched; node 0 is the root.
#[derive(Clone, Debug)]
pub struct CoverRangeNodeRead {
    pub nodes: Vec<CoverRangeNode>,
}

/// Every child index points forward, inside the arena, which holds a root.
pub open spec fn arena_wf(nodes: Seq<NodeView>) -> bool {
    &&& nodes.len() >= 1
    &&& forall|i: int, c: int|
        0 <= i < nodes.len() && 0 <= c < nodes[i].children.len() ==> i < #[trigger] nodes[i].children[c]
            < nodes.len()
}

pub open spec fn covers(n: NodeView, l: int, r: int) -> bool {
    n.left <= l && r <= n.right
}

/// The search below node `i`, from its child at position `c` on: descend into
/// the first child that covers `[l, r]`, or stop at `i`.
pub open spec fn find_from(nodes: Seq<NodeView>, i: int, l: int, r: int, c: int) -> Option<int>
    decreases nodes.len() - i, nodes[i].children.len() - c,
{
    if !(0 <= i < nodes.len()) || c < 0 || c >= nodes[i].children.len() {
        Some(i)
    } else {
        let ch = nodes[i].children[c] as int;
        if i < ch < nodes.len() && covers(nodes[ch], l, r) {
            find_from(nodes, ch, l, r, 0)
        } else {
            find_from(nodes, i, l, r, c + 1)
        }
    }
}

/// The innermost node, by the first-covering-child rule, whose interval
/// covers `[l, r]`; none where the root does not.
pub open spec fn find_node(nodes: Seq<NodeView>, l: int, r: int) -> Option<int> {
    if nodes.len() >= 1 && covers(nodes[0], l, r) {
        find_from(nodes, 0, l, r, 0)
    } else {
        None
    }
}

pub proof fn lemma_find_from(nodes: Seq<NodeView>, i: int, l: int, r: int, c: int)
    requires
        0 <= i < nodes.len(),
        covers(nodes[i], l, r),
    ensures
        find_from(nodes, i, l, r, c) matches Some(j) ==> 0 <= j < nodes.len() && covers(nodes[j], l, r),
    decreases nodes.len() - i, nodes[i].children.len() - c,
{
    if !(c < 0 || c >= nodes[i].children.len()) {
        let ch = nodes[i].children[c] as int;
        if i < ch < nodes.len() && covers(nodes[ch], l, r) {
            lemma_find_from(nodes, ch, l, r, 0);
        } else {
            lemma_find_from(nodes, i, l, r, c + 1);
        }
    }
}

fn find_below(nodes: &Vec<CoverRangeNode>, i: usize, l: u32, r: u32) -> (res: usize)
    requires
        arena_wf(arena(nodes@)),
        i < nodes@.len(),
        covers(arena(nodes@)[i as int], l as int, r as int),
    ensures
        find_from(arena(nodes@), i as int, l as int, r as int, 0) == Some(res as int),
    decreases nodes@.len() - i,
{
    let mut c: usize = 0;
    while c < nodes[i].children.len()
        invariant
            arena_wf(arena(nodes@)),
            i < nodes@.len(),
            c <= arena(nodes@)[i as int].children.len(),
            find_from(arena(nodes@), i as int, l as int, r as int, 0) == find_from(
                arena(nodes@),
                i as int,
                l as int,
                r as int,
                c as int,
            ),
        decreases arena(nodes@)[i as int].children.len() - c,
    {
        let ch = nodes[i].children[c];
        assert(arena(nodes@)[i as int].children[c as int] == ch);
        assert(i < ch < nodes@.len());
        if nodes[ch].left <= l && r <= nodes[ch].right {
            return find_below(nodes, ch, l, r);
        }
        c = c + 1;
    }
    i
}

/// The node that `find_node` selects for `range`.
pub fn find_root(root: &CoverRangeTree, range: &CoverageRange) -> (res: Option<usize>)
    requires
        arena_wf(arena(root.nodes@)),
    ensures
        res matches Some(j) ==> find_node(arena(root.nodes@), range.start_offset as int, range.end_offset as int)
            == Some(j as int),
        res is None ==> find_node(arena(root.nodes@), range.start_offset as int, range.end_offset as int) is None,
{
    let l = range.start_offset;
    let r = range.end_offset;
    if l < root.nodes[0].left || r > root.nodes[0].right {
        return None;
    }
    Some(find_below(&root.nodes, 0, l, r))
}

/// The span `[l, r)` shares offsets with node `n`.
pub open spec fn overlaps(n: NodeView, l: int, r: int) -> bool {
    l < n.right && n.left < r
}

/// Some child of node `j` shares offsets with `[l, r)` without holding it:
/// the span straddles that child's boundary.
pub open spec fn straddles_child(nodes: Seq<NodeView>, j: int, l: int, r: int) -> bool {
    exists|c: int|
        0 <= c < nodes[j].children.len() && overlaps(nodes[#[trigger] nodes[j].children[c] as int], l, r)
            && !covers(nodes[nodes[j].children[c] as int], l, r)
}

/// The count of the innermost range around `[l, r]`: that of the node
/// `find_node` selects, unless the span straddles the boundary of one of its
/// children, in which case no range answers.
pub open spec fn query(nodes: Seq<NodeView>, l: int, r: int) -> Option<u32> {
    match find_node(nodes, l, r) {
        Some(j) => if straddles_child(nodes, j, l, r) {
            None
        } else {
            Some(nodes[j].value)
        },
        None => None,
    }
}

/// The count of the innermost range around `range`, as `query` states it.
pub fn find_root_value_only(root: &CoverRangeNodeRead, range: &CoverageRange) -> (res: Option<u32>)
    requires
        arena_wf(arena(root.nodes@)),
    ensures
        res == query(arena(root.nodes@), range.start_offset as int, range.end_offset as int),
{
    let l = range.start_offset;
    let r = range.end_offset;
    if l < root.nodes[0].left || r > root.nodes[0].right {
        return None;
    }
    let j = find_below(&root.nodes, 0, l, r);
    proof {
        lemma_find_from(arena(root.nodes@), 0, l as int, r as int, 0);
    }
    let ghost a = arena(root.nodes@);
    assert(find_node(a, l as int, r as int) == Some(j as int));
    let mut c: usize = 0;
    while c < root.nodes[j].children.len()
        invariant
            a == arena(root.nodes@),
            arena_wf(a),
            j < a.len(),
            find_node(a, l as int, r as int) == Some(j as int),
            l == range.start_offset && r == range.end_offset,
            c <= a[j as int].children.len(),
            forall|d: int|
                0 <= d < c ==> !(overlaps(a[#[trigger] a[j as int].children[d] as int], l as int, r as int)
                    && !covers(a[a[j as int].children[d] as int], l as int, r as int)),
        decreases a[j as int].children.len() - c,
    {
        let ch = root.nodes[j].children[c];
        assert(a[j as int].children[c as int] == ch);
        let n = &root.nodes[ch];
        if l < n.right && n.left < r && !(n.left <= l && r <= n.right) {
            assert(a[ch as int] == root.nodes@[ch as int]@);
            assert(overlaps(a[a[j as int].children[c as int] as int], l as int, r as int));
            assert(!covers(a[a[j as int].children[c as int] as int], l as int, r as int));
            assert(straddles_child(a, j as int, l as int, r as int));
            assert(query(a, l as int, r as int) is None);
            return None;
        }
        c = c + 1;
    }
    Some(root.nodes[j].value)
}

/// The finished tree, for searching only.
pub fn read_only(root: CoverRangeTree) -> (r: CoverRangeNodeRead)
    ensures
        r.nodes@ == root.nodes@,
{
    CoverRangeNodeRead { nodes: root.nodes }
}

impl CoverRangeTree {
    /// A tree of the root node alone.
    pub fn new(root: CoverRangeNode) -> (r: Self)
        requires
            root.children@.len() == 0,
        ensures
            r.nodes@ == seq![root],
            arena_wf(arena(r.nodes@)),
    {
        let mut nodes: Vec<CoverRangeNode> = Vec::new();
        nodes.push(root);
        assert(arena(nodes@) =~= seq![root@]);
        CoverRangeTree { nodes }
    }
}

pub open spec fn range_view(r: CoverageRange) -> (u32, u32, u32) {
    (r.start_offset, r.end_offset, r.count)
}

/// The ranges of all functions, flattened in order.
pub open spec fn all_ranges(fns: Seq<FunctionCoverage>) -> Seq<(u32, u32, u32)>
    decreases fns.len(),
{
    if fns.len() == 0 {
        Seq::empty()
    } else {
        all_ranges(fns.drop_last()) + fns.last().ranges@.map_values(|r: CoverageRange| range_view(r))
    }
}

/// Ascending order of ranges: by start, then end, then count.
pub open spec fn range_lt(a: (u32, u32, u32), b: (u32, u32, u32)) -> bool {
    a.0 < b.0 || (a.0 == b.0 && (a.1 < b.1 || (a.1 == b.1 && a.2 < b.2)))
}

/// `rs` holds the elements of `all` in another order.
pub open spec fn is_permutation_of(rs: Seq<(u32, u32, u32)>, all: Seq<(u32, u32, u32)>) -> bool {
    exists|perm: Seq<int>|
        perm.len() == all.len() && rs.len() == all.len() && (forall|p: int|
            0 <= p < rs.len() ==> 0 <= #[trigger] perm[p] < all.len() && rs[p] == all[perm[p]]) && (
        forall|p: int, q: int| 0 <= p < q < rs.len() ==> perm[p] != perm[q])
}

/// The tree after one more range: appended as the last child of the node
/// `find_node` selects for it, or left out where no node covers it.
pub open spec fn insert_range(a: Seq<NodeView>, rg: (u32, u32, u32)) -> Seq<NodeView> {
    match find_node(a, rg.0 as int, rg.1 as int) {
        Some(p) => a.update(
            p,
            NodeView { children: a[p].children.push(a.len() as usize), ..a[p] },
        ).push(NodeView { left: rg.0 as int, right: rg.1 as int, value: rg.2, children: Seq::empty() }),
        None => a,
    }
}

pub open spec fn insert_all(a: Seq<NodeView>, rs: Seq<(u32, u32, u32)>) -> Seq<NodeView>
    decreases rs.len(),
{
    if rs.len() == 0 {
        a
    } else {
        insert_range(insert_all(a, rs.drop_last()), rs.last())
    }
}

pub open spec fn flat_entry(flat: Seq<(u32, u32, u32)>, q: int) -> (Seq<char>, u32, u32, u32, usize) {
    (Seq::<char>::empty(), flat[q].0, flat[q].1, flat[q].2, q as usize)
}

proof fn lemma_sorted_ranges(flat: Seq<(u32, u32, u32)>, orig: Seq<SortEntry>, sorted: Seq<SortEntry>)
    requires
        orig.to_multiset() == sorted.to_multiset(),
        orig.len() == flat.len(),
        orig.len() <= usize::MAX,
        forall|q: int| 0 <= q < orig.len() ==> entry_view(#[trigger] orig[q]) == flat_entry(flat, q),
        forall|i: int, j: int| 0 <= i < j < sorted.len() ==> !entry_lt(entry_view(sorted[j]), entry_view(sorted[i])),
    ensures
        ({
            let rs = Seq::new(sorted.len(), |p: int| (sorted[p].1, sorted[p].2, sorted[p].3));
            is_permutation_of(rs, flat) && forall|p: int, q: int| 0 <= p < q < rs.len() ==> !range_lt(rs[q], rs[p])
        }),
{
    broadcast use vstd::seq_lib::to_multiset_len;

    let rs = Seq::new(sorted.len(), |p: int| (sorted[p].1, sorted[p].2, sorted[p].3));
    assert(orig.no_duplicates()) by {
        assert forall|i: int, j: int| 0 <= i < orig.len() && 0 <= j < orig.len() && i != j implies orig[i]
            != orig[j] by {
            assert(entry_view(orig[i]).4 == i);
            assert(entry_view(orig[j]).4 == j);
        }
    }
    crate::link::lemma_same_elements(orig, sorted);
    assert(orig.len() == orig.to_multiset().len());
    assert(sorted.len() == sorted.to_multiset().len());
    let perm = Seq::new(sorted.len(), |p: int| sorted[p].4 as int);
    assert forall|p: int| 0 <= p < rs.len() implies 0 <= #[trigger] perm[p] < flat.len() && rs[p] == flat[perm[p]] by {
        assert(orig.contains(sorted[p]));
        let j = choose|j: int| 0 <= j < orig.len() && orig[j] == sorted[p];
        assert(entry_view(orig[j]) == flat_entry(flat, j));
    }
    assert forall|p: int, q: int| 0 <= p < q < rs.len() implies perm[p] != perm[q] by {
        assert(orig.contains(sorted[p]));
        assert(orig.contains(sorted[q]));
        let a = choose|a: int| 0 <= a < orig.len() && orig[a] == sorted[p];
        let b = choose|b: int| 0 <= b < orig.len() && orig[b] == sorted[q];
        assert(entry_view(orig[a]) == flat_entry(flat, a));
        assert(entry_view(orig[b]) == flat_entry(flat, b));
        if a == b {
            assert(sorted[p] == sorted[q]);
        }
    }
    assert(perm.len() == flat.len() && rs.len() == flat.len() && (forall|p: int|
            0 <= p < rs.len() ==> 0 <= #[trigger] perm[p] < flat.len() && rs[p] == flat[perm[p]]) && (
        forall|p: int, q: int| 0 <= p < q < rs.len() ==> perm[p] != perm[q]));
    assert forall|p: int, q: int| 0 <= p < q < rs.len() implies !range_lt(rs[q], rs[p]) by {
        assert(!entry_lt(entry_view(sorted[q]), entry_view(sorted[p])));
        assert(!chars_lt(sorted[q].0@, sorted[p].0@)) by {
            assert(orig.contains(sorted[p]));
            assert(orig.contains(sorted[q]));
            let a = choose|a: int| 0 <= a < orig.len() && orig[a] == sorted[p];
            let b = choose|b: int| 0 <= b < orig.len() && orig[b] == sorted[q];
            assert(entry_view(orig[a]) == flat_entry(flat, a));
            assert(entry_view(orig[b]) == flat_entry(flat, b));
            assert(sorted[q].0@ == Seq::<char>::empty());
        }
        assert(sorted[q].0@ == sorted[p].0@) by {
            assert(orig.contains(sorted[p]));
            assert(orig.contains(sorted[q]));
            let a = choose|a: int| 0 <= a < orig.len() && orig[a] == sorted[p];
            let b = choose|b: int| 0 <= b < orig.len() && orig[b] == sorted[q];
            assert(entry_view(orig[a]) == flat_entry(flat, a));
            assert(entry_view(orig[b]) == flat_entry(flat, b));
        }
    }
}

/// Adds every range of the script's functions to the tree, in ascending
/// order of start, end and count, each under the node that `find_node`
/// selects for it; a range that no node covers is left out.
pub fn build_coverage_range_tree(root: &mut CoverRangeTree, script_fn_cov: &Vec<FunctionCoverage>)
    requires
        arena_wf(arena(old(root).nodes@)),
    ensures
        arena_wf(arena(final(root).nodes@)),
        exists|rs: Seq<(u32, u32, u32)>|
            is_permutation_of(rs, all_ranges(script_fn_cov@)) && (forall|p: int, q: int|
                0 <= p < q < rs.len() ==> !range_lt(rs[q], rs[p])) && arena(final(root).nodes@) == insert_all(
                arena(old(root).nodes@),
                rs,
            ),
{
    let ghost fns = script_fn_cov@;
    // sort keys with an empty text: start, end, count and position
    let mut entries: Vec<SortEntry> = Vec::new();
    let mut i: usize = 0;
    while i < script_fn_cov.len()
        invariant
            fns == script_fn_cov@,
            i <= fns.len(),
            entries@.len() == all_ranges(fns.subrange(0, i as int)).len(),
            forall|q: int| 0 <= q < entries@.len() ==> entry_view(#[trigger] entries@[q]) == flat_entry(all_ranges(fns.subrange(0, i as int)), q),
        decreases fns.len() - i,
    {
        let ghost before = all_ranges(fns.subrange(0, i as int));
        let rs = &script_fn_cov[i].ranges;
        let mut j: usize = 0;
        while j < rs.len()
            invariant
                j <= rs@.len(),
                entries@.len() == before.len() + j,
                forall|q: int| 0 <= q < entries@.len() ==> entry_view(#[trigger] entries@[q]) == flat_entry(
                    before + rs@.subrange(0, j as int).map_values(|r: CoverageRange| range_view(r)),
                    q,
                ),
            decreases rs@.len() - j,
        {
            let k = entries.len();
            let ghost prev = before + rs@.subrange(0, j as int).map_values(|r: CoverageRange| range_view(r));
            let ghost next = before + rs@.subrange(0, j + 1).map_values(|r: CoverageRange| range_view(r));
            assert(next =~= prev.push(range_view(rs@[j as int])));
            entries.push((Vec::new(), rs[j].start_offset, rs[j].end_offset, rs[j].count, k));
            assert forall|q: int| 0 <= q < entries@.len() implies entry_view(#[trigger] entries@[q]) == flat_entry(next, q) by {
                if q == k {
                    assert(entry_view(entries@[q]).0 =~= Seq::<char>::empty());
                }
            }
            j = j + 1;
        }
        assert(fns.subrange(0, i + 1).drop_last() =~= fns.subrange(0, i as int));
        assert(rs@.subrange(0, rs@.len() as int) =~= rs@);
        assert(all_ranges(fns.subrange(0, i + 1)) == before + rs@.map_values(|r: CoverageRange| range_view(r)));
        i = i + 1;
    }
    assert(fns.subrange(0, fns.len() as int) =~= fns);
    let ghost flat = all_ranges(fns);
    let ghost orig = entries@;
    assert(entries@.len() == entries.len());
    crate::link::sort_entries(&mut entries);
    proof {
        lemma_sorted_ranges(flat, orig, entries@);
    }
    let ghost rs = Seq::new(entries@.len(), |p: int| (entries@[p].1, entries@[p].2, entries@[p].3));
    let ghost start = arena(root.nodes@);
    let mut p: usize = 0;
    while p < entries.len()
        invariant
            p <= entries@.len(),
            rs == Seq::new(entries@.len(), |p: int| (entries@[p].1, entries@[p].2, entries@[p].3)),
            arena_wf(arena(root.nodes@)),
            arena(root.nodes@) == insert_all(start, rs.take(p as int)),
        decreases entries@.len() - p,
    {
        let range = CoverageRange { start_offset: entries[p].1, end_offset: entries[p].2, count: entries[p].3 };
        let ghost a = arena(root.nodes@);
        assert(rs.take(p + 1).drop_last() =~= rs.take(p as int));
        assert(rs.take(p + 1).last() == rs[p as int]);
        match find_root(root, &range) {
            Some(par) => {
                proof {
                    lemma_find_from(a, 0, range.start_offset as int, range.end_offset as int, 0);
                }
                let k = root.nodes.len();
                root.nodes[par].children.push(k);
                root.nodes.push(CoverRangeNode::new(&range));
                assert(find_node(a, rs[p as int].0 as int, rs[p as int].1 as int) == Some(par as int));
                assert(arena(root.nodes@).len() == a.len() + 1);
                assert(arena(root.nodes@)[par as int].children =~= a[par as int].children.push(k));
                assert(arena(root.nodes@)[par as int].left == a[par as int].left);
                assert(root.nodes@[k as int].children@ =~= Seq::<usize>::empty());
                assert(arena(root.nodes@)[k as int] == NodeView { left: rs[p as int].0 as int, right: rs[p as int].1 as int, value: rs[p as int].2, children: Seq::empty() });
                assert(arena(root.nodes@) =~= insert_range(a, rs[p as int]));
                assert forall|i: int, c: int|
                    0 <= i < arena(root.nodes@).len() && 0 <= c < arena(root.nodes@)[i].children.len() implies i
                        < #[trigger] arena(root.nodes@)[i].children[c] < arena(root.nodes@).len() by {
                    if i < a.len() && i != par {
                        assert(arena(root.nodes@)[i] == a[i]);
                    }
                    if i == par && c < a[i].children.len() {
                        assert(arena(root.nodes@)[i].children[c] == a[i].children[c]);
                    }
                }
            },
            None => {},
        }
        p = p + 1;
    }
    assert(rs.take(entries@.len() as int) =~= rs);
}

} // verus!
