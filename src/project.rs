//! Execution counts attached to statements, and the per-file report of one
//! coverage sample of a script.
use vstd::prelude::*;
use crate::mapping::{ItemView, MappingItem, views};
use crate::report::{CoverageReport, from, reports_of};
use crate::tree::{
    CoverRangeNode, CoverRangeNodeRead, CoverRangeTree, CoverageRange, NodeView, ScriptCoverage,
    all_ranges, arena, arena_wf, build_coverage_range_tree, find_root_value_only, insert_all,
    is_permutation_of, query, range_lt, read_only,
};

verus! {

/// The resolved statements of one script, and the directory its original
/// sources are reported under.
#[derive(Clone, Debug)]
pub struct Statement {
    pub source_url: String,
    pub code_dir: String,
    pub mapping: Vec<MappingItem>,
}

/// The count of a statement: that of the innermost range around its
/// generated span, or its own count where no range covers the span.
pub open spec fn counted(nodes: Seq<NodeView>, m: ItemView) -> int {
    match query(nodes, m.gs, m.ge) {
        Some(v) => v as int,
        None => m.count,
    }
}

pub open spec fn with_count(nodes: Seq<NodeView>, m: ItemView) -> ItemView {
    ItemView { count: counted(nodes, m), ..m }
}

pub open spec fn projected(nodes: Seq<NodeView>, ms: Seq<ItemView>) -> Seq<ItemView> {
    ms.map_values(|m: ItemView| with_count(nodes, m))
}

/// The count of `item` in `tree`, as `counted` states it.
pub fn count_for(tree: &CoverRangeNodeRead, item: &MappingItem) -> (r: u32)
    requires
        arena_wf(arena(tree.nodes@)),
    ensures
        r as int == counted(arena(tree.nodes@), item@),
{
    let range = CoverageRange {
        start_offset: item.generated_column,
        end_offset: item.last_generated_column,
        count: 0,
    };
    match find_root_value_only(tree, &range) {
        Some(n) => n,
        None => item.count,
    }
}

/// The statements with their counts from `tree`; every other field kept.
pub fn project_counts(tree: &CoverRangeNodeRead, items: &Vec<MappingItem>) -> (r: Vec<MappingItem>)
    requires
        arena_wf(arena(tree.nodes@)),
    ensures
        views(r@) == projected(arena(tree.nodes@), views(items@)),
{
    let mut out: Vec<MappingItem> = Vec::new();
    let mut i: usize = 0;
    while i < items.len()
        invariant
            i <= items@.len(),
            arena_wf(arena(tree.nodes@)),
            views(out@) == projected(arena(tree.nodes@), views(items@)).take(i as int),
        decreases items@.len() - i,
    {
        let m = &items[i];
        let c = count_for(tree, m);
        let n = MappingItem {
            source: m.source.clone(),
            generated_column: m.generated_column,
            last_generated_column: m.last_generated_column,
            original_line: m.original_line,
            original_column: m.original_column,
            last_original_line: m.last_original_line,
            last_original_column: m.last_original_column,
            count: c,
            idx: m.idx,
        };
        assert(n@ == with_count(arena(tree.nodes@), m@));
        let ghost before = out@;
        out.push(n);
        assert(views(out@) =~= views(before).push(n@));
        assert(views(out@) =~= projected(arena(tree.nodes@), views(items@)).take(i + 1));
        i = i + 1;
    }
    assert(projected(arena(tree.nodes@), views(items@)).take(items@.len() as int) =~= projected(
        arena(tree.nodes@),
        views(items@),
    ));
    out
}

/// The root of a script's range tree: the whole text, counted zero.
pub open spec fn root_node(len: int) -> NodeView {
    NodeView { left: 0, right: len, value: 0, children: Seq::empty() }
}

/// `nodes` is the range tree of a script of `len` offsets with functions `fns`.
pub open spec fn tree_of(len: int, fns: Seq<crate::tree::FunctionCoverage>, nodes: Seq<NodeView>) -> bool {
    exists|rs: Seq<(u32, u32, u32)>|
        is_permutation_of(rs, all_ranges(fns)) && (forall|p: int, q: int|
            0 <= p < q < rs.len() ==> !range_lt(rs[q], rs[p])) && nodes == insert_all(seq![root_node(len)], rs)
}

/// The length of a script text as the root of its range tree: its number of
/// characters, held at `u32::MAX`.
pub open spec fn script_len(n: nat) -> int {
    if n > u32::MAX {
        u32::MAX as int
    } else {
        n as int
    }
}

/// The per-file report of one coverage sample of a script: the range tree of
/// the sample, the statements counted against it, grouped under `code_dir`.
pub fn handle_script_coverage(statement: &Statement, sc: &ScriptCoverage) -> (r: CoverageReport)
    ensures
        r.wf(),
        exists|nodes: Seq<NodeView>|
            tree_of(script_len(sc.source@.len()), sc.functions@, nodes) && arena_wf(nodes) && r.view()
                == reports_of(statement.code_dir@, projected(nodes, views(statement.mapping@))),
{
    let n = crate::text::chars_of(sc.source.as_str()).len();
    let right: u32 = if n > u32::MAX as usize {
        u32::MAX
    } else {
        n as u32
    };
    let root = CoverRangeNode::new(&CoverageRange { start_offset: 0, end_offset: right, count: 0 });
    assert(root.children@ =~= Seq::<usize>::empty());
    let mut tree = CoverRangeTree::new(root);
    assert(arena(tree.nodes@) =~= seq![root_node(right as int)]);
    build_coverage_range_tree(&mut tree, &sc.functions);
    let frozen = read_only(tree);
    let counted_items = project_counts(&frozen, &statement.mapping);
    let r = from(&counted_items, statement.code_dir.as_str());
    r
}

} // verus!
