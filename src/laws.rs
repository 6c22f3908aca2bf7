//! Properties that relate the results of several calls, proved from the
//! contracts of the functions they speak of.
use vstd::prelude::*;
use crate::lines::{line_lengths, line_starts, lemma_line_lengths, lemma_line_starts};
use crate::link::{
    LinkError, excluded_source, items_of, kept, link_outcome, path_of, reported, script_path,
    link_valid, token_start, token_in_range, tokens_ordered,
};
use crate::mapping::{ItemView, MappingItem, SourceFile, Token, views};
use crate::project::{projected, root_node};
use crate::report::{FileView, empty_file, merge_views, report_path, reports_of, sat_add};
use crate::tree::{NodeView, insert_all, query, find_node, find_from, insert_range};

verus! {

proof fn lemma_filter_all<A>(s: Seq<A>, pred: spec_fn(A) -> bool)
    requires
        forall|i: int| 0 <= i < s.len() ==> pred(#[trigger] s[i]),
    ensures
        s.filter(pred) == s,
    decreases s.len(),
{
    if s.len() > 0 {
        let t = s.drop_last();
        lemma_filter_all(t, pred);
        t.lemma_filter_push(s.last(), pred);
        assert(t.push(s.last()) =~= s);
    } else {
        assert(s.filter(pred) =~= s) by {
            reveal(Seq::filter);
        }
    }
}

proof fn lemma_token_start_bound(text: Seq<char>, t: Token)
    requires
        token_in_range(text, t),
    ensures
        0 <= token_start(text, t) <= line_starts(line_lengths(text))[t.dst_line + 1] - 1,
        line_starts(line_lengths(text))[t.dst_line + 1] - 1 <= text.len(),
{
    lemma_line_lengths(text);
    lemma_line_starts(line_lengths(text));
    let ls = line_starts(line_lengths(text));
    let l = t.dst_line as int;
    assert(ls[l + 1] == ls[l] + line_lengths(text)[l] + 1);
    assert(ls[0] <= ls[l]);
    assert(ls[l + 1] <= ls[line_lengths(text).len() as int]);
}

/// Some statement of `items` stands for token `k`.
pub open spec fn has_statement(items: Seq<ItemView>, k: int) -> bool {
    exists|p: int| 0 <= p < items.len() && items[p].idx == k
}

/// For a script whose every token comes from a reported source and which
/// meets the resolver's conditions, resolution succeeds with one statement
/// per token; each statement starts at its token, the order of statements by
/// generated start is the order of tokens, each span ends one character
/// before the next token starts, and the last token's span ends at the end
/// of its line: the spans are adjacent and never overlap.
pub proof fn law_generated_spans_contiguous(
    text: Seq<char>,
    sources: Seq<SourceFile>,
    tokens: Seq<Token>,
    r: Result<Vec<MappingItem>, LinkError>,
)
    requires
        link_outcome(text, sources, tokens, r),
        link_valid(text, sources, tokens),
        forall|k: int|
            0 <= k < tokens.len() ==> kept(sources, #[trigger] tokens[k]) && script_path(
                path_of(sources, tokens[k]),
            ),
    ensures
        r is Ok,
        ({
            let items = views(r->Ok_0@);
            &&& forall|k: int| 0 <= k < tokens.len() ==> #[trigger] has_statement(items, k)
            &&& forall|p: int| 0 <= p < items.len() ==> items[p].gs == token_start(text, tokens[items[p].idx])
            &&& forall|p: int| 0 <= p < items.len() ==> items[p].gs <= items[p].ge
            &&& forall|p: int, q: int|
                0 <= p < items.len() && 0 <= q < items.len() ==> (items[p].idx < items[q].idx <==> items[p].gs
                    < items[q].gs)
            &&& forall|p: int, q: int|
                0 <= p < items.len() && 0 <= q < items.len() && items[q].idx == items[p].idx + 1
                    ==> items[p].ge + 1 == items[q].gs
            &&& forall|p: int|
                0 <= p < items.len() && items[p].idx == tokens.len() - 1 ==> items[p].ge == line_starts(
                    line_lengths(text),
                )[tokens[items[p].idx].dst_line + 1] - 1
        }),
{
    let items = views(r->Ok_0@);
    let sv = choose|sv: Seq<(Seq<char>, u32, u32, u32, usize)>|
        crate::link::sorted_entries(text, sources, tokens, sv) && views(r->Ok_0@) == reported(
            items_of(text, sources, tokens, sv),
        );
    let all = items_of(text, sources, tokens, sv);
    assert forall|i: int| 0 <= i < all.len() implies script_path((#[trigger] all[i]).source) by {
        assert(sv[i].0 == path_of(sources, tokens[sv[i].4 as int]));
    }
    lemma_filter_all(all, |v: ItemView| script_path(v.source));
    assert(items == all);
    assert forall|p: int| 0 <= p < items.len() implies items[p].gs == token_start(text, tokens[items[p].idx])
        && items[p].gs <= items[p].ge by {
        let k = sv[p].4 as int;
        assert(items[p].idx == k);
        assert(token_in_range(text, tokens[k]));
        lemma_token_start_bound(text, tokens[k]);
        if k + 1 < tokens.len() {
            assert(token_start(text, tokens[k]) < token_start(text, tokens[k + 1]));
        }
    }
    assert forall|k: int| 0 <= k < tokens.len() implies #[trigger] has_statement(items, k) by {
        assert(kept(sources, tokens[k]));
        let p = choose|p: int| 0 <= p < sv.len() && sv[p].4 == k;
        assert(items[p].idx == k);
    }
    assert forall|p: int, q: int|
        0 <= p < items.len() && 0 <= q < items.len() implies (items[p].idx < items[q].idx <==> items[p].gs
        < items[q].gs) by {
        let a = sv[p].4 as int;
        let b = sv[q].4 as int;
        lemma_token_start_bound(text, tokens[a]);
        lemma_token_start_bound(text, tokens[b]);
        if a < b {
            lemma_starts_increase(text, tokens, a, b);
        } else if b < a {
            lemma_starts_increase(text, tokens, b, a);
        }
    }
    assert forall|p: int, q: int|
        0 <= p < items.len() && 0 <= q < items.len() && items[q].idx == items[p].idx + 1 implies items[p].ge + 1
        == items[q].gs by {
        let k = sv[p].4 as int;
        assert(sv[q].4 as int == k + 1);
        lemma_token_start_bound(text, tokens[k + 1]);
        assert(token_in_range(text, tokens[k + 1]));
    }
}

proof fn lemma_starts_increase(text: Seq<char>, tokens: Seq<Token>, a: int, b: int)
    requires
        tokens_ordered(text, tokens),
        0 <= a < b < tokens.len(),
    ensures
        token_start(text, tokens[a]) < token_start(text, tokens[b]),
    decreases b - a,
{
    if a + 1 < b {
        lemma_starts_increase(text, tokens, a + 1, b);
    }
    assert(token_start(text, tokens[a]) < token_start(text, tokens[a + 1]));
}

/// No statement of a resolved script comes from an excluded source or from a
/// source without a script extension, whatever its count.
pub proof fn law_reported_sources(
    text: Seq<char>,
    sources: Seq<SourceFile>,
    tokens: Seq<Token>,
    r: Result<Vec<MappingItem>, LinkError>,
)
    requires
        link_outcome(text, sources, tokens, r),
    ensures
        r matches Ok(items) ==> forall|p: int|
            0 <= p < items@.len() ==> !excluded_source((#[trigger] items@[p]).source@) && script_path(
                items@[p].source@,
            ),
{
    if r is Ok {
        let items = views(r->Ok_0@);
        let sv = choose|sv: Seq<(Seq<char>, u32, u32, u32, usize)>|
            crate::link::sorted_entries(text, sources, tokens, sv) && views(r->Ok_0@) == reported(
                items_of(text, sources, tokens, sv),
            );
        let all = items_of(text, sources, tokens, sv);
        let pred = |v: ItemView| script_path(v.source);
        #[allow(deprecated)]
        all.filter_lemma(pred);
        assert forall|p: int| 0 <= p < items.len() implies !excluded_source(items[p].source) && script_path(
            items[p].source,
        ) by {
            assert(pred(all.filter(pred)[p]));
            all.lemma_filter_contains_rev(pred, items[p]);
            assert(all.filter(pred).contains(items[p]));
            let i = choose|i: int| 0 <= i < all.len() && all[i] == items[p];
            assert(sv[i].0 == path_of(sources, tokens[sv[i].4 as int]));
        }
        assert forall|p: int| 0 <= p < r->Ok_0@.len() implies !excluded_source((#[trigger] r->Ok_0@[p]).source@)
            && script_path(r->Ok_0@[p].source@) by {
            assert(items[p] == r->Ok_0@[p]@);
        }
    }
}

/// A tree of the root alone answers every span inside the root with the
/// root's count; a tree built from one range over the whole root answers
/// every span inside it with that range's count.
pub proof fn law_single_range_query(n: u32, c: u32, l: int, r: int)
    requires
        0 <= l,
        r <= n,
    ensures
        query(seq![root_node(n as int)], l, r) == Some(0u32),
        query(insert_all(seq![root_node(n as int)], seq![(0u32, n, c)]), l, r) == Some(c),
{
    let t0 = seq![root_node(n as int)];
    assert(find_from(t0, 0, l, r, 0) == Some(0int));
    assert(find_node(t0, l, r) == Some(0int));
    let rs = seq![(0u32, n, c)];
    assert(rs.drop_last() =~= Seq::<(u32, u32, u32)>::empty());
    assert(insert_all(t0, rs.drop_last()) == t0);
    let t1 = insert_range(t0, (0u32, n, c));
    assert(insert_all(t0, rs) == t1);
    assert(t1.len() == 2);
    assert(t1[0].children =~= seq![1usize]);
    assert(t1[1].children.len() == 0);
    assert(find_from(t1, 1, l, r, 0) == Some(1int));
    assert(find_from(t1, 0, l, r, 1) == Some(0int));
    assert(find_from(t1, 0, l, r, 0) == Some(1int));
    assert(find_node(t1, l, r) == Some(1int));
}

/// Merging the same report twice leaves each location as merging it once
/// does, and adds its counts twice.
pub proof fn law_merge_twice(acc: Map<Seq<char>, FileView>, r: Map<Seq<char>, FileView>)
    ensures
        ({
            let once = merge_views(acc, r);
            let twice = merge_views(once, r);
            &&& twice.dom() == once.dom()
            &&& forall|p: Seq<char>| #[trigger] twice.contains_key(p) ==> twice[p].locs == once[p].locs
            &&& forall|p: Seq<char>, id: usize|
                r.contains_key(p) && #[trigger] r[p].counts.contains_key(id) ==> twice[p].counts[id] == sat_add(
                    once[p].counts[id],
                    r[p].counts[id],
                )
        }),
{
    let once = merge_views(acc, r);
    let twice = merge_views(once, r);
    assert(twice.dom() =~= once.dom());
    assert forall|p: Seq<char>| #[trigger] twice.contains_key(p) implies twice[p].locs == once[p].locs by {
        if r.contains_key(p) {
            let a = if acc.contains_key(p) {
                acc[p]
            } else {
                empty_file()
            };
            assert(once[p].locs.union_prefer_right(r[p].locs) =~= once[p].locs);
        }
    }
}

/// Merging a report twice into an empty accumulator yields its locations and
/// twice its counts, where twice a count fits.
pub proof fn law_merge_twice_doubles(r: Map<Seq<char>, FileView>)
    requires
        forall|p: Seq<char>, id: usize|
            r.contains_key(p) && #[trigger] r[p].counts.contains_key(id) ==> 2 * r[p].counts[id] <= u32::MAX,
    ensures
        ({
            let twice = merge_views(merge_views(Map::empty(), r), r);
            &&& twice.dom() == r.dom()
            &&& forall|p: Seq<char>| #[trigger] r.contains_key(p) ==> twice[p].locs == r[p].locs && twice[p].counts.dom()
                == r[p].counts.dom()
            &&& forall|p: Seq<char>, id: usize|
                r.contains_key(p) && #[trigger] r[p].counts.contains_key(id) ==> twice[p].counts[id] as int == 2
                    * r[p].counts[id]
        }),
{
    let once = merge_views(Map::empty(), r);
    let twice = merge_views(once, r);
    assert(twice.dom() =~= r.dom());
    assert forall|p: Seq<char>| #[trigger] r.contains_key(p) implies twice[p].locs == r[p].locs
        && twice[p].counts.dom() == r[p].counts.dom() by {
        assert(empty_file().locs.union_prefer_right(r[p].locs) =~= r[p].locs);
        assert(once[p].locs.union_prefer_right(r[p].locs) =~= r[p].locs);
        assert(once[p].counts.dom() =~= r[p].counts.dom());
        assert(twice[p].counts.dom() =~= r[p].counts.dom());
    }
}

/// A report's files are those of its statements' sources, whatever the
/// counts: attaching counts from any range tree leaves the paths, the
/// locations and the statement ids of the report unchanged, and each path
/// comes from some statement's source.
pub proof fn law_report_paths(base: Seq<char>, nodes: Seq<NodeView>, items: Seq<ItemView>)
    ensures
        reports_of(base, projected(nodes, items)).dom() == reports_of(base, items).dom(),
        forall|p: Seq<char>|
            #[trigger] reports_of(base, items).contains_key(p) ==> reports_of(base, projected(nodes, items))[p].locs
                == reports_of(base, items)[p].locs && reports_of(base, projected(nodes, items))[p].counts.dom()
                == reports_of(base, items)[p].counts.dom(),
        forall|p: Seq<char>|
            #[trigger] reports_of(base, items).contains_key(p) ==> exists|i: int|
                0 <= i < items.len() && p == report_path(base, items[i].source),
    decreases items.len(),
{
    let pr = projected(nodes, items);
    if items.len() > 0 {
        let t = items.drop_last();
        law_report_paths(base, nodes, t);
        assert(pr.drop_last() =~= projected(nodes, t));
        let a = reports_of(base, t);
        let b = reports_of(base, projected(nodes, t));
        let p = report_path(base, items.last().source);
        assert(pr.last().source == items.last().source);
        assert(reports_of(base, pr).dom() =~= reports_of(base, items).dom());
        assert forall|q: Seq<char>| #[trigger] reports_of(base, items).contains_key(q) implies reports_of(
            base,
            pr,
        )[q].locs == reports_of(base, items)[q].locs && reports_of(base, pr)[q].counts.dom() == reports_of(
            base,
            items,
        )[q].counts.dom() by {
            if q == p {
                assert(reports_of(base, pr)[q].counts.dom() =~= reports_of(base, items)[q].counts.dom());
            }
        }
        assert forall|q: Seq<char>| #[trigger] reports_of(base, items).contains_key(q) implies exists|i: int|
            0 <= i < items.len() && q == report_path(base, items[i].source) by {
            if q == p {
                assert(q == report_path(base, items[items.len() - 1].source));
            } else {
                assert(a.contains_key(q));
                let i = choose|i: int| 0 <= i < t.len() && q == report_path(base, t[i].source);
                assert(items[i] == t[i]);
            }
        }
    } else {
        assert(reports_of(base, pr).dom() =~= reports_of(base, items).dom());
    }
}

/// The count a report holds for an id, zero where it has none.
pub open spec fn count_or_zero(m: Map<Seq<char>, FileView>, p: Seq<char>, id: usize) -> int {
    if m.contains_key(p) && m[p].counts.contains_key(id) {
        m[p].counts[id] as int
    } else {
        0
    }
}

/// Merging the same report twice into any accumulator adds twice its counts
/// to what the accumulator held, where the sum fits.
pub proof fn law_merge_twice_adds(acc: Map<Seq<char>, FileView>, r: Map<Seq<char>, FileView>)
    requires
        forall|p: Seq<char>, id: usize|
            r.contains_key(p) && #[trigger] r[p].counts.contains_key(id) ==> count_or_zero(acc, p, id) + 2
                * r[p].counts[id] <= u32::MAX,
    ensures
        forall|p: Seq<char>, id: usize|
            r.contains_key(p) && #[trigger] r[p].counts.contains_key(id) ==> merge_views(merge_views(acc, r), r)[p].counts[id]
                as int == count_or_zero(acc, p, id) + 2 * r[p].counts[id],
{
    let once = merge_views(acc, r);
    assert forall|p: Seq<char>, id: usize| r.contains_key(p) && #[trigger] r[p].counts.contains_key(id) implies merge_views(
        once,
        r,
    )[p].counts[id] as int == count_or_zero(acc, p, id) + 2 * r[p].counts[id] by {
        assert(once.contains_key(p));
        assert(once[p].counts.contains_key(id));
        assert(once[p].counts[id] as int == count_or_zero(acc, p, id) + r[p].counts[id]);
    }
}

} // verus!
