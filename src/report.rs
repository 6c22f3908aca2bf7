//! Per-file statement reports, grouped by the normalised absolute path of
//! each statement's source, and their additive merge.
use vstd::prelude::*;
use crate::assoc::{assoc, unique_keys, lemma_assoc_index, lemma_assoc_update, find_key};
use crate::mapping::{ItemView, MappingItem, views};
use crate::paths::{join_path, normalize, path_join, path_normalize};

verus! {

/// A position in a report: 1-based line, 0-based column.
#[derive(Clone, Copy, Debug, PartialEq, Eq)]
pub struct Position {
    pub line: u64,
    pub column: u32,
}

/// Where a statement starts and ends.
#[derive(Clone, Copy, Debug, PartialEq, Eq)]
pub struct StatementMap {
    pub start: Position,
    pub end: Position,
}

/// The statement report of one original file: the location and the count of
/// each statement id, as association lists with unique ids.
#[derive(Clone, Debug)]
pub struct IstanbulCov {
    pub path: String,
    pub statement_map: Vec<(usize, StatementMap)>,
    pub s: Vec<(usize, u32)>,
}

/// Reports keyed by file path, each path once.
#[derive(Clone, Debug)]
pub struct CoverageReport {
    pub files: Vec<IstanbulCov>,
}

/// The content of a file report: locations and counts by statement id.
pub struct FileView {
    pub locs: Map<usize, StatementMap>,
    pub counts: Map<usize, u32>,
}

pub open spec fn file_view(f: IstanbulCov) -> FileView {
    FileView { locs: assoc(f.statement_map@), counts: assoc(f.s@) }
}

pub open spec fn empty_file() -> FileView {
    FileView { locs: Map::empty(), counts: Map::empty() }
}

pub open spec fn file_wf(f: IstanbulCov) -> bool {
    unique_keys(f.statement_map@) && unique_keys(f.s@)
}

pub open spec fn file_entries(files: Seq<IstanbulCov>) -> Seq<(Seq<char>, FileView)> {
    files.map_values(|f: IstanbulCov| (f.path@, file_view(f)))
}

impl CoverageReport {
    pub open spec fn wf(&self) -> bool {
        &&& unique_keys(file_entries(self.files@))
        &&& forall|i: int| 0 <= i < self.files@.len() ==> file_wf(#[trigger] self.files@[i])
    }

    /// The reports by path.
    pub open spec fn view(&self) -> Map<Seq<char>, FileView> {
        assoc(file_entries(self.files@))
    }

    /// A report of no files.
    pub fn new() -> (r: Self)
        ensures
            r.wf(),
            r.files@.len() == 0,
            r.view() == Map::<Seq<char>, FileView>::empty(),
    {
        let r = CoverageReport { files: Vec::new() };
        assert(file_entries(r.files@) =~= Seq::<(Seq<char>, FileView)>::empty());
        r
    }
}

/// The absolute path of a statement's source under `base`.
pub open spec fn report_path(base: Seq<char>, source: Seq<char>) -> Seq<char> {
    normalize(join_path(base, source))
}

/// The location of a statement in a report.
pub open spec fn item_location(m: ItemView) -> StatementMap {
    StatementMap {
        start: Position { line: (m.osl + 1) as u64, column: m.osc as u32 },
        end: Position { line: (m.oel + 1) as u64, column: m.oec as u32 },
    }
}

/// The reports of `items` under `base`: statement `k` goes to the file of
/// its source, with id `k`.
pub open spec fn reports_of(base: Seq<char>, items: Seq<ItemView>) -> Map<Seq<char>, FileView>
    decreases items.len(),
{
    if items.len() == 0 {
        Map::empty()
    } else {
        let prev = reports_of(base, items.drop_last());
        let m = items.last();
        let p = report_path(base, m.source);
        let f = if prev.contains_key(p) {
            prev[p]
        } else {
            empty_file()
        };
        let k = (items.len() - 1) as usize;
        prev.insert(
            p,
            FileView { locs: f.locs.insert(k, item_location(m)), counts: f.counts.insert(k, m.count as u32) },
        )
    }
}

proof fn lemma_entries_update(files: Seq<IstanbulCov>, i: int, f: IstanbulCov)
    requires
        0 <= i < files.len(),
        f.path@ == files[i].path@,
        unique_keys(file_entries(files)),
    ensures
        file_entries(files.update(i, f)) == file_entries(files).update(i, (files[i].path@, file_view(f))),
        assoc(file_entries(files.update(i, f))) == assoc(file_entries(files)).insert(files[i].path@, file_view(f)),
        unique_keys(file_entries(files.update(i, f))),
{
    assert(file_entries(files.update(i, f)) =~= file_entries(files).update(
        i,
        (file_entries(files)[i].0, file_view(f)),
    ));
    lemma_assoc_update(file_entries(files), i, file_view(f));
}

fn find_file(files: &Vec<IstanbulCov>, path: &String) -> (r: Option<usize>)
    ensures
        r matches Some(i) ==> i < files@.len() && files@[i as int].path@ == path@,
        r is None ==> forall|i: int| 0 <= i < files@.len() ==> files@[i].path@ != path@,
{
    let mut i: usize = 0;
    while i < files.len()
        invariant
            i <= files@.len(),
            forall|j: int| 0 <= j < i ==> files@[j].path@ != path@,
        decreases files@.len() - i,
    {
        if files[i].path == *path {
            return Some(i);
        }
        i = i + 1;
    }
    None
}

/// Groups statements into per-file reports: statement `k` of `vs` gets id `k`
/// in the report of the normalised path of `base_dir` joined with its source.
pub fn from(vs: &Vec<MappingItem>, base_dir: &str) -> (r: CoverageReport)
    ensures
        r.wf(),
        r.view() == reports_of(base_dir@, views(vs@)),
{
    let mut r = CoverageReport::new();
    let mut k: usize = 0;
    assert(views(vs@).take(0) =~= Seq::<ItemView>::empty());
    while k < vs.len()
        invariant
            k <= vs@.len(),
            r.wf(),
            r.view() == reports_of(base_dir@, views(vs@).take(k as int)),
            forall|i: int, j: int|
                0 <= i < r.files@.len() && 0 <= j < r.files@[i].statement_map@.len() ==> (
                #[trigger] r.files@[i].statement_map@[j]).0 < k,
            forall|i: int, j: int|
                0 <= i < r.files@.len() && 0 <= j < r.files@[i].s@.len() ==> (
                #[trigger] r.files@[i].s@[j]).0 < k,
        decreases vs@.len() - k,
    {
        let x = &vs[k];
        let path = path_normalize(path_join(base_dir, x.source.as_str()).as_str());
        let loc = StatementMap {
            start: Position { line: x.original_line as u64 + 1, column: x.original_column },
            end: Position { line: x.last_original_line as u64 + 1, column: x.last_original_column },
        };
        assert(views(vs@).take(k + 1).drop_last() =~= views(vs@).take(k as int));
        assert(views(vs@).take(k + 1).last() == vs@[k as int]@);
        let ghost prev = r.view();
        let ghost p = path@;
        proof {
            lemma_assoc_index(file_entries(r.files@));
        }
        match find_file(&r.files, &path) {
            Some(i) => {
                let ghost old_files = r.files@;
                let ghost f0 = r.files@[i as int];
                assert(file_entries(old_files)[i as int].0 == p);
                let mut f = IstanbulCov {
                    path: r.files[i].path.clone(),
                    statement_map: copy_locs(&r.files[i].statement_map),
                    s: copy_counts(&r.files[i].s),
                };
                f.statement_map.push((k, loc));
                f.s.push((k, x.count));
                assert(file_wf(f)) by {
                    assert forall|a: int, b: int| 0 <= a < b < f.statement_map@.len() implies f.statement_map@[a].0
                        != f.statement_map@[b].0 by {
                        if b == f.statement_map@.len() - 1 {
                            assert(f0.statement_map@[a].0 < k);
                        }
                    }
                    assert forall|a: int, b: int| 0 <= a < b < f.s@.len() implies f.s@[a].0 != f.s@[b].0 by {
                        if b == f.s@.len() - 1 {
                            assert(f0.s@[a].0 < k);
                        }
                    }
                }
                proof {
                    lemma_entries_update(old_files, i as int, f);
                    assert(prev.contains_key(p));
                    assert(prev[p] == file_view(f0));
                    assert(f.statement_map@.drop_last() =~= f0.statement_map@);
                    assert(f.s@.drop_last() =~= f0.s@);
                    assert(file_view(f).locs =~= file_view(f0).locs.insert(k, loc));
                    assert(file_view(f).counts =~= file_view(f0).counts.insert(k, x.count));
                }
                r.files.set(i, f);
                assert(r.files@ == old_files.update(i as int, f));
                assert(r.view() =~= reports_of(base_dir@, views(vs@).take(k + 1)));
            },
            None => {
                let ghost old_files = r.files@;
                let mut sm: Vec<(usize, StatementMap)> = Vec::new();
                sm.push((k, loc));
                let mut s: Vec<(usize, u32)> = Vec::new();
                s.push((k, x.count));
                let f = IstanbulCov { path, statement_map: sm, s };
                r.files.push(f);
                proof {
                    assert(!prev.contains_key(p)) by {
                        if prev.contains_key(p) {
                            let j = choose|j: int| 0 <= j < file_entries(old_files).len() && file_entries(old_files)[j].0 == p;
                            assert(old_files[j].path@ == p);
                        }
                    }
                    assert(file_entries(r.files@) =~= file_entries(old_files).push((p, file_view(f))));
                    assert(file_entries(r.files@).drop_last() =~= file_entries(old_files));
                    assert(assoc(sm@) =~= Map::<usize, StatementMap>::empty().insert(k, loc)) by {
                        assert(sm@.drop_last() =~= Seq::<(usize, StatementMap)>::empty());
                        assert(assoc(Seq::<(usize, StatementMap)>::empty()) == Map::<usize, StatementMap>::empty());
                    }
                    assert(assoc(s@) =~= Map::<usize, u32>::empty().insert(k, x.count)) by {
                        assert(s@.drop_last() =~= Seq::<(usize, u32)>::empty());
                        assert(assoc(Seq::<(usize, u32)>::empty()) == Map::<usize, u32>::empty());
                    }
                    assert(unique_keys(file_entries(r.files@))) by {
                        assert forall|a: int, b: int| 0 <= a < b < file_entries(r.files@).len() implies file_entries(r.files@)[a].0 != file_entries(r.files@)[b].0 by {
                            if b == file_entries(r.files@).len() - 1 {
                                assert(file_entries(old_files)[a].0 == old_files[a].path@);
                            }
                        }
                    }
                }
                assert(r.view() =~= reports_of(base_dir@, views(vs@).take(k + 1)));
            },
        }
        k = k + 1;
    }
    assert(views(vs@).take(vs@.len() as int) =~= views(vs@));
    r
}

fn copy_locs(v: &Vec<(usize, StatementMap)>) -> (r: Vec<(usize, StatementMap)>)
    ensures
        r@ == v@,
{
    let mut r: Vec<(usize, StatementMap)> = Vec::new();
    let mut i: usize = 0;
    while i < v.len()
        invariant
            i <= v@.len(),
            r@ == v@.subrange(0, i as int),
        decreases v@.len() - i,
    {
        r.push(v[i]);
        i = i + 1;
    }
    assert(r@ =~= v@);
    r
}

fn copy_counts(v: &Vec<(usize, u32)>) -> (r: Vec<(usize, u32)>)
    ensures
        r@ == v@,
{
    let mut r: Vec<(usize, u32)> = Vec::new();
    let mut i: usize = 0;
    while i < v.len()
        invariant
            i <= v@.len(),
            r@ == v@.subrange(0, i as int),
        decreases v@.len() - i,
    {
        r.push(v[i]);
        i = i + 1;
    }
    assert(r@ =~= v@);
    r
}

/// Addition of counts, held at `u32::MAX`.
pub open spec fn sat_add(x: u32, y: u32) -> u32 {
    if x + y > u32::MAX {
        u32::MAX
    } else {
        (x + y) as u32
    }
}

/// Counts of both maps, added where both have an id.
pub open spec fn add_counts(a: Map<usize, u32>, b: Map<usize, u32>) -> Map<usize, u32> {
    Map::new(
        |k: usize| a.contains_key(k) || b.contains_key(k),
        |k: usize|
            if a.contains_key(k) && b.contains_key(k) {
                sat_add(a[k], b[k])
            } else if a.contains_key(k) {
                a[k]
            } else {
                b[k]
            },
    )
}

/// A file report merged with another: each location taken from the second
/// where it has one, counts added.
pub open spec fn merge_file(a: FileView, b: FileView) -> FileView {
    FileView { locs: a.locs.union_prefer_right(b.locs), counts: add_counts(a.counts, b.counts) }
}

/// Reports merged path by path.
pub open spec fn merge_views(a: Map<Seq<char>, FileView>, b: Map<Seq<char>, FileView>) -> Map<Seq<char>, FileView> {
    Map::new(
        |p: Seq<char>| a.contains_key(p) || b.contains_key(p),
        |p: Seq<char>|
            if b.contains_key(p) {
                merge_file(
                    if a.contains_key(p) {
                        a[p]
                    } else {
                        empty_file()
                    },
                    b[p],
                )
            } else {
                a[p]
            },
    )
}

fn sat_add_exec(x: u32, y: u32) -> (r: u32)
    ensures
        r == sat_add(x, y),
{
    if x > u32::MAX - y {
        u32::MAX
    } else {
        x + y
    }
}

proof fn lemma_assoc_take<K, V>(s: Seq<(K, V)>, q: int)
    requires
        0 <= q < s.len(),
    ensures
        assoc(s.take(q + 1)) == assoc(s.take(q)).insert(s[q].0, s[q].1),
{
    assert(s.take(q + 1).drop_last() =~= s.take(q));
}

proof fn lemma_take_lacks<K, V>(s: Seq<(K, V)>, q: int)
    requires
        0 <= q < s.len(),
        unique_keys(s),
    ensures
        !assoc(s.take(q)).contains_key(s[q].0),
        unique_keys(s.take(q)),
{
    let t = s.take(q);
    assert(unique_keys(t));
    lemma_assoc_index(t);
    if assoc(t).contains_key(s[q].0) {
        let i = choose|i: int| 0 <= i < t.len() && t[i].0 == s[q].0;
        assert(s[i].0 == s[q].0);
    }
}

/// Merges file report `g` into `f`.
fn merge_into(f: &mut IstanbulCov, g: &IstanbulCov)
    requires
        file_wf(*old(f)),
        file_wf(*g),
    ensures
        file_wf(*final(f)),
        final(f).path@ == old(f).path@,
        file_view(*final(f)) == merge_file(file_view(*old(f)), file_view(*g)),
{
    let ghost a = file_view(*f);
    let mut q: usize = 0;
    assert(g.statement_map@.take(0) =~= Seq::<(usize, StatementMap)>::empty());
    assert(a.locs.union_prefer_right(assoc(g.statement_map@.take(0))) =~= a.locs);
    while q < g.statement_map.len()
        invariant
            q <= g.statement_map@.len(),
            file_wf(*f),
            file_wf(*g),
            f.path@ == old(f).path@,
            a == file_view(*old(f)),
            assoc(f.s@) == a.counts,
            assoc(f.statement_map@) == a.locs.union_prefer_right(assoc(g.statement_map@.take(q as int))),
        decreases g.statement_map@.len() - q,
    {
        let (id, loc) = g.statement_map[q];
        proof {
            lemma_assoc_take(g.statement_map@, q as int);
        }
        let ghost before = f.statement_map@;
        match find_key(&f.statement_map, id) {
            Some(j) => {
                proof {
                    lemma_assoc_update(before, j as int, loc);
                }
                f.statement_map.set(j, (id, loc));
                assert(f.statement_map@ == before.update(j as int, (before[j as int].0, loc)));
            },
            None => {
                f.statement_map.push((id, loc));
                assert(f.statement_map@.drop_last() =~= before);
                assert(unique_keys(f.statement_map@)) by {
                    assert forall|x: int, y: int| 0 <= x < y < f.statement_map@.len() implies f.statement_map@[x].0
                        != f.statement_map@[y].0 by {
                        if y == f.statement_map@.len() - 1 {
                            assert(before[x].0 != id);
                        }
                    }
                }
            },
        }
        assert(assoc(f.statement_map@) =~= a.locs.union_prefer_right(assoc(g.statement_map@.take(q + 1))));
        q = q + 1;
    }
    assert(g.statement_map@.take(g.statement_map@.len() as int) =~= g.statement_map@);
    let mut q: usize = 0;
    assert(g.s@.take(0) =~= Seq::<(usize, u32)>::empty());
    assert(add_counts(a.counts, assoc(g.s@.take(0))) =~= a.counts);
    while q < g.s.len()
        invariant
            q <= g.s@.len(),
            file_wf(*f),
            file_wf(*g),
            f.path@ == old(f).path@,
            a == file_view(*old(f)),
            assoc(f.statement_map@) == a.locs.union_prefer_right(assoc(g.statement_map@)),
            assoc(f.s@) == add_counts(a.counts, assoc(g.s@.take(q as int))),
        decreases g.s@.len() - q,
    {
        let (id, c) = g.s[q];
        proof {
            lemma_assoc_take(g.s@, q as int);
            lemma_take_lacks(g.s@, q as int);
            lemma_assoc_index(f.s@);
        }
        let ghost before = f.s@;
        let ghost bq = assoc(g.s@.take(q as int));
        match find_key(&f.s, id) {
            Some(j) => {
                let old_count = f.s[j].1;
                assert(assoc(before)[id] == old_count);
                assert(a.counts.contains_key(id));
                let n = sat_add_exec(old_count, c);
                proof {
                    lemma_assoc_update(before, j as int, n);
                }
                f.s.set(j, (id, n));
                assert(f.s@ == before.update(j as int, (before[j as int].0, n)));
            },
            None => {
                f.s.push((id, c));
                assert(f.s@.drop_last() =~= before);
                assert(!assoc(before).contains_key(id));
                assert(unique_keys(f.s@)) by {
                    assert forall|x: int, y: int| 0 <= x < y < f.s@.len() implies f.s@[x].0 != f.s@[y].0 by {
                        if y == f.s@.len() - 1 {
                            assert(before[x].0 != id);
                        }
                    }
                }
            },
        }
        assert(assoc(f.s@) =~= add_counts(a.counts, assoc(g.s@.take(q + 1))));
        q = q + 1;
    }
    assert(g.s@.take(g.s@.len() as int) =~= g.s@);
    assert(file_view(*f) =~= merge_file(a, file_view(*g)));
}

proof fn lemma_merge_step(a: Map<Seq<char>, FileView>, b: Map<Seq<char>, FileView>, p: Seq<char>, f: FileView)
    requires
        !b.contains_key(p),
    ensures
        merge_views(a, b.insert(p, f)) == merge_views(a, b).insert(
            p,
            merge_file(
                if merge_views(a, b).contains_key(p) {
                    merge_views(a, b)[p]
                } else {
                    empty_file()
                },
                f,
            ),
        ),
{
    assert(merge_views(a, b.insert(p, f)) =~= merge_views(a, b).insert(
        p,
        merge_file(
            if merge_views(a, b).contains_key(p) {
                merge_views(a, b)[p]
            } else {
                empty_file()
            },
            f,
        ),
    ));
}

/// Merges `report` into the accumulated `acc`: per path and statement id,
/// the location is taken once and the counts are added.
pub fn merge(acc: &mut CoverageReport, report: &CoverageReport)
    requires
        old(acc).wf(),
        report.wf(),
    ensures
        final(acc).wf(),
        final(acc).view() == merge_views(old(acc).view(), report.view()),
{
    let ghost a = acc.view();
    let ghost rf = file_entries(report.files@);
    let mut i: usize = 0;
    assert(rf.take(0) =~= Seq::<(Seq<char>, FileView)>::empty());
    assert(merge_views(a, assoc(rf.take(0))) =~= a);
    while i < report.files.len()
        invariant
            i <= report.files@.len(),
            rf == file_entries(report.files@),
            report.wf(),
            acc.wf(),
            acc.view() == merge_views(a, assoc(rf.take(i as int))),
        decreases report.files@.len() - i,
    {
        let g = &report.files[i];
        assert(rf[i as int] == (g.path@, file_view(*g)));
        proof {
            lemma_assoc_take(rf, i as int);
            lemma_take_lacks(rf, i as int);
            lemma_merge_step(a, assoc(rf.take(i as int)), g.path@, file_view(*g));
            lemma_assoc_index(file_entries(acc.files@));
        }
        let ghost cur = acc.view();
        let j = match find_file(&acc.files, &g.path) {
            Some(j) => j,
            None => {
                let ghost old_files = acc.files@;
                let e = IstanbulCov { path: g.path.clone(), statement_map: Vec::new(), s: Vec::new() };
                acc.files.push(e);
                proof {
                    assert(!cur.contains_key(g.path@)) by {
                        if cur.contains_key(g.path@) {
                            let k = choose|k: int| 0 <= k < file_entries(old_files).len() && file_entries(old_files)[k].0 == g.path@;
                            assert(old_files[k].path@ == g.path@);
                        }
                    }
                    assert(file_entries(acc.files@) =~= file_entries(old_files).push((g.path@, file_view(e))));
                    assert(file_entries(acc.files@).drop_last() =~= file_entries(old_files));
                    assert(file_view(e) =~= empty_file()) by {
                        assert(assoc(e.statement_map@) =~= Map::<usize, StatementMap>::empty());
                        assert(assoc(e.s@) =~= Map::<usize, u32>::empty());
                    }
                    assert(unique_keys(e.statement_map@));
                    assert(unique_keys(file_entries(acc.files@))) by {
                        assert forall|x: int, y: int| 0 <= x < y < file_entries(acc.files@).len() implies file_entries(acc.files@)[x].0 != file_entries(acc.files@)[y].0 by {
                            if y == file_entries(acc.files@).len() - 1 {
                                assert(file_entries(old_files)[x].0 == old_files[x].path@);
                            }
                        }
                    }
                    assert(acc.view() =~= cur.insert(g.path@, empty_file()));
                }
                acc.files.len() - 1
            },
        };
        let ghost mid = acc.view();
        let ghost old_files = acc.files@;
        proof {
            lemma_assoc_index(file_entries(acc.files@));
            assert(file_entries(old_files)[j as int].0 == g.path@);
        }
        let mut f = IstanbulCov {
            path: acc.files[j].path.clone(),
            statement_map: copy_locs(&acc.files[j].statement_map),
            s: copy_counts(&acc.files[j].s),
        };
        let ghost f0 = f;
        assert(file_view(f0) == mid[g.path@]);
        merge_into(&mut f, g);
        proof {
            lemma_entries_update(old_files, j as int, f);
        }
        acc.files.set(j, f);
        assert(acc.files@ == old_files.update(j as int, f));
        assert(acc.view() =~= merge_views(a, assoc(rf.take(i + 1))));
        i = i + 1;
    }
    assert(rf.take(report.files@.len() as int) =~= rf);
}

} // verus!
