use covmap::mapping::MappingItem;
use covmap::report::{from, merge, CoverageReport, IstanbulCov, Position, StatementMap};

fn item(source: &str, line: u32, count: u32) -> MappingItem {
    MappingItem {
        source: source.to_string(),
        generated_column: 0,
        last_generated_column: 0,
        original_line: line,
        original_column: 2,
        last_original_line: line,
        last_original_column: 9,
        count,
        idx: 0,
    }
}

fn loc(line: u64) -> StatementMap {
    StatementMap { start: Position { line, column: 0 }, end: Position { line, column: 4 } }
}

fn one_statement(path: &str, id: usize, count: u32) -> CoverageReport {
    CoverageReport {
        files: vec![IstanbulCov { path: path.to_string(), statement_map: vec![(id, loc(1))], s: vec![(id, count)] }],
    }
}

#[test]
fn from_groups_by_absolute_path() {
    let vs = vec![item("src/a.js", 0, 1), item("./src/b.js", 4, 0), item("src/x/../a.js", 7, 3)];
    let r = from(&vs, "/proj/out");
    assert_eq!(r.files.len(), 2);
    let a = r.files.iter().find(|f| f.path == "/proj/out/src/a.js").unwrap();
    assert_eq!(a.s, vec![(0, 1), (2, 3)]);
    assert_eq!(a.statement_map[1], (2, StatementMap {
        start: Position { line: 8, column: 2 },
        end: Position { line: 8, column: 9 },
    }));
    let b = r.files.iter().find(|f| f.path == "/proj/out/src/b.js").unwrap();
    assert_eq!(b.s, vec![(1, 0)]);
    assert_eq!(b.statement_map[0].1.start.line, 5);
}

#[test]
fn merge_adds_counts_of_the_same_statement() {
    let mut acc = CoverageReport::new();
    merge(&mut acc, &one_statement("/src/a.js", 3, 1));
    merge(&mut acc, &one_statement("/src/a.js", 3, 1));
    assert_eq!(acc.files.len(), 1);
    assert_eq!(acc.files[0].s, vec![(3, 2)]);
    assert_eq!(acc.files[0].statement_map.len(), 1);
    assert_eq!(acc.files[0].statement_map[0], (3, loc(1)));
}

#[test]
fn merging_twice_doubles_counts() {
    let r = from(&vec![item("a.js", 0, 4), item("b.js", 1, 7), item("a.js", 2, 0)], "/o");
    let mut acc = CoverageReport::new();
    merge(&mut acc, &r);
    merge(&mut acc, &r);
    let a = acc.files.iter().find(|f| f.path == "/o/a.js").unwrap();
    assert_eq!(a.s, vec![(0, 8), (2, 0)]);
    assert_eq!(a.statement_map.len(), 2);
    let b = acc.files.iter().find(|f| f.path == "/o/b.js").unwrap();
    assert_eq!(b.s, vec![(1, 14)]);
}

#[test]
fn merge_keeps_other_files_and_ids() {
    let mut acc = one_statement("/a.js", 1, 5);
    merge(&mut acc, &one_statement("/b.js", 1, 2));
    merge(&mut acc, &one_statement("/a.js", 2, 3));
    assert_eq!(acc.files.len(), 2);
    assert_eq!(acc.files[0].s, vec![(1, 5), (2, 3)]);
    assert_eq!(acc.files[1].s, vec![(1, 2)]);
}

#[test]
fn merge_holds_counts_at_the_maximum() {
    let mut acc = one_statement("/a.js", 0, u32::MAX - 1);
    merge(&mut acc, &one_statement("/a.js", 0, 5));
    assert_eq!(acc.files[0].s, vec![(0, u32::MAX)]);
}
