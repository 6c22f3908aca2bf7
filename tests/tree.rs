use covmap::mapping::MappingItem;
use covmap::project::{count_for, handle_script_coverage, project_counts, Statement};
use covmap::tree::{
    build_coverage_range_tree, find_root, find_root_value_only, read_only, CoverRangeNode, CoverRangeTree,
    CoverageRange, FunctionCoverage, ScriptCoverage,
};

fn range(start_offset: u32, end_offset: u32, count: u32) -> CoverageRange {
    CoverageRange { start_offset, end_offset, count }
}

fn function(name: &str, ranges: Vec<CoverageRange>) -> FunctionCoverage {
    FunctionCoverage { function_name: name.to_string(), ranges, is_block_coverage: true }
}

fn tree_of(len: u32, fns: &Vec<FunctionCoverage>) -> CoverRangeTree {
    let mut t = CoverRangeTree::new(CoverRangeNode::new(&range(0, len, 0)));
    build_coverage_range_tree(&mut t, fns);
    t
}

fn item(gs: u32, ge: u32) -> MappingItem {
    MappingItem {
        source: "src/a.js".to_string(),
        generated_column: gs,
        last_generated_column: ge,
        original_line: 0,
        original_column: 0,
        last_original_line: 0,
        last_original_column: 3,
        count: 0,
        idx: 0,
    }
}

#[test]
fn test_build_coverage_range_tree() {
    let fns = vec![
        function("", vec![range(0, 120, 1)]),
        function("render", vec![range(10, 80, 3), range(30, 50, 0)]),
        function("helper", vec![range(90, 110, 2)]),
    ];
    let t = tree_of(120, &fns);
    assert_eq!(t.nodes.len(), 5);
    assert_eq!(t.nodes[0].children, vec![1]);
    let inner = find_root(&t, &range(35, 40, 0)).unwrap();
    assert_eq!(t.nodes[inner].value, 0);
    assert_eq!((t.nodes[inner].left, t.nodes[inner].right), (30, 50));
}

#[test]
fn query_with_boundary_straddle() {
    let fns = vec![function("f", vec![range(0, 100, 5), range(20, 40, 0)])];
    let t = read_only(tree_of(100, &fns));
    assert_eq!(find_root_value_only(&t, &range(25, 30, 0)), Some(0));
    assert_eq!(find_root_value_only(&t, &range(50, 60, 0)), Some(5));
    // [10, 90) straddles the boundary of [20, 40): no range answers
    assert_eq!(find_root_value_only(&t, &range(10, 90, 0)), None);
    assert_eq!(count_for(&t, &item(10, 90)), 0);
    // a span past the root has no answer, and its statement keeps count 0
    assert_eq!(find_root_value_only(&t, &range(90, 120, 0)), None);
    assert_eq!(count_for(&t, &item(90, 120)), 0);
    assert_eq!(count_for(&t, &item(22, 30)), 0);
    assert_eq!(count_for(&t, &item(41, 60)), 5);
}

#[test]
fn single_range_tree_answers_every_sub_span() {
    let t = read_only(CoverRangeTree::new(CoverRangeNode::new(&range(0, 64, 7))));
    for (l, r) in [(0, 64), (0, 0), (5, 9), (63, 64)] {
        assert_eq!(find_root_value_only(&t, &range(l, r, 0)), Some(7));
    }
    let t = read_only(tree_of(64, &vec![function("f", vec![range(0, 64, 9)])]));
    for (l, r) in [(0, 64), (3, 30), (64, 64)] {
        assert_eq!(find_root_value_only(&t, &range(l, r, 0)), Some(9));
    }
}

#[test]
fn nested_range_lands_under_its_container() {
    // inserted out of order: the sort puts [0,50) before [10,20)
    let fns = vec![function("f", vec![range(10, 20, 4), range(0, 50, 2), range(60, 70, 1)])];
    let t = tree_of(100, &fns);
    let outer = find_root(&t, &range(0, 50, 0)).unwrap();
    let inner = find_root(&t, &range(12, 18, 0)).unwrap();
    assert_eq!(t.nodes[inner].value, 4);
    assert!(t.nodes[outer].children.contains(&inner));
}

#[test]
fn range_outside_the_root_is_dropped() {
    let fns = vec![function("f", vec![range(5, 500, 1)])];
    let t = tree_of(100, &fns);
    assert_eq!(t.nodes.len(), 1);
}

#[test]
fn projection_sets_counts_and_keeps_fields() {
    let fns = vec![function("f", vec![range(0, 100, 5), range(20, 40, 1)])];
    let t = read_only(tree_of(100, &fns));
    let items = vec![item(0, 9), item(21, 30), item(15, 45)];
    let out = project_counts(&t, &items);
    let counts: Vec<u32> = out.iter().map(|m| m.count).collect();
    assert_eq!(counts, vec![5, 1, 0]);
    assert_eq!(out[1].generated_column, 21);
    assert_eq!(out[1].source, "src/a.js");
}

#[test]
fn script_report_counts_statements() {
    let st = Statement { source_url: "https://x/main.js".to_string(), code_dir: "/out".to_string(), mapping: vec![item(0, 9), item(21, 30)] };
    let sc = ScriptCoverage {
        url: "main.js".to_string(),
        source: "x".repeat(100),
        functions: vec![function("f", vec![range(0, 100, 5), range(20, 40, 1)])],
    };
    let r = handle_script_coverage(&st, &sc);
    assert_eq!(r.files.len(), 1);
    assert_eq!(r.files[0].path, "/out/src/a.js");
    assert_eq!(r.files[0].s, vec![(0, 5), (1, 1)]);
    let st2 = Statement { mapping: vec![item(10, 90)], ..st };
    let r2 = handle_script_coverage(&st2, &sc);
    assert_eq!(r2.files[0].s, vec![(0, 0)]);
}

#[test]
fn same_start_container_is_a_sibling() {
    // [10,50) sorts before [10,100), so [10,100) cannot hold it, and [20,30) goes under [10,50)
    let fns = vec![function("f", vec![range(10, 100, 1), range(10, 50, 2), range(20, 30, 3)])];
    let t = tree_of(200, &fns);
    assert_eq!(t.nodes[0].children.len(), 2);
    let inner = find_root(&t, &range(20, 30, 0)).unwrap();
    let short = find_root(&t, &range(10, 50, 0)).unwrap();
    let long = find_root(&t, &range(10, 100, 0)).unwrap();
    assert!(t.nodes[short].children.contains(&inner));
    assert!(!t.nodes[long].children.contains(&inner));
}
