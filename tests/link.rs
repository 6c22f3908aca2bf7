use covmap::link::{source_map_link, LinkError};
use covmap::mapping::{MappingItem, SourceFile, SourceMapData, Token};
use covmap::resolve::resolve_group_span;

fn tok(dst_line: u32, dst_col: u32, src: Option<u32>, src_line: u32, src_col: u32) -> Token {
    Token { dst_line, dst_col, src_id: src, src_line, src_col }
}

fn file(path: &str, contents: Option<&str>) -> SourceFile {
    SourceFile { path: path.to_string(), contents: contents.map(|c| c.to_string()) }
}

fn data(sources: Vec<SourceFile>, tokens: Vec<Token>) -> SourceMapData {
    SourceMapData { file: None, sources, tokens }
}

fn by_idx(items: &[MappingItem], idx: usize) -> &MappingItem {
    items.iter().find(|m| m.idx == idx).unwrap()
}

#[test]
fn boundary_resolution_two_lines() {
    let gen = "x".repeat(25);
    let map = data(
        vec![file("fileA.js", Some("aaaaaaaaa\nbbbbbbbbbbbbbbb"))],
        vec![tok(0, 0, Some(0), 0, 0), tok(0, 10, Some(0), 1, 0)],
    );
    let items = source_map_link(&gen, &map).unwrap();
    assert_eq!(items.len(), 2);
    let a = by_idx(&items, 0);
    assert_eq!((a.generated_column, a.last_generated_column), (0, 9));
    assert_eq!(
        (a.original_line, a.original_column, a.last_original_line, a.last_original_column),
        (0, 0, 0, 8)
    );
    let b = by_idx(&items, 1);
    assert_eq!(b.generated_column, 10);
    assert_eq!(
        (b.original_line, b.original_column, b.last_original_line, b.last_original_column),
        (1, 0, 1, 14)
    );
    assert_eq!(a.count, 0);
    assert_eq!(a.source, "fileA.js");
}

#[test]
fn spans_are_contiguous_for_unfiltered_script() {
    let gen = "abcdefghij\nklmnopqrst";
    let map = data(
        vec![file("a.js", Some("one two\nthree\nfour"))],
        vec![
            tok(0, 0, Some(0), 0, 0),
            tok(0, 4, Some(0), 0, 4),
            tok(1, 0, Some(0), 1, 0),
            tok(1, 3, Some(0), 2, 1),
        ],
    );
    let items = source_map_link(gen, &map).unwrap();
    assert_eq!(items.len(), 4);
    for k in 0..3 {
        assert_eq!(by_idx(&items, k).last_generated_column + 1, by_idx(&items, k + 1).generated_column);
    }
    assert_eq!(by_idx(&items, 0).generated_column, 0);
    assert_eq!(by_idx(&items, 3).last_generated_column, 21);
    let first = by_idx(&items, 0);
    assert_eq!((first.last_original_line, first.last_original_column), (0, 3));
}

#[test]
fn filtered_sources_never_appear() {
    let gen = "0123456789abcdef";
    let map = data(
        vec![
            file("webpack:///bootstrap", None),
            file("external script 7", None),
            file("src/node_modules/lib/x.js", None),
            file("src/style.css", Some("a{}")),
            file("src/main.ts", Some("let x = 1;")),
        ],
        vec![
            tok(0, 0, Some(0), 0, 0),
            tok(0, 2, Some(1), 0, 0),
            tok(0, 4, Some(2), 0, 0),
            tok(0, 6, Some(3), 0, 0),
            tok(0, 8, Some(4), 0, 0),
            tok(0, 10, None, 0, 0),
        ],
    );
    let items = source_map_link(gen, &map).unwrap();
    assert_eq!(items.len(), 1);
    assert_eq!(items[0].source, "src/main.ts");
    assert_eq!(items[0].idx, 4);
    assert_eq!((items[0].generated_column, items[0].last_generated_column), (8, 9));
}

#[test]
fn groups_share_their_end_and_sort_by_source() {
    let gen = "aaaa bbbb cccc dddd";
    let map = data(
        vec![file("b.js", Some("zz\nyy")), file("a.js", Some("hello world"))],
        vec![
            tok(0, 0, Some(0), 0, 0),
            tok(0, 5, Some(1), 0, 0),
            tok(0, 10, Some(1), 0, 0),
            tok(0, 15, Some(1), 0, 6),
        ],
    );
    let items = source_map_link(gen, &map).unwrap();
    let sources: Vec<&str> = items.iter().map(|m| m.source.as_str()).collect();
    assert_eq!(sources, vec!["a.js", "a.js", "a.js", "b.js"]);
    assert_eq!(items[0].idx, 1);
    assert_eq!(items[1].idx, 2);
    assert_eq!((items[0].last_original_line, items[0].last_original_column), (0, 5));
    assert_eq!((items[1].last_original_line, items[1].last_original_column), (0, 5));
    assert_eq!((items[2].last_original_line, items[2].last_original_column), (0, 10));
    assert_eq!((items[3].last_original_line, items[3].last_original_column), (0, 1));
}

#[test]
fn group_past_line_end_keeps_its_start() {
    let map = data(
        vec![file("a.js", Some("ab\ncd"))],
        vec![tok(0, 0, Some(0), 0, 2), tok(0, 5, Some(0), 1, 1)],
    );
    let items = source_map_link("0123456789", &map).unwrap();
    let a = by_idx(&items, 0);
    assert_eq!(
        (a.original_line, a.original_column, a.last_original_line, a.last_original_column),
        (0, 2, 1, 0)
    );
}

#[test]
fn error_missing_contents() {
    let map = data(vec![file("a.js", None)], vec![tok(0, 0, Some(0), 0, 0)]);
    assert_eq!(source_map_link("abc", &map).unwrap_err(), LinkError::MissingContents);
}

#[test]
fn error_token_out_of_range() {
    let map = data(vec![file("a.js", Some("x"))], vec![tok(1, 0, Some(0), 0, 0)]);
    assert_eq!(source_map_link("abc", &map).unwrap_err(), LinkError::TokenOutOfRange);
    let map = data(vec![file("a.js", Some("x"))], vec![tok(0, 4, Some(0), 0, 0)]);
    assert_eq!(source_map_link("abc", &map).unwrap_err(), LinkError::TokenOutOfRange);
}

#[test]
fn error_tokens_out_of_order() {
    let map = data(
        vec![file("a.js", Some("x"))],
        vec![tok(0, 2, Some(0), 0, 0), tok(0, 2, Some(0), 0, 0)],
    );
    assert_eq!(source_map_link("abc", &map).unwrap_err(), LinkError::TokensOutOfOrder);
}

#[test]
fn error_line_out_of_range() {
    let map = data(vec![file("a.js", Some("x"))], vec![tok(0, 0, Some(0), 3, 0)]);
    assert_eq!(source_map_link("abc", &map).unwrap_err(), LinkError::LineOutOfRange);
}

#[test]
fn empty_token_stream_gives_no_statements() {
    let map = data(vec![file("a.js", Some("x"))], vec![]);
    assert!(source_map_link("abc", &map).unwrap().is_empty());
}

#[test]
fn decision_table_cases() {
    let lens = vec![5, 0, 0, 7, 0];
    // within the line, next group later on the same line
    assert_eq!(resolve_group_span(&lens, 0, 1, Some((true, 0, 3))), (0, 1, 0, 2));
    // within the line, next group on another line
    assert_eq!(resolve_group_span(&lens, 0, 1, Some((true, 3, 0))), (0, 1, 0, 4));
    // within the line, next group in another source
    assert_eq!(resolve_group_span(&lens, 3, 2, Some((false, 0, 0))), (3, 2, 3, 6));
    // past the line end, next group in the same source at a column > 0; the start stays
    assert_eq!(resolve_group_span(&lens, 0, 5, Some((true, 3, 2))), (0, 5, 3, 1));
    // past the line end, next at column 0: last non-blank line before it
    assert_eq!(resolve_group_span(&lens, 0, 5, Some((true, 4, 0))), (0, 5, 3, 6));
    // past the line end, only blank lines before the next group: zero width at its own start
    assert_eq!(resolve_group_span(&lens, 0, 5, Some((true, 3, 0))), (0, 5, 0, 5));
    // past the line end, next in another source: last non-blank line to the end
    assert_eq!(resolve_group_span(&lens, 0, 5, Some((false, 0, 0))), (0, 5, 3, 6));
    // last group past its line end, only blank lines after it
    assert_eq!(resolve_group_span(&lens, 4, 0, None), (4, 0, 4, 0));
    // last group within its line
    assert_eq!(resolve_group_span(&lens, 3, 1, None), (3, 1, 3, 6));
}
