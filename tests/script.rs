use covmap::decode::{compile_pattern, decode_source_map, relocate, relocate_sources, url_key, DecodeError, RuleError};
use covmap::link::source_map_link;
use covmap::script::{complete_script_coverage, relocate_rule, script_selected, RelocateError};
use covmap::timer::Timer;
use covmap::tree::{CoverageRange, FunctionCoverage, ScriptCoverageRaw};

#[test]
fn test_relocate() {
    let r = relocate(r"%webpack://%%");
    assert!(r.is_ok());
    let (re, rep) = r.unwrap();
    assert_eq!(re.as_str(), "webpack://");
    assert_eq!(rep, "");
}

#[test]
fn test_key() {
    let u = "https://at.alicdn.com/t/font_1403768_rykyhcckct9.js";
    let key = url_key(u);
    assert_eq!(key, "https_at_alicdn_com_t_font_1403768_rykyhcckct9_js")
}

#[test]
fn patterns_compile_or_not() {
    assert!(compile_pattern("a+b").is_some());
    assert_eq!(compile_pattern("a+b").unwrap().as_str(), "a+b");
    assert!(compile_pattern("(").is_none());
}

#[test]
fn relocation_rule_parts() {
    assert_eq!(relocate_rule("#^src/#lib/#"), Ok(("^src/".to_string(), "lib/".to_string())));
    assert_eq!(relocate_rule("|a"), Ok(("a".to_string(), "".to_string())));
    assert_eq!(relocate_rule(""), Err(RelocateError::Empty));
    assert!(matches!(relocate(""), Err(RuleError::Empty)));
    assert!(matches!(relocate("%(%x%"), Err(RuleError::BadPattern)));
}

#[test]
fn script_selection_by_filters() {
    assert!(script_selected("https://x/main.js", &vec![]));
    assert!(script_selected("https://x/main.js", &vec!["other".to_string(), "main".to_string()]));
    assert!(!script_selected("https://x/main.js", &vec!["vendor".to_string()]));
}

#[test]
fn completed_coverage_is_named_by_script() {
    let raw = ScriptCoverageRaw {
        url: "//cdn.x.com/js/app.js?v=1".to_string(),
        source: None,
        functions: vec![FunctionCoverage {
            function_name: "f".to_string(),
            ranges: vec![CoverageRange { start_offset: 0, end_offset: 3, count: 1 }],
            is_block_coverage: false,
        }],
    };
    let sc = complete_script_coverage(&raw, "abc".to_string());
    assert_eq!(sc.url, "app.js");
    assert_eq!(sc.source, "abc");
    assert_eq!(sc.functions.len(), 1);
    assert_eq!(sc.functions[0].ranges[0].count, 1);
}

const MAP: &str = r#"{"version":3,"file":"out.js","sources":["src/a.js","webpack:///boot"],"sourcesContent":["var a = 1;\nvar b = 2;",null],"names":[],"mappings":"AAAA,KAAK;AACL"}"#;

#[test]
fn decodes_and_links_a_source_map() {
    let d = decode_source_map(MAP.as_bytes()).unwrap();
    assert_eq!(d.file.as_deref(), Some("out.js"));
    assert_eq!(d.sources.len(), 2);
    assert_eq!(d.sources[0].path, "src/a.js");
    assert_eq!(d.tokens.len(), 3);
    assert_eq!(d.sources[1].contents, None);
    assert_eq!(d.tokens[0].src_id, Some(0));
    assert_eq!((d.tokens[1].dst_line, d.tokens[1].dst_col, d.tokens[1].src_col), (0, 5, 5));
    assert_eq!((d.tokens[2].dst_line, d.tokens[2].src_line), (1, 1));
    let items = source_map_link("var a=1;\nvar b=2;", &d).unwrap();
    assert_eq!(items.len(), 3);
    assert!(items.iter().all(|m| m.source == "src/a.js"));
}

#[test]
fn refuses_bytes_that_are_no_source_map() {
    assert_eq!(decode_source_map(b"not json").unwrap_err(), DecodeError::Invalid);
}

#[test]
fn relocation_rewrites_source_paths() {
    let mut d = decode_source_map(MAP.as_bytes()).unwrap();
    let (re, rep) = relocate("%^src/%lib/%").unwrap();
    relocate_sources(&mut d, &re, &rep);
    assert_eq!(d.sources[0].path, "lib/a.js");
    assert_eq!(d.tokens.len(), 3);
    assert_eq!(d.sources[1].path, "webpack:///boot");
    assert!(d.sources[0].contents.is_some());
}

#[test]
fn timer_keeps_its_name() {
    let t = Timer::new("phase");
    assert_eq!(t.name(), "phase");
    assert!(t.elapsed_millis() < 60_000);
}
