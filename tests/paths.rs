use covmap::paths::{path_join, path_normalize};
use covmap::script::{is_legal_source_path, url_filename, url_normalize};
use std::path::PathBuf;

#[test]
fn test_join() {
    let a1 = PathBuf::from("/abc/def");
    let a2 = PathBuf::from("../xyz");
    assert_eq!(
        path_normalize(a1.join(a2).as_path().to_str().unwrap()),
        "/abc/xyz".to_string()
    );
    assert_eq!(path_normalize("./abc"), "abc".to_string());
    assert_eq!(path_normalize("./abc/.."), "".to_string());
}

#[test]
fn normalize_drops_dots_and_repeated_slashes() {
    assert_eq!(path_normalize("/a//b/./c/"), "/a/b/c");
    assert_eq!(path_normalize("/.."), "/");
    assert_eq!(path_normalize("a/b/../../c"), "c");
    assert_eq!(path_normalize(""), "");
}

#[test]
fn join_appends_relative_and_keeps_absolute() {
    assert_eq!(path_join("/out", "src/a.js"), "/out/src/a.js");
    assert_eq!(path_join("/out/", "src/a.js"), "/out/src/a.js");
    assert_eq!(path_join("/out", "/abs/a.js"), "/abs/a.js");
    assert_eq!(path_join("", "a.js"), "a.js");
}

#[test]
fn url_filename_takes_last_segment_before_query() {
    assert_eq!(url_filename("https://cdn.example.com/js/main.1234.js?v=3"), "main.1234.js");
    assert_eq!(url_filename("main.js"), "main.js");
    assert_eq!(url_filename("https://x/a/?q=/b"), "");
}

#[test]
fn url_normalize_reads_protocol_relative_as_https() {
    assert_eq!(url_normalize("//cdn.example.com/a.js"), "https://cdn.example.com/a.js");
    assert_eq!(url_normalize("http://cdn.example.com/a.js"), "http://cdn.example.com/a.js");
}

#[test]
fn legal_source_paths() {
    assert!(is_legal_source_path("src/a.js"));
    assert!(is_legal_source_path("./src/../lib/b.ts"));
    assert!(!is_legal_source_path("../outside.js"));
    assert!(!is_legal_source_path("webpack:///src/a.js"));
    assert!(!is_legal_source_path("external script 1"));
    assert!(!is_legal_source_path("https://x/a.js"));
    assert!(!is_legal_source_path("src/node_modules/x/index.js"));
}
