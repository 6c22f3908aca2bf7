use covmap::lines::{line_length_table, line_start_table};
use covmap::text::{chars_of, is_file_extension_allowed};

#[test]
fn test_str_len() {
    let s = "1234567890";
    assert_eq!(s.len(), 10);
    let s = "中文字符";
    assert_eq!(s.chars().count(), 4);
    let s = "中文字符";
    assert_ne!(s.len(), 4);
}

#[test]
fn test_ext() {
    assert!(is_file_extension_allowed(
        "/home/user/example.txt",
        &["txt"]
    ));
    assert!(!is_file_extension_allowed(
        "/home/user/example.txt",
        &["js"]
    ));
}

#[test]
fn extension_edge_cases() {
    assert!(is_file_extension_allowed("a/b.c/file.tsx", &["js", "tsx"]));
    assert!(!is_file_extension_allowed("a/.js", &["js"]));
    assert!(is_file_extension_allowed("a/.js", &[""]));
    assert!(is_file_extension_allowed("a/b.js/", &["js"]));
    assert!(is_file_extension_allowed("a/b.js/.", &["js"]));
    assert!(is_file_extension_allowed("a/b.js/./", &["js"]));
    assert!(!is_file_extension_allowed("Makefile", &["js"]));
}

#[test]
fn line_tables_count_characters() {
    let t = chars_of("ab\n中文字\n\nx");
    assert_eq!(t.len(), 9);
    let lens = line_length_table(&t);
    assert_eq!(lens, vec![2, 3, 0, 1]);
    let starts = line_start_table(&lens);
    assert_eq!(starts, vec![0, 3, 7, 8, 10]);
    assert_eq!(line_length_table(&chars_of("")), vec![0]);
}
