//! Prefixes of pasted lines.

use hashline::prefixes::{
    hashline_parse_text, strip_hashline_prefixes, strip_new_line_prefixes,
    strip_one_leading_hashline_prefix,
};

#[test]
fn strip_one_leading_prefix_basic() {
    assert_eq!(strip_one_leading_hashline_prefix("123:hello"), "hello");
    assert_eq!(strip_one_leading_hashline_prefix("42:hello"), "hello");
    assert_eq!(strip_one_leading_hashline_prefix("hello"), "hello");
    // Single-pass: does not recurse on "2:42:hello"
    assert_eq!(strip_one_leading_hashline_prefix("2:42:hello"), "42:hello");
    assert_eq!(strip_one_leading_hashline_prefix("+3:keep"), "keep");
}

#[test]
fn strip_new_line_prefixes_hashlines() {
    let lines = vec![
        "1:aaa".to_string(),
        "2:bbb".to_string(),
        "3:ccc".to_string(),
    ];
    assert_eq!(
        strip_new_line_prefixes(&lines),
        vec!["aaa", "bbb", "ccc"]
    );
}

#[test]
fn strip_new_line_prefixes_leaves_unprefixed() {
    let lines = vec![
        "aaa".to_string(),
        "bbb".to_string(),
        "ccc".to_string(),
    ];
    assert_eq!(strip_new_line_prefixes(&lines), lines);
}

#[test]
fn strip_new_line_prefixes_diff_plus() {
    let lines = vec![
        "+aaa".to_string(),
        "+bbb".to_string(),
        "+ccc".to_string(),
    ];
    assert_eq!(
        strip_new_line_prefixes(&lines),
        vec!["aaa", "bbb", "ccc"]
    );
}

#[test]
fn strip_hashline_prefixes_strict() {
    let lines = vec![
        "1:aaa".to_string(),
        "2:bbb".to_string(),
        "3:ccc".to_string(),
    ];
    assert_eq!(
        strip_hashline_prefixes(&lines),
        vec!["aaa", "bbb", "ccc"]
    );
    // Not all prefixed → unchanged
    let mixed = vec![
        "1:aaa".to_string(),
        "bbb".to_string(),
    ];
    assert_eq!(strip_hashline_prefixes(&mixed), mixed);
}

#[test]
fn hashline_parse_text_string() {
    assert_eq!(hashline_parse_text("1:aaa\n2:bbb"), vec!["aaa", "bbb"]);
    assert_eq!(hashline_parse_text("aaa\nbbb"), vec!["aaa", "bbb"]);
    // Trailing newline trimmed
    assert_eq!(hashline_parse_text("aaa\nbbb\n"), vec!["aaa", "bbb"]);
    assert_eq!(hashline_parse_text(""), Vec::<String>::new());
}

#[test]
fn hashline_parse_text_drops_header_and_truncation() {
    let input = "[src/foo.ts#1A2B]\n1:aaa\n[Showing lines 1-1 of 1. Use :L1]\n2:bbb";
    assert_eq!(hashline_parse_text(input), vec!["aaa", "bbb"]);
}
