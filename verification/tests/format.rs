//! Tags, headers and numbered lines.

use hashline::format::{compute_file_hash, format_hashline_header, format_numbered_line};

#[test]
fn test_compute_file_hash_basic() {
    // Same content → same tag
    let tag1 = compute_file_hash("hello\nworld\n");
    let tag2 = compute_file_hash("hello\nworld\n");
    assert_eq!(tag1, tag2);
    assert_eq!(tag1.len(), 4);
    assert!(tag1.chars().all(|c| c.is_ascii_uppercase() || c.is_ascii_digit()));
}

#[test]
fn test_compute_file_hash_normalizes_trailing_whitespace() {
    let tag1 = compute_file_hash("hello\nworld\n");
    let tag2 = compute_file_hash("hello   \nworld\t\r\n");
    assert_eq!(tag1, tag2);
}

#[test]
fn test_compute_file_hash_different_content() {
    let tag1 = compute_file_hash("hello\n");
    let tag2 = compute_file_hash("world\n");
    assert_ne!(tag1, tag2);
}

#[test]
fn test_format_hashline_header() {
    let header = format_hashline_header("src/foo.ts", "1A2B");
    assert_eq!(header, "[src/foo.ts#1A2B]");
}

#[test]
fn test_format_numbered_line() {
    assert_eq!(format_numbered_line(1, "hello"), "1:hello");
    assert_eq!(format_numbered_line(42, "world"), "42:world");
}
