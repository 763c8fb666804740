//! Diff previews.

use hashline::diff_preview::{build_compact_diff_preview, make_diff_preview, CompactDiffOptions};

#[test]
fn empty_inputs_produce_empty_preview() {
    let result = build_compact_diff_preview("", &CompactDiffOptions::default());
    assert_eq!(result.preview, "");
    assert_eq!(result.added_lines, 0);
    assert_eq!(result.removed_lines, 0);
}

#[test]
fn make_diff_basic() {
    let old = "a\nb\nc\n";
    let new = "a\nB\nc\n";
    let diff = make_diff_preview(old, new);
    assert!(diff.contains("-2|b"));
    assert!(diff.contains("+2|B"));
    assert!(diff.contains(" 1|a"));
    assert!(diff.contains(" 3|c"));
}
