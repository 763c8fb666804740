//! Recovery from stale tags.

use hashline::recovery::{build_line_map, find_first_changed_line, structured_patch_apply};

#[test]
fn find_first_changed_line_basic() {
    assert_eq!(find_first_changed_line("a\nb\nc", "a\nB\nc"), Some(2));
    assert_eq!(find_first_changed_line("a\nb", "a\nb"), None);
}

#[test]
fn build_line_map_identical() {
    let map = build_line_map("a\nb\nc", "a\nb\nc");
    assert_eq!(map.get(&1), Some(&1));
    assert_eq!(map.get(&2), Some(&2));
    assert_eq!(map.get(&3), Some(&3));
}

#[test]
fn build_line_map_insertion_before() {
    let map = build_line_map("a\nb\nc", "X\na\nb\nc");
    // a (old 1) → new 2, b (old 2) → new 3, c (old 3) → new 4
    assert_eq!(map.get(&1), Some(&2));
    assert_eq!(map.get(&2), Some(&3));
    assert_eq!(map.get(&3), Some(&4));
}

#[test]
fn structured_patch_apply_replaces_line() {
    let old = "l1\nl2\nl3\nl4\nl5\n";
    let new = "l1\nl2\nL3\nl4\nl5\n";
    let target = "l1\nl2\nl3\nl4\nl5\n";
    let result = structured_patch_apply(old, &new, target, 3, 0);
    assert_eq!(result.as_deref(), Some("l1\nl2\nL3\nl4\nl5\n"));
}

#[test]
fn structured_patch_apply_refuses_on_mismatch() {
    let old = "l1\nl2\nl3\n";
    let new = "l1\nl2\nL3\n";
    let target = "l1\nCHANGED\nl3\n";
    let result = structured_patch_apply(old, &new, target, 3, 0);
    // The hunk wants to remove "l3" at a position where target has "l3" but
    // the context "l2" doesn't match "CHANGED" — should refuse.
    assert_eq!(result, None);
}

#[test]
fn two_changes_far_apart_are_merged() {
    let lines: Vec<String> = (1..=30).map(|i| i.to_string()).collect();
    let old = lines.join("\n");
    let new = old.replace("\n4\n", "\nfour\n").replace("\n26\n", "\ntwenty-six\n");
    assert_eq!(structured_patch_apply(&old, &new, &old, 3, 0).as_deref(), Some(new.as_str()));
    // A drift between the two hunks, out of reach of their context, is kept.
    let live = old.replace("\n15\n", "\nfifteen\n");
    let want = new.replace("\n15\n", "\nfifteen\n");
    assert_eq!(structured_patch_apply(&old, &new, &live, 3, 0), Some(want));
    // A drift in the context of a hunk is not.
    let live = old.replace("\n28\n", "\ntwenty-eight\n");
    assert_eq!(structured_patch_apply(&old, &new, &live, 3, 0), None);
}
