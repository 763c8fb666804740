//! Patches and their sections.

use hashline::apply::apply_edits;
use hashline::parser::parse_patch;
use hashline::sections::parse_sections;
use hashline::types::{BlockMode, Edit, FileOp};

const FILE: &str = "a\nb\nc\nd\ne";

fn apply_patch(text: &str, diff: &str) -> String {
    apply_edits(text, &parse_patch(diff).edits).text
}

#[test]
fn canonical_replace_delete_insert() {
    assert_eq!(apply_patch(FILE, "SWAP 2.=3:\n+X"), "a\nX\nd\ne");
    assert_eq!(apply_patch(FILE, "DEL 2.=3"), "a\nd\ne");
    assert_eq!(apply_patch(FILE, "INS.PRE 2:\n+X"), "a\nX\nb\nc\nd\ne");
    assert_eq!(apply_patch(FILE, "INS.POST 2:\n+X"), "a\nb\nX\nc\nd\ne");
    assert_eq!(apply_patch(FILE, "INS.HEAD:\n+X"), "X\na\nb\nc\nd\ne");
    assert_eq!(apply_patch(FILE, "INS.TAIL:\n+X"), "a\nb\nc\nd\ne\nX");
}

#[test]
fn single_number_shorthand() {
    assert_eq!(apply_patch(FILE, "SWAP 2:\n+X"), "a\nX\nc\nd\ne");
    assert_eq!(apply_patch(FILE, "DEL 2"), "a\nc\nd\ne");
}

#[test]
fn alternate_range_separators_and_missing_colon() {
    assert_eq!(apply_patch(FILE, "SWAP 2-3:\n+X"), "a\nX\nd\ne");
    assert_eq!(apply_patch(FILE, "SWAP 2\u{2026}3:\n+X"), "a\nX\nd\ne");
    assert_eq!(apply_patch(FILE, "SWAP 2 3:\n+X"), "a\nX\nd\ne");
    assert_eq!(apply_patch(FILE, "SWAP 2..3:\n+X"), "a\nX\nd\ne");
    assert_eq!(apply_patch(FILE, "SWAP 2.=3\n+X"), "a\nX\nd\ne");
}

#[test]
fn missing_colon_on_insert_headers() {
    assert_eq!(apply_patch(FILE, "INS.PRE 2\n+X"), "a\nX\nb\nc\nd\ne");
    assert_eq!(apply_patch(FILE, "INS.HEAD\n+X"), "X\na\nb\nc\nd\ne");
}

#[test]
fn stray_dot_tolerance() {
    assert_eq!(apply_patch(FILE, "SWAP 2.=3.:\n+X"), "a\nX\nd\ne");
    assert_eq!(apply_patch(FILE, "SWAP 2.=2.:\n+X"), "a\nX\nc\nd\ne");
    assert_eq!(apply_patch(FILE, "INS.POST 2.:\n+X"), "a\nb\nX\nc\nd\ne");
    assert_eq!(apply_patch(FILE, "INS.PRE 2.:\n+X"), "a\nX\nb\nc\nd\ne");
    assert_eq!(apply_patch(FILE, "DEL 2.=3."), "a\nd\ne");
    assert_eq!(apply_patch(FILE, "INS.HEAD.:\n+X"), "X\na\nb\nc\nd\ne");
    assert_eq!(apply_patch(FILE, "INS.TAIL.:\n+X"), "a\nb\nc\nd\ne\nX");
}

#[test]
fn auto_pipe_bare_body_row_with_warning() {
    let result = parse_patch("SWAP 2.=2:\n  hello");
    assert_eq!(apply_edits(FILE, &result.edits).text, "a\n  hello\nc\nd\ne");
    assert!(result.warnings.iter().any(|w| w.contains("Auto-prefixed bare body row")));
}

#[test]
fn strips_read_output_prefix_from_bare_body_rows() {
    let result = parse_patch("SWAP 2.=2:\n2:hello");
    assert_eq!(apply_edits(FILE, &result.edits).text, "a\nhello\nc\nd\ne");
    assert!(result.warnings.iter().any(|w| w.contains("Auto-prefixed")));
}

#[test]
fn preserves_plus_literal_payloads_without_stripping() {
    let result = parse_patch("SWAP 2.=2:\n+3:keep");
    assert_eq!(apply_edits(FILE, &result.edits).text, "a\n3:keep\nc\nd\ne");
    assert!(!result.warnings.iter().any(|w| w.contains("Auto-prefixed")));
}

#[test]
fn strips_only_one_n_prefix() {
    let result = parse_patch("SWAP 2.=2:\n2:42:hello");
    assert_eq!(apply_edits(FILE, &result.edits).text, "a\n42:hello\nc\nd\ne");
}

#[test]
fn strips_n_prefixes_only_when_all_bare_rows_carry_one() {
    let result = parse_patch("SWAP 2.=3:\n2:foo\n3:bar");
    assert_eq!(apply_edits(FILE, &result.edits).text, "a\nfoo\nbar\nd\ne");
}

#[test]
fn leaves_bare_rows_untouched_when_only_some_carry_prefix() {
    let result = parse_patch("SWAP 2.=3:\n3:keep\nplain");
    assert_eq!(apply_edits(FILE, &result.edits).text, "a\n3:keep\nplain\nd\ne");
}

#[test]
fn keeps_interior_blank_rows_in_bare_replace_body() {
    let result = parse_patch("SWAP 2.=3:\nfoo\n\nbar");
    assert_eq!(apply_edits(FILE, &result.edits).text, "a\nfoo\n\nbar\nd\ne");
}

#[test]
fn drops_trailing_blank_rows_between_hunks() {
    let result = parse_patch("SWAP 2.=2:\nfoo\n\nSWAP 4.=4:\nbaz");
    assert_eq!(apply_edits(FILE, &result.edits).text, "a\nfoo\nc\nbaz\ne");
}

#[test]
fn skips_blank_rows_when_checking_prefix_uniformity() {
    let result = parse_patch("SWAP 2.=3:\n2:foo\n\n3:bar");
    assert_eq!(apply_edits(FILE, &result.edits).text, "a\nfoo\n\nbar\nd\ne");
}

#[test]
fn leaves_numeric_keyed_literal_bodies_untouched() {
    let result = parse_patch("SWAP 2.=3:\n1: \"one\",\n2: \"two\",");
    assert_eq!(
        apply_edits(FILE, &result.edits).text,
        "a\n1: \"one\",\n2: \"two\",\nd\ne"
    );
}

#[test]
fn rejects_minus_body_rows() {
    let result = parse_patch("SWAP 2.=2:\n-old\n+new");
    assert!(result.warnings.iter().any(|w| w.contains("`-` rows are not valid")));
}

#[test]
fn allows_literal_markdown_bullets_with_plus_prefix() {
    assert_eq!(
        apply_patch(FILE, "SWAP 2.=2:\n+- item\n+  - nested\n++plus"),
        "a\n- item\n  - nested\n+plus\nc\nd\ne"
    );
}

#[test]
fn empty_replace_is_delete() {
    assert_eq!(apply_patch(FILE, "SWAP 2.=2:"), "a\nc\nd\ne");
}

#[test]
fn empty_insert_warns() {
    let result = parse_patch("INS.TAIL:");
    assert!(result.warnings.iter().any(|w| w.contains("`INS` needs")));
}

#[test]
fn delete_with_body_warns() {
    let result = parse_patch("DEL 2\n+X");
    assert!(result.warnings.iter().any(|w| w.contains("does not take body rows")));
}

#[test]
fn delete_with_colon_warns() {
    let result = parse_patch("DEL 2:\n+X");
    assert!(result.warnings.iter().any(|w| w.contains("has no colon")));
}

#[test]
fn abort_terminates_parsing() {
    let diff = "INS.POST 1:\n+HELLO\n*** Abort\nINS.POST 99:\n+never";
    let result = parse_patch(diff);
    assert_eq!(result.edits.len(), 1);
    assert_eq!(
        match &result.edits[0] {
            Edit::Insert { text, .. } => text.clone(),
            _ => String::new(),
        },
        "HELLO"
    );
    assert!(result.warnings.is_empty());
}

#[test]
fn bare_number_hunk_header_warns_with_verb_guidance() {
    let result = parse_patch("2\n+B");
    assert!(result.warnings.iter().any(|w| w.contains("hunk headers need a verb")));
}

#[test]
fn bare_numeric_range_warns_with_verb_guidance() {
    let result = parse_patch("2 3\n+X");
    assert!(result.warnings.iter().any(|w| w.contains("Hunk headers need a verb")));
}

#[test]
fn apply_patch_sentinel_rejected() {
    let result = parse_patch("*** Update File: a.ts\nSWAP 2.=2:\n+X");
    assert!(result.warnings.iter().any(|w| w.contains("apply_patch sentinel")));
}

#[test]
fn unified_diff_hunk_header_rejected() {
    let result = parse_patch("@@ -1,3 +1,3 @@\nSWAP 2.=2:\n+X");
    assert!(result.warnings.iter().any(|w| w.contains("unified-diff hunk header")));
}

#[test]
fn orphan_literal_payload_warns() {
    let result = parse_patch("+const X = 1;\nSWAP 2.=2:");
    assert!(result
        .warnings
        .iter()
        .any(|w| w.contains("payload line has no preceding hunk header")));
}

#[test]
fn block_modes_parsed_correctly() {
    let result = parse_patch("SWAP.BLK 5:\n+body");
    assert!(matches!(
        &result.edits[0],
        Edit::Block { mode: BlockMode::Replace, .. }
    ));
    let result = parse_patch("DEL.BLK 5");
    assert!(matches!(
        &result.edits[0],
        Edit::Block { mode: BlockMode::Delete, .. }
    ));
    let result = parse_patch("INS.BLK.POST 5:\n+body");
    assert!(matches!(
        &result.edits[0],
        Edit::Block { mode: BlockMode::InsertAfter, .. }
    ));
}

#[test]
fn file_ops_parsed() {
    let result = parse_patch("REM");
    assert_eq!(result.file_op, Some(FileOp::Rem));
    let result = parse_patch("MV dest.ts");
    assert_eq!(result.file_op, Some(FileOp::Mv { dest: "dest.ts".into() }));
}

// ── parse_sections tests ──────────────────────────────────────────────

#[test]
fn parse_sections_extracts_path_tag_and_diff() {
    let input = "[src/foo.ts#1A2B]\nSWAP 2..2:\n+BBB";
    let sections = parse_sections(input);
    assert_eq!(sections.len(), 1);
    assert_eq!(sections[0].path, "src/foo.ts");
    assert_eq!(sections[0].file_hash.as_deref(), Some("1A2B"));
    assert_eq!(apply_edits("aaa\nbbb\nccc", &sections[0].edits).text, "aaa\nBBB\nccc");
}

#[test]
fn parse_sections_normalizes_leading_blanks() {
    let input = "\n[foo.ts]\nINS.HEAD:\n+x";
    let sections = parse_sections(input);
    assert_eq!(sections.len(), 1);
    assert_eq!(sections[0].path, "foo.ts");
    assert_eq!(apply_edits("before", &sections[0].edits).text, "x\nbefore");
}

#[test]
fn parse_sections_splits_multiple_and_drops_trailing_empty() {
    let input = "[a.ts]\nINS.HEAD:\n+a\n[b.ts]\nINS.TAIL:\n+b";
    let sections = parse_sections(input);
    assert_eq!(sections.len(), 2);
    assert_eq!(sections[0].path, "a.ts");
    assert_eq!(sections[1].path, "b.ts");

    let input = "[a.ts]\nINS.HEAD:\n+a\n[b.ts]";
    let sections = parse_sections(input);
    assert_eq!(sections.len(), 1);
}

#[test]
fn parse_sections_abort_stops_before_later_sections() {
    let input = "[a.ts]\nINS.POST 1:\n+a-payload\n*** Abort\n[b.ts]\nINS.POST 1:\n+never";
    let sections = parse_sections(input);
    assert_eq!(sections.len(), 1);
    assert_eq!(sections[0].path, "a.ts");
    assert_eq!(apply_edits("x", &sections[0].edits).text, "x\na-payload");
}

#[test]
fn parse_sections_recovers_apply_patch_contaminated_header() {
    let input = "[*** Update File: dir with spaces/file.ts#1A2B]\nSWAP 1.=1:\n+after";
    let sections = parse_sections(input);
    assert_eq!(sections.len(), 1);
    assert_eq!(sections[0].path, "dir with spaces/file.ts");
    assert_eq!(sections[0].file_hash.as_deref(), Some("1A2B"));
}

#[test]
fn parse_sections_empty_returns_empty_vec() {
    let sections = parse_sections("DEL 38.=40");
    assert!(sections.is_empty());
}
