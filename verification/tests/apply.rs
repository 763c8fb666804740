//! Edits applied to texts.

use hashline::apply::apply_edits;
use hashline::types::{Anchor, Cursor, Edit, InsertMode};

fn insert_before(line: u32, text: &str) -> Edit {
    Edit::Insert {
        cursor: Cursor::BeforeAnchor(Anchor { line }),
        text: text.to_string(),
        mode: InsertMode::Replacement,
    }
}

fn delete(line: u32) -> Edit {
    Edit::Delete {
        anchor: Anchor { line },
    }
}

fn insert_after_plain(line: u32, text: &str) -> Edit {
    Edit::Insert {
        cursor: Cursor::AfterAnchor(Anchor { line }),
        text: text.to_string(),
        mode: InsertMode::Insert,
    }
}

fn insert_head(text: &str) -> Edit {
    Edit::Insert {
        cursor: Cursor::Bof,
        text: text.to_string(),
        mode: InsertMode::Insert,
    }
}

fn insert_tail(text: &str) -> Edit {
    Edit::Insert {
        cursor: Cursor::Eof,
        text: text.to_string(),
        mode: InsertMode::Insert,
    }
}

// SWAP 2.=2: +BBB on "aaa\nbbb\nccc"
fn swap_single(line: u32, payload: &[&str]) -> Vec<Edit> {
    let mut edits = Vec::new();
    for p in payload {
        edits.push(insert_before(line, p));
    }
    edits.push(delete(line));
    edits
}

fn swap_range(start: u32, end: u32, payload: &[&str]) -> Vec<Edit> {
    let mut edits = Vec::new();
    for p in payload {
        edits.push(insert_before(start, p));
    }
    for l in start..=end {
        edits.push(delete(l));
    }
    edits
}

#[test]
fn ins_post_basic() {
    let edits = vec![insert_after_plain(2, "after b")];
    let result = apply_edits("aaa\nbbb\nccc", &edits);
    assert_eq!(result.text, "aaa\nbbb\nafter b\nccc");
}

#[test]
fn del_single() {
    let edits = vec![delete(2)];
    let result = apply_edits("aaa\nbbb\nccc", &edits);
    assert_eq!(result.text, "aaa\nccc");
}

#[test]
fn swap_single_replaces() {
    let edits = swap_single(2, &["BBB"]);
    let result = apply_edits("aaa\nbbb\nccc", &edits);
    assert_eq!(result.text, "aaa\nBBB\nccc");
}

#[test]
fn ins_head() {
    let edits = vec![insert_head("top")];
    let result = apply_edits("aaa\nbbb\nccc", &edits);
    assert_eq!(result.text, "top\naaa\nbbb\nccc");
}

#[test]
fn ins_tail() {
    let edits = vec![insert_tail("tail")];
    let result = apply_edits("aaa\nbbb\nccc", &edits);
    assert_eq!(result.text, "aaa\nbbb\nccc\ntail");
}

#[test]
fn empty_swap_is_delete() {
    // SWAP 2.=2: with no body → delete line 2
    let edits = vec![delete(2)];
    let result = apply_edits("aaa\nbbb\nccc", &edits);
    assert_eq!(result.text, "aaa\nccc");
}

#[test]
fn ins_tail_keeps_echoes_literal() {
    // INS.TAIL: +bbb +ccc +NEW on "aaa\nbbb\nccc"
    let edits = vec![
        insert_tail("bbb"),
        insert_tail("ccc"),
        insert_tail("NEW"),
    ];
    let result = apply_edits("aaa\nbbb\nccc", &edits);
    assert_eq!(result.text, "aaa\nbbb\nccc\nbbb\nccc\nNEW");
}

#[test]
fn del_range() {
    // DEL 2.=3
    let edits = vec![delete(2), delete(3)];
    let result = apply_edits("line1\nline2\nline3\nline4", &edits);
    assert_eq!(result.text, "line1\nline4");
}

#[test]
fn swap_range_replaces() {
    // SWAP 2.=3: +X +Y
    let edits = swap_range(2, 3, &["X", "Y"]);
    let result = apply_edits("aaa\nbbb\nccc\nddd", &edits);
    assert_eq!(result.text, "aaa\nX\nY\nddd");
}

#[test]
fn preserves_blank_replacement_rows() {
    // SWAP 2.=2: with two empty payload rows
    let edits = swap_single(2, &["", ""]);
    let result = apply_edits("a\nb\nc\nd\ne", &edits);
    assert_eq!(result.text, "a\n\n\nc\nd\ne");
}

// ── Boundary repair tests ──────────────────────────────────────────────

#[test]
fn drops_duplicated_structural_closer() {
    let file = "it('a', () => {\n\tsetup();\n\trun();\n});\nafter();";
    // SWAP 2.=3: +\tsetup2(); +\trun2(); +});
    let edits = swap_range(2, 3, &["\tsetup2();", "\trun2();", "});"]);
    let result = apply_edits(file, &edits);
    assert_eq!(
        result.text,
        "it('a', () => {\n\tsetup2();\n\trun2();\n});\nafter();"
    );
    assert!(result.warnings.iter().any(|w| w.contains("delimiter-balance")));
}

#[test]
fn drops_boundary_echo_leading_trailing() {
    let file = "func _cmd_travel_homeworld():\n\tvar destination = get_homeworld()\n\ttravel_to(destination)\n\tprint_status()";
    let edits = swap_range(2, 3, &[
        "func _cmd_travel_homeworld():",
        "\tvar destination = find_homeworld()",
        "\ttravel_to(destination)",
        "\tprint_status()",
    ]);
    let result = apply_edits(file, &edits);
    assert_eq!(
        result.text,
        "func _cmd_travel_homeworld():\n\tvar destination = find_homeworld()\n\ttravel_to(destination)\n\tprint_status()"
    );
    assert!(result.warnings.iter().any(|w| w.contains("boundary echo")));
}

#[test]
fn preserves_balance_neutral_duplicated_statement() {
    let file = "a = 1;\nb = 2;\nc = 3;";
    let edits = swap_single(1, &["a = 1;", "b = 2;"]);
    let result = apply_edits(file, &edits);
    assert_eq!(result.text, "a = 1;\nb = 2;\nb = 2;\nc = 3;");
    assert!(result.warnings.is_empty());
}

#[test]
fn spares_deleted_closing_line_when_payload_omits_it() {
    let file = "const handlers = {\n\ta() {\n\t\treturn 1;\n\t},\n};";
    // SWAP 5.=5: +\tb() { +\t\treturn 2; +\t},
    let edits = swap_single(5, &["\tb() {", "\t\treturn 2;", "\t},"]);
    let result = apply_edits(file, &edits);
    assert_eq!(
        result.text,
        "const handlers = {\n\ta() {\n\t\treturn 1;\n\t},\n\tb() {\n\t\treturn 2;\n\t},\n};"
    );
    assert!(result.warnings.iter().any(|w| w.contains("delimiter-balance")));
}

// ── Landing shift tests ────────────────────────────────────────────────

#[test]
fn slides_shallower_body_past_closing_line() {
    let file = "function f() {\n    if (x) {\n        a();\n    }\n    b();\n}\n";
    let edits = vec![insert_after_plain(3, "    c();")];
    let result = apply_edits(file, &edits);
    assert_eq!(
        result.text,
        "function f() {\n    if (x) {\n        a();\n    }\n    c();\n    b();\n}\n"
    );
    assert_eq!(result.warnings.len(), 1);
    assert!(result.warnings[0].contains("INS.POST 3:"));
    assert!(result.warnings[0].contains("moved past 1 closing line to after line 4"));
}

#[test]
fn no_shift_when_body_matches_anchor_depth() {
    let file = "function f() {\n    if (x) {\n        a();\n    }\n    b();\n}\n";
    let edits = vec![insert_after_plain(3, "        c();")];
    let result = apply_edits(file, &edits);
    let lines: Vec<&str> = result.text.split('\n').collect();
    assert_eq!(lines[3], "        c();");
    assert!(result.warnings.is_empty());
}

#[test]
fn never_crosses_content_lines() {
    let py = "def f():\n    if x:\n        a()\n    b()\n";
    let edits = vec![insert_after_plain(3, "    c()")];
    let result = apply_edits(py, &edits);
    assert_eq!(result.text, "def f():\n    if x:\n        a()\n    c()\n    b()\n");
    assert!(result.warnings.is_empty());
}

#[test]
fn refuses_to_cross_targeted_line() {
    let file = "function f() {\n    if (x) {\n        a();\n    }\n    b();\n}\n";
    let edits = vec![insert_after_plain(3, "    c();"), delete(4)];
    let result = apply_edits(file, &edits);
    assert_eq!(
        result.text,
        "function f() {\n    if (x) {\n        a();\n    c();\n    b();\n}\n"
    );
    assert!(result.warnings.is_empty());
}

#[test]
fn leaves_ins_pre_untouched() {
    let file = "function f() {\n    if (x) {\n        a();\n    }\n    b();\n}\n";
    let edits = vec![Edit::Insert {
        cursor: Cursor::BeforeAnchor(Anchor { line: 4 }),
        text: "    c();".to_string(),
        mode: InsertMode::Insert,
    }];
    let result = apply_edits(file, &edits);
    let lines: Vec<&str> = result.text.split('\n').collect();
    assert_eq!(lines[3], "    c();");
    assert!(result.warnings.is_empty());
}

#[test]
fn ignores_brackets_inside_strings() {
    let file = "const a = \"}\";\nconst b = \"x\";\nconst c = \"y\";";
    let edits = swap_single(2, &["const b = \"}}}\";"]);
    let result = apply_edits(file, &edits);
    assert_eq!(result.text, "const a = \"}\";\nconst b = \"}}}\";\nconst c = \"y\";");
    assert!(result.warnings.is_empty());
}
