//! Laws of the library on concrete values.

use hashline::apply::apply_edits;
use hashline::balance::{compute_delimiter_balance, DelimiterBalance};
use hashline::diff_preview::{
    build_compact_diff_preview, make_diff_preview, parse_numbered_diff_line, CompactDiffOptions,
};
use hashline::engines::ChangeKind;
use hashline::format::{compute_file_hash, format_hashline_header, normalize_file_hash_text};
use hashline::messages::{
    block_single_line_message, block_unresolved_message, delete_takes_no_body_message,
    empty_block_message, empty_replace_message, format_anchored_context, format_line_ranges,
    path_recovered_from_tag_message, RECOVERY_EXTERNAL_WARNING, RECOVERY_LINE_REMAP_WARNING,
    RECOVERY_SESSION_CHAIN_WARNING, RECOVERY_SESSION_REPLAY_WARNING,
};
use hashline::parser::{parse_patch, parse_sections};
use hashline::prefixes::{hashline_parse_text_lines, strip_hashline_prefixes};
use hashline::recovery::{structured_patch_apply, Recovery, RecoveryArgs};
use hashline::sections::parse_hashline_header_line;
use hashline::snapshots::{InMemorySnapshotStore, SnapshotStoreTrait, MAX_PATHS};
use hashline::tokenizer::{clone_cursor, is_header, parse_lid};
use hashline::types::{Anchor, BlockOp, Cursor, Edit, InsertMode};

fn insert(cursor: Cursor, text: &str) -> Edit {
    Edit::Insert { cursor, text: text.to_string(), mode: InsertMode::Insert }
}

fn swap(line: u32, text: &str) -> Vec<Edit> {
    vec![
        Edit::Insert {
            cursor: Cursor::BeforeAnchor(Anchor::new(line)),
            text: text.to_string(),
            mode: InsertMode::Replacement,
        },
        Edit::Delete { anchor: Anchor::new(line) },
    ]
}

fn strings(list: &[&str]) -> Vec<String> {
    list.iter().map(|s| s.to_string()).collect()
}

// ── Tags and headers ─────────────────────────────────────────────────────

#[test]
fn tag_of_the_empty_text() {
    // xxHash32 of nothing under seed 0 is 0x02CC5D05.
    assert_eq!(compute_file_hash(""), "5D05");
}

#[test]
fn white_space_at_line_ends_does_not_count() {
    assert_eq!(normalize_file_hash_text("a \t\r\nb  \n"), "a\nb\n");
    assert_eq!(compute_file_hash("a \t\r\nb  \n"), compute_file_hash("a\nb\n"));
    assert_ne!(compute_file_hash(" a\nb\n"), compute_file_hash("a\nb\n"));
}

#[test]
fn a_header_is_read_back() {
    let tag = compute_file_hash("content\n");
    let header = format_hashline_header("src/lib.rs", &tag);
    assert!(is_header(&header));
    assert_eq!(
        parse_hashline_header_line(&header),
        Ok(Some(("src/lib.rs".to_string(), Some(tag))))
    );
}

#[test]
fn header_errors() {
    assert_eq!(parse_hashline_header_line("DEL 3"), Ok(None));
    assert!(parse_hashline_header_line("[ ]")
        .unwrap_err()
        .starts_with("Input header"));
    assert_eq!(
        parse_hashline_header_line("[a#b#c]").unwrap_err(),
        "Input header must be [PATH] or [PATH#TAG] with a 4-hex content-hash tag; got \"[a#b#c]\"."
    );
}

// ── Applying ─────────────────────────────────────────────────────────────

#[test]
fn no_edits_change_nothing() {
    let result = apply_edits("a\nb\n", &[]);
    assert_eq!(result.text, "a\nb\n");
    assert!(result.warnings.is_empty());
}

#[test]
fn deletes_remove_exactly_their_lines() {
    let edits = [Edit::Delete { anchor: Anchor::new(2) }, Edit::Delete { anchor: Anchor::new(4) }];
    assert_eq!(apply_edits("a\nb\nc\nd\ne\n", &edits).text, "a\nc\ne\n");
}

#[test]
fn lines_that_no_edit_names_are_kept() {
    let mut edits = swap(2, "B");
    edits.push(insert(Cursor::AfterAnchor(Anchor::new(3)), "c2"));
    edits.push(insert(Cursor::Bof, "head"));
    assert_eq!(apply_edits("a\nb\nc\nd\n", &edits).text, "head\na\nB\nc\nc2\nd\n");
}

#[test]
fn an_anchor_beyond_the_file_changes_nothing() {
    let result = apply_edits("a\nb\n", &[Edit::Delete { anchor: Anchor::new(9) }]);
    assert_eq!(result.text, "a\nb\n");
    assert_eq!(result.warnings.len(), 1);
}

#[test]
fn balance_counts_delimiters() {
    assert_eq!(
        compute_delimiter_balance(&strings(&["f(a[1], {", "  // )]}", "\"(((\""])),
        DelimiterBalance { paren: 1, bracket: 0, brace: 1 }
    );
}

// ── Diffs ────────────────────────────────────────────────────────────────

#[test]
fn diff_rows_are_read_back() {
    let diff = make_diff_preview("a\nb\n", "a\nB|b\n");
    let rows: Vec<_> = diff.split('\n').map(|l| parse_numbered_diff_line(l).unwrap()).collect();
    assert_eq!(rows[0], (ChangeKind::Equal, 1, "a".to_string()));
    assert_eq!(rows[1], (ChangeKind::Delete, 2, "b".to_string()));
    assert_eq!(rows[2], (ChangeKind::Insert, 2, "B|b".to_string()));
    assert_eq!(parse_numbered_diff_line("2|b"), None);
    assert_eq!(parse_numbered_diff_line("+x|b"), None);
}

#[test]
fn long_added_runs_are_compacted() {
    let diff = " 1|a\n+2|b\n+3|c\n+4|d\n+5|e\n+6|f\n-2|z\n 3|y";
    let preview = build_compact_diff_preview(diff, &CompactDiffOptions::default());
    assert_eq!(preview.added_lines, 5);
    assert_eq!(preview.removed_lines, 1);
    assert!(preview.preview.starts_with("1:a\n2:b\n3:c\n"));
    assert!(preview.preview.ends_with("5:e\n6:f\n7:y"));
}

#[test]
fn a_change_gives_the_new_text_where_it_was_taken_from() {
    let from = "1\n2\n3\n4\n5\n6\n7\n8\n9\n";
    let to = "1\n2\n3\n4\nfive\n5.5\n6\n7\n8\n9\n";
    assert_eq!(structured_patch_apply(from, to, from, 3, 0).as_deref(), Some(to));
}

#[test]
fn a_hunk_does_not_slide() {
    let from = "1\n2\n3\n4\n5\n6\n7\n8\n9\n";
    let to = "1\n2\n3\n4\nfive\n6\n7\n8\n9\n";
    let moved = "0\n1\n2\n3\n4\n5\n6\n7\n8\n9\n";
    assert_eq!(structured_patch_apply(from, to, moved, 3, 0), None);
}

// ── Recovery ─────────────────────────────────────────────────────────────

const NUMBERS: &str = "1\n2\n3\n4\n5\n6\n7\n8\n9\n10\n11\n12\n";

#[test]
fn an_unknown_tag_is_not_recovered() {
    let store = InMemorySnapshotStore::new();
    let edits = swap(2, "two");
    let args = RecoveryArgs { path: "f", current_text: NUMBERS, file_hash: "0000", edits: &edits };
    assert!(Recovery::new(&store).try_recover(args).is_none());
}

#[test]
fn an_external_change_elsewhere_is_merged() {
    let mut store = InMemorySnapshotStore::new();
    let tag = store.record("f", NUMBERS);
    let live = NUMBERS.replace("12", "twelve");
    let edits = swap(2, "two");
    let args = RecoveryArgs { path: "f", current_text: &live, file_hash: &tag, edits: &edits };
    let result = Recovery::new(&store).try_recover(args).unwrap();
    assert_eq!(result.text, live.replace("\n2\n", "\ntwo\n"));
    assert_eq!(result.first_changed_line, Some(2));
    assert_eq!(result.warnings, vec![RECOVERY_EXTERNAL_WARNING]);
}

#[test]
fn an_earlier_version_is_merged_as_a_session_chain() {
    let mut store = InMemorySnapshotStore::new();
    let tag = store.record("f", NUMBERS);
    let live = NUMBERS.replace("12", "twelve");
    store.record("f", &live);
    let edits = swap(2, "two");
    let args = RecoveryArgs { path: "f", current_text: &live, file_hash: &tag, edits: &edits };
    let result = Recovery::new(&store).try_recover(args).unwrap();
    assert_eq!(result.warnings, vec![RECOVERY_SESSION_CHAIN_WARNING]);
}

#[test]
fn shifted_lines_are_remapped() {
    let mut store = InMemorySnapshotStore::new();
    let tag = store.record("f", NUMBERS);
    let live = format!("zero\n{NUMBERS}");
    let edits = swap(2, "two");
    let args = RecoveryArgs { path: "f", current_text: &live, file_hash: &tag, edits: &edits };
    let result = Recovery::new(&store).try_recover(args).unwrap();
    assert_eq!(result.text, live.replace("\n2\n", "\ntwo\n"));
    assert_eq!(result.warnings, vec![RECOVERY_LINE_REMAP_WARNING]);
}

#[test]
fn an_edit_is_replayed_where_its_line_reads_the_same() {
    let mut store = InMemorySnapshotStore::new();
    let tag = store.record("f", "a\nx\nb\nx\nc\n");
    let live = "A\nx\nB\nx\nC\n";
    store.record("f", live);
    let edits = swap(2, "y");
    let args = RecoveryArgs { path: "f", current_text: live, file_hash: &tag, edits: &edits };
    let result = Recovery::new(&store).try_recover(args).unwrap();
    assert_eq!(result.text, "A\ny\nB\nx\nC\n");
    assert_eq!(result.warnings, vec![RECOVERY_SESSION_REPLAY_WARNING]);
}

// ── Snapshots ────────────────────────────────────────────────────────────

#[test]
fn the_oldest_path_is_forgotten_first() {
    let mut store = InMemorySnapshotStore::new();
    let first = store.record("p0", "zero\n");
    for i in 1..=MAX_PATHS {
        store.record(&format!("p{i}"), "x\n");
    }
    assert!(!store.verify("p0", &first));
    assert!(store.current_tag("p1").is_some());
}

#[test]
fn four_versions_of_a_path_are_kept() {
    let mut store = InMemorySnapshotStore::new();
    let tags: Vec<String> = (0..5).map(|i| store.record("p", &format!("{i}\n"))).collect();
    assert!(!store.verify("p", &tags[0]));
    for tag in &tags[1..] {
        assert!(store.verify("p", tag));
    }
    assert_eq!(store.current_tag("p"), Some(tags[4].as_str()));
    assert_eq!(store.by_content("p", "3\n").unwrap().tag, tags[3]);
    assert_eq!(store.head("p").unwrap().content, "4\n");
}

#[test]
fn seen_lines_stay_with_their_version() {
    let mut store = InMemorySnapshotStore::new();
    let tag = store.record("p", "a\n");
    store.record_seen_lines("p", &tag, vec![1]);
    assert_eq!(store.get_seen_lines("p", &tag), Some(&vec![1]));
    store.relocate("p", "q");
    assert_eq!(store.get_seen_lines("q", &tag), Some(&vec![1]));
    assert_eq!(store.find_by_tag(&tag), vec!["q"]);
    store.clear();
    assert!(store.find_by_hash(&tag).is_empty());
}

#[test]
fn the_store_as_a_trait() {
    let mut store = InMemorySnapshotStore::new();
    let tag = SnapshotStoreTrait::record(&mut store, "p", "a\n");
    assert!(SnapshotStoreTrait::verify(&store, "p", &tag));
    assert_eq!(SnapshotStoreTrait::current_tag(&store, "p"), Some(tag));
}

// ── Messages and small things ────────────────────────────────────────────

#[test]
fn line_ranges_are_sorted_and_joined() {
    assert_eq!(format_line_ranges(&[7, 3, 1, 2, 2], ", "), "1-3, 7");
    assert_eq!(format_line_ranges(&[], ","), "");
}

#[test]
fn anchored_context_marks_the_anchors() {
    let lines = strings(&["a", "b", "c", "d", "e", "f", "g", "h", "i"]);
    assert_eq!(
        format_anchored_context(&[1, 8], &lines),
        vec!["*1:a", " 2:b", " 3:c", "...", " 6:f", " 7:g", "*8:h", " 9:i"]
    );
}

#[test]
fn fixed_messages() {
    assert_eq!(
        empty_replace_message(),
        "`SWAP N.=M:` needs at least one `+TEXT` body row. To delete lines, use `DEL N.=M`."
    );
    assert_eq!(
        empty_block_message(),
        "`SWAP.BLK N:` needs at least one `+TEXT` body row. To delete a block, use `DEL.BLK N`."
    );
    assert_eq!(
        delete_takes_no_body_message(),
        "`DEL N.=M` does not take body rows. Remove the body, or use `SWAP N.=M:`."
    );
    assert_eq!(
        path_recovered_from_tag_message("f.rs", "src/f.rs", "1A2B"),
        "Path \"f.rs\" does not exist; matched its filename and snapshot tag #1A2B to src/f.rs (read earlier this session). Anchor future edits on [src/f.rs#TAG]."
    );
    assert!(block_single_line_message(3, BlockOp::Replace).contains("use `SWAP 3.=3:`"));
    assert!(block_unresolved_message(1, BlockOp::Delete, Some(&strings(&["a"])))
        .ends_with("\n*1:a"));
}

#[test]
fn cursors_in_words() {
    assert_eq!(Cursor::BeforeAnchor(Anchor::new(4)).describe(), "before line 4");
    assert_eq!(Cursor::AfterAnchor(Anchor::new(4)).describe(), "after line 4");
    assert_eq!(clone_cursor(&Cursor::Bof).describe(), "beginning of file");
    assert_eq!(Cursor::Eof.describe(), "end of file");
}

#[test]
fn line_numbers_of_anchors() {
    assert_eq!(parse_lid("12", 3).unwrap(), Anchor::new(12));
    let error = parse_lid("0", 3).err().unwrap();
    assert!(error.message.contains("line 3"));
}

#[test]
fn pasted_lines_lose_their_numbers() {
    let lines = strings(&["[f.rs#1A2B]", "1:a", "2:b"]);
    assert_eq!(strip_hashline_prefixes(&lines), strings(&["a", "b"]));
    assert_eq!(hashline_parse_text_lines(&strings(&["1:a", "2:b"])), strings(&["a", "b"]));
}

#[test]
fn sections_of_one_path_are_merged() {
    let sections = parse_sections("[f#1A2B]\nDEL 1\n[f#1A2B]\nDEL 3\n[g#0000]\nREM");
    assert_eq!(sections.len(), 2);
    assert_eq!(sections[0].edits.len(), 2);
    assert_eq!(sections[1].path, "g");
}

#[test]
fn overlapping_deletes_are_warned_about() {
    let once = hashline::parse_patch("DEL 2\nDEL 3");
    assert!(once.warnings.is_empty());
    let twice = hashline::parse_patch("DEL 2.=3\nDEL 3");
    assert_eq!(twice.warnings.len(), 1);
    assert!(twice.warnings[0].contains("already targeted by another hunk"));
}

#[test]
fn compact_preview_counts_what_the_diff_holds() {
    let diff = make_diff_preview("a\nb\nc\nd\n", "a\nB\nC\nx\nd\n");
    let preview = build_compact_diff_preview(&diff, &CompactDiffOptions::default());
    assert_eq!((preview.added_lines, preview.removed_lines), (3, 2));
    assert_eq!(preview.preview, "1:a\n2:B\n3:C\n4:x\n5:d\n6:");
}

#[test]
fn removal_takes_neither_body_nor_edits() {
    let body = hashline::parse_patch("REM\n+text");
    assert_eq!(
        body.warnings,
        vec!["line 2: `REM` deletes the whole file and takes no body rows or line ops. Issue it alone under the header."]
    );
    let after = hashline::parse_patch("REM\nDEL 2");
    assert_eq!(after.warnings.len(), 1);
    assert!(after.warnings[0].contains("takes no body rows or line ops"));
    let before = hashline::parse_patch("DEL 2\nREM");
    assert_eq!(before.file_op, None);
    let moved = hashline::parse_patch("MV new.rs\n+text");
    assert!(moved.warnings[0].contains("`MV DEST` does not take body rows"));
}

#[test]
fn recording_again_makes_a_path_recent() {
    let mut store = InMemorySnapshotStore::new();
    let first = store.record("p0", "zero\n");
    for i in 1..MAX_PATHS {
        store.record(&format!("p{i}"), "x\n");
    }
    store.record("p0", "zero\n");
    store.record("one more", "x\n");
    assert!(store.verify("p0", &first));
    assert_eq!(store.current_tag("p1"), None);
}

#[test]
fn equivalent_spellings_parse_alike() {
    let want = parse_patch("SWAP 2.=13:\n+X");
    assert_eq!(want.edits.len(), 13);
    for header in [
        "SWAP 2-13:",
        "SWAP 2\u{2026}13:",
        "SWAP 2 13:",
        "SWAP 2..13:",
        "SWAP 2 .. - 13 :",
        "SWAP 2.=13",
        "SWAP 2.=13.:",
        "SWAP 2.=13.",
    ] {
        let got = parse_patch(&format!("{header}\n+X"));
        assert_eq!(got.edits, want.edits, "{header}");
        assert_eq!(got.warnings, want.warnings, "{header}");
    }
    assert_eq!(parse_patch("DEL 2..3.").edits, parse_patch("DEL 2.=3").edits);
    assert_eq!(parse_patch("SWAP 4.:\n+X").edits, parse_patch("SWAP 4.=4:\n+X").edits);
    assert_eq!(parse_patch("INS.PRE 2.\n+X").edits, parse_patch("INS.PRE 2:\n+X").edits);
    assert_eq!(parse_patch("INS.POST 2\n+X").edits, parse_patch("INS.POST 2.:\n+X").edits);
    assert_eq!(parse_patch("INS.HEAD\n+X").edits, parse_patch("INS.HEAD.:\n+X").edits);
    assert_eq!(parse_patch("INS.TAIL.\n+X").edits, parse_patch("INS.TAIL:\n+X").edits);
}

#[test]
fn an_empty_swap_is_a_delete() {
    let want = vec![
        Edit::Delete { anchor: Anchor { line: 2 } },
        Edit::Delete { anchor: Anchor { line: 3 } },
        Edit::Delete { anchor: Anchor { line: 4 } },
    ];
    let swap = parse_patch("SWAP 2.=4:");
    let del = parse_patch("DEL 2.=4");
    assert_eq!(swap.edits, want);
    assert_eq!(del.edits, want);
    assert_eq!(swap.warnings, del.warnings);
    let swap = parse_patch("INS.HEAD:\n+x\nSWAP 2:");
    let del = parse_patch("INS.HEAD:\n+x\nDEL 2");
    assert_eq!(swap.edits, del.edits);
    assert_eq!(swap.warnings, del.warnings);
}

#[test]
fn an_end_marker_and_what_follows_change_nothing() {
    for patch in [
        "",
        "\n",
        "SWAP 2.=3:\n+X",
        "SWAP 2.=3:\n+X\n\n",
        "DEL 1\n# a note",
        "# a note",
        "REM\n",
        "stray",
        "DEL 1\n*** Abort\nDEL 2",
    ] {
        let want = parse_patch(patch);
        for marker in ["*** Abort", "*** End Patch", "*** End Patch  \r"] {
            for tail in ["", "\n", "\nDEL 7\nINS.TAIL:\n+never", "\nstray"] {
                let got = parse_patch(&format!("{patch}\n{marker}{tail}"));
                assert_eq!(got.edits, want.edits, "{patch:?} {marker:?} {tail:?}");
                assert_eq!(got.warnings, want.warnings, "{patch:?} {marker:?} {tail:?}");
                assert_eq!(got.file_op, want.file_op, "{patch:?} {marker:?} {tail:?}");
            }
        }
    }
}

#[test]
fn strict_stripping_is_all_or_nothing_and_done_once() {
    let lines = |list: &[&str]| list.iter().map(|l| l.to_string()).collect::<Vec<String>>();
    // One line of content without a number keeps all as they are.
    let mixed = lines(&["[f#1A2B]", "1:a", "", "plain", "3:c"]);
    assert_eq!(strip_hashline_prefixes(&mixed), mixed);
    let numbered = lines(&["[f#1A2B]", "1:2:a", "", "  >>3:c"]);
    let once = strip_hashline_prefixes(&numbered);
    assert_eq!(once, lines(&["a", "", "c"]));
    assert_eq!(strip_hashline_prefixes(&once), once);
    // A header that comes to light under a number stays.
    let hidden = lines(&["1:[f#1A2B]", "2:b"]);
    let once = strip_hashline_prefixes(&hidden);
    assert_eq!(once, lines(&["[f#1A2B]", "b"]));
    assert_eq!(strip_hashline_prefixes(&once), once);
}
