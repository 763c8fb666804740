//! The patcher: preparing, refusing and committing sections.

use hashline::errors::PatchError;
use hashline::format::compute_file_hash;
use hashline::messages::HEADTAIL_DRIFT_WARNING;
use hashline::parser::parse_sections;
use hashline::patcher::{
    assert_seen_lines, mismatch_error_message, write_error, FileAction, FileState, NoResolver, Patcher, SectionOp,
};
use hashline::types::{
    BlockOp, BlockResolution, BlockResolver, BlockResolverRequest, BlockSpan, Patch,
};

fn file(path: &str, canonical: &str, content: &str) -> FileState {
    FileState {
        path: path.to_string(),
        canonical: canonical.to_string(),
        content: Some(content.to_string()),
    }
}

fn patch(input: &str) -> Patch {
    Patch { sections: parse_sections(input) }
}

fn tagged(path: &str, content: &str, body: &str) -> String {
    format!("[{path}#{}]\n{body}", compute_file_hash(content))
}

#[test]
fn live_edit_is_prepared_and_committed() {
    let before = "a\nb\nc\n";
    let mut patcher = Patcher::new();
    patcher.snapshots.record("/w/f.txt", before);
    let p = patch(&tagged("f.txt", before, "SWAP 2.=2:\n+B"));
    let mut list = patcher.apply(&p, &[file("f.txt", "/w/f.txt", before)]).unwrap();
    assert_eq!(list.len(), 1);
    let prepared = list.remove(0);
    match prepared.action() {
        FileAction::Write { path, text } => {
            assert_eq!(path, "f.txt");
            assert_eq!(text, "a\nB\nc\n");
        }
        other => panic!("expected a write, got {other:?}"),
    }
    let result = patcher.commit(prepared, "", None).unwrap();
    let tag = compute_file_hash("a\nB\nc\n");
    assert_eq!(result.op, SectionOp::Update);
    assert_eq!(result.path, "f.txt");
    assert_eq!(result.canonical_path, "/w/f.txt");
    assert_eq!(result.before, before);
    assert_eq!(result.after, "a\nB\nc\n");
    assert_eq!(result.file_hash, tag);
    assert_eq!(result.header, format!("[f.txt#{tag}]"));
    assert_eq!(result.diff, " 1|a\n-2|b\n+2|B\n 3|c\n 4|");
    assert_eq!(result.first_changed_line, Some(2));
    assert_eq!(result.move_dest, None);
    assert!(result.warnings.is_empty());
    assert_eq!(patcher.snapshots.current_tag("/w/f.txt"), Some(tag.as_str()));
}

#[test]
fn a_second_edit_cites_the_header_of_the_first() {
    let mut patcher = Patcher::new();
    let first = "one\ntwo\n";
    patcher.snapshots.record("f", first);
    let p = patch(&tagged("f", first, "SWAP 1.=1:\n+ONE"));
    let prepared = patcher.apply(&p, &[file("f", "f", first)]).unwrap().remove(0);
    let result = patcher.commit(prepared, "", None).unwrap();
    let p = patch(&format!("{}\nSWAP 2.=2:\n+TWO", result.header));
    let prepared = patcher.apply(&p, &[file("f", "f", &result.after)]).unwrap().remove(0);
    assert_eq!(prepared.apply_result.text, "ONE\nTWO\n");
}

#[test]
fn byte_order_mark_is_dropped() {
    let mut patcher = Patcher::new();
    let p = patch(&tagged("f", "a\nb\n", "DEL 1"));
    let prepared = patcher.apply(&p, &[file("f", "f", "\u{feff}a\nb\n")]).unwrap().remove(0);
    assert_eq!(prepared.normalized, "a\nb\n");
    assert_eq!(prepared.raw_content, "\u{feff}a\nb\n");
    assert_eq!(prepared.apply_result.text, "b\n");
}

#[test]
fn unknown_tag_is_refused() {
    let live = "a\nb\nc\n";
    let mut patcher = Patcher::new();
    let p = patch("[f.txt#0000]\nSWAP 2.=2:\n+B");
    let error = patcher.apply(&p, &[file("f.txt", "/w/f.txt", live)]).err().unwrap();
    let actual = compute_file_hash(live);
    assert_eq!(
        error.message,
        format!(
            "Edit rejected for f.txt: hash #0000 is not from this session.\nThe current file hashes to #{actual}. Re-read the file with `read` to copy a current [path#tag] header — never invent the tag and never reuse one from a prior session."
        )
    );
    // The refusal records what the file holds now.
    assert!(patcher.snapshots.verify("/w/f.txt", &actual));
}

#[test]
fn known_tag_of_a_rewritten_file_is_refused() {
    let mut patcher = Patcher::new();
    let read = patcher.snapshots.record("/w/f.txt", "a\nb\nc\n");
    let live = "x\ny\nz\nw\n";
    let p = patch(&format!("[f.txt#{read}]\nSWAP 2.=2:\n+B"));
    let error = patcher.apply(&p, &[file("f.txt", "/w/f.txt", live)]).err().unwrap();
    assert_eq!(
        error.message,
        mismatch_error_message("f.txt", &read, &compute_file_hash(live), true)
    );
    assert!(error.message.starts_with(
        "Edit rejected for f.txt: file changed between read and edit.\nSection is bound to #"
    ));
}

#[test]
fn mismatch_without_a_path() {
    let message = mismatch_error_message("", "AAAA", "BBBB", false);
    assert!(message.starts_with("Edit rejected: hash #AAAA is not from this session.\n"));
}

#[test]
fn stale_tag_is_recovered_by_merge() {
    let mut patcher = Patcher::new();
    let read = "1\n2\n3\n4\n5\n6\n7\n8\n9\n10\n11\n12\n";
    let live = "1\n2\n3\n4\n5\n6\n7\n8\n9\n10\n11\ntwelve\n";
    patcher.snapshots.record("/w/f", read);
    let p = patch(&tagged("f", read, "SWAP 2.=2:\n+two"));
    let prepared = patcher.apply(&p, &[file("f", "/w/f", live)]).unwrap().remove(0);
    assert_eq!(prepared.apply_result.text, live.replace("\n2\n", "\ntwo\n"));
    assert_eq!(prepared.apply_result.first_changed_line, Some(2));
    assert_eq!(prepared.apply_result.warnings.len(), 1);
}

#[test]
fn head_and_tail_inserts_survive_drift() {
    let mut patcher = Patcher::new();
    let p = patch("[f#0000]\nINS.TAIL:\n+end");
    let prepared = patcher.apply(&p, &[file("f", "f", "x\n")]).unwrap().remove(0);
    assert_eq!(prepared.apply_result.text, "x\nend\n");
    assert_eq!(prepared.apply_result.warnings, vec![HEADTAIL_DRIFT_WARNING]);
}

#[test]
fn unseen_lines_are_shown_and_a_retry_succeeds() {
    let content = "a\nb\nc\nd\n";
    let mut patcher = Patcher::new();
    let tag = patcher.snapshots.record("/w/f", content);
    patcher.snapshots.record_seen_lines("/w/f", &tag, vec![1, 2]);
    let p = patch(&format!("[f#{tag}]\nDEL 3\nDEL 4"));
    let files = [file("f", "/w/f", content)];
    let error = patcher.apply(&p, &files).err().unwrap();
    assert_eq!(
        error.message,
        format!(
            "This edit anchors to lines 3-4 of f that [f#{tag}] never displayed (it showed a partial range, a search hit, or a folded summary). Actual file content at those lines:\n  3:c\n  4:d\nVerify the content matches what you intend to touch, then re-issue the edit with the same [path#tag] header — a straight retry now succeeds without a re-read. If the content does NOT match, fix your line numbers."
        )
    );
    let prepared = patcher.apply(&p, &files).unwrap().remove(0);
    assert_eq!(prepared.apply_result.text, "a\nb\n");
}

#[test]
fn a_cut_preview_does_not_count_as_shown() {
    let long = "é".repeat(300);
    let content = format!("a\n{long}\n");
    let mut patcher = Patcher::new();
    let tag = patcher.snapshots.record("f", &content);
    patcher.snapshots.record_seen_lines("f", &tag, vec![1]);
    let p = patch(&format!("[f#{tag}]\nDEL 2"));
    let files = [file("f", "f", &content)];
    let first = patcher.apply(&p, &files).err().unwrap();
    assert!(first.message.contains(&format!("  2:{}…\n", "é".repeat(256))));
    assert!(first.message.ends_with("re-read the remainder with `f:2` before re-issuing the edit."));
    assert!(patcher.apply(&p, &files).is_err());
}

#[test]
fn a_missing_path_is_found_by_name_and_tag() {
    let content = "a\nb\n";
    let mut patcher = Patcher::new();
    let tag = patcher.snapshots.record("/w/src/f.rs", content);
    let p = patch(&format!("[f.rs#{tag}]\nDEL 1"));
    assert_eq!(patcher.paths_to_read(&p.sections[0]), vec!["f.rs", "/w/src/f.rs"]);
    let files = [file("/w/src/f.rs", "/w/src/f.rs", content)];
    let prepared = patcher.apply(&p, &files).unwrap().remove(0);
    assert_eq!(prepared.section.path, "/w/src/f.rs");
    assert_eq!(prepared.canonical_path, "/w/src/f.rs");
    assert_eq!(prepared.apply_result.text, "b\n");
}

#[test]
fn two_candidates_are_no_match() {
    let mut patcher = Patcher::new();
    let tag = patcher.snapshots.record("/a/f.rs", "x\n");
    patcher.snapshots.record("/b/f.rs", "x\n");
    let p = patch(&format!("[f.rs#{tag}]\nDEL 1"));
    let files = [file("/a/f.rs", "/a/f.rs", "x\n"), file("/b/f.rs", "/b/f.rs", "x\n")];
    let error = patcher.apply(&p, &files).err().unwrap();
    assert_eq!(error.message, "File not found: f.rs. Use the write tool to create new files.");
}

#[test]
fn missing_tag_is_refused() {
    let mut patcher = Patcher::new();
    let p = patch("[f]\nDEL 1");
    let error = patcher.apply(&p, &[file("f", "f", "x\n")]).err().unwrap();
    assert_eq!(
        error.message,
        "Missing hashline snapshot tag for f; use `[f#tag]` from your latest read/search output. To create a new file, use the write tool."
    );
}

#[test]
fn move_takes_text_and_history_along() {
    let content = "a\nb\n";
    let mut patcher = Patcher::new();
    let tag = patcher.snapshots.record("/w/old", content);
    let p = patch(&format!("[old#{tag}]\nSWAP 1.=1:\n+A\nMV new"));
    assert_eq!(patcher.paths_to_read(&p.sections[0]), vec!["old", "/w/old", "new"]);
    let prepared = patcher.apply(&p, &[file("old", "/w/old", content)]).unwrap().remove(0);
    match prepared.action() {
        FileAction::Move { from, dest, text } => {
            assert_eq!((from.as_str(), dest.as_str()), ("old", "new"));
            assert_eq!(text, "A\nb\n");
        }
        other => panic!("expected a move, got {other:?}"),
    }
    let result = patcher.commit(prepared, "/w/new", None).unwrap();
    assert_eq!(result.op, SectionOp::Update);
    assert_eq!(result.path, "new");
    assert_eq!(result.canonical_path, "/w/new");
    assert_eq!(result.move_dest.as_deref(), Some("new"));
    assert!(patcher.snapshots.verify("/w/new", &tag));
    assert!(patcher.snapshots.verify("/w/new", &result.file_hash));
    assert!(!patcher.snapshots.verify("/w/old", &tag));
}

#[test]
fn move_onto_itself_is_refused() {
    let mut patcher = Patcher::new();
    let p = patch(&tagged("f", "a\n", "MV ./f"));
    let files = [file("f", "/w/f", "a\n"), file("./f", "/w/f", "a\n")];
    let error = patcher.apply(&p, &files).err().unwrap();
    assert_eq!(error.message, "MV destination is the same as f.");
}

#[test]
fn remove_forgets_the_file() {
    let mut patcher = Patcher::new();
    let tag = patcher.snapshots.record("f", "a\n");
    let p = patch(&format!("[f#{tag}]\nREM"));
    let prepared = patcher.apply(&p, &[file("f", "f", "a\n")]).unwrap().remove(0);
    assert!(!prepared.is_noop());
    match prepared.action() {
        FileAction::Remove { path } => assert_eq!(path, "f"),
        other => panic!("expected a removal, got {other:?}"),
    }
    let result = patcher.commit(prepared, "", None).unwrap();
    assert_eq!(result.op, SectionOp::Delete);
    assert_eq!(result.after, "a\n");
    assert_eq!(result.diff, "");
    assert!(!patcher.snapshots.verify("f", &tag));
}

#[test]
fn a_single_section_may_change_nothing() {
    let mut patcher = Patcher::new();
    let p = patch(&tagged("f", "a\nb\n", "SWAP 1.=1:\n+a"));
    let prepared = patcher.apply(&p, &[file("f", "f", "a\nb\n")]).unwrap().remove(0);
    assert!(prepared.is_noop());
    match prepared.action() {
        FileAction::Keep => {}
        other => panic!("expected nothing to do, got {other:?}"),
    }
    let result = patcher.commit(prepared, "", None).unwrap();
    assert_eq!(result.op, SectionOp::Noop);
    assert_eq!(result.diff, "");
    assert_eq!(result.first_changed_line, None);
    // Prepared on its own the section is in order too; a preflight holds it to the rules
    // of a batch.
    let alone = patcher.prepare(&p.sections[0], &[file("f", "f", "a\nb\n")]).unwrap();
    assert!(alone.is_noop());
    let error = patcher.preflight(&p, &[file("f", "f", "a\nb\n")]).err().unwrap();
    assert_eq!(error.message, "Edits to f resulted in no changes being made.");
}

#[test]
fn a_batch_is_all_or_nothing() {
    let mut patcher = Patcher::new();
    let files = [file("f", "/w/f", "a\nb\n"), file("g", "/w/g", "x\n"), file("./f", "/w/f", "a\nb\n")];
    let good = tagged("f", "a\nb\n", "DEL 1");
    let other = tagged("g", "x\n", "SWAP 1.=1:\n+X");
    let idle = tagged("g", "x\n", "SWAP 1.=1:\n+x");
    let again = tagged("./f", "a\nb\n", "DEL 2");

    let list = patcher.apply(&patch(&format!("{good}\n{other}")), &files).unwrap();
    assert_eq!(list.len(), 2);
    assert_eq!(list[0].apply_result.text, "b\n");
    assert_eq!(list[1].apply_result.text, "X\n");
    assert!(patcher.preflight(&patch(&format!("{good}\n{other}")), &files).is_ok());

    let error = patcher.apply(&patch(&format!("{good}\n{idle}")), &files).err().unwrap();
    assert_eq!(error.message, "Edits to g resulted in no changes being made.");

    let error = patcher.apply(&patch(&format!("{good}\n{again}")), &files).err().unwrap();
    assert_eq!(
        error.message,
        "Multiple hashline sections resolve to the same file (f and ./f). Merge their ops under one header before applying."
    );

    let error = patcher.apply(&patch(&format!("{good}\n[h#0000]\nDEL 1")), &files).err().unwrap();
    assert_eq!(error.message, "File not found: h. Use the write tool to create new files.");
}

#[test]
fn a_failed_write_changes_nothing() {
    let mut patcher = Patcher::new();
    let tag = patcher.snapshots.record("f", "a\nb\n");
    let p = patch(&format!("[f#{tag}]\nDEL 1"));
    let prepared = patcher.apply(&p, &[file("f", "f", "a\nb\n")]).unwrap().remove(0);
    let error = patcher.commit(prepared, "", Some("disk full".to_string())).err().unwrap();
    assert_eq!(error.message, "disk full");
    assert_eq!(patcher.snapshots.current_tag("f"), Some(tag.as_str()));
    let batch = write_error("f", &PatchError { message: "disk full".to_string() });
    assert_eq!(batch.message, "Failed to write f: disk full");
}

struct WholeFile;

impl BlockResolver for WholeFile {
    fn resolve(&self, request: &BlockResolverRequest) -> Option<BlockSpan> {
        if request.line == 1 {
            Some(BlockSpan { start: 1, end: 3 })
        } else {
            None
        }
    }
}

#[test]
fn block_edits_ask_the_resolver() {
    let content = "fn f() {\n    g();\n}\nend\n";
    let mut patcher = Patcher::new().with_block_resolver(WholeFile);
    let p = patch(&tagged("f.rs", content, "DEL.BLK 1"));
    let prepared = patcher.apply(&p, &[file("f.rs", "f.rs", content)]).unwrap().remove(0);
    assert_eq!(prepared.apply_result.text, "end\n");
    assert_eq!(
        prepared.apply_result.block_resolutions,
        vec![BlockResolution { anchor_line: 1, start: 1, end: 3, op: BlockOp::Delete }]
    );
    let p = patch(&tagged("f.rs", content, "DEL.BLK 2"));
    let error = patcher.apply(&p, &[file("f.rs", "f.rs", content)]).err().unwrap();
    assert!(error.message.contains("could not resolve a syntactic block beginning on line 2"));
}

#[test]
fn a_block_edit_on_an_unknown_tag_is_refused() {
    let mut patcher = Patcher::new().with_block_resolver(NoResolver);
    let p = patch("[f#0000]\nDEL.BLK 1");
    let error = patcher.apply(&p, &[file("f", "f", "a\n")]).err().unwrap();
    assert_eq!(
        error.message,
        mismatch_error_message("f", "0000", &compute_file_hash("a\n"), false)
    );
}

#[test]
fn line_ends_are_kept_on_disk_and_normalized_in_the_result() {
    let before = "a\r\nb\r\n";
    let mut patcher = Patcher::new();
    let p = patch(&tagged("f", before, "DEL 1"));
    let prepared = patcher.apply(&p, &[file("f", "f", before)]).unwrap().remove(0);
    match prepared.action() {
        FileAction::Write { text, .. } => assert_eq!(text, "b\r\n"),
        other => panic!("expected a write, got {other:?}"),
    }
    let result = patcher.commit(prepared, "", None).unwrap();
    assert_eq!(result.before, "a\nb\n");
    assert_eq!(result.after, "b\n");
    assert_eq!(result.file_hash, compute_file_hash("b\n"));
    assert_eq!(result.first_changed_line, Some(1));
}

#[test]
fn a_change_of_line_ends_alone_shows_no_changed_line() {
    let before = "a\r\nb\r\n";
    let mut patcher = Patcher::new();
    let p = patch(&tagged("f", before, "SWAP 1.=1:\n+a"));
    let prepared = patcher.apply(&p, &[file("f", "f", before)]).unwrap().remove(0);
    match prepared.action() {
        FileAction::Write { text, .. } => assert_eq!(text, "a\nb\r\n"),
        other => panic!("expected a write, got {other:?}"),
    }
    let result = patcher.commit(prepared, "", None).unwrap();
    assert_eq!(result.op, SectionOp::Update);
    assert_eq!(result.before, "a\nb\n");
    assert_eq!(result.after, "a\nb\n");
    assert_eq!(result.first_changed_line, None);
}

#[test]
fn unseen_lines_count_as_seen_once_they_are_quoted() {
    let content = "a\nb\nc\nd\n";
    let mut patcher = Patcher::new();
    let tag = patcher.snapshots.record("/w/f", content);
    patcher.snapshots.record_seen_lines("/w/f", &tag, vec![1]);
    let section = patch(&format!("[f#{tag}]\nDEL 1\nDEL 3.=4")).sections.remove(0);
    let store = &mut patcher.snapshots;
    let error = assert_seen_lines(store, "/w/f", &section, &tag, &tag, &[1], content)
        .err()
        .unwrap();
    assert!(error.message.contains("  3:c\n  4:d\n"));
    assert!(error.message.contains("a straight retry now succeeds"));
    let seen = store.get_seen_lines("/w/f", &tag).unwrap().to_vec();
    assert_eq!(seen, vec![1, 3, 4]);
    assert!(assert_seen_lines(store, "/w/f", &section, &tag, &tag, &seen, content).is_ok());
}
