//! Block edits.

use hashline::block::{resolve_block_edits, OnUnresolved, ResolveBlockEditsOptions};
use hashline::patcher::NoResolver;
use hashline::types::{Anchor, BlockMode, Cursor, Edit, InsertMode};

#[test]
fn passthrough_when_no_block_edits() {
    let edits = vec![Edit::Insert {
        cursor: Cursor::Eof,
        text: "x".into(),
        mode: InsertMode::Insert,
    }];
    let mut opts = ResolveBlockEditsOptions::default();
    let out = resolve_block_edits(edits.clone(), "", "f.ts", None::<&NoResolver>, &mut opts).unwrap();
    assert_eq!(out, edits);
}

#[test]
fn delete_block_without_resolver_throws() {
    let edits = vec![Edit::Block {
        anchor: Anchor::new(2),
        payloads: vec![],
        mode: BlockMode::Delete,
    }];
    let mut opts = ResolveBlockEditsOptions {
        on_unresolved: OnUnresolved::Throw,
        ..Default::default()
    };
    let result = resolve_block_edits(edits, "a\nb\nc\n", "f.ts", None::<&NoResolver>, &mut opts);
    assert!(result.is_err());
    assert!(result.unwrap_err().message.contains("block resolver"));
}

#[test]
fn insert_after_block_without_resolver_lowers_to_insert_post() {
    let edits = vec![Edit::Block {
        anchor: Anchor::new(2),
        payloads: vec!["NEW".into()],
        mode: BlockMode::InsertAfter,
    }];
    let mut opts = ResolveBlockEditsOptions {
        on_unresolved: OnUnresolved::Throw,
        ..Default::default()
    };
    let out = resolve_block_edits(edits, "a\nb\nc\n", "f.ts", None::<&NoResolver>, &mut opts).unwrap();
    assert_eq!(out.len(), 1);
    match &out[0] {
        Edit::Insert {
            cursor,
            text,
            mode,
        } => {
            assert_eq!(*cursor, Cursor::AfterAnchor(Anchor::new(2)));
            assert_eq!(text, "NEW");
            assert_eq!(*mode, InsertMode::Insert);
        }
        _ => panic!("expected Insert"),
    }
    let warning = opts.warnings.first();
    assert!(warning.is_some());
}
