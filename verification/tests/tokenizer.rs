//! Tokens of the patch language.

use hashline::tokenizer::{tokenize, tokenize_line, BlockTarget, Token};

#[test]
fn tokenize_blank_and_body() {
    let tokens = tokenize("SWAP 2.=2:\n+hello\n\n+world");
    assert!(matches!(tokens[0], Token::HunkHeader { .. }));
    assert!(matches!(tokens[1], Token::BodyRow { ref text, .. } if text == "hello"));
    assert!(matches!(tokens[2], Token::Blank { .. }));
    assert!(matches!(tokens[3], Token::BodyRow { ref text, .. } if text == "world"));
}

#[test]
fn tokenize_section_header_with_tag() {
    let tokens = tokenize("[src/foo.ts#1A2B]\nSWAP 1.=1:\n+x");
    match &tokens[0] {
        Token::SectionHeader {
            path, file_hash, ..
        } => {
            assert_eq!(path, "src/foo.ts");
            assert_eq!(file_hash.as_deref(), Some("1A2B"));
        }
        other => panic!("expected SectionHeader, got {:?}", other),
    }
}

#[test]
fn tokenize_envelope_markers() {
    let tokens = tokenize("*** Begin Patch\n*** End Patch\n*** Abort");
    assert!(matches!(tokens[0], Token::EnvelopeBegin { .. }));
    assert!(matches!(tokens[1], Token::EnvelopeEnd { .. }));
    assert!(matches!(tokens[2], Token::Abort { .. }));
}

#[test]
fn tokenize_all_hunk_forms() {
    assert!(matches!(
        tokenize_line("SWAP 2.=3:", 1),
        Token::HunkHeader { target: BlockTarget::Replace { .. }, .. }
    ));
    assert!(matches!(
        tokenize_line("DEL 2.=3", 1),
        Token::HunkHeader { target: BlockTarget::Delete { .. }, .. }
    ));
    assert!(matches!(
        tokenize_line("INS.PRE 2:", 1),
        Token::HunkHeader { target: BlockTarget::InsertBefore { .. }, .. }
    ));
    assert!(matches!(
        tokenize_line("INS.HEAD:", 1),
        Token::HunkHeader { target: BlockTarget::Bof, .. }
    ));
    assert!(matches!(
        tokenize_line("SWAP.BLK 5:", 1),
        Token::HunkHeader { target: BlockTarget::Block { .. }, .. }
    ));
    assert!(matches!(
        tokenize_line("DEL.BLK 5", 1),
        Token::HunkHeader { target: BlockTarget::DeleteBlock { .. }, .. }
    ));
    assert!(matches!(
        tokenize_line("INS.BLK.POST 5:", 1),
        Token::HunkHeader { target: BlockTarget::InsertAfterBlock { .. }, .. }
    ));
    assert!(matches!(
        tokenize_line("REM", 1),
        Token::HunkHeader { target: BlockTarget::Rem, .. }
    ));
    assert!(matches!(
        tokenize_line("MV dest.ts", 1),
        Token::HunkHeader { target: BlockTarget::Move { .. }, .. }
    ));
}

#[test]
fn tokenize_alternate_range_separators() {
    for header in &["SWAP 2-3:", "SWAP 2..3:", "SWAP 2 3:", "SWAP 2.=3:", "SWAP 2\u{2026}3:"] {
        let t = tokenize_line(header, 1);
        match &t {
            Token::HunkHeader {
                target: BlockTarget::Replace { range },
                ..
            } => {
                assert_eq!(range.start, 2, "header: {}", header);
                assert_eq!(range.end, 3, "header: {}", header);
            }
            other => panic!("{} -> {:?}", header, other),
        }
    }
}

#[test]
fn tokenize_stray_dot_tolerance() {
    assert!(matches!(
        tokenize_line("SWAP 2.=3.:", 1),
        Token::HunkHeader { .. }
    ));
    assert!(matches!(
        tokenize_line("INS.POST 2.:", 1),
        Token::HunkHeader { .. }
    ));
    assert!(matches!(
        tokenize_line("DEL 2.=3.", 1),
        Token::HunkHeader { .. }
    ));
}

#[test]
fn tokenize_rejects_malformed_header() {
    assert!(matches!(tokenize_line("[src/a.ts#1A2]", 1), Token::Raw { .. }));
    assert!(matches!(tokenize_line("[src/a.ts#1A2G]", 1), Token::Raw { .. }));
    assert!(matches!(tokenize_line("[src/a.ts#1A2B5]", 1), Token::Raw { .. }));
    // trailing junk after tag
    assert!(matches!(
        tokenize_line("[src/a.ts#1A2B copied from read]", 1),
        Token::Raw { .. }
    ));
}

#[test]
fn tokenize_delete_with_colon_is_not_op() {
    // `DEL 2:` is not a valid hunk header — the tokenizer rejects it,
    // leaving it as Raw for the parser to surface the error.
    assert!(matches!(tokenize_line("DEL 2:", 1), Token::Raw { .. }));
}
