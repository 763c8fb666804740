//! The vocabulary of patches: anchors, cursors, edits, sections.

use vstd::prelude::*;

use crate::numbers;
use crate::text;
use crate::views;

verus! {

/// A 1-indexed line anchor.
#[derive(Debug, Clone, Copy, PartialEq, Eq, Structural, Hash)]
pub struct Anchor {
    pub line: u32,
}

impl Anchor {
    pub fn new(line: u32) -> (r: Self)
        ensures
            r == (Anchor { line }),
    {
        Self { line }
    }
}

/// Cursor position for insertions.
#[derive(Debug, Clone, Copy, PartialEq, Eq, Structural)]
pub enum Cursor {
    /// Before a specific anchor line.
    BeforeAnchor(Anchor),
    /// After a specific anchor line.
    AfterAnchor(Anchor),
    /// Beginning of file.
    Bof,
    /// End of file.
    Eof,
}

impl Cursor {
    /// The cursor in words.
    pub open spec fn words(self) -> Seq<char> {
        match self {
            Cursor::BeforeAnchor(a) => "before line "@ + numbers::dec(a.line as nat),
            Cursor::AfterAnchor(a) => "after line "@ + numbers::dec(a.line as nat),
            Cursor::Bof => "beginning of file"@,
            Cursor::Eof => "end of file"@,
        }
    }

    /// Describe the cursor for a reader, as in `before line 4`.
    pub fn describe(&self) -> (r: String)
        ensures
            r@ == self.words(),
    {
        match self {
            Cursor::BeforeAnchor(a) => {
                let mut s = text::owned("before line ");
                s.append(numbers::decimal(a.line as u64).as_str());
                s
            },
            Cursor::AfterAnchor(a) => {
                let mut s = text::owned("after line ");
                s.append(numbers::decimal(a.line as u64).as_str());
                s
            },
            Cursor::Bof => text::owned("beginning of file"),
            Cursor::Eof => text::owned("end of file"),
        }
    }

    /// The line a cursor is anchored on, if any.
    pub open spec fn anchored(self) -> Option<u32> {
        match self {
            Cursor::BeforeAnchor(a) => Some(a.line),
            Cursor::AfterAnchor(a) => Some(a.line),
            Cursor::Bof => None,
            Cursor::Eof => None,
        }
    }

    /// The line a cursor is anchored on, if any.
    pub fn anchor_line(&self) -> (r: Option<u32>)
        ensures
            r == self.anchored(),
    {
        match self {
            Cursor::BeforeAnchor(a) => Some(a.line),
            Cursor::AfterAnchor(a) => Some(a.line),
            Cursor::Bof => None,
            Cursor::Eof => None,
        }
    }
}

/// Insert mode distinguishes replacement inserts from pure inserts.
#[derive(Debug, Clone, Copy, PartialEq, Eq, Structural)]
pub enum InsertMode {
    /// A pure insertion (INS.PRE/POST/HEAD/TAIL).
    Insert,
    /// A replacement insert (part of SWAP).
    Replacement,
}

/// Block edit mode: distinguishes SWAP.BLK, DEL.BLK, and INS.BLK.POST.
#[derive(Debug, Clone, Copy, PartialEq, Eq, Structural)]
pub enum BlockMode {
    /// SWAP.BLK N: replace the block with the payloads.
    Replace,
    /// DEL.BLK N: delete the block.
    Delete,
    /// INS.BLK.POST N: insert after the block's end.
    InsertAfter,
}

/// An edit operation parsed from a patch.
#[derive(Debug, Clone, PartialEq, Eq)]
pub enum Edit {
    /// Insert text at a cursor position.
    Insert { cursor: Cursor, text: String, mode: InsertMode },
    /// Delete one line.
    Delete { anchor: Anchor },
    /// Block edit (SWAP.BLK / DEL.BLK / INS.BLK.POST), which needs a block resolver.
    Block { anchor: Anchor, payloads: Vec<String>, mode: BlockMode },
}

/// The model of an [`Edit`].
#[verifier::ext_equal]
pub enum EditView {
    Insert { cursor: Cursor, text: Seq<char>, mode: InsertMode },
    Delete { anchor: Anchor },
    Block { anchor: Anchor, payloads: Seq<Seq<char>>, mode: BlockMode },
}

impl View for Edit {
    type V = EditView;

    open spec fn view(&self) -> EditView {
        match self {
            Edit::Insert { cursor, text, mode } => EditView::Insert {
                cursor: *cursor,
                text: text@,
                mode: *mode,
            },
            Edit::Delete { anchor } => EditView::Delete { anchor: *anchor },
            Edit::Block { anchor, payloads, mode } => EditView::Block {
                anchor: *anchor,
                payloads: views::texts(payloads@),
                mode: *mode,
            },
        }
    }
}

impl Edit {
    /// Copy an edit.
    pub fn copy(&self) -> (r: Edit)
        ensures
            r@ == self@,
    {
        match self {
            Edit::Insert { cursor, text, mode } => Edit::Insert {
                cursor: *cursor,
                text: text.clone(),
                mode: *mode,
            },
            Edit::Delete { anchor } => Edit::Delete { anchor: *anchor },
            Edit::Block { anchor, payloads, mode } => Edit::Block {
                anchor: *anchor,
                payloads: text::clone_strings(payloads.as_slice()),
                mode: *mode,
            },
        }
    }
}

/// Copy a list of edits.
pub fn copy_edits(edits: &[Edit]) -> (r: Vec<Edit>)
    ensures
        views::all(r@) == views::all(edits@),
{
    broadcast use crate::views::group_all;

    let mut out: Vec<Edit> = Vec::new();
    for i in 0..edits.len()
        invariant
            views::all(out@) == views::all(edits@).take(i as int),
    {
        broadcast use crate::views::group_all;

        out.push(edits[i].copy());
        proof {
            views::lemma_take_step(views::all(edits@), i as int);
        }
    }
    proof {
        views::lemma_take_all(views::all(edits@));
    }
    out
}

/// A parsed range like `5.=10`.
#[derive(Debug, Clone, Copy, PartialEq, Eq, Structural)]
pub struct ParsedRange {
    pub start: u32,
    pub end: u32,
}

/// Block operation type for resolution results.
#[derive(Debug, Clone, Copy, PartialEq, Eq, Structural)]
pub enum BlockOp {
    Replace,
    Delete,
    InsertAfter,
}

/// A block resolution result, reported back to the author of the patch so that
/// it can confirm which construct a block operation reached.
#[derive(Debug, Clone, Copy, PartialEq, Eq, Structural)]
pub struct BlockResolution {
    pub anchor_line: u32,
    pub start: u32,
    pub end: u32,
    pub op: BlockOp,
}

/// Result of applying edits to text.
#[derive(Debug, Clone)]
pub struct ApplyResult {
    pub text: String,
    pub warnings: Vec<String>,
    pub first_changed_line: Option<u32>,
    pub block_resolutions: Vec<BlockResolution>,
}

/// The model of an [`ApplyResult`].
#[verifier::ext_equal]
pub struct ApplyResultView {
    pub text: Seq<char>,
    pub warnings: Seq<Seq<char>>,
    pub first_changed_line: Option<u32>,
    pub block_resolutions: Seq<BlockResolution>,
}

impl View for ApplyResult {
    type V = ApplyResultView;

    open spec fn view(&self) -> ApplyResultView {
        ApplyResultView {
            text: self.text@,
            warnings: views::texts(self.warnings@),
            first_changed_line: self.first_changed_line,
            block_resolutions: self.block_resolutions@,
        }
    }
}

/// File-level operations.
#[derive(Debug, Clone, PartialEq, Eq)]
pub enum FileOp {
    /// Remove the file (REM keyword).
    Rem,
    /// Move/rename the file (MV keyword).
    Mv { dest: String },
}

/// The model of a [`FileOp`].
#[verifier::ext_equal]
pub enum FileOpView {
    Rem,
    Mv { dest: Seq<char> },
}

impl View for FileOp {
    type V = FileOpView;

    open spec fn view(&self) -> FileOpView {
        match self {
            FileOp::Rem => FileOpView::Rem,
            FileOp::Mv { dest } => FileOpView::Mv { dest: dest@ },
        }
    }
}

/// The model of an optional [`FileOp`].
pub open spec fn opt_file_op(o: Option<FileOp>) -> Option<FileOpView> {
    match o {
        Some(op) => Some(op@),
        None => None,
    }
}

impl FileOp {
    /// Copy a file operation.
    pub fn copy(&self) -> (r: FileOp)
        ensures
            r@ == self@,
    {
        match self {
            FileOp::Rem => FileOp::Rem,
            FileOp::Mv { dest } => FileOp::Mv { dest: dest.clone() },
        }
    }
}

/// A parsed patch section: `[path#tag]` header + diff body.
#[derive(Debug, Clone)]
pub struct PatchSection {
    pub path: String,
    pub file_hash: Option<String>,
    pub edits: Vec<Edit>,
    pub file_op: Option<FileOp>,
    pub warnings: Vec<String>,
}

/// The model of a [`PatchSection`].
#[verifier::ext_equal]
pub struct PatchSectionView {
    pub path: Seq<char>,
    pub file_hash: Option<Seq<char>>,
    pub edits: Seq<EditView>,
    pub file_op: Option<FileOpView>,
    pub warnings: Seq<Seq<char>>,
}

impl View for PatchSection {
    type V = PatchSectionView;

    open spec fn view(&self) -> PatchSectionView {
        PatchSectionView {
            path: self.path@,
            file_hash: views::opt_text(self.file_hash),
            edits: views::all(self.edits@),
            file_op: opt_file_op(self.file_op),
            warnings: views::texts(self.warnings@),
        }
    }
}

impl PatchSection {
    /// Copy a section.
    pub fn copy(&self) -> (r: PatchSection)
        ensures
            r@ == self@,
    {
        PatchSection {
            path: self.path.clone(),
            file_hash: text::clone_opt(&self.file_hash),
            edits: copy_edits(self.edits.as_slice()),
            file_op: copy_file_op(&self.file_op),
            warnings: text::clone_strings(self.warnings.as_slice()),
        }
    }
}

/// Copy an optional file operation.
pub fn copy_file_op(op: &Option<FileOp>) -> (r: Option<FileOp>)
    ensures
        opt_file_op(r) == opt_file_op(*op),
{
    match op {
        Some(f) => Some(f.copy()),
        None => None,
    }
}

/// A complete patch with one or more sections.
#[derive(Debug, Clone)]
pub struct Patch {
    pub sections: Vec<PatchSection>,
}

/// Options for splitting hashline input.
#[derive(Debug, Clone)]
pub struct SplitOptions {
    pub cwd: Option<String>,
    pub path: Option<String>,
}

impl Default for SplitOptions {
    fn default() -> (r: Self)
        ensures
            r.cwd is None,
            r.path is None,
    {
        SplitOptions { cwd: None, path: None }
    }
}

/// A block span found by a [`BlockResolver`].
#[derive(Debug, Clone, Copy, PartialEq, Eq, Structural)]
pub struct BlockSpan {
    pub start: u32,
    pub end: u32,
}

/// Request for block resolution.
#[derive(Debug, Clone)]
pub struct BlockResolverRequest {
    pub code: String,
    pub lang: Option<String>,
    pub path: Option<String>,
    pub line: u32,
}

/// Finds the block that a SWAP.BLK / DEL.BLK / INS.BLK.POST operation names.
pub trait BlockResolver {
    /// The line span of the block at the requested line, or `None`.
    fn resolve(&self, request: &BlockResolverRequest) -> Option<BlockSpan>;
}

} // verus!
