//! Patcher: from patch sections and the files they name to what is to be written.
//!
//! The files are read and written by the caller. A [`Patcher`] says which paths it needs
//! to know about, prepares every section against what was read, says what each prepared
//! section asks of the file system, and brings the snapshot store up to date once that
//! was done.

use vstd::prelude::*;

use crate::apply;
use crate::apply::apply_edits;
use crate::block;
use crate::block::{has_block_edit, resolve_block_edits, OnUnresolved, ResolveBlockEditsOptions, ResolvedView};
use crate::diff_preview;
use crate::diff_preview::make_diff_preview;
use crate::errors::PatchError;
use crate::format::{compute_file_hash, format_hashline_header};
use crate::messages;
use crate::messages::{
    missing_snapshot_tag_message, unseen_lines_message, RevealedLine, UnseenLinesReveal,
    HEADTAIL_DRIFT_WARNING,
};
use crate::numbers;
use crate::paths;
use crate::recovery;
use crate::recovery::{Recovery, RecoveryArgs};
use crate::sections;
use crate::snapshots;
use crate::snapshots::{InMemorySnapshotStore, PathEntryView, SnapshotView, StoreView};
use crate::text;
use crate::types::{
    copy_edits, copy_file_op, ApplyResult, ApplyResultView, BlockResolution, BlockResolver,
    BlockResolverRequest, BlockSpan, Edit, EditView, FileOp, FileOpView, Patch,
    PatchSection, PatchSectionView,
};
use crate::views;

verus! {

broadcast use {crate::views::group_all, crate::views::group_texts};

/// Upper bound on unseen anchor lines whose actual content is shown in the refusal.
pub const SEEN_LINE_REVEAL_CAP: usize = 40;

/// How many bytes of a line the refusal shows.
pub const SEEN_LINE_REVEAL_MAX_COLUMNS: usize = 512;

// ── What the file system said ────────────────────────────────────────────

/// What is known of a path.
#[derive(Debug, Clone)]
pub struct FileState {
    /// The path as it is written.
    pub path: String,
    /// The path that names the same file in one way only; the path itself where there is
    /// no such file.
    pub canonical: String,
    /// The content, or `None` where it cannot be read.
    pub content: Option<String>,
}

/// The model of a [`FileState`].
#[verifier::ext_equal]
pub struct FileStateView {
    pub path: Seq<char>,
    pub canonical: Seq<char>,
    pub content: Option<Seq<char>>,
}

impl View for FileState {
    type V = FileStateView;

    open spec fn view(&self) -> FileStateView {
        FileStateView {
            path: self.path@,
            canonical: self.canonical@,
            content: views::opt_text(self.content),
        }
    }
}

/// What is known of a path, from position `i` of the list on. A path that the list does
/// not hold names no file.
pub open spec fn file_at(files: Seq<FileStateView>, path: Seq<char>, i: int) -> FileStateView
    decreases files.len() - i,
{
    if i < 0 || i >= files.len() {
        FileStateView { path, canonical: path, content: None }
    } else if files[i].path == path {
        files[i]
    } else {
        file_at(files, path, i + 1)
    }
}

/// See [`file_at`].
pub fn look_up(files: &[FileState], path: &str) -> (r: FileState)
    ensures
        r@ == file_at(views::all(files@), path@, 0),
{
    let ghost vf = views::all(files@);
    let mut i: usize = 0;
    while i < files.len()
        invariant
            vf == views::all(files@),
            i <= files@.len(),
            file_at(vf, path@, i as int) == file_at(vf, path@, 0),
        decreases files@.len() - i,
    {
        assert(vf[i as int] == files@[i as int]@);
        if text::same(files[i].path.as_str(), path) {
            return FileState {
                path: files[i].path.clone(),
                canonical: files[i].canonical.clone(),
                content: text::clone_opt(&files[i].content),
            };
        }
        i = i + 1;
    }
    FileState { path: text::owned(path), canonical: text::owned(path), content: None }
}

// ── Results ──────────────────────────────────────────────────────────────

#[derive(Debug, Clone, Copy, PartialEq, Eq, Structural)]
pub enum SectionOp {
    Create,
    Update,
    Delete,
    Noop,
}

/// Per-section result of a patch.
#[derive(Debug)]
pub struct PatchSectionResult {
    /// Section path (as authored, or the destination of a move).
    pub path: String,
    /// Filesystem-canonical key for this section.
    pub canonical_path: String,
    pub op: SectionOp,
    /// Pre-edit text, with `\n` line ends and without a byte order mark.
    pub before: String,
    /// Post-edit text, with `\n` line ends.
    pub after: String,
    /// 4-hex content-hash tag for `after`.
    pub file_hash: String,
    /// Hashline section header (`[path#tag]`) of the post-edit content.
    pub header: String,
    /// 1-indexed first line at which `before` and `after` differ, or `None` where they do
    /// not.
    pub first_changed_line: Option<u32>,
    /// Warnings collected by the parser, applier, and recovery.
    pub warnings: Vec<String>,
    /// Destination path when this section has `MV DEST`.
    pub move_dest: Option<String>,
    /// Resolved block spans (when block ops matched the tagged content).
    pub block_resolutions: Vec<BlockResolution>,
    /// Numbered diff preview.
    pub diff: String,
}

/// The model of a [`PatchSectionResult`].
#[verifier::ext_equal]
pub struct PatchSectionResultView {
    pub path: Seq<char>,
    pub canonical_path: Seq<char>,
    pub op: SectionOp,
    pub before: Seq<char>,
    pub after: Seq<char>,
    pub file_hash: Seq<char>,
    pub header: Seq<char>,
    pub first_changed_line: Option<u32>,
    pub warnings: Seq<Seq<char>>,
    pub move_dest: Option<Seq<char>>,
    pub block_resolutions: Seq<BlockResolution>,
    pub diff: Seq<char>,
}

impl View for PatchSectionResult {
    type V = PatchSectionResultView;

    open spec fn view(&self) -> PatchSectionResultView {
        PatchSectionResultView {
            path: self.path@,
            canonical_path: self.canonical_path@,
            op: self.op,
            before: self.before@,
            after: self.after@,
            file_hash: self.file_hash@,
            header: self.header@,
            first_changed_line: self.first_changed_line,
            warnings: views::texts(self.warnings@),
            move_dest: views::opt_text(self.move_dest),
            block_resolutions: self.block_resolutions@,
            diff: self.diff@,
        }
    }
}

/// Result of applying a complete patch.
#[derive(Debug)]
pub struct PatcherApplyResult {
    pub sections: Vec<PatchSectionResult>,
}

/// A prepared section: parsed, validated, and applied in memory but not yet written to
/// disk.
pub struct PreparedSection {
    pub section: PatchSection,
    pub canonical_path: String,
    pub exists: bool,
    pub raw_content: String,
    pub normalized: String,
    pub apply_result: ApplyResult,
    pub parse_warnings: Vec<String>,
    pub file_op: Option<FileOp>,
}

/// The model of a [`PreparedSection`].
#[verifier::ext_equal]
pub struct PreparedSectionView {
    pub section: PatchSectionView,
    pub canonical_path: Seq<char>,
    pub exists: bool,
    pub raw_content: Seq<char>,
    pub normalized: Seq<char>,
    pub apply_result: ApplyResultView,
    pub parse_warnings: Seq<Seq<char>>,
    pub file_op: Option<FileOpView>,
}

impl View for PreparedSection {
    type V = PreparedSectionView;

    open spec fn view(&self) -> PreparedSectionView {
        PreparedSectionView {
            section: self.section@,
            canonical_path: self.canonical_path@,
            exists: self.exists,
            raw_content: self.raw_content@,
            normalized: self.normalized@,
            apply_result: self.apply_result@,
            parse_warnings: views::texts(self.parse_warnings@),
            file_op: crate::types::opt_file_op(self.file_op),
        }
    }
}

/// A prepared section that changes nothing.
pub open spec fn changes_nothing(p: PreparedSectionView) -> bool {
    p.file_op is None && p.apply_result.text == p.normalized
}

impl PreparedSection {
    /// True when the apply produced no change and no file op.
    pub fn is_noop(&self) -> (r: bool)
        ensures
            r == changes_nothing(self@),
    {
        self.file_op.is_none() && text::same(
            self.apply_result.text.as_str(),
            self.normalized.as_str(),
        )
    }
}

// ── Refusals ─────────────────────────────────────────────────────────────

/// The text of [`mismatch_error_message`].
pub open spec fn mismatch(
    path: Seq<char>,
    expected: Seq<char>,
    actual: Seq<char>,
    recognized: bool,
) -> Seq<char> {
    let place = if path.len() == 0 {
        Seq::empty()
    } else {
        " for "@ + path
    };
    if recognized {
        "Edit rejected"@ + place
            + ": file changed between read and edit.\nSection is bound to #"@ + expected
            + ", but the current file hashes to #"@ + actual
            + ". If a prior edit in this session modified this file, copy the [path#newhash] header from that edit's response; otherwise re-read the file with `read` to refresh the tag before retrying."@
    } else {
        "Edit rejected"@ + place + ": hash #"@ + expected
            + " is not from this session.\nThe current file hashes to #"@ + actual
            + ". Re-read the file with `read` to copy a current [path#tag] header — never invent the tag and never reuse one from a prior session."@
    }
}

/// The refusal of a section whose tag does not name the live content.
pub fn mismatch_error_message(path: &str, expected: &str, actual: &str, hash_recognized: bool) -> (r:
    String)
    ensures
        r@ == mismatch(path@, expected@, actual@, hash_recognized),
{
    let mut place = String::new();
    assert(place@ =~= Seq::empty());
    let chars: usize = text::char_count(path);
    if chars > 0 {
        place = text::owned(" for ");
        place.append(path);
    }
    let mut s = text::owned("Edit rejected");
    s.append(place.as_str());
    if hash_recognized {
        s.append(": file changed between read and edit.\nSection is bound to #");
        s.append(expected);
        s.append(", but the current file hashes to #");
        s.append(actual);
        s.append(
            ". If a prior edit in this session modified this file, copy the [path#newhash] header from that edit's response; otherwise re-read the file with `read` to refresh the tag before retrying.",
        );
    } else {
        s.append(": hash #");
        s.append(expected);
        s.append(" is not from this session.\nThe current file hashes to #");
        s.append(actual);
        s.append(
            ". Re-read the file with `read` to copy a current [path#tag] header — never invent the tag and never reuse one from a prior session.",
        );
    }
    s
}

/// The message for a section whose file does not exist.
pub open spec fn not_found(path: Seq<char>) -> Seq<char> {
    "File not found: "@ + path + ". Use the write tool to create new files."@
}

/// The message for a move of a file onto itself.
pub open spec fn same_destination(path: Seq<char>) -> Seq<char> {
    "MV destination is the same as "@ + path + "."@
}

/// The message for a section of a batch that changes nothing.
pub open spec fn no_changes(path: Seq<char>) -> Seq<char> {
    "Edits to "@ + path + " resulted in no changes being made."@
}

/// The message for two sections of a batch on one file.
pub open spec fn same_file(first: Seq<char>, second: Seq<char>) -> Seq<char> {
    "Multiple hashline sections resolve to the same file ("@ + first + " and "@ + second
        + "). Merge their ops under one header before applying."@
}

/// The message for a section of a batch that could not be written.
pub open spec fn write_failed(path: Seq<char>, reason: Seq<char>) -> Seq<char> {
    "Failed to write "@ + path + ": "@ + reason
}

fn about(before: &str, path: &str, after: &str) -> (r: PatchError)
    ensures
        r@ == before@ + path@ + after@,
{
    let mut s = text::owned(before);
    s.append(path);
    s.append(after);
    PatchError { message: s }
}

/// The error of a batch in which a section could not be written. See [`write_failed`].
pub fn write_error(path: &str, error: &PatchError) -> (r: PatchError)
    ensures
        r@ == write_failed(path@, error@),
{
    let mut s = text::owned("Failed to write ");
    s.append(path);
    s.append(": ");
    s.append(error.message.as_str());
    PatchError { message: s }
}

// ── Seen lines ───────────────────────────────────────────────────────────

/// The anchor lines that were not shown.
pub open spec fn unseen(anchors: Seq<u32>, seen: Seq<u32>) -> Seq<u32>
    decreases anchors.len(),
{
    if anchors.len() == 0 {
        Seq::empty()
    } else {
        let rest = unseen(anchors.drop_last(), seen);
        if recovery::holds_line(seen, anchors.last() as int) {
            rest
        } else {
            rest.push(anchors.last())
        }
    }
}

fn unseen_of(anchors: &[u32], seen: &[u32]) -> (r: Vec<u32>)
    ensures
        r@ == unseen(anchors@, seen@),
{
    let ghost va = anchors@;
    let mut out: Vec<u32> = Vec::new();
    for i in 0..anchors.len()
        invariant
            va == anchors@,
            out@ == unseen(va.take(i as int), seen@),
    {
        proof {
            views::lemma_take_step(va, i as int);
        }
        if !recovery::contains_line(seen, anchors[i] as u64) {
            out.push(anchors[i]);
        }
    }
    proof {
        views::lemma_take_all(va);
    }
    out
}

/// A line as a refusal shows it.
pub open spec fn shown_line(s: Seq<char>) -> Seq<char> {
    if numbers::utf8_len(s) > SEEN_LINE_REVEAL_MAX_COLUMNS {
        numbers::clip(s, SEEN_LINE_REVEAL_MAX_COLUMNS as nat) + "…"@
    } else {
        s
    }
}

/// The lines of a text that a refusal shows, of those picked: the ones that exist.
pub open spec fn shown_lines(source: Seq<Seq<char>>, picked: Seq<u32>) -> Seq<(u32, Seq<char>)>
    decreases picked.len(),
{
    if picked.len() == 0 {
        Seq::empty()
    } else {
        let rest = shown_lines(source, picked.drop_last());
        let l = picked.last();
        if 1 <= l <= source.len() {
            rest.push((l, shown_line(source[l - 1])))
        } else {
            rest
        }
    }
}

/// One of the lines picked is too long to be shown whole.
pub open spec fn any_cut(source: Seq<Seq<char>>, picked: Seq<u32>) -> bool
    decreases picked.len(),
{
    if picked.len() == 0 {
        false
    } else {
        let l = picked.last();
        any_cut(source, picked.drop_last()) || (1 <= l <= source.len() && numbers::utf8_len(
            source[l - 1],
        ) > SEEN_LINE_REVEAL_MAX_COLUMNS)
    }
}

/// The first lines of a list, as many as a refusal shows.
pub open spec fn picked(lines: Seq<u32>) -> Seq<u32> {
    if lines.len() > SEEN_LINE_REVEAL_CAP {
        lines.take(SEEN_LINE_REVEAL_CAP as int)
    } else {
        lines
    }
}

/// The numbers of shown lines.
pub open spec fn line_numbers(shown: Seq<(u32, Seq<char>)>) -> Seq<u32> {
    shown.map_values(|s: (u32, Seq<char>)| s.0)
}

/// The rows of shown lines.
pub open spec fn shown_rows(shown: Seq<(u32, Seq<char>)>) -> Seq<Seq<char>> {
    shown.map_values(|s: (u32, Seq<char>)| "  "@ + crate::format::numbered(s.0 as nat, s.1))
}

/// Whether a refusal leaves out some of the unseen lines, or a part of one.
pub open spec fn reveal_truncated(source: Seq<Seq<char>>, lines: Seq<u32>) -> bool {
    lines.len() > shown_lines(source, picked(lines)).len() || any_cut(source, picked(lines))
}

/// The check that every anchor line of a section was shown by the read that gave the
/// tag. A refusal that shows all the unseen lines in full counts as showing them, so
/// that a straight retry succeeds. A snapshot without a list of seen lines was read
/// whole.
pub open spec fn seen_check(
    st: StoreView,
    canonical: Seq<char>,
    section: PatchSectionView,
    tag: Seq<char>,
    snap: SnapshotView,
) -> (StoreView, Option<Seq<char>>) {
    let lines = unseen(recovery::anchor_lines(section.edits), snap.seen_lines);
    let source = text::lines(snap.content);
    let shown = shown_lines(source, picked(lines));
    let truncated = reveal_truncated(source, lines);
    if snap.seen_lines.len() == 0 || lines.len() == 0 {
        (st, None)
    } else {
        (
            if truncated {
                st
            } else {
                snapshots::with_seen(
                    st,
                    canonical,
                    snap.tag,
                    snap.seen_lines + line_numbers(shown),
                )
            },
            Some(messages::unseen_lines(section.path, lines, tag, shown_rows(shown), truncated)),
        )
    }
}

/// The lines that are shown, and whether one was cut. See [`shown_lines`].
fn show_lines(source: &[String], lines: &[u32]) -> (r: (Vec<RevealedLine>, bool))
    ensures
        r.0@.map_values(|l: RevealedLine| (l.line, l.text@)) == shown_lines(
            views::texts(source@),
            lines@,
        ),
        r.1 == any_cut(views::texts(source@), lines@),
{
    let ghost vs = views::texts(source@);
    let ghost vl = lines@;
    let ghost pair = |l: RevealedLine| (l.line, l.text@);
    let mut out: Vec<RevealedLine> = Vec::new();
    let mut cut = false;
    assert(out@.map_values(pair) =~= Seq::empty());
    for i in 0..lines.len()
        invariant
            vs == views::texts(source@),
            vs.len() == source@.len(),
            vl == lines@,
            pair == (|l: RevealedLine| (l.line, l.text@)),
            out@.map_values(pair) == shown_lines(vs, vl.take(i as int)),
            cut == any_cut(vs, vl.take(i as int)),
    {
        proof {
            views::lemma_take_step(vl, i as int);
        }
        let line = lines[i];
        if 1 <= line && line as usize <= source.len() {
            let s = source[line as usize - 1].as_str();
            assert(vs[line - 1] == s@);
            let (mut text, over) = numbers::clipped(s, SEEN_LINE_REVEAL_MAX_COLUMNS);
            if over {
                text.append("…");
                cut = true;
            } else {
                text = text::owned(s);
            }
            let item = RevealedLine { line, text };
            proof {
                assert(item.text@ == shown_line(s@));
                assert(out@.push(item).map_values(pair) =~= out@.map_values(pair).push(pair(item)));
            }
            out.push(item);
        }
    }
    proof {
        views::lemma_take_all(vl);
    }
    (out, cut)
}

fn numbers_of(shown: &[RevealedLine]) -> (r: Vec<u32>)
    ensures
        r@ == shown@.map_values(|l: RevealedLine| l.line),
{
    let mut out: Vec<u32> = Vec::new();
    for i in 0..shown.len()
        invariant
            out@.len() == i,
            forall|j: int| 0 <= j < i ==> #[trigger] out@[j] == shown@[j].line,
    {
        out.push(shown[i].line);
    }
    assert(out@ =~= shown@.map_values(|l: RevealedLine| l.line));
    out
}

fn join_numbers(a: &[u32], b: &[u32]) -> (r: Vec<u32>)
    ensures
        r@ == a@ + b@,
{
    let mut out: Vec<u32> = Vec::new();
    for i in 0..a.len()
        invariant
            out@ == a@.take(i as int),
    {
        proof {
            views::lemma_take_step(a@, i as int);
        }
        out.push(a[i]);
    }
    proof {
        views::lemma_take_all(a@);
        assert(out@ =~= a@ + b@.take(0));
    }
    for i in 0..b.len()
        invariant
            out@ == a@ + b@.take(i as int),
    {
        proof {
            views::lemma_take_step(b@, i as int);
            assert(a@ + b@.take(i + 1) =~= (a@ + b@.take(i as int)).push(b@[i as int]));
        }
        out.push(b[i]);
    }
    proof {
        views::lemma_take_all(b@);
    }
    out
}

/// Reject an anchored edit on a line that the read never displayed. See [`seen_check`]; what
/// a refusal does is told by [`law_unseen_lines_shown`].
pub fn assert_seen_lines(
    store: &mut InMemorySnapshotStore,
    canonical: &str,
    section: &PatchSection,
    tag: &str,
    snap_tag: &str,
    seen_lines: &[u32],
    content: &str,
) -> (r: Result<(), PatchError>)
    ensures
        ({
            let want = seen_check(
                old(store)@,
                canonical@,
                section@,
                tag@,
                SnapshotView { tag: snap_tag@, content: content@, seen_lines: seen_lines@ },
            );
            &&& final(store)@ == want.0
            &&& match (r, want.1) {
                (Ok(_), None) => true,
                (Err(e), Some(m)) => e@ == m,
                _ => false,
            }
        }),
{
    if seen_lines.len() == 0 {
        return Ok(());
    }
    let anchors = recovery::collect_anchor_lines(section.edits.as_slice());
    let lines = unseen_of(anchors.as_slice(), seen_lines);
    if lines.len() == 0 {
        return Ok(());
    }
    let source = text::lines_of(content);
    let mut shortlist: Vec<u32> = Vec::new();
    let count: usize = if lines.len() > SEEN_LINE_REVEAL_CAP {
        SEEN_LINE_REVEAL_CAP
    } else {
        lines.len()
    };
    for i in 0..count
        invariant
            count <= lines@.len(),
            shortlist@ == lines@.take(i as int),
    {
        proof {
            views::lemma_take_step(lines@, i as int);
        }
        shortlist.push(lines[i]);
    }
    proof {
        views::lemma_take_all(lines@);
        assert(shortlist@ == picked(lines@));
    }
    let (shown, cut) = show_lines(source.as_slice(), shortlist.as_slice());
    let truncated = lines.len() > shown.len() || cut;
    let ghost pairs = shown_lines(views::texts(source@), shortlist@);
    proof {
        assert(pairs.len() == shown@.len());
        assert forall|i: int| 0 <= i < shown@.len() implies #[trigger] pairs[i] == (
            shown@[i].line,
            shown@[i].text@,
        ) by {
            assert(shown@.map_values(|l: RevealedLine| (l.line, l.text@))[i] == (
                shown@[i].line,
                shown@[i].text@,
            ));
        }
        assert(messages::preview_rows(shown@) =~= shown_rows(pairs));
        assert(shown@.map_values(|l: RevealedLine| l.line) =~= line_numbers(pairs));
    }
    if !truncated {
        let numbers = numbers_of(shown.as_slice());
        let merged = join_numbers(seen_lines, numbers.as_slice());
        store.record_seen_lines(canonical, snap_tag, merged);
    }
    let preview = UnseenLinesReveal { lines: shown, truncated };
    Err(
        PatchError {
            message: unseen_lines_message(section.path.as_str(), lines.as_slice(), tag, &preview),
        },
    )
}

// ── Applying one section ─────────────────────────────────────────────────

/// An edit that stands or falls with a line.
pub open spec fn is_anchored(e: EditView) -> bool {
    match e {
        EditView::Insert { cursor, .. } => cursor.anchored() is Some,
        _ => true,
    }
}

/// One of the edits stands or falls with a line.
pub open spec fn any_anchored(edits: Seq<EditView>) -> bool {
    exists|i: int| 0 <= i < edits.len() && is_anchored(#[trigger] edits[i])
}

/// See [`any_anchored`].
pub fn has_anchor_scoped_edit(edits: &[Edit]) -> (r: bool)
    ensures
        r == any_anchored(views::all(edits@)),
{
    let ghost ve = views::all(edits@);
    for i in 0..edits.len()
        invariant
            ve == views::all(edits@),
            forall|j: int| 0 <= j < i ==> !is_anchored(#[trigger] ve[j]),
    {
        assert(ve[i as int] == edits@[i as int]@);
        let anchored = match &edits[i] {
            Edit::Insert { cursor, text, mode } => cursor.anchor_line().is_some(),
            _ => true,
        };
        if anchored {
            assert(is_anchored(ve[i as int]));
            return true;
        }
    }
    false
}

/// The tag names the live content.
pub open spec fn is_live(normalized: Seq<char>, tag: Seq<char>) -> bool {
    crate::format::tag(normalized) == tag
}

/// The text that block edits are resolved against: the live content where the tag names
/// it, otherwise the version that the tag names, if it is known.
pub open spec fn block_base(
    st: StoreView,
    canonical: Seq<char>,
    normalized: Seq<char>,
    tag: Seq<char>,
) -> Option<Seq<char>> {
    if is_live(normalized, tag) {
        Some(normalized)
    } else {
        match snapshots::tagged(st, canonical, tag) {
            Some(s) => Some(s.content),
            None => None,
        }
    }
}

/// The edits of a section with the block edits resolved; `spans` holds the answers of
/// the resolver.
pub open spec fn concrete_edits(
    edits: Seq<EditView>,
    base: Option<Seq<char>>,
    spans: Seq<Option<BlockSpan>>,
    has_resolver: bool,
) -> ResolvedView {
    let init = ResolvedView {
        edits: Seq::empty(),
        resolutions: Seq::empty(),
        warnings: Seq::empty(),
        error: None,
    };
    match base {
        Some(text) if block::any_block(edits) => block::resolved(
            init,
            edits,
            spans,
            has_resolver,
            OnUnresolved::Throw,
            text::lines(text),
        ),
        _ => ResolvedView { edits, ..init },
    }
}

/// What is made of a file by edits without block edits, when the tag names the live
/// content: the anchors must have been seen, and the edits are made.
pub open spec fn applied_live(
    st: StoreView,
    canonical: Seq<char>,
    normalized: Seq<char>,
    edits: ResolvedView,
    section: PatchSectionView,
    tag: Seq<char>,
) -> (StoreView, Result<ApplyResultView, Seq<char>>) {
    let check = match snapshots::tagged(st, canonical, tag) {
        Some(snap) => seen_check(st, canonical, section, tag, snap),
        None => (st, None),
    };
    let after = apply::applied(normalized, edits.edits, Map::empty());
    (
        check.0,
        match check.1 {
            Some(refusal) => Err(refusal),
            None => Ok(
                ApplyResultView {
                    text: after.0,
                    warnings: edits.warnings + after.1,
                    first_changed_line: None,
                    block_resolutions: edits.resolutions,
                },
            ),
        },
    )
}

/// What is made of a file when the tag does not name the live content. Inserts at the
/// head and at the tail are made all the same, with a warning. Other edits are recovered
/// or refused; the refusal records the live content.
pub open spec fn applied_stale(
    st: StoreView,
    path: Seq<char>,
    canonical: Seq<char>,
    normalized: Seq<char>,
    edits: ResolvedView,
    tag: Seq<char>,
) -> (StoreView, Result<ApplyResultView, Seq<char>>) {
    let after = apply::applied(normalized, edits.edits, Map::empty());
    if !any_anchored(edits.edits) {
        (
            st,
            Ok(
                ApplyResultView {
                    text: after.0,
                    warnings: edits.warnings + (seq![HEADTAIL_DRIFT_WARNING@] + after.1),
                    first_changed_line: None,
                    block_resolutions: Seq::empty(),
                },
            ),
        )
    } else {
        match recovery::recovery(st, canonical, normalized, tag, edits.edits) {
            Some(r) => (
                st,
                Ok(
                    ApplyResultView {
                        text: r.text,
                        warnings: edits.warnings + r.warnings,
                        first_changed_line: r.first_changed_line,
                        block_resolutions: Seq::empty(),
                    },
                ),
            ),
            None => refused(
                st,
                path,
                canonical,
                normalized,
                tag,
                snapshots::tagged(st, canonical, tag) is Some,
            ),
        }
    }
}

/// The refusal of a stale tag. The live content is recorded.
pub open spec fn refused(
    st: StoreView,
    path: Seq<char>,
    canonical: Seq<char>,
    normalized: Seq<char>,
    tag: Seq<char>,
    recognized: bool,
) -> (StoreView, Result<ApplyResultView, Seq<char>>) {
    let actual = crate::format::tag(normalized);
    (
        snapshots::recorded(st, canonical, normalized, actual),
        Err(mismatch(path, tag, actual, recognized)),
    )
}

/// What is made of a file by the edits of a section.
pub open spec fn section_applied(
    st: StoreView,
    path: Seq<char>,
    canonical: Seq<char>,
    normalized: Seq<char>,
    edits: Seq<EditView>,
    section: PatchSectionView,
    tag: Seq<char>,
    spans: Seq<Option<BlockSpan>>,
    has_resolver: bool,
) -> (StoreView, Result<ApplyResultView, Seq<char>>) {
    let base = block_base(st, canonical, normalized, tag);
    let concrete = concrete_edits(edits, base, spans, has_resolver);
    if block::any_block(edits) && base is None {
        refused(st, path, canonical, normalized, tag, false)
    } else if concrete.error is Some {
        (st, Err(concrete.error->0))
    } else if is_live(normalized, tag) {
        applied_live(st, canonical, normalized, concrete, section, tag)
    } else {
        applied_stale(st, path, canonical, normalized, concrete, tag)
    }
}

/// A reference to what is there.
pub open spec fn opt_ref<'a, R>(o: Option<R>) -> Option<&'a R> {
    match o {
        Some(r) => Some(&r),
        None => None,
    }
}

/// `spans` holds what the resolver may answer for the block edits of a section.
pub open spec fn block_answers<R: BlockResolver>(
    resolver: Option<R>,
    base: Option<Seq<char>>,
    path: Seq<char>,
    edits: Seq<EditView>,
    spans: Seq<Option<BlockSpan>>,
) -> bool {
    match base {
        Some(text) if block::any_block(edits) => block::are_answers(
            opt_ref(resolver),
            text,
            path,
            edits,
            spans,
        ),
        _ => true,
    }
}

/// A result and a store are what they should be.
pub open spec fn same_result(
    r: Result<ApplyResult, PatchError>,
    store: StoreView,
    want: (StoreView, Result<ApplyResultView, Seq<char>>),
) -> bool {
    &&& store == want.0
    &&& match (r, want.1) {
        (Ok(a), Ok(b)) => a@ == b,
        (Err(e), Err(m)) => e@ == m,
        _ => false,
    }
}

fn refuse(
    store: &mut InMemorySnapshotStore,
    path: &str,
    canonical: &str,
    normalized: &str,
    tag: &str,
    recognized: bool,
) -> (r: Result<ApplyResult, PatchError>)
    ensures
        same_result(
            r,
            final(store)@,
            refused(old(store)@, path@, canonical@, normalized@, tag@, recognized),
        ),
{
    let actual = store.record(canonical, normalized);
    Err(PatchError { message: mismatch_error_message(path, tag, actual.as_str(), recognized) })
}

fn joined_warnings(first: &[String], then_these: &[String]) -> (r: Vec<String>)
    ensures
        views::texts(r@) == views::texts(first@) + views::texts(then_these@),
{
    let mut out = text::clone_strings(first);
    text::extend_strings(&mut out, then_these);
    out
}

/// Make concrete edits to a file. See [`applied_live`] and [`applied_stale`].
fn apply_concrete(
    store: &mut InMemorySnapshotStore,
    path: &str,
    canonical: &str,
    normalized: &str,
    edits: &[Edit],
    report: ResolveBlockEditsOptions,
    section: &PatchSection,
    tag: &str,
) -> (r: Result<ApplyResult, PatchError>)
    ensures
        ({
            let concrete = block::reported(views::all(edits@), report, None);
            same_result(
                r,
                final(store)@,
                if is_live(normalized@, tag@) {
                    applied_live(
                        old(store)@,
                        canonical@,
                        normalized@,
                        concrete,
                        section@,
                        tag@,
                    )
                } else {
                    applied_stale(old(store)@, path@, canonical@, normalized@, concrete, tag@)
                },
            )
        }),
{
    let live_tag = compute_file_hash(normalized);
    if text::same(live_tag.as_str(), tag) {
        let found = match store.by_content(canonical, normalized) {
            Some(s) => Some(
                (s.tag.clone(), copy_numbers(s.seen_lines.as_slice()), s.content.clone()),
            ),
            None => None,
        };
        match found {
            Some((snap_tag, seen, content)) => {
                match assert_seen_lines(
                    store,
                    canonical,
                    section,
                    tag,
                    snap_tag.as_str(),
                    seen.as_slice(),
                    content.as_str(),
                ) {
                    Ok(_) => {},
                    Err(e) => {
                        return Err(e);
                    },
                }
            },
            None => {},
        }
        let result = apply_edits(normalized, edits);
        return Ok(
            ApplyResult {
                text: result.text,
                warnings: joined_warnings(report.warnings.as_slice(), result.warnings.as_slice()),
                first_changed_line: result.first_changed_line,
                block_resolutions: report.resolutions,
            },
        );
    }
    if !has_anchor_scoped_edit(edits) {
        let result = apply_edits(normalized, edits);
        let mut warnings: Vec<String> = Vec::new();
        warnings.push(text::owned(HEADTAIL_DRIFT_WARNING));
        assert(views::texts(warnings@) =~= seq![HEADTAIL_DRIFT_WARNING@]);
        text::extend_strings(&mut warnings, result.warnings.as_slice());
        return Ok(
            ApplyResult {
                text: result.text,
                warnings: joined_warnings(report.warnings.as_slice(), warnings.as_slice()),
                first_changed_line: result.first_changed_line,
                block_resolutions: Vec::new(),
            },
        );
    }
    let recovered = Recovery::new(store).try_recover(
        RecoveryArgs { path: canonical, current_text: normalized, file_hash: tag, edits },
    );
    match recovered {
        Some(r) => Ok(
            ApplyResult {
                text: r.text,
                warnings: joined_warnings(report.warnings.as_slice(), r.warnings.as_slice()),
                first_changed_line: r.first_changed_line,
                block_resolutions: Vec::new(),
            },
        ),
        None => {
            let recognized = store.by_hash(canonical, tag).is_some();
            refuse(store, path, canonical, normalized, tag, recognized)
        },
    }
}

fn copy_numbers(v: &[u32]) -> (r: Vec<u32>)
    ensures
        r@ == v@,
{
    let none: Vec<u32> = Vec::new();
    let out = join_numbers(v, none.as_slice());
    assert(v@ + none@ =~= v@);
    out
}

/// Apply the edits of a section to the content of its file, through the block resolver
/// and recovery. See [`section_applied`].
fn apply_with_recovery<R: BlockResolver>(
    store: &mut InMemorySnapshotStore,
    resolver: &Option<R>,
    path: &str,
    canonical: &str,
    normalized: &str,
    edits: Vec<Edit>,
    section: &PatchSection,
    tag: &str,
) -> (r: Result<ApplyResult, PatchError>)
    ensures
        exists|spans: Seq<Option<BlockSpan>>| #[trigger]
            block_answers(
                *resolver,
                block_base(old(store)@, canonical@, normalized@, tag@),
                path@,
                views::all(edits@),
                spans,
            ) && same_result(
                r,
                final(store)@,
                section_applied(
                    old(store)@,
                    path@,
                    canonical@,
                    normalized@,
                    views::all(edits@),
                    section@,
                    tag@,
                    spans,
                    *resolver is Some,
                ),
            ),
{
    let ghost start = store@;
    let ghost ve = views::all(edits@);
    let ghost base_view = block_base(start, canonical@, normalized@, tag@);
    let ghost none: Seq<Option<BlockSpan>> = Seq::empty();
    let mut report = ResolveBlockEditsOptions::default();
    proof {
        assert(report.resolutions@ =~= Seq::empty());
        assert(views::texts(report.warnings@) =~= Seq::empty());
    }
    if has_block_edit(edits.as_slice()) {
        let live_tag = compute_file_hash(normalized);
        let base: Option<String> = if text::same(live_tag.as_str(), tag) {
            Some(text::owned(normalized))
        } else {
            match store.by_hash(canonical, tag) {
                Some(s) => Some(s.content.clone()),
                None => None,
            }
        };
        match base {
            None => {
                assert(block_answers(*resolver, base_view, path@, ve, none));
                refuse(store, path, canonical, normalized, tag, false)
            },
            Some(base_text) => {
                let outcome = resolve_block_edits(
                    edits,
                    base_text.as_str(),
                    path,
                    resolver.as_ref(),
                    &mut report,
                );
                let ghost spans = choose|spans: Seq<Option<BlockSpan>>| #[trigger]
                    block::are_answers(
                        opt_ref(*resolver),
                        base_text@,
                        path@,
                        ve,
                        spans,
                    ) && block::same_outcome(
                        outcome,
                        report,
                        block::resolved(
                            ResolvedView {
                                edits: Seq::empty(),
                                resolutions: Seq::empty(),
                                warnings: Seq::empty(),
                                error: None,
                            },
                            ve,
                            spans,
                            *resolver is Some,
                            OnUnresolved::Throw,
                            text::lines(base_text@),
                        ),
                    );
                assert(block_answers(*resolver, base_view, path@, ve, spans));
                match outcome {
                    Err(e) => Err(e),
                    Ok(concrete) => apply_concrete(
                        store,
                        path,
                        canonical,
                        normalized,
                        concrete.as_slice(),
                        report,
                        section,
                        tag,
                    ),
                }
            },
        }
    } else {
        assert(block_answers(*resolver, base_view, path@, ve, none));
        apply_concrete(
            store,
            path,
            canonical,
            normalized,
            edits.as_slice(),
            report,
            section,
            tag,
        )
    }
}

// ── Preparing sections ───────────────────────────────────────────────────

/// Those of the paths that have a base name and are known under another canonical path
/// than the given one.
pub open spec fn candidates(
    paths: Seq<Seq<char>>,
    name: Seq<char>,
    canonical: Seq<char>,
    files: Seq<FileStateView>,
) -> Seq<Seq<char>>
    decreases paths.len(),
{
    if paths.len() == 0 {
        Seq::empty()
    } else {
        let rest = candidates(paths.drop_last(), name, canonical, files);
        let path = paths.last();
        if paths::base_name(path) == name && file_at(files, path, 0).canonical != canonical {
            rest.push(path)
        } else {
            rest
        }
    }
}

/// The file that a section means: the one at its path; if there is none, the only other
/// file of the same base name that has a version with the section's tag.
pub open spec fn target_of(
    st: StoreView,
    section: PatchSectionView,
    files: Seq<FileStateView>,
) -> FileStateView {
    let own = file_at(files, section.path, 0);
    match section.file_hash {
        Some(tag) if own.content is None => {
            let found = candidates(
                snapshots::paths_with(st.entries, tag),
                paths::base_name(section.path),
                own.canonical,
                files,
            );
            if found.len() == 1 {
                file_at(files, found[0], 0)
            } else {
                own
            }
        },
        _ => own,
    }
}

/// The operation moves a file onto itself.
pub open spec fn moves_onto(
    op: Option<FileOpView>,
    canonical: Seq<char>,
    files: Seq<FileStateView>,
) -> bool {
    match op {
        Some(FileOpView::Mv { dest }) => file_at(files, dest, 0).canonical == canonical,
        _ => false,
    }
}

/// The edits that a section makes: none when it removes the file.
pub open spec fn edits_made(section: PatchSectionView) -> Seq<EditView> {
    if section.file_op == Some(FileOpView::Rem) {
        Seq::empty()
    } else {
        section.edits
    }
}

/// A section prepared against the files; `spans` holds the answers of the resolver.
pub open spec fn section_prepared(
    st: StoreView,
    section: PatchSectionView,
    files: Seq<FileStateView>,
    spans: Seq<Option<BlockSpan>>,
    has_resolver: bool,
) -> (StoreView, Result<PreparedSectionView, Seq<char>>) {
    let target = target_of(st, section, files);
    match (section.file_hash, target.content) {
        (None, _) => (st, Err(messages::missing_tag(section.path))),
        (Some(tag), content) => if moves_onto(section.file_op, target.canonical, files) {
            (st, Err(same_destination(target.path)))
        } else {
            match content {
                None => (st, Err(not_found(target.path))),
                Some(raw) => {
                    let normalized = sections::without_bom(raw);
                    let after = section_applied(
                        st,
                        target.path,
                        target.canonical,
                        normalized,
                        edits_made(section),
                        section,
                        tag,
                        spans,
                        has_resolver,
                    );
                    (
                        after.0,
                        match after.1 {
                            Err(m) => Err(m),
                            Ok(a) => Ok(
                                PreparedSectionView {
                                    section: PatchSectionView { path: target.path, ..section },
                                    canonical_path: target.canonical,
                                    exists: true,
                                    raw_content: raw,
                                    normalized,
                                    apply_result: a,
                                    parse_warnings: section.warnings,
                                    file_op: section.file_op,
                                },
                            ),
                        },
                    )
                },
            }
        },
    }
}

/// `spans` holds what the resolver may answer while a section is prepared.
pub open spec fn section_answers<R: BlockResolver>(
    resolver: Option<R>,
    st: StoreView,
    section: PatchSectionView,
    files: Seq<FileStateView>,
    spans: Seq<Option<BlockSpan>>,
) -> bool {
    let target = target_of(st, section, files);
    match (section.file_hash, target.content) {
        (Some(tag), Some(raw)) => moves_onto(section.file_op, target.canonical, files)
            || block_answers(
            resolver,
            block_base(st, target.canonical, sections::without_bom(raw), tag),
            target.path,
            edits_made(section),
            spans,
        ),
        _ => true,
    }
}

/// A prepared section and a store are what they should be.
pub open spec fn same_prepared(
    r: Result<PreparedSection, PatchError>,
    store: StoreView,
    want: (StoreView, Result<PreparedSectionView, Seq<char>>),
) -> bool {
    &&& store == want.0
    &&& match (r, want.1) {
        (Ok(a), Ok(b)) => a@ == b,
        (Err(e), Err(m)) => e@ == m,
        _ => false,
    }
}

fn find_target(
    store: &InMemorySnapshotStore,
    section: &PatchSection,
    tag: &str,
    files: &[FileState],
) -> (r: FileState)
    requires
        section@.file_hash == Some(tag@),
    ensures
        r@ == target_of(store@, section@, views::all(files@)),
{
    let own = look_up(files, section.path.as_str());
    if own.content.is_some() {
        return own;
    }
    let ghost vf = views::all(files@);
    let name = paths::basename(section.path.as_str());
    let paths = store.find_by_hash(tag);
    let ghost vp = views::strs(paths@);
    let mut found: Vec<String> = Vec::new();
    for i in 0..paths.len()
        invariant
            vf == views::all(files@),
            vp == views::strs(paths@),
            name@ == paths::base_name(section@.path),
            views::texts(found@) == candidates(
                vp.take(i as int),
                name@,
                own@.canonical,
                vf,
            ),
    {
        proof {
            views::lemma_take_step(vp, i as int);
            assert(vp[i as int] == paths@[i as int]@);
        }
        let path = paths[i];
        if text::same(paths::basename(path).as_str(), name.as_str()) {
            let state = look_up(files, path);
            if !text::same(state.canonical.as_str(), own.canonical.as_str()) {
                found.push(text::owned(path));
            }
        }
    }
    proof {
        views::lemma_take_all(vp);
        assert(views::texts(found@).len() == found@.len());
    }
    if found.len() == 1 {
        assert(views::texts(found@)[0] == found@[0]@);
        look_up(files, found[0].as_str())
    } else {
        own
    }
}

fn prepare_section<R: BlockResolver>(
    store: &mut InMemorySnapshotStore,
    resolver: &Option<R>,
    section: &PatchSection,
    files: &[FileState],
) -> (r: Result<PreparedSection, PatchError>)
    ensures
        exists|spans: Seq<Option<BlockSpan>>| #[trigger]
            section_answers(*resolver, old(store)@, section@, views::all(files@), spans)
                && same_prepared(
                r,
                final(store)@,
                section_prepared(
                    old(store)@,
                    section@,
                    views::all(files@),
                    spans,
                    *resolver is Some,
                ),
            ),
{
    let ghost start = store@;
    let ghost vf = views::all(files@);
    let ghost none: Seq<Option<BlockSpan>> = Seq::empty();
    let tag = match &section.file_hash {
        Some(t) => t.as_str(),
        None => {
            assert(section_answers(*resolver, start, section@, vf, none));
            return Err(
                PatchError { message: missing_snapshot_tag_message(section.path.as_str()) },
            );
        },
    };
    let target = find_target(store, section, tag, files);
    let onto = match &section.file_op {
        Some(FileOp::Mv { dest }) => {
            let state = look_up(files, dest.as_str());
            text::same(state.canonical.as_str(), target.canonical.as_str())
        },
        _ => false,
    };
    assert(onto == moves_onto(section@.file_op, target@.canonical, vf));
    if onto {
        assert(section_answers(*resolver, start, section@, vf, none));
        return Err(about("MV destination is the same as ", target.path.as_str(), "."));
    }
    match target.content {
        None => {
            assert(section_answers(*resolver, start, section@, vf, none));
            Err(
                about(
                    "File not found: ",
                    target.path.as_str(),
                    ". Use the write tool to create new files.",
                ),
            )
        },
        Some(raw) => {
            let normalized = sections::strip_bom_mark(raw.as_str());
            let removes = match &section.file_op {
                Some(FileOp::Rem) => true,
                _ => false,
            };
            let edits = if removes {
                Vec::new()
            } else {
                copy_edits(section.edits.as_slice())
            };
            proof {
                if removes {
                    assert(views::all(edits@) =~= Seq::empty());
                }
            }
            let applied = apply_with_recovery(
                store,
                resolver,
                target.path.as_str(),
                target.canonical.as_str(),
                normalized.as_str(),
                edits,
                section,
                tag,
            );
            let ghost spans = choose|spans: Seq<Option<BlockSpan>>| #[trigger]
                block_answers(
                    *resolver,
                    block_base(start, target.canonical@, normalized@, tag@),
                    target.path@,
                    views::all(edits@),
                    spans,
                ) && same_result(
                    applied,
                    store@,
                    section_applied(
                        start,
                        target.path@,
                        target.canonical@,
                        normalized@,
                        views::all(edits@),
                        section@,
                        tag@,
                        spans,
                        *resolver is Some,
                    ),
                );
            assert(section_answers(*resolver, start, section@, vf, spans));
            match applied {
                Err(e) => Err(e),
                Ok(apply_result) => {
                    let mut copied = section.copy();
                    copied.path = target.path;
                    Ok(
                        PreparedSection {
                            section: copied,
                            canonical_path: target.canonical,
                            exists: true,
                            raw_content: raw,
                            normalized,
                            apply_result,
                            parse_warnings: text::clone_strings(section.warnings.as_slice()),
                            file_op: copy_file_op(&section.file_op),
                        },
                    )
                },
            }
        },
    }
}

/// The sections prepared one after the other, up to the first that is refused.
pub open spec fn sections_prepared(
    st: StoreView,
    sections: Seq<PatchSectionView>,
    files: Seq<FileStateView>,
    answers: Seq<Seq<Option<BlockSpan>>>,
    has_resolver: bool,
) -> (StoreView, Result<Seq<PreparedSectionView>, Seq<char>>)
    decreases sections.len(),
{
    if sections.len() == 0 {
        (st, Ok(Seq::empty()))
    } else {
        let before = sections_prepared(
            st,
            sections.drop_last(),
            files,
            answers.drop_last(),
            has_resolver,
        );
        match before.1 {
            Err(m) => before,
            Ok(list) => {
                let last = section_prepared(
                    before.0,
                    sections.last(),
                    files,
                    answers.last(),
                    has_resolver,
                );
                (
                    last.0,
                    match last.1 {
                        Err(m) => Err(m),
                        Ok(p) => Ok(list.push(p)),
                    },
                )
            },
        }
    }
}

/// `answers` holds what the resolver may answer while the sections are prepared.
pub open spec fn sections_answers<R: BlockResolver>(
    resolver: Option<R>,
    st: StoreView,
    sections: Seq<PatchSectionView>,
    files: Seq<FileStateView>,
    answers: Seq<Seq<Option<BlockSpan>>>,
) -> bool
    decreases sections.len(),
{
    if sections.len() == 0 {
        answers.len() == 0
    } else {
        let before = sections_prepared(
            st,
            sections.drop_last(),
            files,
            answers.drop_last(),
            resolver is Some,
        );
        &&& answers.len() == sections.len()
        &&& sections_answers(resolver, st, sections.drop_last(), files, answers.drop_last())
        &&& before.1 is Ok ==> section_answers(
            resolver,
            before.0,
            sections.last(),
            files,
            answers.last(),
        )
    }
}

/// The path of the first prepared section on a file.
pub open spec fn holder(list: Seq<PreparedSectionView>, canonical: Seq<char>) -> Option<Seq<char>>
    decreases list.len(),
{
    if list.len() == 0 {
        None
    } else {
        match holder(list.drop_last(), canonical) {
            Some(p) => Some(p),
            None => if list.last().canonical_path == canonical {
                Some(list.last().section.path)
            } else {
                None
            },
        }
    }
}

/// Why prepared sections cannot be on one file each: the first that shares its file with
/// one before it.
pub open spec fn clash(list: Seq<PreparedSectionView>) -> Option<Seq<char>>
    decreases list.len(),
{
    if list.len() == 0 {
        None
    } else {
        match clash(list.drop_last()) {
            Some(m) => Some(m),
            None => match holder(list.drop_last(), list.last().canonical_path) {
                Some(p) => Some(same_file(p, list.last().section.path)),
                None => None,
            },
        }
    }
}

/// The complaint about the first prepared section that changes nothing.
pub open spec fn idle(list: Seq<PreparedSectionView>) -> Option<Seq<char>>
    decreases list.len(),
{
    if list.len() == 0 {
        None
    } else {
        match idle(list.drop_last()) {
            Some(m) => Some(m),
            None => if changes_nothing(list.last()) {
                Some(no_changes(list.last().section.path))
            } else {
                None
            },
        }
    }
}

/// What is wrong with prepared sections as a batch.
pub open spec fn batch_refusal(list: Seq<PreparedSectionView>) -> Option<Seq<char>> {
    match clash(list) {
        Some(m) => Some(m),
        None => idle(list),
    }
}

/// Sections prepared and checked as a batch.
pub open spec fn batch_checked(
    prepared: (StoreView, Result<Seq<PreparedSectionView>, Seq<char>>),
) -> (StoreView, Result<Seq<PreparedSectionView>, Seq<char>>) {
    match prepared.1 {
        Err(m) => prepared,
        Ok(list) => match batch_refusal(list) {
            Some(m) => (prepared.0, Err(m)),
            None => prepared,
        },
    }
}

/// A list of prepared sections and a store are what they should be.
pub open spec fn same_batch(
    r: Result<Vec<PreparedSection>, PatchError>,
    store: StoreView,
    want: (StoreView, Result<Seq<PreparedSectionView>, Seq<char>>),
) -> bool {
    &&& store == want.0
    &&& match (r, want.1) {
        (Ok(a), Ok(b)) => views::all(a@) == b,
        (Err(e), Err(m)) => e@ == m,
        _ => false,
    }
}

fn holder_of(list: &[PreparedSection], n: usize, canonical: &str) -> (r: Option<String>)
    requires
        n <= list@.len(),
    ensures
        views::opt_text(r) == holder(views::all(list@).take(n as int), canonical@),
{
    let ghost vl = views::all(list@);
    let mut found: Option<String> = None;
    for i in 0..n
        invariant
            n <= list@.len(),
            vl == views::all(list@),
            views::opt_text(found) == holder(vl.take(i as int), canonical@),
    {
        proof {
            views::lemma_take_step(vl, i as int);
            assert(vl[i as int] == list@[i as int]@);
        }
        if found.is_none() && text::same(list[i].canonical_path.as_str(), canonical) {
            found = Some(list[i].section.path.clone());
        }
    }
    found
}

fn assert_unique_canonical_paths(list: &[PreparedSection]) -> (r: Option<PatchError>)
    ensures
        match (r, clash(views::all(list@))) {
            (Some(e), Some(m)) => e@ == m,
            (None, None) => true,
            _ => false,
        },
{
    let ghost vl = views::all(list@);
    let mut found: Option<PatchError> = None;
    for i in 0..list.len()
        invariant
            vl == views::all(list@),
            match (found, clash(vl.take(i as int))) {
                (Some(e), Some(m)) => e@ == m,
                (None, None) => true,
                _ => false,
            },
    {
        proof {
            views::lemma_take_step(vl, i as int);
            assert(vl[i as int] == list@[i as int]@);
        }
        if found.is_none() {
            match holder_of(list, i, list[i].canonical_path.as_str()) {
                Some(p) => {
                    let mut s = text::owned("Multiple hashline sections resolve to the same file (");
                    s.append(p.as_str());
                    s.append(" and ");
                    s.append(list[i].section.path.as_str());
                    s.append("). Merge their ops under one header before applying.");
                    found = Some(PatchError { message: s });
                },
                None => {},
            }
        }
    }
    proof {
        views::lemma_take_all(vl);
    }
    found
}

fn first_idle(list: &[PreparedSection]) -> (r: Option<PatchError>)
    ensures
        match (r, idle(views::all(list@))) {
            (Some(e), Some(m)) => e@ == m,
            (None, None) => true,
            _ => false,
        },
{
    let ghost vl = views::all(list@);
    let mut found: Option<PatchError> = None;
    for i in 0..list.len()
        invariant
            vl == views::all(list@),
            match (found, idle(vl.take(i as int))) {
                (Some(e), Some(m)) => e@ == m,
                (None, None) => true,
                _ => false,
            },
    {
        proof {
            views::lemma_take_step(vl, i as int);
            assert(vl[i as int] == list@[i as int]@);
        }
        if found.is_none() && list[i].is_noop() {
            found = Some(
                about(
                    "Edits to ",
                    list[i].section.path.as_str(),
                    " resulted in no changes being made.",
                ),
            );
        }
    }
    proof {
        views::lemma_take_all(vl);
    }
    found
}

/// Check prepared sections as a batch: one section per file, each with an effect.
pub fn check_batch(list: &[PreparedSection]) -> (r: Option<PatchError>)
    ensures
        match (r, batch_refusal(views::all(list@))) {
            (Some(e), Some(m)) => e@ == m,
            (None, None) => true,
            _ => false,
        },
{
    match assert_unique_canonical_paths(list) {
        Some(e) => Some(e),
        None => first_idle(list),
    }
}

proof fn lemma_sections_step<R: BlockResolver>(
    resolver: Option<R>,
    st: StoreView,
    sections: Seq<PatchSectionView>,
    files: Seq<FileStateView>,
    answers: Seq<Seq<Option<BlockSpan>>>,
    i: int,
    spans: Seq<Option<BlockSpan>>,
)
    requires
        0 <= i < sections.len(),
        answers.len() == i,
        sections_answers(resolver, st, sections.take(i), files, answers),
        ({
            let before = sections_prepared(st, sections.take(i), files, answers, resolver is Some);
            before.1 is Ok ==> section_answers(resolver, before.0, sections[i], files, spans)
        }),
    ensures
        sections_answers(resolver, st, sections.take(i + 1), files, answers.push(spans)),
        ({
            let before = sections_prepared(st, sections.take(i), files, answers, resolver is Some);
            sections_prepared(st, sections.take(i + 1), files, answers.push(spans), resolver is Some)
                == match before.1 {
                Err(m) => before,
                Ok(list) => {
                    let last = section_prepared(
                        before.0,
                        sections[i],
                        files,
                        spans,
                        resolver is Some,
                    );
                    (
                        last.0,
                        match last.1 {
                            Err(m) => Err(m),
                            Ok(p) => Ok(list.push(p)),
                        },
                    )
                },
            }
        }),
{
    views::lemma_take_step(sections, i);
    assert(answers.push(spans).drop_last() =~= answers);
}

#[verifier::spinoff_prover]
fn prepare_sections<R: BlockResolver>(
    store: &mut InMemorySnapshotStore,
    resolver: &Option<R>,
    list: &[PatchSection],
    files: &[FileState],
) -> (r: Result<Vec<PreparedSection>, PatchError>)
    ensures
        exists|answers: Seq<Seq<Option<BlockSpan>>>| #[trigger]
            sections_answers(
                *resolver,
                old(store)@,
                views::all(list@),
                views::all(files@),
                answers,
            ) && same_batch(
                r,
                final(store)@,
                sections_prepared(
                    old(store)@,
                    views::all(list@),
                    views::all(files@),
                    answers,
                    *resolver is Some,
                ),
            ),
{
    let ghost start = store@;
    let ghost vl = views::all(list@);
    let ghost vf = views::all(files@);
    let ghost mut answers: Seq<Seq<Option<BlockSpan>>> = Seq::empty();
    let mut out: Vec<PreparedSection> = Vec::new();
    let mut error: Option<PatchError> = None;
    assert(views::all(out@) =~= Seq::empty());
    for i in 0..list.len()
        invariant
            vl == views::all(list@),
            vf == views::all(files@),
            answers.len() == i,
            sections_answers(*resolver, start, vl.take(i as int), vf, answers),
            ({
                let now = sections_prepared(
                    start,
                    vl.take(i as int),
                    vf,
                    answers,
                    *resolver is Some,
                );
                &&& store@ == now.0
                &&& match (error, now.1) {
                    (None, Ok(b)) => views::all(out@) == b,
                    (Some(e), Err(m)) => e@ == m,
                    _ => false,
                }
            }),
    {
        assert(vl[i as int] == list@[i as int]@);
        let ghost before = answers;
        if error.is_none() {
            let ghost st = store@;
            let r = prepare_section(store, resolver, &list[i], files);
            proof {
                let spans = choose|spans: Seq<Option<BlockSpan>>| #[trigger]
                    section_answers(*resolver, st, vl[i as int], vf, spans) && same_prepared(
                        r,
                        store@,
                        section_prepared(st, vl[i as int], vf, spans, *resolver is Some),
                    );
                lemma_sections_step(*resolver, start, vl, vf, before, i as int, spans);
                answers = before.push(spans);
            }
            match r {
                Ok(p) => {
                    out.push(p);
                },
                Err(e) => {
                    error = Some(e);
                },
            }
        } else {
            proof {
                lemma_sections_step(*resolver, start, vl, vf, before, i as int, Seq::empty());
                answers = before.push(Seq::empty());
            }
        }
    }
    proof {
        views::lemma_take_all(vl);
    }
    match error {
        Some(e) => Err(e),
        None => Ok(out),
    }
}

// ── Committing a section ─────────────────────────────────────────────────

/// What a prepared section asks of the file system.
#[derive(Debug)]
pub enum FileAction {
    /// Delete the file. It is no error if that fails.
    Remove { path: String },
    /// Leave the file alone.
    Keep,
    /// Write the text to `dest`, then delete `from`. It is no error if the latter fails.
    Move { from: String, dest: String, text: String },
    /// Write the text to the file.
    Write { path: String, text: String },
}

/// The model of a [`FileAction`].
#[verifier::ext_equal]
pub enum FileActionView {
    Remove { path: Seq<char> },
    Keep,
    Move { from: Seq<char>, dest: Seq<char>, text: Seq<char> },
    Write { path: Seq<char>, text: Seq<char> },
}

impl View for FileAction {
    type V = FileActionView;

    open spec fn view(&self) -> FileActionView {
        match self {
            FileAction::Remove { path } => FileActionView::Remove { path: path@ },
            FileAction::Keep => FileActionView::Keep,
            FileAction::Move { from, dest, text } => FileActionView::Move {
                from: from@,
                dest: dest@,
                text: text@,
            },
            FileAction::Write { path, text } => FileActionView::Write { path: path@, text: text@ },
        }
    }
}

/// What a prepared section asks of the file system.
pub open spec fn action_of(p: PreparedSectionView) -> FileActionView {
    match p.file_op {
        Some(FileOpView::Rem) => FileActionView::Remove { path: p.section.path },
        Some(FileOpView::Mv { dest }) => FileActionView::Move {
            from: p.section.path,
            dest,
            text: p.apply_result.text,
        },
        None => if p.apply_result.text == p.normalized {
            FileActionView::Keep
        } else {
            FileActionView::Write { path: p.section.path, text: p.apply_result.text }
        },
    }
}

impl PreparedSection {
    /// See [`action_of`].
    pub fn action(&self) -> (r: FileAction)
        ensures
            r@ == action_of(self@),
    {
        match &self.file_op {
            Some(FileOp::Rem) => FileAction::Remove { path: self.section.path.clone() },
            Some(FileOp::Mv { dest }) => FileAction::Move {
                from: self.section.path.clone(),
                dest: dest.clone(),
                text: self.apply_result.text.clone(),
            },
            None => {
                if self.is_noop() {
                    FileAction::Keep
                } else {
                    FileAction::Write {
                        path: self.section.path.clone(),
                        text: self.apply_result.text.clone(),
                    }
                }
            },
        }
    }
}

/// The outcome of a section whose file is left as it was, or deleted.
pub open spec fn untouched_result(
    p: PreparedSectionView,
    op: SectionOp,
) -> PatchSectionResultView {
    let hash = crate::format::tag(p.normalized);
    PatchSectionResultView {
        path: p.section.path,
        canonical_path: p.canonical_path,
        op,
        before: text::lf(p.normalized),
        after: text::lf(p.normalized),
        file_hash: hash,
        header: crate::format::header(p.section.path, hash),
        first_changed_line: None,
        warnings: p.parse_warnings + p.apply_result.warnings,
        move_dest: None,
        block_resolutions: Seq::empty(),
        diff: Seq::empty(),
    }
}

/// The outcome of a section whose text was written to `path`.
pub open spec fn written_result(
    p: PreparedSectionView,
    path: Seq<char>,
    canonical: Seq<char>,
    op: SectionOp,
    move_dest: Option<Seq<char>>,
) -> PatchSectionResultView {
    let hash = crate::format::tag(p.apply_result.text);
    PatchSectionResultView {
        path,
        canonical_path: canonical,
        op,
        before: text::lf(p.normalized),
        after: text::lf(p.apply_result.text),
        file_hash: hash,
        header: crate::format::header(path, hash),
        first_changed_line: recovery::first_changed(
            text::lf(p.normalized),
            text::lf(p.apply_result.text),
        ),
        warnings: p.parse_warnings + p.apply_result.warnings,
        move_dest,
        block_resolutions: p.apply_result.block_resolutions,
        diff: diff_preview::preview_of(p.normalized, p.apply_result.text),
    }
}

/// The store and the outcome once the file system has done what a prepared section asked
/// for, or has failed to write with `failure`. A move takes the history of the file along
/// before anything is written.
pub open spec fn committed(
    st: StoreView,
    p: PreparedSectionView,
    dest_canonical: Seq<char>,
    failure: Option<Seq<char>>,
) -> (StoreView, Result<PatchSectionResultView, Seq<char>>) {
    let text = p.apply_result.text;
    match action_of(p) {
        FileActionView::Remove { path } => (
            snapshots::invalidated(st, p.canonical_path),
            Ok(untouched_result(p, SectionOp::Delete)),
        ),
        FileActionView::Keep => (
            snapshots::recorded(
                st,
                p.canonical_path,
                p.normalized,
                crate::format::tag(p.normalized),
            ),
            Ok(untouched_result(p, SectionOp::Noop)),
        ),
        FileActionView::Move { from, dest, text } => {
            let moved = snapshots::relocated(st, p.canonical_path, dest_canonical);
            match failure {
                Some(m) => (moved, Err(m)),
                None => (
                    snapshots::recorded(moved, dest_canonical, text, crate::format::tag(text)),
                    Ok(
                        written_result(p, dest, dest_canonical, SectionOp::Update, Some(dest)),
                    ),
                ),
            }
        },
        FileActionView::Write { path, text } => match failure {
            Some(m) => (st, Err(m)),
            None => (
                snapshots::recorded(st, p.canonical_path, text, crate::format::tag(text)),
                Ok(
                    written_result(
                        p,
                        path,
                        p.canonical_path,
                        if p.exists {
                            SectionOp::Update
                        } else {
                            SectionOp::Create
                        },
                        None,
                    ),
                ),
            ),
        },
    }
}

/// An outcome and a store are what they should be.
pub open spec fn same_commit(
    r: Result<PatchSectionResult, PatchError>,
    store: StoreView,
    want: (StoreView, Result<PatchSectionResultView, Seq<char>>),
) -> bool {
    &&& store == want.0
    &&& match (r, want.1) {
        (Ok(a), Ok(b)) => a@ == b,
        (Err(e), Err(m)) => e@ == m,
        _ => false,
    }
}

fn untouched(p: PreparedSection, op: SectionOp) -> (r: PatchSectionResult)
    ensures
        r@ == untouched_result(p@, op),
{
    let warnings = joined_warnings(
        p.parse_warnings.as_slice(),
        p.apply_result.warnings.as_slice(),
    );
    let file_hash = compute_file_hash(p.normalized.as_str());
    let header = format_hashline_header(p.section.path.as_str(), file_hash.as_str());
    let r = PatchSectionResult {
        path: p.section.path,
        canonical_path: p.canonical_path,
        op,
        before: text::to_lf(p.normalized.as_str()),
        after: text::to_lf(p.normalized.as_str()),
        file_hash,
        header,
        first_changed_line: None,
        warnings,
        move_dest: None,
        block_resolutions: Vec::new(),
        diff: String::new(),
    };
    assert(r@ =~= untouched_result(p@, op));
    r
}

fn written(
    p: PreparedSection,
    path: String,
    canonical_path: String,
    op: SectionOp,
    move_dest: Option<String>,
) -> (r: PatchSectionResult)
    ensures
        r@ == written_result(p@, path@, canonical_path@, op, views::opt_text(move_dest)),
{
    let warnings = joined_warnings(
        p.parse_warnings.as_slice(),
        p.apply_result.warnings.as_slice(),
    );
    let file_hash = compute_file_hash(p.apply_result.text.as_str());
    let header = format_hashline_header(path.as_str(), file_hash.as_str());
    let diff = make_diff_preview(p.normalized.as_str(), p.apply_result.text.as_str());
    let before = text::to_lf(p.normalized.as_str());
    let after = text::to_lf(p.apply_result.text.as_str());
    let first_changed_line = recovery::find_first_changed_line(before.as_str(), after.as_str());
    PatchSectionResult {
        path,
        canonical_path,
        op,
        before,
        after,
        file_hash,
        header,
        first_changed_line,
        warnings,
        move_dest,
        block_resolutions: p.apply_result.block_resolutions,
        diff,
    }
}

// ── The patcher ──────────────────────────────────────────────────────────

/// A resolver that knows no blocks.
#[derive(Debug, Clone, Copy)]
pub struct NoResolver;

impl BlockResolver for NoResolver {
    fn resolve(&self, request: &BlockResolverRequest) -> (r: Option<BlockSpan>)
        ensures
            r is None,
    {
        None
    }
}

/// High-level patcher. Wires a snapshot store with the parsing and applying core.
pub struct Patcher<R = NoResolver> {
    pub snapshots: InMemorySnapshotStore,
    pub block_resolver: Option<R>,
}

impl Patcher<NoResolver> {
    /// A patcher with an empty store and no block resolver.
    pub fn new() -> (r: Self)
        ensures
            r.snapshots@.entries == Seq::<PathEntryView>::empty(),
            r.snapshots@.lru == Seq::<Seq<char>>::empty(),
            r.block_resolver is None,
    {
        Patcher { snapshots: InMemorySnapshotStore::new(), block_resolver: None }
    }
}

impl Default for Patcher<NoResolver> {
    fn default() -> (r: Self)
        ensures
            r.snapshots@.entries == Seq::<PathEntryView>::empty(),
            r.snapshots@.lru == Seq::<Seq<char>>::empty(),
            r.block_resolver is None,
    {
        Patcher::new()
    }
}

/// The paths that preparing a section needs to know about.
pub open spec fn paths_of(st: StoreView, section: PatchSectionView) -> Seq<Seq<char>> {
    let tagged = match section.file_hash {
        Some(tag) => snapshots::paths_with(st.entries, tag),
        None => Seq::empty(),
    };
    let dest = match section.file_op {
        Some(FileOpView::Mv { dest }) => seq![dest],
        _ => Seq::empty(),
    };
    seq![section.path] + tagged + dest
}

impl<R: BlockResolver> Patcher<R> {
    /// The same patcher with another block resolver.
    pub fn with_block_resolver<S: BlockResolver>(self, resolver: S) -> (r: Patcher<S>)
        ensures
            r.snapshots == self.snapshots,
            r.block_resolver == Some(resolver),
    {
        Patcher { snapshots: self.snapshots, block_resolver: Some(resolver) }
    }

    /// The paths that preparing a section needs to know about: its own, those under which
    /// its tag is known, and the destination of a move.
    pub fn paths_to_read(&self, section: &PatchSection) -> (r: Vec<String>)
        ensures
            views::texts(r@) == paths_of(self.snapshots@, section@),
    {
        let mut out: Vec<String> = Vec::new();
        out.push(section.path.clone());
        let ghost first = seq![section@.path];
        assert(views::texts(out@) =~= first);
        match &section.file_hash {
            Some(tag) => {
                let paths = self.snapshots.find_by_hash(tag.as_str());
                let ghost vp = views::strs(paths@);
                assert(first + vp.take(0) =~= first);
                for i in 0..paths.len()
                    invariant
                        vp == views::strs(paths@),
                        views::texts(out@) == first + vp.take(i as int),
                {
                    proof {
                        views::lemma_take_step(vp, i as int);
                        assert(vp[i as int] == paths@[i as int]@);
                        assert(first + vp.take(i + 1) =~= (first + vp.take(i as int)).push(
                            vp[i as int],
                        ));
                    }
                    out.push(text::owned(paths[i]));
                }
                proof {
                    views::lemma_take_all(vp);
                }
            },
            None => {},
        }
        let ghost before = views::texts(out@);
        match &section.file_op {
            Some(FileOp::Mv { dest }) => {
                out.push(dest.clone());
                assert(views::texts(out@) =~= before + seq![dest@]);
            },
            _ => {},
        }
        assert(views::texts(out@) =~= paths_of(self.snapshots@, section@));
        out
    }

    /// Parse, validate and apply one section in memory: check the snapshot tag (with
    /// recovery) and make the edits to what was read. `files` says what the paths of
    /// [`Patcher::paths_to_read`] are.
    pub fn prepare(&mut self, section: &PatchSection, files: &[FileState]) -> (r: Result<
        PreparedSection,
        PatchError,
    >)
        ensures
            exists|spans: Seq<Option<BlockSpan>>| #[trigger]
                section_answers(
                    old(self).block_resolver,
                    old(self).snapshots@,
                    section@,
                    views::all(files@),
                    spans,
                ) && same_prepared(
                    r,
                    final(self).snapshots@,
                    section_prepared(
                        old(self).snapshots@,
                        section@,
                        views::all(files@),
                        spans,
                        old(self).block_resolver is Some,
                    ),
                ),
            final(self).block_resolver == old(self).block_resolver,
    {
        prepare_section(&mut self.snapshots, &self.block_resolver, section, files)
    }

    /// Prepare every section of a patch. All sections are prepared in memory before any
    /// of them asks for a write, so that a batch is all-or-nothing: a batch that is not
    /// in order as a whole gives an error and nothing to write.
    ///
    /// The caller then has each prepared section's [`PreparedSection::action`] done, in
    /// order, and reports it with [`Patcher::commit`].
    pub fn apply(&mut self, patch: &Patch, files: &[FileState]) -> (r: Result<
        Vec<PreparedSection>,
        PatchError,
    >)
        ensures
            exists|answers: Seq<Seq<Option<BlockSpan>>>| #[trigger]
                sections_answers(
                    old(self).block_resolver,
                    old(self).snapshots@,
                    views::all(patch.sections@),
                    views::all(files@),
                    answers,
                ) && same_batch(
                    r,
                    final(self).snapshots@,
                    patch_prepared(
                        sections_prepared(
                            old(self).snapshots@,
                            views::all(patch.sections@),
                            views::all(files@),
                            answers,
                            old(self).block_resolver is Some,
                        ),
                        patch.sections@.len() as int,
                    ),
                ),
            final(self).block_resolver == old(self).block_resolver,
    {
        let prepared = prepare_sections(
            &mut self.snapshots,
            &self.block_resolver,
            patch.sections.as_slice(),
            files,
        );
        if patch.sections.len() == 1 {
            return prepared;
        }
        match prepared {
            Err(e) => Err(e),
            Ok(list) => match check_batch(list.as_slice()) {
                Some(e) => Err(e),
                None => Ok(list),
            },
        }
    }

    /// Run the preflight pass only: validate and apply in memory. Nothing is asked of the
    /// file system.
    pub fn preflight(&mut self, patch: &Patch, files: &[FileState]) -> (r: Result<(), PatchError>)
        ensures
            exists|answers: Seq<Seq<Option<BlockSpan>>>| #[trigger]
                sections_answers(
                    old(self).block_resolver,
                    old(self).snapshots@,
                    views::all(patch.sections@),
                    views::all(files@),
                    answers,
                ) && ({
                    let want = batch_checked(
                        sections_prepared(
                            old(self).snapshots@,
                            views::all(patch.sections@),
                            views::all(files@),
                            answers,
                            old(self).block_resolver is Some,
                        ),
                    );
                    &&& final(self).snapshots@ == want.0
                    &&& match (r, want.1) {
                        (Ok(_), Ok(_)) => true,
                        (Err(e), Err(m)) => e@ == m,
                        _ => false,
                    }
                }),
            final(self).block_resolver == old(self).block_resolver,
    {
        let prepared = prepare_sections(
            &mut self.snapshots,
            &self.block_resolver,
            patch.sections.as_slice(),
            files,
        );
        match prepared {
            Err(e) => Err(e),
            Ok(list) => match check_batch(list.as_slice()) {
                Some(e) => Err(e),
                None => Ok(()),
            },
        }
    }

    /// Commit a prepared section once its [`PreparedSection::action`] was done; `failure`
    /// says why a write failed. `dest_canonical` is the canonical path of a move's
    /// destination before the move.
    pub fn commit(
        &mut self,
        prepared: PreparedSection,
        dest_canonical: &str,
        failure: Option<String>,
    ) -> (r: Result<PatchSectionResult, PatchError>)
        ensures
            same_commit(
                r,
                final(self).snapshots@,
                committed(
                    old(self).snapshots@,
                    prepared@,
                    dest_canonical@,
                    views::opt_text(failure),
                ),
            ),
            final(self).block_resolver == old(self).block_resolver,
    {
        match &prepared.file_op {
            Some(FileOp::Rem) => {
                self.snapshots.invalidate(prepared.canonical_path.as_str());
                return Ok(untouched(prepared, SectionOp::Delete));
            },
            Some(FileOp::Mv { dest }) => {
                self.snapshots.relocate(prepared.canonical_path.as_str(), dest_canonical);
                match failure {
                    Some(message) => Err(PatchError { message }),
                    None => {
                        let _ = self.snapshots.record(
                            dest_canonical,
                            prepared.apply_result.text.as_str(),
                        );
                        let to = dest.clone();
                        let also = dest.clone();
                        Ok(
                            written(
                                prepared,
                                to,
                                text::owned(dest_canonical),
                                SectionOp::Update,
                                Some(also),
                            ),
                        )
                    },
                }
            },
            None => {
                if prepared.is_noop() {
                    let _ = self.snapshots.record(
                        prepared.canonical_path.as_str(),
                        prepared.normalized.as_str(),
                    );
                    return Ok(untouched(prepared, SectionOp::Noop));
                }
                match failure {
                    Some(message) => Err(PatchError { message }),
                    None => {
                        let _ = self.snapshots.record(
                            prepared.canonical_path.as_str(),
                            prepared.apply_result.text.as_str(),
                        );
                        let path = prepared.section.path.clone();
                        let canonical = prepared.canonical_path.clone();
                        let op = if prepared.exists {
                            SectionOp::Update
                        } else {
                            SectionOp::Create
                        };
                        Ok(written(prepared, path, canonical, op, None))
                    },
                }
            },
        }
    }
}

/// The prepared sections of a patch; only a patch of one section is not checked as a
/// batch.
pub open spec fn patch_prepared(
    prepared: (StoreView, Result<Seq<PreparedSectionView>, Seq<char>>),
    sections: int,
) -> (StoreView, Result<Seq<PreparedSectionView>, Seq<char>>) {
    if sections == 1 {
        prepared
    } else {
        batch_checked(prepared)
    }
}

// ── Laws ─────────────────────────────────────────────────────────────────

proof fn lemma_unseen_covers(anchors: Seq<u32>, seen: Seq<u32>, i: int)
    requires
        0 <= i < anchors.len(),
    ensures
        recovery::holds_line(seen, anchors[i] as int) || recovery::holds_line(
            unseen(anchors, seen),
            anchors[i] as int,
        ),
    decreases anchors.len(),
{
    let rest = anchors.drop_last();
    let before = unseen(rest, seen);
    let all = unseen(anchors, seen);
    let x = anchors[i];
    if !recovery::holds_line(seen, x as int) {
        if i < rest.len() {
            assert(rest[i] == x);
            lemma_unseen_covers(rest, seen, i);
            let k = choose|k: int| 0 <= k < before.len() && (#[trigger] before[k]) == x as int;
            assert(all[k] == before[k]);
        } else {
            assert(all[before.len() as int] == x);
        }
    }
}

proof fn lemma_all_seen(anchors: Seq<u32>, seen: Seq<u32>)
    requires
        forall|i: int|
            0 <= i < anchors.len() ==> recovery::holds_line(seen, #[trigger] anchors[i] as int),
    ensures
        unseen(anchors, seen).len() == 0,
    decreases anchors.len(),
{
    if anchors.len() > 0 {
        let rest = anchors.drop_last();
        assert forall|i: int| 0 <= i < rest.len() implies recovery::holds_line(
            seen,
            #[trigger] rest[i] as int,
        ) by {
            assert(rest[i] == anchors[i]);
        }
        lemma_all_seen(rest, seen);
        let last = anchors[anchors.len() - 1];
        assert(recovery::holds_line(seen, last as int));
    }
}

proof fn lemma_shown_lines(source: Seq<Seq<char>>, lines: Seq<u32>)
    ensures
        shown_lines(source, lines).len() <= lines.len(),
        shown_lines(source, lines).len() == lines.len() ==> line_numbers(
            shown_lines(source, lines),
        ) == lines,
    decreases lines.len(),
{
    if lines.len() > 0 {
        let rest = lines.drop_last();
        lemma_shown_lines(source, rest);
        let all = shown_lines(source, lines);
        if all.len() == lines.len() {
            assert(line_numbers(all) =~= line_numbers(shown_lines(source, rest)).push(
                lines[lines.len() - 1],
            ));
            assert(rest.push(lines[lines.len() - 1]) =~= lines);
        }
    } else {
        assert(line_numbers(shown_lines(source, lines)) =~= lines);
    }
}

proof fn lemma_same_tags(a: Seq<SnapshotView>, b: Seq<SnapshotView>, tag: Seq<char>, i: int)
    requires
        a.len() == b.len(),
        0 <= i,
        forall|k: int| 0 <= k < a.len() ==> (#[trigger] a[k]).tag == b[k].tag,
    ensures
        snapshots::tag_index(a, tag, i) == snapshots::tag_index(b, tag, i),
    decreases (if i < a.len() { a.len() - i } else { 0 }),
{
    if i < a.len() {
        assert(a[i].tag == b[i].tag);
        lemma_same_tags(a, b, tag, i + 1);
    }
}

/// An edit that was refused because it names lines that were not shown succeeds on a
/// straight retry, once the refusal has shown these lines in full.
pub proof fn law_retry_succeeds(
    st: StoreView,
    canonical: Seq<char>,
    section: PatchSectionView,
    tag: Seq<char>,
    snap: SnapshotView,
)
    requires
        snapshots::tagged(st, canonical, tag) == Some(snap),
        snap.tag == tag,
        seen_check(st, canonical, section, tag, snap).1 is Some,
        !reveal_truncated(
            text::lines(snap.content),
            unseen(recovery::anchor_lines(section.edits), snap.seen_lines),
        ),
    ensures
        ({
            let after = seen_check(st, canonical, section, tag, snap).0;
            &&& snapshots::tagged(after, canonical, tag) == Some(
                SnapshotView {
                    seen_lines: snap.seen_lines + unseen(
                        recovery::anchor_lines(section.edits),
                        snap.seen_lines,
                    ),
                    ..snap
                },
            )
            &&& seen_check(
                after,
                canonical,
                section,
                tag,
                snapshots::tagged(after, canonical, tag)->0,
            ).1 is None
        }),
{
    let anchors = recovery::anchor_lines(section.edits);
    let lines = unseen(anchors, snap.seen_lines);
    let source = text::lines(snap.content);
    let shown = shown_lines(source, picked(lines));
    lemma_shown_lines(source, picked(lines));
    assert(picked(lines) =~= lines);
    assert(line_numbers(shown) == lines);
    let seen = snap.seen_lines + lines;
    let after = snapshots::with_seen(st, canonical, tag, seen);
    let vs = snapshots::versions(st.entries, canonical);
    let k = snapshots::tag_index(vs, tag, 0);
    let next = vs.update(k, SnapshotView { seen_lines: seen, ..vs[k] });
    snapshots::law_put(st.entries, canonical, next, canonical);
    lemma_tag_index_found(vs, tag, 0);
    assert forall|j: int| 0 <= j < next.len() implies (#[trigger] next[j]).tag == vs[j].tag by {}
    lemma_same_tags(next, vs, tag, 0);
    assert(snapshots::tagged(after, canonical, tag) == Some(next[k]));
    assert forall|i: int| 0 <= i < anchors.len() implies recovery::holds_line(
        seen,
        #[trigger] anchors[i] as int,
    ) by {
        lemma_unseen_covers(anchors, snap.seen_lines, i);
        let x = anchors[i] as int;
        if recovery::holds_line(snap.seen_lines, x) {
            let j = choose|j: int|
                0 <= j < snap.seen_lines.len() && (#[trigger] snap.seen_lines[j]) == x;
            assert(seen[j] == snap.seen_lines[j]);
        } else {
            let j = choose|j: int| 0 <= j < lines.len() && (#[trigger] lines[j]) == x;
            assert(seen[snap.seen_lines.len() + j] == lines[j]);
        }
    }
    lemma_all_seen(anchors, seen);
}

/// The lines of a text in full, with their numbers.
pub open spec fn full_lines(source: Seq<Seq<char>>, lines: Seq<u32>) -> Seq<(u32, Seq<char>)> {
    lines.map_values(|l: u32| (l, source[l - 1]))
}

proof fn lemma_shown_in_full(source: Seq<Seq<char>>, lines: Seq<u32>)
    requires
        forall|i: int|
            0 <= i < lines.len() ==> 1 <= #[trigger] lines[i] <= source.len() && numbers::utf8_len(
                source[lines[i] - 1],
            ) <= SEEN_LINE_REVEAL_MAX_COLUMNS,
    ensures
        shown_lines(source, lines) == full_lines(source, lines),
        !any_cut(source, lines),
    decreases lines.len(),
{
    if lines.len() > 0 {
        let rest = lines.drop_last();
        let last = lines[lines.len() - 1];
        assert forall|i: int| 0 <= i < rest.len() implies 1 <= #[trigger] rest[i] <= source.len()
            && numbers::utf8_len(source[rest[i] - 1]) <= SEEN_LINE_REVEAL_MAX_COLUMNS by {
            assert(rest[i] == lines[i]);
        }
        lemma_shown_in_full(source, rest);
        assert(full_lines(source, lines) =~= full_lines(source, rest).push(
            (last, source[last - 1]),
        ));
    } else {
        assert(shown_lines(source, lines) =~= full_lines(source, lines));
    }
}

/// An edit on lines that were not shown is refused, and the refusal quotes each of these
/// lines in full, where there are few enough of them and none is too long. They count as
/// seen from then on, beside those that were seen before, and the same edit made again is
/// not refused.
pub proof fn law_unseen_lines_shown(
    st: StoreView,
    canonical: Seq<char>,
    section: PatchSectionView,
    tag: Seq<char>,
    snap: SnapshotView,
)
    requires
        snapshots::tagged(st, canonical, tag) == Some(snap),
        snap.tag == tag,
        snap.seen_lines.len() > 0,
        ({
            let lines = unseen(recovery::anchor_lines(section.edits), snap.seen_lines);
            let source = text::lines(snap.content);
            &&& 0 < lines.len() <= SEEN_LINE_REVEAL_CAP
            &&& forall|i: int|
                0 <= i < lines.len() ==> 1 <= #[trigger] lines[i] <= source.len()
                    && numbers::utf8_len(source[lines[i] - 1]) <= SEEN_LINE_REVEAL_MAX_COLUMNS
        }),
    ensures
        ({
            let lines = unseen(recovery::anchor_lines(section.edits), snap.seen_lines);
            let rows = shown_rows(full_lines(text::lines(snap.content), lines));
            let (after, refusal) = seen_check(st, canonical, section, tag, snap);
            let kept = SnapshotView { seen_lines: snap.seen_lines + lines, ..snap };
            &&& refusal == Some(messages::unseen_lines(section.path, lines, tag, rows, false))
            &&& snapshots::tagged(after, canonical, tag) == Some(kept)
            &&& seen_check(after, canonical, section, tag, kept) == (after, None::<Seq<char>>)
        }),
{
    let lines = unseen(recovery::anchor_lines(section.edits), snap.seen_lines);
    let source = text::lines(snap.content);
    assert(picked(lines) == lines);
    lemma_shown_in_full(source, lines);
    assert(line_numbers(full_lines(source, lines)) =~= lines);
    law_retry_succeeds(st, canonical, section, tag, snap);
}

proof fn lemma_tag_index_found(vs: Seq<SnapshotView>, tag: Seq<char>, i: int)
    requires
        0 <= i,
        snapshots::tag_index(vs, tag, i) < vs.len(),
    ensures
        0 <= snapshots::tag_index(vs, tag, i),
        vs[snapshots::tag_index(vs, tag, i)].tag == tag,
    decreases (if i < vs.len() { vs.len() - i } else { 0 }),
{
    if i < vs.len() && vs[i].tag != tag {
        lemma_tag_index_found(vs, tag, i + 1);
    }
}

/// A stale tag is refused: where the file has changed, an edit that stands or falls with
/// a line is made only if it can be recovered. The refusal records the live content, so
/// that a fresh read knows it.
pub proof fn law_stale_tag_refused(
    st: StoreView,
    path: Seq<char>,
    canonical: Seq<char>,
    normalized: Seq<char>,
    section: PatchSectionView,
    tag: Seq<char>,
    spans: Seq<Option<BlockSpan>>,
    has_resolver: bool,
)
    requires
        crate::format::tag(normalized) != tag,
        !block::any_block(section.edits),
        any_anchored(section.edits),
        recovery::recovery(st, canonical, normalized, tag, section.edits) is None,
    ensures
        ({
            let r = section_applied(
                st,
                path,
                canonical,
                normalized,
                section.edits,
                section,
                tag,
                spans,
                has_resolver,
            );
            &&& r.1 == Err::<ApplyResultView, Seq<char>>(
                mismatch(
                    path,
                    tag,
                    crate::format::tag(normalized),
                    snapshots::tagged(st, canonical, tag) is Some,
                ),
            )
            &&& snapshots::tagged(r.0, canonical, crate::format::tag(normalized)) matches Some(s)
                && s.content == normalized
        }),
{
    snapshots::law_recorded(st, canonical, normalized, crate::format::tag(normalized));
}

/// A tag that names the live content makes the edits apply to it as they are: nothing is
/// recovered or moved. Nothing but lines that were not shown stands in the way.
pub proof fn law_live_tag_applies(
    st: StoreView,
    path: Seq<char>,
    canonical: Seq<char>,
    normalized: Seq<char>,
    section: PatchSectionView,
    spans: Seq<Option<BlockSpan>>,
    has_resolver: bool,
)
    requires
        !block::any_block(section.edits),
        snapshots::tagged(st, canonical, crate::format::tag(normalized)) matches Some(s)
            ==> s.seen_lines.len() == 0,
    ensures
        section_applied(
            st,
            path,
            canonical,
            normalized,
            section.edits,
            section,
            crate::format::tag(normalized),
            spans,
            has_resolver,
        ) == (
            st,
            Ok::<ApplyResultView, Seq<char>>(
                ApplyResultView {
                    text: apply::applied(normalized, section.edits, Map::empty()).0,
                    warnings: apply::applied(normalized, section.edits, Map::empty()).1,
                    first_changed_line: None,
                    block_resolutions: Seq::empty(),
                },
            ),
        ),
{
    let w = apply::applied(normalized, section.edits, Map::empty()).1;
    assert(Seq::<Seq<char>>::empty() + w =~= w);
}

proof fn lemma_no_holder(list: Seq<PreparedSectionView>, canonical: Seq<char>, i: int)
    requires
        holder(list, canonical) is None,
        0 <= i < list.len(),
    ensures
        list[i].canonical_path != canonical,
    decreases list.len(),
{
    if i < list.len() - 1 {
        assert(list.drop_last()[i] == list[i]);
        lemma_no_holder(list.drop_last(), canonical, i);
    }
}

proof fn lemma_no_clash(list: Seq<PreparedSectionView>, i: int, j: int)
    requires
        clash(list) is None,
        0 <= i < j < list.len(),
    ensures
        list[i].canonical_path != list[j].canonical_path,
    decreases list.len(),
{
    let rest = list.drop_last();
    if j < rest.len() {
        assert(rest[i] == list[i] && rest[j] == list[j]);
        lemma_no_clash(rest, i, j);
    } else {
        assert(rest[i] == list[i]);
        lemma_no_holder(rest, list[list.len() - 1].canonical_path, i);
    }
}

proof fn lemma_not_idle(list: Seq<PreparedSectionView>, i: int)
    requires
        idle(list) is None,
        0 <= i < list.len(),
    ensures
        !changes_nothing(list[i]),
    decreases list.len(),
{
    if i < list.len() - 1 {
        assert(list.drop_last()[i] == list[i]);
        lemma_not_idle(list.drop_last(), i);
    }
}

proof fn lemma_prepared_len(
    st: StoreView,
    sections: Seq<PatchSectionView>,
    files: Seq<FileStateView>,
    answers: Seq<Seq<Option<BlockSpan>>>,
    has_resolver: bool,
)
    ensures
        sections_prepared(st, sections, files, answers, has_resolver).1 matches Ok(list)
            ==> list.len() == sections.len(),
    decreases sections.len(),
{
    if sections.len() > 0 {
        lemma_prepared_len(st, sections.drop_last(), files, answers.drop_last(), has_resolver);
    }
}

/// A batch is all or nothing: if there is anything to write, every section was prepared,
/// no two sections are on one file, and each section has an effect. Otherwise there is an
/// error, and nothing to write.
pub proof fn law_all_or_nothing(
    st: StoreView,
    sections: Seq<PatchSectionView>,
    files: Seq<FileStateView>,
    answers: Seq<Seq<Option<BlockSpan>>>,
    has_resolver: bool,
)
    ensures
        patch_prepared(
            sections_prepared(st, sections, files, answers, has_resolver),
            sections.len() as int,
        ).1 matches Ok(list) ==> {
            &&& list.len() == sections.len()
            &&& forall|i: int, j: int|
                0 <= i < j < list.len() ==> (#[trigger] list[i]).canonical_path != (
                #[trigger] list[j]).canonical_path
            &&& sections.len() != 1 ==> forall|i: int|
                0 <= i < list.len() ==> !changes_nothing(#[trigger] list[i])
        },
{
    lemma_prepared_len(st, sections, files, answers, has_resolver);
    let p = patch_prepared(
        sections_prepared(st, sections, files, answers, has_resolver),
        sections.len() as int,
    );
    if p.1 is Ok && sections.len() != 1 {
        let list = p.1->Ok_0;
        assert forall|i: int, j: int| 0 <= i < j < list.len() implies (
        #[trigger] list[i]).canonical_path != (#[trigger] list[j]).canonical_path by {
            lemma_no_clash(list, i, j);
        }
        assert forall|i: int| 0 <= i < list.len() implies !changes_nothing(#[trigger] list[i]) by {
            lemma_not_idle(list, i);
        }
    }
}

/// What was written is known afterwards: the tag in the header of the result names it,
/// and it is the most recent version of its file. So the next edit can cite the header.
/// The first changed line is the first at which the texts of the result differ.
pub proof fn law_written_is_known(
    st: StoreView,
    p: PreparedSectionView,
    dest_canonical: Seq<char>,
)
    requires
        action_of(p) is Write || action_of(p) is Move,
    ensures
        committed(st, p, dest_canonical, None).1 matches Ok(r) && {
            let after = committed(st, p, dest_canonical, None).0;
            &&& r.after == text::lf(p.apply_result.text)
            &&& r.header == crate::format::header(r.path, r.file_hash)
            &&& r.file_hash == crate::format::tag(r.after)
            &&& snapshots::head_of(after, r.canonical_path) matches Some(s) && s.tag == r.file_hash
                && s.content == p.apply_result.text
            &&& r.before == text::lf(p.normalized)
            &&& r.first_changed_line == recovery::first_changed(r.before, r.after)
            &&& r.first_changed_line is Some <==> r.before != r.after
        },
{
    let text = p.apply_result.text;
    let tag = crate::format::tag(text);
    crate::format::law_tag_of_lf(text);
    recovery::law_first_changed(text::lf(p.normalized), text::lf(text));
    snapshots::law_recorded(st, p.canonical_path, text, tag);
    snapshots::law_recorded(
        snapshots::relocated(st, p.canonical_path, dest_canonical),
        dest_canonical,
        text,
        tag,
    );
}

/// A removed file is forgotten: no tag names a version of it any more.
pub proof fn law_removed_is_forgotten(
    st: StoreView,
    p: PreparedSectionView,
    dest_canonical: Seq<char>,
    failure: Option<Seq<char>>,
    tag: Seq<char>,
)
    requires
        snapshots::well_kept(st),
        action_of(p) is Remove,
    ensures
        snapshots::tagged(
            committed(st, p, dest_canonical, failure).0,
            p.canonical_path,
            tag,
        ) is None,
{
    snapshots::law_invalidate_kept(st, p.canonical_path, tag, p.canonical_path);
}

/// A write that failed changes nothing that is known of the file.
pub proof fn law_failed_write_changes_nothing(
    st: StoreView,
    p: PreparedSectionView,
    dest_canonical: Seq<char>,
    reason: Seq<char>,
)
    requires
        action_of(p) is Write,
    ensures
        committed(st, p, dest_canonical, Some(reason)) == (
            st,
            Err::<PatchSectionResultView, Seq<char>>(reason),
        ),
{
}

/// Preparing a section keeps the store well kept.
pub proof fn law_prepare_keeps_store(
    st: StoreView,
    section: PatchSectionView,
    files: Seq<FileStateView>,
    spans: Seq<Option<BlockSpan>>,
    has_resolver: bool,
)
    requires
        snapshots::well_kept(st),
    ensures
        snapshots::well_kept(section_prepared(st, section, files, spans, has_resolver).0),
{
    let target = target_of(st, section, files);
    if target.content is Some && section.file_hash is Some {
        let normalized = sections::without_bom(target.content->0);
        let tag = section.file_hash->0;
        snapshots::law_record_kept(st, target.canonical, normalized);
        match snapshots::tagged(st, target.canonical, tag) {
            Some(snap) => {
                let lines = unseen(recovery::anchor_lines(section.edits), snap.seen_lines);
                let shown = shown_lines(text::lines(snap.content), picked(lines));
                snapshots::law_seen_kept(
                    st,
                    target.canonical,
                    snap.tag,
                    snap.seen_lines + line_numbers(shown),
                );
            },
            None => {},
        }
    }
}

/// Committing a section keeps the store well kept, whether the write succeeded or not.
pub proof fn law_commit_keeps_store(
    st: StoreView,
    p: PreparedSectionView,
    dest_canonical: Seq<char>,
    failure: Option<Seq<char>>,
)
    requires
        snapshots::well_kept(st),
    ensures
        snapshots::well_kept(committed(st, p, dest_canonical, failure).0),
{
    let moved = snapshots::relocated(st, p.canonical_path, dest_canonical);
    snapshots::law_invalidate_kept(st, p.canonical_path, Seq::empty(), p.canonical_path);
    snapshots::law_record_kept(st, p.canonical_path, p.normalized);
    snapshots::law_record_kept(st, p.canonical_path, p.apply_result.text);
    snapshots::law_relocate_kept(st, p.canonical_path, dest_canonical);
    snapshots::law_record_kept(moved, dest_canonical, p.apply_result.text);
}

} // verus!
