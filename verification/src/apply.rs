//! Applying edits to a text.
//!
//! Edits are pure data: applying them reads no file and changes none. Replacement
//! groups are first normalized by the boundary repair, which absorbs common
//! mistakes where a payload restates unchanged range boundaries or duplicates or
//! drops structural closers. Then after-inserts slide to the depth their body
//! claims. What is left is rendered line by line.

use std::collections::HashMap;

use vstd::prelude::*;

use crate::boundary;
use crate::hunks;
use crate::hunks::{RowEdit, RowEditView, RowOp, RowOpView};
use crate::landing;
use crate::messages::UNRESOLVED_BLOCK_INTERNAL;
use crate::numbers;
use crate::rows;
use crate::rows::{Row, RowView};
use crate::text;
use crate::types::{ApplyResult, BlockResolution, Cursor, Edit, EditView, InsertMode};
use crate::views;

verus! {

broadcast use {crate::views::group_all, crate::views::group_texts};

/// Metadata the caller supplies when block edits have been resolved.
#[derive(Debug, Clone)]
pub struct ApplyOptions {
    /// From a position in the edit list to the resolved block's first line, for
    /// inserts that stand for `INS.BLK.POST N:`.
    pub block_starts: HashMap<usize, u32>,
}

impl Default for ApplyOptions {
    fn default() -> (r: Self)
        ensures
            r.block_starts@ == Map::<usize, u32>::empty(),
    {
        ApplyOptions { block_starts: HashMap::new() }
    }
}

// ── Phantom line and bounds ──────────────────────────────────────────────

/// The number of the empty line behind a trailing newline, 0 if there is none.
pub open spec fn phantom_line(file: Seq<RowView>) -> int {
    if file.len() > 1 && file.last().text.len() == 0 {
        file.len() as int
    } else {
        0
    }
}

/// The edits without deletions of the phantom line `phantom`.
pub open spec fn without_phantom(edits: Seq<RowEditView>, phantom: int) -> Seq<RowEditView>
    decreases edits.len(),
{
    if edits.len() == 0 {
        Seq::empty()
    } else {
        let rest = without_phantom(edits.drop_last(), phantom);
        match edits.last().op {
            RowOpView::Delete { line } => if phantom != 0 && line == phantom {
                rest
            } else {
                rest.push(edits.last())
            },
            _ => rest.push(edits.last()),
        }
    }
}

fn drop_trailing_phantom_deletes(edits: &[RowEdit], file: &[Row]) -> (r: Vec<RowEdit>)
    ensures
        views::all(r@) == without_phantom(views::all(edits@), phantom_line(views::all(file@))),
{
    let ghost ve = views::all(edits@);
    let n: usize = file.len();
    assert(n > 0 ==> views::all(file@).last() == file@[n - 1]@);
    let phantom: usize = if n > 1 && file[n - 1].text.as_str().is_empty() {
        n
    } else {
        0
    };
    let mut out: Vec<RowEdit> = Vec::new();
    for i in 0..edits.len()
        invariant
            ve == views::all(edits@),
            views::all(out@) == without_phantom(ve.take(i as int), phantom as int),
    {
        proof {
            views::lemma_take_step(ve, i as int);
            assert(ve[i as int] == edits@[i as int]@);
        }
        let dropped = match &edits[i].op {
            RowOp::Delete { line } => phantom != 0 && *line as usize == phantom,
            RowOp::Insert { cursor, row, mode } => false,
        };
        if !dropped {
            out.push(edits[i].copy());
        }
    }
    proof {
        views::lemma_take_all(ve);
    }
    out
}

/// The first anchor, from position `i` on, that names no line of a file of `n` lines.
pub open spec fn first_out_of_bounds(edits: Seq<RowEditView>, n: int, i: int) -> Option<u32>
    decreases edits.len() - i,
{
    if i < 0 || i >= edits.len() {
        None
    } else {
        match edits[i].op.anchored() {
            Some(l) => if l < 1 || l > n {
                Some(l)
            } else {
                first_out_of_bounds(edits, n, i + 1)
            },
            None => first_out_of_bounds(edits, n, i + 1),
        }
    }
}

/// The message for an anchor that names no line.
pub open spec fn bounds_message(line: u32, n: int) -> Seq<char> {
    "Line "@ + numbers::dec(line as nat) + " does not exist (file has "@ + numbers::dec(n as nat)
        + " lines)"@
}

fn validate_line_bounds(edits: &[RowEdit], n: usize) -> (r: Result<(), String>)
    ensures
        match (r, first_out_of_bounds(views::all(edits@), n as int, 0)) {
            (Ok(_), None) => true,
            (Err(e), Some(l)) => e@ == bounds_message(l, n as int),
            _ => false,
        },
        r is Ok ==> hunks::in_bounds(views::all(edits@), n as int),
{
    let ghost ve = views::all(edits@);
    for i in 0..edits.len()
        invariant
            ve == views::all(edits@),
            first_out_of_bounds(ve, n as int, i as int) == first_out_of_bounds(ve, n as int, 0),
            forall|j: int|
                0 <= j < i ==> match (#[trigger] ve[j]).op.anchored() {
                    Some(l) => 1 <= l <= n,
                    None => true,
                },
    {
        assert(ve[i as int] == edits@[i as int]@);
        match edits[i].op.anchor_line() {
            Some(l) => {
                if l < 1 || l as usize > n {
                    let mut s = text::owned("Line ");
                    s.append(numbers::decimal(l as u64).as_str());
                    s.append(" does not exist (file has ");
                    s.append(numbers::decimal_usize(n).as_str());
                    s.append(" lines)");
                    return Err(s);
                }
            },
            None => {},
        }
    }
    Ok(())
}

// ── Rendering ────────────────────────────────────────────────────────────

/// Where an inserted row stands.
#[derive(Clone, Copy, PartialEq, Eq, Structural)]
pub enum Place {
    /// In front of the file.
    Head,
    /// Behind the file.
    Tail,
    /// In front of a line, before what replaces the line.
    Before,
    /// In a line's stead.
    Instead,
    /// Behind a line.
    After,
}

/// The place of an insertion, and the line it belongs to (0 at the file's ends).
pub open spec fn place_of(cursor: Cursor, mode: InsertMode) -> (Place, u32) {
    match cursor {
        Cursor::Bof => (Place::Head, 0),
        Cursor::Eof => (Place::Tail, 0),
        Cursor::BeforeAnchor(a) => (
            match mode {
                InsertMode::Replacement => Place::Instead,
                InsertMode::Insert => Place::Before,
            },
            a.line,
        ),
        Cursor::AfterAnchor(a) => (
            match mode {
                InsertMode::Replacement => Place::Instead,
                InsertMode::Insert => Place::After,
            },
            a.line,
        ),
    }
}

fn place_at(cursor: &Cursor, mode: &InsertMode) -> (r: (Place, u32))
    ensures
        r == place_of(*cursor, *mode),
{
    match cursor {
        Cursor::Bof => (Place::Head, 0),
        Cursor::Eof => (Place::Tail, 0),
        Cursor::BeforeAnchor(a) => (
            match mode {
                InsertMode::Replacement => Place::Instead,
                InsertMode::Insert => Place::Before,
            },
            a.line,
        ),
        Cursor::AfterAnchor(a) => (
            match mode {
                InsertMode::Replacement => Place::Instead,
                InsertMode::Insert => Place::After,
            },
            a.line,
        ),
    }
}

/// The texts inserted at one place of one line, in order.
pub open spec fn inserted(edits: Seq<RowEditView>, place: Place, line: int) -> Seq<Seq<char>>
    decreases edits.len(),
{
    if edits.len() == 0 {
        Seq::empty()
    } else {
        let rest = inserted(edits.drop_last(), place, line);
        match edits.last().op {
            RowOpView::Insert { cursor, row, mode } => if place_of(cursor, mode).0 == place
                && place_of(cursor, mode).1 == line {
                rest.push(row.text)
            } else {
                rest
            },
            _ => rest,
        }
    }
}

fn append_inserted(out: &mut Vec<String>, edits: &[RowEdit], place: Place, line: usize)
    ensures
        views::texts(final(out)@) == views::texts(old(out)@) + inserted(
            views::all(edits@),
            place,
            line as int,
        ),
{
    let ghost start = views::texts(out@);
    let ghost ve = views::all(edits@);
    assert(start + Seq::<Seq<char>>::empty() =~= start);
    for i in 0..edits.len()
        invariant
            ve == views::all(edits@),
            views::texts(out@) == start + inserted(ve.take(i as int), place, line as int),
    {
        let ghost got = inserted(ve.take(i as int), place, line as int);
        proof {
            views::lemma_take_step(ve, i as int);
            assert(ve[i as int] == edits@[i as int]@);
        }
        match &edits[i].op {
            RowOp::Insert { cursor, row, mode } => {
                let (p, l) = place_at(cursor, mode);
                if p == place && l as usize == line {
                    proof {
                        assert((start + got).push(row.text@) =~= start + got.push(row.text@));
                    }
                    out.push(row.text.clone());
                }
            },
            RowOp::Delete { line } => {},
        }
    }
    proof {
        views::lemma_take_all(ve);
    }
}

/// Some edit deletes line `line`.
pub open spec fn is_deleted(edits: Seq<RowEditView>, line: int) -> bool {
    exists|i: int|
        0 <= i < edits.len() && match (#[trigger] edits[i]).op {
            RowOpView::Delete { line: l } => l == line,
            _ => false,
        }
}

fn deletes_line(edits: &[RowEdit], line: usize) -> (r: bool)
    ensures
        r == is_deleted(views::all(edits@), line as int),
{
    let ghost ve = views::all(edits@);
    for i in 0..edits.len()
        invariant
            ve == views::all(edits@),
            forall|j: int|
                0 <= j < i ==> match (#[trigger] ve[j]).op {
                    RowOpView::Delete { line: l } => l != line,
                    _ => true,
                },
    {
        assert(ve[i as int] == edits@[i as int]@);
        match &edits[i].op {
            RowOp::Delete { line: l } => {
                if *l as usize == line {
                    return true;
                }
            },
            RowOp::Insert { cursor, row, mode } => {},
        }
    }
    false
}

/// What stands at line `line` after the edits: rows inserted in front of it, rows that
/// replace it, the line itself unless it is deleted, rows inserted behind it.
pub open spec fn rendered_line(edits: Seq<RowEditView>, file: Seq<RowView>, line: int) -> Seq<
    Seq<char>,
> {
    inserted(edits, Place::Before, line) + inserted(edits, Place::Instead, line) + (if is_deleted(
        edits,
        line,
    ) {
        Seq::empty()
    } else {
        seq![file[line - 1].text]
    }) + inserted(edits, Place::After, line)
}

/// What stands at the first `n` lines after the edits.
pub open spec fn rendered(edits: Seq<RowEditView>, file: Seq<RowView>, n: int) -> Seq<Seq<char>>
    decreases n,
{
    if n <= 0 {
        Seq::empty()
    } else {
        rendered(edits, file, n - 1) + rendered_line(edits, file, n)
    }
}

/// A file that holds nothing: one empty line.
pub open spec fn is_void(lines: Seq<Seq<char>>) -> bool {
    lines.len() == 1 && lines[0].len() == 0
}

/// Lines with `head` in front of them; an empty file gives way to them.
pub open spec fn with_head(lines: Seq<Seq<char>>, head: Seq<Seq<char>>) -> Seq<Seq<char>> {
    if head.len() == 0 {
        lines
    } else if is_void(lines) {
        head
    } else {
        head + lines
    }
}

/// Lines with `tail` behind them, in front of the empty line behind a trailing
/// newline; an empty file gives way to them.
pub open spec fn with_tail(lines: Seq<Seq<char>>, tail: Seq<Seq<char>>) -> Seq<Seq<char>> {
    if tail.len() == 0 {
        lines
    } else if is_void(lines) {
        tail
    } else if lines.len() > 0 && lines.last().len() == 0 {
        lines.drop_last() + tail + seq![Seq::<char>::empty()]
    } else {
        lines + tail
    }
}

/// The lines of a file after row edits, all of which lie within the file.
pub open spec fn render(edits: Seq<RowEditView>, file: Seq<RowView>) -> Seq<Seq<char>> {
    with_tail(
        with_head(rendered(edits, file, file.len() as int), inserted(edits, Place::Head, 0)),
        inserted(edits, Place::Tail, 0),
    )
}

fn insert_at_start(lines: Vec<String>, head: Vec<String>) -> (r: Vec<String>)
    ensures
        views::texts(r@) == with_head(views::texts(lines@), views::texts(head@)),
{
    if head.len() == 0 {
        return lines;
    }
    assert(lines@.len() == 1 ==> views::texts(lines@)[0] == lines@[0]@);
    if lines.len() == 1 && lines[0].as_str().is_empty() {
        return head;
    }
    let mut out = head;
    text::extend_strings(&mut out, lines.as_slice());
    out
}

fn insert_at_end(lines: Vec<String>, tail: Vec<String>) -> (r: Vec<String>)
    ensures
        views::texts(r@) == with_tail(views::texts(lines@), views::texts(tail@)),
{
    if tail.len() == 0 {
        return lines;
    }
    let n: usize = lines.len();
    let ghost ls = views::texts(lines@);
    assert(n > 0 ==> ls.last() == lines@[n - 1]@);
    if n == 1 && lines[0].as_str().is_empty() {
        return tail;
    }
    let mut out = lines;
    if n > 0 && out[n - 1].as_str().is_empty() {
        proof {
            views::lemma_texts_drop_last(out@);
        }
        let last = out.pop();
        text::extend_strings(&mut out, tail.as_slice());
        out.push(String::new());
        proof {
            let want = ls.drop_last() + views::texts(tail@) + seq![Seq::<char>::empty()];
            assert(views::texts(out@) =~= want);
        }
    } else {
        text::extend_strings(&mut out, tail.as_slice());
    }
    out
}

fn render_lines(edits: &[RowEdit], file: &[Row]) -> (r: Vec<String>)
    ensures
        views::texts(r@) == render(views::all(edits@), views::all(file@)),
{
    let ghost ve = views::all(edits@);
    let ghost vf = views::all(file@);
    let mut out: Vec<String> = Vec::new();
    for i in 0..file.len()
        invariant
            ve == views::all(edits@),
            vf == views::all(file@),
            views::texts(out@) == rendered(ve, vf, i as int),
    {
        let line: usize = i + 1;
        let ghost done = views::texts(out@);
        append_inserted(&mut out, edits, Place::Before, line);
        append_inserted(&mut out, edits, Place::Instead, line);
        let ghost head = views::texts(out@);
        assert(vf[i as int] == file@[i as int]@);
        if !deletes_line(edits, line) {
            out.push(file[i].text.clone());
            assert(views::texts(out@) =~= head + seq![vf[line - 1].text]);
        } else {
            assert(head + Seq::<Seq<char>>::empty() =~= head);
        }
        append_inserted(&mut out, edits, Place::After, line);
        assert(views::texts(out@) =~= done + rendered_line(ve, vf, line as int));
    }
    let mut head: Vec<String> = Vec::new();
    append_inserted(&mut head, edits, Place::Head, 0);
    let mut tail: Vec<String> = Vec::new();
    append_inserted(&mut tail, edits, Place::Tail, 0);
    assert(views::texts(head@) =~= inserted(ve, Place::Head, 0));
    assert(views::texts(tail@) =~= inserted(ve, Place::Tail, 0));
    insert_at_end(insert_at_start(out, head), tail)
}

// ── Row edits applied to rows ────────────────────────────────────────────

/// The outcome of applying row edits to the rows of a file: the lines afterwards with
/// the warnings, or the message for an anchor outside the file.
pub open spec fn applied_rows(file: Seq<RowView>, edits: Seq<RowEditView>) -> Result<
    (Seq<Seq<char>>, Seq<Seq<char>>),
    Seq<char>,
> {
    let wanted = without_phantom(edits, phantom_line(file));
    match first_out_of_bounds(wanted, file.len() as int, 0) {
        Some(l) => Err(bounds_message(l, file.len() as int)),
        None => {
            let (repaired, warnings) = boundary::boundaries_repaired(wanted, file);
            Ok(
                (
                    render(landing::landed(repaired, file), file),
                    warnings + landing::landing_warnings(repaired, file, repaired.len() as int),
                ),
            )
        },
    }
}

/// Apply row edits to the rows of a file. See [`applied_rows`].
pub fn apply_rows(file: &[Row], edits: &[RowEdit]) -> (r: Result<(Vec<String>, Vec<String>), String>)
    ensures
        match (r, applied_rows(views::all(file@), views::all(edits@))) {
            (Ok(a), Ok(b)) => views::texts(a.0@) == b.0 && views::texts(a.1@) == b.1,
            (Err(a), Err(b)) => a@ == b,
            _ => false,
        },
{
    let wanted = drop_trailing_phantom_deletes(edits, file);
    match validate_line_bounds(wanted.as_slice(), file.len()) {
        Err(e) => {
            return Err(e);
        },
        Ok(_) => {},
    }
    let (repaired, boundary_warnings) = boundary::repair_replacement_boundaries(
        wanted.as_slice(),
        file,
    );
    let (done, landing_warnings) = landing::repair_after_insert_landings(repaired.as_slice(), file);
    let mut warnings = boundary_warnings;
    text::extend_strings(&mut warnings, landing_warnings.as_slice());
    Ok((render_lines(done.as_slice(), file), warnings))
}

// ── Edits applied to a text ──────────────────────────────────────────────

/// The text an edit inserts; empty for a deletion.
pub open spec fn insert_text(e: EditView) -> Seq<char> {
    match e {
        EditView::Insert { text, .. } => text,
        _ => Seq::empty(),
    }
}

/// Some edit is a block edit.
pub open spec fn has_block(edits: Seq<EditView>) -> bool {
    exists|i: int| 0 <= i < edits.len() && (#[trigger] edits[i]) is Block
}

/// The rows of the texts that a list of edits inserts.
pub open spec fn insert_rows(edits: Seq<EditView>) -> Seq<RowView> {
    rows::rows_of(Seq::new(edits.len(), |i: int| insert_text(edits[i])))
}

/// The outcome of applying edits to a text: the text afterwards, and the warnings. A
/// block edit, or an anchor outside the text, leaves the text as it is and is told of
/// in the only warning.
pub open spec fn applied(
    s: Seq<char>,
    edits: Seq<EditView>,
    block_starts: Map<usize, u32>,
) -> (Seq<char>, Seq<Seq<char>>) {
    if edits.len() == 0 {
        (s, Seq::empty())
    } else if has_block(edits) {
        (s, seq![UNRESOLVED_BLOCK_INTERNAL@])
    } else {
        match applied_rows(
            rows::rows_of(text::lines(s)),
            hunks::indexed(edits, insert_rows(edits), block_starts),
        ) {
            Ok((lines, warnings)) => (text::unlines(lines), warnings),
            Err(message) => (s, seq![message]),
        }
    }
}

pub fn contains_block(edits: &[Edit]) -> (r: bool)
    ensures
        r == has_block(views::all(edits@)),
{
    let ghost ve = views::all(edits@);
    for i in 0..edits.len()
        invariant
            ve == views::all(edits@),
            forall|j: int| 0 <= j < i ==> !((#[trigger] ve[j]) is Block),
    {
        assert(ve[i as int] == edits@[i as int]@);
        match &edits[i] {
            Edit::Block { .. } => {
                assert(ve[i as int] is Block);
                return true;
            },
            _ => {},
        }
    }
    false
}

fn insert_texts(edits: &[Edit]) -> (r: Vec<String>)
    ensures
        views::texts(r@) == Seq::new(edits@.len(), |i: int| insert_text(views::all(edits@)[i])),
        r@.len() == edits@.len(),
{
    let ghost ve = views::all(edits@);
    let ghost goal = Seq::new(edits@.len(), |i: int| insert_text(ve[i]));
    let mut out: Vec<String> = Vec::new();
    for i in 0..edits.len()
        invariant
            ve == views::all(edits@),
            goal == Seq::new(edits@.len(), |i: int| insert_text(ve[i])),
            out@.len() == i,
            views::texts(out@) == goal.take(i as int),
    {
        proof {
            views::lemma_take_step(goal, i as int);
            assert(ve[i as int] == edits@[i as int]@);
        }
        match &edits[i] {
            Edit::Insert { cursor, text, mode } => {
                out.push(text.clone());
            },
            Edit::Delete { anchor } => {
                out.push(String::new());
                assert(out@.last()@ =~= Seq::<char>::empty());
            },
            Edit::Block { anchor, payloads, mode } => {
                out.push(String::new());
                assert(out@.last()@ =~= Seq::<char>::empty());
            },
        }
    }
    proof {
        views::lemma_take_all(goal);
    }
    out
}

fn unchanged(s: &str, warnings: Vec<String>) -> (r: ApplyResult)
    ensures
        r.text@ == s@,
        r.warnings == warnings,
        r.first_changed_line is None,
        r.block_resolutions@ == Seq::<BlockResolution>::empty(),
{
    ApplyResult {
        text: text::owned(s),
        warnings,
        first_changed_line: None,
        block_resolutions: Vec::new(),
    }
}

/// Apply a parsed list of edits to a text.
///
/// Returns the text after the edits, and the warnings of the boundary repair and the
/// landing correction.
pub fn apply_edits(text: &str, edits: &[Edit]) -> (r: ApplyResult)
    ensures
        r.text@ == applied(text@, views::all(edits@), Map::empty()).0,
        views::texts(r.warnings@) == applied(text@, views::all(edits@), Map::empty()).1,
        r.first_changed_line is None,
        r.block_resolutions@ == Seq::<BlockResolution>::empty(),
{
    apply_edits_with_options(text, edits, &ApplyOptions::default())
}

/// Apply edits with caller-supplied block-resolution metadata.
pub fn apply_edits_with_options(text: &str, edits: &[Edit], options: &ApplyOptions) -> (r:
    ApplyResult)
    ensures
        r.text@ == applied(text@, views::all(edits@), options.block_starts@).0,
        views::texts(r.warnings@) == applied(
            text@,
            views::all(edits@),
            options.block_starts@,
        ).1,
        r.first_changed_line is None,
        r.block_resolutions@ == Seq::<BlockResolution>::empty(),
{
    if edits.len() == 0 {
        return unchanged(text, Vec::new());
    }
    if contains_block(edits) {
        let mut warnings: Vec<String> = Vec::new();
        warnings.push(crate::text::owned(UNRESOLVED_BLOCK_INTERNAL));
        proof {
            assert(views::texts(warnings@) =~= seq![UNRESOLVED_BLOCK_INTERNAL@]);
        }
        return unchanged(text, warnings);
    }
    let lines = crate::text::lines_of(text);
    let file = rows::classify(lines.as_slice());
    let texts = insert_texts(edits);
    let bodies = rows::classify(texts.as_slice());
    let ghost ve = views::all(edits@);
    proof {
        assert(views::all(bodies@) == insert_rows(ve));
        assert(views::all(bodies@).len() == bodies@.len());
    }
    let indexed = hunks::build_indexed_edits(edits, bodies.as_slice(), &options.block_starts);
    match apply_rows(file.as_slice(), indexed.as_slice()) {
        Ok((after, warnings)) => ApplyResult {
            text: crate::text::join_lines(after.as_slice()),
            warnings,
            first_changed_line: None,
            block_resolutions: Vec::new(),
        },
        Err(message) => {
            let ghost m = message@;
            let mut warnings: Vec<String> = Vec::new();
            warnings.push(message);
            proof {
                assert(views::texts(warnings@) =~= seq![m]);
            }
            unchanged(text, warnings)
        },
    }
}

} // verus!
