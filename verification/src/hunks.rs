//! Row edits and the hunks they came from.
//!
//! The applier works on edits whose inserted lines are rows. Each edit also knows
//! which authored hunk it belongs to: rows of one hunk stand next to each other,
//! so hunks are recovered from the anchors and kinds of neighbouring edits.

use std::collections::HashMap;

use vstd::prelude::*;

use crate::rows::{Row, RowView};
use crate::types::{Cursor, Edit, EditView, InsertMode};
use crate::views;

verus! {

broadcast use crate::views::group_all;

/// An insertion of one row or the deletion of one line.
pub enum RowOp {
    Insert { cursor: Cursor, row: Row, mode: InsertMode },
    Delete { line: u32 },
}

/// The model of a [`RowOp`].
#[verifier::ext_equal]
pub enum RowOpView {
    Insert { cursor: Cursor, row: RowView, mode: InsertMode },
    Delete { line: u32 },
}

impl View for RowOp {
    type V = RowOpView;

    open spec fn view(&self) -> RowOpView {
        match self {
            RowOp::Insert { cursor, row, mode } => RowOpView::Insert {
                cursor: *cursor,
                row: row@,
                mode: *mode,
            },
            RowOp::Delete { line } => RowOpView::Delete { line: *line },
        }
    }
}

/// A row operation in its hunk.
pub struct RowEdit {
    pub op: RowOp,
    /// The first line of the block an insert was placed behind, when it came from
    /// `INS.BLK.POST`.
    pub block_start: Option<u32>,
    /// Which authored hunk the edit belongs to.
    pub hunk: usize,
}

/// The model of a [`RowEdit`].
#[verifier::ext_equal]
pub struct RowEditView {
    pub op: RowOpView,
    pub block_start: Option<u32>,
    pub hunk: usize,
}

impl View for RowEdit {
    type V = RowEditView;

    open spec fn view(&self) -> RowEditView {
        RowEditView { op: self.op@, block_start: self.block_start, hunk: self.hunk }
    }
}

impl RowEdit {
    /// Copy a row edit.
    pub fn copy(&self) -> (r: RowEdit)
        ensures
            r@ == self@,
    {
        let op = match &self.op {
            RowOp::Insert { cursor, row, mode } => RowOp::Insert {
                cursor: *cursor,
                row: row.copy(),
                mode: *mode,
            },
            RowOp::Delete { line } => RowOp::Delete { line: *line },
        };
        RowEdit { op, block_start: self.block_start, hunk: self.hunk }
    }
}

/// Append copies of `from[a..b]` to `out`.
pub fn append_edits(out: &mut Vec<RowEdit>, from: &[RowEdit], a: usize, b: usize)
    requires
        a <= b <= from@.len(),
    ensures
        views::all(final(out)@) == views::all(old(out)@) + views::all(from@).subrange(
            a as int,
            b as int,
        ),
{
    let ghost start = views::all(out@);
    let ghost src = views::all(from@);
    assert(start + src.subrange(a as int, a as int) =~= start);
    for i in a..b
        invariant
            a <= b <= from@.len(),
            src == views::all(from@),
            views::all(out@) == start + src.subrange(a as int, i as int),
    {
        out.push(from[i].copy());
        proof {
            assert(start + src.subrange(a as int, i + 1) =~= (start + src.subrange(
                a as int,
                i as int,
            )).push(src[i as int]));
        }
    }
}

impl RowOpView {
    /// The line an operation is anchored on; inserts at the ends of the file have none.
    pub open spec fn anchored(self) -> Option<u32> {
        match self {
            RowOpView::Insert { cursor, .. } => cursor.anchored(),
            RowOpView::Delete { line } => Some(line),
        }
    }
}

impl RowOp {
    /// The line an operation is anchored on; inserts at the ends of the file have none.
    pub fn anchor_line(&self) -> (r: Option<u32>)
        ensures
            r == self@.anchored(),
    {
        match self {
            RowOp::Insert { cursor, .. } => cursor.anchor_line(),
            RowOp::Delete { line } => Some(*line),
        }
    }
}

// ── From edits to row edits ──────────────────────────────────────────────

/// What tells the hunks of neighbouring edits apart.
#[derive(Clone, Copy)]
pub enum Kind {
    /// A row of a replacement body.
    Replacement,
    /// A row of a plain insertion.
    Insertion,
    Deletion,
}

/// The anchor line (0 at the ends of the file) and the kind of an operation.
pub open spec fn signature(op: RowOpView) -> (u32, Kind) {
    match op {
        RowOpView::Insert { cursor, mode, .. } => (
            match cursor.anchored() {
                Some(l) => l,
                None => 0,
            },
            match mode {
                InsertMode::Replacement => Kind::Replacement,
                InsertMode::Insert => Kind::Insertion,
            },
        ),
        RowOpView::Delete { line } => (line, Kind::Deletion),
    }
}

fn signature_of(op: &RowOp) -> (r: (u32, Kind))
    ensures
        r == signature(op@),
{
    match op {
        RowOp::Insert { cursor, mode, .. } => (
            match cursor.anchor_line() {
                Some(l) => l,
                None => 0,
            },
            match mode {
                InsertMode::Replacement => Kind::Replacement,
                InsertMode::Insert => Kind::Insertion,
            },
        ),
        RowOp::Delete { line } => (*line, Kind::Deletion),
    }
}

/// `next` goes on with the hunk of `prev`: rows of one body share their anchor, the
/// first delete behind a replacement body belongs to it, and deletes of one range
/// stand on consecutive lines.
pub open spec fn same_hunk(prev: (u32, Kind), next: (u32, Kind)) -> bool {
    match (prev.1, next.1) {
        (Kind::Replacement, Kind::Replacement) => next.0 == prev.0,
        (Kind::Replacement, Kind::Deletion) => true,
        (Kind::Deletion, Kind::Deletion) => next.0 == prev.0 + 1,
        (Kind::Insertion, Kind::Insertion) => next.0 == prev.0,
        _ => false,
    }
}

fn continues(prev: (u32, Kind), next: (u32, Kind)) -> (r: bool)
    ensures
        r == same_hunk(prev, next),
{
    match (prev.1, next.1) {
        (Kind::Replacement, Kind::Replacement) => next.0 == prev.0,
        (Kind::Replacement, Kind::Deletion) => true,
        (Kind::Deletion, Kind::Deletion) => next.0 as u64 == prev.0 as u64 + 1,
        (Kind::Insertion, Kind::Insertion) => next.0 == prev.0,
        _ => false,
    }
}

/// The operation of an edit whose inserted text, if any, has the row `row`. Block
/// edits have none of their own; they are resolved before edits are applied.
pub open spec fn op_of(edit: EditView, row: RowView) -> RowOpView {
    match edit {
        EditView::Insert { cursor, mode, .. } => RowOpView::Insert { cursor, row, mode },
        EditView::Delete { anchor } => RowOpView::Delete { line: anchor.line },
        EditView::Block { anchor, .. } => RowOpView::Delete { line: anchor.line },
    }
}

/// The hunk number of the last of `ops`: the number of hunks that end before it.
pub open spec fn hunk_number(ops: Seq<RowOpView>) -> nat
    decreases ops.len(),
{
    if ops.len() <= 1 {
        0
    } else {
        let before = hunk_number(ops.drop_last());
        if same_hunk(signature(ops[ops.len() - 2]), signature(ops.last())) {
            before
        } else {
            before + 1
        }
    }
}

/// The operations of a list of edits with the rows of their texts.
pub open spec fn ops_of(edits: Seq<EditView>, rows: Seq<RowView>) -> Seq<RowOpView> {
    Seq::new(edits.len(), |i: int| op_of(edits[i], rows[i]))
}

/// Edits as row edits: each with its operation, its hunk, and the block start that
/// `block_starts` holds for its position.
pub open spec fn indexed(
    edits: Seq<EditView>,
    rows: Seq<RowView>,
    block_starts: Map<usize, u32>,
) -> Seq<RowEditView> {
    Seq::new(
        edits.len(),
        |i: int|
            RowEditView {
                op: op_of(edits[i], rows[i]),
                block_start: if block_starts.dom().contains(i as usize) {
                    Some(block_starts[i as usize])
                } else {
                    None
                },
                hunk: hunk_number(ops_of(edits, rows).take(i + 1)) as usize,
            },
    )
}

/// See [`indexed`].
pub fn build_indexed_edits(
    edits: &[Edit],
    rows: &[Row],
    block_starts: &HashMap<usize, u32>,
) -> (r: Vec<RowEdit>)
    requires
        edits@.len() == rows@.len(),
    ensures
        views::all(r@) == indexed(views::all(edits@), views::all(rows@), block_starts@),
{
    broadcast use vstd::std_specs::hash::group_hash_axioms;

    let ghost ve = views::all(edits@);
    let ghost vr = views::all(rows@);
    let ghost ops = ops_of(ve, vr);
    let mut out: Vec<RowEdit> = Vec::new();
    let mut hunk: usize = 0;
    let mut prev: Option<(u32, Kind)> = None;
    for i in 0..edits.len()
        invariant
            edits@.len() == rows@.len(),
            ve == views::all(edits@),
            vr == views::all(rows@),
            ops == ops_of(ve, vr),
            hunk <= i,
            i > 0 ==> hunk == hunk_number(ops.take(i as int)),
            i == 0 ==> hunk == 0,
            prev == (if i == 0 {
                None
            } else {
                Some(signature(ops[i - 1]))
            }),
            views::all(out@) == indexed(ve, vr, block_starts@).take(i as int),
    {
        broadcast use vstd::std_specs::hash::group_hash_axioms;

        assert(ve[i as int] == edits@[i as int]@);
        assert(vr[i as int] == rows@[i as int]@);
        let op = match &edits[i] {
            Edit::Insert { cursor, text, mode } => RowOp::Insert {
                cursor: *cursor,
                row: rows[i].copy(),
                mode: *mode,
            },
            Edit::Delete { anchor } => RowOp::Delete { line: anchor.line },
            Edit::Block { anchor, payloads, mode } => RowOp::Delete { line: anchor.line },
        };
        assert(op@ == ops[i as int]);
        let sig = signature_of(&op);
        match prev {
            Some(p) => {
                if !continues(p, sig) {
                    hunk = hunk + 1;
                }
            },
            None => {},
        }
        proof {
            let t = ops.take(i + 1);
            assert(t.drop_last() =~= ops.take(i as int));
            assert(t.last() == ops[i as int]);
            assert(i > 0 ==> t[t.len() - 2] == ops[i - 1]);
            views::lemma_take_step(indexed(ve, vr, block_starts@), i as int);
        }
        let block_start = match block_starts.get(&i) {
            Some(b) => Some(*b),
            None => None,
        };
        out.push(RowEdit { op, block_start, hunk });
        prev = Some(sig);
    }
    proof {
        views::lemma_take_all(indexed(ve, vr, block_starts@));
    }
    out
}

// ── Replacement groups ───────────────────────────────────────────────────

/// A replacement: the inserts `start..start + inserts` of one body, then
/// `deletes` deletes of consecutive lines from `line` on.
#[derive(Clone, Copy)]
pub struct Group {
    pub start: usize,
    pub inserts: usize,
    pub deletes: usize,
    /// First deleted line (1-indexed).
    pub line: u32,
}

impl Group {
    /// Last deleted line (1-indexed).
    pub open spec fn end_line(self) -> int {
        self.line + self.deletes - 1
    }

    /// The position behind the group's last edit.
    pub open spec fn end(self) -> int {
        self.start + self.inserts + self.deletes
    }
}

/// `e` is a row of the replacement body of hunk `hunk` in front of line `line`.
pub open spec fn is_body_row(e: RowEditView, hunk: usize, line: u32) -> bool {
    e.hunk == hunk && match e.op {
        RowOpView::Insert { cursor: Cursor::BeforeAnchor(a), mode: InsertMode::Replacement, .. } =>
        a.line == line,
        _ => false,
    }
}

/// `e` deletes line `line` in hunk `hunk`.
pub open spec fn is_range_delete(e: RowEditView, hunk: usize, line: int) -> bool {
    e.hunk == hunk && match e.op {
        RowOpView::Delete { line: l } => l == line,
        _ => false,
    }
}

/// How many body rows follow each other from position `i` on.
pub open spec fn body_run(edits: Seq<RowEditView>, i: int, hunk: usize, line: u32) -> int
    decreases edits.len() - i,
{
    if 0 <= i < edits.len() && is_body_row(edits[i], hunk, line) {
        1 + body_run(edits, i + 1, hunk, line)
    } else {
        0
    }
}

/// How many deletes of consecutive lines follow each other from position `i` on.
pub open spec fn delete_run(edits: Seq<RowEditView>, i: int, hunk: usize, line: int) -> int
    decreases edits.len() - i,
{
    if 0 <= i < edits.len() && is_range_delete(edits[i], hunk, line) {
        1 + delete_run(edits, i + 1, hunk, line + 1)
    } else {
        0
    }
}

pub proof fn lemma_body_run(edits: Seq<RowEditView>, i: int, hunk: usize, line: u32)
    requires
        0 <= i <= edits.len(),
    ensures
        0 <= body_run(edits, i, hunk, line) <= edits.len() - i,
        forall|j: int|
            i <= j < i + body_run(edits, i, hunk, line) ==> is_body_row(
                #[trigger] edits[j],
                hunk,
                line,
            ),
    decreases edits.len() - i,
{
    if i < edits.len() && is_body_row(edits[i], hunk, line) {
        lemma_body_run(edits, i + 1, hunk, line);
    }
}

pub proof fn lemma_delete_run(edits: Seq<RowEditView>, i: int, hunk: usize, line: int)
    requires
        0 <= i <= edits.len(),
    ensures
        0 <= delete_run(edits, i, hunk, line) <= edits.len() - i,
        forall|j: int|
            i <= j < i + delete_run(edits, i, hunk, line) ==> is_range_delete(
                #[trigger] edits[j],
                hunk,
                line + (j - i),
            ),
    decreases edits.len() - i,
{
    if i < edits.len() && is_range_delete(edits[i], hunk, line) {
        lemma_delete_run(edits, i + 1, hunk, line + 1);
        assert forall|j: int| i <= j < i + delete_run(edits, i, hunk, line) implies is_range_delete(
            #[trigger] edits[j],
            hunk,
            line + (j - i),
        ) by {
            if j > i {
                assert(is_range_delete(edits[j], hunk, (line + 1) + (j - (i + 1))));
            }
        }
    }
}

/// The replacement group that starts at position `i`: a run of body rows in front
/// of one line, immediately followed by at least one delete, the deletes taking
/// that line and the lines after it.
pub open spec fn group_at(edits: Seq<RowEditView>, i: int) -> Option<Group> {
    if !(0 <= i < edits.len()) {
        None
    } else {
        match edits[i].op {
            RowOpView::Insert {
                cursor: Cursor::BeforeAnchor(a),
                mode: InsertMode::Replacement,
                ..
            } => {
                let inserts = body_run(edits, i, edits[i].hunk, a.line);
                let deletes = delete_run(edits, i + inserts, edits[i].hunk, a.line as int);
                if deletes == 0 {
                    None
                } else {
                    Some(
                        Group {
                            start: i as usize,
                            inserts: inserts as usize,
                            deletes: deletes as usize,
                            line: a.line,
                        },
                    )
                }
            },
            _ => None,
        }
    }
}

/// Every anchor of `edits` names one of `n` lines.
pub open spec fn in_bounds(edits: Seq<RowEditView>, n: int) -> bool {
    forall|i: int|
        0 <= i < edits.len() ==> match (#[trigger] edits[i]).op.anchored() {
            Some(l) => 1 <= l <= n,
            None => true,
        }
}

/// `g` is made of edits of `edits` and of lines of a file with `n` lines.
pub open spec fn group_fits(g: Group, edits: Seq<RowEditView>, n: int) -> bool {
    &&& g.inserts >= 1
    &&& g.deletes >= 1
    &&& g.end() <= edits.len()
    &&& 1 <= g.line
    &&& g.end_line() <= n
    &&& g.end_line() <= u32::MAX
    &&& forall|j: int|
        g.start <= j < g.start + g.inserts ==> (#[trigger] edits[j]).op is Insert
    &&& forall|j: int|
        g.start + g.inserts <= j < g.end() ==> (#[trigger] edits[j]).op == (RowOpView::Delete {
            line: (g.line + (j - g.start - g.inserts)) as u32,
        })
}

pub proof fn lemma_group_fits(edits: Seq<RowEditView>, i: int, n: int)
    requires
        in_bounds(edits, n),
        edits.len() <= usize::MAX,
        group_at(edits, i) is Some,
    ensures
        group_fits(group_at(edits, i)->0, edits, n),
        group_at(edits, i)->0.start == i,
{
    let g = group_at(edits, i)->0;
    let hunk = edits[i].hunk;
    lemma_body_run(edits, i, hunk, g.line);
    let ins = body_run(edits, i, hunk, g.line);
    assert(is_body_row(edits[i], hunk, g.line));
    assert(ins >= 1);
    lemma_delete_run(edits, i + ins, hunk, g.line as int);
    let del = delete_run(edits, i + ins, hunk, g.line as int);
    let last = i + ins + del - 1;
    assert(is_range_delete(edits[last], hunk, g.line + (last - (i + ins))));
    assert(edits[last].op.anchored() is Some);
    assert(edits[i].op.anchored() == Some(g.line));
    assert forall|j: int| g.start <= j < g.start + g.inserts implies (#[trigger] edits[j]).op is Insert by {
        assert(is_body_row(edits[j], hunk, g.line));
    }
    assert forall|j: int| g.start + g.inserts <= j < g.end() implies (#[trigger] edits[j]).op
        == (RowOpView::Delete { line: (g.line + (j - g.start - g.inserts)) as u32 }) by {
        assert(is_range_delete(edits[j], hunk, g.line + (j - (i + ins))));
    }
}

/// See [`group_at`].
pub fn find_replacement_group(edits: &[RowEdit], start: usize) -> (r: Option<Group>)
    ensures
        r == group_at(views::all(edits@), start as int),
{
    let ghost ve = views::all(edits@);
    let n: usize = edits.len();
    if start >= n {
        return None;
    }
    assert(ve[start as int] == edits@[start as int]@);
    let hunk = edits[start].hunk;
    let line: u32 = match &edits[start].op {
        RowOp::Insert { cursor: Cursor::BeforeAnchor(a), mode: InsertMode::Replacement, .. } => a.line,
        _ => {
            return None;
        },
    };
    let mut i: usize = start;
    let mut more = true;
    while more
        invariant
            ve == views::all(edits@),
            n == edits@.len(),
            start <= i <= n,
            start < n,
            more ==> (i - start) + body_run(ve, i as int, hunk, line) == body_run(
                ve,
                start as int,
                hunk,
                line,
            ),
            !more ==> i - start == body_run(ve, start as int, hunk, line),
        decreases n - i, (if more { 1int } else { 0int }),
    {
        more = false;
        if i < n {
            assert(ve[i as int] == edits@[i as int]@);
            if edits[i].hunk == hunk {
                match &edits[i].op {
                    RowOp::Insert {
                        cursor: Cursor::BeforeAnchor(a),
                        mode: InsertMode::Replacement,
                        ..
                    } => {
                        if a.line == line {
                            i = i + 1;
                            more = true;
                        }
                    },
                    _ => {},
                }
            }
        }
    }
    let inserts: usize = i - start;
    let first: usize = i;
    let mut expected: u64 = line as u64;
    more = true;
    while more
        invariant
            ve == views::all(edits@),
            n == edits@.len(),
            first <= i <= n,
            expected == line + (i - first),
            more ==> (i - first) + delete_run(ve, i as int, hunk, expected as int) == delete_run(
                ve,
                first as int,
                hunk,
                line as int,
            ),
            !more ==> i - first == delete_run(ve, first as int, hunk, line as int),
        decreases n - i, (if more { 1int } else { 0int }),
    {
        more = false;
        if i < n {
            assert(ve[i as int] == edits@[i as int]@);
            if edits[i].hunk == hunk {
                match &edits[i].op {
                    RowOp::Delete { line: l } => {
                        if *l as u64 == expected {
                            i = i + 1;
                            expected = expected + 1;
                            more = true;
                        }
                    },
                    _ => {},
                }
            }
        }
    }
    if i == first {
        None
    } else {
        Some(Group { start, inserts, deletes: i - first, line })
    }
}

} // verus!
