//! Landing correction of after-inserts.
//!
//! The body of an insertion claims a depth by its indentation. An insertion whose
//! body is shallower than its anchor slides outward, past the closing lines behind
//! the anchor; an insertion behind a block whose body is deeper than the block's
//! closing line slides inward. A slide never crosses a closing line that another edit names.

use vstd::prelude::*;

use crate::hunks;
use crate::hunks::{RowEdit, RowEditView, RowOp, RowOpView};
use crate::messages;
use crate::rows;
use crate::rows::{has_non_whitespace, is_indent_deeper, leading_indent, Row, RowView};
use crate::text;
use crate::types::{Anchor, Cursor, InsertMode};
use crate::views;

verus! {

broadcast use {crate::views::group_all, crate::views::group_texts};

// ── Groups of after-inserts ──────────────────────────────────────────────

/// The anchor line and hunk of a plain insertion behind a line.
pub open spec fn after_key(e: RowEditView) -> Option<(u32, usize)> {
    match e.op {
        RowOpView::Insert { cursor: Cursor::AfterAnchor(a), mode: InsertMode::Insert, .. } => Some(
            (a.line, e.hunk),
        ),
        _ => None,
    }
}

fn key_of(e: &RowEdit) -> (r: Option<(u32, usize)>)
    ensures
        r == after_key(e@),
{
    match &e.op {
        RowOp::Insert { cursor: Cursor::AfterAnchor(a), mode: InsertMode::Insert, .. } => Some(
            (a.line, e.hunk),
        ),
        _ => None,
    }
}

/// The rows of the insertion with the given key, in order.
pub open spec fn body_rows(edits: Seq<RowEditView>, key: (u32, usize)) -> Seq<RowView>
    decreases edits.len(),
{
    if edits.len() == 0 {
        Seq::empty()
    } else {
        let rest = body_rows(edits.drop_last(), key);
        match edits.last().op {
            RowOpView::Insert { row, .. } => if after_key(edits.last()) == Some(key) {
                rest.push(row)
            } else {
                rest
            },
            _ => rest,
        }
    }
}

fn collect_body(edits: &[RowEdit], key: (u32, usize)) -> (r: Vec<Row>)
    ensures
        views::all(r@) == body_rows(views::all(edits@), key),
{
    let ghost ve = views::all(edits@);
    let mut out: Vec<Row> = Vec::new();
    for i in 0..edits.len()
        invariant
            ve == views::all(edits@),
            views::all(out@) == body_rows(ve.take(i as int), key),
    {
        proof {
            views::lemma_take_step(ve, i as int);
            assert(ve[i as int] == edits@[i as int]@);
        }
        match key_of(&edits[i]) {
            Some(k) => {
                if k.0 == key.0 && k.1 == key.1 {
                    match &edits[i].op {
                        RowOp::Insert { cursor, row, mode } => {
                            out.push(row.copy());
                        },
                        RowOp::Delete { line } => {},
                    }
                }
            },
            None => {},
        }
    }
    proof {
        views::lemma_take_all(ve);
    }
    out
}

/// The position of the first row with the given key, from `i` on.
pub open spec fn first_of(edits: Seq<RowEditView>, key: (u32, usize), i: int) -> int
    decreases edits.len() - i,
{
    if i < 0 || i >= edits.len() || after_key(edits[i]) == Some(key) {
        i
    } else {
        first_of(edits, key, i + 1)
    }
}

fn find_first(edits: &[RowEdit], key: (u32, usize), known: usize) -> (r: usize)
    requires
        known < edits@.len(),
        after_key(views::all(edits@)[known as int]) == Some(key),
    ensures
        r == first_of(views::all(edits@), key, 0),
        r <= known,
        after_key(views::all(edits@)[r as int]) == Some(key),
{
    let ghost ve = views::all(edits@);
    let mut i: usize = 0;
    while i < known
        invariant
            ve == views::all(edits@),
            i <= known < edits@.len(),
            after_key(ve[known as int]) == Some(key),
            first_of(ve, key, i as int) == first_of(ve, key, 0),
        decreases known - i,
    {
        assert(ve[i as int] == edits@[i as int]@);
        match key_of(&edits[i]) {
            Some(k) => {
                if k.0 == key.0 && k.1 == key.1 {
                    return i;
                }
            },
            None => {},
        }
        i = i + 1;
    }
    i
}

/// Some edit is anchored on `line`.
pub open spec fn targeted(edits: Seq<RowEditView>, line: int) -> bool {
    exists|i: int|
        0 <= i < edits.len() && match (#[trigger] edits[i]).op.anchored() {
            Some(l) => l == line,
            None => false,
        }
}

fn is_targeted(edits: &[RowEdit], line: u32) -> (r: bool)
    ensures
        r == targeted(views::all(edits@), line as int),
{
    let ghost ve = views::all(edits@);
    for i in 0..edits.len()
        invariant
            ve == views::all(edits@),
            forall|j: int|
                0 <= j < i ==> match (#[trigger] ve[j]).op.anchored() {
                    Some(l) => l != line,
                    None => true,
                },
    {
        assert(ve[i as int] == edits@[i as int]@);
        match edits[i].op.anchor_line() {
            Some(l) => {
                if l == line {
                    assert(ve[i as int].op.anchored() == Some(line));
                    return true;
                }
            },
            None => {},
        }
    }
    false
}

// ── Depth of a body ──────────────────────────────────────────────────────

/// The rows that are not blank.
pub open spec fn non_blank(body: Seq<RowView>) -> Seq<RowView>
    decreases body.len(),
{
    if body.len() == 0 {
        Seq::empty()
    } else {
        let rest = non_blank(body.drop_last());
        if rows::has_content(body.last().text) {
            rest.push(body.last())
        } else {
            rest
        }
    }
}

/// The shallowest indentation of the rows; none when two of them share no style.
pub open spec fn shallowest(body: Seq<RowView>) -> Option<Seq<char>>
    decreases body.len(),
{
    if body.len() == 0 {
        None
    } else if body.len() == 1 {
        Some(rows::indent(body[0].text))
    } else {
        match shallowest(body.drop_last()) {
            None => None,
            Some(t) => {
                let own = rows::indent(body.last().text);
                if text::has_prefix(own, t) {
                    Some(t)
                } else if text::has_prefix(t, own) {
                    Some(own)
                } else {
                    None
                }
            },
        }
    }
}

/// Every row is a structural closer.
pub open spec fn all_closers(body: Seq<RowView>) -> bool {
    forall|i: int| 0 <= i < body.len() ==> (#[trigger] body[i]).closer
}

/// The depth a body claims: the shallowest indentation of its rows that are not
/// blank. A body of nothing but closing lines claims none.
pub open spec fn target_indent(body: Seq<RowView>) -> Option<Seq<char>> {
    let full = non_blank(body);
    if all_closers(full) {
        None
    } else {
        shallowest(full)
    }
}

/// See [`target_indent`].
pub fn body_target_indent(body: &[Row]) -> (r: Option<String>)
    ensures
        views::opt_text(r) == target_indent(views::all(body@)),
{
    let ghost vb = views::all(body@);
    let mut seen = false;
    let mut closers = true;
    let mut target: Option<String> = None;
    let ghost mut got: Seq<RowView> = Seq::empty();
    for i in 0..body.len()
        invariant
            vb == views::all(body@),
            got == non_blank(vb.take(i as int)),
            closers == all_closers(got),
            views::opt_text(target) == shallowest(got),
            seen == (got.len() > 0),
    {
        proof {
            views::lemma_take_step(vb, i as int);
            assert(vb[i as int] == body@[i as int]@);
        }
        if has_non_whitespace(body[i].text.as_str()) {
            let ghost next = got.push(vb[i as int]);
            let own = leading_indent(body[i].text.as_str());
            proof {
                assert(next.drop_last() =~= got);
                assert(next.last() == vb[i as int]);
                if all_closers(got) && vb[i as int].closer {
                    assert forall|k: int| 0 <= k < next.len() implies (#[trigger] next[k]).closer by {
                        if k < got.len() {
                            assert(next[k] == got[k]);
                        }
                    }
                }
                if all_closers(next) {
                    assert(next[got.len() as int].closer);
                    assert forall|k: int| 0 <= k < got.len() implies (#[trigger] got[k]).closer by {
                        assert(got[k] == next[k]);
                    }
                }
            }
            closers = closers && body[i].closer;
            if !seen {
                target = Some(own);
            } else {
                target = match target {
                    None => None,
                    Some(t) => {
                        if text::starts_with(own.as_str(), t.as_str()) {
                            Some(t)
                        } else if text::starts_with(t.as_str(), own.as_str()) {
                            Some(own)
                        } else {
                            None
                        }
                    },
                };
            }
            seen = true;
            proof {
                got = next;
            }
        }
    }
    proof {
        views::lemma_take_all(vb);
    }
    if closers {
        None
    } else {
        target
    }
}

// ── Where a body lands ───────────────────────────────────────────────────

/// The last line that a slide may reach: line numbers have 32 bits.
pub open spec fn last_line(file: Seq<RowView>) -> int {
    if file.len() <= u32::MAX {
        file.len() as int
    } else {
        u32::MAX as int
    }
}

/// The outward slide from `line` on: blank lines are skipped, closing lines at or
/// below the target depth are crossed, the closing line of the target depth itself is
/// the last one. `None` when a closing line to be crossed is targeted.
pub open spec fn slide_out(
    edits: Seq<RowEditView>,
    file: Seq<RowView>,
    target: Seq<char>,
    line: int,
    landing: int,
    crossed: int,
) -> Option<(int, int)>
    decreases last_line(file) - line + 1,
{
    if line < 1 || line > last_line(file) {
        Some((landing, crossed))
    } else {
        let row = file[line - 1];
        let own = rows::indent(row.text);
        if !rows::has_content(row.text) {
            slide_out(edits, file, target, line + 1, landing, crossed)
        } else if !row.closer || !text::has_prefix(own, target) {
            Some((landing, crossed))
        } else if targeted(edits, line) {
            None
        } else if own.len() == target.len() {
            Some((line, crossed + 1))
        } else {
            slide_out(edits, file, target, line + 1, line, crossed + 1)
        }
    }
}

/// Where a body of depth `target` behind line `anchor` lands when it is shallower
/// than the anchor, and how many closing lines it crosses.
pub open spec fn outward(
    edits: Seq<RowEditView>,
    file: Seq<RowView>,
    anchor: int,
    target: Seq<char>,
) -> Option<(int, int)> {
    let row = file[anchor - 1];
    if !rows::has_content(row.text) || !rows::deeper_than(rows::indent(row.text), target) {
        None
    } else {
        match slide_out(edits, file, target, anchor + 1, anchor, 0) {
            Some((landing, crossed)) => if landing == anchor {
                None
            } else {
                Some((landing, crossed))
            },
            None => None,
        }
    }
}

fn resolve_shifted_landing(
    edits: &[RowEdit],
    file: &[Row],
    anchor: u32,
    target: &str,
) -> (r: Option<(u32, u32)>)
    requires
        1 <= anchor <= file@.len(),
    ensures
        match (r, outward(views::all(edits@), views::all(file@), anchor as int, target@)) {
            (Some(a), Some(b)) => a.0 == b.0 && a.1 == b.1 && 1 <= a.0 <= file@.len(),
            (None, None) => true,
            _ => false,
        },
{
    let ghost ve = views::all(edits@);
    let ghost vf = views::all(file@);
    let m: usize = file.len();
    let at: usize = anchor as usize - 1;
    assert(vf[at as int] == file@[at as int]@);
    if !has_non_whitespace(file[at].text.as_str()) {
        return None;
    }
    if !is_indent_deeper(leading_indent(file[at].text.as_str()).as_str(), target) {
        return None;
    }
    let ghost goal = slide_out(ve, vf, target@, anchor + 1, anchor as int, 0);
    let mut landing: u32 = anchor;
    let mut crossed: u32 = 0;
    let mut line: u32 = anchor;
    let mut more = true;
    while more && (line as usize) < m && line < u32::MAX
        invariant
            ve == views::all(edits@),
            vf == views::all(file@),
            m == file@.len(),
            1 <= line <= m,
            1 <= landing <= m,
            crossed <= line,
            more ==> slide_out(ve, vf, target@, line + 1, landing as int, crossed as int) == goal,
            !more ==> goal == Some((landing as int, crossed as int)),
            goal == slide_out(ve, vf, target@, anchor + 1, anchor as int, 0),
            outward(ve, vf, anchor as int, target@) == (match goal {
                Some((landing, crossed)) => if landing == anchor {
                    None
                } else {
                    Some((landing, crossed))
                },
                None => None,
            }),
        decreases m - line, (if more { 1int } else { 0int }),
    {
        line = line + 1;
        let at: usize = line as usize - 1;
        assert(vf[line - 1] == file@[line - 1]@);
        let row = &file[at];
        if has_non_whitespace(row.text.as_str()) {
            let own = leading_indent(row.text.as_str());
            if !row.closer || !text::starts_with(own.as_str(), target) {
                more = false;
            } else if is_targeted(edits, line) {
                return None;
            } else {
                landing = line;
                crossed = crossed + 1;
                if text::char_count(own.as_str()) == text::char_count(target) {
                    more = false;
                }
            }
        }
    }
    if landing == anchor {
        None
    } else {
        Some((landing, crossed))
    }
}

/// The inward slide from `line` up: blank lines and closing lines shallower than the
/// target are crossed, down to the block's first line. `None` when a closing line
/// to be crossed is targeted.
pub open spec fn slide_in(
    edits: Seq<RowEditView>,
    file: Seq<RowView>,
    target: Seq<char>,
    anchor: int,
    block_start: int,
    line: int,
    landing: int,
) -> Option<int>
    decreases line,
{
    if line <= block_start || line <= 1 {
        Some(landing)
    } else {
        let row = file[line - 1];
        if !rows::has_content(row.text) {
            slide_in(edits, file, target, anchor, block_start, line - 1, line - 1)
        } else if !row.closer || !rows::deeper_than(target, rows::indent(row.text)) {
            Some(landing)
        } else if line != anchor && targeted(edits, line) {
            None
        } else {
            slide_in(edits, file, target, anchor, block_start, line - 1, line - 1)
        }
    }
}

/// Where a body of depth `target` behind a block that ends on line `anchor` lands
/// when it is deeper than the block's closing line.
pub open spec fn inward(
    edits: Seq<RowEditView>,
    file: Seq<RowView>,
    anchor: int,
    target: Seq<char>,
    block_start: int,
) -> Option<int> {
    let row = file[anchor - 1];
    if !rows::has_content(row.text) || !row.closer || !rows::deeper_than(
        target,
        rows::indent(row.text),
    ) {
        None
    } else {
        match slide_in(edits, file, target, anchor, block_start, anchor, anchor) {
            Some(landing) => if landing == anchor {
                None
            } else {
                Some(landing)
            },
            None => None,
        }
    }
}

fn resolve_inward_landing(
    edits: &[RowEdit],
    file: &[Row],
    anchor: u32,
    target: &str,
    block_start: u32,
) -> (r: Option<u32>)
    requires
        1 <= anchor <= file@.len(),
    ensures
        match (
            r,
            inward(views::all(edits@), views::all(file@), anchor as int, target@, block_start as int),
        ) {
            (Some(a), Some(b)) => a == b && 1 <= a <= file@.len(),
            (None, None) => true,
            _ => false,
        },
{
    let ghost ve = views::all(edits@);
    let ghost vf = views::all(file@);
    let at: usize = anchor as usize - 1;
    assert(vf[at as int] == file@[at as int]@);
    if !has_non_whitespace(file[at].text.as_str()) || !file[at].closer {
        return None;
    }
    if !is_indent_deeper(target, leading_indent(file[at].text.as_str()).as_str()) {
        return None;
    }
    let ghost goal = slide_in(
        ve,
        vf,
        target@,
        anchor as int,
        block_start as int,
        anchor as int,
        anchor as int,
    );
    let mut landing: u32 = anchor;
    let mut line: u32 = anchor;
    let mut more = true;
    while more && line > block_start && line > 1
        invariant
            ve == views::all(edits@),
            vf == views::all(file@),
            1 <= line <= anchor <= file@.len(),
            1 <= landing <= anchor,
            goal == slide_in(
                ve,
                vf,
                target@,
                anchor as int,
                block_start as int,
                anchor as int,
                anchor as int,
            ),
            more ==> slide_in(
                ve,
                vf,
                target@,
                anchor as int,
                block_start as int,
                line as int,
                landing as int,
            ) == goal,
            !more ==> goal == Some(landing as int),
            inward(ve, vf, anchor as int, target@, block_start as int) == (match goal {
                Some(landing) => if landing == anchor {
                    None
                } else {
                    Some(landing)
                },
                None => None,
            }),
        decreases line, (if more { 1int } else { 0int }),
    {
        let at: usize = line as usize - 1;
        assert(vf[line - 1] == file@[line - 1]@);
        let row = &file[at];
        if has_non_whitespace(row.text.as_str()) {
            if !row.closer || !is_indent_deeper(
                target,
                leading_indent(row.text.as_str()).as_str(),
            ) {
                more = false;
            } else if line != anchor && is_targeted(edits, line) {
                return None;
            }
        }
        if more {
            line = line - 1;
            landing = line;
        }
    }
    if landing == anchor {
        None
    } else {
        Some(landing)
    }
}

// ── The correction ───────────────────────────────────────────────────────

/// The slide of the insertion whose first row is `edits[first]`: where it lands, and
/// the warning that says so.
pub open spec fn shift(edits: Seq<RowEditView>, file: Seq<RowView>, first: int) -> Option<
    (int, Seq<char>),
> {
    match after_key(edits[first]) {
        None => None,
        Some(key) => match target_indent(body_rows(edits, key)) {
            None => None,
            Some(target) => match outward(edits, file, key.0 as int, target) {
                Some((landing, crossed)) => Some(
                    (landing, messages::outward_warning(key.0, landing, crossed)),
                ),
                None => match edits[first].block_start {
                    None => None,
                    Some(b) => match inward(edits, file, key.0 as int, target, b as int) {
                        Some(landing) => Some((landing, messages::inward_warning(b, key.0, landing))),
                        None => None,
                    },
                },
            },
        },
    }
}

fn shift_of(edits: &[RowEdit], file: &[Row], first: usize) -> (r: Option<(u32, String)>)
    requires
        first < edits@.len(),
        hunks::in_bounds(views::all(edits@), file@.len() as int),
    ensures
        match (r, shift(views::all(edits@), views::all(file@), first as int)) {
            (Some(a), Some(b)) => a.0 == b.0 && a.1@ == b.1 && 1 <= a.0 <= file@.len(),
            (None, None) => true,
            _ => false,
        },
{
    let ghost ve = views::all(edits@);
    assert(ve[first as int] == edits@[first as int]@);
    let key = match key_of(&edits[first]) {
        Some(key) => key,
        None => {
            return None;
        },
    };
    assert(ve[first as int].op.anchored() == Some(key.0));
    let body = collect_body(edits, key);
    let target = match body_target_indent(body.as_slice()) {
        Some(t) => t,
        None => {
            return None;
        },
    };
    match resolve_shifted_landing(edits, file, key.0, target.as_str()) {
        Some((landing, crossed)) => {
            return Some(
                (landing, messages::after_insert_landing_shift_warning(key.0, landing, crossed)),
            );
        },
        None => {},
    }
    match edits[first].block_start {
        None => None,
        Some(b) => match resolve_inward_landing(edits, file, key.0, target.as_str(), b) {
            Some(landing) => Some((landing, messages::block_insert_landing_shift_warning(b, key.0, landing))),
            None => None,
        },
    }
}

/// A plain insertion moved behind line `landing`.
pub open spec fn moved(e: RowEditView, landing: int) -> RowEditView {
    match e.op {
        RowOpView::Insert { row, .. } => RowEditView {
            op: RowOpView::Insert {
                cursor: Cursor::AfterAnchor(Anchor { line: landing as u32 }),
                row,
                mode: InsertMode::Insert,
            },
            ..e
        },
        _ => e,
    }
}

/// The edit at position `i`, moved when its insertion slides.
pub open spec fn landed_edit(edits: Seq<RowEditView>, file: Seq<RowView>, i: int) -> RowEditView {
    match after_key(edits[i]) {
        None => edits[i],
        Some(key) => match shift(edits, file, first_of(edits, key, 0)) {
            Some((landing, _)) => moved(edits[i], landing),
            None => edits[i],
        },
    }
}

/// The edits after landing correction.
pub open spec fn landed(edits: Seq<RowEditView>, file: Seq<RowView>) -> Seq<RowEditView> {
    Seq::new(edits.len(), |i: int| landed_edit(edits, file, i))
}

/// One warning per insertion that slides, for those that begin among the first `n`
/// edits.
pub open spec fn landing_warnings(edits: Seq<RowEditView>, file: Seq<RowView>, n: int) -> Seq<
    Seq<char>,
>
    decreases n,
{
    if n <= 0 {
        Seq::empty()
    } else {
        let before = landing_warnings(edits, file, n - 1);
        match after_key(edits[n - 1]) {
            None => before,
            Some(key) => if first_of(edits, key, 0) == n - 1 {
                match shift(edits, file, n - 1) {
                    Some((_, warning)) => before.push(warning),
                    None => before,
                }
            } else {
                before
            },
        }
    }
}

/// See [`landed`] and [`landing_warnings`].
pub fn repair_after_insert_landings(edits: &[RowEdit], file: &[Row]) -> (r: (
    Vec<RowEdit>,
    Vec<String>,
))
    requires
        hunks::in_bounds(views::all(edits@), file@.len() as int),
    ensures
        views::all(r.0@) == landed(views::all(edits@), views::all(file@)),
        views::texts(r.1@) == landing_warnings(
            views::all(edits@),
            views::all(file@),
            edits@.len() as int,
        ),
        hunks::in_bounds(views::all(r.0@), file@.len() as int),
{
    let ghost ve = views::all(edits@);
    let ghost vf = views::all(file@);
    let ghost goal = landed(ve, vf);
    let mut out: Vec<RowEdit> = Vec::new();
    let mut warnings: Vec<String> = Vec::new();
    let mut landings: Vec<Option<u32>> = Vec::new();
    for i in 0..edits.len()
        invariant
            ve == views::all(edits@),
            vf == views::all(file@),
            goal == landed(ve, vf),
            hunks::in_bounds(ve, file@.len() as int),
            out@.len() == i,
            landings@.len() == i,
            views::all(out@) == goal.take(i as int),
            views::texts(warnings@) == landing_warnings(ve, vf, i as int),
            forall|j: int|
                0 <= j < i && after_key(ve[j]) is Some && first_of(ve, after_key(ve[j])->0, 0) == j
                    ==> match (#[trigger] landings@[j], shift(ve, vf, j)) {
                    (Some(a), Some(b)) => a == b.0 && 1 <= a <= file@.len(),
                    (None, None) => true,
                    _ => false,
                },
            hunks::in_bounds(views::all(out@), file@.len() as int),
    {
        let ghost before = views::all(out@);
        proof {
            views::lemma_take_step(goal, i as int);
            assert(ve[i as int] == edits@[i as int]@);
        }
        let mut landing: Option<u32> = None;
        match key_of(&edits[i]) {
            Some(key) => {
                let first: usize = find_first(edits, key, i);
                if first == i {
                    match shift_of(edits, file, i) {
                        Some((to, warning)) => {
                            warnings.push(warning);
                            landing = Some(to);
                        },
                        None => {},
                    }
                } else {
                    assert(first_of(ve, after_key(ve[first as int])->0, 0) == first);
                    landing = landings[first];
                }
            },
            None => {},
        }
        let mut edit = edits[i].copy();
        match landing {
            Some(to) => {
                edit.op = match edit.op {
                    RowOp::Insert { cursor, row, mode } => RowOp::Insert {
                        cursor: Cursor::AfterAnchor(Anchor { line: to }),
                        row,
                        mode: InsertMode::Insert,
                    },
                    RowOp::Delete { line } => RowOp::Delete { line },
                };
            },
            None => {},
        }
        assert(edit@ == goal[i as int]);
        proof {
            let now = before.push(edit@);
            assert forall|k: int| 0 <= k < now.len() implies match (
            #[trigger] now[k]).op.anchored() {
                Some(l) => 1 <= l <= file@.len(),
                None => true,
            } by {
                if k < before.len() {
                    assert(now[k] == before[k]);
                } else {
                    assert(now[k] == edit@);
                    assert(ve[i as int].op.anchored() matches Some(l) ==> 1 <= l <= file@.len());
                }
            }
        }
        landings.push(landing);
        out.push(edit);
    }
    proof {
        views::lemma_take_all(goal);
    }
    (out, warnings)
}

} // verus!
