//! Recovery from a stale section tag.
//!
//! The edits are replayed against the version the tag names and merged onto the live
//! content; or the stale anchors are moved along with the lines that did not change; or
//! the edits are replayed on the live content when their anchors read the same there.

use std::collections::HashMap;

use vstd::prelude::*;

use crate::apply;
use crate::apply::apply_edits;
use crate::diff_preview;
use crate::diff_preview::diff_changes;
use crate::effects;
use crate::engines;
use crate::engines::{Change, ChangeKind};
use crate::messages::{
    RECOVERY_EXTERNAL_WARNING, RECOVERY_LINE_REMAP_WARNING, RECOVERY_SESSION_CHAIN_WARNING,
    RECOVERY_SESSION_REPLAY_WARNING,
};
use crate::snapshots;
use crate::snapshots::{InMemorySnapshotStore, SnapshotView, StoreView};
use crate::text;
use crate::types::{Anchor, ApplyResult, Cursor, Edit, EditView};
use crate::views;

verus! {

broadcast use {crate::views::group_all, crate::views::group_texts};

/// How far a hunk may be off. Section tags are line-precise: a patch never slides onto a
/// like-looking line elsewhere. What does not align exactly is refused.
pub const RECOVERY_FUZZ_FACTOR: usize = 0;

/// How many unchanged lines around a change must agree.
pub const RECOVERY_CONTEXT: usize = 3;

/// Arguments for a recovery attempt.
pub struct RecoveryArgs<'a> {
    pub path: &'a str,
    pub current_text: &'a str,
    pub file_hash: &'a str,
    pub edits: &'a [Edit],
}

/// Result of a successful recovery.
#[derive(Debug, Clone)]
pub struct RecoveryResult {
    /// Post-recovery text.
    pub text: String,
    /// First changed line (1-indexed) relative to the live text, or `None`.
    pub first_changed_line: Option<u32>,
    /// Warnings collected during recovery, the banner first.
    pub warnings: Vec<String>,
}

/// The model of a [`RecoveryResult`].
#[verifier::ext_equal]
pub struct RecoveryResultView {
    pub text: Seq<char>,
    pub first_changed_line: Option<u32>,
    pub warnings: Seq<Seq<char>>,
}

impl View for RecoveryResult {
    type V = RecoveryResultView;

    open spec fn view(&self) -> RecoveryResultView {
        RecoveryResultView {
            text: self.text@,
            first_changed_line: self.first_changed_line,
            warnings: views::texts(self.warnings@),
        }
    }
}

/// The model of an optional [`RecoveryResult`].
pub open spec fn opt_result(o: Option<RecoveryResult>) -> Option<RecoveryResultView> {
    match o {
        Some(r) => Some(r@),
        None => None,
    }
}

// ── First changed line ───────────────────────────────────────────────────

/// The first position from `i` on at which two lists of lines differ.
pub open spec fn first_difference(a: Seq<Seq<char>>, b: Seq<Seq<char>>, i: int) -> Option<int>
    decreases (if a.len() > b.len() { a.len() } else { b.len() }) - i,
{
    if i < 0 || (i >= a.len() && i >= b.len()) {
        None
    } else if i >= a.len() || i >= b.len() || a[i] != b[i] {
        Some(i)
    } else {
        first_difference(a, b, i + 1)
    }
}

/// First 1-indexed line at which two texts diverge, `None` if they are equal.
pub open spec fn first_changed(a: Seq<char>, b: Seq<char>) -> Option<u32> {
    match first_difference(text::lines(a), text::lines(b), 0) {
        Some(i) => Some((i + 1) as u32),
        None => None,
    }
}

/// See [`first_changed`].
pub fn find_first_changed_line(a: &str, b: &str) -> (r: Option<u32>)
    ensures
        r == first_changed(a@, b@),
{
    let la = text::lines_of(a);
    let lb = text::lines_of(b);
    let ghost va = text::lines(a@);
    let ghost vb = text::lines(b@);
    let mut i: usize = 0;
    while i < la.len() || i < lb.len()
        invariant
            va == views::texts(la@),
            vb == views::texts(lb@),
            va == text::lines(a@),
            vb == text::lines(b@),
            i <= la@.len() || i <= lb@.len(),
            first_difference(va, vb, i as int) == first_difference(va, vb, 0),
        decreases la@.len() + lb@.len() - i,
    {
        if i >= la.len() || i >= lb.len() {
            return Some((i + 1) as u32);
        }
        assert(va[i as int] == la@[i as int]@ && vb[i as int] == lb@[i as int]@);
        if la[i] != lb[i] {
            return Some((i + 1) as u32);
        }
        i = i + 1;
    }
    None
}

// ── Structured patches ───────────────────────────────────────────────────

/// A hunk: the lines it expects, from which position on, and the lines it puts there.
pub struct PatchHunk {
    /// How many old lines stand in front of the hunk.
    pub start: usize,
    pub old_lines: Vec<String>,
    pub new_lines: Vec<String>,
}

/// The model of a [`PatchHunk`].
#[verifier::ext_equal]
pub struct PatchHunkView {
    pub start: int,
    pub old_lines: Seq<Seq<char>>,
    pub new_lines: Seq<Seq<char>>,
}

impl View for PatchHunk {
    type V = PatchHunkView;

    open spec fn view(&self) -> PatchHunkView {
        PatchHunkView {
            start: self.start as int,
            old_lines: views::texts(self.old_lines@),
            new_lines: views::texts(self.new_lines@),
        }
    }
}

/// The end of the run of unchanged lines from `i` on.
pub open spec fn equal_end(ops: Seq<(ChangeKind, Seq<char>)>, i: int) -> int
    decreases ops.len() - i,
{
    if 0 <= i < ops.len() && ops[i].0 == ChangeKind::Equal {
        equal_end(ops, i + 1)
    } else {
        i
    }
}

proof fn lemma_equal_end(ops: Seq<(ChangeKind, Seq<char>)>, i: int)
    requires
        0 <= i <= ops.len(),
    ensures
        i <= equal_end(ops, i) <= ops.len(),
        i < ops.len() && ops[i].0 == ChangeKind::Equal ==> equal_end(ops, i) > i,
    decreases ops.len() - i,
{
    if i < ops.len() && ops[i].0 == ChangeKind::Equal {
        lemma_equal_end(ops, i + 1);
    }
}

/// The end of a group of changes, from `i` on: changes belong to it, and so do up to
/// `2 * context` unchanged lines between two of them. It ends behind its last change.
pub open spec fn group_end(ops: Seq<(ChangeKind, Seq<char>)>, i: int, context: int) -> int
    decreases ops.len() - i,
{
    if !(0 <= i < ops.len()) {
        i
    } else if ops[i].0 != ChangeKind::Equal {
        group_end(ops, i + 1, context)
    } else {
        let e = equal_end(ops, i);
        if !(i < e < ops.len()) || e - i > 2 * context {
            i
        } else {
            group_end(ops, e, context)
        }
    }
}

proof fn lemma_group_end(ops: Seq<(ChangeKind, Seq<char>)>, i: int, context: int)
    requires
        0 <= i <= ops.len(),
    ensures
        i <= group_end(ops, i, context) <= ops.len(),
        i < ops.len() && ops[i].0 != ChangeKind::Equal ==> group_end(ops, i, context) > i,
    decreases ops.len() - i,
{
    if i < ops.len() {
        if ops[i].0 != ChangeKind::Equal {
            lemma_group_end(ops, i + 1, context);
        } else {
            lemma_equal_end(ops, i);
            let e = equal_end(ops, i);
            if e < ops.len() && e - i <= 2 * context {
                lemma_group_end(ops, e, context);
            }
        }
    }
}

/// The hunk of a group of changes, with up to `context` unchanged lines on either side.
pub open spec fn hunk_of(
    ops: Seq<(ChangeKind, Seq<char>)>,
    from: int,
    to: int,
    context: int,
) -> PatchHunkView {
    let a = if from > context {
        from - context
    } else {
        0
    };
    let b = if to + context < ops.len() {
        to + context
    } else {
        ops.len() as int
    };
    PatchHunkView {
        start: engines::old_side(ops.take(a)).len() as int,
        old_lines: engines::old_side(ops.subrange(a, b)),
        new_lines: engines::new_side(ops.subrange(a, b)),
    }
}

/// The hunks of a difference, from position `i` on.
pub open spec fn hunks_from(
    ops: Seq<(ChangeKind, Seq<char>)>,
    i: int,
    context: int,
) -> Seq<PatchHunkView>
    decreases ops.len() - i,
{
    if !(0 <= i < ops.len()) {
        Seq::empty()
    } else if ops[i].0 == ChangeKind::Equal {
        hunks_from(ops, i + 1, context)
    } else {
        let e = group_end(ops, i, context);
        if i < e <= ops.len() {
            seq![hunk_of(ops, i, e, context)] + hunks_from(ops, e, context)
        } else {
            Seq::empty()
        }
    }
}

fn sides(ops: &[Change], a: usize, b: usize) -> (r: (Vec<String>, Vec<String>))
    requires
        a <= b <= ops@.len(),
    ensures
        views::texts(r.0@) == engines::old_side(
            engines::changes_view(ops@).subrange(a as int, b as int),
        ),
        views::texts(r.1@) == engines::new_side(
            engines::changes_view(ops@).subrange(a as int, b as int),
        ),
{
    let ghost part = engines::changes_view(ops@).subrange(a as int, b as int);
    let mut from: Vec<String> = Vec::new();
    let mut to: Vec<String> = Vec::new();
    for i in a..b
        invariant
            a <= b <= ops@.len(),
            part == engines::changes_view(ops@).subrange(a as int, b as int),
            views::texts(from@) == engines::old_side(part.take(i - a)),
            views::texts(to@) == engines::new_side(part.take(i - a)),
    {
        proof {
            views::lemma_take_step(part, i - a);
        }
        let c = &ops[i];
        match c.kind {
            ChangeKind::Equal => {
                from.push(c.text.clone());
                to.push(c.text.clone());
            },
            ChangeKind::Delete => {
                from.push(c.text.clone());
            },
            ChangeKind::Insert => {
                to.push(c.text.clone());
            },
        }
    }
    proof {
        views::lemma_take_all(part);
    }
    (from, to)
}

fn count_old(ops: &[Change], n: usize) -> (r: usize)
    requires
        n <= ops@.len(),
    ensures
        r == engines::old_side(engines::changes_view(ops@).take(n as int)).len(),
        r <= n,
{
    let ghost vo = engines::changes_view(ops@);
    let mut k: usize = 0;
    for i in 0..n
        invariant
            n <= ops@.len(),
            vo == engines::changes_view(ops@),
            k == engines::old_side(vo.take(i as int)).len(),
            k <= i,
    {
        proof {
            views::lemma_take_step(vo, i as int);
        }
        match ops[i].kind {
            ChangeKind::Insert => {},
            _ => {
                k = k + 1;
            },
        }
    }
    k
}

fn find_group_end(ops: &[Change], start: usize, context: usize) -> (r: usize)
    requires
        start < ops@.len(),
        ops@[start as int].kind != ChangeKind::Equal,
    ensures
        r == group_end(engines::changes_view(ops@), start as int, context as int),
        start < r <= ops@.len(),
{
    let ghost vo = engines::changes_view(ops@);
    let n: usize = ops.len();
    let mut j: usize = start;
    proof {
        lemma_group_end(vo, start as int, context as int);
    }
    while j < n
        invariant
            n == ops@.len(),
            vo == engines::changes_view(ops@),
            start <= j <= n,
            start < n,
            group_end(vo, j as int, context as int) == group_end(
                vo,
                start as int,
                context as int,
            ),
            start < group_end(vo, start as int, context as int) <= n,
        decreases n - j,
    {
        let equal = match ops[j].kind {
            ChangeKind::Equal => true,
            _ => false,
        };
        if !equal {
            j = j + 1;
        } else {
            let from: usize = j;
            proof {
                lemma_equal_end(vo, from as int);
            }
            let mut more = true;
            while more && j < n
                invariant
                    n == ops@.len(),
                    vo == engines::changes_view(ops@),
                    from <= j <= n,
                    equal_end(vo, j as int) == equal_end(vo, from as int),
                    !more ==> equal_end(vo, j as int) == j,
                decreases n - j, (if more { 1int } else { 0int }),
            {
                match ops[j].kind {
                    ChangeKind::Equal => {
                        j = j + 1;
                    },
                    _ => {
                        more = false;
                    },
                }
            }
            assert(j == equal_end(vo, from as int));
            let run: usize = j - from;
            if j == n || (run - 1) / 2 >= context {
                return from;
            }
        }
    }
    j
}

/// Find the hunks of a difference. See [`hunks_from`].
pub fn build_hunks_with_context(ops: &[Change], context: usize) -> (r: Vec<PatchHunk>)
    ensures
        views::all(r@) == hunks_from(engines::changes_view(ops@), 0, context as int),
{
    let ghost vo = engines::changes_view(ops@);
    let ghost goal = hunks_from(vo, 0, context as int);
    let n: usize = ops.len();
    let mut out: Vec<PatchHunk> = Vec::new();
    let mut i: usize = 0;
    assert(views::all(out@) + goal =~= goal);
    while i < n
        invariant
            n == ops@.len(),
            vo == engines::changes_view(ops@),
            i <= n,
            goal == hunks_from(vo, 0, context as int),
            views::all(out@) + hunks_from(vo, i as int, context as int) == goal,
        decreases n - i,
    {
        let equal = match ops[i].kind {
            ChangeKind::Equal => true,
            _ => false,
        };
        if equal {
            i = i + 1;
        } else {
            let e: usize = find_group_end(ops, i, context);
            let a: usize = if i > context {
                i - context
            } else {
                0
            };
            let b: usize = if context < n - e {
                e + context
            } else {
                n
            };
            let (old_lines, new_lines) = sides(ops, a, b);
            let hunk = PatchHunk { start: count_old(ops, a), old_lines, new_lines };
            let ghost done = views::all(out@);
            proof {
                assert(hunk@ == hunk_of(vo, i as int, e as int, context as int));
                let rest = hunks_from(vo, e as int, context as int);
                assert(done.push(hunk@) + rest =~= done + (seq![hunk@] + rest));
            }
            out.push(hunk);
            i = e;
        }
    }
    assert(views::all(out@) =~= goal);
    out
}

/// The target after the first hunks, as far as they reach: the lines written, and how
/// many target lines are used up. `None` when a hunk does not stand exactly where it
/// should.
pub open spec fn hunks_applied(hunks: Seq<PatchHunkView>, target: Seq<Seq<char>>) -> Option<
    (Seq<Seq<char>>, int),
>
    decreases hunks.len(),
{
    if hunks.len() == 0 {
        Some((Seq::empty(), 0))
    } else {
        match hunks_applied(hunks.drop_last(), target) {
            None => None,
            Some((done, pos)) => {
                let h = hunks.last();
                let end = h.start + h.old_lines.len();
                if h.start < pos || end > target.len() || target.subrange(h.start, end)
                    != h.old_lines {
                    None
                } else {
                    Some((done + target.subrange(pos, h.start) + h.new_lines, end))
                }
            },
        }
    }
}

/// The target with hunks applied; `None` without hunks, or when one of them cannot be
/// placed exactly.
pub open spec fn patched(hunks: Seq<PatchHunkView>, target: Seq<Seq<char>>) -> Option<
    Seq<Seq<char>>,
> {
    if hunks.len() == 0 {
        None
    } else {
        match hunks_applied(hunks, target) {
            Some((done, pos)) => Some(done + target.skip(pos)),
            None => None,
        }
    }
}

fn append_range(out: &mut Vec<String>, lines: &[String], a: usize, b: usize)
    requires
        a <= b <= lines@.len(),
    ensures
        views::texts(final(out)@) == views::texts(old(out)@) + views::texts(lines@).subrange(
            a as int,
            b as int,
        ),
{
    let ghost start = views::texts(out@);
    let ghost vl = views::texts(lines@);
    assert(start + vl.subrange(a as int, a as int) =~= start);
    for i in a..b
        invariant
            a <= b <= lines@.len(),
            vl == views::texts(lines@),
            views::texts(out@) == start + vl.subrange(a as int, i as int),
    {
        proof {
            assert(start + vl.subrange(a as int, i + 1) =~= (start + vl.subrange(
                a as int,
                i as int,
            )).push(vl[i as int]));
        }
        out.push(lines[i].clone());
    }
}

fn reads_at(target: &[String], at: usize, lines: &[String]) -> (r: bool)
    requires
        at + lines@.len() <= target@.len(),
    ensures
        r == (views::texts(target@).subrange(at as int, at + lines@.len()) == views::texts(lines@)),
{
    let ghost vt = views::texts(target@);
    let ghost vl = views::texts(lines@);
    let ghost part = vt.subrange(at as int, at + lines@.len());
    let n: usize = target.len();
    for i in 0..lines.len()
        invariant
            n == target@.len(),
            at + lines@.len() <= n,
            vt == views::texts(target@),
            vl == views::texts(lines@),
            part == vt.subrange(at as int, at + lines@.len()),
            forall|j: int| 0 <= j < i ==> #[trigger] part[j] == vl[j],
    {
        assert(part[i as int] == target@[at + i]@ && vl[i as int] == lines@[i as int]@);
        if target[at + i] != lines[i] {
            assert(part[i as int] != vl[i as int]);
            return false;
        }
    }
    assert(part =~= vl);
    true
}

/// Apply hunks to the lines of a target. See [`patched`].
pub fn apply_hunks(hunks: &[PatchHunk], target: &[String]) -> (r: Option<Vec<String>>)
    ensures
        match (r, patched(views::all(hunks@), views::texts(target@))) {
            (Some(a), Some(b)) => views::texts(a@) == b,
            (None, None) => true,
            _ => false,
        },
{
    let ghost vh = views::all(hunks@);
    let ghost vt = views::texts(target@);
    let n: usize = target.len();
    assert(vt.len() == n);
    assert(vh.len() == hunks@.len());
    if hunks.len() == 0 {
        return None;
    }
    let mut out: Vec<String> = Vec::new();
    let mut pos: usize = 0;
    let mut placed = true;
    assert(views::texts(out@) =~= Seq::empty());
    for i in 0..hunks.len()
        invariant
            n == target@.len(),
            vt.len() == n,
            vh == views::all(hunks@),
            vt == views::texts(target@),
            placed ==> pos <= n && hunks_applied(vh.take(i as int), vt) == Some(
                (views::texts(out@), pos as int),
            ),
            !placed ==> hunks_applied(vh.take(i as int), vt) is None,
    {
        let h = &hunks[i];
        proof {
            views::lemma_take_step(vh, i as int);
            assert(vh[i as int] == h@);
            assert(h@.old_lines.len() == h.old_lines@.len());
        }
        if placed {
            if h.start < pos || h.start > n || h.old_lines.len() > n - h.start || !reads_at(
                target,
                h.start,
                h.old_lines.as_slice(),
            ) {
                placed = false;
            } else {
                let ghost done = views::texts(out@);
                append_range(&mut out, target, pos, h.start);
                text::extend_strings(&mut out, h.new_lines.as_slice());
                proof {
                    assert(views::texts(out@) =~= done + vt.subrange(pos as int, h.start as int)
                        + h@.new_lines);
                }
                pos = h.start + h.old_lines.len();
            }
        }
    }
    proof {
        views::lemma_take_all(vh);
    }
    if !placed {
        return None;
    }
    let ghost done = views::texts(out@);
    append_range(&mut out, target, pos, n);
    proof {
        assert(vt.subrange(pos as int, n as int) =~= vt.skip(pos as int));
    }
    Some(out)
}

/// The change from `from` to `to` made to `target`.
pub open spec fn merged_text(
    from: Seq<char>,
    to: Seq<char>,
    target: Seq<char>,
    context: int,
) -> Option<Seq<char>> {
    match diff_preview::changes(text::lines(from), text::lines(to)) {
        None => None,
        Some(ops) => match patched(hunks_from(ops, 0, context), text::lines(target)) {
            Some(lines) => Some(text::unlines(lines)),
            None => None,
        },
    }
}

/// Apply the change from `old_text` to `new_text` onto `target_text`. Returns `None` if
/// any hunk cannot be placed exactly.
pub fn structured_patch_apply(
    old_text: &str,
    new_text: &str,
    target_text: &str,
    context: usize,
    _fuzz: usize,
) -> (r: Option<String>)
    ensures
        views::opt_text(r) == merged_text(old_text@, new_text@, target_text@, context as int),
        target_text@ == old_text@ && new_text@ != old_text@ && diff_preview::changes(
            text::lines(old_text@),
            text::lines(new_text@),
        ) is Some ==> views::opt_text(r) == Some(new_text@),
{
    let from = text::lines_of(old_text);
    let to = text::lines_of(new_text);
    let target = text::lines_of(target_text);
    match diff_changes(from.as_slice(), to.as_slice()) {
        None => None,
        Some(ops) => {
            let hunks = build_hunks_with_context(ops.as_slice(), context);
            proof {
                text::law_unlines_lines(old_text@);
                text::law_unlines_lines(new_text@);
                if new_text@ != old_text@ {
                    law_patch_reproduces(engines::changes_view(ops@), context as int);
                }
            }
            match apply_hunks(hunks.as_slice(), target.as_slice()) {
                Some(lines) => Some(text::join_lines(lines.as_slice())),
                None => None,
            }
        },
    }
}

// ── Anchors ──────────────────────────────────────────────────────────────

/// The line an edit is anchored on, if any.
pub open spec fn edit_anchor(e: EditView) -> Option<u32> {
    match e {
        EditView::Delete { anchor } => Some(anchor.line),
        EditView::Block { anchor, .. } => Some(anchor.line),
        EditView::Insert { cursor, .. } => cursor.anchored(),
    }
}

fn anchor_of(e: &Edit) -> (r: Option<u32>)
    ensures
        r == edit_anchor(e@),
{
    match e {
        Edit::Delete { anchor } => Some(anchor.line),
        Edit::Block { anchor, payloads, mode } => Some(anchor.line),
        Edit::Insert { cursor, text, mode } => cursor.anchor_line(),
    }
}

/// The lines that edits are anchored on, in order.
pub open spec fn anchor_lines(edits: Seq<EditView>) -> Seq<u32>
    decreases edits.len(),
{
    if edits.len() == 0 {
        Seq::empty()
    } else {
        let rest = anchor_lines(edits.drop_last());
        match edit_anchor(edits.last()) {
            Some(l) => rest.push(l),
            None => rest,
        }
    }
}

/// Collect all anchor lines referenced by `edits`.
pub fn collect_anchor_lines(edits: &[Edit]) -> (r: Vec<u32>)
    ensures
        r@ == anchor_lines(views::all(edits@)),
{
    let ghost ve = views::all(edits@);
    let mut out: Vec<u32> = Vec::new();
    for i in 0..edits.len()
        invariant
            ve == views::all(edits@),
            out@ == anchor_lines(ve.take(i as int)),
    {
        proof {
            views::lemma_take_step(ve, i as int);
            assert(ve[i as int] == edits@[i as int]@);
        }
        match anchor_of(&edits[i]) {
            Some(l) => {
                out.push(l);
            },
            None => {},
        }
    }
    proof {
        views::lemma_take_all(ve);
    }
    out
}

/// Line `l` reads the same in both lists.
pub open spec fn line_agrees(a: Seq<Seq<char>>, b: Seq<Seq<char>>, l: u32) -> bool {
    1 <= l && l <= a.len() && l <= b.len() && a[l - 1] == b[l - 1]
}

/// Every anchor line reads the same in both texts.
pub open spec fn anchors_agree(a: Seq<Seq<char>>, b: Seq<Seq<char>>, lines: Seq<u32>) -> bool {
    forall|i: int| 0 <= i < lines.len() ==> line_agrees(a, b, #[trigger] lines[i])
}

/// True when every anchor line has identical content in both texts.
pub fn verify_anchor_content(previous: &[String], current: &[String], lines: &[u32]) -> (r: bool)
    ensures
        r == anchors_agree(views::texts(previous@), views::texts(current@), lines@),
{
    let ghost vp = views::texts(previous@);
    let ghost vc = views::texts(current@);
    for i in 0..lines.len()
        invariant
            vp == views::texts(previous@),
            vc == views::texts(current@),
            forall|j: int| 0 <= j < i ==> line_agrees(vp, vc, #[trigger] lines@[j]),
    {
        let l = lines[i];
        let ok = 1 <= l && l as usize <= previous.len() && l as usize <= current.len()
            && previous[l as usize - 1] == current[l as usize - 1];
        proof {
            if 1 <= l && l <= vp.len() && l <= vc.len() {
                assert(vp[l - 1] == previous@[l - 1]@ && vc[l - 1] == current@[l - 1]@);
            }
            assert(ok == line_agrees(vp, vc, l));
        }
        if !ok {
            assert(!line_agrees(vp, vc, lines@[i as int]));
            return false;
        }
    }
    true
}

// ── The line map ─────────────────────────────────────────────────────────

/// From the numbers of unchanged lines in the old text to their numbers in the new.
pub open spec fn line_map(ops: Seq<(ChangeKind, Seq<char>)>) -> Map<u32, u32>
    decreases ops.len(),
{
    if ops.len() == 0 {
        Map::empty()
    } else {
        let rest = line_map(ops.drop_last());
        if ops.last().0 == ChangeKind::Equal {
            rest.insert(
                engines::old_side(ops).len() as u32,
                engines::new_side(ops).len() as u32,
            )
        } else {
            rest
        }
    }
}

proof fn lemma_sides_grow(ops: Seq<(ChangeKind, Seq<char>)>, i: int)
    requires
        0 <= i <= ops.len(),
    ensures
        engines::old_side(ops.take(i)).len() <= engines::old_side(ops).len(),
        engines::new_side(ops.take(i)).len() <= engines::new_side(ops).len(),
    decreases ops.len(),
{
    if i == ops.len() {
        views::lemma_take_all(ops);
    } else {
        lemma_sides_grow(ops.drop_last(), i);
        assert(ops.drop_last().take(i) =~= ops.take(i));
    }
}

/// Build the line map of a difference. See [`line_map`].
pub fn map_unchanged_lines(ops: &[Change]) -> (r: HashMap<u32, u32>)
    requires
        engines::old_side(engines::changes_view(ops@)).len() < u32::MAX,
        engines::new_side(engines::changes_view(ops@)).len() < u32::MAX,
    ensures
        r@ == line_map(engines::changes_view(ops@)),
{
    broadcast use vstd::std_specs::hash::group_hash_axioms;

    let ghost vo = engines::changes_view(ops@);
    let mut map: HashMap<u32, u32> = HashMap::new();
    let mut previous: u32 = 0;
    let mut current: u32 = 0;
    for i in 0..ops.len()
        invariant
            vo == engines::changes_view(ops@),
            engines::old_side(vo).len() < u32::MAX,
            engines::new_side(vo).len() < u32::MAX,
            previous == engines::old_side(vo.take(i as int)).len(),
            current == engines::new_side(vo.take(i as int)).len(),
            map@ == line_map(vo.take(i as int)),
    {
        broadcast use vstd::std_specs::hash::group_hash_axioms;

        proof {
            views::lemma_take_step(vo, i as int);
            lemma_sides_grow(vo, i + 1);
        }
        match ops[i].kind {
            ChangeKind::Equal => {
                previous = previous + 1;
                current = current + 1;
                map.insert(previous, current);
            },
            ChangeKind::Delete => {
                previous = previous + 1;
            },
            ChangeKind::Insert => {
                current = current + 1;
            },
        }
    }
    proof {
        views::lemma_take_all(vo);
    }
    map
}

/// The line map between two texts; empty when they have too many lines for 32 bits.
pub open spec fn map_between(previous: Seq<char>, current: Seq<char>) -> Map<u32, u32> {
    match diff_preview::changes(text::lines(previous), text::lines(current)) {
        Some(ops) => line_map(ops),
        None => Map::empty(),
    }
}

/// Build a map from previous-text line numbers (1-indexed) to current-text line numbers.
/// Only unchanged lines get mapped.
pub fn build_line_map(previous_text: &str, current_text: &str) -> (r: HashMap<u32, u32>)
    ensures
        r@ == map_between(previous_text@, current_text@),
{
    let from = text::lines_of(previous_text);
    let to = text::lines_of(current_text);
    match diff_changes(from.as_slice(), to.as_slice()) {
        Some(ops) => {
            assert(views::texts(from@).len() == from@.len());
            assert(views::texts(to@).len() == to@.len());
            map_unchanged_lines(ops.as_slice())
        },
        None => HashMap::new(),
    }
}

// ── Remapping anchors ────────────────────────────────────────────────────

/// `l` is one of the lines.
pub open spec fn holds_line(lines: Seq<u32>, l: int) -> bool {
    exists|i: int| 0 <= i < lines.len() && (#[trigger] lines[i]) == l
}

pub(crate) fn contains_line(lines: &[u32], l: u64) -> (r: bool)
    ensures
        r == holds_line(lines@, l as int),
{
    for i in 0..lines.len()
        invariant
            forall|j: int| 0 <= j < i ==> #[trigger] lines@[j] != l,
    {
        if lines[i] as u64 == l {
            assert(lines@[i as int] == l);
            return true;
        }
    }
    false
}

/// The first line of the run of anchor lines that ends in `l`.
pub open spec fn run_start(lines: Seq<u32>, l: int) -> int
    decreases l,
{
    if l > 0 && holds_line(lines, l - 1) {
        run_start(lines, l - 1)
    } else {
        l
    }
}

/// The last line of the run of anchor lines that begins with `l`.
pub open spec fn run_end(lines: Seq<u32>, l: int) -> int
    decreases u32::MAX - l,
{
    if l < u32::MAX && holds_line(lines, l + 1) {
        run_end(lines, l + 1)
    } else {
        l
    }
}

/// The nearest line in front of the run of anchor lines around `l`, in a text of `n`
/// lines.
pub open spec fn line_before(lines: Seq<u32>, l: int, n: int) -> Option<int> {
    let s = run_start(lines, l);
    if s >= 2 && s - 1 <= n {
        Some(s - 1)
    } else {
        None
    }
}

/// The nearest line behind the run of anchor lines around `l`, in a text of `n` lines.
pub open spec fn line_after(lines: Seq<u32>, l: int, n: int) -> Option<int> {
    let e = run_end(lines, l);
    if e + 1 <= n {
        Some(e + 1)
    } else {
        None
    }
}

/// Line `l` is mapped, and to `want`.
pub open spec fn maps_to(map: Map<u32, u32>, l: int, want: int) -> bool {
    0 <= l <= u32::MAX && map.dom().contains(l as u32) && map[l as u32] == want
}

/// A line's text occurs elsewhere in the list too.
pub open spec fn is_repeated(lines: Seq<Seq<char>>, l: int) -> bool {
    1 <= l <= lines.len() && exists|j: int|
        0 <= j < lines.len() && j != l - 1 && #[trigger] lines[j] == lines[l - 1]
}

/// The context of an anchor line moved along with it: for a repeated line both
/// neighbours of its run, of which there must be one; for a unique line the one behind
/// it, or else the one in front.
#[verifier::opaque]
pub open spec fn context_moved(
    previous: Seq<Seq<char>>,
    current: Seq<Seq<char>>,
    map: Map<u32, u32>,
    lines: Seq<u32>,
    l: u32,
) -> bool {
    let before = line_before(lines, l as int, previous.len() as int);
    let after = line_after(lines, l as int, previous.len() as int);
    &&& map.dom().contains(l)
    &&& {
        let shift = map[l] - l;
        if !is_repeated(previous, l as int) && !is_repeated(current, map[l] as int) {
            match (after, before) {
                (Some(a), _) => maps_to(map, a, a + shift),
                (None, Some(b)) => maps_to(map, b, b + shift),
                (None, None) => false,
            }
        } else {
            &&& before is Some || after is Some
            &&& before matches Some(b) ==> maps_to(map, b, b + shift)
            &&& after matches Some(a) ==> maps_to(map, a, a + shift)
        }
    }
}

/// A line whose context moved along with it is mapped.
proof fn lemma_context_mapped(
    previous: Seq<Seq<char>>,
    current: Seq<Seq<char>>,
    map: Map<u32, u32>,
    lines: Seq<u32>,
    l: u32,
)
    requires
        context_moved(previous, current, map, lines, l),
    ensures
        map.dom().contains(l),
{
    reveal(context_moved);
}

/// The context of every anchor line moved along with it.
pub open spec fn contexts_moved(
    previous: Seq<Seq<char>>,
    current: Seq<Seq<char>>,
    map: Map<u32, u32>,
    lines: Seq<u32>,
) -> bool {
    forall|i: int|
        0 <= i < lines.len() ==> context_moved(previous, current, map, lines, #[trigger] lines[i])
}

fn find_run_start(lines: &[u32], l: u32) -> (r: u32)
    ensures
        r == run_start(lines@, l as int),
        r <= l,
{
    let mut s: u32 = l;
    while s > 0 && contains_line(lines, s as u64 - 1)
        invariant
            s <= l,
            run_start(lines@, s as int) == run_start(lines@, l as int),
        decreases s,
    {
        s = s - 1;
    }
    s
}

fn find_run_end(lines: &[u32], l: u32) -> (r: u32)
    ensures
        r == run_end(lines@, l as int),
        l <= r,
{
    let mut e: u32 = l;
    while e < u32::MAX && contains_line(lines, e as u64 + 1)
        invariant
            l <= e,
            run_end(lines@, e as int) == run_end(lines@, l as int),
        decreases u32::MAX - e,
    {
        e = e + 1;
    }
    e
}

fn repeated(lines: &[String], l: u32) -> (r: bool)
    ensures
        r == is_repeated(views::texts(lines@), l as int),
{
    let ghost vl = views::texts(lines@);
    assert(vl.len() == lines@.len());
    if l < 1 || l as usize > lines.len() {
        return false;
    }
    let k: usize = l as usize - 1;
    for j in 0..lines.len()
        invariant
            vl == views::texts(lines@),
            k == l - 1,
            k < lines@.len(),
            forall|i: int| 0 <= i < j && i != k ==> #[trigger] vl[i] != vl[k as int],
    {
        assert(vl[j as int] == lines@[j as int]@ && vl[k as int] == lines@[k as int]@);
        if j != k && lines[j] == lines[k] {
            assert(vl[j as int] == vl[l - 1]);
            return true;
        }
    }
    false
}

fn maps_line_to(map: &HashMap<u32, u32>, l: u32, want: i64) -> (r: bool)
    ensures
        r == maps_to(map@, l as int, want as int),
{
    broadcast use vstd::std_specs::hash::group_hash_axioms;

    match map.get(&l) {
        Some(m) => *m as i64 == want,
        None => false,
    }
}

fn validate_anchor_context(
    previous: &[String],
    current: &[String],
    map: &HashMap<u32, u32>,
    lines: &[u32],
    l: u32,
) -> (r: bool)
    ensures
        r == context_moved(
            views::texts(previous@),
            views::texts(current@),
            map@,
            lines@,
            l,
        ),
{
    broadcast use vstd::std_specs::hash::group_hash_axioms;

    proof {
        reveal(context_moved);
    }
    let n: usize = previous.len();
    assert(views::texts(previous@).len() == n);
    let mapped: u32 = match map.get(&l) {
        Some(m) => *m,
        None => {
            return false;
        },
    };
    let shift: i64 = mapped as i64 - l as i64;
    let s: u32 = find_run_start(lines, l);
    let e: u32 = find_run_end(lines, l);
    let before: Option<u32> = if s >= 2 && (s - 1) as usize <= n {
        Some(s - 1)
    } else {
        None
    };
    let after: Option<u32> = if e < u32::MAX && (e as usize) < n {
        Some(e + 1)
    } else {
        None
    };
    if e == u32::MAX && (e as usize) < n {
        // The line behind the run has a number that no line map holds.
        assert(line_after(lines@, l as int, n as int) == Some(e + 1));
        return false;
    }
    if !repeated(previous, l) && !repeated(current, mapped) {
        match after {
            Some(a) => maps_line_to(map, a, a as i64 + shift),
            None => match before {
                Some(b) => maps_line_to(map, b, b as i64 + shift),
                None => false,
            },
        }
    } else {
        let before_ok = match before {
            Some(b) => maps_line_to(map, b, b as i64 + shift),
            None => true,
        };
        let after_ok = match after {
            Some(a) => maps_line_to(map, a, a as i64 + shift),
            None => true,
        };
        (before.is_some() || after.is_some()) && before_ok && after_ok
    }
}

/// Check that the context of every anchor line moved along with it.
pub fn validate_remapped_anchor_context(
    previous: &[String],
    current: &[String],
    map: &HashMap<u32, u32>,
    lines: &[u32],
) -> (r: bool)
    ensures
        r == contexts_moved(views::texts(previous@), views::texts(current@), map@, lines@),
{
    for i in 0..lines.len()
        invariant
            forall|j: int|
                0 <= j < i ==> context_moved(
                    views::texts(previous@),
                    views::texts(current@),
                    map@,
                    lines@,
                    #[trigger] lines@[j],
                ),
    {
        if !validate_anchor_context(previous, current, map, lines, lines[i]) {
            assert(!context_moved(
                views::texts(previous@),
                views::texts(current@),
                map@,
                lines@,
                lines@[i as int],
            ));
            return false;
        }
    }
    true
}

/// An anchor moved by `shift` lines.
pub open spec fn shifted_anchor(a: Anchor, shift: int) -> Anchor {
    Anchor { line: (a.line + shift) as u32 }
}

/// An edit with its anchor moved by `shift` lines.
pub open spec fn shifted(e: EditView, shift: int) -> EditView {
    match e {
        EditView::Delete { anchor } => EditView::Delete { anchor: shifted_anchor(anchor, shift) },
        EditView::Block { anchor, payloads, mode } => EditView::Block {
            anchor: shifted_anchor(anchor, shift),
            payloads,
            mode,
        },
        EditView::Insert { cursor, text, mode } => EditView::Insert {
            cursor: match cursor {
                Cursor::BeforeAnchor(a) => Cursor::BeforeAnchor(shifted_anchor(a, shift)),
                Cursor::AfterAnchor(a) => Cursor::AfterAnchor(shifted_anchor(a, shift)),
                _ => cursor,
            },
            text,
            mode,
        },
    }
}

/// The edits with all anchors moved along the line map. There must be an anchor, the
/// context of every anchor must have moved with it, and all must move equally far, and
/// not stay.
pub open spec fn remapped(
    previous: Seq<Seq<char>>,
    current: Seq<Seq<char>>,
    map: Map<u32, u32>,
    edits: Seq<EditView>,
) -> Option<Seq<EditView>> {
    let lines = anchor_lines(edits);
    let shift = map[lines[0]] - lines[0];
    if !contexts_moved(previous, current, map, lines) || lines.len() == 0 || shift == 0 {
        None
    } else if !(forall|i: int| 0 <= i < lines.len() ==> map[#[trigger] lines[i]] - lines[i] == shift) {
        None
    } else {
        Some(edits.map_values(|e: EditView| shifted(e, shift)))
    }
}

fn shift_line(line: u32, shift: i64) -> (r: u32)
    requires
        0 <= line + shift <= u32::MAX,
        -0x1_0000_0000 < shift < 0x1_0000_0000,
    ensures
        r == line + shift,
{
    (line as i64 + shift) as u32
}

fn shift_edit(e: &Edit, shift: i64) -> (r: Edit)
    requires
        -0x1_0000_0000 < shift < 0x1_0000_0000,
        edit_anchor(e@) matches Some(l) ==> 0 <= l + shift <= u32::MAX,
    ensures
        r@ == shifted(e@, shift as int),
{
    match e {
        Edit::Delete { anchor } => Edit::Delete {
            anchor: Anchor { line: shift_line(anchor.line, shift) },
        },
        Edit::Block { anchor, payloads, mode } => Edit::Block {
            anchor: Anchor { line: shift_line(anchor.line, shift) },
            payloads: text::clone_strings(payloads.as_slice()),
            mode: *mode,
        },
        Edit::Insert { cursor, text, mode } => Edit::Insert {
            cursor: match cursor {
                Cursor::BeforeAnchor(a) => Cursor::BeforeAnchor(
                    Anchor { line: shift_line(a.line, shift) },
                ),
                Cursor::AfterAnchor(a) => Cursor::AfterAnchor(
                    Anchor { line: shift_line(a.line, shift) },
                ),
                Cursor::Bof => Cursor::Bof,
                Cursor::Eof => Cursor::Eof,
            },
            text: text.clone(),
            mode: *mode,
        },
    }
}

proof fn lemma_anchor_listed(edits: Seq<EditView>, i: int)
    requires
        0 <= i < edits.len(),
        edit_anchor(edits[i]) is Some,
    ensures
        exists|k: int|
            0 <= k < anchor_lines(edits).len() && #[trigger] anchor_lines(edits)[k] == edit_anchor(
                edits[i],
            )->0,
    decreases edits.len(),
{
    let rest = edits.drop_last();
    let before = anchor_lines(rest);
    if i == edits.len() - 1 {
        assert(anchor_lines(edits)[before.len() as int] == edit_anchor(edits[i])->0);
    } else {
        assert(rest[i] == edits[i]);
        lemma_anchor_listed(rest, i);
        let k = choose|k: int|
            0 <= k < before.len() && #[trigger] before[k] == edit_anchor(rest[i])->0;
        assert(anchor_lines(edits)[k] == before[k]);
    }
}

fn all_move_by(map: &HashMap<u32, u32>, lines: &[u32], shift: i64) -> (r: bool)
    requires
        forall|i: int| 0 <= i < lines@.len() ==> map@.dom().contains(#[trigger] lines@[i]),
    ensures
        r == forall|i: int|
            0 <= i < lines@.len() ==> map@[#[trigger] lines@[i]] - lines@[i] == shift,
{
    broadcast use vstd::std_specs::hash::group_hash_axioms;

    for i in 0..lines.len()
        invariant
            forall|j: int| 0 <= j < lines@.len() ==> map@.dom().contains(#[trigger] lines@[j]),
            forall|j: int| 0 <= j < i ==> map@[#[trigger] lines@[j]] - lines@[j] == shift,
    {
        broadcast use vstd::std_specs::hash::group_hash_axioms;

        match map.get(&lines[i]) {
            Some(m) => {
                if *m as i64 - lines[i] as i64 != shift {
                    assert(map@[lines@[i as int]] - lines@[i as int] != shift);
                    return false;
                }
            },
            None => {},
        }
    }
    true
}

/// The model of an optional list of edits.
pub open spec fn opt_edits(o: Option<Vec<Edit>>) -> Option<Seq<EditView>> {
    match o {
        Some(v) => Some(views::all(v@)),
        None => None,
    }
}

/// Move every anchor along the line map. See [`remapped`].
pub fn remap_edits(
    previous: &[String],
    current: &[String],
    map: &HashMap<u32, u32>,
    edits: &[Edit],
) -> (r: Option<Vec<Edit>>)
    ensures
        opt_edits(r) == remapped(
            views::texts(previous@),
            views::texts(current@),
            map@,
            views::all(edits@),
        ),
{
    broadcast use vstd::std_specs::hash::group_hash_axioms;

    let ghost ve = views::all(edits@);
    let lines = collect_anchor_lines(edits);
    if lines.len() == 0 || !validate_remapped_anchor_context(
        previous,
        current,
        map,
        lines.as_slice(),
    ) {
        return None;
    }
    proof {
        lemma_context_mapped(
            views::texts(previous@),
            views::texts(current@),
            map@,
            lines@,
            lines@[0],
        );
    }
    let shift: i64 = match map.get(&lines[0]) {
        Some(m) => *m as i64 - lines[0] as i64,
        None => {
            return None;
        },
    };
    if shift == 0 {
        return None;
    }
    assert forall|i: int| 0 <= i < lines@.len() implies map@.dom().contains(
        #[trigger] lines@[i],
    ) by {
        lemma_context_mapped(
            views::texts(previous@),
            views::texts(current@),
            map@,
            lines@,
            lines@[i],
        );
    }
    if !all_move_by(map, lines.as_slice(), shift) {
        return None;
    }
    let ghost goal = ve.map_values(|e: EditView| shifted(e, shift as int));
    let mut out: Vec<Edit> = Vec::new();
    for i in 0..edits.len()
        invariant
            ve == views::all(edits@),
            lines@ == anchor_lines(ve),
            goal == ve.map_values(|e: EditView| shifted(e, shift as int)),
            -0x1_0000_0000 < shift < 0x1_0000_0000,
            forall|j: int|
                0 <= j < lines@.len() ==> map@[#[trigger] lines@[j]] - lines@[j] == shift,
            views::all(out@) == goal.take(i as int),
    {
        proof {
            views::lemma_take_step(goal, i as int);
            assert(ve[i as int] == edits@[i as int]@);
            if edit_anchor(ve[i as int]) is Some {
                lemma_anchor_listed(ve, i as int);
                let k = choose|k: int|
                    0 <= k < anchor_lines(ve).len() && #[trigger] anchor_lines(ve)[k]
                        == edit_anchor(ve[i as int])->0;
                assert(map@[lines@[k]] - lines@[k] == shift);
            }
        }
        out.push(shift_edit(&edits[i], shift));
    }
    proof {
        views::lemma_take_all(goal);
    }
    Some(out)
}

// ── Strategies ───────────────────────────────────────────────────────────

/// A text and warnings after edits, with a banner in front of the warnings; `None` when
/// nothing changed.
pub open spec fn replayed(
    after: (Seq<char>, Seq<Seq<char>>),
    current: Seq<char>,
    banner: Seq<char>,
) -> Option<RecoveryResultView> {
    if after.0 == current {
        None
    } else {
        Some(
            RecoveryResultView {
                text: after.0,
                first_changed_line: first_changed(current, after.0),
                warnings: seq![banner] + after.1,
            },
        )
    }
}

fn with_banner(banner: &str, warnings: &[String]) -> (r: Vec<String>)
    ensures
        views::texts(r@) == seq![banner@] + views::texts(warnings@),
{
    let mut out: Vec<String> = Vec::new();
    out.push(text::owned(banner));
    assert(views::texts(out@) =~= seq![banner@]);
    text::extend_strings(&mut out, warnings);
    out
}

/// See [`replayed`].
fn replay(applied: ApplyResult, current_text: &str, banner: &str) -> (r: Option<
    RecoveryResult,
>)
    ensures
        opt_result(r) == replayed(
            (applied.text@, views::texts(applied.warnings@)),
            current_text@,
            banner@,
        ),
{
    if text::same(applied.text.as_str(), current_text) {
        return None;
    }
    Some(
        RecoveryResult {
            warnings: with_banner(banner, applied.warnings.as_slice()),
            first_changed_line: find_first_changed_line(current_text, applied.text.as_str()),
            text: applied.text,
        },
    )
}

/// The merge of an applied change onto the live text: the change must be one, it must
/// merge, and the merge must change the live text.
pub open spec fn merge_accepted(
    previous: Seq<char>,
    current: Seq<char>,
    after: (Seq<char>, Seq<Seq<char>>),
    merged: Option<Seq<char>>,
    banner: Seq<char>,
) -> Option<RecoveryResultView> {
    if after.0 == previous {
        None
    } else {
        match merged {
            None => None,
            Some(m) => if m == current {
                None
            } else {
                Some(
                    RecoveryResultView {
                        text: m,
                        first_changed_line: first_changed(current, m),
                        warnings: seq![banner] + after.1,
                    },
                )
            },
        }
    }
}

/// See [`merge_accepted`].
pub fn accept_merge(
    previous_text: &str,
    current_text: &str,
    applied: ApplyResult,
    merged: Option<String>,
    banner: &str,
) -> (r: Option<RecoveryResult>)
    ensures
        opt_result(r) == merge_accepted(
            previous_text@,
            current_text@,
            (applied.text@, views::texts(applied.warnings@)),
            views::opt_text(merged),
            banner@,
        ),
{
    if text::same(applied.text.as_str(), previous_text) {
        return None;
    }
    match merged {
        None => None,
        Some(m) => {
            if text::same(m.as_str(), current_text) {
                return None;
            }
            let first_changed_line = find_first_changed_line(current_text, m.as_str());
            Some(
                RecoveryResult {
                    text: m,
                    first_changed_line,
                    warnings: with_banner(banner, applied.warnings.as_slice()),
                },
            )
        },
    }
}

/// The first strategy: the edits are made to the tagged version, and the change is
/// merged onto the live text.
pub open spec fn by_merge(
    previous: Seq<char>,
    current: Seq<char>,
    edits: Seq<EditView>,
    banner: Seq<char>,
) -> Option<RecoveryResultView> {
    let after = apply::applied(previous, edits, Map::empty());
    merge_accepted(
        previous,
        current,
        after,
        merged_text(previous, after.0, current, RECOVERY_CONTEXT as int),
        banner,
    )
}

/// The second strategy: the anchors move along the lines that did not change, and the
/// edits are made to the live text.
pub open spec fn by_remap(
    previous: Seq<char>,
    current: Seq<char>,
    edits: Seq<EditView>,
) -> Option<RecoveryResultView> {
    match remapped(
        text::lines(previous),
        text::lines(current),
        map_between(previous, current),
        edits,
    ) {
        None => None,
        Some(moved) => replayed(
            apply::applied(current, moved, Map::empty()),
            current,
            RECOVERY_LINE_REMAP_WARNING@,
        ),
    }
}

/// The third strategy: the edits are made to the live text as they are, when it has as
/// many lines and every anchor line reads the same.
pub open spec fn by_replay(
    previous: Seq<char>,
    current: Seq<char>,
    edits: Seq<EditView>,
) -> Option<RecoveryResultView> {
    if text::lines(previous).len() != text::lines(current).len() || !anchors_agree(
        text::lines(previous),
        text::lines(current),
        anchor_lines(edits),
    ) {
        None
    } else {
        replayed(
            apply::applied(current, edits, Map::empty()),
            current,
            RECOVERY_SESSION_REPLAY_WARNING@,
        )
    }
}

/// Recovery from a tag that names `snapshot`; `is_head` tells whether that is the last
/// version recorded. The first strategy that works is taken; the third is for earlier
/// versions only.
pub open spec fn recovered(
    snapshot: SnapshotView,
    is_head: bool,
    current: Seq<char>,
    edits: Seq<EditView>,
) -> Option<RecoveryResultView> {
    let banner = if is_head {
        RECOVERY_EXTERNAL_WARNING@
    } else {
        RECOVERY_SESSION_CHAIN_WARNING@
    };
    if by_merge(snapshot.content, current, edits, banner) is Some {
        by_merge(snapshot.content, current, edits, banner)
    } else if by_remap(snapshot.content, current, edits) is Some {
        by_remap(snapshot.content, current, edits)
    } else if !is_head {
        by_replay(snapshot.content, current, edits)
    } else {
        None
    }
}

/// The outcome of a recovery attempt over a store.
pub open spec fn recovery(
    st: StoreView,
    path: Seq<char>,
    current: Seq<char>,
    tag: Seq<char>,
    edits: Seq<EditView>,
) -> Option<RecoveryResultView> {
    match snapshots::tagged(st, path, tag) {
        None => None,
        Some(s) => recovered(s, is_latest(st, path, s), current, edits),
    }
}

/// A snapshot is the one recorded last for a path.
pub open spec fn is_latest(st: StoreView, path: Seq<char>, s: SnapshotView) -> bool {
    match snapshots::head_of(st, path) {
        Some(h) => h.tag == s.tag && h.content == s.content,
        None => false,
    }
}

fn apply_edits_to_snapshot(
    previous_text: &str,
    current_text: &str,
    edits: &[Edit],
    banner: &str,
) -> (r: Option<RecoveryResult>)
    ensures
        opt_result(r) == by_merge(previous_text@, current_text@, views::all(edits@), banner@),
{
    let applied = apply_edits(previous_text, edits);
    let merged = structured_patch_apply(
        previous_text,
        applied.text.as_str(),
        current_text,
        RECOVERY_CONTEXT,
        RECOVERY_FUZZ_FACTOR,
    );
    accept_merge(previous_text, current_text, applied, merged, banner)
}

fn replay_remapped_anchors_on_current(
    previous_text: &str,
    current_text: &str,
    edits: &[Edit],
) -> (r: Option<RecoveryResult>)
    ensures
        opt_result(r) == by_remap(previous_text@, current_text@, views::all(edits@)),
{
    let previous = text::lines_of(previous_text);
    let current = text::lines_of(current_text);
    let map = build_line_map(previous_text, current_text);
    match remap_edits(previous.as_slice(), current.as_slice(), &map, edits) {
        None => None,
        Some(moved) => replay(
            apply_edits(current_text, moved.as_slice()),
            current_text,
            RECOVERY_LINE_REMAP_WARNING,
        ),
    }
}

fn replay_session_chain_on_current(
    previous_text: &str,
    current_text: &str,
    edits: &[Edit],
) -> (r: Option<RecoveryResult>)
    ensures
        opt_result(r) == by_replay(previous_text@, current_text@, views::all(edits@)),
{
    let previous = text::lines_of(previous_text);
    let current = text::lines_of(current_text);
    assert(views::texts(previous@).len() == previous@.len());
    assert(views::texts(current@).len() == current@.len());
    if previous.len() != current.len() {
        return None;
    }
    let lines = collect_anchor_lines(edits);
    if !verify_anchor_content(previous.as_slice(), current.as_slice(), lines.as_slice()) {
        return None;
    }
    replay(apply_edits(current_text, edits), current_text, RECOVERY_SESSION_REPLAY_WARNING)
}

/// Recovery driver over a snapshot store. Construct once and call `try_recover` per
/// stale-tag incident.
pub struct Recovery<'a> {
    pub store: &'a InMemorySnapshotStore,
}

impl<'a> Recovery<'a> {
    pub fn new(store: &'a InMemorySnapshotStore) -> (r: Self)
        ensures
            r.store == store,
    {
        Recovery { store }
    }

    /// Attempt recovery. Returns `None` when no path forward is found.
    pub fn try_recover(&self, args: RecoveryArgs<'_>) -> (r: Option<RecoveryResult>)
        ensures
            opt_result(r) == recovery(
                self.store@,
                args.path@,
                args.current_text@,
                args.file_hash@,
                views::all(args.edits@),
            ),
    {
        let snapshot = match self.store.by_hash(args.path, args.file_hash) {
            Some(s) => s,
            None => {
                return None;
            },
        };
        let is_head = match self.store.head(args.path) {
            Some(h) => h.tag == snapshot.tag && h.content == snapshot.content,
            None => false,
        };
        let banner = if is_head {
            RECOVERY_EXTERNAL_WARNING
        } else {
            RECOVERY_SESSION_CHAIN_WARNING
        };
        let previous = snapshot.content.as_str();
        match apply_edits_to_snapshot(previous, args.current_text, args.edits, banner) {
            Some(r) => {
                return Some(r);
            },
            None => {},
        }
        match replay_remapped_anchors_on_current(previous, args.current_text, args.edits) {
            Some(r) => {
                return Some(r);
            },
            None => {},
        }
        if !is_head {
            return replay_session_chain_on_current(previous, args.current_text, args.edits);
        }
        None
    }
}

// ── Laws ─────────────────────────────────────────────────────────────────

proof fn lemma_first_difference(a: Seq<Seq<char>>, b: Seq<Seq<char>>, i: int)
    requires
        0 <= i,
        i <= a.len() || i <= b.len(),
        forall|j: int| 0 <= j < i ==> j < a.len() && j < b.len() && #[trigger] a[j] == b[j],
    ensures
        first_difference(a, b, i) is None ==> a == b,
        first_difference(a, b, i) is Some ==> a != b,
    decreases (if a.len() > b.len() { a.len() } else { b.len() }) - i,
{
    if i >= a.len() && i >= b.len() {
        if a.len() < i {
            assert(a[a.len() as int] == b[a.len() as int]);
        }
        if b.len() < i {
            assert(a[b.len() as int] == b[b.len() as int]);
        }
        assert(a =~= b);
    } else if i < a.len() && i < b.len() && a[i] == b[i] {
        lemma_first_difference(a, b, i + 1);
    }
}

/// Two texts have a first changed line if and only if they differ.
pub proof fn law_first_changed(a: Seq<char>, b: Seq<char>)
    ensures
        first_changed(a, b) is Some <==> a != b,
{
    lemma_first_difference(text::lines(a), text::lines(b), 0);
    text::law_unlines_lines(a);
    text::law_unlines_lines(b);
}

/// A recovery that succeeds changes the live text, and tells the first line that changed.
pub proof fn law_recovery_changes_text(
    st: StoreView,
    path: Seq<char>,
    current: Seq<char>,
    tag: Seq<char>,
    edits: Seq<EditView>,
)
    ensures
        recovery(st, path, current, tag, edits) matches Some(r) ==> r.text != current
            && r.first_changed_line == first_changed(current, r.text)
            && r.first_changed_line is Some,
{
    match recovery(st, path, current, tag, edits) {
        Some(r) => {
            law_first_changed(current, r.text);
        },
        None => {},
    }
}

/// What a recovery tells begins with the banner of the way it took, and a tag that is not
/// known is not recovered from.
pub proof fn law_recovery_says_so(
    st: StoreView,
    path: Seq<char>,
    current: Seq<char>,
    tag: Seq<char>,
    edits: Seq<EditView>,
)
    ensures
        snapshots::tagged(st, path, tag) is None ==> recovery(st, path, current, tag, edits) is None,
        recovery(st, path, current, tag, edits) matches Some(r) ==> r.warnings.len() > 0 && (
        r.warnings[0] == RECOVERY_EXTERNAL_WARNING@ || r.warnings[0]
            == RECOVERY_SESSION_CHAIN_WARNING@ || r.warnings[0] == RECOVERY_LINE_REMAP_WARNING@
            || r.warnings[0] == RECOVERY_SESSION_REPLAY_WARNING@),
{
}

/// A hunk never slides: a patch is made only if every hunk finds its lines exactly where
/// it expects them.
pub proof fn law_hunks_do_not_slide(
    hunks: Seq<PatchHunkView>,
    target: Seq<Seq<char>>,
    k: int,
)
    requires
        hunks_applied(hunks, target) is Some,
        0 <= k < hunks.len(),
        forall|i: int| 0 <= i < hunks.len() ==> 0 <= (#[trigger] hunks[i]).start,
    ensures
        hunks[k].start + hunks[k].old_lines.len() <= target.len(),
        target.subrange(hunks[k].start, hunks[k].start + hunks[k].old_lines.len())
            == hunks[k].old_lines,
    decreases hunks.len(),
{
    if k < hunks.len() - 1 {
        let rest = hunks.drop_last();
        assert(rest[k] == hunks[k]);
        assert forall|i: int| 0 <= i < rest.len() implies 0 <= (#[trigger] rest[i]).start by {
            assert(rest[i] == hunks[i]);
        }
        law_hunks_do_not_slide(rest, target, k);
    }
}

proof fn lemma_sides_add(a: Seq<(ChangeKind, Seq<char>)>, b: Seq<(ChangeKind, Seq<char>)>)
    ensures
        engines::old_side(a + b) == engines::old_side(a) + engines::old_side(b),
        engines::new_side(a + b) == engines::new_side(a) + engines::new_side(b),
    decreases b.len(),
{
    if b.len() == 0 {
        assert(a + b =~= a);
        assert(engines::old_side(a) + engines::old_side(b) =~= engines::old_side(a));
        assert(engines::new_side(a) + engines::new_side(b) =~= engines::new_side(a));
    } else {
        lemma_sides_add(a, b.drop_last());
        assert((a + b).drop_last() =~= a + b.drop_last());
        assert((a + b).last() == b.last());
        assert(engines::old_side(a + b) =~= engines::old_side(a) + engines::old_side(b));
        assert(engines::new_side(a + b) =~= engines::new_side(a) + engines::new_side(b));
    }
}

proof fn lemma_unchanged_sides(ops: Seq<(ChangeKind, Seq<char>)>)
    requires
        forall|i: int| 0 <= i < ops.len() ==> (#[trigger] ops[i]).0 == ChangeKind::Equal,
    ensures
        engines::old_side(ops) == engines::new_side(ops),
    decreases ops.len(),
{
    if ops.len() > 0 {
        let rest = ops.drop_last();
        assert forall|i: int| 0 <= i < rest.len() implies (#[trigger] rest[i]).0
            == ChangeKind::Equal by {
            assert(rest[i] == ops[i]);
        }
        lemma_unchanged_sides(rest);
        assert(ops[ops.len() - 1].0 == ChangeKind::Equal);
    }
}

/// The changes from `i` up to `j` are unchanged lines.
pub open spec fn unchanged(ops: Seq<(ChangeKind, Seq<char>)>, i: int, j: int) -> bool {
    forall|k: int| i <= k < j ==> (#[trigger] ops[k]).0 == ChangeKind::Equal
}

proof fn lemma_run_unchanged(ops: Seq<(ChangeKind, Seq<char>)>, i: int)
    requires
        0 <= i <= ops.len(),
    ensures
        unchanged(ops, i, equal_end(ops, i)),
    decreases ops.len() - i,
{
    if i < ops.len() && ops[i].0 == ChangeKind::Equal {
        lemma_run_unchanged(ops, i + 1);
    }
}

/// Behind a group stand more than `2 * context` unchanged lines, or nothing else.
proof fn lemma_behind_group(ops: Seq<(ChangeKind, Seq<char>)>, i: int, context: int)
    requires
        0 <= context,
        0 <= i <= ops.len(),
    ensures
        ({
            let e = group_end(ops, i, context);
            unchanged(ops, e, ops.len() as int) || (e + 2 * context < ops.len() && unchanged(
                ops,
                e,
                e + 2 * context,
            ))
        }),
    decreases ops.len() - i,
{
    if i < ops.len() {
        if ops[i].0 != ChangeKind::Equal {
            lemma_behind_group(ops, i + 1, context);
        } else {
            lemma_equal_end(ops, i);
            lemma_run_unchanged(ops, i);
            let e = equal_end(ops, i);
            if e < ops.len() && e - i <= 2 * context {
                lemma_behind_group(ops, e, context);
            }
        }
    }
}

/// The sides of a stretch of unchanged lines are the same.
proof fn lemma_stretch(ops: Seq<(ChangeKind, Seq<char>)>, i: int, j: int)
    requires
        0 <= i <= j <= ops.len(),
        unchanged(ops, i, j),
    ensures
        engines::old_side(ops.subrange(i, j)) == engines::new_side(ops.subrange(i, j)),
{
    let part = ops.subrange(i, j);
    assert forall|k: int| 0 <= k < part.len() implies (#[trigger] part[k]).0
        == ChangeKind::Equal by {
        assert(part[k] == ops[i + k]);
    }
    lemma_unchanged_sides(part);
}

/// Hunks have been applied to the old text as far as position `p`.
pub open spec fn applied_upto(
    ops: Seq<(ChangeKind, Seq<char>)>,
    hunks: Seq<PatchHunkView>,
    p: int,
) -> bool {
    &&& 0 <= p <= ops.len()
    &&& hunks_applied(hunks, engines::old_side(ops)) == Some(
        (engines::new_side(ops.take(p)), engines::old_side(ops.take(p)).len() as int),
    )
}

/// One more hunk: it stands at or behind the place that was reached, with nothing but
/// unchanged lines between.
proof fn lemma_apply_one(
    ops: Seq<(ChangeKind, Seq<char>)>,
    hunks: Seq<PatchHunkView>,
    p: int,
    from: int,
    to: int,
    context: int,
)
    requires
        0 <= context,
        applied_upto(ops, hunks, p),
        p <= from <= to <= ops.len(),
        p == 0 || from - p >= context,
        unchanged(ops, p, from),
    ensures
        applied_upto(
            ops,
            hunks.push(hunk_of(ops, from, to, context)),
            if to + context < ops.len() {
                to + context
            } else {
                ops.len() as int
            },
        ),
{
    let a = if from > context {
        from - context
    } else {
        0
    };
    let b = if to + context < ops.len() {
        to + context
    } else {
        ops.len() as int
    };
    let h = hunk_of(ops, from, to, context);
    let target = engines::old_side(ops);
    let more = hunks.push(h);
    assert(more.drop_last() =~= hunks);
    assert(ops.take(a) =~= ops.take(p) + ops.subrange(p, a));
    assert(ops.take(b) =~= ops.take(a) + ops.subrange(a, b));
    assert(ops =~= ops.take(b) + ops.skip(b));
    lemma_sides_add(ops.take(p), ops.subrange(p, a));
    lemma_sides_add(ops.take(a), ops.subrange(a, b));
    lemma_sides_add(ops.take(b), ops.skip(b));
    lemma_stretch(ops, p, a);
    let pos = engines::old_side(ops.take(p)).len() as int;
    let end = h.start + h.old_lines.len();
    assert(target.subrange(h.start, end) =~= h.old_lines);
    assert(target.subrange(pos, h.start) =~= engines::old_side(ops.subrange(p, a)));
    assert(engines::new_side(ops.take(p)) + target.subrange(pos, h.start) + h.new_lines
        =~= engines::new_side(ops.take(b)));
}

/// All the hunks from `i` on.
proof fn lemma_apply_rest(
    ops: Seq<(ChangeKind, Seq<char>)>,
    hunks: Seq<PatchHunkView>,
    p: int,
    i: int,
    context: int,
) -> (q: int)
    requires
        0 <= context,
        applied_upto(ops, hunks, p),
        p <= i <= ops.len(),
        p == 0 || i - p >= context,
        unchanged(ops, p, i),
    ensures
        applied_upto(ops, hunks + hunks_from(ops, i, context), q),
        unchanged(ops, q, ops.len() as int),
    decreases ops.len() - i,
{
    if i >= ops.len() {
        assert(hunks + hunks_from(ops, i, context) =~= hunks);
        p
    } else if ops[i].0 == ChangeKind::Equal {
        lemma_apply_rest(ops, hunks, p, i + 1, context)
    } else {
        let e = group_end(ops, i, context);
        lemma_group_end(ops, i, context);
        lemma_behind_group(ops, i, context);
        lemma_apply_one(ops, hunks, p, i, e, context);
        let h = hunk_of(ops, i, e, context);
        assert(hunks + (seq![h] + hunks_from(ops, e, context)) =~= hunks.push(h) + hunks_from(
            ops,
            e,
            context,
        ));
        if unchanged(ops, e, ops.len() as int) {
            lemma_skips_unchanged(ops, e, ops.len() as int, context);
            assert(hunks.push(h) + hunks_from(ops, ops.len() as int, context) =~= hunks.push(h));
            if e + context < ops.len() {
                e + context
            } else {
                ops.len() as int
            }
        } else {
            lemma_skips_unchanged(ops, e, e + 2 * context, context);
            lemma_apply_rest(ops, hunks.push(h), e + context, e + 2 * context, context)
        }
    }
}

proof fn lemma_some_hunk(ops: Seq<(ChangeKind, Seq<char>)>, i: int, k: int, context: int)
    requires
        0 <= i <= k < ops.len(),
        ops[k].0 != ChangeKind::Equal,
    ensures
        hunks_from(ops, i, context).len() > 0,
    decreases ops.len() - i,
{
    lemma_group_end(ops, i, context);
    if ops[i].0 == ChangeKind::Equal {
        lemma_some_hunk(ops, i + 1, k, context);
    }
}

/// A change made to the text it was taken from gives the new text.
pub proof fn law_patch_reproduces(ops: Seq<(ChangeKind, Seq<char>)>, context: int)
    requires
        0 <= context,
        engines::old_side(ops) != engines::new_side(ops),
    ensures
        patched(hunks_from(ops, 0, context), engines::old_side(ops)) == Some(
            engines::new_side(ops),
        ),
{
    let hunks = hunks_from(ops, 0, context);
    if unchanged(ops, 0, ops.len() as int) {
        lemma_unchanged_sides(ops);
    }
    let k = choose|k: int| 0 <= k < ops.len() && (#[trigger] ops[k]).0 != ChangeKind::Equal;
    lemma_some_hunk(ops, 0, k, context);
    let none = Seq::<PatchHunkView>::empty();
    assert(ops.take(0) =~= Seq::empty());
    let q = lemma_apply_rest(ops, none, 0, 0, context);
    assert(none + hunks =~= hunks);
    assert(ops =~= ops.take(q) + ops.skip(q));
    lemma_sides_add(ops.take(q), ops.skip(q));
    assert(ops.skip(q) =~= ops.subrange(q, ops.len() as int));
    lemma_stretch(ops, q, ops.len() as int);
    let target = engines::old_side(ops);
    let pos = engines::old_side(ops.take(q)).len() as int;
    assert(target.skip(pos) =~= engines::old_side(ops.skip(q)));
}

proof fn lemma_skips_unchanged(
    ops: Seq<(ChangeKind, Seq<char>)>,
    from: int,
    i: int,
    context: int,
)
    requires
        0 <= from <= i <= ops.len(),
        forall|j: int| from <= j < i ==> (#[trigger] ops[j]).0 == ChangeKind::Equal,
    ensures
        hunks_from(ops, from, context) == hunks_from(ops, i, context),
    decreases i - from,
{
    if from < i {
        lemma_skips_unchanged(ops, from + 1, i, context);
    }
}

// ── What moving anchors does ─────────────────────────────────────────────

/// An edit that names a line is, apart from the number of that line, the other edit: the same
/// kind, the same text, mode and payloads, and the same side of the line. Its line is the one
/// that the map gives, `d` lines on. An edit that names no line is the other edit.
pub open spec fn is_moved(e: EditView, f: EditView, map: Map<u32, u32>, d: int) -> bool {
    match e {
        EditView::Delete { anchor } => maps_to(map, anchor.line as int, anchor.line + d) && f == (
        EditView::Delete { anchor: Anchor { line: map[anchor.line] } }),
        EditView::Block { anchor, payloads, mode } => maps_to(
            map,
            anchor.line as int,
            anchor.line + d,
        ) && f == (EditView::Block { anchor: Anchor { line: map[anchor.line] }, payloads, mode }),
        EditView::Insert { cursor: Cursor::BeforeAnchor(a), text, mode } => maps_to(
            map,
            a.line as int,
            a.line + d,
        ) && f == (EditView::Insert {
            cursor: Cursor::BeforeAnchor(Anchor { line: map[a.line] }),
            text,
            mode,
        }),
        EditView::Insert { cursor: Cursor::AfterAnchor(a), text, mode } => maps_to(
            map,
            a.line as int,
            a.line + d,
        ) && f == (EditView::Insert {
            cursor: Cursor::AfterAnchor(Anchor { line: map[a.line] }),
            text,
            mode,
        }),
        EditView::Insert { cursor: Cursor::Bof, .. } => f == e,
        EditView::Insert { cursor: Cursor::Eof, .. } => f == e,
    }
}

/// Each of the edits is the one at its place, `d` lines on.
pub open spec fn all_moved(
    edits: Seq<EditView>,
    moved: Seq<EditView>,
    map: Map<u32, u32>,
    d: int,
) -> bool {
    moved.len() == edits.len() && forall|i: int|
        0 <= i < edits.len() ==> is_moved(#[trigger] edits[i], moved[i], map, d)
}

/// Every anchor line is mapped, and as far as the first.
proof fn lemma_anchors_mapped(
    previous: Seq<Seq<char>>,
    current: Seq<Seq<char>>,
    map: Map<u32, u32>,
    edits: Seq<EditView>,
    i: int,
)
    requires
        remapped(previous, current, map, edits) is Some,
        0 <= i < edits.len(),
        edit_anchor(edits[i]) is Some,
    ensures
        ({
            let lines = anchor_lines(edits);
            let l = edit_anchor(edits[i])->0;
            maps_to(map, l as int, l + (map[lines[0]] - lines[0]))
        }),
{
    let lines = anchor_lines(edits);
    lemma_anchor_listed(edits, i);
    let k = choose|k: int|
        0 <= k < lines.len() && #[trigger] lines[k] == edit_anchor(edits[i])->0;
    let l = lines[k];
    lemma_context_mapped(previous, current, map, lines, lines[k]);
    assert(map[lines[k]] - lines[k] == map[lines[0]] - lines[0]);
}

/// An edit whose anchor line is mapped, moved.
proof fn lemma_edit_moved(e: EditView, map: Map<u32, u32>, d: int)
    requires
        edit_anchor(e) matches Some(l) ==> maps_to(map, l as int, l + d),
    ensures
        is_moved(e, shifted(e, d), map, d),
{
}

/// Moving the anchors of edits changes nothing but the numbers of their lines: edit for edit,
/// either the edit names no line and stays as it is, or it is the same edit on the line that
/// its own line became. All move equally far, and they do move.
pub proof fn law_only_anchors_move(
    previous: Seq<Seq<char>>,
    current: Seq<Seq<char>>,
    map: Map<u32, u32>,
    edits: Seq<EditView>,
)
    ensures
        remapped(previous, current, map, edits) matches Some(moved) ==> exists|d: int|
            d != 0 && #[trigger] all_moved(edits, moved, map, d),
{
    if remapped(previous, current, map, edits) is Some {
        let moved = remapped(previous, current, map, edits)->0;
        let lines = anchor_lines(edits);
        let d = map[lines[0]] - lines[0];
        assert(all_moved(edits, moved, map, d)) by {
            assert forall|i: int| 0 <= i < edits.len() implies is_moved(
                #[trigger] edits[i],
                moved[i],
                map,
                d,
            ) by {
                if edit_anchor(edits[i]) is Some {
                    lemma_anchors_mapped(previous, current, map, edits, i);
                }
                lemma_edit_moved(edits[i], map, d);
                assert(moved[i] == shifted(edits[i], d));
            }
        }
    }
}

/// The line map of a difference maps unchanged lines and nothing else: each line that it maps
/// reads the same on both sides, lines keep their order, and every unchanged line is mapped.
pub proof fn law_line_map(ops: Seq<(ChangeKind, Seq<char>)>)
    requires
        engines::old_side(ops).len() < u32::MAX,
        engines::new_side(ops).len() < u32::MAX,
    ensures
        forall|l: u32| #[trigger]
            line_map(ops).dom().contains(l) ==> 1 <= l <= engines::old_side(ops).len() && 1
                <= line_map(ops)[l] <= engines::new_side(ops).len() && engines::old_side(ops)[l - 1]
                == engines::new_side(ops)[line_map(ops)[l] - 1],
        forall|a: u32, b: u32| #[trigger]
            line_map(ops).dom().contains(a) && #[trigger] line_map(ops).dom().contains(b) && a < b
                ==> line_map(ops)[a] < line_map(ops)[b],
        forall|i: int|
            0 <= i < ops.len() && (#[trigger] ops[i]).0 == ChangeKind::Equal ==> {
                let a = engines::old_side(ops.take(i + 1)).len();
                let b = engines::new_side(ops.take(i + 1)).len();
                line_map(ops).dom().contains(a as u32) && line_map(ops)[a as u32] == b
            },
    decreases ops.len(),
{
    if ops.len() > 0 {
        let rest = ops.drop_last();
        let before = line_map(rest);
        let now = line_map(ops);
        let old_rest = engines::old_side(rest);
        let new_rest = engines::new_side(rest);
        lemma_sides_grow(ops, ops.len() - 1);
        assert(ops.take(ops.len() - 1) =~= rest);
        law_line_map(rest);
        assert forall|l: u32| #[trigger] now.dom().contains(l) implies 1 <= l <= engines::old_side(
            ops,
        ).len() && 1 <= now[l] <= engines::new_side(ops).len() && engines::old_side(ops)[l - 1]
            == engines::new_side(ops)[now[l] - 1] by {
            if before.dom().contains(l) && l <= old_rest.len() {
                assert(engines::old_side(ops)[l - 1] == old_rest[l - 1]);
                assert(engines::new_side(ops)[before[l] - 1] == new_rest[before[l] - 1]);
            }
        }
        assert forall|a: u32, b: u32| #[trigger]
            now.dom().contains(a) && #[trigger] now.dom().contains(b) && a < b implies now[a]
            < now[b] by {
            assert(before.dom().contains(a));
            if before.dom().contains(b) {
                assert(before[a] < before[b]);
            } else {
                assert(before[a] <= new_rest.len());
            }
        }
        assert forall|i: int| 0 <= i < ops.len() && (#[trigger] ops[i]).0 == ChangeKind::Equal implies {
            let a = engines::old_side(ops.take(i + 1)).len();
            let b = engines::new_side(ops.take(i + 1)).len();
            now.dom().contains(a as u32) && now[a as u32] == b
        } by {
            if i < rest.len() {
                assert(rest[i] == ops[i]);
                assert(rest.take(i + 1) =~= ops.take(i + 1));
                let a = engines::old_side(ops.take(i + 1)).len();
                lemma_sides_grow(rest, i + 1);
                assert(before.dom().contains(a as u32));
            } else {
                views::lemma_take_all(ops);
            }
        }
    }
}

/// Insertions at one line name that line alone.
proof fn lemma_inserts_anchored(cursor: Cursor, line: u32, texts: Seq<Seq<char>>)
    requires
        cursor.anchored() == Some(line),
    ensures
        anchor_lines(effects::inserts_at(cursor, texts)) == Seq::new(texts.len(), |i: int| line),
    decreases texts.len(),
{
    let all = effects::inserts_at(cursor, texts);
    if texts.len() > 0 {
        lemma_inserts_anchored(cursor, line, texts.drop_last());
        assert(all.drop_last() =~= effects::inserts_at(cursor, texts.drop_last()));
    }
    assert(anchor_lines(all) =~= Seq::new(texts.len(), |i: int| line));
}

/// Lines in front of a text, as one text.
proof fn lemma_lines_in_front(front: Seq<Seq<char>>, rest: Seq<Seq<char>>)
    requires
        front.len() > 0,
        rest.len() > 0,
        forall|i: int| 0 <= i < front.len() ==> !(#[trigger] front[i]).contains('\n'),
        forall|i: int| 0 <= i < rest.len() ==> !(#[trigger] rest[i]).contains('\n'),
    ensures
        text::unlines(front + rest) == text::unlines(front) + seq!['\n'] + text::unlines(rest),
        text::lines(text::unlines(front + rest)) == front + rest,
{
    let whole = text::unlines(front) + seq!['\n'] + text::unlines(rest);
    text::law_split_join(front, '\n');
    text::law_split_join(rest, '\n');
    text::lemma_split_concat(text::unlines(front), text::unlines(rest), '\n');
    text::law_join_split(whole, '\n');
    text::law_split_join(front + rest, '\n');
}

/// Each of the first `n` lines is mapped, and `k` lines down.
pub open spec fn moves_down(map: Map<u32, u32>, n: int, k: int) -> bool {
    forall|l: u32| 1 <= l <= n ==> #[trigger] map.dom().contains(l) && map[l] == l + k
}

/// The same insertion at a line further down, and what moving the anchors makes of it.
proof fn lemma_insertion_moved(
    previous: Seq<Seq<char>>,
    current: Seq<Seq<char>>,
    map: Map<u32, u32>,
    k: u32,
    line: u32,
    behind: bool,
    texts: Seq<Seq<char>>,
)
    requires
        k > 0,
        previous.len() >= 2,
        k + previous.len() <= u32::MAX,
        1 <= line <= previous.len(),
        texts.len() > 0,
        moves_down(map, previous.len() as int, k as int),
    ensures
        remapped(
            previous,
            current,
            map,
            effects::inserts_at(at_line_of(line, behind), texts),
        ) == Some(effects::inserts_at(at_line_of((line + k) as u32, behind), texts)),
{
    let edits = effects::inserts_at(at_line_of(line, behind), texts);
    let goal = effects::inserts_at(at_line_of((line + k) as u32, behind), texts);
    lemma_inserts_anchored(at_line_of(line, behind), line, texts);
    let lines = anchor_lines(edits);
    assert(lines[0] == line);
    assert(map.dom().contains(line));
    if line < previous.len() {
        assert(map.dom().contains((line + 1) as u32));
    }
    if line > 1 {
        assert(map.dom().contains((line - 1) as u32));
    }
    assert(!holds_line(lines, line - 1));
    assert(!holds_line(lines, line + 1));
    assert(contexts_moved(previous, current, map, lines)) by {
        reveal(context_moved);
    }
    assert(edits.map_values(|e: EditView| shifted(e, k as int)) =~= goal);
}

/// The place behind a line, or before it.
pub open spec fn at_line_of(line: u32, behind: bool) -> Cursor {
    if behind {
        Cursor::AfterAnchor(Anchor { line })
    } else {
        Cursor::BeforeAnchor(Anchor { line })
    }
}

/// Rows put in among lines with others in front, and the lines that come of it.
proof fn lemma_made(
    front: Seq<Seq<char>>,
    ls: Seq<Seq<char>>,
    texts: Seq<Seq<char>>,
    cut: int,
)
    requires
        0 <= cut <= ls.len(),
        forall|i: int| 0 <= i < ls.len() ==> !(#[trigger] ls[i]).contains('\n'),
        forall|i: int| 0 <= i < texts.len() ==> !(#[trigger] texts[i]).contains('\n'),
    ensures
        ({
            let all = front + ls;
            let k = front.len();
            all.take(cut + k) + texts + all.skip(cut + k) == front + (ls.take(cut) + texts
                + ls.skip(cut))
        }),
        forall|i: int|
            0 <= i < ls.len() + texts.len() ==> !(#[trigger] (ls.take(cut) + texts + ls.skip(
                cut,
            ))[i]).contains('\n'),
{
    let all = front + ls;
    let k = front.len();
    let made = ls.take(cut) + texts + ls.skip(cut);
    assert(all.take(cut + k) + texts + all.skip(cut + k) =~= front + made);
    assert forall|i: int| 0 <= i < made.len() implies !(#[trigger] made[i]).contains('\n') by {
        if i < cut {
            assert(made[i] == ls[i]);
        } else if i < cut + texts.len() {
            assert(made[i] == texts[i - cut]);
        } else {
            assert(made[i] == ls[i - texts.len()]);
        }
    }
}

/// What the insertion makes of the text, and of the text with lines in front.
proof fn lemma_insertion_made(
    previous: Seq<char>,
    front: Seq<Seq<char>>,
    line: u32,
    behind: bool,
    texts: Seq<Seq<char>>,
)
    requires
        front.len() > 0,
        front.len() + text::lines(previous).len() <= u32::MAX,
        1 <= line <= text::lines(previous).len(),
        0 < texts.len() <= usize::MAX,
        forall|i: int| 0 <= i < front.len() ==> !(#[trigger] front[i]).contains('\n'),
        forall|i: int| 0 <= i < texts.len() ==> !(#[trigger] texts[i]).contains('\n'),
        apply::applied(
            previous,
            effects::inserts_at(at_line_of(line, behind), texts),
            Map::empty(),
        ).1.len() == 0,
        apply::applied(
            text::unlines(front) + seq!['\n'] + previous,
            effects::inserts_at(at_line_of((line + front.len()) as u32, behind), texts),
            Map::empty(),
        ).1.len() == 0,
    ensures
        text::lines(text::unlines(front) + seq!['\n'] + previous) == front + text::lines(previous),
        apply::applied(
            text::unlines(front) + seq!['\n'] + previous,
            effects::inserts_at(at_line_of((line + front.len()) as u32, behind), texts),
            Map::empty(),
        ).0 == text::unlines(front) + seq!['\n'] + apply::applied(
            previous,
            effects::inserts_at(at_line_of(line, behind), texts),
            Map::empty(),
        ).0,
        apply::applied(
            text::unlines(front) + seq!['\n'] + previous,
            effects::inserts_at(at_line_of((line + front.len()) as u32, behind), texts),
            Map::empty(),
        ).0 != text::unlines(front) + seq!['\n'] + previous,
{
    let current = text::unlines(front) + seq!['\n'] + previous;
    let ls = text::lines(previous);
    let k = front.len() as u32;
    let cut: int = if behind {
        line as int
    } else {
        line - 1
    };
    text::lemma_split_pieces(previous, '\n');
    text::law_join_split(previous, '\n');
    lemma_lines_in_front(front, ls);
    let made = ls.take(cut) + texts + ls.skip(cut);
    let moved = (line + k) as u32;
    if behind {
        effects::law_insert_behind(previous, line, texts, Map::empty());
        effects::law_insert_behind(current, moved, texts, Map::empty());
    } else {
        effects::law_insert_before(previous, line, texts);
        effects::law_insert_before(current, moved, texts);
    }
    lemma_made(front, ls, texts, cut);
    lemma_lines_in_front(front, made);
    assert(text::unlines(front + made) != current) by {
        assert((front + made).len() != (front + ls).len());
    }
}

/// Lines that were put in front of a recorded text leave an edit of it as it was: where the
/// difference shows every line of the text moved down by those lines, and no merge of the two
/// texts stands in the way, recovering an insertion that needs no correction gives those
/// lines, and behind them what the insertion makes of the recorded text.
pub proof fn law_insertion_recovered(
    snapshot: SnapshotView,
    is_head: bool,
    front: Seq<Seq<char>>,
    line: u32,
    behind: bool,
    texts: Seq<Seq<char>>,
)
    requires
        front.len() > 0,
        text::lines(snapshot.content).len() >= 2,
        front.len() + text::lines(snapshot.content).len() <= u32::MAX,
        1 <= line <= text::lines(snapshot.content).len(),
        0 < texts.len() <= usize::MAX,
        forall|i: int| 0 <= i < front.len() ==> !(#[trigger] front[i]).contains('\n'),
        forall|i: int| 0 <= i < texts.len() ==> !(#[trigger] texts[i]).contains('\n'),
        moves_down(
            map_between(snapshot.content, text::unlines(front) + seq!['\n'] + snapshot.content),
            text::lines(snapshot.content).len() as int,
            front.len() as int,
        ),
        by_merge(
            snapshot.content,
            text::unlines(front) + seq!['\n'] + snapshot.content,
            effects::inserts_at(at_line_of(line, behind), texts),
            if is_head {
                RECOVERY_EXTERNAL_WARNING@
            } else {
                RECOVERY_SESSION_CHAIN_WARNING@
            },
        ) is None,
        apply::applied(
            snapshot.content,
            effects::inserts_at(at_line_of(line, behind), texts),
            Map::empty(),
        ).1.len() == 0,
        apply::applied(
            text::unlines(front) + seq!['\n'] + snapshot.content,
            effects::inserts_at(at_line_of((line + front.len()) as u32, behind), texts),
            Map::empty(),
        ).1.len() == 0,
    ensures
        recovered(
            snapshot,
            is_head,
            text::unlines(front) + seq!['\n'] + snapshot.content,
            effects::inserts_at(at_line_of(line, behind), texts),
        ) matches Some(r) && r.text == text::unlines(front) + seq!['\n'] + apply::applied(
            snapshot.content,
            effects::inserts_at(at_line_of(line, behind), texts),
            Map::empty(),
        ).0,
{
    let previous = snapshot.content;
    let current = text::unlines(front) + seq!['\n'] + previous;
    lemma_insertion_made(previous, front, line, behind, texts);
    lemma_insertion_moved(
        text::lines(previous),
        text::lines(current),
        map_between(previous, current),
        front.len() as u32,
        line,
        behind,
        texts,
    );
}

/// The lines that edits are anchored on are those that they name, edit for edit.
pub proof fn law_anchor_lines(edits: Seq<EditView>)
    ensures
        anchor_lines(edits) == edits.filter_map(
            |e: EditView|
                match e {
                    EditView::Delete { anchor } => Some(anchor.line),
                    EditView::Block { anchor, .. } => Some(anchor.line),
                    EditView::Insert { cursor: Cursor::BeforeAnchor(a), .. } => Some(a.line),
                    EditView::Insert { cursor: Cursor::AfterAnchor(a), .. } => Some(a.line),
                    EditView::Insert { .. } => None,
                },
        ),
    decreases edits.len(),
{
    if edits.len() > 0 {
        law_anchor_lines(edits.drop_last());
    }
    assert(anchor_lines(edits) =~= edits.filter_map(
        |e: EditView|
            match e {
                EditView::Delete { anchor } => Some(anchor.line),
                EditView::Block { anchor, .. } => Some(anchor.line),
                EditView::Insert { cursor: Cursor::BeforeAnchor(a), .. } => Some(a.line),
                EditView::Insert { cursor: Cursor::AfterAnchor(a), .. } => Some(a.line),
                EditView::Insert { .. } => None,
            },
    ));
}

// ── What a merge keeps ───────────────────────────────────────────────────

proof fn lemma_applied_before(
    hunks: Seq<PatchHunkView>,
    target: Seq<Seq<char>>,
    extra: Seq<Seq<char>>,
)
    requires
        hunks_applied(hunks, target) is Some,
        forall|i: int| 0 <= i < hunks.len() ==> 0 <= (#[trigger] hunks[i]).start,
    ensures
        hunks_applied(hunks, target + extra) == hunks_applied(hunks, target),
        hunks_applied(hunks, target) matches Some((_, pos)) ==> 0 <= pos <= target.len(),
    decreases hunks.len(),
{
    if hunks.len() > 0 {
        let rest = hunks.drop_last();
        assert forall|i: int| 0 <= i < rest.len() implies 0 <= (#[trigger] rest[i]).start by {
            assert(rest[i] == hunks[i]);
        }
        lemma_applied_before(rest, target, extra);
        let h = hunks[hunks.len() - 1];
        let (done, pos) = hunks_applied(rest, target)->0;
        let end = h.start + h.old_lines.len();
        assert((target + extra).subrange(h.start, end) =~= target.subrange(h.start, end));
        assert((target + extra).subrange(pos, h.start) =~= target.subrange(pos, h.start));
    }
}

/// Lines that were put behind a text make no difference to a change of it and are not lost: the
/// change makes of the longer text what it makes of the text, with those lines behind.
pub proof fn law_appended_lines_kept(
    hunks: Seq<PatchHunkView>,
    target: Seq<Seq<char>>,
    extra: Seq<Seq<char>>,
)
    requires
        patched(hunks, target) is Some,
        forall|i: int| 0 <= i < hunks.len() ==> 0 <= (#[trigger] hunks[i]).start,
    ensures
        patched(hunks, target + extra) == Some(patched(hunks, target)->0 + extra),
{
    lemma_applied_before(hunks, target, extra);
    let (done, pos) = hunks_applied(hunks, target)->0;
    assert(done + (target + extra).skip(pos) =~= (done + target.skip(pos)) + extra);
}

/// A change taken from two texts, made to the first with lines behind it, gives the second with
/// those lines behind it.
pub proof fn law_change_reproduced_above(
    ops: Seq<(ChangeKind, Seq<char>)>,
    context: int,
    extra: Seq<Seq<char>>,
)
    requires
        0 <= context,
        engines::old_side(ops) != engines::new_side(ops),
    ensures
        patched(hunks_from(ops, 0, context), engines::old_side(ops) + extra) == Some(
            engines::new_side(ops) + extra,
        ),
{
    law_patch_reproduces(ops, context);
    lemma_starts(ops, 0, context);
    law_appended_lines_kept(hunks_from(ops, 0, context), engines::old_side(ops), extra);
}

proof fn lemma_starts(ops: Seq<(ChangeKind, Seq<char>)>, i: int, context: int)
    ensures
        forall|k: int|
            0 <= k < hunks_from(ops, i, context).len() ==> 0 <= (#[trigger] hunks_from(
                ops,
                i,
                context,
            )[k]).start,
    decreases ops.len() - i,
{
    let all = hunks_from(ops, i, context);
    if 0 <= i < ops.len() {
        if ops[i].0 == ChangeKind::Equal {
            lemma_starts(ops, i + 1, context);
            assert(all == hunks_from(ops, i + 1, context));
        } else {
            let e = group_end(ops, i, context);
            lemma_group_end(ops, i, context);
            lemma_starts(ops, e, context);
            let first = hunk_of(ops, i, e, context);
            let rest = hunks_from(ops, e, context);
            assert(all == seq![first] + rest);
            assert forall|k: int| 0 <= k < all.len() implies 0 <= (#[trigger] all[k]).start by {
                if k > 0 {
                    assert(all[k] == rest[k - 1]);
                } else {
                    assert(all[k] == first);
                }
            }
        }
    } else {
        assert(all.len() == 0);
    }
}

proof fn lemma_equal_lines(ops: Seq<(ChangeKind, Seq<char>)>, n: int)
    requires
        0 <= n <= ops.len(),
        unchanged(ops, 0, n),
    ensures
        engines::old_side(ops.take(n)).len() == n,
        engines::old_side(ops.take(n)) == engines::new_side(ops.take(n)),
    decreases n,
{
    let t = ops.take(n);
    if n > 0 {
        lemma_equal_lines(ops, n - 1);
        assert(t.drop_last() =~= ops.take(n - 1));
        assert(ops[n - 1].0 == ChangeKind::Equal);
        assert(t.last() == ops[n - 1]);
    }
}

/// A change is looked for together with the lines around it: the first hunk begins as many
/// unchanged lines before the first line that changed as the context has, or at the start of
/// the text.
pub proof fn law_hunk_has_context(ops: Seq<(ChangeKind, Seq<char>)>, i: int, context: int)
    requires
        0 <= context,
        0 <= i < ops.len(),
        ops[i].0 != ChangeKind::Equal,
        unchanged(ops, 0, i),
    ensures
        hunks_from(ops, 0, context).len() > 0,
        hunks_from(ops, 0, context)[0].start == (if i < context {
            0
        } else {
            i - context
        }),
{
    let a = if i > context {
        i - context
    } else {
        0
    };
    assert(unchanged(ops, 0, a)) by {
        assert forall|k: int| 0 <= k < a implies (#[trigger] ops[k]).0 == ChangeKind::Equal by {}
    }
    lemma_equal_lines(ops, a);
    lemma_skips_equal(ops, 0, i, context);
    lemma_group_end(ops, i, context);
}

proof fn lemma_skips_equal(ops: Seq<(ChangeKind, Seq<char>)>, j: int, i: int, context: int)
    requires
        0 <= j <= i < ops.len(),
        forall|k: int| j <= k < i ==> (#[trigger] ops[k]).0 == ChangeKind::Equal,
    ensures
        hunks_from(ops, j, context) == hunks_from(ops, i, context),
    decreases i - j,
{
    if j < i {
        assert(ops[j].0 == ChangeKind::Equal);
        lemma_skips_equal(ops, j + 1, i, context);
    }
}

/// The first line that changed is the first at which the two texts read differently, counted
/// from one; where one text is the beginning of the other, it is the line behind that.
pub proof fn law_first_changed_line(a: Seq<char>, b: Seq<char>, k: int)
    requires
        0 <= k < u32::MAX,
        k <= text::lines(a).len(),
        k <= text::lines(b).len(),
        k < text::lines(a).len() || k < text::lines(b).len(),
        forall|i: int| 0 <= i < k ==> text::lines(a)[i] == text::lines(b)[i],
        k < text::lines(a).len() && k < text::lines(b).len() ==> text::lines(a)[k]
            != text::lines(b)[k],
    ensures
        first_changed(a, b) == Some((k + 1) as u32),
{
    lemma_difference_at(text::lines(a), text::lines(b), k, 0);
}

proof fn lemma_difference_at(a: Seq<Seq<char>>, b: Seq<Seq<char>>, k: int, i: int)
    requires
        0 <= i <= k,
        k <= a.len(),
        k <= b.len(),
        k < a.len() || k < b.len(),
        forall|j: int| 0 <= j < k ==> a[j] == b[j],
        k < a.len() && k < b.len() ==> a[k] != b[k],
    ensures
        first_difference(a, b, i) == Some(k),
    decreases k - i,
{
    if i < k {
        assert(a[i] == b[i]);
        lemma_difference_at(a, b, k, i + 1);
    }
}

/// Edits are made to the live text as they are only where it has as many lines as the recorded
/// text and reads the same on every line that they name; and only for a version that is not the
/// last one recorded, when neither a merge nor moved anchors will do. What comes out is what
/// the edits make of the live text.
pub proof fn law_replay(
    snapshot: SnapshotView,
    is_head: bool,
    current: Seq<char>,
    edits: Seq<EditView>,
    banner: Seq<char>,
)
    requires
        banner == (if is_head {
            RECOVERY_EXTERNAL_WARNING@
        } else {
            RECOVERY_SESSION_CHAIN_WARNING@
        }),
        by_merge(snapshot.content, current, edits, banner) is None,
        by_remap(snapshot.content, current, edits) is None,
    ensures
        is_head ==> recovered(snapshot, is_head, current, edits) is None,
        recovered(snapshot, is_head, current, edits) matches Some(r) ==> {
            &&& r.text == apply::applied(current, edits, Map::empty()).0
            &&& r.text != current
            &&& text::lines(snapshot.content).len() == text::lines(current).len()
            &&& forall|i: int|
                0 <= i < anchor_lines(edits).len() ==> {
                    let l = #[trigger] anchor_lines(edits)[i];
                    1 <= l <= text::lines(current).len() && text::lines(snapshot.content)[l - 1]
                        == text::lines(current)[l - 1]
                }
        },
{
}

} // verus!
