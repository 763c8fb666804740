//! What edits make of a text, told line by line of the text and the edits alone.

use vstd::prelude::*;

use crate::apply;
use crate::apply::Place;
use crate::boundary;
use crate::boundary::{PassView, SlotView};
use crate::hunks;
use crate::hunks::{Group, RowEditView, RowOpView};
use crate::keeping;
use crate::landing;
use crate::rows;
use crate::rows::RowView;
use crate::text;
use crate::types::{Anchor, Cursor, EditView, InsertMode};

verus! {

// ── What edits ask for ───────────────────────────────────────────────────

/// The texts that plain insertions put at a cursor, in the order of the edits.
pub open spec fn put_at(edits: Seq<EditView>, cursor: Cursor) -> Seq<Seq<char>> {
    edits.filter_map(
        |e: EditView|
            match e {
                EditView::Insert { cursor: c, text, mode: InsertMode::Insert } => if c == cursor {
                    Some(text)
                } else {
                    None
                },
                _ => None,
            },
    )
}

/// The texts that stand in the stead of a line, in the order of the edits.
pub open spec fn put_instead(edits: Seq<EditView>, line: int) -> Seq<Seq<char>> {
    edits.filter_map(
        |e: EditView|
            match e {
                EditView::Insert {
                    cursor: Cursor::BeforeAnchor(a),
                    text,
                    mode: InsertMode::Replacement,
                } => if a.line == line {
                    Some(text)
                } else {
                    None
                },
                EditView::Insert {
                    cursor: Cursor::AfterAnchor(a),
                    text,
                    mode: InsertMode::Replacement,
                } => if a.line == line {
                    Some(text)
                } else {
                    None
                },
                _ => None,
            },
    )
}

/// The texts put at one end of the file, in the order of the edits.
pub open spec fn put_at_end(edits: Seq<EditView>, cursor: Cursor) -> Seq<Seq<char>> {
    edits.filter_map(
        |e: EditView|
            match e {
                EditView::Insert { cursor: c, text, .. } => if c == cursor {
                    Some(text)
                } else {
                    None
                },
                _ => None,
            },
    )
}

/// A line is the empty line behind a trailing newline.
pub open spec fn is_phantom(lines: Seq<Seq<char>>, line: int) -> bool {
    line == lines.len() && lines.len() > 1 && lines[line - 1].len() == 0
}

/// One of the edits deletes a line.
pub open spec fn deletes(edits: Seq<EditView>, line: int) -> bool {
    exists|i: int|
        0 <= i < edits.len() && #[trigger] edits[i] == (EditView::Delete {
            anchor: Anchor { line: line as u32 },
        })
}

/// What stands in the place of a line: what was put before it, what was put in its stead,
/// the line itself unless it was deleted, and what was put behind it.
pub open spec fn line_after(lines: Seq<Seq<char>>, edits: Seq<EditView>, line: int) -> Seq<
    Seq<char>,
> {
    put_at(edits, Cursor::BeforeAnchor(Anchor { line: line as u32 })) + put_instead(edits, line)
        + (if deletes(edits, line) && !is_phantom(lines, line) {
        Seq::empty()
    } else {
        seq![lines[line - 1]]
    }) + put_at(edits, Cursor::AfterAnchor(Anchor { line: line as u32 }))
}

/// Lines with others in front of them and behind them. A file that holds nothing gives way;
/// what is put behind a trailing newline stands before the empty line there.
pub open spec fn between(head: Seq<Seq<char>>, body: Seq<Seq<char>>, tail: Seq<Seq<char>>) -> Seq<
    Seq<char>,
> {
    let void = seq![Seq::<char>::empty()];
    let topped = if head.len() > 0 && body == void {
        head
    } else {
        head + body
    };
    if tail.len() == 0 {
        topped
    } else if topped == void {
        tail
    } else if topped.len() > 0 && topped.last().len() == 0 {
        topped.drop_last() + tail + void
    } else {
        topped + tail
    }
}

/// The lines of a text after edits.
pub open spec fn lines_after(lines: Seq<Seq<char>>, edits: Seq<EditView>) -> Seq<Seq<char>> {
    between(
        put_at_end(edits, Cursor::Bof),
        Seq::new(lines.len(), |i: int| line_after(lines, edits, i + 1)).flatten(),
        put_at_end(edits, Cursor::Eof),
    )
}

// ── Where nothing is told, nothing was repaired ──────────────────────────

proof fn lemma_untrimmed(edits: Seq<RowEditView>, file: Seq<RowView>, g: Group)
    requires
        g.end() <= edits.len(),
        boundary::local_repair(edits, file, g).warning is None,
    ensures
        boundary::local_repair(edits, file, g).edits == edits.subrange(g.start as int, g.end()),
{
    assert(boundary::trimmed(edits, g, 0, 0) =~= edits.subrange(g.start as int, g.end()));
}

#[verifier::spinoff_prover]
#[verifier::rlimit(40)]
proof fn lemma_slots_whole(edits: Seq<RowEditView>, file: Seq<RowView>, i: int)
    requires
        0 <= i <= edits.len() <= usize::MAX,
        hunks::in_bounds(edits, file.len() as int),
        forall|k: int|
            0 <= k < boundary::slots_from(edits, file, i).len() ==> (
            #[trigger] boundary::slots_from(edits, file, i)[k]).warning is None,
    ensures
        slots_joined(boundary::slots_from(edits, file, i)) == edits.skip(i),
    decreases edits.len() - i,
{
    let slots = boundary::slots_from(edits, file, i);
    if i < edits.len() {
        match hunks::group_at(edits, i) {
            Some(g) => {
                hunks::lemma_group_fits(edits, i, file.len() as int);
                let rest = boundary::slots_from(edits, file, g.end());
                assert forall|k: int| 0 <= k < rest.len() implies (
                #[trigger] rest[k]).warning is None by {
                    assert(slots[k + 1] == rest[k]);
                }
                lemma_slots_whole(edits, file, g.end());
                let first = boundary::local_repair(edits, file, g);
                assert(slots =~= seq![first] + rest);
                assert(slots[0] == first);
                assert(first.warning is None);
                lemma_untrimmed(edits, file, g);
                lemma_joined_first(first, rest);
                assert(edits.subrange(i, g.end()) + edits.skip(g.end()) =~= edits.skip(i));
            },
            None => {
                let rest = boundary::slots_from(edits, file, i + 1);
                assert forall|k: int| 0 <= k < rest.len() implies (
                #[trigger] rest[k]).warning is None by {
                    assert(slots[k + 1] == rest[k]);
                }
                lemma_slots_whole(edits, file, i + 1);
                let first = SlotView {
                    edits: edits.subrange(i, i + 1),
                    warning: None,
                    candidate: None,
                };
                assert(slots =~= seq![first] + rest);
                lemma_joined_first(first, rest);
                assert(edits.subrange(i, i + 1) + edits.skip(i + 1) =~= edits.skip(i));
            },
        }
    } else {
        assert(slots_joined(slots) =~= edits.skip(i));
    }
}

/// The edits of slots, one after the other.
pub open spec fn slots_joined(slots: Seq<SlotView>) -> Seq<RowEditView>
    decreases slots.len(),
{
    if slots.len() == 0 {
        Seq::empty()
    } else {
        slots[0].edits + slots_joined(slots.drop_first())
    }
}

proof fn lemma_joined_first(first: SlotView, rest: Seq<SlotView>)
    ensures
        slots_joined(seq![first] + rest) == first.edits + slots_joined(rest),
{
    let all = seq![first] + rest;
    assert(all.drop_first() =~= rest);
    assert(all[0] == first);
}

proof fn lemma_joined_last(slots: Seq<SlotView>)
    requires
        slots.len() > 0,
    ensures
        slots_joined(slots) == slots_joined(slots.drop_last()) + slots.last().edits,
    decreases slots.len(),
{
    if slots.len() == 1 {
        assert(slots.drop_first() =~= Seq::empty());
        assert(slots.drop_last() =~= Seq::empty());
        assert(slots_joined(slots) =~= slots_joined(slots.drop_last()) + slots.last().edits);
    } else {
        lemma_joined_last(slots.drop_first());
        assert(slots.drop_first().drop_last() =~= slots.drop_last().drop_first());
        assert(slots_joined(slots) =~= slots_joined(slots.drop_last()) + slots.last().edits);
    }
}

proof fn lemma_candidates_silent(edits: Seq<RowEditView>, file: Seq<RowView>, i: int)
    ensures
        forall|k: int|
            0 <= k < boundary::slots_from(edits, file, i).len() ==> ((
            #[trigger] boundary::slots_from(edits, file, i)[k]).candidate is Some
                ==> boundary::slots_from(edits, file, i)[k].warning is None),
    decreases (if i < edits.len() { edits.len() - i } else { 0 }),
{
    let slots = boundary::slots_from(edits, file, i);
    if 0 <= i < edits.len() {
        let next = match hunks::group_at(edits, i) {
            Some(g) => g.end(),
            None => i + 1,
        };
        if next > i {
            lemma_candidates_silent(edits, file, next);
            let rest = boundary::slots_from(edits, file, next);
            assert forall|k: int| 0 <= k < slots.len() implies ((
            #[trigger] slots[k]).candidate is Some ==> slots[k].warning is None) by {
                if k > 0 {
                    assert(slots[k] == rest[k - 1]);
                }
            }
        }
    }
}

proof fn lemma_silent_pass(
    init: PassView,
    slots: Seq<SlotView>,
    all: Seq<RowEditView>,
    edits: Seq<RowEditView>,
    file: Seq<RowView>,
)
    requires
        boundary::pass_slots(init, slots, all, edits, file).warnings.len() == 0,
        forall|k: int|
            0 <= k < slots.len() ==> ((#[trigger] slots[k]).candidate is Some ==> slots[k].warning
                is None),
    ensures
        boundary::pass_slots(init, slots, all, edits, file).out == init.out + slots_joined(slots),
        forall|k: int| 0 <= k < slots.len() ==> (#[trigger] slots[k]).warning is None,
    decreases slots.len(),
{
    if slots.len() == 0 {
        assert(init.out + slots_joined(slots) =~= init.out);
    } else {
        let rest = slots.drop_last();
        let st = boundary::pass_slots(init, rest, all, edits, file);
        let n = slots.len() - 1;
        assert(slots[n] == slots.last());
        assert forall|k: int| 0 <= k < rest.len() implies ((#[trigger] rest[k]).candidate is Some
            ==> rest[k].warning is None) by {
            assert(rest[k] == slots[k]);
        }
        assert(st.warnings.len() == 0);
        lemma_silent_pass(init, rest, all, edits, file);
        lemma_joined_last(slots);
        assert(init.out + (slots_joined(rest) + slots[n].edits) =~= (init.out + slots_joined(rest))
            + slots[n].edits);
        assert forall|k: int| 0 <= k < slots.len() implies (#[trigger] slots[k]).warning is None by {
            if k < n {
                assert(rest[k] == slots[k]);
            }
        }
    }
}

/// Where the boundary repair tells of nothing, it has dropped nothing.
pub proof fn law_silent_repair(edits: Seq<RowEditView>, file: Seq<RowView>)
    requires
        edits.len() <= usize::MAX,
        hunks::in_bounds(edits, file.len() as int),
        boundary::boundaries_repaired(edits, file).1.len() == 0,
    ensures
        boundary::boundaries_repaired(edits, file).0 == edits,
{
    let slots = boundary::slots_from(edits, file, 0);
    let all = boundary::projected(slots);
    let init = PassView {
        out: Seq::empty(),
        warnings: Seq::empty(),
        deleted: boundary::deleted_flags(all, file.len() as int),
        remaining: boundary::total_delta(slots, file),
    };
    lemma_candidates_silent(edits, file, 0);
    lemma_silent_pass(init, slots, all, edits, file);
    lemma_slots_whole(edits, file, 0);
    assert(edits.skip(0) =~= edits);
    assert(init.out + edits =~= edits);
}

pub proof fn lemma_first_of(edits: Seq<RowEditView>, key: (u32, usize), i: int, at: int)
    requires
        0 <= i <= at < edits.len(),
        landing::after_key(edits[at]) == Some(key),
    ensures
        i <= landing::first_of(edits, key, i) <= at,
        landing::after_key(edits[landing::first_of(edits, key, i)]) == Some(key),
        forall|j: int|
            i <= j < landing::first_of(edits, key, i) ==> landing::after_key(#[trigger] edits[j])
                != Some(key),
    decreases edits.len() - i,
{
    if landing::after_key(edits[i]) != Some(key) {
        lemma_first_of(edits, key, i + 1, at);
    }
}

proof fn lemma_silent_landing(edits: Seq<RowEditView>, file: Seq<RowView>, n: int, i: int)
    requires
        0 <= i < n <= edits.len(),
        landing::landing_warnings(edits, file, n).len() == 0,
        landing::after_key(edits[i]) matches Some(key) && landing::first_of(edits, key, 0) == i,
    ensures
        landing::shift(edits, file, i) is None,
    decreases n,
{
    if i < n - 1 {
        lemma_silent_landing(edits, file, n - 1, i);
    }
}

/// Where the landing correction tells of nothing, it has moved nothing.
pub proof fn law_silent_landing(edits: Seq<RowEditView>, file: Seq<RowView>)
    requires
        landing::landing_warnings(edits, file, edits.len() as int).len() == 0,
    ensures
        landing::landed(edits, file) == edits,
{
    assert forall|i: int| 0 <= i < edits.len() implies #[trigger] landing::landed_edit(
        edits,
        file,
        i,
    ) == edits[i] by {
        match landing::after_key(edits[i]) {
            Some(key) => {
                lemma_first_of(edits, key, 0, i);
                lemma_silent_landing(
                    edits,
                    file,
                    edits.len() as int,
                    landing::first_of(edits, key, 0),
                );
            },
            None => {},
        }
    }
    assert(landing::landed(edits, file) =~= edits);
}

// ── Rendering, told of the edits ─────────────────────────────────────────

/// Row edits stand for edits: one for one, with the same cursors, modes, texts and lines.
pub open spec fn stands_for(all: Seq<RowEditView>, edits: Seq<EditView>) -> bool {
    all.len() == edits.len() && forall|i: int|
        0 <= i < all.len() ==> match #[trigger] edits[i] {
            EditView::Insert { cursor, text, mode } => all[i].op matches RowOpView::Insert {
                cursor: c,
                row,
                mode: m,
            } && c == cursor && row.text == text && m == mode,
            EditView::Delete { anchor } => all[i].op == (RowOpView::Delete { line: anchor.line }),
            EditView::Block { .. } => false,
        }
}

proof fn lemma_stands_rest(all: Seq<RowEditView>, edits: Seq<EditView>)
    requires
        stands_for(all, edits),
        all.len() > 0,
    ensures
        stands_for(all.drop_last(), edits.drop_last()),
{
    let a = all.drop_last();
    let e = edits.drop_last();
    assert forall|i: int| 0 <= i < a.len() implies match #[trigger] e[i] {
        EditView::Insert { cursor, text, mode } => a[i].op matches RowOpView::Insert {
            cursor: c,
            row,
            mode: m,
        } && c == cursor && row.text == text && m == mode,
        EditView::Delete { anchor } => a[i].op == (RowOpView::Delete { line: anchor.line }),
        EditView::Block { .. } => false,
    } by {
        assert(e[i] == edits[i]);
        assert(a[i] == all[i]);
    }
}

/// The cursor of a place.
pub open spec fn cursor_of(place: Place, line: int) -> Cursor {
    match place {
        Place::Head => Cursor::Bof,
        Place::Tail => Cursor::Eof,
        Place::Before => Cursor::BeforeAnchor(Anchor { line: line as u32 }),
        Place::Instead => Cursor::BeforeAnchor(Anchor { line: line as u32 }),
        Place::After => Cursor::AfterAnchor(Anchor { line: line as u32 }),
    }
}

proof fn lemma_inserted(all: Seq<RowEditView>, edits: Seq<EditView>, line: int)
    requires
        stands_for(all, edits),
        0 <= line <= u32::MAX,
    ensures
        apply::inserted(all, Place::Before, line) == put_at(edits, cursor_of(Place::Before, line)),
        apply::inserted(all, Place::After, line) == put_at(edits, cursor_of(Place::After, line)),
        apply::inserted(all, Place::Instead, line) == put_instead(edits, line),
        apply::inserted(all, Place::Head, 0) == put_at_end(edits, Cursor::Bof),
        apply::inserted(all, Place::Tail, 0) == put_at_end(edits, Cursor::Eof),
    decreases all.len(),
{
    if all.len() > 0 {
        lemma_stands_rest(all, edits);
        lemma_inserted(all.drop_last(), edits.drop_last(), line);
        let n = edits.len() - 1;
        assert(edits[n] == edits.last());
        assert(all[n] == all.last());
        assert(apply::inserted(all, Place::Before, line) =~= put_at(
            edits,
            cursor_of(Place::Before, line),
        ));
        assert(apply::inserted(all, Place::After, line) =~= put_at(
            edits,
            cursor_of(Place::After, line),
        ));
        assert(apply::inserted(all, Place::Instead, line) =~= put_instead(edits, line));
        assert(apply::inserted(all, Place::Head, 0) =~= put_at_end(edits, Cursor::Bof));
        assert(apply::inserted(all, Place::Tail, 0) =~= put_at_end(edits, Cursor::Eof));
    }
}

proof fn lemma_phantom_inserted(all: Seq<RowEditView>, phantom: int, place: Place, line: int)
    ensures
        apply::inserted(apply::without_phantom(all, phantom), place, line) == apply::inserted(
            all,
            place,
            line,
        ),
    decreases all.len(),
{
    if all.len() > 0 {
        lemma_phantom_inserted(all.drop_last(), phantom, place, line);
        let rest = apply::without_phantom(all.drop_last(), phantom);
        assert(rest.push(all.last()).drop_last() =~= rest);
    }
}

proof fn lemma_phantom_deleted(all: Seq<RowEditView>, phantom: int, line: int)
    ensures
        apply::is_deleted(apply::without_phantom(all, phantom), line) == (apply::is_deleted(
            all,
            line,
        ) && !(phantom != 0 && line == phantom)),
    decreases all.len(),
{
    let kept = apply::without_phantom(all, phantom);
    if all.len() > 0 {
        let short = all.drop_last();
        let rest = apply::without_phantom(short, phantom);
        let n = all.len() - 1;
        lemma_phantom_deleted(short, phantom, line);
        if apply::is_deleted(kept, line) {
            let i = choose|i: int|
                0 <= i < kept.len() && match (#[trigger] kept[i]).op {
                    RowOpView::Delete { line: l } => l == line,
                    _ => false,
                };
            if i < rest.len() {
                assert(rest[i] == kept[i]);
                assert(apply::is_deleted(rest, line));
                let j = choose|j: int|
                    0 <= j < short.len() && match (#[trigger] short[j]).op {
                        RowOpView::Delete { line: l } => l == line,
                        _ => false,
                    };
                assert(all[j] == short[j]);
            } else {
                assert(kept[i] == all[n]);
            }
        }
        if apply::is_deleted(all, line) && !(phantom != 0 && line == phantom) {
            let i = choose|i: int|
                0 <= i < all.len() && match (#[trigger] all[i]).op {
                    RowOpView::Delete { line: l } => l == line,
                    _ => false,
                };
            if i < n {
                assert(short[i] == all[i]);
                assert(apply::is_deleted(short, line));
                let j = choose|j: int|
                    0 <= j < rest.len() && match (#[trigger] rest[j]).op {
                        RowOpView::Delete { line: l } => l == line,
                        _ => false,
                    };
                assert(kept[j] == rest[j]);
            } else {
                assert(kept[rest.len() as int] == all[n]);
            }
        }
    }
}

proof fn lemma_deleted(all: Seq<RowEditView>, edits: Seq<EditView>, line: int)
    requires
        stands_for(all, edits),
        0 <= line <= u32::MAX,
    ensures
        apply::is_deleted(all, line) == deletes(edits, line),
{
    if apply::is_deleted(all, line) {
        let i = choose|i: int|
            0 <= i < all.len() && match (#[trigger] all[i]).op {
                RowOpView::Delete { line: l } => l == line,
                _ => false,
            };
        assert(edits[i] == (EditView::Delete { anchor: Anchor { line: line as u32 } }));
    }
    if deletes(edits, line) {
        let i = choose|i: int|
            0 <= i < edits.len() && #[trigger] edits[i] == (EditView::Delete {
                anchor: Anchor { line: line as u32 },
            });
        assert(all[i].op == (RowOpView::Delete { line: line as u32 }));
    }
}

proof fn lemma_rendered(
    wanted: Seq<RowEditView>,
    all: Seq<RowEditView>,
    edits: Seq<EditView>,
    lines: Seq<Seq<char>>,
    n: int,
)
    requires
        stands_for(all, edits),
        wanted == apply::without_phantom(all, apply::phantom_line(rows::rows_of(lines))),
        0 <= n <= lines.len() <= u32::MAX,
    ensures
        apply::rendered(wanted, rows::rows_of(lines), n) == Seq::new(
            n as nat,
            |i: int| line_after(lines, edits, i + 1),
        ).flatten_alt(),
    decreases n,
{
    let file = rows::rows_of(lines);
    let parts = Seq::new(n as nat, |i: int| line_after(lines, edits, i + 1));
    if n > 0 {
        lemma_rendered(wanted, all, edits, lines, n - 1);
        let phantom = apply::phantom_line(file);
        assert(file[file.len() - 1].text == lines[lines.len() - 1]);
        assert(file[n - 1].text == lines[n - 1]);
        lemma_phantom_inserted(all, phantom, Place::Before, n);
        lemma_phantom_inserted(all, phantom, Place::Instead, n);
        lemma_phantom_inserted(all, phantom, Place::After, n);
        lemma_phantom_deleted(all, phantom, n);
        lemma_inserted(all, edits, n);
        lemma_deleted(all, edits, n);
        assert(apply::rendered_line(wanted, file, n) == line_after(lines, edits, n));
        assert(parts.drop_last() =~= Seq::new(
            (n - 1) as nat,
            |i: int| line_after(lines, edits, i + 1),
        ));
        assert(parts.last() == line_after(lines, edits, n));
    } else {
        assert(apply::rendered(wanted, file, n) =~= parts.flatten_alt());
    }
}

/// Edits do what they say: where nothing is told of a repair or a correction, each line of
/// the text stands as it was unless it was deleted, and what was inserted stands where it was
/// put, in the order of the edits, and nothing else stands anywhere.
pub proof fn law_edits_do_what_they_say(
    s: Seq<char>,
    edits: Seq<EditView>,
    block_starts: Map<usize, u32>,
)
    requires
        edits.len() <= usize::MAX,
        text::lines(s).len() <= u32::MAX,
        apply::applied(s, edits, block_starts).1.len() == 0,
    ensures
        edits.len() > 0 ==> apply::applied(s, edits, block_starts).0 == text::unlines(
            lines_after(text::lines(s), edits),
        ),
{
    let lines = text::lines(s);
    let file = rows::rows_of(lines);
    let n = lines.len() as int;
    if edits.len() > 0 {
        let all = hunks::indexed(edits, apply::insert_rows(edits), block_starts);
        let wanted = apply::without_phantom(all, apply::phantom_line(file));
        assert(!apply::has_block(edits));
        assert(stands_for(all, edits)) by {
            assert forall|i: int| 0 <= i < all.len() implies match #[trigger] edits[i] {
                EditView::Insert { cursor, text, mode } => all[i].op matches RowOpView::Insert {
                    cursor: c,
                    row,
                    mode: m,
                } && c == cursor && row.text == text && m == mode,
                EditView::Delete { anchor } => all[i].op == (RowOpView::Delete {
                    line: anchor.line,
                }),
                EditView::Block { .. } => false,
            } by {
                assert(!(edits[i] is Block));
                assert(apply::insert_rows(edits)[i].text == apply::insert_text(edits[i]));
            }
        }
        assert(apply::first_out_of_bounds(wanted, n, 0) is None);
        keeping::lemma_bounded(wanted, n, 0);
        keeping::lemma_phantom_len(all, apply::phantom_line(file));
        let (repaired, told) = boundary::boundaries_repaired(wanted, file);
        assert(told.len() == 0);
        law_silent_repair(wanted, file);
        law_silent_landing(wanted, file);
        lemma_whole_rendered(all, edits, lines);
    }
}

/// What is rendered of edits that are neither repaired nor moved.
pub proof fn lemma_whole_rendered(
    all: Seq<RowEditView>,
    edits: Seq<EditView>,
    lines: Seq<Seq<char>>,
)
    requires
        stands_for(all, edits),
        lines.len() <= u32::MAX,
    ensures
        apply::render(
            apply::without_phantom(all, apply::phantom_line(rows::rows_of(lines))),
            rows::rows_of(lines),
        ) == lines_after(lines, edits),
{
    let file = rows::rows_of(lines);
    let n = lines.len() as int;
    let wanted = apply::without_phantom(all, apply::phantom_line(file));
    lemma_rendered(wanted, all, edits, lines, n);
    let parts = Seq::new(n as nat, |i: int| line_after(lines, edits, i + 1));
    parts.lemma_flatten_and_flatten_alt_are_equivalent();
    lemma_phantom_inserted(all, apply::phantom_line(file), Place::Head, 0);
    lemma_phantom_inserted(all, apply::phantom_line(file), Place::Tail, 0);
    lemma_inserted(all, edits, 0);
    let head = put_at_end(edits, Cursor::Bof);
    let tail = put_at_end(edits, Cursor::Eof);
    lemma_ends(head, parts.flatten(), tail);
}

proof fn lemma_void(lines: Seq<Seq<char>>)
    ensures
        apply::is_void(lines) == (lines == seq![Seq::<char>::empty()]),
{
    if apply::is_void(lines) {
        assert(lines[0] =~= Seq::<char>::empty());
        assert(lines =~= seq![Seq::<char>::empty()]);
    }
}

proof fn lemma_ends(head: Seq<Seq<char>>, body: Seq<Seq<char>>, tail: Seq<Seq<char>>)
    ensures
        apply::with_tail(apply::with_head(body, head), tail) == between(head, body, tail),
{
    lemma_void(body);
    let topped = apply::with_head(body, head);
    lemma_void(topped);
    if head.len() == 0 {
        assert(head + body =~= body);
    }
}

// ── One hunk at a time ───────────────────────────────────────────────────

/// Plain insertions of texts at one cursor.
pub open spec fn inserts_at(cursor: Cursor, texts: Seq<Seq<char>>) -> Seq<EditView> {
    Seq::new(
        texts.len(),
        |i: int| EditView::Insert { cursor, text: texts[i], mode: InsertMode::Insert },
    )
}

/// The edits of a replacement: the rows of the body, then a deletion of each line of the range.
pub open spec fn swap_edits(a: u32, b: u32, texts: Seq<Seq<char>>) -> Seq<EditView> {
    Seq::new(
        texts.len(),
        |i: int|
            EditView::Insert {
                cursor: Cursor::BeforeAnchor(Anchor { line: a }),
                text: texts[i],
                mode: InsertMode::Replacement,
            },
    ) + Seq::new(
        (b - a + 1) as nat,
        |i: int| EditView::Delete { anchor: Anchor { line: (a + i) as u32 } },
    )
}

proof fn lemma_flatten_region(
    lines: Seq<Seq<char>>,
    parts: Seq<Seq<Seq<char>>>,
    a: int,
    b: int,
    x: Seq<Seq<char>>,
    n: int,
)
    requires
        parts.len() == lines.len(),
        0 <= a < b <= lines.len(),
        0 <= n <= lines.len(),
        parts[a] == x,
        forall|i: int| a < i < b ==> (#[trigger] parts[i]) == Seq::<Seq<char>>::empty(),
        forall|i: int|
            0 <= i < parts.len() && !(a <= i < b) ==> (#[trigger] parts[i]) == seq![lines[i]],
    ensures
        n <= a ==> parts.take(n).flatten_alt() == lines.take(n),
        a < n <= b ==> parts.take(n).flatten_alt() == lines.take(a) + x,
        b <= n ==> parts.take(n).flatten_alt() == lines.take(a) + x + lines.subrange(b, n),
    decreases n,
{
    if n > 0 {
        lemma_flatten_region(lines, parts, a, b, x, n - 1);
        let t = parts.take(n);
        assert(t.drop_last() =~= parts.take(n - 1));
        assert(t.last() == parts[n - 1]);
        if n <= a {
            assert(parts[n - 1] == seq![lines[n - 1]]);
            assert(lines.take(n) =~= lines.take(n - 1) + seq![lines[n - 1]]);
        } else if n <= b {
            if n - 1 > a {
                assert(parts[n - 1] == Seq::<Seq<char>>::empty());
                assert(lines.take(a) + x + Seq::<Seq<char>>::empty() =~= lines.take(a) + x);
            }
            if n == b {
                assert(lines.take(a) + x + lines.subrange(b, n) =~= lines.take(a) + x);
            }
        } else {
            assert(parts[n - 1] == seq![lines[n - 1]]);
            assert(lines.take(a) + x + lines.subrange(b, n) =~= lines.take(a) + x + lines.subrange(
                b,
                n - 1,
            ) + seq![lines[n - 1]]);
        }
    } else {
        assert(parts.take(0).flatten_alt() =~= lines.take(0));
    }
}

proof fn lemma_region(
    lines: Seq<Seq<char>>,
    parts: Seq<Seq<Seq<char>>>,
    a: int,
    b: int,
    x: Seq<Seq<char>>,
)
    requires
        parts.len() == lines.len(),
        0 <= a < b <= lines.len(),
        parts[a] == x,
        forall|i: int| a < i < b ==> (#[trigger] parts[i]) == Seq::<Seq<char>>::empty(),
        forall|i: int|
            0 <= i < parts.len() && !(a <= i < b) ==> (#[trigger] parts[i]) == seq![lines[i]],
    ensures
        parts.flatten() == lines.take(a) + x + lines.skip(b),
{
    lemma_flatten_region(lines, parts, a, b, x, lines.len() as int);
    assert(parts.take(parts.len() as int) =~= parts);
    assert(lines.subrange(b, lines.len() as int) =~= lines.skip(b));
    parts.lemma_flatten_and_flatten_alt_are_equivalent();
}

pub proof fn lemma_filter_all<B>(edits: Seq<EditView>, f: spec_fn(EditView) -> Option<B>, want: Seq<B>)
    requires
        edits.len() == want.len(),
        forall|i: int| 0 <= i < edits.len() ==> f(#[trigger] edits[i]) == Some(want[i]),
    ensures
        edits.filter_map(f) == want,
    decreases edits.len(),
{
    if edits.len() > 0 {
        let e = edits.drop_last();
        let w = want.drop_last();
        assert forall|i: int| 0 <= i < e.len() implies f(#[trigger] e[i]) == Some(w[i]) by {
            assert(e[i] == edits[i]);
        }
        lemma_filter_all(e, f, w);
        assert(f(edits[edits.len() - 1]) == Some(want[want.len() - 1]));
        assert(w + seq![want[want.len() - 1]] =~= want);
    } else {
        assert(edits.filter_map(f) =~= want);
    }
}

pub proof fn lemma_filter_add<B>(
    a: Seq<EditView>,
    b: Seq<EditView>,
    f: spec_fn(EditView) -> Option<B>,
)
    ensures
        (a + b).filter_map(f) == a.filter_map(f) + b.filter_map(f),
    decreases b.len(),
{
    if b.len() == 0 {
        assert(a + b =~= a);
        assert(a.filter_map(f) + b.filter_map(f) =~= a.filter_map(f));
    } else {
        lemma_filter_add(a, b.drop_last(), f);
        assert((a + b).drop_last() =~= a + b.drop_last());
        assert((a + b).last() == b.last());
        assert((a + b).filter_map(f) =~= a.filter_map(f) + b.filter_map(f));
    }
}

pub proof fn lemma_filter_none<B>(edits: Seq<EditView>, f: spec_fn(EditView) -> Option<B>)
    requires
        forall|i: int| 0 <= i < edits.len() ==> f(#[trigger] edits[i]) is None,
    ensures
        edits.filter_map(f) == Seq::<B>::empty(),
    decreases edits.len(),
{
    if edits.len() > 0 {
        let e = edits.drop_last();
        assert forall|i: int| 0 <= i < e.len() implies f(#[trigger] e[i]) is None by {
            assert(e[i] == edits[i]);
        }
        lemma_filter_none(e, f);
        assert(f(edits[edits.len() - 1]) is None);
    }
}

/// The choice that [`put_at`] makes.
pub open spec fn at_cursor(cursor: Cursor) -> spec_fn(EditView) -> Option<Seq<char>> {
    |e: EditView|
        match e {
            EditView::Insert { cursor: c, text, mode: InsertMode::Insert } => if c == cursor {
                Some(text)
            } else {
                None
            },
            _ => None,
        }
}

pub open spec fn at_line(line: int) -> spec_fn(EditView) -> Option<Seq<char>> {
    |e: EditView|
        match e {
            EditView::Insert {
                cursor: Cursor::BeforeAnchor(a),
                text,
                mode: InsertMode::Replacement,
            } => if a.line == line {
                Some(text)
            } else {
                None
            },
            EditView::Insert {
                cursor: Cursor::AfterAnchor(a),
                text,
                mode: InsertMode::Replacement,
            } => if a.line == line {
                Some(text)
            } else {
                None
            },
            _ => None,
        }
}

pub open spec fn at_file_end(cursor: Cursor) -> spec_fn(EditView) -> Option<Seq<char>> {
    |e: EditView|
        match e {
            EditView::Insert { cursor: c, text, .. } => if c == cursor {
                Some(text)
            } else {
                None
            },
            _ => None,
        }
}

pub proof fn lemma_choices(edits: Seq<EditView>, cursor: Cursor, line: int)
    ensures
        put_at(edits, cursor) == edits.filter_map(at_cursor(cursor)),
        put_instead(edits, line) == edits.filter_map(at_line(line)),
        put_at_end(edits, cursor) == edits.filter_map(at_file_end(cursor)),
{
    assert(at_cursor(cursor) =~= |e: EditView|
        match e {
            EditView::Insert { cursor: c, text, mode: InsertMode::Insert } => if c == cursor {
                Some(text)
            } else {
                None
            },
            _ => None,
        });
    assert(at_line(line) =~= |e: EditView|
        match e {
            EditView::Insert {
                cursor: Cursor::BeforeAnchor(a),
                text,
                mode: InsertMode::Replacement,
            } => if a.line == line {
                Some(text)
            } else {
                None
            },
            EditView::Insert {
                cursor: Cursor::AfterAnchor(a),
                text,
                mode: InsertMode::Replacement,
            } => if a.line == line {
                Some(text)
            } else {
                None
            },
            _ => None,
        });
    assert(at_file_end(cursor) =~= |e: EditView|
        match e {
            EditView::Insert { cursor: c, text, .. } => if c == cursor {
                Some(text)
            } else {
                None
            },
            _ => None,
        });
}

/// What insertions at one cursor put where.
proof fn lemma_inserts_put(cursor: Cursor, texts: Seq<Seq<char>>, other: Cursor, line: int)
    ensures
        put_at(inserts_at(cursor, texts), other) == (if other == cursor {
            texts
        } else {
            Seq::empty()
        }),
        put_at_end(inserts_at(cursor, texts), other) == (if other == cursor {
            texts
        } else {
            Seq::empty()
        }),
        put_instead(inserts_at(cursor, texts), line) == Seq::<Seq<char>>::empty(),
        !deletes(inserts_at(cursor, texts), line),
{
    let edits = inserts_at(cursor, texts);
    lemma_choices(edits, other, line);
    if other == cursor {
        lemma_filter_all(edits, at_cursor(other), texts);
        lemma_filter_all(edits, at_file_end(other), texts);
    } else {
        lemma_filter_none(edits, at_cursor(other));
        lemma_filter_none(edits, at_file_end(other));
    }
    lemma_filter_none(edits, at_line(line));
}

pub proof fn lemma_inserted_lines(lines: Seq<Seq<char>>, cursor: Cursor, texts: Seq<Seq<char>>)
    requires
        0 < lines.len() <= u32::MAX,
        cursor.anchored() matches Some(k) ==> 1 <= k <= lines.len(),
    ensures
        lines_after(lines, inserts_at(cursor, texts)) == (match cursor {
            Cursor::BeforeAnchor(a) => lines.take(a.line - 1) + texts + lines.skip(a.line - 1),
            Cursor::AfterAnchor(a) => lines.take(a.line as int) + texts + lines.skip(
                a.line as int,
            ),
            Cursor::Bof => between(texts, lines, Seq::empty()),
            Cursor::Eof => between(Seq::empty(), lines, texts),
        }),
{
    let edits = inserts_at(cursor, texts);
    let none = Seq::<Seq<char>>::empty();
    let parts = Seq::new(lines.len(), |i: int| line_after(lines, edits, i + 1));
    assert forall|i: int| 0 <= i < lines.len() implies (#[trigger] parts[i]) == (match cursor {
        Cursor::BeforeAnchor(a) => if a.line == i + 1 {
            texts + seq![lines[i]]
        } else {
            seq![lines[i]]
        },
        Cursor::AfterAnchor(a) => if a.line == i + 1 {
            seq![lines[i]] + texts
        } else {
            seq![lines[i]]
        },
        _ => seq![lines[i]],
    }) by {
        lemma_inserts_put(
            cursor,
            texts,
            Cursor::BeforeAnchor(Anchor { line: (i + 1) as u32 }),
            i + 1,
        );
        lemma_inserts_put(
            cursor,
            texts,
            Cursor::AfterAnchor(Anchor { line: (i + 1) as u32 }),
            i + 1,
        );
        let whole = line_after(lines, edits, i + 1);
        match cursor {
            Cursor::BeforeAnchor(a) => {
                if a.line == i + 1 {
                    assert(whole =~= texts + seq![lines[i]]);
                } else {
                    assert(whole =~= seq![lines[i]]);
                }
            },
            Cursor::AfterAnchor(a) => {
                if a.line == i + 1 {
                    assert(whole =~= seq![lines[i]] + texts);
                } else {
                    assert(whole =~= seq![lines[i]]);
                }
            },
            _ => {
                assert(whole =~= seq![lines[i]]);
            },
        }
    }
    let k = match cursor.anchored() {
        Some(l) => l as int,
        None => 1,
    };
    lemma_region(lines, parts, k - 1, k, parts[k - 1]);
    lemma_inserts_put(cursor, texts, Cursor::Bof, 0);
    lemma_inserts_put(cursor, texts, Cursor::Eof, 0);
    let body = parts.flatten();
    match cursor {
        Cursor::BeforeAnchor(a) => {
            assert(body =~= lines.take(k - 1) + texts + lines.skip(k - 1));
            assert(none + body =~= body);
        },
        Cursor::AfterAnchor(a) => {
            assert(body =~= lines.take(k) + texts + lines.skip(k));
            assert(none + body =~= body);
        },
        _ => {
            assert(body =~= lines);
        },
    }
}

/// Insertions behind a line: the text up to that line, the rows in their order, the rest of
/// the text, where no landing was corrected.
pub proof fn law_insert_behind(
    s: Seq<char>,
    line: u32,
    texts: Seq<Seq<char>>,
    block_starts: Map<usize, u32>,
)
    requires
        0 < texts.len() <= usize::MAX,
        1 <= line <= text::lines(s).len() <= u32::MAX,
        apply::applied(
            s,
            inserts_at(Cursor::AfterAnchor(Anchor { line }), texts),
            block_starts,
        ).1.len() == 0,
    ensures
        apply::applied(
            s,
            inserts_at(Cursor::AfterAnchor(Anchor { line }), texts),
            block_starts,
        ).0 == text::unlines(
            text::lines(s).take(line as int) + texts + text::lines(s).skip(line as int),
        ),
{
    let cursor = Cursor::AfterAnchor(Anchor { line });
    law_edits_do_what_they_say(s, inserts_at(cursor, texts), block_starts);
    lemma_inserted_lines(text::lines(s), cursor, texts);
}

/// Where no edit replaces anything and none is put behind a line, nothing is repaired or
/// corrected, so nothing is told.
pub proof fn lemma_plain(edits: Seq<RowEditView>, file: Seq<RowView>)
    requires
        edits.len() <= usize::MAX,
        forall|i: int|
            0 <= i < edits.len() ==> match (#[trigger] edits[i]).op {
                RowOpView::Insert { mode, .. } => mode == InsertMode::Insert,
                _ => true,
            },
    ensures
        boundary::boundaries_repaired(edits, file) == (edits, Seq::<Seq<char>>::empty()),
{
    let slots = boundary::slots_from(edits, file, 0);
    let all = boundary::projected(slots);
    let init = PassView {
        out: Seq::empty(),
        warnings: Seq::empty(),
        deleted: boundary::deleted_flags(all, file.len() as int),
        remaining: boundary::total_delta(slots, file),
    };
    lemma_plain_slots(edits, file, 0);
    keeping::lemma_lone_pass(init, slots, all, edits, file, edits.len() as int);
    assert(slots.take(edits.len() as int) =~= slots);
    assert(init.out + edits.take(edits.len() as int) =~= edits);
}

proof fn lemma_plain_slots(edits: Seq<RowEditView>, file: Seq<RowView>, i: int)
    requires
        0 <= i <= edits.len(),
        forall|i: int|
            0 <= i < edits.len() ==> match (#[trigger] edits[i]).op {
                RowOpView::Insert { mode, .. } => mode == InsertMode::Insert,
                _ => true,
            },
    ensures
        boundary::slots_from(edits, file, i) == Seq::new(
            (edits.len() - i) as nat,
            |k: int| keeping::lone_slot(edits, i + k),
        ),
    decreases edits.len() - i,
{
    let want = Seq::new((edits.len() - i) as nat, |k: int| keeping::lone_slot(edits, i + k));
    if i < edits.len() {
        lemma_plain_slots(edits, file, i + 1);
        assert(match edits[i].op {
            RowOpView::Insert { mode, .. } => mode == InsertMode::Insert,
            _ => true,
        });
        assert(hunks::group_at(edits, i) is None);
        let rest = Seq::new(
            (edits.len() - (i + 1)) as nat,
            |k: int| keeping::lone_slot(edits, i + 1 + k),
        );
        assert(boundary::slots_from(edits, file, i) == seq![keeping::lone_slot(edits, i)] + rest);
        assert(seq![keeping::lone_slot(edits, i)] + rest =~= want);
    } else {
        assert(boundary::slots_from(edits, file, i) =~= want);
    }
}

pub proof fn lemma_no_slides(edits: Seq<RowEditView>, file: Seq<RowView>, n: int)
    requires
        n <= edits.len(),
        forall|i: int|
            0 <= i < edits.len() ==> landing::shift(edits, file, #[trigger] id(i)) is None,
    ensures
        landing::landing_warnings(edits, file, n) == Seq::<Seq<char>>::empty(),
    decreases n,
{
    if n > 0 {
        lemma_no_slides(edits, file, n - 1);
        assert(id(n - 1) == n - 1);
    }
}

pub open spec fn id(i: int) -> int {
    i
}

/// A line begins with a tab or a space.
pub open spec fn is_indented(line: Seq<char>) -> bool {
    line.len() > 0 && (line[0] == ' ' || line[0] == '\t')
}

/// Insertions at one cursor bring no warning, unless they stand behind an indented line.
proof fn lemma_inserts_told(s: Seq<char>, cursor: Cursor, texts: Seq<Seq<char>>)
    requires
        0 < texts.len() <= usize::MAX,
        cursor.anchored() matches Some(k) ==> 1 <= k <= text::lines(s).len(),
        cursor matches Cursor::AfterAnchor(a) ==> !is_indented(text::lines(s)[a.line - 1]),
    ensures
        apply::applied(s, inserts_at(cursor, texts), Map::empty()).1 == Seq::<Seq<char>>::empty(),
{
    let edits = inserts_at(cursor, texts);
    let lines = text::lines(s);
    let file = rows::rows_of(lines);
    let n = lines.len() as int;
    let all = hunks::indexed(edits, apply::insert_rows(edits), Map::empty());
    assert forall|i: int| 0 <= i < all.len() implies ((#[trigger] all[i]).op matches RowOpView::Insert {
        cursor: c,
        row,
        mode,
    } && c == cursor && mode == InsertMode::Insert) && all[i].block_start is None by {
        assert(edits[i] is Insert);
    }
    assert(!apply::has_block(edits)) by {
        assert forall|i: int| 0 <= i < edits.len() implies !((#[trigger] edits[i]) is Block) by {}
    }
    keeping::lemma_phantom_unnamed(all, apply::phantom_line(file));
    keeping::lemma_in_bounds(all, n, 0);
    lemma_plain(all, file);
    assert forall|i: int| 0 <= i < all.len() implies landing::shift(
        all,
        file,
        #[trigger] id(i),
    ) is None by {
        let e = all[i];
        match landing::after_key(e) {
            Some(key) => {
                let row = file[key.0 - 1];
                assert(row.text == lines[key.0 - 1]);
                assert(rows::indent(row.text).len() == 0);
            },
            None => {},
        }
    }
    lemma_no_slides(all, file, all.len() as int);
    assert(Seq::<Seq<char>>::empty() + Seq::<Seq<char>>::empty() =~= Seq::<Seq<char>>::empty());
}

/// Insertions behind a line that is not indented always land there, and nothing is told.
pub proof fn law_insert_behind_unindented(s: Seq<char>, line: u32, texts: Seq<Seq<char>>)
    requires
        0 < texts.len() <= usize::MAX,
        1 <= line <= text::lines(s).len() <= u32::MAX,
        !is_indented(text::lines(s)[line - 1]),
    ensures
        apply::applied(
            s,
            inserts_at(Cursor::AfterAnchor(Anchor { line }), texts),
            Map::empty(),
        ) == (
            text::unlines(
                text::lines(s).take(line as int) + texts + text::lines(s).skip(line as int),
            ),
            Seq::<Seq<char>>::empty(),
        ),
{
    lemma_inserts_told(s, Cursor::AfterAnchor(Anchor { line }), texts);
    law_insert_behind(s, line, texts, Map::empty());
}

/// Insertions before a line: the text up to that line, the rows in their order, then the line
/// and the rest of the text.
pub proof fn law_insert_before(s: Seq<char>, line: u32, texts: Seq<Seq<char>>)
    requires
        0 < texts.len() <= usize::MAX,
        1 <= line <= text::lines(s).len() <= u32::MAX,
    ensures
        apply::applied(
            s,
            inserts_at(Cursor::BeforeAnchor(Anchor { line }), texts),
            Map::empty(),
        ) == (
            text::unlines(
                text::lines(s).take(line - 1) + texts + text::lines(s).skip(line - 1),
            ),
            Seq::<Seq<char>>::empty(),
        ),
{
    let cursor = Cursor::BeforeAnchor(Anchor { line });
    lemma_inserts_told(s, cursor, texts);
    law_edits_do_what_they_say(s, inserts_at(cursor, texts), Map::empty());
    lemma_inserted_lines(text::lines(s), cursor, texts);
}

/// Insertions at the start of a file stand in front of its lines, in their order; they take
/// the place of a file that holds nothing.
pub proof fn law_insert_at_start(s: Seq<char>, texts: Seq<Seq<char>>)
    requires
        0 < texts.len() <= usize::MAX,
        text::lines(s).len() <= u32::MAX,
    ensures
        apply::applied(s, inserts_at(Cursor::Bof, texts), Map::empty()) == (
            text::unlines(
                if s.len() == 0 {
                    texts
                } else {
                    texts + text::lines(s)
                },
            ),
            Seq::<Seq<char>>::empty(),
        ),
{
    text::lemma_split_nonempty(s, '\n');
    lemma_inserts_told(s, Cursor::Bof, texts);
    law_edits_do_what_they_say(s, inserts_at(Cursor::Bof, texts), Map::empty());
    lemma_inserted_lines(text::lines(s), Cursor::Bof, texts);
    lemma_nothing(s);
}

/// Insertions at the end of a file stand behind its lines, in their order, and before the
/// empty line behind a trailing newline; they take the place of a file that holds nothing.
pub proof fn law_insert_at_end(s: Seq<char>, texts: Seq<Seq<char>>)
    requires
        0 < texts.len() <= usize::MAX,
        text::lines(s).len() <= u32::MAX,
    ensures
        apply::applied(s, inserts_at(Cursor::Eof, texts), Map::empty()) == (
            text::unlines(
                if s.len() == 0 {
                    texts
                } else if s.last() == '\n' {
                    text::lines(s).drop_last() + texts + seq![Seq::<char>::empty()]
                } else {
                    text::lines(s) + texts
                },
            ),
            Seq::<Seq<char>>::empty(),
        ),
{
    let lines = text::lines(s);
    text::lemma_split_nonempty(s, '\n');
    lemma_inserts_told(s, Cursor::Eof, texts);
    law_edits_do_what_they_say(s, inserts_at(Cursor::Eof, texts), Map::empty());
    lemma_inserted_lines(lines, Cursor::Eof, texts);
    lemma_nothing(s);
    assert(Seq::<Seq<char>>::empty() + lines =~= lines);
    if s.len() > 0 {
        text::lemma_split_nonempty(s.drop_last(), '\n');
        if s.last() != '\n' {
            assert(lines.last().len() > 0);
        }
    }
}

proof fn lemma_nothing(s: Seq<char>)
    ensures
        (text::lines(s) == seq![Seq::<char>::empty()]) == (s.len() == 0),
{
    if s.len() > 0 {
        text::lemma_split_nonempty(s.drop_last(), '\n');
        let before = text::lines(s.drop_last());
        if s.last() == '\n' {
            assert(text::lines(s).len() == before.len() + 1);
        } else {
            assert(text::lines(s).last().len() > 0);
        }
    } else {
        assert(text::lines(s) =~= seq![Seq::<char>::empty()]);
    }
}

/// What the edits of a replacement put where.
proof fn lemma_swap_put(a: u32, b: u32, texts: Seq<Seq<char>>, cursor: Cursor, line: int)
    requires
        1 <= a <= b,
        0 <= line <= u32::MAX,
    ensures
        put_at(swap_edits(a, b, texts), cursor) == Seq::<Seq<char>>::empty(),
        cursor.anchored() is None ==> put_at_end(swap_edits(a, b, texts), cursor) == Seq::<
            Seq<char>,
        >::empty(),
        put_instead(swap_edits(a, b, texts), line) == (if line == a {
            texts
        } else {
            Seq::empty()
        }),
        deletes(swap_edits(a, b, texts), line) == (a <= line <= b),
{
    let edits = swap_edits(a, b, texts);
    let n = texts.len();
    let ins = edits.take(n as int);
    let del = edits.skip(n as int);
    assert(edits =~= ins + del);
    lemma_choices(edits, cursor, line);
    lemma_filter_none(edits, at_cursor(cursor));
    if cursor.anchored() is None {
        lemma_filter_none(edits, at_file_end(cursor));
    }
    if line == a {
        lemma_filter_add(ins, del, at_line(line));
        lemma_filter_all(ins, at_line(line), texts);
        lemma_filter_none(del, at_line(line));
        assert(texts + Seq::<Seq<char>>::empty() =~= texts);
    } else {
        lemma_filter_none(edits, at_line(line));
    }
    if a <= line <= b {
        assert(edits[n + (line - a)] == (EditView::Delete {
            anchor: Anchor { line: line as u32 },
        }));
    }
}

/// A replacement puts the rows of its body, in their order, in the place of the lines of its
/// range and leaves the others, where nothing was repaired.
pub proof fn law_swap(
    s: Seq<char>,
    a: u32,
    b: u32,
    texts: Seq<Seq<char>>,
    block_starts: Map<usize, u32>,
)
    requires
        1 <= a <= b <= text::lines(s).len() <= u32::MAX,
        swap_edits(a, b, texts).len() <= usize::MAX,
        !is_phantom(text::lines(s), b as int),
        apply::applied(s, swap_edits(a, b, texts), block_starts).1.len() == 0,
    ensures
        apply::applied(s, swap_edits(a, b, texts), block_starts).0 == text::unlines(
            text::lines(s).take(a - 1) + texts + text::lines(s).skip(b as int),
        ),
{
    let lines = text::lines(s);
    let edits = swap_edits(a, b, texts);
    law_edits_do_what_they_say(s, edits, block_starts);
    let parts = Seq::new(lines.len(), |i: int| line_after(lines, edits, i + 1));
    assert forall|i: int| 0 <= i < lines.len() implies (#[trigger] parts[i]) == (if i == a - 1 {
        texts
    } else if a - 1 < i < b {
        Seq::empty()
    } else {
        seq![lines[i]]
    }) by {
        let l = (i + 1) as u32;
        lemma_swap_put(a, b, texts, Cursor::BeforeAnchor(Anchor { line: l }), i + 1);
        lemma_swap_put(a, b, texts, Cursor::AfterAnchor(Anchor { line: l }), i + 1);
        let whole = line_after(lines, edits, i + 1);
        if i == a - 1 {
            assert(whole =~= texts);
        } else if a - 1 < i < b {
            assert(whole =~= Seq::empty());
        } else {
            assert(whole =~= seq![lines[i]]);
        }
    }
    lemma_region(lines, parts, a - 1, b as int, texts);
    lemma_swap_put(a, b, texts, Cursor::Bof, 0);
    lemma_swap_put(a, b, texts, Cursor::Eof, 0);
    let body = parts.flatten();
    assert(Seq::<Seq<char>>::empty() + body =~= body);
}

} // verus!
