//! Where an insertion behind a line lands.

use vstd::prelude::*;

use crate::apply;
use crate::effects;
use crate::engines;
use crate::hunks;
use crate::hunks::{RowEditView, RowOpView};
use crate::keeping;
use crate::landing;
use crate::patterns;
use crate::rows;
use crate::rows::RowView;
use crate::text;
use crate::types::{Anchor, Cursor, EditView, InsertMode};

verus! {

// ── Slides past closing lines ────────────────────────────────────────────

/// A line that a slide to a depth may pass: a blank one, or one that does nothing but close
/// and is at least that deep.
pub open spec fn is_passed(line: Seq<char>, target: Seq<char>) -> bool {
    rows::has_content(line) ==> engines::found(patterns::STRUCTURAL_CLOSER_PATTERN@, line)
        && text::has_prefix(rows::indent(line), target)
}

proof fn lemma_slide_out(
    edits: Seq<RowEditView>,
    lines: Seq<Seq<char>>,
    target: Seq<char>,
    line: int,
    landing: int,
    crossed: int,
)
    requires
        1 <= landing < line <= lines.len() + 1,
        lines.len() <= u32::MAX,
    ensures
        landing::slide_out(edits, rows::rows_of(lines), target, line, landing, crossed) matches Some(
            (j, _),
        ) ==> {
            &&& landing <= j <= lines.len()
            &&& j == landing || line <= j
            &&& forall|l: int| line <= l <= j ==> is_passed(#[trigger] lines[l - 1], target)
            &&& j > landing ==> rows::has_content(lines[j - 1])
        },
    decreases lines.len() + 1 - line,
{
    let file = rows::rows_of(lines);
    if line <= lines.len() {
        let row = file[line - 1];
        assert(row == rows::row_of(lines[line - 1]));
        let own = rows::indent(row.text);
        if !rows::has_content(row.text) {
            lemma_slide_out(edits, lines, target, line + 1, landing, crossed);
        } else if row.closer && text::has_prefix(own, target) && !landing::targeted(edits, line)
            && own.len() != target.len() {
            lemma_slide_out(edits, lines, target, line + 1, line, crossed + 1);
        }
    }
}

/// A slide begun goes on or ends where it is; it is not taken back.
proof fn lemma_slide_starts(
    edits: Seq<RowEditView>,
    lines: Seq<Seq<char>>,
    target: Seq<char>,
    line: int,
    landing: int,
    crossed: int,
)
    requires
        1 <= landing < line <= lines.len() + 1,
        lines.len() <= u32::MAX,
        forall|l: int| line <= l <= lines.len() ==> !#[trigger] landing::targeted(edits, l),
    ensures
        landing::slide_out(edits, rows::rows_of(lines), target, line, landing, crossed) is Some,
    decreases lines.len() + 1 - line,
{
    let file = rows::rows_of(lines);
    if line <= lines.len() {
        let row = file[line - 1];
        let own = rows::indent(row.text);
        assert(!landing::targeted(edits, line));
        if !rows::has_content(row.text) {
            lemma_slide_starts(edits, lines, target, line + 1, landing, crossed);
        } else if row.closer && text::has_prefix(own, target) && own.len() != target.len() {
            lemma_slide_starts(edits, lines, target, line + 1, line, crossed + 1);
        }
    }
}

// ── The depth of a body ──────────────────────────────────────────────────

proof fn lemma_prefix_of_prefix(a: Seq<char>, b: Seq<char>, c: Seq<char>)
    requires
        text::has_prefix(a, b),
        text::has_prefix(b, c),
    ensures
        text::has_prefix(a, c),
{
    assert(a.subrange(0, c.len() as int) =~= b.subrange(0, c.len() as int)) by {
        assert forall|i: int| 0 <= i < c.len() implies a[i] == b[i] by {
            assert(a.subrange(0, b.len() as int)[i] == b[i]);
        }
    }
}

proof fn lemma_shallowest(body: Seq<RowView>)
    ensures
        landing::shallowest(body) matches Some(t) ==> forall|i: int|
            0 <= i < body.len() ==> text::has_prefix(rows::indent((#[trigger] body[i]).text), t),
    decreases body.len(),
{
    if body.len() == 1 {
        let own = rows::indent(body[0].text);
        assert(own.subrange(0, own.len() as int) =~= own);
    } else if body.len() > 1 {
        let rest = body.drop_last();
        lemma_shallowest(rest);
        let own = rows::indent(body.last().text);
        match (landing::shallowest(rest), landing::shallowest(body)) {
            (Some(before), Some(t)) => {
                assert forall|i: int| 0 <= i < body.len() implies text::has_prefix(
                    rows::indent((#[trigger] body[i]).text),
                    t,
                ) by {
                    if i < rest.len() {
                        assert(rest[i] == body[i]);
                        assert(before.subrange(0, before.len() as int) =~= before);
                        lemma_prefix_of_prefix(rows::indent(body[i].text), before, t);
                    } else {
                        assert(own.subrange(0, own.len() as int) =~= own);
                    }
                }
            },
            _ => {},
        }
    }
}

proof fn lemma_non_blank(body: Seq<RowView>, i: int)
    requires
        0 <= i < body.len(),
        rows::has_content(body[i].text),
    ensures
        landing::non_blank(body).contains(body[i]),
    decreases body.len(),
{
    let rest = body.drop_last();
    if i < rest.len() {
        assert(rest[i] == body[i]);
        lemma_non_blank(rest, i);
        let k = choose|k: int|
            0 <= k < landing::non_blank(rest).len() && landing::non_blank(rest)[k] == body[i];
        assert(landing::non_blank(body)[k] == body[i]);
    } else {
        assert(landing::non_blank(body).last() == body[i]);
    }
}

/// The depth of a body is one that all its rows with text share.
proof fn lemma_target_shared(body: Seq<RowView>, i: int)
    requires
        0 <= i < body.len(),
        rows::has_content(body[i].text),
        landing::target_indent(body) is Some,
    ensures
        text::has_prefix(rows::indent(body[i].text), landing::target_indent(body)->0),
{
    let full = landing::non_blank(body);
    lemma_non_blank(body, i);
    lemma_shallowest(full);
    let k = choose|k: int| 0 <= k < full.len() && full[k] == body[i];
    assert(text::has_prefix(rows::indent(full[k].text), landing::target_indent(body)->0));
}

// ── Insertions behind a line ─────────────────────────────────────────────

spec fn is_insertion(
    all: Seq<RowEditView>,
    line: u32,
    texts: Seq<Seq<char>>,
) -> bool {
    &&& all.len() == texts.len()
    &&& forall|k: int|
        0 <= k < all.len() ==> (#[trigger] all[k]).hunk == 0 && all[k].block_start is None
            && all[k].op == (RowOpView::Insert {
            cursor: Cursor::AfterAnchor(Anchor { line }),
            row: rows::row_of(texts[k]),
            mode: InsertMode::Insert,
        })
}

proof fn lemma_same_hunk(ops: Seq<RowOpView>, line: u32, i: int)
    requires
        0 <= i < ops.len(),
        forall|k: int|
            0 <= k < ops.len() ==> ((#[trigger] ops[k]) matches RowOpView::Insert {
                cursor,
                mode,
                ..
            } && cursor == Cursor::AfterAnchor(Anchor { line }) && mode == InsertMode::Insert),
    ensures
        hunks::hunk_number(ops.take(i + 1)) == 0,
    decreases i,
{
    let t = ops.take(i + 1);
    if i > 0 {
        lemma_same_hunk(ops, line, i - 1);
        assert(t.drop_last() =~= ops.take(i));
        assert(t[t.len() - 2] == ops[i - 1]);
        assert(t.last() == ops[i]);
    }
}

proof fn lemma_is_insertion(line: u32, texts: Seq<Seq<char>>)
    ensures
        ({
            let edits = effects::inserts_at(Cursor::AfterAnchor(Anchor { line }), texts);
            is_insertion(
                hunks::indexed(edits, apply::insert_rows(edits), Map::empty()),
                line,
                texts,
            )
        }),
{
    let edits = effects::inserts_at(Cursor::AfterAnchor(Anchor { line }), texts);
    let some = apply::insert_rows(edits);
    let all = hunks::indexed(edits, some, Map::empty());
    let ops = hunks::ops_of(edits, some);
    assert forall|k: int| 0 <= k < all.len() implies (#[trigger] all[k]).hunk == 0
        && all[k].block_start is None && all[k].op == (RowOpView::Insert {
        cursor: Cursor::AfterAnchor(Anchor { line }),
        row: rows::row_of(texts[k]),
        mode: InsertMode::Insert,
    }) by {
        lemma_same_hunk(ops, line, k);
        assert(some[k] == rows::row_of(apply::insert_text(edits[k])));
    }
}

proof fn lemma_one_body(all: Seq<RowEditView>, line: u32, texts: Seq<Seq<char>>)
    requires
        is_insertion(all, line, texts),
    ensures
        landing::body_rows(all, (line, 0)) == rows::rows_of(texts),
    decreases all.len(),
{
    if all.len() > 0 {
        let rest = all.drop_last();
        assert(is_insertion(rest, line, texts.drop_last())) by {
            assert forall|k: int| 0 <= k < rest.len() implies (#[trigger] rest[k]).hunk == 0
                && rest[k].block_start is None && rest[k].op == (RowOpView::Insert {
                cursor: Cursor::AfterAnchor(Anchor { line }),
                row: rows::row_of(texts.drop_last()[k]),
                mode: InsertMode::Insert,
            }) by {
                assert(rest[k] == all[k]);
            }
        }
        lemma_one_body(rest, line, texts.drop_last());
        assert(all[all.len() - 1].hunk == 0);
        assert(rows::rows_of(texts) =~= rows::rows_of(texts.drop_last()).push(
            rows::row_of(texts.last()),
        ));
    } else {
        assert(rows::rows_of(texts) =~= Seq::empty());
    }
}

/// The one warning of a slide.
proof fn lemma_one_warning(
    all: Seq<RowEditView>,
    file: Seq<RowView>,
    line: u32,
    texts: Seq<Seq<char>>,
    n: int,
)
    requires
        is_insertion(all, line, texts),
        0 < n <= all.len(),
    ensures
        landing::landing_warnings(all, file, n).len() == (if landing::shift(all, file, 0) is Some {
            1
        } else {
            0int
        }),
    decreases n,
{
    assert(all[0].hunk == 0);
    assert(landing::first_of(all, (line, 0), 0) == 0);
    assert(all[n - 1].hunk == 0);
    if n > 1 {
        lemma_one_warning(all, file, line, texts, n - 1);
    } else {
        assert(landing::landing_warnings(all, file, 0).len() == 0);
    }
}

/// Where the insertion lands.
proof fn lemma_landed(
    all: Seq<RowEditView>,
    lines: Seq<Seq<char>>,
    line: u32,
    texts: Seq<Seq<char>>,
) -> (j: int)
    requires
        is_insertion(all, line, texts),
        0 < texts.len(),
        1 <= line <= lines.len() <= u32::MAX,
    ensures
        line <= j <= lines.len(),
        (j > line) == (landing::shift(all, rows::rows_of(lines), 0) is Some),
        effects::stands_for(
            landing::landed(all, rows::rows_of(lines)),
            effects::inserts_at(Cursor::AfterAnchor(Anchor { line: j as u32 }), texts),
        ),
        j > line ==> {
            let target = landing::target_indent(rows::rows_of(texts));
            &&& target is Some
            &&& rows::has_content(lines[line - 1])
            &&& rows::deeper_than(rows::indent(lines[line - 1]), target->0)
            &&& forall|l: int| line < l <= j ==> is_passed(#[trigger] lines[l - 1], target->0)
            &&& rows::has_content(lines[j - 1])
        },
{
    let file = rows::rows_of(lines);
    let key = (line, 0usize);
    lemma_one_body(all, line, texts);
    assert(all[0].hunk == 0);
    assert(landing::after_key(all[0]) == Some(key));
    assert(landing::first_of(all, key, 0) == 0);
    assert(file[line - 1] == rows::row_of(lines[line - 1]));
    let j: int = match landing::shift(all, file, 0) {
        Some((j, _)) => j,
        None => line as int,
    };
    let target = landing::target_indent(rows::rows_of(texts));
    if target is Some {
        lemma_slide_out(all, lines, target->0, line + 1, line as int, 0);
    }
    let out = landing::landed(all, file);
    let edits = effects::inserts_at(Cursor::AfterAnchor(Anchor { line: j as u32 }), texts);
    assert forall|i: int| 0 <= i < out.len() implies match #[trigger] edits[i] {
        EditView::Insert { cursor, text, mode } => out[i].op matches RowOpView::Insert {
            cursor: c,
            row,
            mode: m,
        } && c == cursor && row.text == text && m == mode,
        EditView::Delete { anchor } => out[i].op == (RowOpView::Delete { line: anchor.line }),
        EditView::Block { .. } => false,
    } by {
        assert(all[i].hunk == 0);
        assert(landing::after_key(all[i]) == Some(key));
        assert(out[i] == landing::landed_edit(all, file, i));
    }
    j
}

/// What an insertion behind a line makes of a text, whatever it looks like: the rows stand
/// together and in order, either right behind the line or further down. They go further down
/// only past blank lines and lines that do nothing but close, and only if all rows with text
/// share a depth above that of the line which none of the passed lines goes above either; then
/// one warning is given, and otherwise none.
pub proof fn law_insert_behind_in_full(
    s: Seq<char>,
    line: u32,
    texts: Seq<Seq<char>>,
) -> (r: (int, Seq<char>))
    requires
        0 < texts.len() <= usize::MAX,
        1 <= line <= text::lines(s).len() <= u32::MAX,
    ensures
        ({
            let lines = text::lines(s);
            let (j, target) = r;
            let after = apply::applied(
                s,
                effects::inserts_at(Cursor::AfterAnchor(Anchor { line }), texts),
                Map::empty(),
            );
            &&& line <= j <= lines.len()
            &&& after.0 == text::unlines(lines.take(j) + texts + lines.skip(j))
            &&& after.1.len() == (if j > line {
                1
            } else {
                0int
            })
            &&& j > line ==> {
                &&& forall|i: int|
                    0 <= i < texts.len() && rows::has_content(#[trigger] texts[i])
                        ==> text::has_prefix(rows::indent(texts[i]), target)
                &&& rows::deeper_than(rows::indent(lines[line - 1]), target)
                &&& forall|l: int| line < l <= j ==> is_passed(#[trigger] lines[l - 1], target)
                &&& rows::has_content(lines[j - 1])
            }
        }),
{
    let lines = text::lines(s);
    let file = rows::rows_of(lines);
    let n = lines.len() as int;
    let cursor = Cursor::AfterAnchor(Anchor { line });
    let edits = effects::inserts_at(cursor, texts);
    let all = hunks::indexed(edits, apply::insert_rows(edits), Map::empty());
    lemma_is_insertion(line, texts);
    assert(!apply::has_block(edits)) by {
        assert forall|i: int| 0 <= i < edits.len() implies !((#[trigger] edits[i]) is Block) by {}
    }
    assert forall|i: int| 0 <= i < all.len() implies ((#[trigger] all[i]).op matches RowOpView::Insert {
        mode,
        ..
    } && mode == InsertMode::Insert) && all[i].op.anchored() == Some(line) by {
        assert(all[i].hunk == 0);
    }
    keeping::lemma_phantom_unnamed(all, apply::phantom_line(file));
    keeping::lemma_in_bounds(all, n, 0);
    effects::lemma_plain(all, file);
    let j = lemma_landed(all, lines, line, texts);
    let out = landing::landed(all, file);
    let done = effects::inserts_at(Cursor::AfterAnchor(Anchor { line: j as u32 }), texts);
    assert forall|i: int| 0 <= i < out.len() implies match (#[trigger] out[i]).op {
        RowOpView::Delete { line } => false,
        _ => true,
    } by {
        assert(done[i] == done[i]);
    }
    keeping::lemma_phantom_unnamed(out, apply::phantom_line(file));
    effects::lemma_whole_rendered(out, done, lines);
    effects::lemma_inserted_lines(lines, Cursor::AfterAnchor(Anchor { line: j as u32 }), texts);
    lemma_one_warning(all, file, line, texts, all.len() as int);
    let target = landing::target_indent(rows::rows_of(texts));
    if j > line {
        assert forall|i: int| 0 <= i < texts.len() && rows::has_content(#[trigger] texts[i]) implies text::has_prefix(
            rows::indent(texts[i]),
            target->0,
        ) by {
            assert(rows::rows_of(texts)[i] == rows::row_of(texts[i]));
            lemma_target_shared(rows::rows_of(texts), i);
        }
    }
    (j, target->0)
}

proof fn lemma_uniform_target(body: Seq<RowView>, target: Seq<char>)
    requires
        forall|i: int|
            0 <= i < body.len() ==> rows::has_content((#[trigger] body[i]).text) && rows::indent(
                body[i].text,
            ) == target,
        body.len() > 0,
    ensures
        landing::non_blank(body) == body,
        landing::shallowest(body) == Some(target),
    decreases body.len(),
{
    let rest = body.drop_last();
    assert(target.subrange(0, target.len() as int) =~= target);
    assert(rows::has_content(body[body.len() - 1].text));
    if rest.len() > 0 {
        assert forall|i: int| 0 <= i < rest.len() implies rows::has_content((#[trigger] rest[i]).text)
            && rows::indent(rest[i].text) == target by {
            assert(rest[i] == body[i]);
        }
        lemma_uniform_target(rest, target);
        assert(rest.push(body.last()) =~= body);
    } else {
        assert(landing::non_blank(rest) =~= Seq::empty());
        assert(landing::non_blank(body) =~= body);
    }
}

/// Rows of one depth that are put behind a deeper line, right above a line which does nothing
/// but close what is deeper than they are, do not stay inside: they land behind that line or
/// further down.
pub proof fn law_insert_leaves_block(
    s: Seq<char>,
    line: u32,
    texts: Seq<Seq<char>>,
    target: Seq<char>,
)
    requires
        0 < texts.len() <= usize::MAX,
        1 <= line < text::lines(s).len() <= u32::MAX,
        forall|i: int|
            0 <= i < texts.len() ==> rows::has_content(#[trigger] texts[i]) && rows::indent(
                texts[i],
            ) == target,
        exists|i: int|
            0 <= i < texts.len() && !engines::found(
                patterns::STRUCTURAL_CLOSER_PATTERN@,
                #[trigger] texts[i],
            ),
        rows::has_content(text::lines(s)[line - 1]),
        rows::deeper_than(rows::indent(text::lines(s)[line - 1]), target),
        rows::has_content(text::lines(s)[line as int]),
        is_passed(text::lines(s)[line as int], target),
    ensures
        exists|j: int|
            line < j <= text::lines(s).len() && apply::applied(
                s,
                effects::inserts_at(Cursor::AfterAnchor(Anchor { line }), texts),
                Map::empty(),
            ).0 == #[trigger] text::unlines(
                text::lines(s).take(j) + texts + text::lines(s).skip(j),
            ),
{
    let lines = text::lines(s);
    let file = rows::rows_of(lines);
    let edits = effects::inserts_at(Cursor::AfterAnchor(Anchor { line }), texts);
    let all = hunks::indexed(edits, apply::insert_rows(edits), Map::empty());
    let body = rows::rows_of(texts);
    lemma_is_insertion(line, texts);
    lemma_one_body(all, line, texts);
    assert forall|i: int| 0 <= i < body.len() implies rows::has_content((#[trigger] body[i]).text)
        && rows::indent(body[i].text) == target by {
        assert(body[i] == rows::row_of(texts[i]));
    }
    lemma_uniform_target(body, target);
    let i = choose|i: int|
        0 <= i < texts.len() && !engines::found(
            patterns::STRUCTURAL_CLOSER_PATTERN@,
            #[trigger] texts[i],
        );
    assert(!body[i].closer);
    assert(landing::target_indent(body) == Some(target));
    assert(all[0].hunk == 0);
    assert(file[line - 1] == rows::row_of(lines[line - 1]));
    assert(file[line as int] == rows::row_of(lines[line as int]));
    assert forall|l: int| line + 1 <= l <= lines.len() implies !#[trigger] landing::targeted(
        all,
        l,
    ) by {
        if landing::targeted(all, l) {
            let k = choose|k: int|
                0 <= k < all.len() && match (#[trigger] all[k]).op.anchored() {
                    Some(m) => m == l,
                    None => false,
                };
            assert(all[k].hunk == 0);
        }
    }
    assert(!landing::targeted(all, line + 1));
    lemma_slide_starts(all, lines, target, line + 1, line as int, 0);
    if rows::indent(lines[line as int]).len() != target.len() && line + 1 < lines.len() + 1 {
        lemma_slide_out(all, lines, target, line + 2, line + 1, 1);
        lemma_slide_starts(all, lines, target, line + 2, line + 1, 1);
    }
    assert(landing::shift(all, file, 0) is Some);
    let (j, t) = law_insert_behind_in_full(s, line, texts);
    lemma_one_warning(all, file, line, texts, all.len() as int);
    let k = lemma_landed(all, lines, line, texts);
    lemma_told(s, line, texts, all, file);
}

/// What is told of an insertion is what is told of its landing.
proof fn lemma_told(
    s: Seq<char>,
    line: u32,
    texts: Seq<Seq<char>>,
    all: Seq<RowEditView>,
    file: Seq<RowView>,
)
    requires
        0 < texts.len() <= usize::MAX,
        1 <= line <= text::lines(s).len() <= u32::MAX,
        file == rows::rows_of(text::lines(s)),
        all == hunks::indexed(
            effects::inserts_at(Cursor::AfterAnchor(Anchor { line }), texts),
            apply::insert_rows(effects::inserts_at(Cursor::AfterAnchor(Anchor { line }), texts)),
            Map::empty(),
        ),
        is_insertion(all, line, texts),
    ensures
        apply::applied(
            s,
            effects::inserts_at(Cursor::AfterAnchor(Anchor { line }), texts),
            Map::empty(),
        ).1 == landing::landing_warnings(all, file, all.len() as int),
{
    let edits = effects::inserts_at(Cursor::AfterAnchor(Anchor { line }), texts);
    assert(!apply::has_block(edits)) by {
        assert forall|i: int| 0 <= i < edits.len() implies !((#[trigger] edits[i]) is Block) by {}
    }
    assert forall|i: int| 0 <= i < all.len() implies ((#[trigger] all[i]).op matches RowOpView::Insert {
        mode,
        ..
    } && mode == InsertMode::Insert) && all[i].op.anchored() == Some(line) by {
        assert(all[i].hunk == 0);
    }
    keeping::lemma_phantom_unnamed(all, apply::phantom_line(file));
    keeping::lemma_in_bounds(all, text::lines(s).len() as int, 0);
    effects::lemma_plain(all, file);
    let none = Seq::<Seq<char>>::empty();
    let told = landing::landing_warnings(all, file, all.len() as int);
    assert(none + told =~= told);
}

// ── Slides into a block ──────────────────────────────────────────────────

/// A line that a slide into a block may pass: a blank one, or one that does nothing but close
/// and is less deep than the body.
pub open spec fn is_passed_inward(line: Seq<char>, target: Seq<char>) -> bool {
    rows::has_content(line) ==> engines::found(patterns::STRUCTURAL_CLOSER_PATTERN@, line)
        && rows::deeper_than(target, rows::indent(line))
}

proof fn lemma_slide_in(
    edits: Seq<RowEditView>,
    lines: Seq<Seq<char>>,
    target: Seq<char>,
    anchor: int,
    block_start: int,
    line: int,
)
    requires
        1 <= line <= lines.len(),
        1 <= block_start,
    ensures
        landing::slide_in(
            edits,
            rows::rows_of(lines),
            target,
            anchor,
            block_start,
            line,
            line,
        ) matches Some(j) ==> {
            &&& 1 <= j <= line
            &&& j == line || block_start <= j
            &&& forall|l: int| j < l <= line ==> is_passed_inward(#[trigger] lines[l - 1], target)
            &&& j > block_start ==> !is_passed_inward(lines[j - 1], target)
        },
    decreases line,
{
    let file = rows::rows_of(lines);
    if line > block_start && line > 1 {
        let row = file[line - 1];
        assert(row == rows::row_of(lines[line - 1]));
        if !rows::has_content(row.text) {
            lemma_slide_in(edits, lines, target, anchor, block_start, line - 1);
        } else if row.closer && rows::deeper_than(target, rows::indent(row.text)) && !(line
            != anchor && landing::targeted(edits, line)) {
            lemma_slide_in(edits, lines, target, anchor, block_start, line - 1);
        }
    }
}

/// A body that goes behind a block and is as deep as what is inside lands inside: above the
/// lines that close the block and the blank lines among them, all of them, and not above the
/// line that begins it.
pub proof fn law_slide_into_block(
    edits: Seq<RowEditView>,
    lines: Seq<Seq<char>>,
    anchor: int,
    target: Seq<char>,
    block_start: int,
)
    requires
        1 <= anchor <= lines.len(),
        1 <= block_start,
    ensures
        landing::inward(edits, rows::rows_of(lines), anchor, target, block_start) matches Some(j)
            ==> {
            &&& block_start <= j < anchor
            &&& forall|l: int| j < l <= anchor ==> is_passed_inward(#[trigger] lines[l - 1], target)
            &&& j > block_start ==> !is_passed_inward(lines[j - 1], target)
        },
{
    lemma_slide_in(edits, lines, target, anchor, block_start, anchor);
}

} // verus!
