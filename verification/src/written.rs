//! What a patch that is written out hunk by hunk parses to.

use vstd::prelude::*;

use crate::engines;
use crate::parser;
use crate::parser::{CommentView, ExecutorView, PayloadRowView, PendingView, RawFactsView};
use crate::patterns;
use crate::prefixes;
use crate::spelling;
use crate::text;
use crate::tokenizer;
use crate::tokenizer::{BlockTargetView, TokenView};
use crate::types::{Anchor, BlockMode, Cursor, EditView, FileOpView, InsertMode, ParsedRange};

verus! {

// ── Hunks, and what they ask for ─────────────────────────────────────────

/// The lines of a hunk: its header, then each row of its body behind a `+`.
pub open spec fn hunk_lines(header: Seq<char>, rows: Seq<Seq<char>>) -> Seq<Seq<char>> {
    seq![header] + Seq::new(rows.len(), |i: int| seq!['+'] + rows[i])
}

/// One insertion for each row, in order.
pub open spec fn row_inserts(cursor: Cursor, rows: Seq<Seq<char>>, mode: InsertMode) -> Seq<
    EditView,
> {
    Seq::new(rows.len(), |i: int| EditView::Insert { cursor, text: rows[i], mode })
}

/// One deletion for each line of a range, in order.
pub open spec fn line_deletes(range: ParsedRange) -> Seq<EditView> {
    Seq::new(
        (if range.end < range.start {
            0
        } else {
            range.end + 1 - range.start
        }) as nat,
        |i: int| EditView::Delete { anchor: Anchor { line: (range.start + i) as u32 } },
    )
}

/// What a hunk asks for: an insertion of each row of its body, at the place that the header
/// names, and a deletion of each line of the range that it replaces or deletes. What is said
/// of a block stays one edit, which holds the rows.
pub open spec fn hunk_edits(target: BlockTargetView, rows: Seq<Seq<char>>) -> Seq<EditView> {
    match target {
        BlockTargetView::Replace { range } => row_inserts(
            Cursor::BeforeAnchor(Anchor { line: range.start }),
            rows,
            InsertMode::Replacement,
        ) + line_deletes(range),
        BlockTargetView::Delete { range } => line_deletes(range),
        BlockTargetView::InsertBefore { anchor } => row_inserts(
            Cursor::BeforeAnchor(anchor),
            rows,
            InsertMode::Insert,
        ),
        BlockTargetView::InsertAfter { anchor } => row_inserts(
            Cursor::AfterAnchor(anchor),
            rows,
            InsertMode::Insert,
        ),
        BlockTargetView::Bof => row_inserts(Cursor::Bof, rows, InsertMode::Insert),
        BlockTargetView::Eof => row_inserts(Cursor::Eof, rows, InsertMode::Insert),
        BlockTargetView::Block { anchor } => seq![
            EditView::Block { anchor, payloads: rows, mode: BlockMode::Replace },
        ],
        BlockTargetView::InsertAfterBlock { anchor } => seq![
            EditView::Block { anchor, payloads: rows, mode: BlockMode::InsertAfter },
        ],
        BlockTargetView::DeleteBlock { anchor } => seq![
            EditView::Block { anchor, payloads: Seq::empty(), mode: BlockMode::Delete },
        ],
        BlockTargetView::Rem => Seq::empty(),
        BlockTargetView::Move { .. } => Seq::empty(),
    }
}

/// A header and the rows under it make a hunk that edits lines: the header names what to
/// edit, and where it takes no body there is none.
pub open spec fn is_hunk(h: (Seq<char>, Seq<Seq<char>>)) -> bool {
    &&& !h.0.contains('\n')
    &&& forall|i: int| 0 <= i < h.1.len() ==> text::is_one_line(#[trigger] h.1[i])
    &&& match tokenizer::hunk_header(h.0) {
        None => false,
        Some(BlockTargetView::Rem) => false,
        Some(BlockTargetView::Move { .. }) => false,
        Some(BlockTargetView::Delete { .. }) => h.1.len() == 0,
        Some(BlockTargetView::DeleteBlock { .. }) => h.1.len() == 0,
        Some(_) => true,
    }
}

/// The lines of a patch, hunk for hunk.
pub open spec fn patch_lines(hunks: Seq<(Seq<char>, Seq<Seq<char>>)>) -> Seq<Seq<char>> {
    hunks.map_values(|h: (Seq<char>, Seq<Seq<char>>)| hunk_lines(h.0, h.1)).flatten()
}

/// What a patch asks for, hunk for hunk.
pub open spec fn patch_edits(hunks: Seq<(Seq<char>, Seq<Seq<char>>)>) -> Seq<EditView> {
    hunks.map_values(
        |h: (Seq<char>, Seq<Seq<char>>)| hunk_edits(tokenizer::hunk_header(h.0)->0, h.1),
    ).flatten()
}

// ── States of the parser between rows ────────────────────────────────────

/// The parser stands before the first hunk, behind a file operation or none.
spec fn is_idle(st: ExecutorView, op: Option<FileOpView>) -> bool {
    &&& !st.terminated
    &&& st.file_op == op
    &&& st.edits.len() == 0
    &&& st.pending is None
}

/// The parser stands in a hunk whose rows so far are `rows`, behind hunks that ask for `done`.
spec fn stands(
    st: ExecutorView,
    op: Option<FileOpView>,
    done: Seq<EditView>,
    target: BlockTargetView,
    rows: Seq<Seq<char>>,
) -> bool {
    &&& !st.terminated
    &&& st.comments.len() == 0
    &&& st.file_op == op
    &&& st.edits == done
    &&& st.pending matches Some(p) && p.target == target && p.deferred.len() == 0 && p.payloads
        == rows.map_values(
        |t: Seq<char>| PayloadRowView { text: t, stripped: t, literal: false, bare: false },
    )
}

proof fn lemma_row_fed(
    st: ExecutorView,
    op: Option<FileOpView>,
    done: Seq<EditView>,
    target: BlockTargetView,
    rows: Seq<Seq<char>>,
    t: Seq<char>,
    n: usize,
    facts: RawFactsView,
)
    requires
        stands(st, op, done, target, rows),
        !(target is Delete),
        !(target is DeleteBlock),
    ensures
        stands(
            parser::fed(st, TokenView::BodyRow { line_num: n, text: t }, facts),
            op,
            done,
            target,
            rows.push(t),
        ),
{
    let f = |t: Seq<char>| PayloadRowView { text: t, stripped: t, literal: false, bare: false };
    assert(parser::comments_consumed(st).pending == st.pending);
    assert(parser::comments_consumed(st) == (ExecutorView { comments: Seq::empty(), ..st }));
    let p = st.pending->0;
    assert(p.payloads + p.deferred.push(f(t)) =~= rows.push(t).map_values(f));
}

proof fn lemma_flushed(
    st: ExecutorView,
    op: Option<FileOpView>,
    done: Seq<EditView>,
    target: BlockTargetView,
    rows: Seq<Seq<char>>,
)
    requires
        stands(st, op, done, target, rows),
        !(target is Rem),
        !(target is Move),
    ensures
        parser::flushed(st).edits == done + hunk_edits(target, rows),
        parser::flushed(st).pending is None,
        parser::flushed(st).file_op == op,
        !parser::flushed(st).terminated,
        parser::flushed(st).comments == st.comments,
{
    let p = st.pending->0;
    assert(parser::body_texts(p.payloads) =~= rows);
    match target {
        BlockTargetView::Replace { range } => {
            let cursor = Cursor::BeforeAnchor(Anchor { line: range.start });
            assert(parser::inserts(cursor, rows, InsertMode::Replacement) + parser::range_deletes(
                range,
            ) =~= hunk_edits(target, rows));
        },
        BlockTargetView::Delete { range } => {
            assert(parser::range_deletes(range) =~= hunk_edits(target, rows));
        },
        BlockTargetView::InsertBefore { anchor } => {
            assert(parser::inserts(Cursor::BeforeAnchor(anchor), rows, InsertMode::Insert)
                =~= hunk_edits(target, rows));
        },
        BlockTargetView::InsertAfter { anchor } => {
            assert(parser::inserts(Cursor::AfterAnchor(anchor), rows, InsertMode::Insert)
                =~= hunk_edits(target, rows));
        },
        BlockTargetView::Bof => {
            assert(parser::inserts(Cursor::Bof, rows, InsertMode::Insert) =~= hunk_edits(
                target,
                rows,
            ));
        },
        BlockTargetView::Eof => {
            assert(parser::inserts(Cursor::Eof, rows, InsertMode::Insert) =~= hunk_edits(
                target,
                rows,
            ));
        },
        _ => {},
    }
}

/// A header after a hunk, or at the start.
proof fn lemma_header_fed(
    st: ExecutorView,
    op: Option<FileOpView>,
    before: Seq<EditView>,
    last: Option<(BlockTargetView, Seq<Seq<char>>)>,
    target: BlockTargetView,
    n: usize,
    facts: RawFactsView,
)
    requires
        op != Some(FileOpView::Rem),
        match last {
            None => is_idle(st, op) && before.len() == 0,
            Some((t, rows)) => stands(st, op, before, t, rows) && !(t is Rem) && !(t is Move),
        },
        !(target is Rem),
        !(target is Move),
    ensures
        stands(
            parser::fed(st, TokenView::HunkHeader { line_num: n, target }, facts),
            op,
            match last {
                None => Seq::empty(),
                Some((t, rows)) => before + hunk_edits(t, rows),
            },
            target,
            Seq::empty(),
        ),
{
    let open = ExecutorView { comments: Seq::empty(), ..st };
    let checked = match target {
        BlockTargetView::Replace { range } => parser::range_checked(open, range, n),
        BlockTargetView::Delete { range } => parser::range_checked(open, range, n),
        _ => open,
    };
    let f = |t: Seq<char>| PayloadRowView { text: t, stripped: t, literal: false, bare: false };
    assert(Seq::<PayloadRowView>::empty() =~= Seq::<Seq<char>>::empty().map_values(f));
    match last {
        None => {
            assert(parser::flushed(checked).edits =~= Seq::empty());
        },
        Some((t, rows)) => {
            lemma_flushed(checked, op, before, t, rows);
        },
    }
}

// ── Lines ────────────────────────────────────────────────────────────────

/// The state after the lines of a text.
spec fn after_lines(ls: Seq<Seq<char>>) -> ExecutorView {
    spelling::state_after(spelling::tokens_of_lines(ls))
}

proof fn lemma_line_step(ls: Seq<Seq<char>>, line: Seq<char>)
    ensures
        after_lines(ls.push(line)) == parser::fed(
            after_lines(ls),
            tokenizer::token_of(text::strip_cr(line), (ls.len() + 1) as usize),
            parser::facts_of(
                parser::fact_line(
                    tokenizer::token_of(text::strip_cr(line), (ls.len() + 1) as usize),
                ),
            ),
        ),
{
    let t = tokenizer::token_of(text::strip_cr(line), (ls.len() + 1) as usize);
    assert(spelling::tokens_of_lines(ls.push(line)) =~= spelling::tokens_of_lines(ls).push(t));
    spelling::lemma_state_step(spelling::tokens_of_lines(ls), t);
}

/// A line that begins with `+` is a row of a body.
proof fn lemma_row_token(t: Seq<char>, n: usize)
    requires
        text::is_one_line(t),
    ensures
        tokenizer::token_of(text::strip_cr(seq!['+'] + t), n) == (TokenView::BodyRow {
            line_num: n,
            text: t,
        }),
{
    let line = seq!['+'] + t;
    assert(t.len() > 0 ==> line.last() == t.last());
    assert(text::strip_cr(line) == line);
    let s = tokenizer::trim_ascii(line);
    lemma_trim_keeps(line);
    reveal_strlit("*** Begin Patch");
    reveal_strlit("*** End Patch");
    reveal_strlit("*** Abort");
    assert("*** Begin Patch"@[0] == '*');
    assert("*** End Patch"@[0] == '*');
    assert("*** Abort"@[0] == '*');
    if tokenizer::hunk_header(line) is Some {
        spelling::lemma_header_start(s);
    }
    assert(line.skip(1) =~= t);
}

proof fn lemma_trim_keeps(s: Seq<char>)
    requires
        s.len() > 0,
        s[0] == '+',
    ensures
        tokenizer::trim_ascii(s).len() > 0,
        tokenizer::trim_ascii(s)[0] == '+',
    decreases s.len(),
{
    if text::is_ascii_white(s.last()) {
        lemma_trim_keeps(s.drop_last());
    }
}

/// The rows of a body, read one by one.
proof fn lemma_rows_read(
    ls: Seq<Seq<char>>,
    op: Option<FileOpView>,
    done: Seq<EditView>,
    target: BlockTargetView,
    rows: Seq<Seq<char>>,
)
    requires
        stands(after_lines(ls), op, done, target, Seq::empty()),
        rows.len() > 0 ==> !(target is Delete) && !(target is DeleteBlock),
        forall|i: int| 0 <= i < rows.len() ==> text::is_one_line(#[trigger] rows[i]),
    ensures
        stands(
            after_lines(ls + Seq::new(rows.len(), |i: int| seq!['+'] + rows[i])),
            op,
            done,
            target,
            rows,
        ),
    decreases rows.len(),
{
    let body = Seq::new(rows.len(), |i: int| seq!['+'] + rows[i]);
    if rows.len() == 0 {
        assert(ls + body =~= ls);
        assert(rows =~= Seq::empty());
    } else {
        let rest = rows.drop_last();
        let upto = ls + Seq::new(rest.len(), |i: int| seq!['+'] + rest[i]);
        lemma_rows_read(ls, op, done, target, rest);
        let line = seq!['+'] + rows.last();
        let n = (upto.len() + 1) as usize;
        assert(ls + body =~= upto.push(line));
        lemma_line_step(upto, line);
        lemma_row_token(rows.last(), n);
        let token = TokenView::BodyRow { line_num: n, text: rows.last() };
        lemma_row_fed(
            after_lines(upto),
            op,
            done,
            target,
            rest,
            rows.last(),
            n,
            parser::facts_of(parser::fact_line(token)),
        );
        assert(rest.push(rows.last()) =~= rows);
    }
}

/// Putting one more hunk behind a patch.
proof fn lemma_one_more(hunks: Seq<(Seq<char>, Seq<Seq<char>>)>)
    requires
        hunks.len() > 0,
    ensures
        patch_lines(hunks) == patch_lines(hunks.drop_last()) + hunk_lines(
            hunks.last().0,
            hunks.last().1,
        ),
        patch_edits(hunks) == patch_edits(hunks.drop_last()) + hunk_edits(
            tokenizer::hunk_header(hunks.last().0)->0,
            hunks.last().1,
        ),
{
    let f = |h: (Seq<char>, Seq<Seq<char>>)| hunk_lines(h.0, h.1);
    let g = |h: (Seq<char>, Seq<Seq<char>>)| hunk_edits(tokenizer::hunk_header(h.0)->0, h.1);
    let a = hunks.map_values(f);
    let b = hunks.map_values(g);
    a.lemma_flatten_and_flatten_alt_are_equivalent();
    b.lemma_flatten_and_flatten_alt_are_equivalent();
    a.drop_last().lemma_flatten_and_flatten_alt_are_equivalent();
    b.drop_last().lemma_flatten_and_flatten_alt_are_equivalent();
    assert(a.drop_last() =~= hunks.drop_last().map_values(f));
    assert(b.drop_last() =~= hunks.drop_last().map_values(g));
}

/// One more hunk, read behind others or at the start.
proof fn lemma_hunk_read(
    ls: Seq<Seq<char>>,
    op: Option<FileOpView>,
    before: Seq<EditView>,
    last: Option<(BlockTargetView, Seq<Seq<char>>)>,
    h: (Seq<char>, Seq<Seq<char>>),
)
    requires
        op != Some(FileOpView::Rem),
        match last {
            None => is_idle(after_lines(ls), op) && before.len() == 0,
            Some((t, rows)) => stands(after_lines(ls), op, before, t, rows) && !(t is Rem) && !(
            t is Move),
        },
        is_hunk(h),
    ensures
        stands(
            after_lines(ls + hunk_lines(h.0, h.1)),
            op,
            match last {
                None => Seq::empty(),
                Some((t, rows)) => before + hunk_edits(t, rows),
            },
            tokenizer::hunk_header(h.0)->0,
            h.1,
        ),
{
    let target = tokenizer::hunk_header(h.0)->0;
    let done = match last {
        None => Seq::empty(),
        Some((t, rows)) => before + hunk_edits(t, rows),
    };
    let n = (ls.len() + 1) as usize;
    spelling::lemma_header_token(h.0, n);
    lemma_line_step(ls, h.0);
    let token = TokenView::HunkHeader { line_num: n, target };
    lemma_header_fed(
        after_lines(ls),
        op,
        before,
        last,
        target,
        n,
        parser::facts_of(parser::fact_line(token)),
    );
    lemma_rows_read(ls.push(h.0), op, done, target, h.1);
    assert(ls + hunk_lines(h.0, h.1) =~= ls.push(h.0) + Seq::new(
        h.1.len(),
        |i: int| seq!['+'] + h.1[i],
    ));
}

/// The hunks of a patch, read one by one, behind lines that hold none.
proof fn lemma_hunks_read(
    pre: Seq<Seq<char>>,
    op: Option<FileOpView>,
    hunks: Seq<(Seq<char>, Seq<Seq<char>>)>,
)
    requires
        is_idle(after_lines(pre), op),
        op != Some(FileOpView::Rem),
        hunks.len() > 0,
        forall|i: int| 0 <= i < hunks.len() ==> is_hunk(#[trigger] hunks[i]),
    ensures
        stands(
            after_lines(pre + patch_lines(hunks)),
            op,
            patch_edits(hunks.drop_last()),
            tokenizer::hunk_header(hunks.last().0)->0,
            hunks.last().1,
        ),
    decreases hunks.len(),
{
    let rest = hunks.drop_last();
    let h = hunks.last();
    let before = pre + patch_lines(rest);
    assert(is_hunk(hunks[hunks.len() - 1]));
    lemma_one_more(hunks);
    assert(pre + patch_lines(hunks) =~= before + hunk_lines(h.0, h.1));
    if rest.len() == 0 {
        assert(patch_lines(rest) =~= Seq::empty());
        assert(patch_edits(rest) =~= Seq::empty());
        assert(before =~= pre);
        lemma_hunk_read(before, op, Seq::empty(), None, h);
    } else {
        assert forall|i: int| 0 <= i < rest.len() implies is_hunk(#[trigger] rest[i]) by {
            assert(rest[i] == hunks[i]);
        }
        lemma_hunks_read(pre, op, rest);
        assert(is_hunk(rest[rest.len() - 1]));
        lemma_one_more(rest);
        lemma_hunk_read(
            before,
            op,
            patch_edits(rest.drop_last()),
            Some((tokenizer::hunk_header(rest.last().0)->0, rest.last().1)),
            h,
        );
    }
}

/// No line of a patch holds a line end, and none is empty.
proof fn lemma_patch_plain(hunks: Seq<(Seq<char>, Seq<Seq<char>>)>)
    requires
        forall|i: int| 0 <= i < hunks.len() ==> is_hunk(#[trigger] hunks[i]),
    ensures
        forall|i: int|
            0 <= i < patch_lines(hunks).len() ==> !(#[trigger] patch_lines(hunks)[i]).contains('\n')
                && patch_lines(hunks)[i].len() > 0,
        patch_lines(hunks).len() >= hunks.len(),
    decreases hunks.len(),
{
    if hunks.len() == 0 {
        assert(patch_lines(hunks) =~= Seq::empty());
    } else {
        let rest = hunks.drop_last();
        let h = hunks.last();
        assert(is_hunk(hunks[hunks.len() - 1]));
        assert forall|i: int| 0 <= i < rest.len() implies is_hunk(#[trigger] rest[i]) by {
            assert(rest[i] == hunks[i]);
        }
        lemma_patch_plain(rest);
        lemma_one_more(hunks);
        spelling::lemma_header_token(h.0, 1);
        let all = patch_lines(hunks);
        let k = patch_lines(rest).len();
        assert forall|i: int| 0 <= i < all.len() implies !(#[trigger] all[i]).contains('\n')
            && all[i].len() > 0 by {
            if i < k {
                assert(all[i] == patch_lines(rest)[i]);
            } else if i > k {
                let t = h.1[i - k - 1];
                assert(text::is_one_line(t));
                assert(all[i] == seq!['+'] + t);
                assert(forall|c: int| 0 < c < all[i].len() ==> all[i][c] == t[c - 1]);
            }
        }
    }
}

// ── Laws ─────────────────────────────────────────────────────────────────

/// A patch that is written out hunk by hunk, each a header and rows behind `+`, asks for what
/// its hunks ask for, in their order and row by row: no row is lost, an empty one no more than
/// any other, and none is changed.
pub proof fn law_patch_read(hunks: Seq<(Seq<char>, Seq<Seq<char>>)>)
    requires
        hunks.len() > 0,
        forall|i: int| 0 <= i < hunks.len() ==> is_hunk(#[trigger] hunks[i]),
    ensures
        parser::parsed(text::unlines(patch_lines(hunks))).edits == patch_edits(hunks),
        parser::parsed(text::unlines(patch_lines(hunks))).file_op == None::<FileOpView>,
{
    let ls = patch_lines(hunks);
    let d = text::unlines(ls);
    let none = Seq::<Seq<char>>::empty();
    assert(spelling::tokens_of_lines(none) =~= Seq::empty());
    lemma_hunks_read(none, None, hunks);
    assert(none + ls =~= ls);
    lemma_patch_plain(hunks);
    lemma_one_more(hunks);
    text::law_split_join(ls, '\n');
    assert(spelling::kept_lines(d) == ls);
    spelling::lemma_tokens(d);
    assert(is_hunk(hunks[hunks.len() - 1]));
    let st = after_lines(ls);
    assert(parser::comments_consumed(st) == (ExecutorView { comments: Seq::empty(), ..st }));
    lemma_flushed(
        parser::comments_consumed(st),
        None,
        patch_edits(hunks.drop_last()),
        tokenizer::hunk_header(hunks.last().0)->0,
        hunks.last().1,
    );
}

/// A hunk whose header takes a body, with a row `+t` for each of some texts, parses to one
/// insertion for each text, in order, at the place that the header names; a replacement
/// deletes the lines of its range behind them.
pub proof fn law_rows_read(header: Seq<char>, rows: Seq<Seq<char>>)
    requires
        is_hunk((header, rows)),
    ensures
        parser::parsed(text::unlines(hunk_lines(header, rows))).edits == hunk_edits(
            tokenizer::hunk_header(header)->0,
            rows,
        ),
{
    let hunks = seq![(header, rows)];
    lemma_one_more(hunks);
    assert(hunks.drop_last() =~= Seq::empty());
    assert(patch_lines(hunks.drop_last()) =~= Seq::empty());
    assert(patch_edits(hunks.drop_last()) =~= Seq::empty());
    assert(patch_lines(hunks) =~= hunk_lines(header, rows));
    assert(patch_edits(hunks) =~= hunk_edits(tokenizer::hunk_header(header)->0, rows));
    law_patch_read(hunks);
}

/// A line that says `REM` removes the file, and asks for nothing else.
pub proof fn law_removal_read(header: Seq<char>)
    requires
        !header.contains('\n'),
        tokenizer::hunk_header(header) == Some(BlockTargetView::Rem),
    ensures
        parser::parsed(header).file_op == Some(FileOpView::Rem),
        parser::parsed(header).edits.len() == 0,
        parser::parsed(header).warnings.len() == 0,
{
    lemma_lone_line(header);
    let st = after_lines(seq![header]);
    assert(parser::comments_consumed(st) == (ExecutorView { comments: Seq::empty(), ..st }));
    assert(parser::overlaps(st.edits).warnings.len() == 0);
}

/// A single header, read.
proof fn lemma_lone_line(header: Seq<char>)
    requires
        !header.contains('\n'),
        tokenizer::hunk_header(header) is Some,
    ensures
        header.len() > 0,
        after_lines(seq![header]) == parser::header_row(
            parser::initial(),
            tokenizer::hunk_header(header)->0,
            1,
        ),
        parser::parsed(header) == parser::ended(after_lines(seq![header])),
{
    let none = Seq::<Seq<char>>::empty();
    spelling::lemma_header_token(header, 1);
    assert(spelling::tokens_of_lines(none) =~= Seq::empty());
    lemma_line_step(none, header);
    assert(none.push(header) =~= seq![header]);
    assert(ExecutorView { comments: Seq::empty(), ..parser::initial() } =~= parser::initial());
    assert forall|k: int| 0 <= k < 1 implies !(#[trigger] seq![header][k]).contains('\n') by {}
    text::law_split_join(seq![header], '\n');
    assert(text::unlines(seq![header]) == header);
    assert(spelling::kept_lines(header) =~= seq![header]);
    spelling::lemma_tokens(header);
}

/// A patch that moves a file and edits it: the destination is the one named, and the hunks
/// below ask for what they would ask for alone.
pub proof fn law_move_read(
    header: Seq<char>,
    dest: Seq<char>,
    hunks: Seq<(Seq<char>, Seq<Seq<char>>)>,
)
    requires
        !header.contains('\n'),
        tokenizer::hunk_header(header) == Some(BlockTargetView::Move { dest }),
        forall|i: int| 0 <= i < hunks.len() ==> is_hunk(#[trigger] hunks[i]),
    ensures
        parser::parsed(text::unlines(seq![header] + patch_lines(hunks))).file_op == Some(
            FileOpView::Mv { dest },
        ),
        parser::parsed(text::unlines(seq![header] + patch_lines(hunks))).edits == patch_edits(
            hunks,
        ),
{
    let op = Some(FileOpView::Mv { dest });
    let pre = seq![header];
    let ls = pre + patch_lines(hunks);
    lemma_lone_line(header);
    assert(is_idle(after_lines(pre), op));
    if hunks.len() == 0 {
        assert(patch_lines(hunks) =~= Seq::empty());
        assert(patch_edits(hunks) =~= Seq::empty());
        assert(ls =~= pre);
        assert(text::unlines(pre) == header);
        let st = after_lines(pre);
        assert(parser::comments_consumed(st) == (ExecutorView { comments: Seq::empty(), ..st }));
        assert(st.edits =~= Seq::empty());
    } else {
        lemma_hunks_read(pre, op, hunks);
        lemma_patch_plain(hunks);
        lemma_one_more(hunks);
        assert forall|i: int| 0 <= i < ls.len() implies !(#[trigger] ls[i]).contains('\n') by {
            if i > 0 {
                assert(ls[i] == patch_lines(hunks)[i - 1]);
            }
        }
        text::law_split_join(ls, '\n');
        assert(ls.last() == patch_lines(hunks).last());
        assert(spelling::kept_lines(text::unlines(ls)) == ls);
        spelling::lemma_tokens(text::unlines(ls));
        assert(is_hunk(hunks[hunks.len() - 1]));
        let st = after_lines(ls);
        assert(parser::comments_consumed(st) == (ExecutorView { comments: Seq::empty(), ..st }));
        lemma_flushed(
            parser::comments_consumed(st),
            op,
            patch_edits(hunks.drop_last()),
            tokenizer::hunk_header(hunks.last().0)->0,
            hunks.last().1,
        );
    }
}

/// A line that opens an envelope, or a note behind `#`.
pub open spec fn is_skipped(line: Seq<char>) -> bool {
    text::is_one_line(line) && (line == "*** Begin Patch"@ || (line.len() > 0 && line[0] == '#'))
}

/// A note is a line of its own kind.
proof fn lemma_note_token(line: Seq<char>, n: usize)
    requires
        text::is_one_line(line),
        line.len() > 0,
        line[0] == '#',
    ensures
        tokenizer::token_of(text::strip_cr(line), n) == (TokenView::Raw { line_num: n, text: line }),
        parser::is_comment(line),
{
    reveal_strlit("*** Begin Patch");
    reveal_strlit("*** End Patch");
    reveal_strlit("*** Abort");
    reveal_strlit("#");
    assert("*** Begin Patch"@[0] == '*');
    assert("*** End Patch"@[0] == '*');
    assert("*** Abort"@[0] == '*');
    assert(text::strip_cr(line) == line);
    let s = tokenizer::trim_ascii(line);
    lemma_first_kept(line);
    if tokenizer::hunk_header(line) is Some {
        spelling::lemma_header_start(s);
    }
    assert(!text::is_white('#'));
    assert(text::trim_start(line) == line);
    assert(line.subrange(0, 1) =~= "#"@);
}

proof fn lemma_first_kept(s: Seq<char>)
    requires
        s.len() > 0,
        s[0] == '#',
    ensures
        tokenizer::trim_ascii(s).len() > 0,
        tokenizer::trim_ascii(s)[0] == '#',
    decreases s.len(),
{
    if text::is_ascii_white(s.last()) {
        lemma_first_kept(s.drop_last());
    }
}

/// Notes that end up read after all change no edit and begin no hunk.
proof fn lemma_notes_read(st: ExecutorView, comments: Seq<CommentView>)
    requires
        st.pending is None,
        st.edits.len() == 0,
        st.file_op is None,
        !st.terminated,
    ensures
        ({
            let r = parser::comments_read(st, comments);
            r.pending is None && r.edits.len() == 0 && r.file_op is None && !r.terminated
        }),
    decreases comments.len(),
{
    if comments.len() > 0 {
        lemma_notes_read(st, comments.drop_last());
    }
}

proof fn lemma_skipped_read(pre: Seq<Seq<char>>)
    requires
        forall|i: int| 0 <= i < pre.len() ==> is_skipped(#[trigger] pre[i]),
    ensures
        is_idle(after_lines(pre), None),
    decreases pre.len(),
{
    if pre.len() == 0 {
        assert(spelling::tokens_of_lines(pre) =~= Seq::empty());
    } else {
        let rest = pre.drop_last();
        let line = pre[pre.len() - 1];
        assert forall|i: int| 0 <= i < rest.len() implies is_skipped(#[trigger] rest[i]) by {
            assert(rest[i] == pre[i]);
        }
        lemma_skipped_read(rest);
        assert(is_skipped(line));
        assert(rest.push(line) =~= pre);
        lemma_line_step(rest, line);
        let n = (rest.len() + 1) as usize;
        let st = after_lines(rest);
        lemma_notes_read(ExecutorView { comments: Seq::empty(), ..st }, st.comments);
        if line == "*** Begin Patch"@ {
            reveal_strlit("*** Begin Patch");
            assert(line.last() == 'h');
            assert(text::strip_cr(line) == line);
            assert(tokenizer::trim_ascii(line) == line);
            assert(tokenizer::token_of(line, n) == (TokenView::EnvelopeBegin { line_num: n }));
        } else {
            lemma_note_token(line, n);
        }
    }
}

/// The line that opens an envelope, and notes behind `#`, ask for nothing where they stand
/// before the first hunk.
pub proof fn law_notes_skipped(
    pre: Seq<Seq<char>>,
    hunks: Seq<(Seq<char>, Seq<Seq<char>>)>,
)
    requires
        forall|i: int| 0 <= i < pre.len() ==> is_skipped(#[trigger] pre[i]),
        hunks.len() > 0,
        forall|i: int| 0 <= i < hunks.len() ==> is_hunk(#[trigger] hunks[i]),
    ensures
        parser::parsed(text::unlines(pre + patch_lines(hunks))).edits == patch_edits(hunks),
        parser::parsed(text::unlines(pre + patch_lines(hunks))).file_op == None::<FileOpView>,
{
    let ls = pre + patch_lines(hunks);
    lemma_skipped_read(pre);
    lemma_hunks_read(pre, None, hunks);
    lemma_patch_plain(hunks);
    lemma_one_more(hunks);
    assert forall|i: int| 0 <= i < ls.len() implies !(#[trigger] ls[i]).contains('\n') by {
        if i < pre.len() {
            assert(is_skipped(pre[i]));
        } else {
            assert(ls[i] == patch_lines(hunks)[i - pre.len()]);
        }
    }
    text::law_split_join(ls, '\n');
    assert(ls.last() == patch_lines(hunks).last());
    assert(spelling::kept_lines(text::unlines(ls)) == ls);
    spelling::lemma_tokens(text::unlines(ls));
    assert(is_hunk(hunks[hunks.len() - 1]));
    let st = after_lines(ls);
    assert(parser::comments_consumed(st) == (ExecutorView { comments: Seq::empty(), ..st }));
    lemma_flushed(
        parser::comments_consumed(st),
        None,
        patch_edits(hunks.drop_last()),
        tokenizer::hunk_header(hunks.last().0)->0,
        hunks.last().1,
    );
}

// ── Bodies with bare and blank lines ─────────────────────────────────────

/// A line of a body: a row behind its `+`, a row whose `+` was forgotten, or nothing.
pub enum BodyLine {
    Marked(Seq<char>),
    Bare(Seq<char>),
    Nothing,
}

/// A body line as it is written.
pub open spec fn body_line(l: BodyLine) -> Seq<char> {
    match l {
        BodyLine::Marked(t) => seq!['+'] + t,
        BodyLine::Bare(t) => t,
        BodyLine::Nothing => Seq::empty(),
    }
}

/// The text of a row that a body line stands for.
pub open spec fn row_text(l: BodyLine) -> Seq<char> {
    match l {
        BodyLine::Marked(t) => t,
        BodyLine::Bare(t) => t,
        BodyLine::Nothing => Seq::empty(),
    }
}

/// A body line that is read as what it is: of a bare one, that it says nothing else to the
/// reader of a patch, is of no other patch format, does not look like a removed line, and
/// bears no line number in front.
pub open spec fn is_read(l: BodyLine) -> bool {
    match l {
        BodyLine::Marked(t) => text::is_one_line(t),
        BodyLine::Bare(t) => {
            &&& text::is_one_line(t)
            &&& !text::is_blank(t)
            &&& tokenizer::token_of(t, 1) is Raw
            &&& parser::contamination_of(t) is None
            &&& !text::has_prefix(text::trim_start(t), "-"@)
            &&& prefixes::stripped_once(t) == t
        },
        BodyLine::Nothing => true,
    }
}

/// The row that the parser keeps of a body line.
spec fn kept_row(l: BodyLine) -> PayloadRowView {
    match l {
        BodyLine::Marked(t) => PayloadRowView {
            text: t,
            stripped: t,
            literal: false,
            bare: false,
        },
        BodyLine::Bare(t) => PayloadRowView {
            text: t,
            stripped: t,
            literal: engines::found(patterns::BARE_LITERAL_VALUE_PATTERN@, t),
            bare: true,
        },
        BodyLine::Nothing => PayloadRowView {
            text: Seq::empty(),
            stripped: Seq::empty(),
            literal: false,
            bare: true,
        },
    }
}

/// The parser stands in a body; the last `deferred` lines of it are blank and wait.
spec fn stands_in(
    st: ExecutorView,
    target: BlockTargetView,
    rows: Seq<BodyLine>,
) -> bool {
    &&& !st.terminated
    &&& st.comments.len() == 0
    &&& st.file_op is None
    &&& st.edits.len() == 0
    &&& st.pending matches Some(p) && p.target == target && p.payloads + p.deferred
        == rows.map_values(|l: BodyLine| kept_row(l)) && (rows.len() > 0 ==> p.payloads.len() > 0)
        && (rows.len() > 0 && !(rows.last() is Nothing) ==> p.deferred.len() == 0)
}

proof fn lemma_body_line_fed(
    st: ExecutorView,
    target: BlockTargetView,
    rows: Seq<BodyLine>,
    l: BodyLine,
    n: usize,
)
    requires
        stands_in(st, target, rows),
        !(target is Delete),
        !(target is DeleteBlock),
        is_read(l),
        rows.len() == 0 ==> !(l is Nothing),
    ensures
        ({
            let token = tokenizer::token_of(text::strip_cr(body_line(l)), n);
            stands_in(
                parser::fed(st, token, parser::facts_of(parser::fact_line(token))),
                target,
                rows.push(l),
            )
        }),
{
    let f = |l: BodyLine| kept_row(l);
    let token = tokenizer::token_of(text::strip_cr(body_line(l)), n);
    let facts = parser::facts_of(parser::fact_line(token));
    let open = parser::comments_consumed(st);
    assert(open == (ExecutorView { comments: Seq::empty(), ..st }));
    let p = st.pending->0;
    assert(rows.push(l).map_values(f) =~= rows.map_values(f).push(kept_row(l)));
    assert(p.payloads + p.deferred.push(kept_row(l)) =~= rows.push(l).map_values(f));
    let next = parser::fed(st, token, facts);
    match l {
        BodyLine::Marked(t) => {
            lemma_row_token(t, n);
            let q = next.pending->0;
            assert(q.payloads + q.deferred =~= rows.push(l).map_values(f));
        },
        BodyLine::Bare(t) => {
            assert(text::strip_cr(t) == t);
            assert(token == (TokenView::Raw { line_num: n, text: t }));
            let q = next.pending->0;
            assert(q.payloads + q.deferred =~= rows.push(l).map_values(f));
        },
        BodyLine::Nothing => {
            assert(token == (TokenView::Blank { line_num: n }));
            let q = next.pending->0;
            assert(q.payloads + q.deferred =~= rows.push(l).map_values(f));
        },
    }
}

proof fn lemma_body_read(ls: Seq<Seq<char>>, target: BlockTargetView, rows: Seq<BodyLine>)
    requires
        stands_in(after_lines(ls), target, Seq::empty()),
        !(target is Delete),
        !(target is DeleteBlock),
        forall|i: int| 0 <= i < rows.len() ==> is_read(#[trigger] rows[i]),
        rows.len() > 0 ==> !(rows[0] is Nothing),
    ensures
        stands_in(
            after_lines(ls + Seq::new(rows.len(), |i: int| body_line(rows[i]))),
            target,
            rows,
        ),
    decreases rows.len(),
{
    let body = Seq::new(rows.len(), |i: int| body_line(rows[i]));
    if rows.len() == 0 {
        assert(ls + body =~= ls);
        assert(rows =~= Seq::empty());
    } else {
        let rest = rows.drop_last();
        let upto = ls + Seq::new(rest.len(), |i: int| body_line(rest[i]));
        assert forall|i: int| 0 <= i < rest.len() implies is_read(#[trigger] rest[i]) by {
            assert(rest[i] == rows[i]);
        }
        lemma_body_read(ls, target, rest);
        assert(ls + body =~= upto.push(body_line(rows.last())));
        lemma_line_step(upto, body_line(rows.last()));
        assert(is_read(rows[rows.len() - 1]));
        lemma_body_line_fed(
            after_lines(upto),
            target,
            rest,
            rows.last(),
            (upto.len() + 1) as usize,
        );
        assert(rest.push(rows.last()) =~= rows);
    }
}

/// Blank lines behind a body, and blank lines before one, change nothing that counts.
proof fn lemma_blank_lines(ls: Seq<Seq<char>>, n: nat)
    requires
        !after_lines(ls).terminated,
        after_lines(ls).comments.len() == 0,
        after_lines(ls).pending is Some,
    ensures
        ({
            let a = after_lines(ls);
            let b = after_lines(ls + Seq::new(n, |i: int| Seq::<char>::empty()));
            &&& b == (ExecutorView { pending: b.pending, comments: b.comments, ..a })
            &&& b.comments.len() == 0
            &&& b.pending matches Some(p) && p == (PendingView {
                deferred: p.deferred,
                ..a.pending->0
            }) && (p.payloads.len() == 0 ==> p.deferred == a.pending->0.deferred)
        }),
    decreases n,
{
    let blanks = Seq::new(n, |i: int| Seq::<char>::empty());
    if n == 0 {
        assert(ls + blanks =~= ls);
    } else {
        let rest = Seq::new((n - 1) as nat, |i: int| Seq::<char>::empty());
        lemma_blank_lines(ls, (n - 1) as nat);
        let upto = ls + rest;
        assert(ls + blanks =~= upto.push(Seq::empty()));
        lemma_line_step(upto, Seq::empty());
        let st = after_lines(upto);
        let open = parser::comments_consumed(st);
        assert(open == (ExecutorView { comments: Seq::empty(), ..st }));
        let t = tokenizer::token_of(
            text::strip_cr(Seq::<char>::empty()),
            (upto.len() + 1) as usize,
        );
        assert(t is Blank);
        assert(after_lines(ls + blanks) == parser::blank_row(open, Seq::empty()));
    }
}

/// What the rows of a finished body ask for.
proof fn lemma_body_flushed(st: ExecutorView, target: BlockTargetView, rows: Seq<BodyLine>)
    requires
        !st.terminated,
        st.edits.len() == 0,
        st.file_op is None,
        st.pending matches Some(p) && p.target == target && p.payloads == rows.map_values(
            |l: BodyLine| kept_row(l),
        ),
        !(target is Rem),
        !(target is Move),
        forall|i: int| 0 <= i < rows.len() ==> is_read(#[trigger] rows[i]),
    ensures
        parser::flushed(st).edits == hunk_edits(
            target,
            rows.map_values(|l: BodyLine| row_text(l)),
        ),
{
    let p = st.pending->0;
    let texts = rows.map_values(|l: BodyLine| row_text(l));
    assert(parser::body_texts(p.payloads) =~= texts) by {
        assert forall|i: int| 0 <= i < rows.len() implies parser::body_texts(p.payloads)[i]
            == texts[i] by {
            assert(is_read(rows[i]));
            let row = p.payloads[i];
            assert(row == kept_row(rows[i]));
            assert(row.text == row.stripped);
        }
    }
    let g = |t: Seq<char>| PayloadRowView { text: t, stripped: t, literal: false, bare: false };
    let plain = ExecutorView {
        comments: Seq::empty(),
        pending: Some(
            PendingView { payloads: texts.map_values(g), deferred: Seq::empty(), ..p },
        ),
        ..st
    };
    assert(st.edits =~= Seq::empty());
    lemma_flushed(plain, None, Seq::empty(), target, texts);
    assert(parser::body_texts(texts.map_values(g)) =~= texts);
    assert(parser::flushed(st).edits == parser::flushed(plain).edits);
    assert(Seq::<EditView>::empty() + hunk_edits(target, texts) =~= hunk_edits(target, texts));
}

/// The body of a hunk may hold lines whose `+` was forgotten, and blank lines: every line from
/// the first row to the last is a row, a blank one an empty row, in order and unchanged. Blank
/// lines before the first row and behind the last do not count.
pub proof fn law_body_read(
    header: Seq<char>,
    before: nat,
    rows: Seq<BodyLine>,
    behind: nat,
)
    requires
        is_hunk((header, Seq::<Seq<char>>::empty())),
        !(tokenizer::hunk_header(header)->0 is Delete),
        !(tokenizer::hunk_header(header)->0 is DeleteBlock),
        rows.len() > 0,
        forall|i: int| 0 <= i < rows.len() ==> is_read(#[trigger] rows[i]),
        !(rows[0] is Nothing),
        !(rows.last() is Nothing),
    ensures
        parser::parsed(
            text::unlines(
                seq![header] + Seq::new(before, |i: int| Seq::<char>::empty()) + Seq::new(
                    rows.len(),
                    |i: int| body_line(rows[i]),
                ) + Seq::new(behind, |i: int| Seq::<char>::empty()),
            ),
        ).edits == hunk_edits(
            tokenizer::hunk_header(header)->0,
            rows.map_values(|l: BodyLine| row_text(l)),
        ),
{
    let target = tokenizer::hunk_header(header)->0;
    let a = Seq::new(before, |i: int| Seq::<char>::empty());
    let b = Seq::new(rows.len(), |i: int| body_line(rows[i]));
    let c = Seq::new(behind, |i: int| Seq::<char>::empty());
    let none = Seq::<Seq<char>>::empty();
    let d = text::unlines(seq![header] + a + b + c);
    assert(spelling::tokens_of_lines(none) =~= Seq::empty());
    lemma_hunk_read(none, None, Seq::empty(), None, (header, none));
    assert(none + hunk_lines(header, none) =~= seq![header]);
    let first = after_lines(seq![header]);
    let f = |l: BodyLine| kept_row(l);
    lemma_blank_lines(seq![header], before);
    let second = after_lines(seq![header] + a);
    assert(first.pending->0.payloads.len() == 0);
    assert(second.pending->0.payloads + second.pending->0.deferred =~= Seq::<
        BodyLine,
    >::empty().map_values(f));
    assert(stands_in(second, target, Seq::empty()));
    lemma_body_read(seq![header] + a, target, rows);
    let ls = seq![header] + a + b;
    let third = after_lines(ls);
    let q = third.pending->0;
    assert(q.payloads =~= rows.map_values(f)) by {
        assert(q.payloads + q.deferred =~= q.payloads);
    }
    let kept = if behind == 0 {
        0nat
    } else {
        (behind - 1) as nat
    };
    lemma_blank_lines(ls, kept);
    let e = Seq::new(kept, |i: int| Seq::<char>::empty());
    let last = after_lines(ls + e);
    assert(parser::comments_consumed(last) == (ExecutorView { comments: Seq::empty(), ..last }));
    lemma_body_flushed(parser::comments_consumed(last), target, rows);
    lemma_lines_kept(header, a, rows, b, c, behind);
    assert(spelling::kept_lines(d) =~= ls + e);
    spelling::lemma_tokens(d);
}

proof fn lemma_lines_kept(
    header: Seq<char>,
    a: Seq<Seq<char>>,
    rows: Seq<BodyLine>,
    b: Seq<Seq<char>>,
    c: Seq<Seq<char>>,
    behind: nat,
)
    requires
        !header.contains('\n'),
        header.len() > 0,
        forall|i: int| 0 <= i < a.len() ==> (#[trigger] a[i]).len() == 0,
        b == Seq::new(rows.len(), |i: int| body_line(rows[i])),
        c == Seq::new(behind, |i: int| Seq::<char>::empty()),
        rows.len() > 0,
        forall|i: int| 0 <= i < rows.len() ==> is_read(#[trigger] rows[i]),
        !(rows.last() is Nothing),
    ensures
        ({
            let d = text::unlines(seq![header] + a + b + c);
            spelling::kept_lines(d) == (if behind == 0 {
                seq![header] + a + b
            } else {
                seq![header] + a + b + c.drop_last()
            })
        }),
{
    let ls = seq![header] + a + b + c;
    let d = text::unlines(ls);
    assert forall|i: int| 0 <= i < ls.len() implies !(#[trigger] ls[i]).contains('\n') by {
        let k = 1 + a.len();
        if i == 0 {
        } else if i < k {
            assert(ls[i] == a[i - 1]);
        } else if i < k + b.len() {
            let l = rows[i - k];
            assert(is_read(l));
            assert(ls[i] == body_line(l));
            if l is Marked {
                let t = l->Marked_0;
                assert(forall|x: int| 0 < x < ls[i].len() ==> ls[i][x] == t[x - 1]);
            }
        } else {
            assert(ls[i] == c[i - k - b.len()]);
        }
    }
    text::law_split_join(ls, '\n');
    let last = rows.last();
    assert(is_read(rows[rows.len() - 1]));
    assert(body_line(last).len() > 0) by {
        if last is Bare && last->Bare_0.len() == 0 {
            assert(text::trim(last->Bare_0).len() == 0);
        }
    }
    assert(d.len() > 0) by {
        if d.len() == 0 {
            assert(d =~= Seq::empty());
            text::lemma_split_nonempty(d, '\n');
            assert(text::lines(d) =~= seq![Seq::<char>::empty()]);
            assert(ls.len() >= 2);
        }
    }
    if behind == 0 {
        assert(ls =~= seq![header] + a + b);
        assert(ls.last() == body_line(last));
    } else {
        assert(ls.last() == c.last());
        assert(ls.drop_last() =~= seq![header] + a + b + c.drop_last());
    }
}

} // verus!
