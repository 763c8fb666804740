//! Diff preview: a numbered diff between two texts, and a compact form of it.

use vstd::prelude::*;

use crate::engines;
use crate::engines::{Change, ChangeKind};
use crate::numbers;
use crate::text;
use crate::views;

verus! {

broadcast use {crate::views::group_all, crate::views::group_texts};

// ── Differences of texts ─────────────────────────────────────────────────

/// The difference between two lists of lines, as far as line numbers have 32 bits.
pub open spec fn changes(from: Seq<Seq<char>>, to: Seq<Seq<char>>) -> Option<
    Seq<(ChangeKind, Seq<char>)>,
> {
    if from.len() + to.len() < u32::MAX {
        Some(engines::line_diff(from, to))
    } else {
        None
    }
}

/// See [`changes`].
pub fn diff_changes(from: &[String], to: &[String]) -> (r: Option<Vec<Change>>)
    ensures
        match (r, changes(views::texts(from@), views::texts(to@))) {
            (Some(a), Some(b)) => {
                &&& engines::changes_view(a@) == b
                &&& engines::old_side(b) == views::texts(from@)
                &&& engines::new_side(b) == views::texts(to@)
                &&& from@.len() + to@.len() < u32::MAX
            },
            (None, None) => true,
            _ => false,
        },
{
    let n: usize = from.len();
    let m: usize = to.len();
    let max: usize = u32::MAX as usize;
    assert(views::texts(from@).len() == n && views::texts(to@).len() == m);
    if n < max && m < max - n {
        Some(engines::diff_lines(from, to))
    } else {
        None
    }
}

// ── Numbered diff ────────────────────────────────────────────────────────

/// The number of changes up to `i` that are not of a kind.
pub open spec fn count_other(
    changes: Seq<(ChangeKind, Seq<char>)>,
    kind: ChangeKind,
) -> nat
    decreases changes.len(),
{
    if changes.len() == 0 {
        0
    } else {
        count_other(changes.drop_last(), kind) + (if changes.last().0 == kind {
            0nat
        } else {
            1nat
        })
    }
}

/// A row of a numbered diff: a sign, the line number, `|`, and the line.
pub open spec fn row_of(kind: ChangeKind, number: nat, line: Seq<char>) -> Seq<char> {
    (match kind {
        ChangeKind::Equal => " "@,
        ChangeKind::Delete => "-"@,
        ChangeKind::Insert => "+"@,
    }) + numbers::dec(number) + "|"@ + line
}

/// One row per change, as [`row_of`] writes it. Added lines have
/// their number in the new text, the others in the old.
pub open spec fn numbered_rows(changes: Seq<(ChangeKind, Seq<char>)>) -> Seq<Seq<char>>
    decreases changes.len(),
{
    if changes.len() == 0 {
        Seq::empty()
    } else {
        let (kind, line) = changes.last();
        let number = match kind {
            ChangeKind::Insert => count_other(changes, ChangeKind::Delete),
            _ => count_other(changes, ChangeKind::Insert),
        };
        numbered_rows(changes.drop_last()).push(row_of(kind, number, line))
    }
}

/// Number the rows of a difference. See [`numbered_rows`].
pub fn number_changes(changes: &[Change]) -> (r: Vec<String>)
    ensures
        views::texts(r@) == numbered_rows(engines::changes_view(changes@)),
{
    let ghost vc = engines::changes_view(changes@);
    let mut out: Vec<String> = Vec::new();
    let mut old_line: usize = 0;
    let mut new_line: usize = 0;
    for i in 0..changes.len()
        invariant
            vc == engines::changes_view(changes@),
            views::texts(out@) == numbered_rows(vc.take(i as int)),
            old_line == count_other(vc.take(i as int), ChangeKind::Insert),
            new_line == count_other(vc.take(i as int), ChangeKind::Delete),
            old_line <= i,
            new_line <= i,
    {
        proof {
            views::lemma_take_step(vc, i as int);
        }
        let c = &changes[i];
        let mut row;
        match c.kind {
            ChangeKind::Equal => {
                old_line = old_line + 1;
                new_line = new_line + 1;
                row = text::owned(" ");
                row.append(numbers::decimal_usize(old_line).as_str());
            },
            ChangeKind::Delete => {
                old_line = old_line + 1;
                row = text::owned("-");
                row.append(numbers::decimal_usize(old_line).as_str());
            },
            ChangeKind::Insert => {
                new_line = new_line + 1;
                row = text::owned("+");
                row.append(numbers::decimal_usize(new_line).as_str());
            },
        }
        row.append("|");
        row.append(c.text.as_str());
        out.push(row);
    }
    proof {
        views::lemma_take_all(vc);
    }
    out
}

/// The lines of a text; an empty text has none.
pub open spec fn lines_or_none(s: Seq<char>) -> Seq<Seq<char>> {
    if s.len() == 0 {
        Seq::empty()
    } else {
        text::lines(s)
    }
}

/// See [`lines_or_none`].
pub fn split_or_none(s: &str) -> (r: Vec<String>)
    ensures
        views::texts(r@) == lines_or_none(s@),
{
    if s.is_empty() {
        Vec::new()
    } else {
        text::lines_of(s)
    }
}

/// The numbered diff between two texts. Texts with more lines than 32 bits can number
/// have an empty one.
pub open spec fn preview_of(from: Seq<char>, to: Seq<char>) -> Seq<char> {
    match changes(lines_or_none(from), lines_or_none(to)) {
        Some(cs) => text::unlines(numbered_rows(cs)),
        None => Seq::empty(),
    }
}

/// Produce a numbered diff between `old_text` and `new_text`.
///
/// Each line is prefixed with `+`, `-`, or ` ` and carries the post-edit (for `+`) or
/// pre-edit (for `-` and ` `) 1-indexed line number followed by `|` and the content:
///   `+5|new line`
///   `-4|old line`
///   ` 3|context`
pub fn make_diff_preview(old_text: &str, new_text: &str) -> (r: String)
    ensures
        r@ == preview_of(old_text@, new_text@),
{
    let from = split_or_none(old_text);
    let to = split_or_none(new_text);
    match diff_changes(from.as_slice(), to.as_slice()) {
        Some(cs) => text::join_lines(number_changes(cs.as_slice()).as_slice()),
        None => String::new(),
    }
}

// ── Compact preview ──────────────────────────────────────────────────────

/// Result of `build_compact_diff_preview`.
#[derive(Debug, Clone, PartialEq, Eq)]
pub struct CompactDiffPreview {
    pub preview: String,
    pub added_lines: u32,
    pub removed_lines: u32,
}

impl Default for CompactDiffPreview {
    fn default() -> (r: Self)
        ensures
            r.preview@.len() == 0,
            r.added_lines == 0,
            r.removed_lines == 0,
    {
        CompactDiffPreview { preview: String::new(), added_lines: 0, removed_lines: 0 }
    }
}

/// Optional knobs for `build_compact_diff_preview`.
#[derive(Debug, Clone)]
pub struct CompactDiffOptions {
    /// Added lines kept on each side of a long added-run elision (default 2).
    pub max_added_run_context: Option<usize>,
    /// Back-compat alias for `max_added_run_context`.
    pub max_unchanged_run: Option<usize>,
}

impl Default for CompactDiffOptions {
    fn default() -> (r: Self)
        ensures
            r.max_added_run_context is None,
            r.max_unchanged_run is None,
    {
        CompactDiffOptions { max_added_run_context: None, max_unchanged_run: None }
    }
}

/// The number of added lines kept on each side: as asked, 2 by default, at least 1.
pub open spec fn added_context(options: CompactDiffOptions) -> usize {
    let asked = match options.max_added_run_context {
        Some(n) => n,
        None => match options.max_unchanged_run {
            Some(n) => n,
            None => 2,
        },
    };
    if asked < 1 {
        1
    } else {
        asked
    }
}

fn normalize_added_run_context(options: &CompactDiffOptions) -> (r: usize)
    ensures
        r == added_context(*options),
{
    let asked: usize = match options.max_added_run_context {
        Some(n) => n,
        None => match options.max_unchanged_run {
            Some(n) => n,
            None => 2,
        },
    };
    if asked < 1 {
        1
    } else {
        asked
    }
}

/// A row of a numbered diff: its kind, number and line.
pub open spec fn diff_row(line: Seq<char>) -> Option<(ChangeKind, u32, Seq<char>)> {
    let bar = text::find_char(line.skip(1), '|', 0);
    if line.len() == 0 || !(line[0] == '+' || line[0] == '-' || line[0] == ' ') {
        None
    } else if bar >= line.len() - 1 {
        None
    } else {
        match numbers::parse_unsigned(line.subrange(1, bar + 1), 10, u32::MAX as int) {
            Some(n) => Some(
                (
                    if line[0] == '+' {
                        ChangeKind::Insert
                    } else if line[0] == '-' {
                        ChangeKind::Delete
                    } else {
                        ChangeKind::Equal
                    },
                    n as u32,
                    line.skip(bar + 2),
                ),
            ),
            None => None,
        }
    }
}

/// See [`diff_row`].
pub fn parse_numbered_diff_line(line: &str) -> (r: Option<(ChangeKind, u32, String)>)
    ensures
        match (r, diff_row(line@)) {
            (Some(a), Some(b)) => a.0 == b.0 && a.1 == b.1 && a.2@ == b.2,
            (None, None) => true,
            _ => false,
        },
{
    let v = text::chars_of(line);
    let n: usize = v.len();
    if n == 0 {
        return None;
    }
    let kind = if v[0] == '+' {
        ChangeKind::Insert
    } else if v[0] == '-' {
        ChangeKind::Delete
    } else if v[0] == ' ' {
        ChangeKind::Equal
    } else {
        return None;
    };
    let body = text::string_of(v.as_slice(), 1, n);
    let w = text::chars_of(body.as_str());
    proof {
        assert(w@ =~= line@.skip(1));
    }
    let bar: usize = text::position_of(w.as_slice(), '|', 0);
    if bar >= n - 1 {
        return None;
    }
    let digits = text::string_of(v.as_slice(), 1, bar + 1);
    let rest = text::string_of(v.as_slice(), bar + 2, n);
    proof {
        assert(v@.subrange(bar + 2, n as int) =~= line@.skip(bar + 2));
    }
    match numbers::read_u32(digits.as_str()) {
        Some(k) => Some((kind, k, rest)),
        None => None,
    }
}

/// A row that stands for left-out lines.
pub open spec fn is_elision(line: Seq<char>) -> bool {
    line == "..."@ || line == "…"@ || line == "+…"@
}

/// A row that separates runs of lines.
pub open spec fn is_separator(line: Seq<char>) -> bool {
    line == "…"@ || line == ""@
}

/// The preview with one more row. Every elision reads `…`; separators never stack, and
/// none comes first.
pub open spec fn with_row(out: Seq<Seq<char>>, line: Seq<char>) -> Seq<Seq<char>> {
    let row = if is_elision(line) {
        "…"@
    } else {
        line
    };
    if is_separator(row) && (out.len() == 0 || is_separator(out.last())) {
        out
    } else {
        out.push(row)
    }
}

fn is_preview_separator(line: &str) -> (r: bool)
    ensures
        r == is_separator(line@),
{
    text::same(line, "…") || text::same(line, "")
}

fn append_preview_line(out: &mut Vec<String>, line: &str)
    ensures
        views::texts(final(out)@) == with_row(views::texts(old(out)@), line@),
{
    let elided = text::same(line, "...") || text::same(line, "…") || text::same(line, "+…");
    let row = if elided {
        "…"
    } else {
        line
    };
    let n: usize = out.len();
    assert(n > 0 ==> views::texts(out@).last() == out@[n - 1]@);
    assert(views::texts(out@).len() == n);
    if is_preview_separator(row) && (n == 0 || is_preview_separator(out[n - 1].as_str())) {
        return;
    }
    out.push(text::owned(row));
}

/// The preview with the rows of a list, one after the other.
pub open spec fn with_rows(out: Seq<Seq<char>>, rows: Seq<Seq<char>>) -> Seq<Seq<char>>
    decreases rows.len(),
{
    if rows.len() == 0 {
        out
    } else {
        with_row(with_rows(out, rows.drop_last()), rows.last())
    }
}

/// The rows of an added run that are shown: all of a short run, else the first and last
/// `edge` rows with an elision between them.
pub open spec fn run_rows(run: Seq<Seq<char>>, edge: int) -> Seq<Seq<char>> {
    if run.len() <= edge * 2 + 1 {
        run
    } else {
        run.take(edge).push("…"@) + run.skip(run.len() - edge)
    }
}

fn append_rows(out: &mut Vec<String>, rows: &[String])
    ensures
        views::texts(final(out)@) == with_rows(views::texts(old(out)@), views::texts(rows@)),
{
    let ghost start = views::texts(out@);
    let ghost vr = views::texts(rows@);
    for i in 0..rows.len()
        invariant
            vr == views::texts(rows@),
            views::texts(out@) == with_rows(start, vr.take(i as int)),
    {
        proof {
            views::lemma_take_step(vr, i as int);
            assert(vr[i as int] == rows@[i as int]@);
        }
        append_preview_line(out, rows[i].as_str());
    }
    proof {
        views::lemma_take_all(vr);
    }
}

fn append_added_run(out: &mut Vec<String>, run: &[String], edge: usize)
    ensures
        views::texts(final(out)@) == with_rows(
            views::texts(old(out)@),
            run_rows(views::texts(run@), edge as int),
        ),
{
    let n: usize = run.len();
    let ghost vr = views::texts(run@);
    if n / 2 <= edge {
        append_rows(out, run);
        return;
    }
    let mut rows: Vec<String> = Vec::new();
    for i in 0..edge
        invariant
            n == run@.len(),
            edge <= n,
            vr == views::texts(run@),
            views::texts(rows@) == vr.take(i as int),
    {
        proof {
            views::lemma_take_step(vr, i as int);
        }
        rows.push(run[i].clone());
    }
    rows.push(text::owned("…"));
    let ghost head = views::texts(rows@);
    let ghost tail = vr.skip(n - edge);
    assert(head + tail.take(0) =~= head);
    for i in n - edge..n
        invariant
            n == run@.len(),
            edge <= n,
            vr == views::texts(run@),
            tail == vr.skip(n - edge),
            views::texts(rows@) == head + tail.take(i - (n - edge)),
    {
        let ghost k = i - (n - edge);
        proof {
            assert(head + tail.take(k + 1) =~= (head + tail.take(k)).push(tail[k]));
            assert(tail[k] == run@[i as int]@);
        }
        rows.push(run[i].clone());
    }
    proof {
        views::lemma_take_all(tail);
    }
    append_rows(out, rows.as_slice());
}

/// The state of the compaction between two rows.
#[verifier::ext_equal]
pub struct CompactView {
    pub rows: Seq<Seq<char>>,
    /// The added lines that are not shown yet.
    pub run: Seq<Seq<char>>,
    pub added: int,
    pub removed: int,
}

/// The state once the added run is shown.
pub open spec fn run_shown(st: CompactView, edge: int) -> CompactView {
    CompactView { rows: with_rows(st.rows, run_rows(st.run, edge)), run: Seq::empty(), ..st }
}

/// The state after a row of the diff. Added lines are numbered in the new text; removed
/// lines are not shown; context lines are renumbered to the new text.
pub open spec fn compacted_row(st: CompactView, line: Seq<char>, edge: int) -> CompactView {
    match diff_row(line) {
        Some((ChangeKind::Insert, n, content)) => CompactView {
            added: st.added + 1,
            run: st.run.push(crate::format::numbered(n as nat, content)),
            ..st
        },
        Some((ChangeKind::Delete, _, _)) => CompactView {
            removed: st.removed + 1,
            ..run_shown(st, edge)
        },
        Some((ChangeKind::Equal, n, content)) => {
            let shown = run_shown(st, edge);
            let number = n + st.added - st.removed;
            if number >= 0 {
                CompactView {
                    rows: with_row(
                        shown.rows,
                        crate::format::numbered(number as nat, content),
                    ),
                    ..shown
                }
            } else {
                shown
            }
        },
        None => {
            let shown = run_shown(st, edge);
            CompactView { rows: with_row(shown.rows, line), ..shown }
        },
    }
}

/// The state after a list of rows.
pub open spec fn compacted(lines: Seq<Seq<char>>, edge: int) -> CompactView
    decreases lines.len(),
{
    if lines.len() == 0 {
        CompactView { rows: Seq::empty(), run: Seq::empty(), added: 0, removed: 0 }
    } else {
        compacted_row(compacted(lines.drop_last(), edge), lines.last(), edge)
    }
}

/// Rows without the separators at their end.
pub open spec fn drop_separators(rows: Seq<Seq<char>>) -> Seq<Seq<char>>
    decreases rows.len(),
{
    if rows.len() > 0 && is_separator(rows.last()) {
        drop_separators(rows.drop_last())
    } else {
        rows
    }
}

/// The rows of the compact preview of a numbered diff.
pub open spec fn compact_rows(diff: Seq<char>, edge: int) -> Seq<Seq<char>> {
    drop_separators(run_shown(compacted(lines_or_none(diff), edge), edge).rows)
}

/// Build a compact diff preview from a numbered diff string. The counts wrap at 32 bits.
pub fn build_compact_diff_preview(diff: &str, options: &CompactDiffOptions) -> (r:
    CompactDiffPreview)
    ensures
        r.preview@ == text::unlines(compact_rows(diff@, added_context(*options) as int)),
        r.added_lines == compacted(
            lines_or_none(diff@),
            added_context(*options) as int,
        ).added as u32,
        r.removed_lines == compacted(
            lines_or_none(diff@),
            added_context(*options) as int,
        ).removed as u32,
{
    let lines = split_or_none(diff);
    let ghost ls = views::texts(lines@);
    let edge: usize = normalize_added_run_context(options);
    let mut rows: Vec<String> = Vec::new();
    let mut run: Vec<String> = Vec::new();
    let mut added: usize = 0;
    let mut removed: usize = 0;
    proof {
        assert(views::texts(rows@) =~= Seq::empty());
        assert(views::texts(run@) =~= Seq::empty());
    }
    for i in 0..lines.len()
        invariant
            ls == views::texts(lines@),
            compacted(ls.take(i as int), edge as int) == (CompactView {
                rows: views::texts(rows@),
                run: views::texts(run@),
                added: added as int,
                removed: removed as int,
            }),
            added <= i,
            removed <= i,
    {
        proof {
            views::lemma_take_step(ls, i as int);
            assert(ls[i as int] == lines@[i as int]@);
        }
        let line = lines[i].as_str();
        match parse_numbered_diff_line(line) {
            Some((kind, n, content)) => {
                match kind {
                    ChangeKind::Insert => {
                        added = added + 1;
                        run.push(
                            crate::format::format_numbered_line(n as usize, content.as_str()),
                        );
                    },
                    ChangeKind::Delete => {
                        append_added_run(&mut rows, run.as_slice(), edge);
                        run = Vec::new();
                        assert(views::texts(run@) =~= Seq::empty());
                        removed = removed + 1;
                    },
                    ChangeKind::Equal => {
                        append_added_run(&mut rows, run.as_slice(), edge);
                        run = Vec::new();
                        assert(views::texts(run@) =~= Seq::empty());
                        let up: u128 = n as u128 + added as u128;
                        if up >= removed as u128 {
                            let number: u128 = up - removed as u128;
                            let mut row = numbers::decimal_wide(number);
                            let ghost head = row@;
                            row.push(crate::format::HL_LINE_BODY_SEP);
                            proof {
                                assert(row@ =~= head + seq![crate::format::HL_LINE_BODY_SEP]);
                            }
                            row.append(content.as_str());
                            append_preview_line(&mut rows, row.as_str());
                        }
                    },
                }
            },
            None => {
                append_added_run(&mut rows, run.as_slice(), edge);
                run = Vec::new();
                assert(views::texts(run@) =~= Seq::empty());
                append_preview_line(&mut rows, line);
            },
        }
    }
    proof {
        views::lemma_take_all(ls);
    }
    append_added_run(&mut rows, run.as_slice(), edge);
    let ghost all = views::texts(rows@);
    let mut more = true;
    while more && rows.len() > 0
        invariant
            drop_separators(views::texts(rows@)) == drop_separators(all),
            !more ==> views::texts(rows@) == drop_separators(all),
        decreases rows@.len(), (if more { 1int } else { 0int }),
    {
        let n: usize = rows.len();
        proof {
            assert(views::texts(rows@).last() == rows@[n - 1]@);
            views::lemma_texts_drop_last(rows@);
        }
        if is_preview_separator(rows[n - 1].as_str()) {
            let _ = rows.pop();
        } else {
            more = false;
        }
    }
    CompactDiffPreview {
        preview: text::join_lines(rows.as_slice()),
        added_lines: added as u32,
        removed_lines: removed as u32,
    }
}

// ── Laws ─────────────────────────────────────────────────────────────────

/// A row of a numbered diff that was written is read back.
pub proof fn law_row_read_back(kind: ChangeKind, number: u32, line: Seq<char>)
    ensures
        diff_row(row_of(kind, number as nat, line)) == Some((kind, number, line)),
{
    reveal_strlit("+");
    reveal_strlit("-");
    reveal_strlit(" ");
    reveal_strlit("|");
    numbers::law_number_read_back(number as nat, 10, u32::MAX as int);
    let row = row_of(kind, number as nat, line);
    let digits = numbers::dec(number as nat);
    let rest = row.skip(1);
    assert(rest =~= digits + "|"@ + line);
    numbers::lemma_numeral(number as nat, 10);
    text::lemma_find_char(rest, '|', 0);
    let bar = text::find_char(rest, '|', 0);
    assert(rest[digits.len() as int] == '|');
    assert(bar == digits.len()) by {
        if bar < digits.len() {
            assert(numbers::is_radix_digit(digits[bar], 10));
        }
    }
    assert(row.subrange(1, bar + 1) =~= digits);
    assert(row.skip(bar + 2) =~= line);
}

/// The number of changes of a kind.
pub open spec fn count_of(changes: Seq<(ChangeKind, Seq<char>)>, kind: ChangeKind) -> int {
    changes.len() - count_other(changes, kind)
}

proof fn lemma_row_plain(changes: Seq<(ChangeKind, Seq<char>)>, i: int)
    requires
        0 <= i < changes.len(),
        forall|j: int| 0 <= j < changes.len() ==> !(#[trigger] changes[j]).1.contains('\n'),
    ensures
        numbered_rows(changes).len() == changes.len(),
        !numbered_rows(changes)[i].contains('\n'),
    decreases changes.len(),
{
    let rest = changes.drop_last();
    lemma_rows_len(changes);
    lemma_rows_len(rest);
    assert forall|j: int| 0 <= j < rest.len() implies !(#[trigger] rest[j]).1.contains('\n') by {
        assert(rest[j] == changes[j]);
    }
    if i < rest.len() {
        lemma_row_plain(rest, i);
        assert(numbered_rows(changes)[i] == numbered_rows(rest)[i]);
    } else {
        let (kind, line) = changes.last();
        let number = match kind {
            ChangeKind::Insert => count_other(changes, ChangeKind::Delete),
            _ => count_other(changes, ChangeKind::Insert),
        };
        reveal_strlit("+");
        reveal_strlit("-");
        reveal_strlit(" ");
        reveal_strlit("|");
        numbers::lemma_numeral(number, 10);
        let digits = numbers::dec(number);
        let row = row_of(kind, number, line);
        assert(numbered_rows(changes)[i] == row);
        assert forall|j: int| 0 <= j < row.len() implies #[trigger] row[j] != '\n' by {
            let n = digits.len() as int;
            if 1 <= j < n + 1 {
                assert(row[j] == digits[j - 1]);
                assert(numbers::is_radix_digit(digits[j - 1], 10));
            } else if j > n + 1 {
                assert(row[j] == line[j - n - 2]);
                assert(!changes[changes.len() - 1].1.contains('\n'));
                assert(line.contains(line[j - n - 2]));
            }
        }
    }
}

proof fn lemma_rows_len(changes: Seq<(ChangeKind, Seq<char>)>)
    ensures
        numbered_rows(changes).len() == changes.len(),
    decreases changes.len(),
{
    if changes.len() > 0 {
        lemma_rows_len(changes.drop_last());
    }
}

proof fn lemma_count_bound(changes: Seq<(ChangeKind, Seq<char>)>, kind: ChangeKind)
    ensures
        count_other(changes, kind) <= changes.len(),
    decreases changes.len(),
{
    if changes.len() > 0 {
        lemma_count_bound(changes.drop_last(), kind);
    }
}

proof fn lemma_compact_counts(changes: Seq<(ChangeKind, Seq<char>)>, edge: int)
    requires
        changes.len() <= u32::MAX,
    ensures
        compacted(numbered_rows(changes), edge).added == count_of(changes, ChangeKind::Insert),
        compacted(numbered_rows(changes), edge).removed == count_of(changes, ChangeKind::Delete),
    decreases changes.len(),
{
    if changes.len() > 0 {
        let rest = changes.drop_last();
        lemma_compact_counts(rest, edge);
        let (kind, line) = changes.last();
        let number = match kind {
            ChangeKind::Insert => count_other(changes, ChangeKind::Delete),
            _ => count_other(changes, ChangeKind::Insert),
        };
        lemma_count_bound(changes, ChangeKind::Insert);
        lemma_count_bound(changes, ChangeKind::Delete);
        law_row_read_back(kind, number as u32, line);
        let rows = numbered_rows(changes);
        assert(rows.drop_last() =~= numbered_rows(rest));
        assert(rows.last() == row_of(kind, number, line));
    }
}

/// The compact preview of a numbered diff counts the lines that were added and those that
/// were removed.
pub proof fn law_compact_counts(changes: Seq<(ChangeKind, Seq<char>)>, edge: int)
    requires
        changes.len() <= u32::MAX,
        forall|j: int| 0 <= j < changes.len() ==> !(#[trigger] changes[j]).1.contains('\n'),
    ensures
        ({
            let after = compacted(lines_or_none(text::unlines(numbered_rows(changes))), edge);
            &&& after.added == count_of(changes, ChangeKind::Insert)
            &&& after.removed == count_of(changes, ChangeKind::Delete)
        }),
{
    lemma_compact_counts(changes, edge);
    lemma_rows_read(changes);
}

/// The rows of a numbered diff, put together and taken apart again.
proof fn lemma_rows_read(changes: Seq<(ChangeKind, Seq<char>)>)
    requires
        forall|j: int| 0 <= j < changes.len() ==> !(#[trigger] changes[j]).1.contains('\n'),
    ensures
        lines_or_none(text::unlines(numbered_rows(changes))) == numbered_rows(changes),
{
    let rows = numbered_rows(changes);
    lemma_rows_len(changes);
    if changes.len() == 0 {
        assert(rows =~= Seq::empty());
        assert(text::unlines(rows) =~= Seq::empty());
    } else {
        assert forall|i: int| 0 <= i < rows.len() implies !(#[trigger] rows[i]).contains('\n') by {
            lemma_row_plain(changes, i);
        }
        text::law_split_join(rows, '\n');
        lemma_row_plain(changes, 0);
        assert(text::unlines(rows).len() > 0) by {
            if text::unlines(rows).len() == 0 {
                assert(text::unlines(rows) =~= Seq::empty());
                text::lemma_split_nonempty(text::unlines(rows), '\n');
                assert(rows == text::lines(Seq::empty()));
                assert(rows[0].len() == 0);
                lemma_row_nonempty(changes);
            }
        }
    }
}

proof fn lemma_row_nonempty(changes: Seq<(ChangeKind, Seq<char>)>)
    requires
        changes.len() > 0,
    ensures
        numbered_rows(changes)[0].len() > 0,
    decreases changes.len(),
{
    lemma_rows_len(changes);
    lemma_rows_len(changes.drop_last());
    if changes.len() > 1 {
        lemma_row_nonempty(changes.drop_last());
        assert(numbered_rows(changes)[0] == numbered_rows(changes.drop_last())[0]);
    } else {
        reveal_strlit("+");
        reveal_strlit("-");
        reveal_strlit(" ");
    }
}

/// The sign of a row: a space, `-` or `+`.
pub open spec fn sign_of(kind: ChangeKind) -> char {
    match kind {
        ChangeKind::Equal => ' ',
        ChangeKind::Delete => '-',
        ChangeKind::Insert => '+',
    }
}

proof fn lemma_sides(changes: Seq<(ChangeKind, Seq<char>)>)
    ensures
        engines::old_side(changes).len() == count_other(changes, ChangeKind::Insert),
        engines::new_side(changes).len() == count_other(changes, ChangeKind::Delete),
    decreases changes.len(),
{
    if changes.len() > 0 {
        lemma_sides(changes.drop_last());
    }
}

/// A numbered diff has one row for each change, in order: its sign, a number, `|` and the
/// line. The number says which line of its text it is: an added line reads so in the new text
/// at that number, any other line in the old one.
pub proof fn law_rows_numbered(changes: Seq<(ChangeKind, Seq<char>)>)
    ensures
        numbered_rows(changes).len() == changes.len(),
        forall|i: int|
            0 <= i < changes.len() ==> is_numbered_row(
                #[trigger] numbered_rows(changes)[i],
                changes[i].0,
                changes[i].1,
                if changes[i].0 == ChangeKind::Insert {
                    engines::new_side(changes)
                } else {
                    engines::old_side(changes)
                },
            ),
    decreases changes.len(),
{
    reveal_strlit(" ");
    reveal_strlit("-");
    reveal_strlit("+");
    reveal_strlit("|");
    assert(" "@ =~= seq![' ']);
    assert("-"@ =~= seq!['-']);
    assert("+"@ =~= seq!['+']);
    assert("|"@ =~= seq!['|']);
    lemma_rows_len(changes);
    if changes.len() > 0 {
        let rest = changes.drop_last();
        law_rows_numbered(rest);
        lemma_sides(changes);
        assert forall|i: int| 0 <= i < changes.len() implies is_numbered_row(
            #[trigger] numbered_rows(changes)[i],
            changes[i].0,
            changes[i].1,
            if changes[i].0 == ChangeKind::Insert {
                engines::new_side(changes)
            } else {
                engines::old_side(changes)
            },
        ) by {
            let (kind, line) = changes[i];
            let insert = kind == ChangeKind::Insert;
            let side = if insert {
                engines::new_side(changes)
            } else {
                engines::old_side(changes)
            };
            if i < rest.len() {
                let before = if insert {
                    engines::new_side(rest)
                } else {
                    engines::old_side(rest)
                };
                lemma_rows_len(rest);
                assert(rest[i] == changes[i]);
                assert(numbered_rows(changes)[i] == numbered_rows(rest)[i]);
                let n = choose|n: nat| #[trigger]
                    is_number_in(before, n, line) && numbered_rows(rest)[i] == seq![
                        sign_of(kind),
                    ] + numbers::dec(n) + seq!['|'] + line;
                assert(side[n - 1] == before[n - 1]);
                assert(is_number_in(side, n, line));
            } else {
                let n = side.len();
                lemma_rows_len(rest);
                assert(is_number_in(side, n, line));
                assert(numbered_rows(changes)[i] =~= seq![sign_of(kind)] + numbers::dec(n) + seq![
                    '|',
                ] + line);
            }
        }
    }
}

/// A row of a numbered diff: a sign, the number of a line on one side, `|` and the line.
pub open spec fn is_numbered_row(
    row: Seq<char>,
    kind: ChangeKind,
    line: Seq<char>,
    side: Seq<Seq<char>>,
) -> bool {
    exists|n: nat| #[trigger]
        is_number_in(side, n, line) && row == seq![sign_of(kind)] + numbers::dec(n) + seq!['|']
            + line
}

/// Line `n` of a list of lines reads so.
pub open spec fn is_number_in(ls: Seq<Seq<char>>, n: nat, line: Seq<char>) -> bool {
    1 <= n <= ls.len() && ls[n - 1] == line
}

/// The lines of a text, each behind its number and a colon.
pub open spec fn numbered_lines(ls: Seq<Seq<char>>) -> Seq<Seq<char>> {
    Seq::new(ls.len(), |i: int| numbers::dec((i + 1) as nat) + seq![':'] + ls[i])
}

proof fn lemma_no_separator(n: nat, line: Seq<char>)
    ensures
        ({
            let row = crate::format::numbered(n, line);
            row.len() > 0 && !is_elision(row) && !is_separator(row)
        }),
{
    reveal_strlit("...");
    reveal_strlit("…");
    reveal_strlit("+…");
    reveal_strlit("");
    let row = crate::format::numbered(n, line);
    numbers::lemma_numeral(n, 10);
    assert(row[0] == numbers::dec(n)[0]);
    assert(numbers::is_radix_digit(numbers::dec(n)[0], 10));
    assert(row[0] != '.' && row[0] != '…' && row[0] != '+');
    assert("..."@[0] == '.');
    assert("…"@[0] == '…');
    assert("+…"@[0] == '+');
    assert(""@.len() == 0);
    assert(row != "..."@ && row != "…"@ && row != "+…"@ && row != ""@);
}

/// Numbered lines are shown as they are.
proof fn lemma_rows_put(out: Seq<Seq<char>>, rows: Seq<Seq<char>>)
    requires
        forall|i: int| 0 <= i < rows.len() ==> !is_elision(#[trigger] rows[i]) && !is_separator(rows[i]),
    ensures
        with_rows(out, rows) == out + rows,
    decreases rows.len(),
{
    if rows.len() == 0 {
        assert(out + rows =~= out);
    } else {
        let rest = rows.drop_last();
        assert forall|i: int| 0 <= i < rest.len() implies !is_elision(#[trigger] rest[i])
            && !is_separator(rest[i]) by {
            assert(rest[i] == rows[i]);
        }
        lemma_rows_put(out, rest);
        assert(!is_elision(rows[rows.len() - 1]));
        assert(out + rows =~= (out + rest).push(rows.last()));
    }
}

proof fn lemma_numbered_plain(ls: Seq<Seq<char>>)
    ensures
        forall|i: int|
            0 <= i < ls.len() ==> !is_elision(#[trigger] numbered_lines(ls)[i]) && !is_separator(
                numbered_lines(ls)[i],
            ),
{
    assert forall|i: int| 0 <= i < ls.len() implies !is_elision(#[trigger] numbered_lines(ls)[i])
        && !is_separator(numbered_lines(ls)[i]) by {
        lemma_no_separator((i + 1) as nat, ls[i]);
        assert(numbered_lines(ls)[i] == crate::format::numbered((i + 1) as nat, ls[i]));
    }
}

proof fn lemma_compact_new(changes: Seq<(ChangeKind, Seq<char>)>, edge: int)
    requires
        changes.len() <= u32::MAX,
        changes.len() <= 2 * edge + 1,
    ensures
        ({
            let st = compacted(numbered_rows(changes), edge);
            st.rows + st.run == numbered_lines(engines::new_side(changes)) && st.run.len()
                <= changes.len()
        }),
    decreases changes.len(),
{
    let new = engines::new_side(changes);
    let goal = numbered_lines(new);
    if changes.len() == 0 {
        assert(goal =~= Seq::empty());
        assert(numbered_rows(changes) =~= Seq::empty());
        let st = compacted(numbered_rows(changes), edge);
        assert(st.rows + st.run =~= goal);
    } else {
        let rest = changes.drop_last();
        let (kind, line) = changes.last();
        let number = match kind {
            ChangeKind::Insert => count_other(changes, ChangeKind::Delete),
            _ => count_other(changes, ChangeKind::Insert),
        };
        lemma_compact_new(rest, edge);
        lemma_compact_counts(rest, edge);
        lemma_count_bound(changes, ChangeKind::Insert);
        lemma_count_bound(changes, ChangeKind::Delete);
        lemma_sides(changes);
        lemma_sides(rest);
        law_row_read_back(kind, number as u32, line);
        let rows = numbered_rows(changes);
        assert(rows.drop_last() =~= numbered_rows(rest));
        assert(rows.last() == row_of(kind, number, line));
        let st = compacted(numbered_rows(rest), edge);
        let before = numbered_lines(engines::new_side(rest));
        lemma_numbered_plain(engines::new_side(rest));
        assert forall|i: int| 0 <= i < st.run.len() implies !is_elision(#[trigger] st.run[i])
            && !is_separator(st.run[i]) by {
            let k = st.rows.len() + i;
            assert((st.rows + st.run).len() == before.len());
            assert(st.run[i] == (st.rows + st.run)[k]);
            assert(!is_elision(numbered_lines(engines::new_side(rest))[k]));
        }
        lemma_rows_put(st.rows, st.run);
        let shown = run_shown(st, edge);
        assert(shown.rows == before);
        let now = compacted(rows, edge);
        match kind {
            ChangeKind::Insert => {
                let row = crate::format::numbered(number, line);
                assert(now.rows + now.run =~= (st.rows + st.run).push(row));
                assert(goal =~= before.push(row));
            },
            ChangeKind::Delete => {
                assert(now.rows + now.run =~= before);
                assert(goal =~= before);
            },
            ChangeKind::Equal => {
                lemma_kinds(rest);
                let row = crate::format::numbered(new.len(), line);
                lemma_no_separator(new.len(), line);
                assert(number + st.added - st.removed == new.len());
                assert(now.rows == with_row(before, row));
                assert(now.rows + now.run =~= before.push(row));
                assert(goal =~= before.push(row));
            },
        }
    }
}

/// Of each change it is so: it is added, removed or neither.
proof fn lemma_kinds(changes: Seq<(ChangeKind, Seq<char>)>)
    ensures
        count_other(changes, ChangeKind::Delete) - count_of(changes, ChangeKind::Insert)
            == count_other(changes, ChangeKind::Insert) - count_of(changes, ChangeKind::Delete),
    decreases changes.len(),
{
    if changes.len() > 0 {
        lemma_kinds(changes.drop_last());
    }
}

/// The compact preview of a numbered diff shows the new text: where no run of added lines is
/// too long to be shown, all its lines, each behind its number in the new text and a colon,
/// unchanged and in order, and nothing of what was removed.
pub proof fn law_compact_shows_new_text(changes: Seq<(ChangeKind, Seq<char>)>, edge: int)
    requires
        changes.len() <= u32::MAX,
        changes.len() <= 2 * edge + 1,
        forall|j: int| 0 <= j < changes.len() ==> !(#[trigger] changes[j]).1.contains('\n'),
    ensures
        compact_rows(text::unlines(numbered_rows(changes)), edge) == numbered_lines(
            engines::new_side(changes),
        ),
{
    lemma_rows_read(changes);
    lemma_compact_new(changes, edge);
    let new = engines::new_side(changes);
    let st = compacted(numbered_rows(changes), edge);
    lemma_numbered_plain(new);
    assert forall|i: int| 0 <= i < st.run.len() implies !is_elision(#[trigger] st.run[i])
        && !is_separator(st.run[i]) by {
        let k = st.rows.len() + i;
        assert((st.rows + st.run).len() == numbered_lines(new).len());
        assert(st.run[i] == (st.rows + st.run)[k]);
        assert(!is_elision(numbered_lines(new)[k]));
    }
    lemma_rows_put(st.rows, st.run);
    if new.len() > 0 {
        assert(!is_separator(numbered_lines(new)[new.len() - 1]));
    }
}

proof fn lemma_all_added(changes: Seq<(ChangeKind, Seq<char>)>, edge: int)
    requires
        changes.len() <= u32::MAX,
        forall|i: int| 0 <= i < changes.len() ==> (#[trigger] changes[i]).0 == ChangeKind::Insert,
    ensures
        compacted(numbered_rows(changes), edge).rows.len() == 0,
        compacted(numbered_rows(changes), edge).run == numbered_lines(engines::new_side(changes)),
        engines::new_side(changes).len() == changes.len(),
    decreases changes.len(),
{
    let goal = numbered_lines(engines::new_side(changes));
    if changes.len() == 0 {
        assert(numbered_rows(changes) =~= Seq::empty());
        assert(goal =~= Seq::empty());
    } else {
        let rest = changes.drop_last();
        assert forall|i: int| 0 <= i < rest.len() implies (#[trigger] rest[i]).0
            == ChangeKind::Insert by {
            assert(rest[i] == changes[i]);
        }
        lemma_all_added(rest, edge);
        assert(changes[changes.len() - 1].0 == ChangeKind::Insert);
        let (kind, line) = changes.last();
        let number = count_other(changes, ChangeKind::Delete);
        lemma_count_bound(changes, ChangeKind::Delete);
        lemma_sides(changes);
        law_row_read_back(kind, number as u32, line);
        let rows = numbered_rows(changes);
        assert(rows.drop_last() =~= numbered_rows(rest));
        assert(rows.last() == row_of(kind, number, line));
        assert(goal =~= numbered_lines(engines::new_side(rest)).push(
            crate::format::numbered(number, line),
        ));
    }
}

/// Of a long run of added lines the compact preview shows the first and the last ones, as many
/// of each as asked for, each behind its number, and a mark between them for the others.
pub proof fn law_long_run_elided(changes: Seq<(ChangeKind, Seq<char>)>, edge: int)
    requires
        1 <= edge,
        2 * edge + 1 < changes.len() <= u32::MAX,
        forall|i: int|
            0 <= i < changes.len() ==> (#[trigger] changes[i]).0 == ChangeKind::Insert
                && !changes[i].1.contains('\n'),
    ensures
        ({
            let all = numbered_lines(engines::new_side(changes));
            compact_rows(text::unlines(numbered_rows(changes)), edge) == all.take(edge) + seq![
                seq!['…'],
            ] + all.skip(all.len() - edge)
        }),
{
    reveal_strlit("…");
    assert("…"@ =~= seq!['…']);
    let new = engines::new_side(changes);
    let all = numbered_lines(new);
    let n = all.len() as int;
    assert forall|j: int| 0 <= j < changes.len() implies !(#[trigger] changes[j]).1.contains('\n') by {
        assert(changes[j].0 == ChangeKind::Insert);
    }
    lemma_rows_read(changes);
    lemma_all_added(changes, edge);
    lemma_numbered_plain(new);
    let none = Seq::<Seq<char>>::empty();
    let head = all.take(edge);
    let tail = all.skip(n - edge);
    let mark = "…"@;
    assert forall|i: int| 0 <= i < head.len() implies !is_elision(#[trigger] head[i])
        && !is_separator(head[i]) by {
        assert(!is_elision(numbered_lines(new)[i]));
    }
    assert forall|i: int| 0 <= i < tail.len() implies !is_elision(#[trigger] tail[i])
        && !is_separator(tail[i]) by {
        assert(!is_elision(numbered_lines(new)[n - edge + i]));
    }
    let st = compacted(numbered_rows(changes), edge);
    assert(st.rows =~= none);
    lemma_rows_put(none, head);
    assert(none + head =~= head);
    let upto = head.push(mark);
    assert(upto.drop_last() =~= head);
    assert(!is_separator(head[edge - 1]));
    assert(with_rows(none, upto) == with_row(head, mark));
    assert(with_row(head, mark) == upto);
    lemma_rows_then(none, upto, tail);
    lemma_rows_put(upto, tail);
    let shown = upto + tail;
    assert(run_shown(st, edge).rows == shown);
    assert(!is_separator(tail[edge - 1]));
    assert(shown.last() == tail[edge - 1]);
    assert(shown =~= head + seq![seq!['…']] + tail);
}

/// Rows are put one after the other.
proof fn lemma_rows_then(out: Seq<Seq<char>>, a: Seq<Seq<char>>, b: Seq<Seq<char>>)
    ensures
        with_rows(out, a + b) == with_rows(with_rows(out, a), b),
    decreases b.len(),
{
    if b.len() == 0 {
        assert(a + b =~= a);
    } else {
        lemma_rows_then(out, a, b.drop_last());
        assert((a + b).drop_last() =~= a + b.drop_last());
        assert((a + b).last() == b.last());
    }
}

} // verus!
