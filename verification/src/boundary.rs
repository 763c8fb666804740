//! Boundary repair of replacements.
//!
//! A replacement payload sometimes restates unchanged lines that border the
//! replaced range, or duplicates or drops a structural closer. The repair is
//! decided in two passes. The first looks at each replacement group on its own
//! and drops payload lines that the file already holds next to the range. The
//! second looks at the groups that are still out of balance and keeps closing
//! lines that a range deleted without restating.

use vstd::prelude::*;

use crate::balance;
use crate::balance::{
    balance_covers, balance_delta, balance_is_zero, balance_negate, balance_sum, balance_zero,
    rows_balance, DelimiterBalance,
};
use crate::hunks;
use crate::hunks::{
    append_edits, find_replacement_group, Group, RowEdit, RowEditView, RowOp, RowOpView,
};
use crate::jsx;
use crate::numbers;
use crate::rows;
use crate::rows::{has_non_whitespace, rows_match, Row, RowView};
use crate::text;
use crate::types::Cursor;
use crate::views;

verus! {

broadcast use {crate::views::group_all, crate::views::group_texts};

// ── The payload and the lines around it ──────────────────────────────────

/// The row an edit inserts.
pub open spec fn inserted_row(e: RowEditView) -> RowView {
    match e.op {
        RowOpView::Insert { row, .. } => row,
        _ => arbitrary(),
    }
}

/// The body rows of a group.
pub open spec fn payload(edits: Seq<RowEditView>, g: Group) -> Seq<RowView> {
    Seq::new(g.inserts as nat, |j: int| inserted_row(edits[g.start + j]))
}

fn payload_rows(edits: &[RowEdit], g: Group) -> (r: Vec<Row>)
    requires
        g.start + g.inserts <= edits@.len(),
        forall|j: int|
            g.start <= j < g.start + g.inserts ==> (#[trigger] views::all(edits@)[j]).op is Insert,
    ensures
        views::all(r@) == payload(views::all(edits@), g),
{
    let ghost ve = views::all(edits@);
    let ghost p = payload(ve, g);
    let n: usize = edits.len();
    let mut out: Vec<Row> = Vec::new();
    for j in 0..g.inserts
        invariant
            n == edits@.len(),
            g.start + g.inserts <= n,
            ve == views::all(edits@),
            p == payload(ve, g),
            forall|j: int|
                g.start <= j < g.start + g.inserts ==> (#[trigger] ve[j]).op is Insert,
            views::all(out@) == p.take(j as int),
    {
        proof {
            views::lemma_take_step(p, j as int);
            assert(ve[g.start + j] == edits@[g.start + j]@);
        }
        match &edits[g.start + j].op {
            RowOp::Insert { cursor, row, mode } => {
                out.push(row.copy());
            },
            RowOp::Delete { line } => {},
        }
    }
    proof {
        views::lemma_take_all(p);
    }
    out
}

/// The balance of the rows of `p` from `a` up to `b`.
pub open spec fn span_balance(p: Seq<RowView>, a: int, b: int) -> DelimiterBalance {
    balance::balance(balance::slice_texts(p, a, b))
}

/// The smaller of two numbers.
pub open spec fn least(a: int, b: int) -> int {
    if a <= b {
        a
    } else {
        b
    }
}

fn least_of(a: usize, b: usize) -> (r: usize)
    ensures
        r == least(a as int, b as int),
{
    if a <= b {
        a
    } else {
        b
    }
}

/// Largest count up to `k` such that the payload's last rows read as the file rows
/// just below the range, and their balance is `delta`.
pub open spec fn duplicate_suffix(
    p: Seq<RowView>,
    file: Seq<RowView>,
    end_line: int,
    delta: DelimiterBalance,
    k: int,
) -> int
    decreases k,
{
    if k <= 0 {
        0
    } else if rows::rows_agree(p, p.len() - k, file, end_line, k) && span_balance(
        p,
        p.len() - k,
        p.len() as int,
    ) == delta {
        k
    } else {
        duplicate_suffix(p, file, end_line, delta, k - 1)
    }
}

fn find_duplicate_suffix(
    p: &[Row],
    file: &[Row],
    end_line: usize,
    delta: DelimiterBalance,
) -> (r: usize)
    requires
        end_line <= file@.len(),
    ensures
        r == duplicate_suffix(
            views::all(p@),
            views::all(file@),
            end_line as int,
            delta,
            least(p@.len() as int, file@.len() - end_line),
        ),
        r <= p@.len(),
{
    let ghost vp = views::all(p@);
    let ghost vf = views::all(file@);
    let n: usize = p.len();
    let m: usize = file.len();
    let max: usize = least_of(n, m - end_line);
    let mut k: usize = max;
    while k > 0
        invariant
            n == p@.len(),
            m == file@.len(),
            vp == views::all(p@),
            vf == views::all(file@),
            end_line <= m,
            max == least(n as int, m - end_line),
            k <= max,
            duplicate_suffix(vp, vf, end_line as int, delta, k as int) == duplicate_suffix(
                vp,
                vf,
                end_line as int,
                delta,
                max as int,
            ),
        decreases k,
    {
        if rows_match(p, n - k, file, end_line, k) && rows_balance(p, n - k, n) == delta {
            return k;
        }
        k = k - 1;
    }
    0
}

/// Largest count up to `k` such that the payload's first rows read as the file rows
/// just above the range, and their balance is `delta`.
pub open spec fn duplicate_prefix(
    p: Seq<RowView>,
    file: Seq<RowView>,
    start_line: int,
    delta: DelimiterBalance,
    k: int,
) -> int
    decreases k,
{
    if k <= 0 {
        0
    } else if rows::rows_agree(p, 0, file, start_line - 1 - k, k) && span_balance(p, 0, k)
        == delta {
        k
    } else {
        duplicate_prefix(p, file, start_line, delta, k - 1)
    }
}

fn find_duplicate_prefix(
    p: &[Row],
    file: &[Row],
    start_line: usize,
    delta: DelimiterBalance,
) -> (r: usize)
    requires
        1 <= start_line <= file@.len(),
    ensures
        r == duplicate_prefix(
            views::all(p@),
            views::all(file@),
            start_line as int,
            delta,
            least(p@.len() as int, start_line - 1),
        ),
        r <= p@.len(),
{
    let ghost vp = views::all(p@);
    let ghost vf = views::all(file@);
    let n: usize = p.len();
    let max: usize = least_of(n, start_line - 1);
    let mut k: usize = max;
    while k > 0
        invariant
            n == p@.len(),
            vp == views::all(p@),
            vf == views::all(file@),
            1 <= start_line <= file@.len(),
            max == least(n as int, start_line - 1),
            k <= max,
            duplicate_prefix(vp, vf, start_line as int, delta, k as int) == duplicate_prefix(
                vp,
                vf,
                start_line as int,
                delta,
                max as int,
            ),
        decreases k,
    {
        if rows_match(p, 0, file, start_line - 1 - k, k) && rows_balance(p, 0, k) == delta {
            return k;
        }
        k = k - 1;
    }
    0
}

/// One of the rows `a..b` holds more than ASCII white space.
pub open spec fn any_content(p: Seq<RowView>, a: int, b: int) -> bool {
    exists|i: int| a <= i < b && rows::has_content((#[trigger] p[i]).text)
}

fn some_content(p: &[Row], a: usize, b: usize) -> (r: bool)
    requires
        a <= b <= p@.len(),
    ensures
        r == any_content(views::all(p@), a as int, b as int),
{
    let ghost vp = views::all(p@);
    for i in a..b
        invariant
            a <= b <= p@.len(),
            vp == views::all(p@),
            forall|j: int| a <= j < i ==> !rows::has_content((#[trigger] vp[j]).text),
    {
        assert(vp[i as int] == p@[i as int]@);
        if has_non_whitespace(p[i].text.as_str()) {
            assert(rows::has_content(vp[i as int].text));
            return true;
        }
    }
    false
}

/// Largest count up to `k` of leading payload rows, not all blank, that restate the
/// file rows just above the range.
pub open spec fn leading_echo(
    p: Seq<RowView>,
    file: Seq<RowView>,
    start_line: int,
    k: int,
) -> int
    decreases k,
{
    if k <= 0 {
        0
    } else if rows::rows_agree(p, 0, file, start_line - 1 - k, k) && any_content(p, 0, k) {
        k
    } else {
        leading_echo(p, file, start_line, k - 1)
    }
}

fn count_duplicate_leading_boundary_lines(
    p: &[Row],
    file: &[Row],
    start_line: usize,
) -> (r: usize)
    requires
        1 <= start_line <= file@.len(),
    ensures
        r == leading_echo(
            views::all(p@),
            views::all(file@),
            start_line as int,
            least(p@.len() as int, start_line - 1),
        ),
        r <= p@.len(),
{
    let ghost vp = views::all(p@);
    let ghost vf = views::all(file@);
    let n: usize = p.len();
    let max: usize = least_of(n, start_line - 1);
    let mut k: usize = max;
    while k > 0
        invariant
            n == p@.len(),
            vp == views::all(p@),
            vf == views::all(file@),
            1 <= start_line <= file@.len(),
            max == least(n as int, start_line - 1),
            k <= max,
            leading_echo(vp, vf, start_line as int, k as int) == leading_echo(
                vp,
                vf,
                start_line as int,
                max as int,
            ),
        decreases k,
    {
        if rows_match(p, 0, file, start_line - 1 - k, k) && some_content(p, 0, k) {
            return k;
        }
        k = k - 1;
    }
    0
}

/// Largest count up to `k` of trailing payload rows, not all blank, that restate the
/// file rows just below the range.
pub open spec fn trailing_echo(p: Seq<RowView>, file: Seq<RowView>, end_line: int, k: int) -> int
    decreases k,
{
    if k <= 0 {
        0
    } else if rows::rows_agree(p, p.len() - k, file, end_line, k) && any_content(
        p,
        p.len() - k,
        p.len() as int,
    ) {
        k
    } else {
        trailing_echo(p, file, end_line, k - 1)
    }
}

fn count_duplicate_trailing_boundary_lines(p: &[Row], file: &[Row], end_line: usize) -> (r: usize)
    requires
        end_line <= file@.len(),
    ensures
        r == trailing_echo(
            views::all(p@),
            views::all(file@),
            end_line as int,
            least(p@.len() as int, file@.len() - end_line),
        ),
        r <= p@.len(),
{
    let ghost vp = views::all(p@);
    let ghost vf = views::all(file@);
    let n: usize = p.len();
    let m: usize = file.len();
    let max: usize = least_of(n, m - end_line);
    let mut k: usize = max;
    while k > 0
        invariant
            n == p@.len(),
            m == file@.len(),
            vp == views::all(p@),
            vf == views::all(file@),
            end_line <= m,
            max == least(n as int, m - end_line),
            k <= max,
            trailing_echo(vp, vf, end_line as int, k as int) == trailing_echo(
                vp,
                vf,
                end_line as int,
                max as int,
            ),
        decreases k,
    {
        if rows_match(p, n - k, file, end_line, k) && some_content(p, n - k, n) {
            return k;
        }
        k = k - 1;
    }
    0
}

/// The payload's balance against that of the lines it replaces.
pub open spec fn group_delta(p: Seq<RowView>, file: Seq<RowView>, g: Group) -> DelimiterBalance {
    span_balance(p, 0, p.len() as int).minus(span_balance(file, g.line - 1, g.end_line()))
}

/// How many leading rows restate the lines above the range of `g`.
pub open spec fn leading_count(p: Seq<RowView>, file: Seq<RowView>, g: Group) -> int {
    leading_echo(p, file, g.line as int, least(p.len() as int, g.line - 1))
}

/// How many trailing rows restate the lines below the range of `g`.
pub open spec fn trailing_count(p: Seq<RowView>, file: Seq<RowView>, g: Group) -> int {
    trailing_echo(p, file, g.end_line(), least(p.len() as int, file.len() - g.end_line()))
}

/// A payload that restates lines on both sides of its range: how many rows on each
/// side may be dropped. Rows must be left over, and what is dropped must be balanced
/// or account for the whole imbalance of the group.
pub open spec fn boundary_echo(p: Seq<RowView>, file: Seq<RowView>, g: Group) -> Option<
    (int, int),
> {
    let leading = leading_count(p, file, g);
    let trailing = trailing_count(p, file, g);
    let dropped = span_balance(p, 0, leading).minus(
        span_balance(p, p.len() - trailing, p.len() as int).negated(),
    );
    if leading == 0 || trailing == 0 || leading + trailing >= p.len() {
        None
    } else if dropped != DelimiterBalance::zero() && dropped != group_delta(p, file, g) {
        None
    } else {
        Some((leading, trailing))
    }
}

fn delta_of(p: &[Row], file: &[Row], g: Group) -> (r: DelimiterBalance)
    requires
        1 <= g.line,
        g.deletes >= 1,
        g.end_line() <= file@.len(),
    ensures
        r == group_delta(views::all(p@), views::all(file@), g),
{
    let m: usize = file.len();
    let from: usize = g.line as usize - 1;
    balance_delta(rows_balance(p, 0, p.len()), rows_balance(file, from, from + g.deletes))
}

fn find_boundary_echo(p: &[Row], file: &[Row], g: Group) -> (r: Option<(usize, usize)>)
    requires
        1 <= g.line,
        g.deletes >= 1,
        g.end_line() <= file@.len(),
    ensures
        match (r, boundary_echo(views::all(p@), views::all(file@), g)) {
            (Some(a), Some(b)) => a.0 == b.0 && a.1 == b.1 && a.0 + a.1 < p@.len(),
            (None, None) => true,
            _ => false,
        },
{
    let m: usize = file.len();
    let n: usize = p.len();
    let end_line: usize = g.line as usize - 1 + g.deletes;
    let leading: usize = count_duplicate_leading_boundary_lines(p, file, g.line as usize);
    if leading == 0 {
        return None;
    }
    let trailing: usize = count_duplicate_trailing_boundary_lines(p, file, end_line);
    if trailing == 0 || leading >= n - trailing {
        return None;
    }
    let dropped = balance_delta(
        rows_balance(p, 0, leading),
        balance_negate(rows_balance(p, n - trailing, n)),
    );
    if !balance_is_zero(dropped) && dropped != delta_of(p, file, g) {
        return None;
    }
    Some((leading, trailing))
}

/// Every row from `a` to `b` is a structural or JSX closing line.
pub open spec fn all_closing(p: Seq<RowView>, a: int, b: int) -> bool {
    forall|i: int| a <= i < b ==> (#[trigger] p[i]).closer || p[i].jsx_closer
}

fn only_closing(p: &[Row], a: usize, b: usize) -> (r: bool)
    requires
        a <= b <= p@.len(),
    ensures
        r == all_closing(views::all(p@), a as int, b as int),
{
    let ghost vp = views::all(p@);
    for i in a..b
        invariant
            a <= b <= p@.len(),
            vp == views::all(p@),
            all_closing(vp, a as int, i as int),
    {
        assert(vp[i as int] == p@[i as int]@);
        if !(p[i].closer || p[i].jsx_closer) {
            assert(!(vp[i as int].closer || vp[i as int].jsx_closer));
            return false;
        }
    }
    true
}

/// A balanced payload that restates lines on one side of its range only: `true` for
/// the leading side, and how many rows. For a one-line range only trailing rows that
/// all close something count, and only when the payload does not open what they close.
pub open spec fn one_sided_echo(p: Seq<RowView>, file: Seq<RowView>, g: Group) -> Option<
    (bool, int),
> {
    let leading = leading_count(p, file, g);
    let trailing = trailing_count(p, file, g);
    let count = if leading > 0 {
        leading
    } else {
        trailing
    };
    let from = if leading > 0 {
        0
    } else {
        p.len() - count
    };
    if (leading > 0) == (trailing > 0) || count >= p.len() {
        None
    } else if span_balance(p, from, from + count) != DelimiterBalance::zero() {
        None
    } else if g.deletes <= 1 && !(leading == 0 && all_closing(p, from, p.len() as int)
        && !jsx::opens_for_echo(p.subrange(0, from), p.subrange(from, p.len() as int))) {
        None
    } else {
        Some((leading > 0, count))
    }
}

fn find_one_sided_boundary_echo(p: &[Row], file: &[Row], g: Group) -> (r: Option<(bool, usize)>)
    requires
        1 <= g.line,
        g.deletes >= 1,
        g.end_line() <= file@.len(),
    ensures
        match (r, one_sided_echo(views::all(p@), views::all(file@), g)) {
            (Some(a), Some(b)) => a.0 == b.0 && a.1 == b.1 && a.1 < p@.len(),
            (None, None) => true,
            _ => false,
        },
{
    let m: usize = file.len();
    let n: usize = p.len();
    let end_line: usize = g.line as usize - 1 + g.deletes;
    let leading: usize = count_duplicate_leading_boundary_lines(p, file, g.line as usize);
    let trailing: usize = count_duplicate_trailing_boundary_lines(p, file, end_line);
    if (leading > 0) == (trailing > 0) {
        return None;
    }
    let count: usize = if leading > 0 {
        leading
    } else {
        trailing
    };
    if count >= n {
        return None;
    }
    let from: usize = if leading > 0 {
        0
    } else {
        n - count
    };
    if !balance_is_zero(rows_balance(p, from, from + count)) {
        return None;
    }
    if g.deletes <= 1 {
        if leading > 0 || !only_closing(p, from, n) {
            return None;
        }
        if jsx::payload_has_jsx_opener_for_echo(p, from) {
            return None;
        }
    }
    Some((leading > 0, count))
}

// ── Warnings ─────────────────────────────────────────────────────────────

/// The warning for an echo on both sides.
pub open spec fn boundary_echo_warning(line: u32, leading: int, trailing: int) -> Seq<char> {
    "Auto-repaired a replacement boundary echo at line "@ + numbers::dec(line as nat)
        + ": dropped "@ + numbers::dec(leading as nat) + " leading and "@ + numbers::dec(
        trailing as nat,
    )
        + " trailing payload line(s) already present outside the range. Issue the payload as the final desired content for the selected range only — never restate unchanged lines bordering the range."@
}

fn describe_boundary_echo_repair(line: u32, leading: usize, trailing: usize) -> (r: String)
    ensures
        r@ == boundary_echo_warning(line, leading as int, trailing as int),
{
    let mut s = text::owned("Auto-repaired a replacement boundary echo at line ");
    s.append(numbers::decimal(line as u64).as_str());
    s.append(": dropped ");
    s.append(numbers::decimal_usize(leading).as_str());
    s.append(" leading and ");
    s.append(numbers::decimal_usize(trailing).as_str());
    s.append(
        " trailing payload line(s) already present outside the range. Issue the payload as the final desired content for the selected range only — never restate unchanged lines bordering the range.",
    );
    s
}

/// The warning for a repaired imbalance; `action` says what was done.
pub open spec fn boundary_warning(line: u32, action: Seq<char>) -> Seq<char> {
    "Auto-repaired a delimiter-balance mismatch in the replacement at line "@ + numbers::dec(
        line as nat,
    ) + ": "@ + action
        + ". Issue the payload as the final desired content only — never restate or omit a closing bracket bordering the range."@
}

fn describe_boundary_repair(line: u32, before: &str, count: usize, after: &str) -> (r: String)
    ensures
        r@ == boundary_warning(line, before@ + numbers::dec(count as nat) + after@),
{
    let mut s = text::owned("Auto-repaired a delimiter-balance mismatch in the replacement at line ");
    s.append(numbers::decimal(line as u64).as_str());
    s.append(": ");
    let mut action = text::owned(before);
    action.append(numbers::decimal_usize(count).as_str());
    action.append(after);
    s.append(action.as_str());
    s.append(
        ". Issue the payload as the final desired content only — never restate or omit a closing bracket bordering the range.",
    );
    s
}

/// What was done about payload rows that restate lines below the range.
pub open spec fn dropped_trailing_action(count: int) -> Seq<char> {
    "dropped "@ + numbers::dec(count as nat)
        + " duplicated trailing payload line(s) already present below the range"@
}

/// What was done about payload rows that restate lines above the range.
pub open spec fn dropped_leading_action(count: int) -> Seq<char> {
    "dropped "@ + numbers::dec(count as nat)
        + " duplicated leading payload line(s) already present above the range"@
}

/// What was done about deleted closing lines that the payload does not restate.
pub open spec fn kept_closers_action(count: int) -> Seq<char> {
    "kept "@ + numbers::dec(count as nat)
        + " structural closing line(s) the range deleted without restating"@
}

/// The warning for an echo on one side.
pub open spec fn one_sided_warning(line: u32, leading: bool, count: int) -> Seq<char> {
    "Auto-repaired a replacement boundary echo at line "@ + numbers::dec(line as nat)
        + ": dropped "@ + numbers::dec(count as nat) + (if leading {
        " leading"@
    } else {
        " trailing"@
    }) + " payload line(s) identical to the surviving line(s) just "@ + (if leading {
        "above"@
    } else {
        "below"@
    })
        + " the range. The range was one line short of the content you retyped — issue the payload as the final content for the selected range only, and widen the range to consume any keeper you restate."@
}

fn describe_one_sided_echo_repair(line: u32, leading: bool, count: usize) -> (r: String)
    ensures
        r@ == one_sided_warning(line, leading, count as int),
{
    let mut s = text::owned("Auto-repaired a replacement boundary echo at line ");
    s.append(numbers::decimal(line as u64).as_str());
    s.append(": dropped ");
    s.append(numbers::decimal_usize(count).as_str());
    s.append(if leading { " leading" } else { " trailing" });
    s.append(" payload line(s) identical to the surviving line(s) just ");
    s.append(if leading { "above" } else { "below" });
    s.append(
        " the range. The range was one line short of the content you retyped — issue the payload as the final content for the selected range only, and widen the range to consume any keeper you restate.",
    );
    s
}

// ── First pass ───────────────────────────────────────────────────────────

/// A part of the edit list after the first pass.
pub struct Slot {
    pub edits: Vec<RowEdit>,
    pub warning: Option<String>,
    /// A group still out of balance, with its delta.
    pub candidate: Option<(Group, DelimiterBalance)>,
}

/// The model of a [`Slot`].
#[verifier::ext_equal]
pub struct SlotView {
    pub edits: Seq<RowEditView>,
    pub warning: Option<Seq<char>>,
    pub candidate: Option<(Group, DelimiterBalance)>,
}

impl View for Slot {
    type V = SlotView;

    open spec fn view(&self) -> SlotView {
        SlotView {
            edits: views::all(self.edits@),
            warning: views::opt_text(self.warning),
            candidate: self.candidate,
        }
    }
}

/// The edits of a group without its first `leading` and last `trailing` rows.
pub open spec fn trimmed(edits: Seq<RowEditView>, g: Group, leading: int, trailing: int) -> Seq<
    RowEditView,
> {
    edits.subrange(g.start + leading, g.start + g.inserts - trailing) + edits.subrange(
        g.start + g.inserts,
        g.end(),
    )
}

/// A group after the first pass: echoed payload rows are dropped, and a group whose
/// imbalance no echo explains is left for the second pass.
pub open spec fn local_repair(edits: Seq<RowEditView>, file: Seq<RowView>, g: Group) -> SlotView {
    let p = payload(edits, g);
    let delta = group_delta(p, file, g);
    let suffix = duplicate_suffix(
        p,
        file,
        g.end_line(),
        delta,
        least(p.len() as int, file.len() - g.end_line()),
    );
    let prefix = duplicate_prefix(
        p,
        file,
        g.line as int,
        delta,
        least(p.len() as int, g.line - 1),
    );
    match boundary_echo(p, file, g) {
        Some((leading, trailing)) => SlotView {
            edits: trimmed(edits, g, leading, trailing),
            warning: Some(boundary_echo_warning(g.line, leading, trailing)),
            candidate: None,
        },
        None => if delta == DelimiterBalance::zero() {
            match one_sided_echo(p, file, g) {
                Some((true, count)) => SlotView {
                    edits: trimmed(edits, g, count, 0),
                    warning: Some(one_sided_warning(g.line, true, count)),
                    candidate: None,
                },
                Some((false, count)) => SlotView {
                    edits: trimmed(edits, g, 0, count),
                    warning: Some(one_sided_warning(g.line, false, count)),
                    candidate: None,
                },
                None => SlotView {
                    edits: trimmed(edits, g, 0, 0),
                    warning: None,
                    candidate: None,
                },
            }
        } else if suffix > 0 {
            SlotView {
                edits: trimmed(edits, g, 0, suffix),
                warning: Some(boundary_warning(g.line, dropped_trailing_action(suffix))),
                candidate: None,
            }
        } else if prefix > 0 {
            SlotView {
                edits: trimmed(edits, g, prefix, 0),
                warning: Some(boundary_warning(g.line, dropped_leading_action(prefix))),
                candidate: None,
            }
        } else {
            SlotView {
                edits: trimmed(edits, g, 0, 0),
                warning: None,
                candidate: Some((g, delta)),
            }
        },
    }
}

/// The edits of a slot stay within a file of `n` lines, and so does its group.
pub open spec fn slot_fits(slot: SlotView, edits: Seq<RowEditView>, n: int) -> bool {
    &&& hunks::in_bounds(slot.edits, n)
    &&& slot.candidate matches Some((g, _)) ==> hunks::group_fits(g, edits, n)
}

fn trim_group(edits: &[RowEdit], g: Group, leading: usize, trailing: usize) -> (r: Vec<RowEdit>)
    requires
        g.end() <= edits@.len(),
        leading + trailing <= g.inserts,
    ensures
        views::all(r@) == trimmed(views::all(edits@), g, leading as int, trailing as int),
        forall|n: int| #[trigger]
            hunks::in_bounds(views::all(edits@), n) ==> hunks::in_bounds(views::all(r@), n),
{
    let n: usize = edits.len();
    let mut out: Vec<RowEdit> = Vec::new();
    append_edits(&mut out, edits, g.start + leading, g.start + g.inserts - trailing);
    append_edits(&mut out, edits, g.start + g.inserts, g.start + g.inserts + g.deletes);
    proof {
        assert(views::all(out@) =~= trimmed(
            views::all(edits@),
            g,
            leading as int,
            trailing as int,
        ));
        let ve = views::all(edits@);
        let vo = views::all(out@);
        let kept = g.inserts - leading - trailing;
        assert forall|n: int| #[trigger] hunks::in_bounds(ve, n) implies hunks::in_bounds(vo, n) by {
            assert forall|i: int| 0 <= i < vo.len() implies match (#[trigger] vo[i]).op.anchored() {
                Some(l) => 1 <= l <= n,
                None => true,
            } by {
                if i < kept {
                    assert(vo[i] == ve[g.start + leading + i]);
                } else {
                    assert(vo[i] == ve[g.start + g.inserts + (i - kept)]);
                }
            }
        }
    }
    out
}

fn repair_group(edits: &[RowEdit], file: &[Row], g: Group) -> (r: Slot)
    requires
        hunks::group_fits(g, views::all(edits@), file@.len() as int),
        hunks::in_bounds(views::all(edits@), file@.len() as int),
    ensures
        r@ == local_repair(views::all(edits@), views::all(file@), g),
        slot_fits(r@, views::all(edits@), file@.len() as int),
{
    let m: usize = file.len();
    let ghost ve = views::all(edits@);
    let p = payload_rows(edits, g);
    let end_line: usize = g.line as usize - 1 + g.deletes;
    match find_boundary_echo(p.as_slice(), file, g) {
        Some((leading, trailing)) => {
            return Slot {
                edits: trim_group(edits, g, leading, trailing),
                warning: Some(describe_boundary_echo_repair(g.line, leading, trailing)),
                candidate: None,
            };
        },
        None => {},
    }
    let delta = delta_of(p.as_slice(), file, g);
    if balance_is_zero(delta) {
        return match find_one_sided_boundary_echo(p.as_slice(), file, g) {
            Some((leading, count)) => {
                let kept = if leading {
                    trim_group(edits, g, count, 0)
                } else {
                    trim_group(edits, g, 0, count)
                };
                Slot {
                    edits: kept,
                    warning: Some(describe_one_sided_echo_repair(g.line, leading, count)),
                    candidate: None,
                }
            },
            None => Slot { edits: trim_group(edits, g, 0, 0), warning: None, candidate: None },
        };
    }
    let suffix: usize = find_duplicate_suffix(p.as_slice(), file, end_line, delta);
    if suffix > 0 {
        return Slot {
            edits: trim_group(edits, g, 0, suffix),
            warning: Some(
                describe_boundary_repair(
                    g.line,
                    "dropped ",
                    suffix,
                    " duplicated trailing payload line(s) already present below the range",
                ),
            ),
            candidate: None,
        };
    }
    let prefix: usize = find_duplicate_prefix(p.as_slice(), file, g.line as usize, delta);
    if prefix > 0 {
        return Slot {
            edits: trim_group(edits, g, prefix, 0),
            warning: Some(
                describe_boundary_repair(
                    g.line,
                    "dropped ",
                    prefix,
                    " duplicated leading payload line(s) already present above the range",
                ),
            ),
            candidate: None,
        };
    }
    Slot { edits: trim_group(edits, g, 0, 0), warning: None, candidate: Some((g, delta)) }
}

/// The slots of the edits from position `i` on: one per replacement group, and one
/// per edit outside any group.
pub open spec fn slots_from(edits: Seq<RowEditView>, file: Seq<RowView>, i: int) -> Seq<SlotView>
    decreases (if i < edits.len() { edits.len() - i } else { 0 }),
{
    if i < 0 || i >= edits.len() {
        Seq::empty()
    } else {
        match hunks::group_at(edits, i) {
            Some(g) => if g.end() > i {
                seq![local_repair(edits, file, g)] + slots_from(edits, file, g.end())
            } else {
                Seq::empty()
            },
            None => seq![
                SlotView { edits: edits.subrange(i, i + 1), warning: None, candidate: None },
            ] + slots_from(edits, file, i + 1),
        }
    }
}

fn first_pass(edits: &[RowEdit], file: &[Row]) -> (r: Vec<Slot>)
    requires
        hunks::in_bounds(views::all(edits@), file@.len() as int),
    ensures
        views::all(r@) == slots_from(views::all(edits@), views::all(file@), 0),
        forall|i: int|
            0 <= i < r@.len() ==> slot_fits(
                (#[trigger] r@[i])@,
                views::all(edits@),
                file@.len() as int,
            ),
{
    let ghost ve = views::all(edits@);
    let ghost vf = views::all(file@);
    let n: usize = edits.len();
    let mut out: Vec<Slot> = Vec::new();
    let mut i: usize = 0;
    assert(views::all(out@) + slots_from(ve, vf, 0) =~= slots_from(ve, vf, 0));
    while i < n
        invariant
            n == edits@.len(),
            i <= n,
            ve == views::all(edits@),
            vf == views::all(file@),
            hunks::in_bounds(ve, file@.len() as int),
            forall|k: int|
                0 <= k < out@.len() ==> slot_fits((#[trigger] out@[k])@, ve, file@.len() as int),
            views::all(out@) + slots_from(ve, vf, i as int) == slots_from(ve, vf, 0),
        decreases n - i,
    {
        let ghost done = views::all(out@);
        match find_replacement_group(edits, i) {
            Some(g) => {
                proof {
                    hunks::lemma_group_fits(ve, i as int, file@.len() as int);
                }
                let slot = repair_group(edits, file, g);
                proof {
                    let rest = slots_from(ve, vf, g.end());
                    assert(done.push(slot@) + rest =~= done + (seq![slot@] + rest));
                }
                out.push(slot);
                i = g.start + g.inserts + g.deletes;
            },
            None => {
                let mut one: Vec<RowEdit> = Vec::new();
                append_edits(&mut one, edits, i, i + 1);
                let slot = Slot { edits: one, warning: None, candidate: None };
                proof {
                    assert(slot@.edits =~= ve.subrange(i as int, i + 1));
                    assert(slot@.edits[0] == ve[i as int]);
                    let rest = slots_from(ve, vf, i + 1);
                    assert(done.push(slot@) + rest =~= done + (seq![slot@] + rest));
                }
                out.push(slot);
                i = i + 1;
            },
        }
    }
    assert(views::all(out@) =~= slots_from(ve, vf, 0));
    out
}

// ── What the first pass leaves ───────────────────────────────────────────

/// The edits of all slots, in order.
pub open spec fn projected(slots: Seq<SlotView>) -> Seq<RowEditView>
    decreases slots.len(),
{
    if slots.len() == 0 {
        Seq::empty()
    } else {
        projected(slots.drop_last()) + slots.last().edits
    }
}

fn project(slots: &[Slot]) -> (r: Vec<RowEdit>)
    ensures
        views::all(r@) == projected(views::all(slots@)),
        forall|n: int|
            (forall|i: int| 0 <= i < slots@.len() ==> #[trigger] hunks::in_bounds(slots@[i]@.edits, n))
                ==> #[trigger] hunks::in_bounds(views::all(r@), n),
{
    let ghost vs = views::all(slots@);
    let mut out: Vec<RowEdit> = Vec::new();
    for i in 0..slots.len()
        invariant
            vs == views::all(slots@),
            views::all(out@) == projected(vs.take(i as int)),
            forall|n: int|
                (forall|i: int|
                    0 <= i < slots@.len() ==> #[trigger] hunks::in_bounds(slots@[i]@.edits, n))
                    ==> #[trigger] hunks::in_bounds(views::all(out@), n),
    {
        let ghost before = views::all(out@);
        proof {
            views::lemma_take_step(vs, i as int);
            assert(vs[i as int] == slots@[i as int]@);
            let es = views::all(slots@[i as int].edits@);
            assert(es.subrange(0, es.len() as int) =~= es);
        }
        append_edits(&mut out, slots[i].edits.as_slice(), 0, slots[i].edits.len());
        proof {
            let es = slots@[i as int]@.edits;
            let now = views::all(out@);
            assert forall|n: int|
                (forall|i: int|
                    0 <= i < slots@.len() ==> #[trigger] hunks::in_bounds(
                        slots@[i]@.edits,
                        n,
                    )) implies #[trigger] hunks::in_bounds(now, n) by {
                assert(hunks::in_bounds(slots@[i as int]@.edits, n));
                assert(hunks::in_bounds(before, n));
                assert forall|k: int| 0 <= k < now.len() implies match (
                #[trigger] now[k]).op.anchored() {
                    Some(l) => 1 <= l <= n,
                    None => true,
                } by {
                    if k < before.len() {
                        assert(now[k] == before[k]);
                    } else {
                        assert(now[k] == es[k - before.len()]);
                    }
                }
            }
        }
    }
    proof {
        views::lemma_take_all(vs);
    }
    out
}

/// For each of `n` lines, whether an edit deletes it; line `l` has flag `l - 1`.
pub open spec fn deleted_flags(edits: Seq<RowEditView>, n: int) -> Seq<bool>
    decreases edits.len(),
{
    if edits.len() == 0 {
        Seq::new(n as nat, |i: int| false)
    } else {
        let before = deleted_flags(edits.drop_last(), n);
        match edits.last().op {
            RowOpView::Delete { line } => before.update(line - 1, true),
            _ => before,
        }
    }
}

fn flag_deleted(edits: &[RowEdit], n: usize) -> (r: Vec<bool>)
    requires
        hunks::in_bounds(views::all(edits@), n as int),
    ensures
        r@ == deleted_flags(views::all(edits@), n as int),
        r@.len() == n,
{
    let ghost ve = views::all(edits@);
    let mut flags: Vec<bool> = Vec::new();
    for i in 0..n
        invariant
            flags@.len() == i,
            forall|j: int| 0 <= j < i ==> #[trigger] flags@[j] == false,
    {
        flags.push(false);
    }
    assert(flags@ =~= Seq::new(n as nat, |i: int| false));
    for i in 0..edits.len()
        invariant
            ve == views::all(edits@),
            hunks::in_bounds(ve, n as int),
            flags@ == deleted_flags(ve.take(i as int), n as int),
            flags@.len() == n,
    {
        proof {
            views::lemma_take_step(ve, i as int);
            assert(ve[i as int] == edits@[i as int]@);
        }
        match &edits[i].op {
            RowOp::Delete { line } => {
                assert(ve[i as int].op.anchored() == Some(*line));
                flags.set(*line as usize - 1, true);
            },
            RowOp::Insert { cursor, row, mode } => {},
        }
    }
    proof {
        views::lemma_take_all(ve);
    }
    flags
}

/// The rows inserted at `line`, in order: in front of it, behind it, or both.
pub open spec fn inserted_at(
    edits: Seq<RowEditView>,
    line: int,
    before: bool,
    after: bool,
) -> Seq<RowView>
    decreases edits.len(),
{
    if edits.len() == 0 {
        Seq::empty()
    } else {
        let rest = inserted_at(edits.drop_last(), line, before, after);
        match edits.last().op {
            RowOpView::Insert { cursor: Cursor::BeforeAnchor(a), row, .. } => if before && a.line
                == line {
                rest.push(row)
            } else {
                rest
            },
            RowOpView::Insert { cursor: Cursor::AfterAnchor(a), row, .. } => if after && a.line
                == line {
                rest.push(row)
            } else {
                rest
            },
            _ => rest,
        }
    }
}

fn append_inserted(
    out: &mut Vec<Row>,
    edits: &[RowEdit],
    line: usize,
    before: bool,
    after: bool,
)
    ensures
        views::all(final(out)@) == views::all(old(out)@) + inserted_at(
            views::all(edits@),
            line as int,
            before,
            after,
        ),
{
    let ghost start = views::all(out@);
    let ghost ve = views::all(edits@);
    assert(start + Seq::<RowView>::empty() =~= start);
    for i in 0..edits.len()
        invariant
            ve == views::all(edits@),
            views::all(out@) == start + inserted_at(ve.take(i as int), line as int, before, after),
    {
        let ghost got = inserted_at(ve.take(i as int), line as int, before, after);
        proof {
            views::lemma_take_step(ve, i as int);
            assert(ve[i as int] == edits@[i as int]@);
            assert(forall|r: RowView| (start + got).push(r) =~= start + #[trigger] got.push(r));
        }
        match &edits[i].op {
            RowOp::Insert { cursor, row, mode } => {
                match cursor {
                    Cursor::BeforeAnchor(a) => {
                        if before && a.line as usize == line {
                            out.push(row.copy());
                        }
                    },
                    Cursor::AfterAnchor(a) => {
                        if after && a.line as usize == line {
                            out.push(row.copy());
                        }
                    },
                    _ => {},
                }
            },
            RowOp::Delete { line: l } => {},
        }
    }
    proof {
        views::lemma_take_all(ve);
    }
}

// ── Second pass ──────────────────────────────────────────────────────────

/// How many of the `max` rows up to line `end` are structural closers, counted from
/// the last one up.
pub open spec fn closer_run(file: Seq<RowView>, end: int, max: int) -> int
    decreases max,
{
    if max <= 0 || !(0 < end <= file.len()) || !file[end - 1].closer {
        0
    } else {
        1 + closer_run(file, end - 1, max - 1)
    }
}

fn count_closers(file: &[Row], end: usize, max: usize) -> (r: usize)
    requires
        max <= end <= file@.len(),
    ensures
        r == closer_run(views::all(file@), end as int, max as int),
        r <= max,
{
    let ghost vf = views::all(file@);
    let mut k: usize = 0;
    while k < max && file[end - k - 1].closer
        invariant
            max <= end <= file@.len(),
            vf == views::all(file@),
            k <= max,
            k + closer_run(vf, end - k, max - k) == closer_run(vf, end as int, max as int),
        decreases max - k,
    {
        assert(vf[end - k - 1] == file@[end - k - 1]@);
        k = k + 1;
    }
    proof {
        if k < max {
            assert(vf[end - k - 1] == file@[end - k - 1]@);
        }
    }
    k
}

/// Largest count up to `k` such that the last rows of `a` read as the first of `b`.
pub open spec fn overlap(a: Seq<RowView>, b: Seq<RowView>, k: int) -> int
    decreases k,
{
    if k <= 0 {
        0
    } else if rows::rows_agree(a, a.len() - k, b, 0, k) {
        k
    } else {
        overlap(a, b, k - 1)
    }
}

fn count_overlap(a: &[Row], b: &[Row]) -> (r: usize)
    ensures
        r == overlap(
            views::all(a@),
            views::all(b@),
            least(a@.len() as int, b@.len() as int),
        ),
        r <= a@.len(),
        r <= b@.len(),
{
    let ghost va = views::all(a@);
    let ghost vb = views::all(b@);
    let n: usize = a.len();
    let max: usize = least_of(n, b.len());
    let mut k: usize = max;
    while k > 0
        invariant
            n == a@.len(),
            va == views::all(a@),
            vb == views::all(b@),
            max == least(a@.len() as int, b@.len() as int),
            k <= max,
            overlap(va, vb, k as int) == overlap(va, vb, max as int),
        decreases k,
    {
        if rows_match(a, n - k, b, 0, k) {
            return k;
        }
        k = k - 1;
    }
    0
}

/// The longest run of structural closers at the start of `rows`.
pub open spec fn closer_prefix(rows: Seq<RowView>) -> Seq<RowView>
    decreases rows.len(),
{
    if rows.len() == 0 || !rows[0].closer {
        Seq::empty()
    } else {
        seq![rows[0]] + closer_prefix(rows.skip(1))
    }
}

/// Every row is a structural closer.
pub open spec fn only_closers(rows: Seq<RowView>) -> bool {
    closer_prefix(rows).len() == rows.len()
}

fn append_closers(out: &mut Vec<Row>, rows: &[Row]) -> (r: bool)
    ensures
        views::all(final(out)@) == views::all(old(out)@) + closer_prefix(views::all(rows@)),
        r == only_closers(views::all(rows@)),
{
    let ghost start = views::all(out@);
    let ghost vr = views::all(rows@);
    let n: usize = rows.len();
    let mut i: usize = 0;
    proof {
        assert(vr.skip(0) =~= vr);
        assert(vr.take(0) + closer_prefix(vr) =~= closer_prefix(vr));
        assert(start + vr.take(0) =~= start);
    }
    while i < n && rows[i].closer
        invariant
            n == rows@.len(),
            i <= n,
            vr == views::all(rows@),
            views::all(out@) == start + vr.take(i as int),
            vr.take(i as int) + closer_prefix(vr.skip(i as int)) == closer_prefix(vr),
        decreases n - i,
    {
        proof {
            let rest = vr.skip(i as int);
            assert(rest[0] == rows@[i as int]@);
            assert(rest.skip(1) =~= vr.skip(i + 1));
            assert(vr.take(i + 1) + closer_prefix(vr.skip(i + 1)) =~= vr.take(i as int) + (seq![
                rest[0],
            ] + closer_prefix(rest.skip(1))));
            assert(start + vr.take(i + 1) =~= (start + vr.take(i as int)).push(vr[i as int]));
        }
        out.push(rows[i].copy());
        i = i + 1;
    }
    proof {
        let rest = vr.skip(i as int);
        if i < n {
            assert(rest[0] == rows@[i as int]@);
        }
        assert(closer_prefix(rest) =~= Seq::empty());
        assert(vr.take(i as int) + Seq::<RowView>::empty() =~= vr.take(i as int));
    }
    i == n
}

/// The closing rows that will stand below a range from `line` on, once the edits are
/// applied: surviving lines and inserted rows, as long as they are structural closers.
pub open spec fn closers_from(
    edits: Seq<RowEditView>,
    file: Seq<RowView>,
    deleted: Seq<bool>,
    line: int,
) -> Seq<RowView>
    decreases (if line <= file.len() { file.len() - line + 1 } else { 0 }),
{
    if line < 1 || line > file.len() {
        Seq::empty()
    } else {
        let above = inserted_at(edits, line, true, false);
        let own = if deleted[line - 1] {
            Seq::empty()
        } else {
            seq![file[line - 1]]
        };
        let below = inserted_at(edits, line, false, true);
        if !only_closers(above) || !only_closers(own) {
            closer_prefix(above)
        } else if !only_closers(below) {
            above + own + closer_prefix(below)
        } else {
            above + own + below + closers_from(edits, file, deleted, line + 1)
        }
    }
}

/// The closing rows that will stand just below a range that ends on `end_line`;
/// none when other rows are inserted directly behind the range.
pub open spec fn closers_below(
    edits: Seq<RowEditView>,
    file: Seq<RowView>,
    deleted: Seq<bool>,
    end_line: int,
) -> Seq<RowView> {
    let own = inserted_at(edits, end_line, false, true);
    if !only_closers(own) {
        Seq::empty()
    } else {
        own + closers_from(edits, file, deleted, end_line + 1)
    }
}

proof fn lemma_closer_prefix(rows: Seq<RowView>)
    ensures
        closer_prefix(rows).len() <= rows.len(),
        closer_prefix(rows) == rows.take(closer_prefix(rows).len() as int),
    decreases rows.len(),
{
    if rows.len() > 0 && rows[0].closer {
        lemma_closer_prefix(rows.skip(1));
        assert(closer_prefix(rows) =~= rows.take(closer_prefix(rows).len() as int));
    } else {
        assert(closer_prefix(rows) =~= rows.take(0));
    }
}

fn collect_closers_below(
    edits: &[RowEdit],
    file: &[Row],
    deleted: &[bool],
    end_line: usize,
) -> (r: Vec<Row>)
    requires
        deleted@.len() == file@.len(),
        end_line <= file@.len(),
    ensures
        views::all(r@) == closers_below(
            views::all(edits@),
            views::all(file@),
            deleted@,
            end_line as int,
        ),
{
    let ghost ve = views::all(edits@);
    let ghost vf = views::all(file@);
    let m: usize = file.len();
    let mut out: Vec<Row> = Vec::new();
    let mut first: Vec<Row> = Vec::new();
    append_inserted(&mut first, edits, end_line, false, true);
    let ghost own = inserted_at(ve, end_line as int, false, true);
    proof {
        assert(views::all(first@) =~= own);
        lemma_closer_prefix(own);
    }
    if !append_closers(&mut out, first.as_slice()) {
        return Vec::new();
    }
    let ghost goal = closers_below(ve, vf, deleted@, end_line as int);
    proof {
        assert(views::all(out@) =~= own);
    }
    let mut line: usize = end_line;
    while line < m
        invariant
            m == file@.len(),
            ve == views::all(edits@),
            vf == views::all(file@),
            deleted@.len() == m,
            line <= m,
            goal == closers_below(ve, vf, deleted@, end_line as int),
            views::all(out@) + closers_from(ve, vf, deleted@, line + 1) == goal,
        decreases m - line,
    {
        line = line + 1;
        let ghost done = views::all(out@);
        let mut above: Vec<Row> = Vec::new();
        append_inserted(&mut above, edits, line, true, false);
        let mut below: Vec<Row> = Vec::new();
        append_inserted(&mut below, edits, line, false, true);
        let ghost sa = inserted_at(ve, line as int, true, false);
        let ghost sb = inserted_at(ve, line as int, false, true);
        let ghost own = if deleted@[line - 1] {
            Seq::empty()
        } else {
            seq![vf[line - 1]]
        };
        let ghost rest = closers_from(ve, vf, deleted@, line + 1);
        proof {
            assert(views::all(above@) =~= sa);
            assert(views::all(below@) =~= sb);
            lemma_closer_prefix(sa);
            lemma_closer_prefix(sb);
            assert(vf[line - 1] == file@[line - 1]@);
            if own.len() == 1 {
                assert(own.skip(1) =~= Seq::empty());
                assert(closer_prefix(own.skip(1)) =~= Seq::empty());
                assert(own[0].closer ==> closer_prefix(own) =~= seq![own[0]]);
            }
            assert(only_closers(own) == (deleted@[line - 1] || vf[line - 1].closer));
        }
        let all_above = append_closers(&mut out, above.as_slice());
        if !all_above || (!deleted[line - 1] && !file[line - 1].closer) {
            assert(views::all(out@) =~= goal);
            return out;
        }
        assert(closer_prefix(sa) =~= sa);
        if !deleted[line - 1] {
            out.push(file[line - 1].copy());
        }
        assert(views::all(out@) =~= done + sa + own);
        if !append_closers(&mut out, below.as_slice()) {
            assert(views::all(out@) =~= done + (sa + own + closer_prefix(sb)));
            return out;
        }
        assert(closer_prefix(sb) =~= sb);
        assert(views::all(out@) + rest =~= done + (sa + own + sb + rest));
    }
    assert(views::all(out@) =~= goal);
    out
}

/// The rows that will stand in front of line `line`, once the edits are applied.
pub open spec fn rows_above(
    edits: Seq<RowEditView>,
    file: Seq<RowView>,
    deleted: Seq<bool>,
    line: int,
) -> Seq<RowView>
    decreases line,
{
    if line <= 1 {
        Seq::empty()
    } else {
        rows_above(edits, file, deleted, line - 1) + inserted_at(edits, line - 1, true, true) + (
        if deleted[line - 2] {
            Seq::empty()
        } else {
            seq![file[line - 2]]
        })
    }
}

/// The balance of everything in front of a group's range together with its payload.
pub open spec fn projected_prefix_balance(
    p: Seq<RowView>,
    edits: Seq<RowEditView>,
    file: Seq<RowView>,
    deleted: Seq<bool>,
    g: Group,
) -> DelimiterBalance {
    let above = rows_above(edits, file, deleted, g.line as int) + inserted_at(
        edits,
        g.line as int,
        true,
        false,
    ) + p;
    span_balance(above, 0, above.len() as int)
}

fn append_rows(out: &mut Vec<Row>, rows: &[Row])
    ensures
        views::all(final(out)@) == views::all(old(out)@) + views::all(rows@),
{
    let ghost start = views::all(out@);
    let ghost vr = views::all(rows@);
    assert(start + vr.take(0) =~= start);
    for i in 0..rows.len()
        invariant
            vr == views::all(rows@),
            views::all(out@) == start + vr.take(i as int),
    {
        proof {
            assert(start + vr.take(i + 1) =~= (start + vr.take(i as int)).push(vr[i as int]));
        }
        out.push(rows[i].copy());
    }
    proof {
        views::lemma_take_all(vr);
    }
}

fn compute_projected_prefix_balance(
    p: &[Row],
    edits: &[RowEdit],
    file: &[Row],
    deleted: &[bool],
    g: Group,
) -> (r: DelimiterBalance)
    requires
        deleted@.len() == file@.len(),
        1 <= g.line <= file@.len(),
    ensures
        r == projected_prefix_balance(
            views::all(p@),
            views::all(edits@),
            views::all(file@),
            deleted@,
            g,
        ),
{
    let ghost ve = views::all(edits@);
    let ghost vf = views::all(file@);
    let mut above: Vec<Row> = Vec::new();
    let mut line: usize = 1;
    while line < g.line as usize
        invariant
            ve == views::all(edits@),
            vf == views::all(file@),
            deleted@.len() == file@.len(),
            1 <= line <= g.line <= file@.len(),
            views::all(above@) == rows_above(ve, vf, deleted@, line as int),
        decreases g.line - line,
    {
        let ghost done = views::all(above@);
        let ghost ins = inserted_at(ve, line as int, true, true);
        append_inserted(&mut above, edits, line, true, true);
        proof {
            assert(vf[line - 1] == file@[line - 1]@);
            assert(done + ins + Seq::<RowView>::empty() =~= done + ins);
            assert((done + ins).push(vf[line - 1]) =~= done + ins + seq![vf[line - 1]]);
        }
        if !deleted[line - 1] {
            above.push(file[line - 1].copy());
        }
        line = line + 1;
    }
    append_inserted(&mut above, edits, g.line as usize, true, false);
    append_rows(&mut above, p);
    rows_balance(above.as_slice(), 0, above.len())
}

/// A run of closing lines that a group deletes and should keep.
#[derive(Clone, Copy)]
pub struct Kept {
    /// How many lines stand in front of the first kept line.
    pub from: usize,
    pub count: usize,
    pub balance: DelimiterBalance,
}

/// The closing lines at the end of a group's range that the payload neither restates
/// nor makes superfluous: they are kept when the imbalance of the group, and that of
/// the whole patch, shows that their openers survive.
pub open spec fn dropped_closers(
    p: Seq<RowView>,
    edits: Seq<RowEditView>,
    file: Seq<RowView>,
    deleted: Seq<bool>,
    g: Group,
    delta: DelimiterBalance,
    remaining: DelimiterBalance,
    deleted_prefix: DelimiterBalance,
) -> Option<Kept> {
    let length = closer_run(file, g.end_line(), g.deletes as int);
    let suffix = file.subrange(g.end_line() - length, g.end_line());
    let below = closers_below(edits, file, deleted, g.end_line());
    let keep_start = overlap(p, suffix, least(p.len() as int, length));
    let keep_end = length - overlap(suffix, below, least(length, below.len() as int));
    if length == 0 || keep_start >= keep_end {
        None
    } else {
        let kept = span_balance(suffix, keep_start, keep_end);
        let covered = span_balance(suffix, keep_end, length);
        let needed = kept.negated();
        if !delta.covers(needed) || deleted_prefix.covers(needed) || !remaining.covers(needed)
            || !projected_prefix_balance(p, edits, file, deleted, g).plus(covered).covers(needed) {
            None
        } else {
            Some(
                Kept {
                    from: (g.end_line() - length + keep_start) as usize,
                    count: (keep_end - keep_start) as usize,
                    balance: kept,
                },
            )
        }
    }
}

fn copy_rows(rows: &[Row], a: usize, b: usize) -> (r: Vec<Row>)
    requires
        a <= b <= rows@.len(),
    ensures
        views::all(r@) == views::all(rows@).subrange(a as int, b as int),
{
    let ghost vr = views::all(rows@);
    let ghost goal = vr.subrange(a as int, b as int);
    let mut out: Vec<Row> = Vec::new();
    for i in a..b
        invariant
            a <= b <= rows@.len(),
            vr == views::all(rows@),
            goal == vr.subrange(a as int, b as int),
            views::all(out@) == goal.take(i - a),
    {
        proof {
            views::lemma_take_step(goal, i - a);
        }
        out.push(rows[i].copy());
    }
    proof {
        views::lemma_take_all(goal);
    }
    out
}

fn find_dropped_suffix_closers(
    p: &[Row],
    edits: &[RowEdit],
    file: &[Row],
    deleted: &[bool],
    g: Group,
    delta: DelimiterBalance,
    remaining: DelimiterBalance,
    deleted_prefix: DelimiterBalance,
) -> (r: Option<Kept>)
    requires
        deleted@.len() == file@.len(),
        1 <= g.line,
        g.deletes >= 1,
        g.end_line() <= file@.len(),
    ensures
        r == dropped_closers(
            views::all(p@),
            views::all(edits@),
            views::all(file@),
            deleted@,
            g,
            delta,
            remaining,
            deleted_prefix,
        ),
        r matches Some(k) ==> g.line <= k.from + 1 && k.from + k.count <= g.end_line(),
{
    let m: usize = file.len();
    let end_line: usize = g.line as usize - 1 + g.deletes;
    let length: usize = count_closers(file, end_line, g.deletes);
    if length == 0 {
        return None;
    }
    let suffix = copy_rows(file, end_line - length, end_line);
    let restated: usize = count_overlap(p, suffix.as_slice());
    let below = collect_closers_below(edits, file, deleted, end_line);
    let covered: usize = count_overlap(suffix.as_slice(), below.as_slice());
    let keep_end: usize = length - covered;
    if restated >= keep_end {
        return None;
    }
    let kept = rows_balance(suffix.as_slice(), restated, keep_end);
    let needed = balance_negate(kept);
    let covered_balance = rows_balance(suffix.as_slice(), keep_end, length);
    if !balance_covers(delta, needed) || balance_covers(deleted_prefix, needed) || !balance_covers(
        remaining,
        needed,
    ) {
        return None;
    }
    let prefix = compute_projected_prefix_balance(p, edits, file, deleted, g);
    if !balance_covers(balance_sum(prefix, covered_balance), needed) {
        return None;
    }
    Some(
        Kept {
            from: end_line - length + restated,
            count: keep_end - restated,
            balance: kept,
        },
    )
}

/// The deleted lines that end just above line `line + 1`.
pub open spec fn deleted_run(file: Seq<RowView>, deleted: Seq<bool>, line: int) -> Seq<RowView>
    decreases line,
{
    if line >= 1 && deleted[line - 1] {
        deleted_run(file, deleted, line - 1).push(file[line - 1])
    } else {
        Seq::empty()
    }
}

/// The rows inserted at those lines.
pub open spec fn inserted_run(
    edits: Seq<RowEditView>,
    deleted: Seq<bool>,
    line: int,
) -> Seq<RowView>
    decreases line,
{
    if line >= 1 && deleted[line - 1] {
        inserted_run(edits, deleted, line - 1) + inserted_at(edits, line, true, true)
    } else {
        Seq::empty()
    }
}

/// What the deletions directly above a group take away, net of what is inserted there.
pub open spec fn deleted_prefix_balance(
    edits: Seq<RowEditView>,
    file: Seq<RowView>,
    deleted: Seq<bool>,
    g: Group,
) -> DelimiterBalance {
    let gone = deleted_run(file, deleted, g.line - 1);
    let came = inserted_run(edits, deleted, g.line - 1);
    span_balance(gone, 0, gone.len() as int).minus(span_balance(came, 0, came.len() as int))
}

fn net_deleted_prefix_balance(
    edits: &[RowEdit],
    file: &[Row],
    deleted: &[bool],
    g: Group,
) -> (r: DelimiterBalance)
    requires
        deleted@.len() == file@.len(),
        1 <= g.line <= file@.len(),
    ensures
        r == deleted_prefix_balance(views::all(edits@), views::all(file@), deleted@, g),
{
    let ghost ve = views::all(edits@);
    let ghost vf = views::all(file@);
    let last: usize = g.line as usize - 1;
    let mut top: usize = last;
    while top >= 1 && deleted[top - 1]
        invariant
            deleted@.len() == file@.len(),
            last < file@.len(),
            top <= last,
            forall|l: int| top <= l < last ==> #[trigger] deleted@[l],
        decreases top,
    {
        top = top - 1;
    }
    let mut gone: Vec<Row> = Vec::new();
    let mut came: Vec<Row> = Vec::new();
    let mut line: usize = top;
    while line < last
        invariant
            ve == views::all(edits@),
            vf == views::all(file@),
            deleted@.len() == file@.len(),
            last < file@.len(),
            top <= line <= last,
            forall|l: int| top <= l < last ==> #[trigger] deleted@[l],
            views::all(gone@) == deleted_run(vf, deleted@, line as int),
            views::all(came@) == inserted_run(ve, deleted@, line as int),
        decreases last - line,
    {
        line = line + 1;
        assert(deleted@[line - 1]);
        assert(vf[line - 1] == file@[line - 1]@);
        gone.push(file[line - 1].copy());
        append_inserted(&mut came, edits, line, true, true);
    }
    balance_delta(
        rows_balance(gone.as_slice(), 0, gone.len()),
        rows_balance(came.as_slice(), 0, came.len()),
    )
}

/// The rows that a list of edits inserts, in order.
pub open spec fn inserts_of(edits: Seq<RowEditView>) -> Seq<RowView>
    decreases edits.len(),
{
    if edits.len() == 0 {
        Seq::empty()
    } else {
        let rest = inserts_of(edits.drop_last());
        match edits.last().op {
            RowOpView::Insert { row, .. } => rest.push(row),
            _ => rest,
        }
    }
}

/// The lines that a list of edits deletes, in order.
pub open spec fn deletes_of(edits: Seq<RowEditView>, file: Seq<RowView>) -> Seq<RowView>
    decreases edits.len(),
{
    if edits.len() == 0 {
        Seq::empty()
    } else {
        let rest = deletes_of(edits.drop_last(), file);
        match edits.last().op {
            RowOpView::Delete { line } => rest.push(file[line - 1]),
            _ => rest,
        }
    }
}

/// What a slot adds to the balance of the file.
pub open spec fn slot_delta(slot: SlotView, file: Seq<RowView>) -> DelimiterBalance {
    match slot.candidate {
        Some((g, delta)) => delta,
        None => {
            let came = inserts_of(slot.edits);
            let gone = deletes_of(slot.edits, file);
            span_balance(came, 0, came.len() as int).minus(
                span_balance(gone, 0, gone.len() as int),
            )
        },
    }
}

fn slot_patch_delta(slot: &Slot, file: &[Row]) -> (r: DelimiterBalance)
    requires
        hunks::in_bounds(slot@.edits, file@.len() as int),
    ensures
        r == slot_delta(slot@, views::all(file@)),
{
    match slot.candidate {
        Some((g, delta)) => {
            return delta;
        },
        None => {},
    }
    let ghost ve = slot@.edits;
    let ghost vf = views::all(file@);
    let mut came: Vec<Row> = Vec::new();
    let mut gone: Vec<Row> = Vec::new();
    for i in 0..slot.edits.len()
        invariant
            ve == views::all(slot.edits@),
            vf == views::all(file@),
            hunks::in_bounds(ve, file@.len() as int),
            views::all(came@) == inserts_of(ve.take(i as int)),
            views::all(gone@) == deletes_of(ve.take(i as int), vf),
    {
        proof {
            views::lemma_take_step(ve, i as int);
            assert(ve[i as int] == slot.edits@[i as int]@);
        }
        match &slot.edits[i].op {
            RowOp::Insert { cursor, row, mode } => {
                came.push(row.copy());
            },
            RowOp::Delete { line } => {
                assert(ve[i as int].op.anchored() == Some(*line));
                assert(vf[line - 1] == file@[line - 1]@);
                gone.push(file[*line as usize - 1].copy());
            },
        }
    }
    proof {
        views::lemma_take_all(ve);
    }
    balance_delta(
        rows_balance(came.as_slice(), 0, came.len()),
        rows_balance(gone.as_slice(), 0, gone.len()),
    )
}

/// What a list of slots adds to the balance of the file.
pub open spec fn total_delta(slots: Seq<SlotView>, file: Seq<RowView>) -> DelimiterBalance
    decreases slots.len(),
{
    if slots.len() == 0 {
        DelimiterBalance::zero()
    } else {
        total_delta(slots.drop_last(), file).plus(slot_delta(slots.last(), file))
    }
}

/// The edits without the deletions of the lines behind line `from` up to line `to`.
pub open spec fn sparing(edits: Seq<RowEditView>, from: int, to: int) -> Seq<RowEditView>
    decreases edits.len(),
{
    if edits.len() == 0 {
        Seq::empty()
    } else {
        let rest = sparing(edits.drop_last(), from, to);
        match edits.last().op {
            RowOpView::Delete { line } => if from < line <= to {
                rest
            } else {
                rest.push(edits.last())
            },
            _ => rest.push(edits.last()),
        }
    }
}

fn append_sparing(out: &mut Vec<RowEdit>, edits: &[RowEdit], from: usize, to: usize)
    ensures
        views::all(final(out)@) == views::all(old(out)@) + sparing(
            views::all(edits@),
            from as int,
            to as int,
        ),
{
    let ghost start = views::all(out@);
    let ghost ve = views::all(edits@);
    assert(start + Seq::<RowEditView>::empty() =~= start);
    for i in 0..edits.len()
        invariant
            ve == views::all(edits@),
            views::all(out@) == start + sparing(ve.take(i as int), from as int, to as int),
    {
        let ghost got = sparing(ve.take(i as int), from as int, to as int);
        proof {
            views::lemma_take_step(ve, i as int);
            assert(ve[i as int] == edits@[i as int]@);
            assert((start + got).push(ve[i as int]) =~= start + got.push(ve[i as int]));
        }
        let spared = match &edits[i].op {
            RowOp::Delete { line } => from < *line as usize && *line as usize <= to,
            RowOp::Insert { cursor, row, mode } => false,
        };
        if !spared {
            out.push(edits[i].copy());
        }
    }
    proof {
        views::lemma_take_all(ve);
    }
}

/// The state of the second pass.
#[verifier::ext_equal]
pub struct PassView {
    pub out: Seq<RowEditView>,
    pub warnings: Seq<Seq<char>>,
    /// The lines that are still deleted.
    pub deleted: Seq<bool>,
    /// The imbalance of the patch that is not yet accounted for.
    pub remaining: DelimiterBalance,
}

/// The flags with those at `from..to` cleared.
pub open spec fn cleared(flags: Seq<bool>, from: int, to: int) -> Seq<bool> {
    Seq::new(flags.len(), |l: int| flags[l] && !(from <= l < to))
}

/// The second pass over one slot. `all` holds the edits that the first pass left,
/// `edits` those it was given.
pub open spec fn pass_slot(
    st: PassView,
    slot: SlotView,
    all: Seq<RowEditView>,
    edits: Seq<RowEditView>,
    file: Seq<RowView>,
) -> PassView {
    match slot.candidate {
        None => PassView {
            out: st.out + slot.edits,
            warnings: match slot.warning {
                Some(w) => st.warnings.push(w),
                None => st.warnings,
            },
            ..st
        },
        Some((g, delta)) => match dropped_closers(
            payload(edits, g),
            all,
            file,
            st.deleted,
            g,
            delta,
            st.remaining,
            deleted_prefix_balance(all, file, st.deleted, g),
        ) {
            Some(k) => PassView {
                out: st.out + sparing(
                    slot.edits,
                    k.from as int,
                    k.from + k.count,
                ),
                warnings: st.warnings.push(
                    boundary_warning(g.line, kept_closers_action(k.count as int)),
                ),
                deleted: cleared(st.deleted, k.from as int, k.from + k.count),
                remaining: st.remaining.plus(k.balance),
            },
            None => PassView { out: st.out + slot.edits, ..st },
        },
    }
}

/// The second pass over a list of slots.
pub open spec fn pass_slots(
    init: PassView,
    slots: Seq<SlotView>,
    all: Seq<RowEditView>,
    edits: Seq<RowEditView>,
    file: Seq<RowView>,
) -> PassView
    decreases slots.len(),
{
    if slots.len() == 0 {
        init
    } else {
        pass_slot(
            pass_slots(init, slots.drop_last(), all, edits, file),
            slots.last(),
            all,
            edits,
            file,
        )
    }
}

/// The edits after boundary repair, and one warning per repaired group.
pub open spec fn boundaries_repaired(edits: Seq<RowEditView>, file: Seq<RowView>) -> (
    Seq<RowEditView>,
    Seq<Seq<char>>,
) {
    let slots = slots_from(edits, file, 0);
    let all = projected(slots);
    let init = PassView {
        out: Seq::empty(),
        warnings: Seq::empty(),
        deleted: deleted_flags(all, file.len() as int),
        remaining: total_delta(slots, file),
    };
    let end = pass_slots(init, slots, all, edits, file);
    (end.out, end.warnings)
}

/// See [`boundaries_repaired`].
pub fn repair_replacement_boundaries(edits: &[RowEdit], file: &[Row]) -> (r: (
    Vec<RowEdit>,
    Vec<String>,
))
    requires
        hunks::in_bounds(views::all(edits@), file@.len() as int),
    ensures
        views::all(r.0@) == boundaries_repaired(views::all(edits@), views::all(file@)).0,
        views::texts(r.1@) == boundaries_repaired(views::all(edits@), views::all(file@)).1,
        hunks::in_bounds(views::all(r.0@), file@.len() as int),
{
    let ghost ve = views::all(edits@);
    let ghost vf = views::all(file@);
    let ghost n = file@.len() as int;
    let slots = first_pass(edits, file);
    let ghost vs = views::all(slots@);
    let all = project(slots.as_slice());
    let ghost va = views::all(all@);
    assert(hunks::in_bounds(va, n));
    let mut deleted = flag_deleted(all.as_slice(), file.len());
    let mut remaining = balance_zero();
    for i in 0..slots.len()
        invariant
            vs == views::all(slots@),
            vf == views::all(file@),
            n == file@.len(),
            forall|i: int| 0 <= i < slots@.len() ==> slot_fits((#[trigger] slots@[i])@, ve, n),
            remaining == total_delta(vs.take(i as int), vf),
    {
        proof {
            views::lemma_take_step(vs, i as int);
            assert(vs[i as int] == slots@[i as int]@);
        }
        remaining = balance_sum(remaining, slot_patch_delta(&slots[i], file));
    }
    proof {
        views::lemma_take_all(vs);
    }
    let ghost init = PassView {
        out: Seq::empty(),
        warnings: Seq::empty(),
        deleted: deleted_flags(va, n),
        remaining: total_delta(vs, vf),
    };
    let mut out: Vec<RowEdit> = Vec::new();
    let mut warnings: Vec<String> = Vec::new();
    for i in 0..slots.len()
        invariant
            ve == views::all(edits@),
            vf == views::all(file@),
            vs == views::all(slots@),
            va == views::all(all@),
            n == file@.len(),
            forall|i: int| 0 <= i < slots@.len() ==> slot_fits((#[trigger] slots@[i])@, ve, n),
            deleted@.len() == n,
            hunks::in_bounds(views::all(out@), n),
            pass_slots(init, vs.take(i as int), va, ve, vf) == (PassView {
                out: views::all(out@),
                warnings: views::texts(warnings@),
                deleted: deleted@,
                remaining,
            }),
    {
        let slot = &slots[i];
        let ghost before = views::all(out@);
        let ghost es = slot@.edits;
        proof {
            views::lemma_take_step(vs, i as int);
            assert(vs[i as int] == slot@);
            assert(slot_fits(slots@[i as int]@, ve, n));
            assert(es.subrange(0, es.len() as int) =~= es);
            lemma_in_bounds_add(before, es, n);
        }
        match slot.candidate {
            None => {
                match &slot.warning {
                    Some(w) => {
                        warnings.push(w.clone());
                    },
                    None => {},
                }
                append_edits(&mut out, slot.edits.as_slice(), 0, slot.edits.len());
            },
            Some((g, delta)) => {
                let p = payload_rows(edits, g);
                let prefix = net_deleted_prefix_balance(
                    all.as_slice(),
                    file,
                    deleted.as_slice(),
                    g,
                );
                match find_dropped_suffix_closers(
                    p.as_slice(),
                    all.as_slice(),
                    file,
                    deleted.as_slice(),
                    g,
                    delta,
                    remaining,
                    prefix,
                ) {
                    Some(k) => {
                        warnings.push(
                            describe_boundary_repair(
                                g.line,
                                "kept ",
                                k.count,
                                " structural closing line(s) the range deleted without restating",
                            ),
                        );
                        proof {
                            lemma_sparing_in_bounds(
                                es,
                                k.from as int,
                                k.from + k.count,
                                n,
                            );
                            lemma_in_bounds_add(
                                before,
                                sparing(es, k.from as int, k.from + k.count),
                                n,
                            );
                        }
                        append_sparing(
                            &mut out,
                            slot.edits.as_slice(),
                            k.from,
                            k.from + k.count,
                        );
                        clear_flags(&mut deleted, k.from, k.from + k.count);
                        remaining = balance_sum(remaining, k.balance);
                    },
                    None => {
                        append_edits(&mut out, slot.edits.as_slice(), 0, slot.edits.len());
                    },
                }
            },
        }
    }
    (out, warnings)
}

proof fn lemma_in_bounds_add(a: Seq<RowEditView>, b: Seq<RowEditView>, n: int)
    requires
        hunks::in_bounds(a, n),
        hunks::in_bounds(b, n),
    ensures
        hunks::in_bounds(a + b, n),
{
    let c = a + b;
    assert forall|k: int| 0 <= k < c.len() implies match (#[trigger] c[k]).op.anchored() {
        Some(l) => 1 <= l <= n,
        None => true,
    } by {
        if k < a.len() {
            assert(c[k] == a[k]);
        } else {
            assert(c[k] == b[k - a.len()]);
        }
    }
}

proof fn lemma_sparing_in_bounds(edits: Seq<RowEditView>, from: int, to: int, n: int)
    requires
        hunks::in_bounds(edits, n),
    ensures
        hunks::in_bounds(sparing(edits, from, to), n),
    decreases edits.len(),
{
    if edits.len() > 0 {
        let rest = edits.drop_last();
        assert forall|k: int| 0 <= k < rest.len() implies match (#[trigger] rest[k]).op.anchored() {
            Some(l) => 1 <= l <= n,
            None => true,
        } by {
            assert(rest[k] == edits[k]);
        }
        lemma_sparing_in_bounds(rest, from, to, n);
        let s = sparing(rest, from, to);
        let last = edits[edits.len() - 1];
        assert(hunks::in_bounds(s.push(last), n)) by {
            let t = s.push(last);
            assert forall|k: int| 0 <= k < t.len() implies match (#[trigger] t[k]).op.anchored() {
                Some(l) => 1 <= l <= n,
                None => true,
            } by {
                if k < s.len() {
                    assert(t[k] == s[k]);
                }
            }
        }
    }
}

fn clear_flags(flags: &mut Vec<bool>, from: usize, to: usize)
    requires
        from <= to <= old(flags)@.len(),
    ensures
        final(flags)@ == cleared(old(flags)@, from as int, to as int),
{
    let ghost start = flags@;
    for l in from..to
        invariant
            from <= to <= flags@.len(),
            flags@.len() == start.len(),
            forall|k: int|
                0 <= k < start.len() ==> #[trigger] flags@[k] == (start[k] && !(from <= k < l)),
    {
        flags.set(l, false);
    }
    assert(flags@ =~= cleared(start, from as int, to as int));
}

} // verus!
