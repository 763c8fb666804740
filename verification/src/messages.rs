//! Error and warning texts of the parser, the applier, and the patcher.

use vstd::prelude::*;

use crate::numbers;
use crate::text;
use crate::types::BlockOp;
use crate::views;

verus! {

broadcast use crate::views::group_texts;

/// Lines of context shown either side of a hash mismatch.
pub const MISMATCH_CONTEXT: usize = 2;

/// Optional patch envelope start marker; silently consumed.
pub const BEGIN_PATCH_MARKER: &'static str = "*** Begin Patch";

/// Optional patch envelope end marker; ends parsing.
pub const END_PATCH_MARKER: &'static str = "*** End Patch";

/// Truncation sentinel. Ends parsing like `END_PATCH_MARKER`, without a warning.
pub const ABORT_MARKER: &'static str = "*** Abort";

/// Two consecutive hunks targeted the exact same concrete range.
pub const REPLACE_PAIR_COALESCED_WARNING: &'static str =
    "Two hunks targeted the same range; kept only the second. One `SWAP N.=M:` hunk per range — the body is the final content, never old+new.";

/// Bare bodyless hunk followed by an overlapping concrete hunk.
pub const BARE_OVERLAP_DROPPED_WARNING: &'static str =
    "Dropped a bare hunk overlapped by the concrete hunk after it. One `SWAP N.=M:` hunk per range — the body is the final content, never old+new.";

/// Bare body rows auto-converted to literal `+` rows.
pub const BARE_BODY_AUTO_PIPED_WARNING: &'static str =
    "Auto-prefixed bare body row(s) with `+`. Body rows must be `+TEXT` literal lines.";

/// Unified-diff-style `-` row in a hunk body.
pub const MINUS_ROW_REJECTED: &'static str =
    "`-` rows are not valid; the range already names the lines being changed. For Markdown bullets or other literal `-` lines, prefix the literal row with `+`: `+- item`.";

/// Block-anchored edit where no block resolver is configured.
pub const BLOCK_RESOLVER_UNAVAILABLE: &'static str =
    "`SWAP.BLK`/`DEL.BLK`/`INS.BLK.POST` are not available here (no block resolver configured). Use a concrete line range.";

/// A block edit reached the applier unresolved.
pub const UNRESOLVED_BLOCK_INTERNAL: &'static str =
    "internal error: unresolved `SWAP.BLK` edit reached the applier (resolveBlockEdits was not run).";

/// `REM` received a body row or coexists with line edits.
pub const REM_TAKES_NO_BODY: &'static str =
    "`REM` deletes the whole file and takes no body rows or line ops. Issue it alone under the header.";

/// `MV` received a body row.
pub const MOVE_TAKES_NO_BODY: &'static str =
    "`MV DEST` does not take body rows. Put line edits above the `MV` row; the destination path follows `MV` on the same line.";

/// `DEL.BLK N` received a body row.
pub const DELETE_BLOCK_TAKES_NO_BODY: &'static str =
    "`DEL.BLK N` does not take body rows. Remove the body, or use `SWAP.BLK N:`.";

/// Insert hunk with no body.
pub const EMPTY_INSERT: &'static str = "`INS` needs at least one `+TEXT` body row.";

/// Recovery: an external write matched a cached snapshot.
pub const RECOVERY_EXTERNAL_WARNING: &'static str =
    "Recovered from a stale file hash using a previous read snapshot (file changed externally between read and edit).";

/// Recovery: a prior in-session edit advanced the hash.
pub const RECOVERY_SESSION_CHAIN_WARNING: &'static str =
    "Recovered from a stale file hash using an earlier in-session snapshot (a prior edit in this session advanced the hash).";

/// Recovery: the edits were replayed onto the current content.
pub const RECOVERY_SESSION_REPLAY_WARNING: &'static str =
    "Recovered by replaying your edits onto the current file content (a prior in-session edit changed the lines you re-targeted with a stale hash). Verify the diff matches your intent.";

/// Recovery: stale anchors were relocated to unchanged live lines after drift.
pub const RECOVERY_LINE_REMAP_WARNING: &'static str =
    "Recovered by remapping stale line anchors to unchanged current lines (file changed since the tagged read). Verify the diff matches your intent.";

/// `INS.HEAD:`/`INS.TAIL:` applied despite a stale snapshot tag.
pub const HEADTAIL_DRIFT_WARNING: &'static str =
    "Applied the `INS.HEAD:`/`INS.TAIL:` edit despite a stale snapshot tag (file changed since your read) — head/tail position is content-independent. Re-read if the drift was unexpected.";

/// What [`empty_replace_message`] says.
pub const EMPTY_REPLACE: &'static str =
    "`SWAP N.=M:` needs at least one `+TEXT` body row. To delete lines, use `DEL N.=M`.";

/// What [`empty_block_message`] says.
pub const EMPTY_BLOCK: &'static str =
    "`SWAP.BLK N:` needs at least one `+TEXT` body row. To delete a block, use `DEL.BLK N`.";

/// What [`delete_takes_no_body_message`] says.
pub const DELETE_TAKES_NO_BODY: &'static str =
    "`DEL N.=M` does not take body rows. Remove the body, or use `SWAP N.=M:`.";

/// Replace hunk with no body.
pub fn empty_replace_message() -> (r: String)
    ensures
        r@ == EMPTY_REPLACE@,
{
    text::owned(EMPTY_REPLACE)
}

/// `SWAP.BLK N:` hunk with no body.
pub fn empty_block_message() -> (r: String)
    ensures
        r@ == EMPTY_BLOCK@,
{
    text::owned(EMPTY_BLOCK)
}

/// Delete hunk received a body row.
pub fn delete_takes_no_body_message() -> (r: String)
    ensures
        r@ == DELETE_TAKES_NO_BODY@,
{
    text::owned(DELETE_TAKES_NO_BODY)
}

// ── Lowered block inserts ────────────────────────────────────────────────

/// The text of [`insert_after_block_closer_lowered_warning`].
pub open spec fn closer_lowered(line: u32) -> Seq<char> {
    "`INS.BLK.POST "@ + numbers::dec(line as nat)
        + ":` anchors on a closing delimiter, so it was applied as plain `INS.POST "@ + numbers::dec(
        line as nat,
    ) + ":`. Anchor on the line that OPENS the construct."@
}

/// `INS.BLK.POST N:` anchored on a closing-delimiter line, applied as plain
/// `INS.POST N:`.
pub fn insert_after_block_closer_lowered_warning(line: u32) -> (r: String)
    ensures
        r@ == closer_lowered(line),
{
    let n = numbers::decimal(line as u64);
    let mut s = text::owned("`INS.BLK.POST ");
    s.append(n.as_str());
    s.append(":` anchors on a closing delimiter, so it was applied as plain `INS.POST ");
    s.append(n.as_str());
    s.append(":`. Anchor on the line that OPENS the construct.");
    s
}

/// The text of [`insert_after_block_unresolved_lowered_warning`].
pub open spec fn unresolved_lowered(line: u32) -> Seq<char> {
    "`INS.BLK.POST "@ + numbers::dec(line as nat)
        + ":` could not resolve a syntactic block on line "@ + numbers::dec(line as nat)
        + ", so it was applied as plain `INS.POST "@ + numbers::dec(line as nat)
        + ":`. Verify the landing line; anchor on a line that OPENS a construct."@
}

/// `INS.BLK.POST N:` whose anchor cannot be resolved, applied as plain `INS.POST N:`.
pub fn insert_after_block_unresolved_lowered_warning(line: u32) -> (r: String)
    ensures
        r@ == unresolved_lowered(line),
{
    let n = numbers::decimal(line as u64);
    let mut s = text::owned("`INS.BLK.POST ");
    s.append(n.as_str());
    s.append(":` could not resolve a syntactic block on line ");
    s.append(n.as_str());
    s.append(", so it was applied as plain `INS.POST ");
    s.append(n.as_str());
    s.append(":`. Verify the landing line; anchor on a line that OPENS a construct.");
    s
}

// ── Landing corrections ─────────────────────────────────────────────────────────────

/// The warning for an outward slide.
pub open spec fn outward_warning(anchor: u32, landing: int, crossed: int) -> Seq<char> {
    "INS.POST "@ + numbers::dec(anchor as nat)
        + ": body indented shallower than the anchor, so the landing moved past "@ + numbers::dec(
        crossed as nat,
    ) + (if crossed == 1 {
        " closing line"@
    } else {
        " closing lines"@
    }) + " to after line "@ + numbers::dec(landing as nat)
        + ". For the deeper position inside the block, re-issue with the body indented to match."@
}

/// See [`outward_warning`].
pub fn after_insert_landing_shift_warning(
    anchor_line: u32,
    landing_line: u32,
    crossed: u32,
) -> (r: String)
    ensures
        r@ == outward_warning(anchor_line, landing_line as int, crossed as int),
{
    let mut s = text::owned("INS.POST ");
    s.append(numbers::decimal(anchor_line as u64).as_str());
    s.append(": body indented shallower than the anchor, so the landing moved past ");
    s.append(numbers::decimal(crossed as u64).as_str());
    s.append(if crossed == 1 { " closing line" } else { " closing lines" });
    s.append(" to after line ");
    s.append(numbers::decimal(landing_line as u64).as_str());
    s.append(
        ". For the deeper position inside the block, re-issue with the body indented to match.",
    );
    s
}

/// The warning for an inward slide.
pub open spec fn inward_warning(block_start: u32, closer: u32, landing: int) -> Seq<char> {
    "INS.BLK.POST "@ + numbers::dec(block_start as nat)
        + ": body indented deeper than closing line "@ + numbers::dec(closer as nat)
        + ", so it was placed inside the block, after line "@ + numbers::dec(landing as nat)
        + ". `INS.BLK.POST` lands AFTER the block at sibling depth — if inside was intended, use plain `INS.POST "@
        + numbers::dec(closer as nat) + ":`."@
}

/// See [`inward_warning`].
pub fn block_insert_landing_shift_warning(
    block_start: u32,
    closer_line: u32,
    landing_line: u32,
) -> (r: String)
    ensures
        r@ == inward_warning(block_start, closer_line, landing_line as int),
{
    let mut s = text::owned("INS.BLK.POST ");
    s.append(numbers::decimal(block_start as u64).as_str());
    s.append(": body indented deeper than closing line ");
    s.append(numbers::decimal(closer_line as u64).as_str());
    s.append(", so it was placed inside the block, after line ");
    s.append(numbers::decimal(landing_line as u64).as_str());
    s.append(
        ". `INS.BLK.POST` lands AFTER the block at sibling depth — if inside was intended, use plain `INS.POST ",
    );
    s.append(numbers::decimal(closer_line as u64).as_str());
    s.append(":`.");
    s
}

// ── Snapshot tags ────────────────────────────────────────────────────────

/// The text of [`missing_snapshot_tag_message`].
pub open spec fn missing_tag(path: Seq<char>) -> Seq<char> {
    "Missing hashline snapshot tag for "@ + path + "; use `["@ + path
        + "#tag]` from your latest read/search output. To create a new file, use the write tool."@
}

/// Section omitted the mandatory snapshot tag.
pub fn missing_snapshot_tag_message(section_path: &str) -> (r: String)
    ensures
        r@ == missing_tag(section_path@),
{
    let mut s = text::owned("Missing hashline snapshot tag for ");
    s.append(section_path);
    s.append("; use `[");
    s.append(section_path);
    s.append(
        "#tag]` from your latest read/search output. To create a new file, use the write tool.",
    );
    s
}

/// The text of [`path_recovered_from_tag_message`].
pub open spec fn path_recovered(authored: Seq<char>, resolved: Seq<char>, tag: Seq<char>) -> Seq<
    char,
> {
    "Path \""@ + authored + "\" does not exist; matched its filename and snapshot tag #"@ + tag
        + " to "@ + resolved + " (read earlier this session). Anchor future edits on ["@ + resolved
        + "#TAG]."@
}

/// A section named a path that does not exist, but its filename and snapshot tag
/// matched a file read earlier this session.
pub fn path_recovered_from_tag_message(
    authored_path: &str,
    resolved_path: &str,
    tag: &str,
) -> (r: String)
    ensures
        r@ == path_recovered(authored_path@, resolved_path@, tag@),
{
    let mut s = text::owned("Path \"");
    s.append(authored_path);
    s.append("\" does not exist; matched its filename and snapshot tag #");
    s.append(tag);
    s.append(" to ");
    s.append(resolved_path);
    s.append(" (read earlier this session). Anchor future edits on [");
    s.append(resolved_path);
    s.append("#TAG].");
    s
}

// ── Numbered context ─────────────────────────────────────────────────────

/// Line `l` of a file of `n` lines is within the context of one of the anchors.
pub open spec fn in_context(anchors: Seq<u32>, n: int, l: int) -> bool {
    exists|i: int|
        0 <= i < anchors.len() && 1 <= (#[trigger] anchors[i]) <= n && anchors[i]
            - MISMATCH_CONTEXT <= l <= anchors[i] + MISMATCH_CONTEXT
}

fn shown_in_context(anchors: &[u32], n: usize, l: usize) -> (r: bool)
    ensures
        r == in_context(anchors@, n as int, l as int),
{
    for i in 0..anchors.len()
        invariant
            forall|j: int|
                0 <= j < i ==> !(1 <= (#[trigger] anchors@[j]) <= n && anchors@[j]
                    - MISMATCH_CONTEXT <= l <= anchors@[j] + MISMATCH_CONTEXT),
    {
        let a: usize = anchors[i] as usize;
        if 1 <= a && a <= n {
            let near = if a >= l {
                a - l <= MISMATCH_CONTEXT
            } else {
                l - a <= MISMATCH_CONTEXT
            };
            if near {
                return true;
            }
        }
    }
    false
}

/// Line `l` is one of the anchors.
pub open spec fn is_anchor_line(anchors: Seq<u32>, l: int) -> bool {
    exists|i: int| 0 <= i < anchors.len() && (#[trigger] anchors[i]) == l
}

/// The context rows of the first `l` lines, and the last line among them that is shown
/// (0 if none is). Anchors are marked with `*`, and `...` stands between runs of lines
/// that are not adjacent.
pub open spec fn context_upto(anchors: Seq<u32>, lines: Seq<Seq<char>>, l: int) -> (
    Seq<Seq<char>>,
    int,
)
    decreases l,
{
    if l <= 0 {
        (Seq::empty(), 0)
    } else {
        let (rows, prev) = context_upto(anchors, lines, l - 1);
        if in_context(anchors, lines.len() as int, l) {
            let gap = if prev != 0 && l > prev + 1 {
                rows.push("..."@)
            } else {
                rows
            };
            let marker = if is_anchor_line(anchors, l) {
                "*"@
            } else {
                " "@
            };
            (gap.push(marker + crate::format::numbered(l as nat, lines[l - 1])), l)
        } else {
            (rows, prev)
        }
    }
}

/// The context rows of a file around some anchors.
pub open spec fn context_rows(anchors: Seq<u32>, lines: Seq<Seq<char>>) -> Seq<Seq<char>> {
    context_upto(anchors, lines, lines.len() as int).0
}

fn is_anchor(anchors: &[u32], l: usize) -> (r: bool)
    ensures
        r == is_anchor_line(anchors@, l as int),
{
    for i in 0..anchors.len()
        invariant
            forall|j: int| 0 <= j < i ==> #[trigger] anchors@[j] != l,
    {
        if anchors[i] as usize == l {
            assert(anchors@[i as int] == l);
            return true;
        }
    }
    false
}

/// Numbered `LINE:TEXT` rows around `anchor_lines` (two lines on either side),
/// `*`-marking anchors, `...` between non-adjacent runs.
pub fn format_anchored_context(anchor_lines: &[u32], file_lines: &[String]) -> (r: Vec<String>)
    ensures
        views::texts(r@) == context_rows(anchor_lines@, views::texts(file_lines@)),
{
    let n: usize = file_lines.len();
    let ghost ls = views::texts(file_lines@);
    let mut rows: Vec<String> = Vec::new();
    let mut prev: usize = 0;
    for i in 0..n
        invariant
            n == file_lines@.len(),
            ls == views::texts(file_lines@),
            context_upto(anchor_lines@, ls, i as int) == (views::texts(rows@), prev as int),
            prev <= i,
    {
        let l: usize = i + 1;
        if shown_in_context(anchor_lines, n, l) {
            if prev != 0 && l > prev + 1 {
                rows.push(text::owned("..."));
            }
            prev = l;
            let mut row = text::owned(if is_anchor(anchor_lines, l) { "*" } else { " " });
            row.append(
                crate::format::format_numbered_line(l, file_lines[i].as_str()).as_str(),
            );
            assert(ls[i as int] == file_lines@[i as int]@);
            rows.push(row);
        }
    }
    rows
}

// ── Blocks ───────────────────────────────────────────────────────────────

/// The word for a block operation in [`unresolved_block`].
pub open spec fn op_word(op: BlockOp) -> Seq<char> {
    match op {
        BlockOp::InsertAfter => "insert_after_block"@,
        BlockOp::Delete => "delete_block"@,
        BlockOp::Replace => "replace_block"@,
    }
}

/// The text of [`block_unresolved_message`]; `context` holds the rows around the line.
pub open spec fn unresolved_block(line: u32, op: BlockOp, context: Seq<Seq<char>>) -> Seq<char> {
    let base = "`"@ + op_word(op) + " "@ + numbers::dec(line as nat)
        + ":` could not resolve a syntactic block beginning on line "@ + numbers::dec(line as nat)
        + " (unsupported language, blank/out-of-range line, no node beginning on N, or parse error). Anchor `"@
        + op_word(op)
        + "` on the line that OPENS the construct (e.g. its `function`/`if`/`case` header), never a statement inside it."@;
    if context.len() == 0 {
        base
    } else {
        base + "\n"@ + text::unlines(context)
    }
}

/// The context rows around a line of a file; none without a file.
pub open spec fn line_context(line: u32, file_lines: Option<Seq<Seq<char>>>) -> Seq<Seq<char>> {
    match file_lines {
        Some(lines) => context_rows(seq![line], lines),
        None => Seq::empty(),
    }
}

/// The texts of an optional slice of strings.
pub open spec fn opt_slice(o: Option<&[String]>) -> Option<Seq<Seq<char>>> {
    match o {
        Some(v) => Some(views::texts(v@)),
        None => None,
    }
}

/// Block-anchored operation could not resolve to a syntactic block.
pub fn block_unresolved_message(line: u32, op: BlockOp, file_lines: Option<&[String]>) -> (r:
    String)
    ensures
        r@ == unresolved_block(line, op, line_context(line, opt_slice(file_lines))),
{
    let word = match op {
        BlockOp::InsertAfter => "insert_after_block",
        BlockOp::Delete => "delete_block",
        BlockOp::Replace => "replace_block",
    };
    let n = numbers::decimal(line as u64);
    let mut s = text::owned("`");
    s.append(word);
    s.append(" ");
    s.append(n.as_str());
    s.append(":` could not resolve a syntactic block beginning on line ");
    s.append(n.as_str());
    s.append(
        " (unsupported language, blank/out-of-range line, no node beginning on N, or parse error). Anchor `",
    );
    s.append(word);
    s.append(
        "` on the line that OPENS the construct (e.g. its `function`/`if`/`case` header), never a statement inside it.",
    );
    match file_lines {
        Some(lines) => {
            let mut anchors: Vec<u32> = Vec::new();
            anchors.push(line);
            proof {
                assert(anchors@ =~= seq![line]);
            }
            let context = format_anchored_context(anchors.as_slice(), lines);
            assert(views::texts(context@).len() == context@.len());
            if context.len() > 0 {
                s.append("\n");
                s.append(text::join_lines(context.as_slice()).as_str());
            }
        },
        None => {},
    }
    s
}

/// The text of [`block_single_line_message`].
pub open spec fn single_line_block(line: u32, op: BlockOp) -> Seq<char> {
    let n = numbers::dec(line as nat);
    let (form, plain) = match op {
        BlockOp::InsertAfter => ("INS.BLK.POST"@, "INS.POST "@ + n + ":"@),
        BlockOp::Delete => ("DEL.BLK"@, "DEL "@ + n),
        BlockOp::Replace => ("SWAP.BLK"@, "SWAP "@ + n + ".="@ + n + ":"@),
    };
    "`"@ + form + " "@ + n + "` resolved a single-line block — line "@ + n
        + " is a bare statement, not the opening line of a multi-line construct. For that one line use `"@
        + plain + "`; to act on an enclosing construct, anchor "@ + form
        + " on the line that OPENS it (e.g. its `function`/`if`/`case` header), never a statement inside it."@
}

/// A block anchor resolved to a single line, almost always a bare statement that was
/// mistaken for an opening line.
pub fn block_single_line_message(line: u32, op: BlockOp) -> (r: String)
    ensures
        r@ == single_line_block(line, op),
{
    let n = numbers::decimal(line as u64);
    let (form, plain) = match op {
        BlockOp::InsertAfter => {
            let mut p = text::owned("INS.POST ");
            p.append(n.as_str());
            p.append(":");
            ("INS.BLK.POST", p)
        },
        BlockOp::Delete => {
            let mut p = text::owned("DEL ");
            p.append(n.as_str());
            ("DEL.BLK", p)
        },
        BlockOp::Replace => {
            let mut p = text::owned("SWAP ");
            p.append(n.as_str());
            p.append(".=");
            p.append(n.as_str());
            p.append(":");
            ("SWAP.BLK", p)
        },
    };
    let mut s = text::owned("`");
    s.append(form);
    s.append(" ");
    s.append(n.as_str());
    s.append("` resolved a single-line block — line ");
    s.append(n.as_str());
    s.append(
        " is a bare statement, not the opening line of a multi-line construct. For that one line use `",
    );
    s.append(plain.as_str());
    s.append("`; to act on an enclosing construct, anchor ");
    s.append(form);
    s.append(
        " on the line that OPENS it (e.g. its `function`/`if`/`case` header), never a statement inside it.",
    );
    s
}

// ── Line ranges ──────────────────────────────────────────────────────────

/// A sorted list of lines with `x` in its place; a line already there is not repeated.
pub open spec fn with_line(sorted: Seq<u32>, x: u32) -> Seq<u32>
    decreases sorted.len(),
{
    if sorted.len() == 0 || sorted.last() < x {
        sorted.push(x)
    } else if sorted.last() == x {
        sorted
    } else {
        with_line(sorted.drop_last(), x).push(sorted.last())
    }
}

/// The lines of a list, sorted and each once.
pub open spec fn sorted_lines(lines: Seq<u32>) -> Seq<u32>
    decreases lines.len(),
{
    if lines.len() == 0 {
        Seq::empty()
    } else {
        with_line(sorted_lines(lines.drop_last()), lines.last())
    }
}

/// The lines of a list are sorted, each once, and are those of the list.
pub proof fn law_sorted_lines(lines: Seq<u32>)
    ensures
        forall|i: int, j: int|
            0 <= i < j < sorted_lines(lines).len() ==> sorted_lines(lines)[i] < sorted_lines(
                lines,
            )[j],
        forall|x: u32| #[trigger] sorted_lines(lines).contains(x) <==> lines.contains(x),
    decreases lines.len(),
{
    if lines.len() > 0 {
        let rest = lines.drop_last();
        law_sorted_lines(rest);
        let s = sorted_lines(rest);
        lemma_with_line(s, lines.last());
        assert forall|x: u32| #[trigger] sorted_lines(lines).contains(x) <==> lines.contains(x) by {
            assert(s.contains(x) <==> rest.contains(x));
            if lines.contains(x) && x != lines.last() {
                let k = choose|k: int| 0 <= k < lines.len() && lines[k] == x;
                assert(rest[k] == x);
            }
            if rest.contains(x) {
                let k = choose|k: int| 0 <= k < rest.len() && rest[k] == x;
                assert(lines[k] == x);
            }
            if x == lines.last() {
                assert(lines[lines.len() - 1] == x);
            }
        }
    }
}

proof fn lemma_with_line(s: Seq<u32>, x: u32)
    requires
        forall|i: int, j: int| 0 <= i < j < s.len() ==> s[i] < s[j],
    ensures
        forall|i: int, j: int|
            0 <= i < j < with_line(s, x).len() ==> with_line(s, x)[i] < with_line(s, x)[j],
        forall|y: u32| #[trigger] with_line(s, x).contains(y) <==> s.contains(y) || y == x,
    decreases s.len(),
{
    let w = with_line(s, x);
    if s.len() == 0 || s.last() < x {
        assert(w[s.len() as int] == x);
        assert forall|y: u32| #[trigger] w.contains(y) <==> s.contains(y) || y == x by {
            if s.contains(y) {
                let k = choose|k: int| 0 <= k < s.len() && s[k] == y;
                assert(w[k] == y);
            }
        }
    } else if s.last() == x {
        assert(s[s.len() - 1] == x);
    } else {
        let t = s.drop_last();
        lemma_with_line(t, x);
        let v = with_line(t, x);
        let l = s.last();
        assert forall|i: int| 0 <= i < v.len() implies v[i] < l by {
            assert(v.contains(v[i]));
            if v[i] != x {
                let k = choose|k: int| 0 <= k < t.len() && t[k] == v[i];
                assert(s[k] < s[s.len() - 1]);
            }
        }
        assert forall|y: u32| #[trigger] w.contains(y) <==> s.contains(y) || y == x by {
            assert(v.contains(y) <==> t.contains(y) || y == x);
            if w.contains(y) {
                let k = choose|k: int| 0 <= k < w.len() && w[k] == y;
                if k < v.len() {
                    assert(v[k] == y);
                    if t.contains(y) {
                        let m = choose|m: int| 0 <= m < t.len() && t[m] == y;
                        assert(s[m] == y);
                    }
                } else {
                    assert(s[s.len() - 1] == y);
                }
            }
            if s.contains(y) && y != l {
                let m = choose|m: int| 0 <= m < s.len() && s[m] == y;
                assert(t[m] == y);
            }
            if v.contains(y) {
                let k = choose|k: int| 0 <= k < v.len() && v[k] == y;
                assert(w[k] == y);
            }
            if y == l {
                assert(w[v.len() as int] == y);
            }
        }
    }
}

fn sort_lines(lines: &[u32]) -> (r: Vec<u32>)
    ensures
        r@ == sorted_lines(lines@),
{
    let mut out: Vec<u32> = Vec::new();
    for i in 0..lines.len()
        invariant
            out@ == sorted_lines(lines@.take(i as int)),
    {
        proof {
            views::lemma_take_step(lines@, i as int);
        }
        insert_line(&mut out, lines[i]);
    }
    proof {
        views::lemma_take_all(lines@);
    }
    out
}

fn insert_line(sorted: &mut Vec<u32>, x: u32)
    ensures
        final(sorted)@ == with_line(old(sorted)@, x),
{
    let ghost start = sorted@;
    let mut k: usize = sorted.len();
    proof {
        views::lemma_take_all(start);
        assert(with_line(start, x) + start.skip(k as int) =~= with_line(start, x));
    }
    while k > 0 && sorted[k - 1] > x
        invariant
            k <= sorted@.len(),
            sorted@ == start,
            with_line(start.take(k as int), x) + start.skip(k as int) == with_line(start, x),
        decreases k,
    {
        proof {
            views::lemma_take_step(start, k - 1);
            let rest = with_line(start.take(k - 1), x);
            assert(rest + start.skip(k - 1) =~= rest.push(start[k - 1]) + start.skip(k as int));
        }
        k = k - 1;
    }
    proof {
        if k > 0 {
            assert(start.take(k as int).last() == start[k - 1]);
        }
    }
    if k == 0 || sorted[k - 1] < x {
        sorted.insert(k, x);
        proof {
            assert(sorted@ =~= start.take(k as int).push(x) + start.skip(k as int));
        }
    } else {
        proof {
            assert(start =~= start.take(k as int) + start.skip(k as int));
        }
    }
}

/// The maximal runs of consecutive numbers of a sorted list.
pub open spec fn runs(sorted: Seq<u32>) -> Seq<(u32, u32)>
    decreases sorted.len(),
{
    if sorted.len() == 0 {
        Seq::empty()
    } else {
        let before = runs(sorted.drop_last());
        let x = sorted.last();
        if before.len() > 0 && before.last().1 + 1 == x {
            before.drop_last().push((before.last().0, x))
        } else {
            before.push((x, x))
        }
    }
}

/// A run as `N` or `N-M`.
pub open spec fn run_text(run: (u32, u32)) -> Seq<char> {
    if run.0 == run.1 {
        numbers::dec(run.0 as nat)
    } else {
        numbers::dec(run.0 as nat) + "-"@ + numbers::dec(run.1 as nat)
    }
}

/// A list of lines as sorted ranges such as `1-4` and `7`, with `sep` between them.
pub open spec fn line_ranges(lines: Seq<u32>, sep: Seq<char>) -> Seq<char> {
    text::join(runs(sorted_lines(lines)).map_values(|r: (u32, u32)| run_text(r)), sep)
}

fn find_runs(sorted: &[u32]) -> (r: Vec<(u32, u32)>)
    ensures
        r@ == runs(sorted@),
{
    let mut out: Vec<(u32, u32)> = Vec::new();
    for i in 0..sorted.len()
        invariant
            out@ == runs(sorted@.take(i as int)),
    {
        proof {
            views::lemma_take_step(sorted@, i as int);
        }
        let x = sorted[i];
        let n: usize = out.len();
        if n > 0 && out[n - 1].1 as u64 + 1 == x as u64 {
            let first = out[n - 1].0;
            let ghost before = out@;
            let _ = out.pop();
            out.push((first, x));
            proof {
                assert(out@ =~= before.drop_last().push((first, x)));
            }
        } else {
            out.push((x, x));
        }
    }
    proof {
        views::lemma_take_all(sorted@);
    }
    out
}

/// Compress a line list into sorted ranges such as `1-4` and `7`. See [`line_ranges`].
pub fn format_line_ranges(lines: &[u32], sep: &str) -> (r: String)
    ensures
        r@ == line_ranges(lines@, sep@),
{
    let sorted = sort_lines(lines);
    let found = find_runs(sorted.as_slice());
    let ghost goal = found@.map_values(|r: (u32, u32)| run_text(r));
    let mut parts: Vec<String> = Vec::new();
    for i in 0..found.len()
        invariant
            goal == found@.map_values(|r: (u32, u32)| run_text(r)),
            views::texts(parts@) == goal.take(i as int),
    {
        proof {
            views::lemma_take_step(goal, i as int);
        }
        let (a, b) = found[i];
        let mut s = numbers::decimal(a as u64);
        if a != b {
            s.append("-");
            s.append(numbers::decimal(b as u64).as_str());
        }
        parts.push(s);
    }
    proof {
        views::lemma_take_all(goal);
    }
    text::joined(parts.as_slice(), sep)
}

// ── Unseen lines ─────────────────────────────────────────────────────────

/// One anchored line whose actual content is shown in an error message.
#[derive(Debug, Clone)]
pub struct RevealedLine {
    pub line: u32,
    pub text: String,
}

/// Content preview handed to [`unseen_lines_message`].
#[derive(Debug, Clone)]
pub struct UnseenLinesReveal {
    pub lines: Vec<RevealedLine>,
    pub truncated: bool,
}

impl Default for UnseenLinesReveal {
    fn default() -> (r: Self)
        ensures
            r.lines@.len() == 0,
            !r.truncated,
    {
        UnseenLinesReveal { lines: Vec::new(), truncated: false }
    }
}

/// The rows of a preview, each indented and numbered.
pub open spec fn preview_rows(lines: Seq<RevealedLine>) -> Seq<Seq<char>> {
    lines.map_values(
        |l: RevealedLine| "  "@ + crate::format::numbered(l.line as nat, l.text@),
    )
}

/// The text of [`unseen_lines_message`].
pub open spec fn unseen_lines(
    path: Seq<char>,
    lines: Seq<u32>,
    tag: Seq<char>,
    shown: Seq<Seq<char>>,
    truncated: bool,
) -> Seq<char> {
    let header = "This edit anchors to lines "@ + line_ranges(lines, ", "@) + " of "@ + path
        + " that ["@ + path + "#"@ + tag
        + "] never displayed (it showed a partial range, a search hit, or a folded summary)."@;
    let selector = line_ranges(lines, ","@);
    let preview = text::unlines(shown);
    if shown.len() == 0 {
        header + " Re-read them in full first with a ranged read like `"@ + path + ":"@ + selector
            + "` — it skips summarization and mints a fresh tag (a plain re-read just re-folds them) — then re-issue the edit."@
    } else if truncated {
        header + " Preview of the actual file content at the first "@ + numbers::dec(shown.len())
            + " unseen line(s):\n"@ + preview
            + "\nThe range exceeds the inline preview cap — re-read the remainder with `"@ + path
            + ":"@ + selector + "` before re-issuing the edit."@
    } else {
        header + " Actual file content at those lines:\n"@ + preview
            + "\nVerify the content matches what you intend to touch, then re-issue the edit with the same [path#tag] header — a straight retry now succeeds without a re-read. If the content does NOT match, fix your line numbers."@
    }
}

/// An anchored edit referenced lines that the read which minted the cited tag never
/// displayed.
pub fn unseen_lines_message(
    section_path: &str,
    unseen_lines: &[u32],
    tag: &str,
    reveal: &UnseenLinesReveal,
) -> (r: String)
    ensures
        r@ == self::unseen_lines(
            section_path@,
            unseen_lines@,
            tag@,
            preview_rows(reveal.lines@),
            reveal.truncated,
        ),
{
    let ranges = format_line_ranges(unseen_lines, ", ");
    let selector = format_line_ranges(unseen_lines, ",");
    let mut s = text::owned("This edit anchors to lines ");
    s.append(ranges.as_str());
    s.append(" of ");
    s.append(section_path);
    s.append(" that [");
    s.append(section_path);
    s.append("#");
    s.append(tag);
    s.append(
        "] never displayed (it showed a partial range, a search hit, or a folded summary).",
    );
    if reveal.lines.len() == 0 {
        s.append(" Re-read them in full first with a ranged read like `");
        s.append(section_path);
        s.append(":");
        s.append(selector.as_str());
        s.append(
            "` — it skips summarization and mints a fresh tag (a plain re-read just re-folds them) — then re-issue the edit.",
        );
        return s;
    }
    let ghost goal = preview_rows(reveal.lines@);
    let mut shown: Vec<String> = Vec::new();
    for i in 0..reveal.lines.len()
        invariant
            goal == preview_rows(reveal.lines@),
            views::texts(shown@) == goal.take(i as int),
    {
        proof {
            views::lemma_take_step(goal, i as int);
        }
        let l = &reveal.lines[i];
        let mut row = text::owned("  ");
        row.append(crate::format::format_numbered_line(l.line as usize, l.text.as_str()).as_str());
        shown.push(row);
    }
    proof {
        views::lemma_take_all(goal);
    }
    let preview = text::join_lines(shown.as_slice());
    if reveal.truncated {
        s.append(" Preview of the actual file content at the first ");
        s.append(numbers::decimal_usize(reveal.lines.len()).as_str());
        s.append(" unseen line(s):\n");
        s.append(preview.as_str());
        s.append("\nThe range exceeds the inline preview cap — re-read the remainder with `");
        s.append(section_path);
        s.append(":");
        s.append(selector.as_str());
        s.append("` before re-issuing the edit.");
        return s;
    }
    s.append(" Actual file content at those lines:\n");
    s.append(preview.as_str());
    s.append(
        "\nVerify the content matches what you intend to touch, then re-issue the edit with the same [path#tag] header — a straight retry now succeeds without a re-read. If the content does NOT match, fix your line numbers.",
    );
    s
}

// ── Laws ─────────────────────────────────────────────────────────────────

/// A number lies in one of some ranges.
pub open spec fn in_ranges(ranges: Seq<(u32, u32)>, x: u32) -> bool {
    exists|k: int| 0 <= k < ranges.len() && (#[trigger] ranges[k]).0 <= x <= ranges[k].1
}

proof fn lemma_runs(sorted: Seq<u32>)
    requires
        forall|i: int, j: int| 0 <= i < j < sorted.len() ==> sorted[i] < sorted[j],
    ensures
        forall|k: int| 0 <= k < runs(sorted).len() ==> (#[trigger] runs(sorted)[k]).0 <= runs(
            sorted,
        )[k].1,
        forall|k: int, l: int|
            0 <= k < l < runs(sorted).len() ==> (#[trigger] runs(sorted)[k]).1 + 1 < (
            #[trigger] runs(sorted)[l]).0,
        sorted.len() > 0 ==> runs(sorted).len() > 0 && runs(sorted).last().1 == sorted.last(),
        sorted.len() == 0 ==> runs(sorted).len() == 0,
        forall|x: u32| #[trigger] in_ranges(runs(sorted), x) <==> sorted.contains(x),
    decreases sorted.len(),
{
    if sorted.len() > 0 {
        let rest = sorted.drop_last();
        let x = sorted.last();
        let before = runs(rest);
        let now = runs(sorted);
        lemma_runs(rest);
        assert(rest.len() > 0 ==> rest.last() < x) by {
            if rest.len() > 0 {
                assert(sorted[sorted.len() - 2] < sorted[sorted.len() - 1]);
            }
        }
        assert forall|y: u32| #[trigger] in_ranges(now, y) <==> sorted.contains(y) by {
            assert(in_ranges(before, y) <==> rest.contains(y));
            if sorted.contains(y) {
                let i = choose|i: int| 0 <= i < sorted.len() && sorted[i] == y;
                if i < rest.len() {
                    assert(rest[i] == y);
                    let k = choose|k: int|
                        0 <= k < before.len() && (#[trigger] before[k]).0 <= y <= before[k].1;
                    assert(now[k].0 <= y <= now[k].1);
                } else {
                    assert(now[now.len() - 1].0 <= y <= now[now.len() - 1].1);
                }
            }
            if in_ranges(now, y) {
                let k = choose|k: int|
                    0 <= k < now.len() && (#[trigger] now[k]).0 <= y <= now[k].1;
                if y == x {
                    assert(sorted[sorted.len() - 1] == x);
                } else {
                    assert(k < before.len());
                    assert(before[k].0 <= y <= before[k].1);
                    let i = choose|i: int| 0 <= i < rest.len() && rest[i] == y;
                    assert(sorted[i] == y);
                }
            }
        }
    }
}

/// A list of lines is told as ranges that hold these lines and no others. The ranges ascend
/// and do not touch, so no line is named twice and none is missing. A range of one line is
/// its number, any other one its first number, a dash and its last.
pub proof fn law_line_ranges(lines: Seq<u32>, sep: Seq<char>)
    ensures
        ({
            let ranges = runs(sorted_lines(lines));
            &&& forall|x: u32| #[trigger] in_ranges(ranges, x) <==> lines.contains(x)
            &&& forall|k: int| 0 <= k < ranges.len() ==> (#[trigger] ranges[k]).0 <= ranges[k].1
            &&& forall|k: int, l: int|
                0 <= k < l < ranges.len() ==> (#[trigger] ranges[k]).1 + 1 < (
                #[trigger] ranges[l]).0
            &&& line_ranges(lines, sep) == text::join(
                Seq::new(
                    ranges.len(),
                    |k: int|
                        if ranges[k].0 == ranges[k].1 {
                            numbers::dec(ranges[k].0 as nat)
                        } else {
                            numbers::dec(ranges[k].0 as nat) + seq!['-'] + numbers::dec(
                                ranges[k].1 as nat,
                            )
                        },
                ),
                sep,
            )
        }),
{
    let sorted = sorted_lines(lines);
    let ranges = runs(sorted);
    law_sorted_lines(lines);
    lemma_runs(sorted);
    assert forall|x: u32| #[trigger] in_ranges(ranges, x) <==> lines.contains(x) by {
        assert(sorted.contains(x) <==> lines.contains(x));
    }
    reveal_strlit("-");
    assert("-"@ =~= seq!['-']);
    assert(ranges.map_values(|r: (u32, u32)| run_text(r)) =~= Seq::new(
        ranges.len(),
        |k: int|
            if ranges[k].0 == ranges[k].1 {
                numbers::dec(ranges[k].0 as nat)
            } else {
                numbers::dec(ranges[k].0 as nat) + seq!['-'] + numbers::dec(ranges[k].1 as nat)
            },
    ));
}

/// Line `l` is an anchor of the file, or one or two lines away from one.
pub open spec fn is_near(anchors: Seq<u32>, n: int, l: int) -> bool {
    exists|i: int|
        0 <= i < anchors.len() && 1 <= (#[trigger] anchors[i]) <= n && l - 2 <= anchors[i] <= l + 2
}

/// The numbers of the first `l` lines that are shown.
pub open spec fn near_lines(anchors: Seq<u32>, n: int, l: int) -> Seq<int> {
    Seq::new(l as nat, |i: int| i + 1).filter(|x: int| is_near(anchors, n, x))
}

/// What is shown of the line at a place among those shown: a gap, where lines are left out
/// before it, and then a mark, the number of the line, a colon and the line.
pub open spec fn shown_near(
    anchors: Seq<u32>,
    lines: Seq<Seq<char>>,
    near: Seq<int>,
    k: int,
) -> Seq<Seq<char>> {
    (if k > 0 && near[k] > near[k - 1] + 1 {
        seq![seq!['.', '.', '.']]
    } else {
        seq![]
    }).push(
        (if exists|i: int| 0 <= i < anchors.len() && (#[trigger] anchors[i]) == near[k] {
            seq!['*']
        } else {
            seq![' ']
        }) + numbers::dec(near[k] as nat) + seq![':'] + lines[near[k] - 1],
    )
}

proof fn lemma_context(anchors: Seq<u32>, lines: Seq<Seq<char>>, l: int)
    requires
        0 <= l <= lines.len(),
    ensures
        ({
            let near = near_lines(anchors, lines.len() as int, l);
            let (rows, prev) = context_upto(anchors, lines, l);
            &&& rows == Seq::new(near.len(), |k: int| shown_near(anchors, lines, near, k)).flatten()
            &&& prev == (if near.len() == 0 {
                0
            } else {
                near.last()
            })
            &&& forall|k: int| 0 <= k < near.len() ==> 1 <= #[trigger] near[k] <= l
        }),
    decreases l,
{
    let n = lines.len() as int;
    let near = near_lines(anchors, n, l);
    let pieces = Seq::new(near.len(), |k: int| shown_near(anchors, lines, near, k));
    let p = |x: int| is_near(anchors, n, x);
    reveal(Seq::filter);
    if l == 0 {
        assert(near =~= Seq::empty());
        assert(pieces.flatten() =~= Seq::empty());
    } else {
        lemma_context(anchors, lines, l - 1);
        let before = near_lines(anchors, n, l - 1);
        let all = Seq::new(l as nat, |i: int| i + 1);
        assert(all.drop_last() =~= Seq::new((l - 1) as nat, |i: int| i + 1));
        assert(all.last() == l);
        assert(in_context(anchors, n, l) == is_near(anchors, n, l)) by {
            if in_context(anchors, n, l) {
                let i = choose|i: int|
                    0 <= i < anchors.len() && 1 <= (#[trigger] anchors[i]) <= n && anchors[i]
                        - MISMATCH_CONTEXT <= l <= anchors[i] + MISMATCH_CONTEXT;
                assert(l - 2 <= anchors[i] <= l + 2);
            }
            if is_near(anchors, n, l) {
                let i = choose|i: int|
                    0 <= i < anchors.len() && 1 <= (#[trigger] anchors[i]) <= n && l - 2
                        <= anchors[i] <= l + 2;
                assert(anchors[i] - MISMATCH_CONTEXT <= l <= anchors[i] + MISMATCH_CONTEXT);
            }
        }
        if p(l) {
            assert(near =~= before.push(l));
            let earlier = Seq::new(before.len(), |k: int| shown_near(anchors, lines, before, k));
            assert(pieces.drop_last() =~= earlier) by {
                assert forall|k: int| 0 <= k < before.len() implies pieces[k] == earlier[k] by {
                    assert(near[k] == before[k]);
                    if k > 0 {
                        assert(near[k - 1] == before[k - 1]);
                    }
                }
            }
            pieces.lemma_flatten_and_flatten_alt_are_equivalent();
            earlier.lemma_flatten_and_flatten_alt_are_equivalent();
            reveal_strlit("...");
            reveal_strlit("*");
            reveal_strlit(" ");
            assert("..."@ =~= seq!['.', '.', '.']);
            assert("*"@ =~= seq!['*']);
            assert(" "@ =~= seq![' ']);
            let marker = if is_anchor_line(anchors, l) {
                seq!['*']
            } else {
                seq![' ']
            };
            assert(marker + crate::format::numbered(l as nat, lines[l - 1]) =~= marker
                + numbers::dec(l as nat) + seq![':'] + lines[l - 1]);
            assert(context_upto(anchors, lines, l).0 =~= earlier.flatten() + pieces.last());
        } else {
            assert(near =~= before);
        }
    }
}

/// The context of some anchors shows each anchor of the file and the two lines on either side
/// of it, each line once and in order, behind its number: an anchor is marked with `*`, and
/// `...` stands wherever lines are left out in between.
pub proof fn law_context_shown(anchors: Seq<u32>, lines: Seq<Seq<char>>)
    ensures
        ({
            let near = near_lines(anchors, lines.len() as int, lines.len() as int);
            context_rows(anchors, lines) == Seq::new(
                near.len(),
                |k: int| shown_near(anchors, lines, near, k),
            ).flatten()
        }),
{
    lemma_context(anchors, lines, lines.len() as int);
}

} // verus!
