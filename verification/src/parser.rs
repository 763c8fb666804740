//! Parser: from tokens to edits.
//!
//! A token-driven state machine turns the tokens of a diff body into a flat list of
//! edits. A raw line's treatment depends on what a few patterns say of it, so each
//! token is fed together with those facts.

use std::collections::{HashMap, HashSet};

use vstd::prelude::*;

use crate::engines;
use crate::engines::RegexMatch;
use crate::format::HL_PAYLOAD_REPLACE;
use crate::messages::{
    BARE_BODY_AUTO_PIPED_WARNING, DELETE_BLOCK_TAKES_NO_BODY, DELETE_TAKES_NO_BODY, EMPTY_BLOCK,
    EMPTY_INSERT, MINUS_ROW_REJECTED, MOVE_TAKES_NO_BODY, REM_TAKES_NO_BODY,
};
use crate::numbers;
use crate::patterns;
use crate::prefixes;
use crate::text;
use crate::tokenizer;
use crate::tokenizer::{tokenize, BlockTarget, BlockTargetView, Token, TokenView};
use crate::types;
use crate::types::{
    Anchor, BlockMode, Cursor, Edit, EditView, FileOp, FileOpView, InsertMode, ParsedRange,
};
use crate::views;

pub use crate::sections::{parse_sections, parse_sections_with_options};

verus! {

broadcast use {crate::views::group_all, crate::views::group_texts};

/// Result of parsing a diff body into edits.
pub struct ParseResult {
    pub edits: Vec<Edit>,
    pub warnings: Vec<String>,
    pub file_op: Option<FileOp>,
}

/// The model of a [`ParseResult`].
#[verifier::ext_equal]
pub struct ParseResultView {
    pub edits: Seq<EditView>,
    pub warnings: Seq<Seq<char>>,
    pub file_op: Option<FileOpView>,
}

impl View for ParseResult {
    type V = ParseResultView;

    open spec fn view(&self) -> ParseResultView {
        ParseResultView {
            edits: views::all(self.edits@),
            warnings: views::texts(self.warnings@),
            file_op: types::opt_file_op(self.file_op),
        }
    }
}

// ── Foreign patch formats ────────────────────────────────────────────────

/// The text of a group of a match; empty when there is none.
pub open spec fn group_text(
    found: (Seq<char>, Seq<Option<Seq<char>>>, Seq<char>),
    i: int,
) -> Seq<char> {
    if 0 <= i < found.1.len() && found.1[i] is Some {
        found.1[i]->0
    } else {
        Seq::empty()
    }
}

/// See [`group_text`].
pub fn group_of(m: &RegexMatch, i: usize) -> (r: String)
    ensures
        r@ == group_text((m.before@, engines::opt_texts(m.groups@), m.after@), i as int),
{
    if i < m.groups.len() {
        match &m.groups[i] {
            Some(t) => t.clone(),
            None => String::new(),
        }
    } else {
        String::new()
    }
}

/// A line begins like an `apply_patch` file operation.
pub open spec fn is_sentinel(s: Seq<char>) -> bool {
    text::has_prefix(s, "*** Update File:"@) || text::has_prefix(s, "*** Add File:"@)
        || text::has_prefix(s, "*** Delete File:"@) || text::has_prefix(s, "*** Move to:"@)
}

/// What is wrong with a line that belongs to another patch format; `s` is the line
/// without white space in front, `preview` the start of `s` in quotes, `quoted` all of
/// `s` in quotes, and the others say what the patterns found in `s`.
pub open spec fn contamination(
    s: Seq<char>,
    preview: Seq<char>,
    quoted: Seq<char>,
    unified: bool,
    del_colon: bool,
    number: bool,
    range: Option<(Seq<char>, Seq<Option<Seq<char>>>, Seq<char>)>,
) -> Option<Seq<char>> {
    if s.len() == 0 {
        None
    } else if is_sentinel(s) {
        Some(
            "apply_patch sentinel "@ + preview
                + " is not valid in hashline. File sections start with `[path#HASH]` (no `Update File:` / `Add File:` keyword). Use `SWAP N.=M:`, `DEL N.=M`, or `INS.PRE|POST|HEAD|TAIL:` ops."@,
        )
    } else if unified {
        Some(
            "unified-diff hunk header (`@@ -N,M +N,M @@`) is not valid in hashline. Use `SWAP N.=M:`, `DEL N.=M`, or `INS.PRE|POST|HEAD|TAIL:` ops."@,
        )
    } else if text::has_prefix(s, "@@"@) {
        Some(
            "`@@`-bracketed hunk header "@ + preview
                + " is not valid in hashline. Drop the `@@ ... @@` brackets and write a verb header such as `SWAP N.=M:`."@,
        )
    } else if del_colon {
        Some("`DEL N.=M` has no colon and no body. Remove the colon and body rows."@)
    } else if number {
        Some(
            "hunk headers need a verb. Use `SWAP "@ + s + ".="@ + s + ":` to replace, or `DEL "@ + s
                + "` to delete."@,
        )
    } else {
        match range {
            Some(m) => Some(
                "bare range hunk header "@ + quoted
                    + " is not valid. Hunk headers need a verb: write `SWAP "@ + group_text(m, 1)
                    + ".="@ + group_text(m, 2) + ":` or `DEL "@ + group_text(m, 1) + ".="@
                    + group_text(m, 2) + "`."@,
            ),
            None => None,
        }
    }
}

/// See [`contamination`].
pub fn describe_contamination(
    s: &str,
    preview: &str,
    quoted: &str,
    unified: bool,
    del_colon: bool,
    number: bool,
    range: &Option<RegexMatch>,
) -> (r: Option<String>)
    ensures
        views::opt_text(r) == contamination(
            s@,
            preview@,
            quoted@,
            unified,
            del_colon,
            number,
            engines::match_view(*range),
        ),
{
    if s.is_empty() {
        return None;
    }
    if text::starts_with(s, "*** Update File:") || text::starts_with(s, "*** Add File:")
        || text::starts_with(s, "*** Delete File:") || text::starts_with(s, "*** Move to:") {
        let mut m = text::owned("apply_patch sentinel ");
        m.append(preview);
        m.append(
            " is not valid in hashline. File sections start with `[path#HASH]` (no `Update File:` / `Add File:` keyword). Use `SWAP N.=M:`, `DEL N.=M`, or `INS.PRE|POST|HEAD|TAIL:` ops.",
        );
        return Some(m);
    }
    if unified {
        return Some(
            text::owned(
                "unified-diff hunk header (`@@ -N,M +N,M @@`) is not valid in hashline. Use `SWAP N.=M:`, `DEL N.=M`, or `INS.PRE|POST|HEAD|TAIL:` ops.",
            ),
        );
    }
    if text::starts_with(s, "@@") {
        let mut m = text::owned("`@@`-bracketed hunk header ");
        m.append(preview);
        m.append(
            " is not valid in hashline. Drop the `@@ ... @@` brackets and write a verb header such as `SWAP N.=M:`.",
        );
        return Some(m);
    }
    if del_colon {
        return Some(
            text::owned("`DEL N.=M` has no colon and no body. Remove the colon and body rows."),
        );
    }
    if number {
        let mut m = text::owned("hunk headers need a verb. Use `SWAP ");
        m.append(s);
        m.append(".=");
        m.append(s);
        m.append(":` to replace, or `DEL ");
        m.append(s);
        m.append("` to delete.");
        return Some(m);
    }
    match range {
        Some(found) => {
            let a = group_of(found, 1);
            let b = group_of(found, 2);
            let mut m = text::owned("bare range hunk header ");
            m.append(quoted);
            m.append(" is not valid. Hunk headers need a verb: write `SWAP ");
            m.append(a.as_str());
            m.append(".=");
            m.append(b.as_str());
            m.append(":` or `DEL ");
            m.append(a.as_str());
            m.append(".=");
            m.append(b.as_str());
            m.append("`.");
            Some(m)
        },
        None => None,
    }
}

/// A text cut off behind at most `limit` bytes, with an ellipsis where something is
/// missing.
pub open spec fn elided(s: Seq<char>, limit: nat) -> Seq<char> {
    if numbers::utf8_len(s) > limit {
        numbers::clip(s, limit) + "…"@
    } else {
        s
    }
}

/// See [`elided`].
pub fn elide(s: &str, limit: usize) -> (r: String)
    ensures
        r@ == elided(s@, limit as nat),
{
    let (head, cut) = numbers::clipped(s, limit);
    if cut {
        let mut t = head;
        t.append("…");
        t
    } else {
        text::owned(s)
    }
}

/// What is wrong with a line that belongs to another patch format.
pub open spec fn contamination_of(line: Seq<char>) -> Option<Seq<char>> {
    let s = text::trim_start(line);
    contamination(
        s,
        engines::debug_text(elided(s, 48)),
        engines::debug_text(s),
        engines::found(patterns::UNIFIED_DIFF_HUNK_PATTERN@, s),
        engines::found(patterns::DEL_WITH_COLON_PATTERN@, s),
        engines::found(patterns::BARE_NUMBER_PATTERN@, s),
        engines::regex_search(patterns::BARE_RANGE_PATTERN@, s),
    )
}

// ── Facts about raw lines ────────────────────────────────────────────────

/// What the patterns and the quoting say of a line.
pub struct RawFacts {
    /// What is wrong with the line if it belongs to another patch format.
    pub contamination: Option<String>,
    /// The line in quotes.
    pub quoted: String,
    /// The line without the read-output prefix at its start.
    pub stripped: String,
    /// The line without the prefix is a lone quoted or numeric literal.
    pub literal: bool,
}

/// The model of [`RawFacts`].
#[verifier::ext_equal]
pub struct RawFactsView {
    pub contamination: Option<Seq<char>>,
    pub quoted: Seq<char>,
    pub stripped: Seq<char>,
    pub literal: bool,
}

impl View for RawFacts {
    type V = RawFactsView;

    open spec fn view(&self) -> RawFactsView {
        RawFactsView {
            contamination: views::opt_text(self.contamination),
            quoted: self.quoted@,
            stripped: self.stripped@,
            literal: self.literal,
        }
    }
}

impl RawFacts {
    fn copy(&self) -> (r: RawFacts)
        ensures
            r@ == self@,
    {
        RawFacts {
            contamination: text::clone_opt(&self.contamination),
            quoted: self.quoted.clone(),
            stripped: self.stripped.clone(),
            literal: self.literal,
        }
    }
}

/// The facts about a line.
pub open spec fn facts_of(line: Seq<char>) -> RawFactsView {
    RawFactsView {
        contamination: contamination_of(line),
        quoted: engines::debug_text(line),
        stripped: prefixes::stripped_once(line),
        literal: engines::found(
            patterns::BARE_LITERAL_VALUE_PATTERN@,
            prefixes::stripped_once(line),
        ),
    }
}

/// Find the facts about every line.
pub fn raw_facts(lines: &[String]) -> (r: Vec<RawFacts>)
    ensures
        views::all(r@) == views::texts(lines@).map_values(|l: Seq<char>| facts_of(l)),
{
    let ghost ls = views::texts(lines@);
    let ghost goal = ls.map_values(|l: Seq<char>| facts_of(l));
    let mut heads: Vec<String> = Vec::new();
    let mut stripped: Vec<String> = Vec::new();
    for i in 0..lines.len()
        invariant
            heads@.len() == i,
            stripped@.len() == i,
            forall|j: int| 0 <= j < i ==> (#[trigger] heads@[j])@ == text::trim_start(lines@[j]@),
            forall|j: int|
                0 <= j < i ==> (#[trigger] stripped@[j])@ == prefixes::stripped_once(lines@[j]@),
    {
        heads.push(text::trimmed_start(lines[i].as_str()));
        stripped.push(prefixes::strip_one_leading_hashline_prefix(lines[i].as_str()));
    }
    let unified = engines::regex_find_each(patterns::UNIFIED_DIFF_HUNK_PATTERN, heads.as_slice());
    let del_colon = engines::regex_find_each(patterns::DEL_WITH_COLON_PATTERN, heads.as_slice());
    let number = engines::regex_find_each(patterns::BARE_NUMBER_PATTERN, heads.as_slice());
    let literal = engines::regex_find_each(
        patterns::BARE_LITERAL_VALUE_PATTERN,
        stripped.as_slice(),
    );
    let mut out: Vec<RawFacts> = Vec::new();
    match engines::regex_each(patterns::BARE_RANGE_PATTERN, heads.as_slice()) {
        Ok(ranges) => {
            for i in 0..lines.len()
                invariant
                    ls == views::texts(lines@),
                    goal == ls.map_values(|l: Seq<char>| facts_of(l)),
                    heads@.len() == lines@.len(),
                    stripped@.len() == lines@.len(),
                    unified@.len() == lines@.len(),
                    del_colon@.len() == lines@.len(),
                    number@.len() == lines@.len(),
                    literal@.len() == lines@.len(),
                    ranges@.len() == lines@.len(),
                    forall|j: int|
                        0 <= j < lines@.len() ==> (#[trigger] heads@[j])@ == text::trim_start(
                            lines@[j]@,
                        ),
                    forall|j: int|
                        0 <= j < lines@.len() ==> (#[trigger] stripped@[j])@
                            == prefixes::stripped_once(lines@[j]@),
                    forall|j: int|
                        0 <= j < lines@.len() ==> #[trigger] unified@[j] == engines::found(
                            patterns::UNIFIED_DIFF_HUNK_PATTERN@,
                            heads@[j]@,
                        ),
                    forall|j: int|
                        0 <= j < lines@.len() ==> #[trigger] del_colon@[j] == engines::found(
                            patterns::DEL_WITH_COLON_PATTERN@,
                            heads@[j]@,
                        ),
                    forall|j: int|
                        0 <= j < lines@.len() ==> #[trigger] number@[j] == engines::found(
                            patterns::BARE_NUMBER_PATTERN@,
                            heads@[j]@,
                        ),
                    forall|j: int|
                        0 <= j < lines@.len() ==> #[trigger] literal@[j] == engines::found(
                            patterns::BARE_LITERAL_VALUE_PATTERN@,
                            stripped@[j]@,
                        ),
                    forall|j: int|
                        0 <= j < lines@.len() ==> engines::match_view(#[trigger] ranges@[j])
                            == engines::regex_search(patterns::BARE_RANGE_PATTERN@, heads@[j]@),
                    views::all(out@) == goal.take(i as int),
            {
                let head = heads[i].as_str();
                let cut = elide(head, 48);
                let preview = engines::debug_quoted(cut.as_str());
                let quoted_head = engines::debug_quoted(head);
                let contamination = describe_contamination(
                    head,
                    preview.as_str(),
                    quoted_head.as_str(),
                    unified[i],
                    del_colon[i],
                    number[i],
                    &ranges[i],
                );
                out.push(
                    RawFacts {
                        contamination,
                        quoted: engines::debug_quoted(lines[i].as_str()),
                        stripped: stripped[i].clone(),
                        literal: literal[i],
                    },
                );
                proof {
                    views::lemma_take_step(goal, i as int);
                    assert(heads@[i as int]@ == text::trim_start(lines@[i as int]@));
                    assert(out@.last()@ == facts_of(lines@[i as int]@));
                }
            }
        },
        Err(e) => {},
    }
    proof {
        views::lemma_take_all(goal);
    }
    out
}

// ── The machine's state ──────────────────────────────────────────────────

/// A row of a hunk body.
pub struct PayloadRow {
    pub text: String,
    pub stripped: String,
    pub literal: bool,
    /// The row was written without a `+`.
    pub bare: bool,
}

/// The model of a [`PayloadRow`].
#[verifier::ext_equal]
pub struct PayloadRowView {
    pub text: Seq<char>,
    pub stripped: Seq<char>,
    pub literal: bool,
    pub bare: bool,
}

impl View for PayloadRow {
    type V = PayloadRowView;

    open spec fn view(&self) -> PayloadRowView {
        PayloadRowView {
            text: self.text@,
            stripped: self.stripped@,
            literal: self.literal,
            bare: self.bare,
        }
    }
}

/// A hunk whose body is being read.
pub struct Pending {
    pub target: BlockTarget,
    pub line_num: usize,
    pub payloads: Vec<PayloadRow>,
    /// Blank rows seen after the body started. Interior blanks join the body when the
    /// next row arrives; blanks before the next header are dropped.
    pub deferred: Vec<PayloadRow>,
}

/// The model of a [`Pending`].
#[verifier::ext_equal]
pub struct PendingView {
    pub target: BlockTargetView,
    pub line_num: usize,
    pub payloads: Seq<PayloadRowView>,
    pub deferred: Seq<PayloadRowView>,
}

impl View for Pending {
    type V = PendingView;

    open spec fn view(&self) -> PendingView {
        PendingView {
            target: self.target@,
            line_num: self.line_num,
            payloads: views::all(self.payloads@),
            deferred: views::all(self.deferred@),
        }
    }
}

/// A line outside any hunk that may be a comment.
pub struct Comment {
    pub text: String,
    pub facts: RawFacts,
    pub line_num: usize,
}

/// The model of a [`Comment`].
#[verifier::ext_equal]
pub struct CommentView {
    pub text: Seq<char>,
    pub facts: RawFactsView,
    pub line_num: usize,
}

impl View for Comment {
    type V = CommentView;

    open spec fn view(&self) -> CommentView {
        CommentView { text: self.text@, facts: self.facts@, line_num: self.line_num }
    }
}

/// The state of the parser between two tokens.
pub struct Executor {
    pub edits: Vec<Edit>,
    pub warnings: Vec<String>,
    pub pending: Option<Pending>,
    pub file_op: Option<FileOp>,
    pub terminated: bool,
    /// Comment lines that a hunk header will excuse, and anything else will not.
    pub comments: Vec<Comment>,
}

/// The model of an [`Executor`].
#[verifier::ext_equal]
pub struct ExecutorView {
    pub edits: Seq<EditView>,
    pub warnings: Seq<Seq<char>>,
    pub pending: Option<PendingView>,
    pub file_op: Option<FileOpView>,
    pub terminated: bool,
    pub comments: Seq<CommentView>,
}

/// The model of an optional [`Pending`].
pub open spec fn opt_pending(o: Option<Pending>) -> Option<PendingView> {
    match o {
        Some(p) => Some(p@),
        None => None,
    }
}

impl View for Executor {
    type V = ExecutorView;

    open spec fn view(&self) -> ExecutorView {
        ExecutorView {
            edits: views::all(self.edits@),
            warnings: views::texts(self.warnings@),
            pending: opt_pending(self.pending),
            file_op: types::opt_file_op(self.file_op),
            terminated: self.terminated,
            comments: views::all(self.comments@),
        }
    }
}

// ── Warnings ─────────────────────────────────────────────────────────────

/// A message about line `line_num` of the diff.
pub open spec fn at_line(line_num: usize, message: Seq<char>) -> Seq<char> {
    "line "@ + numbers::dec(line_num as nat) + ": "@ + message
}

/// The state with one more warning.
pub open spec fn warned(st: ExecutorView, line_num: usize, message: Seq<char>) -> ExecutorView {
    ExecutorView { warnings: st.warnings.push(at_line(line_num, message)), ..st }
}

fn warn(warnings: &mut Vec<String>, line_num: usize, message: &str)
    ensures
        views::texts(final(warnings)@) == views::texts(old(warnings)@).push(
            at_line(line_num, message@),
        ),
{
    let mut s = text::owned("line ");
    s.append(numbers::decimal_usize(line_num).as_str());
    s.append(": ");
    s.append(message);
    warnings.push(s);
}

/// The warnings with the one about bare body rows among them.
pub open spec fn piped(warnings: Seq<Seq<char>>) -> Seq<Seq<char>> {
    if warnings.contains(BARE_BODY_AUTO_PIPED_WARNING@) {
        warnings
    } else {
        warnings.push(BARE_BODY_AUTO_PIPED_WARNING@)
    }
}

fn warn_piped(warnings: &mut Vec<String>)
    ensures
        views::texts(final(warnings)@) == piped(views::texts(old(warnings)@)),
{
    if !text::holds_text(warnings.as_slice(), BARE_BODY_AUTO_PIPED_WARNING) {
        warnings.push(text::owned(BARE_BODY_AUTO_PIPED_WARNING));
    }
}

// ── Rows ─────────────────────────────────────────────────────────────────

/// The reason why a target takes no body rows.
pub open spec fn bodyless(target: BlockTargetView) -> Option<Seq<char>> {
    match target {
        BlockTargetView::Delete { .. } => Some(DELETE_TAKES_NO_BODY@),
        BlockTargetView::DeleteBlock { .. } => Some(DELETE_BLOCK_TAKES_NO_BODY@),
        _ => None,
    }
}

fn takes_no_body(target: &BlockTarget) -> (r: Option<&'static str>)
    ensures
        match (r, bodyless(target@)) {
            (Some(a), Some(b)) => a@ == b,
            (None, None) => true,
            _ => false,
        },
{
    match target {
        BlockTarget::Delete { range } => Some(DELETE_TAKES_NO_BODY),
        BlockTarget::DeleteBlock { anchor } => Some(DELETE_BLOCK_TAKES_NO_BODY),
        _ => None,
    }
}

/// The reason why a file operation takes no body rows.
pub open spec fn op_bodyless(op: FileOpView) -> Seq<char> {
    match op {
        FileOpView::Rem => REM_TAKES_NO_BODY@,
        FileOpView::Mv { .. } => MOVE_TAKES_NO_BODY@,
    }
}

fn op_takes_no_body(op: &FileOp) -> (r: &'static str)
    ensures
        r@ == op_bodyless(op@),
{
    match op {
        FileOp::Rem => REM_TAKES_NO_BODY,
        FileOp::Mv { dest } => MOVE_TAKES_NO_BODY,
    }
}

/// A blank row: it matters only inside a body, where it waits for the next row.
pub open spec fn blank_row(st: ExecutorView, line: Seq<char>) -> ExecutorView {
    match st.pending {
        None => st,
        Some(p) => if bodyless(p.target) is Some || p.payloads.len() == 0 {
            st
        } else {
            ExecutorView {
                pending: Some(
                    PendingView {
                        deferred: p.deferred.push(
                            PayloadRowView {
                                text: line,
                                stripped: line,
                                literal: false,
                                bare: true,
                            },
                        ),
                        ..p
                    },
                ),
                ..st
            }
        },
    }
}

fn handle_blank(st: Executor, line: &str) -> (r: Executor)
    ensures
        r@ == blank_row(st@, line@),
{
    let mut st = st;
    match st.pending {
        None => {
            st.pending = None;
            st
        },
        Some(p) => {
            let mut p = p;
            if takes_no_body(&p.target).is_none() && p.payloads.len() > 0 {
                p.deferred.push(
                    PayloadRow {
                        text: text::owned(line),
                        stripped: text::owned(line),
                        literal: false,
                        bare: true,
                    },
                );
            }
            st.pending = Some(p);
            st
        },
    }
}

/// The body with the rows that waited and one more row.
pub open spec fn with_row(p: PendingView, row: PayloadRowView) -> PendingView {
    PendingView {
        payloads: p.payloads + p.deferred.push(row),
        deferred: Seq::empty(),
        ..p
    }
}

fn add_row(p: Pending, row: PayloadRow) -> (r: Pending)
    ensures
        r@ == with_row(p@, row@),
{
    let mut payloads = p.payloads;
    let mut deferred = p.deferred;
    deferred.push(row);
    payloads.append(&mut deferred);
    let r = Pending { target: p.target, line_num: p.line_num, payloads, deferred: Vec::new() };
    proof {
        assert(r@.payloads =~= with_row(p@, row@).payloads);
        assert(r@.deferred =~= Seq::empty());
    }
    r
}

/// A `+` row; `quoted` is the row, with its `+`, in quotes.
pub open spec fn literal_row(
    st: ExecutorView,
    line: Seq<char>,
    quoted: Seq<char>,
    line_num: usize,
) -> ExecutorView {
    match st.pending {
        None => match st.file_op {
            Some(op) => warned(st, line_num, op_bodyless(op)),
            None => warned(
                st,
                line_num,
                "payload line has no preceding hunk header. Got "@ + quoted + "."@,
            ),
        },
        Some(p) => match bodyless(p.target) {
            Some(reason) => warned(st, line_num, reason),
            None => ExecutorView {
                warnings: if p.deferred.len() > 0 {
                    piped(st.warnings)
                } else {
                    st.warnings
                },
                pending: Some(
                    with_row(
                        p,
                        PayloadRowView { text: line, stripped: line, literal: false, bare: false },
                    ),
                ),
                ..st
            },
        },
    }
}

fn handle_literal_payload(st: Executor, line: &str, quoted: &str, line_num: usize) -> (r: Executor)
    ensures
        r@ == literal_row(st@, line@, quoted@, line_num),
{
    let mut st = st;
    match st.pending {
        None => {
            match &st.file_op {
                Some(op) => {
                    warn(&mut st.warnings, line_num, op_takes_no_body(op));
                },
                None => {
                    let mut m = text::owned("payload line has no preceding hunk header. Got ");
                    m.append(quoted);
                    m.append(".");
                    warn(&mut st.warnings, line_num, m.as_str());
                },
            }
            st.pending = None;
            st
        },
        Some(p) => {
            match takes_no_body(&p.target) {
                Some(reason) => {
                    warn(&mut st.warnings, line_num, reason);
                    st.pending = Some(p);
                },
                None => {
                    if p.deferred.len() > 0 {
                        warn_piped(&mut st.warnings);
                    }
                    st.pending = Some(
                        add_row(
                            p,
                            PayloadRow {
                                text: text::owned(line),
                                stripped: text::owned(line),
                                literal: false,
                                bare: false,
                            },
                        ),
                    );
                },
            }
            st
        },
    }
}

/// A raw row: a line of another patch format is refused; inside a body it counts as a
/// row without its `+`; outside it has no place.
pub open spec fn raw_row(
    st: ExecutorView,
    line: Seq<char>,
    facts: RawFactsView,
    line_num: usize,
) -> ExecutorView {
    match facts.contamination {
        Some(message) => warned(st, line_num, message),
        None => match st.file_op {
            Some(op) => warned(st, line_num, op_bodyless(op)),
            None => match st.pending {
                Some(p) => if text::is_blank(line) {
                    blank_row(st, line)
                } else {
                    match bodyless(p.target) {
                        Some(reason) => warned(st, line_num, reason),
                        None => if text::has_prefix(text::trim_start(line), "-"@) {
                            warned(st, line_num, MINUS_ROW_REJECTED@)
                        } else {
                            ExecutorView {
                                warnings: piped(st.warnings),
                                pending: Some(
                                    with_row(
                                        p,
                                        PayloadRowView {
                                            text: line,
                                            stripped: facts.stripped,
                                            literal: facts.literal,
                                            bare: true,
                                        },
                                    ),
                                ),
                                ..st
                            }
                        },
                    }
                },
                None => if text::is_blank(line) {
                    st
                } else {
                    warned(
                        st,
                        line_num,
                        "payload line has no preceding hunk header. Use `SWAP N.=M:`, `DEL N.=M`, or `INS.PRE|POST|HEAD|TAIL:` above the body. Got "@
                            + facts.quoted + "."@,
                    )
                },
            },
        },
    }
}

fn handle_raw(st: Executor, line: &str, facts: &RawFacts, line_num: usize) -> (r: Executor)
    ensures
        r@ == raw_row(st@, line@, facts@, line_num),
{
    let mut st = st;
    match &facts.contamination {
        Some(message) => {
            warn(&mut st.warnings, line_num, message.as_str());
            return st;
        },
        None => {},
    }
    match &st.file_op {
        Some(op) => {
            warn(&mut st.warnings, line_num, op_takes_no_body(op));
            return st;
        },
        None => {},
    }
    if st.pending.is_some() && text::blank(line) {
        return handle_blank(st, line);
    }
    match st.pending {
        Some(p) => {
            match takes_no_body(&p.target) {
                Some(reason) => {
                    warn(&mut st.warnings, line_num, reason);
                    st.pending = Some(p);
                },
                None => {
                    let head = text::trimmed_start(line);
                    if text::starts_with(head.as_str(), "-") {
                        warn(&mut st.warnings, line_num, MINUS_ROW_REJECTED);
                        st.pending = Some(p);
                    } else {
                        warn_piped(&mut st.warnings);
                        st.pending = Some(
                            add_row(
                                p,
                                PayloadRow {
                                    text: text::owned(line),
                                    stripped: facts.stripped.clone(),
                                    literal: facts.literal,
                                    bare: true,
                                },
                            ),
                        );
                    }
                },
            }
            st
        },
        None => {
            st.pending = None;
            if !text::blank(line) {
                let mut m = text::owned(
                    "payload line has no preceding hunk header. Use `SWAP N.=M:`, `DEL N.=M`, or `INS.PRE|POST|HEAD|TAIL:` above the body. Got ",
                );
                m.append(facts.quoted.as_str());
                m.append(".");
                warn(&mut st.warnings, line_num, m.as_str());
            }
            st
        },
    }
}

/// The comment lines read as raw rows after all.
pub open spec fn comments_read(st: ExecutorView, comments: Seq<CommentView>) -> ExecutorView
    decreases comments.len(),
{
    if comments.len() == 0 {
        st
    } else {
        let c = comments.last();
        raw_row(comments_read(st, comments.drop_last()), c.text, c.facts, c.line_num)
    }
}

/// The state once its comment lines are read as raw rows.
pub open spec fn comments_consumed(st: ExecutorView) -> ExecutorView {
    comments_read(ExecutorView { comments: Seq::empty(), ..st }, st.comments)
}

fn consume_pending_skippable_comments(st: Executor) -> (r: Executor)
    ensures
        r@ == comments_consumed(st@),
{
    let mut st = st;
    let comments = st.comments;
    let ghost cs = views::all(comments@);
    st.comments = Vec::new();
    let ghost start = st@;
    proof {
        assert(start.comments =~= Seq::empty());
    }
    for i in 0..comments.len()
        invariant
            cs == views::all(comments@),
            st@ == comments_read(start, cs.take(i as int)),
    {
        proof {
            views::lemma_take_step(cs, i as int);
            assert(cs[i as int] == comments@[i as int]@);
        }
        let c = &comments[i];
        st = handle_raw(st, c.text.as_str(), &c.facts, c.line_num);
    }
    proof {
        views::lemma_take_all(cs);
    }
    st
}

// ── From bodies to edits ─────────────────────────────────────────────────

/// A bare row that is not blank.
pub open spec fn is_bare_text(row: PayloadRowView) -> bool {
    row.bare && !text::is_blank(row.text)
}

/// The body was pasted from read output: every bare row starts with a line number, and
/// not all of them are lone literals behind it.
pub open spec fn uniformly_prefixed(rows: Seq<PayloadRowView>) -> bool {
    &&& forall|i: int|
        0 <= i < rows.len() && is_bare_text(#[trigger] rows[i]) ==> rows[i].stripped
            != rows[i].text
    &&& exists|i: int|
        0 <= i < rows.len() && is_bare_text(#[trigger] rows[i]) && !rows[i].literal
}

/// The texts of a body; line numbers pasted from read output are dropped from its bare
/// rows, if all of them carry one.
pub open spec fn body_texts(rows: Seq<PayloadRowView>) -> Seq<Seq<char>> {
    rows.map_values(
        |row: PayloadRowView|
            if is_bare_text(row) && uniformly_prefixed(rows) {
                row.stripped
            } else {
                row.text
            },
    )
}

fn strip_bare_prefixes_if_uniform(rows: &[PayloadRow]) -> (r: Vec<String>)
    ensures
        views::texts(r@) == body_texts(views::all(rows@)),
{
    let ghost vr = views::all(rows@);
    let mut prefixed = true;
    let mut other = false;
    for i in 0..rows.len()
        invariant
            vr == views::all(rows@),
            prefixed == (forall|j: int|
                0 <= j < i && is_bare_text(#[trigger] vr[j]) ==> vr[j].stripped != vr[j].text),
            other == (exists|j: int|
                0 <= j < i && is_bare_text(#[trigger] vr[j]) && !vr[j].literal),
    {
        let row = &rows[i];
        assert(vr[i as int] == row@);
        let ghost p0 = prefixed;
        let ghost o0 = other;
        if row.bare && !text::blank(row.text.as_str()) {
            assert(is_bare_text(vr[i as int]));
            if row.stripped == row.text {
                prefixed = false;
            }
            if !row.literal {
                other = true;
            }
        }
        proof {
            assert(prefixed == (p0 && (is_bare_text(vr[i as int]) ==> vr[i as int].stripped
                != vr[i as int].text)));
            assert(other == (o0 || (is_bare_text(vr[i as int]) && !vr[i as int].literal)));
        }
    }
    let uniform = prefixed && other;
    assert(uniform == uniformly_prefixed(vr));
    let ghost goal = body_texts(vr);
    let mut out: Vec<String> = Vec::new();
    for i in 0..rows.len()
        invariant
            vr == views::all(rows@),
            goal == body_texts(vr),
            uniform == uniformly_prefixed(vr),
            views::texts(out@) == goal.take(i as int),
    {
        let row = &rows[i];
        proof {
            views::lemma_take_step(goal, i as int);
            assert(vr[i as int] == row@);
        }
        if uniform && row.bare && !text::blank(row.text.as_str()) {
            out.push(row.stripped.clone());
        } else {
            out.push(row.text.clone());
        }
    }
    proof {
        views::lemma_take_all(goal);
    }
    out
}

/// The deletions of the lines of a range; none when it ends before it starts.
pub open spec fn range_deletes(range: ParsedRange) -> Seq<EditView> {
    Seq::new(
        (if range.start <= range.end {
            range.end - range.start + 1
        } else {
            0
        }) as nat,
        |i: int| EditView::Delete { anchor: Anchor { line: (range.start + i) as u32 } },
    )
}

pub(crate) fn push_range_deletes(edits: &mut Vec<Edit>, range: &ParsedRange)
    ensures
        views::all(final(edits)@) == views::all(old(edits)@) + range_deletes(*range),
{
    let ghost start = views::all(edits@);
    let ghost goal = range_deletes(*range);
    if range.start > range.end {
        assert(start + goal =~= start);
        return;
    }
    let mut line: u64 = range.start as u64;
    assert(start + goal.take(0) =~= start);
    while line <= range.end as u64
        invariant
            range.start <= range.end,
            range.start <= line <= range.end + 1,
            goal == range_deletes(*range),
            views::all(edits@) == start + goal.take(line - range.start),
        decreases range.end + 1 - line,
    {
        proof {
            let k = line - range.start;
            assert(start + goal.take(k + 1) =~= (start + goal.take(k)).push(goal[k]));
        }
        edits.push(Edit::Delete { anchor: Anchor { line: line as u32 } });
        line = line + 1;
    }
    proof {
        views::lemma_take_all(goal);
    }
}

/// One insertion per text, all at the same cursor.
pub open spec fn inserts(cursor: Cursor, texts: Seq<Seq<char>>, mode: InsertMode) -> Seq<EditView> {
    texts.map_values(|t: Seq<char>| EditView::Insert { cursor, text: t, mode })
}

pub(crate) fn emit_payload_rows(edits: &mut Vec<Edit>, cursor: Cursor, texts: &[String], mode: InsertMode)
    ensures
        views::all(final(edits)@) == views::all(old(edits)@) + inserts(
            cursor,
            views::texts(texts@),
            mode,
        ),
{
    let ghost start = views::all(edits@);
    let ghost goal = inserts(cursor, views::texts(texts@), mode);
    assert(start + goal.take(0) =~= start);
    for i in 0..texts.len()
        invariant
            goal == inserts(cursor, views::texts(texts@), mode),
            views::all(edits@) == start + goal.take(i as int),
    {
        proof {
            assert(start + goal.take(i + 1) =~= (start + goal.take(i as int)).push(
                goal[i as int],
            ));
            assert(views::texts(texts@)[i as int] == texts@[i as int]@);
        }
        edits.push(Edit::Insert { cursor, text: texts[i].clone(), mode });
    }
    proof {
        views::lemma_take_all(goal);
    }
}

/// The state with a warning if a body is empty.
pub open spec fn warned_if_empty(
    st: ExecutorView,
    line_num: usize,
    texts: Seq<Seq<char>>,
    message: Seq<char>,
) -> ExecutorView {
    if texts.len() == 0 {
        warned(st, line_num, message)
    } else {
        st
    }
}

/// The state with more edits.
pub open spec fn with_edits(st: ExecutorView, more: Seq<EditView>) -> ExecutorView {
    ExecutorView { edits: st.edits + more, ..st }
}

/// The edits of a hunk, given the texts of its body, join the state's.
pub open spec fn emitted(
    st: ExecutorView,
    target: BlockTargetView,
    line_num: usize,
    texts: Seq<Seq<char>>,
) -> ExecutorView {
    match target {
        BlockTargetView::Delete { range } => with_edits(st, range_deletes(range)),
        BlockTargetView::DeleteBlock { anchor } => with_edits(
            st,
            seq![EditView::Block { anchor, payloads: Seq::empty(), mode: BlockMode::Delete }],
        ),
        BlockTargetView::Block { anchor } => with_edits(
            warned_if_empty(st, line_num, texts, EMPTY_BLOCK@),
            seq![EditView::Block { anchor, payloads: texts, mode: BlockMode::Replace }],
        ),
        BlockTargetView::InsertAfterBlock { anchor } => with_edits(
            warned_if_empty(st, line_num, texts, EMPTY_INSERT@),
            seq![EditView::Block { anchor, payloads: texts, mode: BlockMode::InsertAfter }],
        ),
        BlockTargetView::Replace { range } => with_edits(
            st,
            inserts(
                Cursor::BeforeAnchor(Anchor { line: range.start }),
                texts,
                InsertMode::Replacement,
            ) + range_deletes(range),
        ),
        BlockTargetView::InsertBefore { anchor } => with_edits(
            warned_if_empty(st, line_num, texts, EMPTY_INSERT@),
            inserts(Cursor::BeforeAnchor(anchor), texts, InsertMode::Insert),
        ),
        BlockTargetView::InsertAfter { anchor } => with_edits(
            warned_if_empty(st, line_num, texts, EMPTY_INSERT@),
            inserts(Cursor::AfterAnchor(anchor), texts, InsertMode::Insert),
        ),
        BlockTargetView::Bof => with_edits(
            warned_if_empty(st, line_num, texts, EMPTY_INSERT@),
            inserts(Cursor::Bof, texts, InsertMode::Insert),
        ),
        BlockTargetView::Eof => with_edits(
            warned_if_empty(st, line_num, texts, EMPTY_INSERT@),
            inserts(Cursor::Eof, texts, InsertMode::Insert),
        ),
        BlockTargetView::Rem => st,
        BlockTargetView::Move { .. } => st,
    }
}

/// The state once the pending hunk, if any, has become edits.
pub open spec fn flushed(st: ExecutorView) -> ExecutorView {
    match st.pending {
        None => st,
        Some(p) => emitted(
            ExecutorView { pending: None, ..st },
            p.target,
            p.line_num,
            body_texts(p.payloads),
        ),
    }
}

fn flush_pending(st: Executor) -> (r: Executor)
    ensures
        r@ == flushed(st@),
{
    let mut st = st;
    let p = match st.pending {
        None => {
            st.pending = None;
            return st;
        },
        Some(p) => p,
    };
    st.pending = None;
    let texts = strip_bare_prefixes_if_uniform(p.payloads.as_slice());
    let ghost before = st@;
    let ghost ts = views::texts(texts@);
    assert(ts.len() == texts@.len());
    match p.target {
        BlockTarget::Delete { range } => {
            push_range_deletes(&mut st.edits, &range);
        },
        BlockTarget::DeleteBlock { anchor } => {
            let block = Edit::Block { anchor, payloads: Vec::new(), mode: BlockMode::Delete };
            let ghost b = block@;
            st.edits.push(block);
            proof {
                assert(b->payloads =~= Seq::empty());
                assert(st@.edits =~= before.edits + seq![b]);
            }
        },
        BlockTarget::Block { anchor } => {
            if texts.len() == 0 {
                warn(&mut st.warnings, p.line_num, EMPTY_BLOCK);
            }
            let block = Edit::Block { anchor, payloads: texts, mode: BlockMode::Replace };
            let ghost b = block@;
            st.edits.push(block);
            proof {
                assert(st@.edits =~= before.edits + seq![b]);
            }
        },
        BlockTarget::InsertAfterBlock { anchor } => {
            if texts.len() == 0 {
                warn(&mut st.warnings, p.line_num, EMPTY_INSERT);
            }
            let block = Edit::Block { anchor, payloads: texts, mode: BlockMode::InsertAfter };
            let ghost b = block@;
            st.edits.push(block);
            proof {
                assert(st@.edits =~= before.edits + seq![b]);
            }
        },
        BlockTarget::Replace { range } => {
            emit_payload_rows(
                &mut st.edits,
                Cursor::BeforeAnchor(Anchor { line: range.start }),
                texts.as_slice(),
                InsertMode::Replacement,
            );
            push_range_deletes(&mut st.edits, &range);
            proof {
                let ins = inserts(
                    Cursor::BeforeAnchor(Anchor { line: range.start }),
                    ts,
                    InsertMode::Replacement,
                );
                assert(st@.edits =~= before.edits + (ins + range_deletes(range)));
            }
        },
        BlockTarget::InsertBefore { anchor } => {
            if texts.len() == 0 {
                warn(&mut st.warnings, p.line_num, EMPTY_INSERT);
            }
            emit_payload_rows(
                &mut st.edits,
                Cursor::BeforeAnchor(anchor),
                texts.as_slice(),
                InsertMode::Insert,
            );
        },
        BlockTarget::InsertAfter { anchor } => {
            if texts.len() == 0 {
                warn(&mut st.warnings, p.line_num, EMPTY_INSERT);
            }
            emit_payload_rows(
                &mut st.edits,
                Cursor::AfterAnchor(anchor),
                texts.as_slice(),
                InsertMode::Insert,
            );
        },
        BlockTarget::Bof => {
            if texts.len() == 0 {
                warn(&mut st.warnings, p.line_num, EMPTY_INSERT);
            }
            emit_payload_rows(&mut st.edits, Cursor::Bof, texts.as_slice(), InsertMode::Insert);
        },
        BlockTarget::Eof => {
            if texts.len() == 0 {
                warn(&mut st.warnings, p.line_num, EMPTY_INSERT);
            }
            emit_payload_rows(&mut st.edits, Cursor::Eof, texts.as_slice(), InsertMode::Insert);
        },
        BlockTarget::Rem => {},
        BlockTarget::Move { dest } => {},
    }
    st
}

// ── Headers ──────────────────────────────────────────────────────────────

/// The state with a file operation; only one is taken, and `REM` only without edits.
pub open spec fn with_file_op(st: ExecutorView, op: FileOpView, line_num: usize) -> ExecutorView {
    if st.file_op is Some {
        warned(
            st,
            line_num,
            "only one file-level op (`REM` or `MV`) per section. Merge them under one header."@,
        )
    } else if op is Rem && st.edits.len() > 0 {
        warned(st, line_num, REM_TAKES_NO_BODY@)
    } else {
        ExecutorView { file_op: Some(op), ..st }
    }
}

fn set_file_op(st: Executor, op: FileOp, line_num: usize) -> (r: Executor)
    ensures
        r@ == with_file_op(st@, op@, line_num),
{
    let mut st = st;
    assert(st@.edits.len() == st.edits@.len());
    if st.file_op.is_some() {
        warn(
            &mut st.warnings,
            line_num,
            "only one file-level op (`REM` or `MV`) per section. Merge them under one header.",
        );
        return st;
    }
    let rem = match &op {
        FileOp::Rem => true,
        FileOp::Mv { dest } => false,
    };
    if rem && st.edits.len() > 0 {
        warn(&mut st.warnings, line_num, REM_TAKES_NO_BODY);
        return st;
    }
    st.file_op = Some(op);
    st
}

/// The message for a range that ends before it starts.
pub open spec fn range_order_message(range: ParsedRange) -> Seq<char> {
    "range "@ + numbers::dec(range.start as nat) + ".="@ + numbers::dec(range.end as nat)
        + " ends before it starts."@
}

/// The state with a warning if a range ends before it starts.
pub open spec fn range_checked(st: ExecutorView, range: ParsedRange, line_num: usize) -> ExecutorView {
    if range.end < range.start {
        warned(st, line_num, range_order_message(range))
    } else {
        st
    }
}

fn validate_range_order(warnings: &mut Vec<String>, range: &ParsedRange, line_num: usize)
    ensures
        views::texts(final(warnings)@) == (if range.end < range.start {
            views::texts(old(warnings)@).push(at_line(line_num, range_order_message(*range)))
        } else {
            views::texts(old(warnings)@)
        }),
{
    if range.end < range.start {
        let mut s = text::owned("range ");
        s.append(numbers::decimal(range.start as u64).as_str());
        s.append(".=");
        s.append(numbers::decimal(range.end as u64).as_str());
        s.append(" ends before it starts.");
        warn(warnings, line_num, s.as_str());
    }
}

/// The state with a warning if the file is to be removed: `REM` takes no line edits.
pub open spec fn removal_checked(st: ExecutorView, line_num: usize) -> ExecutorView {
    if st.file_op == Some(FileOpView::Rem) {
        warned(st, line_num, REM_TAKES_NO_BODY@)
    } else {
        st
    }
}

/// A hunk header: the hunk before it is done; `REM` and `MV` take effect at once, any
/// other header opens a hunk.
pub open spec fn header_row(
    st: ExecutorView,
    target: BlockTargetView,
    line_num: usize,
) -> ExecutorView {
    let checked = match target {
        BlockTargetView::Replace { range } => range_checked(st, range, line_num),
        BlockTargetView::Delete { range } => range_checked(st, range, line_num),
        _ => st,
    };
    let done = flushed(checked);
    match target {
        BlockTargetView::Rem => with_file_op(done, FileOpView::Rem, line_num),
        BlockTargetView::Move { dest } => with_file_op(done, FileOpView::Mv { dest }, line_num),
        _ => ExecutorView {
            pending: Some(
                PendingView {
                    target,
                    line_num,
                    payloads: Seq::empty(),
                    deferred: Seq::empty(),
                },
            ),
            ..removal_checked(done, line_num)
        },
    }
}

fn handle_hunk_header(st: Executor, target: &BlockTarget, line_num: usize) -> (r: Executor)
    ensures
        r@ == header_row(st@, target@, line_num),
{
    let mut st = st;
    match target {
        BlockTarget::Replace { range } => {
            validate_range_order(&mut st.warnings, range, line_num);
        },
        BlockTarget::Delete { range } => {
            validate_range_order(&mut st.warnings, range, line_num);
        },
        _ => {},
    }
    let mut done = flush_pending(st);
    match target {
        BlockTarget::Rem => set_file_op(done, FileOp::Rem, line_num),
        BlockTarget::Move { dest } => set_file_op(done, FileOp::Mv { dest: dest.clone() }, line_num),
        _ => {
            let p = Pending {
                target: target.copy(),
                line_num,
                payloads: Vec::new(),
                deferred: Vec::new(),
            };
            proof {
                assert(p@.payloads =~= Seq::empty());
                assert(p@.deferred =~= Seq::empty());
            }
            let removed = match &done.file_op {
                Some(FileOp::Rem) => true,
                _ => false,
            };
            if removed {
                warn(&mut done.warnings, line_num, REM_TAKES_NO_BODY);
            }
            done.pending = Some(p);
            done
        },
    }
}

// ── Feeding tokens ───────────────────────────────────────────────────────

/// A line whose first character is `#`, apart from white space in front.
pub open spec fn is_comment(line: Seq<char>) -> bool {
    text::has_prefix(text::trim_start(line), "#"@)
}

fn is_skippable_comment_line(line: &str) -> (r: bool)
    ensures
        r == is_comment(line@),
{
    let head = text::trimmed_start(line);
    text::starts_with(head.as_str(), "#")
}

/// The state after a token, given the facts about its line.
pub open spec fn fed(st: ExecutorView, token: TokenView, facts: RawFactsView) -> ExecutorView {
    if st.terminated {
        st
    } else {
        match token {
            TokenView::EnvelopeBegin { .. } => comments_consumed(st),
            TokenView::EnvelopeEnd { .. } => ExecutorView {
                terminated: true,
                ..comments_consumed(st)
            },
            TokenView::Abort { .. } => ExecutorView { terminated: true, ..st },
            TokenView::SectionHeader { .. } => flushed(comments_consumed(st)),
            TokenView::Blank { .. } => blank_row(comments_consumed(st), Seq::empty()),
            TokenView::BodyRow { line_num, text } => literal_row(
                comments_consumed(st),
                text,
                facts.quoted,
                line_num,
            ),
            TokenView::Raw { line_num, text } => if st.pending is None && is_comment(text) {
                ExecutorView {
                    comments: st.comments.push(CommentView { text, facts, line_num }),
                    ..st
                }
            } else {
                raw_row(comments_consumed(st), text, facts, line_num)
            },
            TokenView::HunkHeader { line_num, target } => header_row(
                ExecutorView { comments: Seq::empty(), ..st },
                target,
                line_num,
            ),
        }
    }
}

fn feed(st: Executor, token: &Token, facts: &RawFacts) -> (r: Executor)
    ensures
        r@ == fed(st@, token@, facts@),
{
    if st.terminated {
        return st;
    }
    match token {
        Token::EnvelopeBegin { line_num } => consume_pending_skippable_comments(st),
        Token::EnvelopeEnd { line_num } => {
            let mut st = consume_pending_skippable_comments(st);
            st.terminated = true;
            st
        },
        Token::Abort { line_num } => {
            let mut st = st;
            st.terminated = true;
            st
        },
        Token::SectionHeader { line_num, path, file_hash } => flush_pending(
            consume_pending_skippable_comments(st),
        ),
        Token::Blank { line_num } => {
            let empty = String::new();
            handle_blank(consume_pending_skippable_comments(st), empty.as_str())
        },
        Token::BodyRow { line_num, text } => handle_literal_payload(
            consume_pending_skippable_comments(st),
            text.as_str(),
            facts.quoted.as_str(),
            *line_num,
        ),
        Token::Raw { line_num, text } => {
            if st.pending.is_none() && is_skippable_comment_line(text.as_str()) {
                let mut st = st;
                st.comments.push(
                    Comment { text: text.clone(), facts: facts.copy(), line_num: *line_num },
                );
                st
            } else {
                handle_raw(
                    consume_pending_skippable_comments(st),
                    text.as_str(),
                    facts,
                    *line_num,
                )
            }
        },
        Token::HunkHeader { line_num, target } => {
            let mut st = st;
            st.comments = Vec::new();
            proof {
                assert(st@.comments =~= Seq::empty());
            }
            handle_hunk_header(st, target, *line_num)
        },
    }
}

/// The state before the first token.
pub open spec fn initial() -> ExecutorView {
    ExecutorView {
        edits: Seq::empty(),
        warnings: Seq::empty(),
        pending: None,
        file_op: None,
        terminated: false,
        comments: Seq::empty(),
    }
}

/// The state after a list of tokens.
pub open spec fn fed_all(tokens: Seq<TokenView>, facts: Seq<RawFactsView>) -> ExecutorView
    decreases tokens.len(),
{
    if tokens.len() == 0 {
        initial()
    } else {
        fed(fed_all(tokens.drop_last(), facts.drop_last()), tokens.last(), facts.last())
    }
}

// ── Overlapping deletes ──────────────────────────────────────────────────

/// Which lines a list of edits deletes: where each is deleted first, which are deleted
/// more than once, and the warnings about those.
#[verifier::ext_equal]
pub struct OverlapView {
    pub first: Map<u32, usize>,
    pub twice: Set<u32>,
    pub warnings: Seq<Seq<char>>,
}

/// The warning about a line that two edits delete, named by their positions.
pub open spec fn overlap_warning(second: usize, first: usize) -> Seq<char> {
    at_line(
        second,
        "anchor line is already targeted by another hunk on line "@ + numbers::dec(first as nat)
            + ". Issue ONE hunk per range; payload is only the final desired content, never a before/after pair."@,
    )
}

/// See [`OverlapView`].
pub open spec fn overlaps(edits: Seq<EditView>) -> OverlapView
    decreases edits.len(),
{
    if edits.len() == 0 {
        OverlapView { first: Map::empty(), twice: Set::empty(), warnings: Seq::empty() }
    } else {
        let before = overlaps(edits.drop_last());
        let i = (edits.len() - 1) as usize;
        match edits.last() {
            EditView::Delete { anchor } => if !before.first.dom().contains(anchor.line) {
                OverlapView { first: before.first.insert(anchor.line, i), ..before }
            } else if !before.twice.contains(anchor.line) {
                OverlapView {
                    twice: before.twice.insert(anchor.line),
                    warnings: before.warnings.push(overlap_warning(i, before.first[anchor.line])),
                    ..before
                }
            } else {
                before
            },
            _ => before,
        }
    }
}

fn validate_no_overlapping_deletes(edits: &[Edit], warnings: &mut Vec<String>)
    ensures
        views::texts(final(warnings)@) == views::texts(old(warnings)@) + overlaps(
            views::all(edits@),
        ).warnings,
{
    broadcast use vstd::std_specs::hash::group_hash_axioms;

    let ghost start = views::texts(warnings@);
    let ghost ve = views::all(edits@);
    let mut first: HashMap<u32, usize> = HashMap::new();
    let mut twice: HashSet<u32> = HashSet::new();
    assert(start + Seq::<Seq<char>>::empty() =~= start);
    for i in 0..edits.len()
        invariant
            ve == views::all(edits@),
            first@ == overlaps(ve.take(i as int)).first,
            twice@ == overlaps(ve.take(i as int)).twice,
            views::texts(warnings@) == start + overlaps(ve.take(i as int)).warnings,
    {
        broadcast use vstd::std_specs::hash::group_hash_axioms;

        proof {
            views::lemma_take_step(ve, i as int);
            assert(ve[i as int] == edits@[i as int]@);
        }
        match &edits[i] {
            Edit::Delete { anchor } => {
                let line = anchor.line;
                match first.get(&line) {
                    None => {
                        first.insert(line, i);
                    },
                    Some(at) => {
                        let at: usize = *at;
                        if !twice.contains(&line) {
                            twice.insert(line);
                            let mut m = text::owned(
                                "anchor line is already targeted by another hunk on line ",
                            );
                            m.append(numbers::decimal_usize(at).as_str());
                            m.append(
                                ". Issue ONE hunk per range; payload is only the final desired content, never a before/after pair.",
                            );
                            let ghost got = overlaps(ve.take(i as int)).warnings;
                            warn(warnings, i, m.as_str());
                            proof {
                                assert((start + got).push(overlap_warning(i, at)) =~= start
                                    + got.push(overlap_warning(i, at)));
                            }
                        }
                    },
                }
            },
            _ => {},
        }
    }
    proof {
        views::lemma_take_all(ve);
    }
}

// ── The result ───────────────────────────────────────────────────────────

/// The result once all tokens are fed.
pub open spec fn ended(st: ExecutorView) -> ParseResultView {
    let done = flushed(comments_consumed(st));
    ParseResultView {
        edits: done.edits,
        warnings: done.warnings + overlaps(done.edits).warnings,
        file_op: done.file_op,
    }
}

fn end(st: Executor) -> (r: ParseResult)
    ensures
        r@ == ended(st@),
{
    let done = flush_pending(consume_pending_skippable_comments(st));
    let mut warnings = done.warnings;
    validate_no_overlapping_deletes(done.edits.as_slice(), &mut warnings);
    ParseResult { edits: done.edits, warnings, file_op: done.file_op }
}

/// Parse tokens with the facts about their lines.
pub fn parse_tokens(tokens: &[Token], facts: &[RawFacts]) -> (r: ParseResult)
    requires
        tokens@.len() == facts@.len(),
    ensures
        r@ == ended(fed_all(views::all(tokens@), views::all(facts@))),
{
    let ghost vt = views::all(tokens@);
    let ghost vf = views::all(facts@);
    let mut st = Executor {
        edits: Vec::new(),
        warnings: Vec::new(),
        pending: None,
        file_op: None,
        terminated: false,
        comments: Vec::new(),
    };
    proof {
        assert(st@ =~= initial());
    }
    for i in 0..tokens.len()
        invariant
            tokens@.len() == facts@.len(),
            vt == views::all(tokens@),
            vf == views::all(facts@),
            st@ == fed_all(vt.take(i as int), vf.take(i as int)),
    {
        proof {
            views::lemma_take_step(vt, i as int);
            views::lemma_take_step(vf, i as int);
            assert(vt[i as int] == tokens@[i as int]@);
            assert(vf[i as int] == facts@[i as int]@);
        }
        st = feed(st, &tokens[i], &facts[i]);
    }
    proof {
        views::lemma_take_all(vt);
        views::lemma_take_all(vf);
    }
    end(st)
}

/// The line a token's facts are about: a raw line, or a body row with its `+`.
pub open spec fn fact_line(token: TokenView) -> Seq<char> {
    match token {
        TokenView::Raw { text, .. } => text,
        TokenView::BodyRow { text, .. } => seq![HL_PAYLOAD_REPLACE] + text,
        _ => Seq::empty(),
    }
}

/// The facts about the lines of tokens.
pub open spec fn token_facts(tokens: Seq<TokenView>) -> Seq<RawFactsView> {
    tokens.map_values(|t: TokenView| facts_of(fact_line(t)))
}

fn fact_lines(tokens: &[Token]) -> (r: Vec<String>)
    ensures
        views::texts(r@) == views::all(tokens@).map_values(|t: TokenView| fact_line(t)),
{
    let ghost vt = views::all(tokens@);
    let ghost goal = vt.map_values(|t: TokenView| fact_line(t));
    let mut out: Vec<String> = Vec::new();
    for i in 0..tokens.len()
        invariant
            vt == views::all(tokens@),
            goal == vt.map_values(|t: TokenView| fact_line(t)),
            views::texts(out@) == goal.take(i as int),
    {
        proof {
            views::lemma_take_step(goal, i as int);
            assert(vt[i as int] == tokens@[i as int]@);
        }
        let line = match &tokens[i] {
            Token::Raw { line_num, text } => text.clone(),
            Token::BodyRow { line_num, text } => {
                let mut s = String::new();
                s.push(HL_PAYLOAD_REPLACE);
                proof {
                    assert(s@ =~= seq![HL_PAYLOAD_REPLACE]);
                }
                s.append(text.as_str());
                s
            },
            _ => String::new(),
        };
        assert(line@ =~= goal[i as int]);
        out.push(line);
    }
    proof {
        views::lemma_take_all(goal);
    }
    out
}

/// The result of parsing a diff body.
pub open spec fn parsed(diff: Seq<char>) -> ParseResultView {
    let tokens = tokenizer::tokens(diff);
    ended(fed_all(tokens, token_facts(tokens)))
}

/// Parse a diff body (no section header) into a flat list of edits.
pub fn parse_patch(diff: &str) -> (r: ParseResult)
    ensures
        r@ == parsed(diff@),
{
    let tokens = tokenize(diff);
    let lines = fact_lines(tokens.as_slice());
    let facts = raw_facts(lines.as_slice());
    proof {
        let vt = views::all(tokens@);
        assert(views::all(facts@) =~= token_facts(vt));
        assert(facts@.len() == views::all(facts@).len());
        assert(tokens@.len() == vt.len());
    }
    parse_tokens(tokens.as_slice(), facts.as_slice())
}

// ── Laws ─────────────────────────────────────────────────────────────────

/// An edit deletes a line.
pub open spec fn deletes(e: EditView, line: u32) -> bool {
    e matches EditView::Delete { anchor } && anchor.line == line
}

/// Two of the edits delete one line.
pub open spec fn deleted_twice(edits: Seq<EditView>, line: u32) -> bool {
    exists|i: int, j: int|
        0 <= i < j < edits.len() && #[trigger] deletes(edits[i], line) && #[trigger] deletes(
            edits[j],
            line,
        )
}

proof fn lemma_overlaps(edits: Seq<EditView>, line: u32)
    ensures
        overlaps(edits).first.dom().contains(line) <==> exists|i: int|
            0 <= i < edits.len() && #[trigger] deletes(edits[i], line),
        overlaps(edits).twice.contains(line) <==> deleted_twice(edits, line),
    decreases edits.len(),
{
    if edits.len() > 0 {
        let rest = edits.drop_last();
        let n = edits.len() - 1;
        lemma_overlaps(rest, line);
        if overlaps(rest).first.dom().contains(line) {
            let i = choose|i: int| 0 <= i < rest.len() && #[trigger] deletes(rest[i], line);
            assert(deletes(edits[i], line));
            if deletes(edits[n], line) {
                assert(deletes(edits[i], line) && deletes(edits[n], line));
            }
        }
        if overlaps(rest).twice.contains(line) {
            let (i, j) = choose|i: int, j: int|
                0 <= i < j < rest.len() && #[trigger] deletes(rest[i], line) && #[trigger] deletes(
                    rest[j],
                    line,
                );
            assert(deletes(edits[i], line) && deletes(edits[j], line));
        }
        if deleted_twice(edits, line) && !deletes(edits[n], line) {
            let (i, j) = choose|i: int, j: int|
                0 <= i < j < edits.len() && #[trigger] deletes(edits[i], line)
                    && #[trigger] deletes(edits[j], line);
            assert(deletes(rest[i], line) && deletes(rest[j], line));
        }
        if deleted_twice(edits, line) && deletes(edits[n], line) {
            let (i, j) = choose|i: int, j: int|
                0 <= i < j < edits.len() && #[trigger] deletes(edits[i], line)
                    && #[trigger] deletes(edits[j], line);
            assert(deletes(rest[i], line));
        }
        if exists|i: int| 0 <= i < edits.len() && #[trigger] deletes(edits[i], line) {
            let i = choose|i: int| 0 <= i < edits.len() && #[trigger] deletes(edits[i], line);
            if i < n {
                assert(deletes(rest[i], line));
            }
        }
        if deletes(edits[n], line) {
            assert(0 <= n < edits.len() && deletes(edits[n], line));
        }
    }
}

proof fn lemma_warned_if_twice(edits: Seq<EditView>)
    ensures
        overlaps(edits).warnings.len() > 0 <==> exists|line: u32| #[trigger]
            overlaps(edits).twice.contains(line),
    decreases edits.len(),
{
    if edits.len() > 0 {
        lemma_warned_if_twice(edits.drop_last());
        let before = overlaps(edits.drop_last());
        let after = overlaps(edits);
        if exists|line: u32| #[trigger] before.twice.contains(line) {
            let line = choose|line: u32| #[trigger] before.twice.contains(line);
            assert(after.twice.contains(line));
        }
        match edits.last() {
            EditView::Delete { anchor } => {
                if before.first.dom().contains(anchor.line) {
                    assert(after.twice.contains(anchor.line));
                }
            },
            _ => {},
        }
        if exists|line: u32| #[trigger] after.twice.contains(line) {
            let line = choose|line: u32| #[trigger] after.twice.contains(line);
            if after.twice == before.twice {
                assert(before.twice.contains(line));
            }
        }
    }
}

/// Overlapping hunks are warned about: there is a warning if and only if two edits delete
/// one line.
pub proof fn law_overlaps_warned(edits: Seq<EditView>)
    ensures
        overlaps(edits).warnings.len() > 0 <==> exists|line: u32| #[trigger]
            deleted_twice(edits, line),
{
    lemma_warned_if_twice(edits);
    if exists|line: u32| #[trigger] overlaps(edits).twice.contains(line) {
        let line = choose|line: u32| #[trigger] overlaps(edits).twice.contains(line);
        lemma_overlaps(edits, line);
    }
    if exists|line: u32| #[trigger] deleted_twice(edits, line) {
        let line = choose|line: u32| #[trigger] deleted_twice(edits, line);
        lemma_overlaps(edits, line);
        assert(overlaps(edits).twice.contains(line));
    }
}

} // verus!
