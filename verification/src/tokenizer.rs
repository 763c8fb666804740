//! Tokenizer: a line-oriented classifier for hashline diff text.
//!
//! Format shape:
//! ```text
//! [path/to/file.ts#1A2B]
//! SWAP 5.=7:
//! +literal new line
//! ```

use vstd::prelude::*;

use crate::engines;
use crate::errors::PatchError;
use crate::format::{
    HL_DELETE_BLOCK_KEYWORD, HL_DELETE_KEYWORD, HL_FILE_HASH_SEP, 
    HL_HEADER_COLON, HL_INSERT_AFTER, HL_INSERT_AFTER_BLOCK_KEYWORD, HL_INSERT_BEFORE,
    HL_INSERT_HEAD, HL_INSERT_KEYWORD, HL_INSERT_TAIL, HL_MOVE_KEYWORD, HL_PAYLOAD_REPLACE,
    HL_REM_KEYWORD, HL_REPLACE_BLOCK_KEYWORD, HL_REPLACE_KEYWORD,
};
use crate::numbers;
use crate::text;
use crate::types::{Anchor, Cursor, ParsedRange};
use crate::views;

verus! {

broadcast use {crate::views::group_all, crate::views::group_texts};

/// The envelope start marker.
pub const BEGIN_PATCH_MARKER: &'static str = "*** Begin Patch";

/// The envelope end marker.
pub const END_PATCH_MARKER: &'static str = "*** End Patch";

/// The truncation sentinel.
pub const ABORT_MARKER: &'static str = "*** Abort";

// ── White space ──────────────────────────────────────────────────────────

/// The first position from `i` on that is not ASCII white space.
pub open spec fn skip(s: Seq<char>, i: int) -> int
    decreases s.len() - i,
{
    if 0 <= i < s.len() && text::is_ascii_white(s[i]) {
        skip(s, i + 1)
    } else {
        i
    }
}

fn skip_whitespace(s: &[char], index: usize) -> (r: usize)
    requires
        index <= s@.len(),
    ensures
        r == skip(s@, index as int),
        index <= r <= s@.len(),
{
    let mut i: usize = index;
    while i < s.len() && text::ascii_white(s[i])
        invariant
            index <= i <= s@.len(),
            skip(s@, i as int) == skip(s@, index as int),
        decreases s@.len() - i,
    {
        i = i + 1;
    }
    i
}

/// A line without the ASCII white space at its end.
pub open spec fn trim_ascii(s: Seq<char>) -> Seq<char>
    decreases s.len(),
{
    if s.len() > 0 && text::is_ascii_white(s.last()) {
        trim_ascii(s.drop_last())
    } else {
        s
    }
}

fn trimmed_chars(line: &str) -> (r: Vec<char>)
    ensures
        r@ == trim_ascii(line@),
{
    let mut v = text::chars_of(line);
    while v.len() > 0 && text::ascii_white(v[v.len() - 1])
        invariant
            trim_ascii(v@) == trim_ascii(line@),
        decreases v@.len(),
    {
        proof {
            assert(v@.subrange(0, v@.len() - 1) =~= v@.drop_last());
        }
        let _ = v.pop();
    }
    v
}

// ── Line splitting ───────────────────────────────────────────────────────

/// The lines of a diff: `\n` ends a line, a carriage return at the end of a line does
/// not belong to it, and a final `\n` begins no line. An empty text is one empty line.
pub open spec fn diff_lines(s: Seq<char>) -> Seq<Seq<char>> {
    let ls = text::lines(s);
    let kept = if s.len() > 0 && ls.last().len() == 0 {
        ls.drop_last()
    } else {
        ls
    };
    kept.map_values(|l: Seq<char>| text::strip_cr(l))
}

/// Split text into hashline lines. See [`diff_lines`].
pub fn split_hashline_lines(text: &str) -> (r: Vec<String>)
    ensures
        views::texts(r@) == diff_lines(text@),
{
    let mut ls = crate::text::lines_of(text);
    let n: usize = ls.len();
    proof {
        assert(views::texts(ls@).last() == ls@.last()@);
    }
    if !text.is_empty() && ls[n - 1].as_str().is_empty() {
        proof {
            views::lemma_texts_drop_last(ls@);
        }
        let _ = ls.pop();
    }
    let ghost goal = diff_lines(text@);
    let mut out: Vec<String> = Vec::new();
    for i in 0..ls.len()
        invariant
            goal == views::texts(ls@).map_values(|l: Seq<char>| crate::text::strip_cr(l)),
            views::texts(out@) == goal.take(i as int),
    {
        proof {
            views::lemma_take_step(goal, i as int);
            assert(views::texts(ls@)[i as int] == ls@[i as int]@);
        }
        out.push(crate::text::without_cr(ls[i].as_str()));
    }
    proof {
        views::lemma_take_all(goal);
    }
    out
}

/// Copy a cursor.
pub fn clone_cursor(cursor: &Cursor) -> (r: Cursor)
    ensures
        r == *cursor,
{
    *cursor
}

// ── Numbers and ranges ───────────────────────────────────────────────────

/// The end of the run of digits from `i` on.
pub open spec fn digits_end(s: Seq<char>, i: int) -> int
    decreases s.len() - i,
{
    if 0 <= i < s.len() && text::is_digit(s[i]) {
        digits_end(s, i + 1)
    } else {
        i
    }
}

/// A bare line number at `i`, without leading zeros and within 32 bits: its value, and
/// the position behind it.
pub open spec fn line_number(s: Seq<char>, i: int) -> Option<(u32, int)> {
    if !(0 <= i < s.len()) || !text::is_nonzero_digit(s[i]) {
        None
    } else {
        let end = digits_end(s, i);
        match numbers::parse_unsigned(s.subrange(i, end), 10, u32::MAX as int) {
            Some(n) => Some((n as u32, end)),
            None => None,
        }
    }
}

fn scan_line_number(s: &[char], index: usize) -> (r: Option<(u32, usize)>)
    ensures
        match (r, line_number(s@, index as int)) {
            (Some(a), Some(b)) => a.0 == b.0 && a.1 == b.1 && index < a.1 <= s@.len(),
            (None, None) => true,
            _ => false,
        },
{
    if index >= s.len() || !text::nonzero_digit(s[index]) {
        return None;
    }
    let mut i: usize = index;
    while i < s.len() && text::digit(s[i])
        invariant
            index <= i <= s@.len(),
            index < s@.len(),
            text::is_digit(s@[index as int]),
            digits_end(s@, i as int) == digits_end(s@, index as int),
        decreases s@.len() - i,
    {
        i = i + 1;
    }
    let digits = text::string_of(s, index, i);
    match numbers::read_u32(digits.as_str()) {
        Some(n) => Some((n, i)),
        None => None,
    }
}

/// The end of a range separator from `i` on: white space, `-`, the ellipsis, `..` and
/// `.=`, repeated and mixed.
pub open spec fn separator_end(s: Seq<char>, i: int) -> int
    decreases s.len() - i,
{
    if !(0 <= i < s.len()) {
        i
    } else if text::is_ascii_white(s[i]) || s[i] == '-' || s[i] == '\u{2026}' {
        separator_end(s, i + 1)
    } else if s[i] == '.' && i + 1 < s.len() && (s[i + 1] == '.' || s[i + 1] == '=') {
        separator_end(s, i + 2)
    } else {
        i
    }
}

/// Where the second number of a range begins, behind a separator at `i`.
pub open spec fn after_separator(s: Seq<char>, i: int) -> Option<int> {
    let end = separator_end(s, i);
    if end > i && end < s.len() && text::is_nonzero_digit(s[end]) {
        Some(end)
    } else {
        None
    }
}

fn scan_range_separator(s: &[char], index: usize) -> (r: Option<usize>)
    requires
        index <= s@.len(),
    ensures
        match (r, after_separator(s@, index as int)) {
            (Some(a), Some(b)) => a == b && a <= s@.len(),
            (None, None) => true,
            _ => false,
        },
{
    let n: usize = s.len();
    let mut i: usize = index;
    let mut more = true;
    while more && i < n
        invariant
            n == s@.len(),
            index <= i <= n,
            more ==> separator_end(s@, i as int) == separator_end(s@, index as int),
            !more ==> i == separator_end(s@, index as int),
        decreases n - i, (if more { 1int } else { 0int }),
    {
        let c = s[i];
        if text::ascii_white(c) || c == '-' || c == '\u{2026}' {
            i = i + 1;
        } else if c == '.' && n - i > 1 && (s[i + 1] == '.' || s[i + 1] == '=') {
            i = i + 2;
        } else {
            more = false;
        }
    }
    if i > index && i < n && text::nonzero_digit(s[i]) {
        Some(i)
    } else {
        None
    }
}

/// A header range at `i`: `N`, or two numbers with a separator between them. A bare `N`
/// is the range of that line. With the range comes the position behind it and behind
/// the white space that follows.
pub open spec fn header_range(s: Seq<char>, i: int) -> Option<(ParsedRange, int)> {
    match line_number(s, skip(s, i)) {
        None => None,
        Some((start, after)) => match after_separator(s, after) {
            None => Some((ParsedRange { start, end: start }, skip(s, after))),
            Some(second) => match line_number(s, second) {
                None => None,
                Some((end, behind)) => Some((ParsedRange { start, end }, skip(s, behind))),
            },
        },
    }
}

fn scan_header_range(s: &[char], index: usize) -> (r: Option<(ParsedRange, usize)>)
    requires
        index <= s@.len(),
    ensures
        match (r, header_range(s@, index as int)) {
            (Some(a), Some(b)) => a.0 == b.0 && a.1 == b.1 && a.1 <= s@.len(),
            (None, None) => true,
            _ => false,
        },
{
    match scan_line_number(s, skip_whitespace(s, index)) {
        None => None,
        Some((start, after)) => match scan_range_separator(s, after) {
            None => Some((ParsedRange { start, end: start }, skip_whitespace(s, after))),
            Some(second) => match scan_line_number(s, second) {
                None => None,
                Some((end, behind)) => Some(
                    (ParsedRange { start, end }, skip_whitespace(s, behind)),
                ),
            },
        },
    }
}

// ── Block targets ────────────────────────────────────────────────────────

/// A parsed hunk target: the operation a hunk header describes, resolved down to
/// anchors and ranges but not yet turned into edits.
#[derive(Debug, Clone, PartialEq, Eq)]
pub enum BlockTarget {
    /// `SWAP N.=M:`, replace a range with a body.
    Replace { range: ParsedRange },
    /// `SWAP.BLK N:`, replace a block.
    Block { anchor: Anchor },
    /// `DEL N.=M`, delete a range.
    Delete { range: ParsedRange },
    /// `DEL.BLK N`, delete a block.
    DeleteBlock { anchor: Anchor },
    /// `INS.PRE N:`, insert before line N.
    InsertBefore { anchor: Anchor },
    /// `INS.POST N:`, insert after line N.
    InsertAfter { anchor: Anchor },
    /// `INS.BLK.POST N:`, insert after the last line of a block.
    InsertAfterBlock { anchor: Anchor },
    /// `REM`, remove the whole file.
    Rem,
    /// `MV dest`, move or rename the file.
    Move { dest: String },
    /// `INS.HEAD:`, insert at the beginning of the file.
    Bof,
    /// `INS.TAIL:`, insert at the end of the file.
    Eof,
}

/// The model of a [`BlockTarget`].
#[verifier::ext_equal]
pub enum BlockTargetView {
    Replace { range: ParsedRange },
    Block { anchor: Anchor },
    Delete { range: ParsedRange },
    DeleteBlock { anchor: Anchor },
    InsertBefore { anchor: Anchor },
    InsertAfter { anchor: Anchor },
    InsertAfterBlock { anchor: Anchor },
    Rem,
    Move { dest: Seq<char> },
    Bof,
    Eof,
}

impl View for BlockTarget {
    type V = BlockTargetView;

    open spec fn view(&self) -> BlockTargetView {
        match self {
            BlockTarget::Replace { range } => BlockTargetView::Replace { range: *range },
            BlockTarget::Block { anchor } => BlockTargetView::Block { anchor: *anchor },
            BlockTarget::Delete { range } => BlockTargetView::Delete { range: *range },
            BlockTarget::DeleteBlock { anchor } => BlockTargetView::DeleteBlock { anchor: *anchor },
            BlockTarget::InsertBefore { anchor } => BlockTargetView::InsertBefore {
                anchor: *anchor,
            },
            BlockTarget::InsertAfter { anchor } => BlockTargetView::InsertAfter { anchor: *anchor },
            BlockTarget::InsertAfterBlock { anchor } => BlockTargetView::InsertAfterBlock {
                anchor: *anchor,
            },
            BlockTarget::Rem => BlockTargetView::Rem,
            BlockTarget::Move { dest } => BlockTargetView::Move { dest: dest@ },
            BlockTarget::Bof => BlockTargetView::Bof,
            BlockTarget::Eof => BlockTargetView::Eof,
        }
    }
}

impl BlockTarget {
    /// Copy a target.
    pub fn copy(&self) -> (r: BlockTarget)
        ensures
            r@ == self@,
    {
        match self {
            BlockTarget::Replace { range } => BlockTarget::Replace { range: *range },
            BlockTarget::Block { anchor } => BlockTarget::Block { anchor: *anchor },
            BlockTarget::Delete { range } => BlockTarget::Delete { range: *range },
            BlockTarget::DeleteBlock { anchor } => BlockTarget::DeleteBlock { anchor: *anchor },
            BlockTarget::InsertBefore { anchor } => BlockTarget::InsertBefore { anchor: *anchor },
            BlockTarget::InsertAfter { anchor } => BlockTarget::InsertAfter { anchor: *anchor },
            BlockTarget::InsertAfterBlock { anchor } => BlockTarget::InsertAfterBlock {
                anchor: *anchor,
            },
            BlockTarget::Rem => BlockTarget::Rem,
            BlockTarget::Move { dest } => BlockTarget::Move { dest: dest.clone() },
            BlockTarget::Bof => BlockTarget::Bof,
            BlockTarget::Eof => BlockTarget::Eof,
        }
    }
}

/// A keyword at `i`, with a word boundary (white space, `:`, `.` or the end) behind it:
/// the position behind the keyword.
pub open spec fn keyword(s: Seq<char>, i: int, word: Seq<char>) -> Option<int> {
    let end = i + word.len();
    if text::has_at(s, i, word) && (end == s.len() || text::is_ascii_white(s[end]) || s[end]
        == HL_HEADER_COLON || s[end] == '.') {
        Some(end)
    } else {
        None
    }
}

fn scan_keyword(s: &[char], index: usize, word: &str) -> (r: Option<usize>)
    ensures
        match (r, keyword(s@, index as int, word@)) {
            (Some(a), Some(b)) => a == b && index <= a <= s@.len(),
            (None, None) => true,
            _ => false,
        },
{
    let w = text::chars_of(word);
    if !text::chars_have_at(s, index, w.as_slice()) {
        return None;
    }
    let n: usize = s.len();
    let end: usize = index + w.len();
    if end < n {
        let c = s[end];
        if !text::ascii_white(c) && c != HL_HEADER_COLON && c != '.' {
            return None;
        }
    }
    Some(end)
}

/// A stray `.` between a number and the trailing `:` or the end is passed over.
pub open spec fn pass_stray_dot(s: Seq<char>, i: int) -> int {
    let after = skip(s, i + 1);
    if 0 <= i < s.len() && s[i] == '.' && (after == s.len() || s[after] == HL_HEADER_COLON) {
        after
    } else {
        i
    }
}

fn skip_stray_dot(s: &[char], index: usize) -> (r: usize)
    requires
        index <= s@.len(),
    ensures
        r == pass_stray_dot(s@, index as int),
        index <= r <= s@.len(),
{
    if index < s.len() && s[index] == '.' {
        let after: usize = skip_whitespace(s, index + 1);
        if after == s.len() || s[after] == HL_HEADER_COLON {
            return after;
        }
    }
    index
}

/// The position behind an optional colon at `i`, with white space around it and a stray
/// dot before it.
pub open spec fn pass_colon(s: Seq<char>, i: int) -> int {
    let at = pass_stray_dot(s, skip(s, i));
    if 0 <= at < s.len() && s[at] == HL_HEADER_COLON {
        skip(s, at + 1)
    } else {
        at
    }
}

fn consume_optional_colon(s: &[char], index: usize) -> (r: usize)
    requires
        index <= s@.len(),
    ensures
        r == pass_colon(s@, index as int),
        index <= r <= s@.len(),
{
    let at: usize = skip_stray_dot(s, skip_whitespace(s, index));
    if at < s.len() && s[at] == HL_HEADER_COLON {
        skip_whitespace(s, at + 1)
    } else {
        at
    }
}

/// A line number with white space before it and an optional colon behind it.
pub open spec fn anchored_number(s: Seq<char>, i: int) -> Option<(Anchor, int)> {
    match line_number(s, skip(s, i)) {
        None => None,
        Some((line, after)) => Some((Anchor { line }, pass_colon(s, after))),
    }
}

fn scan_anchored_number(s: &[char], index: usize) -> (r: Option<(Anchor, usize)>)
    requires
        index <= s@.len(),
    ensures
        match (r, anchored_number(s@, index as int)) {
            (Some(a), Some(b)) => a.0 == b.0 && a.1 == b.1,
            (None, None) => true,
            _ => false,
        },
{
    match scan_line_number(s, skip_whitespace(s, index)) {
        None => None,
        Some((line, after)) => Some((Anchor { line }, consume_optional_colon(s, after))),
    }
}

/// What follows `INS`: `.PRE N:`, `.POST N:`, `.HEAD:` or `.TAIL:`.
pub open spec fn insert_target(s: Seq<char>, i: int) -> Option<(BlockTargetView, int)> {
    let at = skip(s, i + 1);
    if !(0 <= i < s.len()) || s[i] != '.' {
        None
    } else if keyword(s, at, HL_INSERT_BEFORE@) is Some {
        match anchored_number(s, keyword(s, at, HL_INSERT_BEFORE@)->0) {
            Some((anchor, next)) => Some((BlockTargetView::InsertBefore { anchor }, next)),
            None => None,
        }
    } else if keyword(s, at, HL_INSERT_AFTER@) is Some {
        match anchored_number(s, keyword(s, at, HL_INSERT_AFTER@)->0) {
            Some((anchor, next)) => Some((BlockTargetView::InsertAfter { anchor }, next)),
            None => None,
        }
    } else if keyword(s, at, HL_INSERT_HEAD@) is Some {
        Some((BlockTargetView::Bof, pass_colon(s, keyword(s, at, HL_INSERT_HEAD@)->0)))
    } else if keyword(s, at, HL_INSERT_TAIL@) is Some {
        Some((BlockTargetView::Eof, pass_colon(s, keyword(s, at, HL_INSERT_TAIL@)->0)))
    } else {
        None
    }
}

/// A scanned target and the position behind it say what the grammar says.
pub open spec fn same_scan(
    r: Option<(BlockTarget, usize)>,
    want: Option<(BlockTargetView, int)>,
) -> bool {
    match (r, want) {
        (Some(a), Some(b)) => a.0@ == b.0 && a.1 == b.1,
        (None, None) => true,
        _ => false,
    }
}

fn scan_insert_target(s: &[char], index: usize) -> (r: Option<(BlockTarget, usize)>)
    requires
        index <= s@.len(),
    ensures
        same_scan(r, insert_target(s@, index as int)),
{
    if index >= s.len() || s[index] != '.' {
        return None;
    }
    let at: usize = skip_whitespace(s, index + 1);
    match scan_keyword(s, at, HL_INSERT_BEFORE) {
        Some(end) => {
            return match scan_anchored_number(s, end) {
                Some((anchor, next)) => Some((BlockTarget::InsertBefore { anchor }, next)),
                None => None,
            };
        },
        None => {},
    }
    match scan_keyword(s, at, HL_INSERT_AFTER) {
        Some(end) => {
            return match scan_anchored_number(s, end) {
                Some((anchor, next)) => Some((BlockTarget::InsertAfter { anchor }, next)),
                None => None,
            };
        },
        None => {},
    }
    match scan_keyword(s, at, HL_INSERT_HEAD) {
        Some(end) => {
            return Some((BlockTarget::Bof, consume_optional_colon(s, end)));
        },
        None => {},
    }
    match scan_keyword(s, at, HL_INSERT_TAIL) {
        Some(end) => Some((BlockTarget::Eof, consume_optional_colon(s, end))),
        None => None,
    }
}

/// A path without the quotes around it, if it stands in a pair of equal quotes.
pub open spec fn unquoted(s: Seq<char>) -> Seq<char> {
    if s.len() >= 2 && (s[0] == '"' || s[0] == '\'') && s.last() == s[0] {
        s.subrange(1, s.len() - 1)
    } else {
        s
    }
}

/// See [`unquoted`].
pub fn unquote_path(path_text: &str) -> (r: String)
    ensures
        r@ == unquoted(path_text@),
{
    let v = text::chars_of(path_text);
    let n: usize = v.len();
    if n >= 2 && (v[0] == '"' || v[0] == '\'') && v[n - 1] == v[0] {
        text::string_of(v.as_slice(), 1, n - 1)
    } else {
        text::owned(path_text)
    }
}

/// The position of the closing quote from `i` on; a backslash hides the character
/// behind it.
pub open spec fn quote_end(s: Seq<char>, i: int, quote: char) -> Option<int>
    decreases s.len() - i,
{
    if !(0 <= i < s.len()) {
        None
    } else if s[i] == '\\' && i + 1 < s.len() {
        quote_end(s, i + 2, quote)
    } else if s[i] == quote {
        Some(i)
    } else {
        quote_end(s, i + 1, quote)
    }
}

/// The destination behind `MV`: a quoted string that ends the line, or the rest of the
/// line.
pub open spec fn move_dest(s: Seq<char>, i: int) -> Option<Seq<char>> {
    let at = skip(s, i);
    if at >= s.len() {
        None
    } else if s[at] == '"' || s[at] == '\'' {
        match quote_end(s, at + 1, s[at]) {
            Some(end) => if skip(s, end + 1) == s.len() {
                Some(s.subrange(at + 1, end))
            } else {
                None
            },
            None => None,
        }
    } else {
        let bare = text::trim(s.subrange(at, s.len() as int));
        if bare.len() == 0 {
            None
        } else {
            Some(unquoted(bare))
        }
    }
}

fn scan_move_dest(s: &[char], index: usize) -> (r: Option<String>)
    requires
        index <= s@.len(),
    ensures
        views::opt_text(r) == move_dest(s@, index as int),
{
    let n: usize = s.len();
    let at: usize = skip_whitespace(s, index);
    if at >= n {
        return None;
    }
    let quote = s[at];
    if quote == '"' || quote == '\'' {
        let mut i: usize = at + 1;
        while i < n && !(s[i] == quote)
            invariant
                n == s@.len(),
                at < i <= n,
                quote == s@[at as int],
                quote == '"' || quote == '\'',
                quote_end(s@, i as int, quote) == quote_end(s@, at + 1, quote),
            decreases n - i,
        {
            if s[i] == '\\' && n - i > 1 {
                i = i + 2;
            } else {
                i = i + 1;
            }
        }
        if i >= n {
            return None;
        }
        if skip_whitespace(s, i + 1) != n {
            return None;
        }
        return Some(text::string_of(s, at + 1, i));
    }
    let rest = text::string_of(s, at, n);
    let bare = text::trimmed(rest.as_str());
    if bare.as_str().is_empty() {
        None
    } else {
        Some(unquote_path(bare.as_str()))
    }
}

/// Behind a bodyless target: no colon may follow.
pub open spec fn no_colon(
    target: BlockTargetView,
    s: Seq<char>,
    i: int,
) -> Option<(BlockTargetView, int)> {
    let next = pass_stray_dot(s, skip(s, i));
    if next < s.len() && s[next] == HL_HEADER_COLON {
        None
    } else {
        Some((target, next))
    }
}

fn scan_no_colon(target: BlockTarget, s: &[char], index: usize) -> (r: Option<
    (BlockTarget, usize),
>)
    requires
        index <= s@.len(),
    ensures
        same_scan(r, no_colon(target@, s@, index as int)),
{
    let next: usize = skip_stray_dot(s, skip_whitespace(s, index));
    if next < s.len() && s[next] == HL_HEADER_COLON {
        None
    } else {
        Some((target, next))
    }
}

/// A hunk header at `i`: its target and the position behind it.
pub open spec fn hunk_anchor(s: Seq<char>, i: int) -> Option<(BlockTargetView, int)> {
    let at = skip(s, i);
    if keyword(s, at, HL_REM_KEYWORD@) is Some {
        let next = skip(s, keyword(s, at, HL_REM_KEYWORD@)->0);
        if next == s.len() {
            Some((BlockTargetView::Rem, next))
        } else {
            None
        }
    } else if keyword(s, at, HL_MOVE_KEYWORD@) is Some {
        match move_dest(s, keyword(s, at, HL_MOVE_KEYWORD@)->0) {
            Some(dest) => if dest.len() == 0 {
                None
            } else {
                Some((BlockTargetView::Move { dest }, s.len() as int))
            },
            None => None,
        }
    } else if keyword(s, at, HL_REPLACE_BLOCK_KEYWORD@) is Some {
        match anchored_number(s, keyword(s, at, HL_REPLACE_BLOCK_KEYWORD@)->0) {
            Some((anchor, next)) => Some((BlockTargetView::Block { anchor }, next)),
            None => None,
        }
    } else if keyword(s, at, HL_REPLACE_KEYWORD@) is Some {
        match header_range(s, keyword(s, at, HL_REPLACE_KEYWORD@)->0) {
            Some((range, next)) => Some((BlockTargetView::Replace { range }, pass_colon(s, next))),
            None => None,
        }
    } else if keyword(s, at, HL_DELETE_BLOCK_KEYWORD@) is Some {
        match line_number(s, skip(s, keyword(s, at, HL_DELETE_BLOCK_KEYWORD@)->0)) {
            Some((line, next)) => no_colon(
                BlockTargetView::DeleteBlock { anchor: Anchor { line } },
                s,
                next,
            ),
            None => None,
        }
    } else if keyword(s, at, HL_DELETE_KEYWORD@) is Some {
        match header_range(s, keyword(s, at, HL_DELETE_KEYWORD@)->0) {
            Some((range, next)) => no_colon(BlockTargetView::Delete { range }, s, next),
            None => None,
        }
    } else if keyword(s, at, HL_INSERT_AFTER_BLOCK_KEYWORD@) is Some {
        match anchored_number(s, keyword(s, at, HL_INSERT_AFTER_BLOCK_KEYWORD@)->0) {
            Some((anchor, next)) => Some((BlockTargetView::InsertAfterBlock { anchor }, next)),
            None => None,
        }
    } else if keyword(s, at, HL_INSERT_KEYWORD@) is Some {
        insert_target(s, keyword(s, at, HL_INSERT_KEYWORD@)->0)
    } else {
        None
    }
}

fn scan_hunk_anchor(s: &[char], start: usize) -> (r: Option<(BlockTarget, usize)>)
    requires
        start <= s@.len(),
    ensures
        same_scan(r, hunk_anchor(s@, start as int)),
{
    let n: usize = s.len();
    let at: usize = skip_whitespace(s, start);
    match scan_keyword(s, at, HL_REM_KEYWORD) {
        Some(end) => {
            let next: usize = skip_whitespace(s, end);
            return if next == n {
                Some((BlockTarget::Rem, next))
            } else {
                None
            };
        },
        None => {},
    }
    match scan_keyword(s, at, HL_MOVE_KEYWORD) {
        Some(end) => {
            return match scan_move_dest(s, end) {
                Some(dest) => {
                    if dest.as_str().is_empty() {
                        None
                    } else {
                        Some((BlockTarget::Move { dest }, n))
                    }
                },
                None => None,
            };
        },
        None => {},
    }
    match scan_keyword(s, at, HL_REPLACE_BLOCK_KEYWORD) {
        Some(end) => {
            return match scan_anchored_number(s, end) {
                Some((anchor, next)) => Some((BlockTarget::Block { anchor }, next)),
                None => None,
            };
        },
        None => {},
    }
    match scan_keyword(s, at, HL_REPLACE_KEYWORD) {
        Some(end) => {
            return match scan_header_range(s, end) {
                Some((range, next)) => Some(
                    (BlockTarget::Replace { range }, consume_optional_colon(s, next)),
                ),
                None => None,
            };
        },
        None => {},
    }
    match scan_keyword(s, at, HL_DELETE_BLOCK_KEYWORD) {
        Some(end) => {
            return match scan_line_number(s, skip_whitespace(s, end)) {
                Some((line, next)) => scan_no_colon(
                    BlockTarget::DeleteBlock { anchor: Anchor { line } },
                    s,
                    next,
                ),
                None => None,
            };
        },
        None => {},
    }
    match scan_keyword(s, at, HL_DELETE_KEYWORD) {
        Some(end) => {
            return match scan_header_range(s, end) {
                Some((range, next)) => scan_no_colon(BlockTarget::Delete { range }, s, next),
                None => None,
            };
        },
        None => {},
    }
    match scan_keyword(s, at, HL_INSERT_AFTER_BLOCK_KEYWORD) {
        Some(end) => {
            return match scan_anchored_number(s, end) {
                Some((anchor, next)) => Some((BlockTarget::InsertAfterBlock { anchor }, next)),
                None => None,
            };
        },
        None => {},
    }
    match scan_keyword(s, at, HL_INSERT_KEYWORD) {
        Some(end) => scan_insert_target(s, end),
        None => None,
    }
}

/// The target of a line that is a hunk header as a whole.
pub open spec fn hunk_header(line: Seq<char>) -> Option<BlockTargetView> {
    let s = trim_ascii(line);
    match hunk_anchor(s, 0) {
        Some((target, next)) => if next == s.len() {
            Some(target)
        } else {
            None
        },
        None => None,
    }
}

/// The model of an optional [`BlockTarget`].
pub open spec fn opt_target(o: Option<BlockTarget>) -> Option<BlockTargetView> {
    match o {
        Some(t) => Some(t@),
        None => None,
    }
}

/// Try to parse a full line as a hunk header. See [`hunk_header`].
pub fn try_parse_hunk_header(line: &str) -> (r: Option<BlockTarget>)
    ensures
        opt_target(r) == hunk_header(line@),
{
    let s = trimmed_chars(line);
    match scan_hunk_anchor(s.as_slice(), 0) {
        Some((target, next)) => {
            if next == s.len() {
                Some(target)
            } else {
                None
            }
        },
        None => None,
    }
}

// ── Section headers ──────────────────────────────────────────────────────

/// A body that ends in `#` and four hexadecimal digits.
pub open spec fn ends_in_tag(body: Seq<char>) -> bool {
    let n = body.len();
    n >= 5 && body[n - 5] == HL_FILE_HASH_SEP && text::is_hex_digit(body[n - 4])
        && text::is_hex_digit(body[n - 3]) && text::is_hex_digit(body[n - 2]) && text::is_hex_digit(
        body[n - 1],
    )
}

/// The path and tag of a `[path#HASH]` line. The tag is optional; the path is not
/// empty and holds no `#`.
pub open spec fn section_header(line: Seq<char>) -> Option<(Seq<char>, Option<Seq<char>>)> {
    let s = trim_ascii(line);
    if s.len() <= 2 || s[0] != '[' || s.last() != ']' {
        None
    } else {
        let body = s.subrange(1, s.len() - 1);
        let tagged = ends_in_tag(body);
        let path = if tagged {
            body.subrange(0, body.len() - 5)
        } else {
            body
        };
        if path.len() == 0 || path.contains(HL_FILE_HASH_SEP) {
            None
        } else {
            Some(
                (
                    path,
                    if tagged {
                        Some(text::upper(body.subrange(body.len() - 4, body.len() as int)))
                    } else {
                        None
                    },
                ),
            )
        }
    }
}

/// Try to parse a `[path#HASH]` section header line. See [`section_header`].
pub fn try_parse_header(line: &str) -> (r: Option<(String, Option<String>)>)
    ensures
        match (r, section_header(line@)) {
            (Some(a), Some(b)) => a.0@ == b.0 && views::opt_text(a.1) == b.1,
            (None, None) => true,
            _ => false,
        },
{
    let s = trimmed_chars(line);
    let n: usize = s.len();
    if n <= 2 || s[0] != '[' || s[n - 1] != ']' {
        return None;
    }
    let ghost body = s@.subrange(1, n - 1);
    let tagged = n >= 7 && s[n - 6] == HL_FILE_HASH_SEP && text::hex_digit(s[n - 5])
        && text::hex_digit(s[n - 4]) && text::hex_digit(s[n - 3]) && text::hex_digit(s[n - 2]);
    assert(tagged == ends_in_tag(body));
    let path_end: usize = if tagged {
        n - 6
    } else {
        n - 1
    };
    let path = text::string_of(s.as_slice(), 1, path_end);
    proof {
        if tagged {
            assert(body.subrange(0, body.len() - 5) =~= s@.subrange(1, path_end as int));
            assert(body.subrange(body.len() - 4, body.len() as int) =~= s@.subrange(
                n - 5,
                n - 1,
            ));
        }
    }
    if path.as_str().is_empty() || text::holds_char(path.as_str(), HL_FILE_HASH_SEP) {
        return None;
    }
    let file_hash = if tagged {
        let raw = text::string_of(s.as_slice(), n - 5, n - 1);
        Some(text::to_upper(raw.as_str()))
    } else {
        None
    };
    Some((path, file_hash))
}

// ── Tokens ───────────────────────────────────────────────────────────────

/// A classified diff line.
#[derive(Debug, Clone, PartialEq, Eq)]
pub enum Token {
    /// A blank line.
    Blank { line_num: usize },
    /// `*** Begin Patch`, the optional envelope start.
    EnvelopeBegin { line_num: usize },
    /// `*** End Patch`, the envelope end, which ends parsing.
    EnvelopeEnd { line_num: usize },
    /// `*** Abort`, the truncation sentinel, which ends parsing.
    Abort { line_num: usize },
    /// `[path#HASH]`, a section header.
    SectionHeader { line_num: usize, path: String, file_hash: Option<String> },
    /// A parsed hunk header (`SWAP`, `DEL`, `INS`, `REM`, `MV`, ...).
    HunkHeader { line_num: usize, target: BlockTarget },
    /// `+text`, a literal body row; the `+` is stripped.
    BodyRow { line_num: usize, text: String },
    /// Any other line, which becomes payload or an error in the parser.
    Raw { line_num: usize, text: String },
}

/// The model of a [`Token`].
#[verifier::ext_equal]
pub enum TokenView {
    Blank { line_num: usize },
    EnvelopeBegin { line_num: usize },
    EnvelopeEnd { line_num: usize },
    Abort { line_num: usize },
    SectionHeader { line_num: usize, path: Seq<char>, file_hash: Option<Seq<char>> },
    HunkHeader { line_num: usize, target: BlockTargetView },
    BodyRow { line_num: usize, text: Seq<char> },
    Raw { line_num: usize, text: Seq<char> },
}

impl View for Token {
    type V = TokenView;

    open spec fn view(&self) -> TokenView {
        match self {
            Token::Blank { line_num } => TokenView::Blank { line_num: *line_num },
            Token::EnvelopeBegin { line_num } => TokenView::EnvelopeBegin { line_num: *line_num },
            Token::EnvelopeEnd { line_num } => TokenView::EnvelopeEnd { line_num: *line_num },
            Token::Abort { line_num } => TokenView::Abort { line_num: *line_num },
            Token::SectionHeader { line_num, path, file_hash } => TokenView::SectionHeader {
                line_num: *line_num,
                path: path@,
                file_hash: views::opt_text(*file_hash),
            },
            Token::HunkHeader { line_num, target } => TokenView::HunkHeader {
                line_num: *line_num,
                target: target@,
            },
            Token::BodyRow { line_num, text } => TokenView::BodyRow {
                line_num: *line_num,
                text: text@,
            },
            Token::Raw { line_num, text } => TokenView::Raw { line_num: *line_num, text: text@ },
        }
    }
}

/// A line is a marker, apart from white space at its end.
pub open spec fn is_marker(line: Seq<char>, marker: Seq<char>) -> bool {
    trim_ascii(line) == marker
}

fn marker_line_equals(line: &str, marker: &str) -> (r: bool)
    ensures
        r == is_marker(line@, marker@),
{
    let s = trimmed_chars(line);
    let t = text::string_of(s.as_slice(), 0, s.len());
    proof {
        assert(s@.subrange(0, s@.len() as int) =~= s@);
    }
    text::same(t.as_str(), marker)
}

/// The token of a line.
pub open spec fn token_of(line: Seq<char>, line_num: usize) -> TokenView {
    if line.len() == 0 {
        TokenView::Blank { line_num }
    } else if is_marker(line, BEGIN_PATCH_MARKER@) {
        TokenView::EnvelopeBegin { line_num }
    } else if is_marker(line, END_PATCH_MARKER@) {
        TokenView::EnvelopeEnd { line_num }
    } else if is_marker(line, ABORT_MARKER@) {
        TokenView::Abort { line_num }
    } else {
        match section_header(line) {
            Some((path, file_hash)) => TokenView::SectionHeader { line_num, path, file_hash },
            None => match hunk_header(line) {
                Some(target) => TokenView::HunkHeader { line_num, target },
                None => if line[0] == HL_PAYLOAD_REPLACE {
                    TokenView::BodyRow { line_num, text: line.skip(1) }
                } else {
                    TokenView::Raw { line_num, text: line }
                },
            },
        }
    }
}

/// Classify a single line. See [`token_of`].
pub fn tokenize_line(line: &str, line_num: usize) -> (r: Token)
    ensures
        r@ == token_of(line@, line_num),
{
    if line.is_empty() {
        return Token::Blank { line_num };
    }
    if marker_line_equals(line, BEGIN_PATCH_MARKER) {
        return Token::EnvelopeBegin { line_num };
    }
    if marker_line_equals(line, END_PATCH_MARKER) {
        return Token::EnvelopeEnd { line_num };
    }
    if marker_line_equals(line, ABORT_MARKER) {
        return Token::Abort { line_num };
    }
    match try_parse_header(line) {
        Some((path, file_hash)) => {
            return Token::SectionHeader { line_num, path, file_hash };
        },
        None => {},
    }
    match try_parse_hunk_header(line) {
        Some(target) => {
            return Token::HunkHeader { line_num, target };
        },
        None => {},
    }
    let v = text::chars_of(line);
    if v[0] == HL_PAYLOAD_REPLACE {
        let rest = text::string_of(v.as_slice(), 1, v.len());
        proof {
            assert(v@.subrange(1, v@.len() as int) =~= line@.skip(1));
        }
        return Token::BodyRow { line_num, text: rest };
    }
    Token::Raw { line_num, text: text::owned(line) }
}

/// The tokens of a diff, its lines numbered from 1.
pub open spec fn tokens(s: Seq<char>) -> Seq<TokenView> {
    Seq::new(diff_lines(s).len(), |i: int| token_of(diff_lines(s)[i], (i + 1) as usize))
}

/// Tokenize a full diff string into a flat list of tokens, with line numbers from 1.
pub fn tokenize(input: &str) -> (r: Vec<Token>)
    ensures
        views::all(r@) == tokens(input@),
{
    let ls = split_hashline_lines(input);
    let ghost goal = tokens(input@);
    let mut out: Vec<Token> = Vec::new();
    for i in 0..ls.len()
        invariant
            views::texts(ls@) == diff_lines(input@),
            goal == tokens(input@),
            views::all(out@) == goal.take(i as int),
    {
        proof {
            views::lemma_take_step(goal, i as int);
            assert(views::texts(ls@)[i as int] == ls@[i as int]@);
        }
        out.push(tokenize_line(ls[i].as_str(), i + 1));
    }
    proof {
        views::lemma_take_all(goal);
    }
    out
}

/// True when `line` parses as a hunk header.
pub fn is_op(line: &str) -> (r: bool)
    ensures
        r == (hunk_header(line@) is Some),
{
    try_parse_hunk_header(line).is_some()
}

/// True when `line` parses as a `[path#HASH]` section header.
pub fn is_header(line: &str) -> (r: bool)
    ensures
        r == (section_header(line@) is Some),
{
    try_parse_header(line).is_some()
}

/// A line is one of the envelope or abort markers.
pub open spec fn envelope_marker(line: Seq<char>) -> bool {
    is_marker(line, BEGIN_PATCH_MARKER@) || is_marker(line, END_PATCH_MARKER@) || is_marker(
        line,
        ABORT_MARKER@,
    )
}

/// True when `line` is one of the envelope or abort markers.
pub fn is_envelope_marker(line: &str) -> (r: bool)
    ensures
        r == envelope_marker(line@),
{
    marker_line_equals(line, BEGIN_PATCH_MARKER) || marker_line_equals(line, END_PATCH_MARKER)
        || marker_line_equals(line, ABORT_MARKER)
}

// ── Bare line numbers ────────────────────────────────────────────────────

/// The line number that a text holds, apart from white space around it.
pub open spec fn lid(raw: Seq<char>) -> Option<u32> {
    let s = trim_ascii(raw);
    match line_number(s, skip(s, 0)) {
        Some((line, next)) => if skip(s, next) == s.len() {
            Some(line)
        } else {
            None
        },
        None => None,
    }
}

/// The message for a text that holds no line number; `quoted` is the text in quotes.
pub open spec fn lid_message(line_num: usize, quoted: Seq<char>) -> Seq<char> {
    "line "@ + numbers::dec(line_num as nat)
        + ": expected a line number such as \"119\", \"112\", \"7\"; got "@ + quoted
        + ". Use [PATH#hash] from your latest read for file-version binding."@
}

/// Compose the message for a text that holds no line number.
pub fn describe_bad_lid(line_num: usize, quoted: &str) -> (r: String)
    ensures
        r@ == lid_message(line_num, quoted@),
{
    let mut s = text::owned("line ");
    s.append(numbers::decimal_usize(line_num).as_str());
    s.append(": expected a line number such as \"119\", \"112\", \"7\"; got ");
    s.append(quoted);
    s.append(". Use [PATH#hash] from your latest read for file-version binding.");
    s
}

/// Parse a bare line-number anchor.
pub fn parse_lid(raw: &str, line_num: usize) -> (r: Result<Anchor, PatchError>)
    ensures
        match (r, lid(raw@)) {
            (Ok(a), Some(line)) => a.line == line,
            (Err(e), None) => e@ == lid_message(line_num, engines::debug_text(raw@)),
            _ => false,
        },
{
    let s = trimmed_chars(raw);
    match scan_line_number(s.as_slice(), skip_whitespace(s.as_slice(), 0)) {
        Some((line, next)) => {
            if skip_whitespace(s.as_slice(), next) == s.len() {
                return Ok(Anchor { line });
            }
        },
        None => {},
    }
    let quoted = engines::debug_quoted(raw);
    Err(PatchError { message: describe_bad_lid(line_num, quoted.as_str()) })
}

} // verus!
