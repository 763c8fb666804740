//! Sections: carving a full input with `[path#TAG]` headers into parsed sections.

use vstd::prelude::*;

use crate::engines;
use crate::engines::RegexMatch;
use crate::numbers;
use crate::parser;
use crate::parser::parse_patch;
use crate::patterns;
use crate::text;
use crate::tokenizer;
use crate::tokenizer::{
    is_envelope_marker, is_op, split_hashline_lines, tokenize_line, try_parse_header, unquote_path,
    Token, TokenView,
};
use crate::types::{PatchSection, PatchSectionView, SplitOptions};
use crate::views;

verus! {

broadcast use {crate::views::group_all, crate::views::group_texts};

// ── Path noise ───────────────────────────────────────────────────────────

/// A text without the asterisks at its start.
pub open spec fn drop_stars(s: Seq<char>) -> Seq<char>
    decreases s.len(),
{
    if s.len() > 0 && s[0] == '*' {
        drop_stars(s.skip(1))
    } else {
        s
    }
}

fn without_stars(s: &str) -> (r: String)
    ensures
        r@ == drop_stars(s@),
{
    let v = text::chars_of(s);
    let mut i: usize = 0;
    assert(v@.skip(0) =~= v@);
    while i < v.len() && v[i] == '*'
        invariant
            i <= v@.len(),
            drop_stars(v@.skip(i as int)) == drop_stars(v@),
        decreases v@.len() - i,
    {
        proof {
            assert(v@.skip(i as int).skip(1) =~= v@.skip(i + 1));
        }
        i = i + 1;
    }
    proof {
        assert(v@.subrange(i as int, v@.len() as int) =~= v@.skip(i as int));
    }
    text::string_of(v.as_slice(), i, v.len())
}

/// A text without the characters at its start that are not ASCII letters or digits.
pub open spec fn drop_separators(s: Seq<char>) -> Seq<char>
    decreases s.len(),
{
    if s.len() > 0 && !text::is_alphanumeric(s[0]) {
        drop_separators(s.skip(1))
    } else {
        s
    }
}

fn without_separators(s: &str) -> (r: String)
    ensures
        r@ == drop_separators(s@),
{
    let v = text::chars_of(s);
    let mut i: usize = 0;
    assert(v@.skip(0) =~= v@);
    while i < v.len() && !text::alphanumeric(v[i])
        invariant
            i <= v@.len(),
            drop_separators(v@.skip(i as int)) == drop_separators(v@),
        decreases v@.len() - i,
    {
        proof {
            assert(v@.skip(i as int).skip(1) =~= v@.skip(i + 1));
        }
        i = i + 1;
    }
    proof {
        assert(v@.subrange(i as int, v@.len() as int) =~= v@.skip(i as int));
    }
    text::string_of(v.as_slice(), i, v.len())
}

/// The length of the file-operation word a text starts with, in any case; 0 if none.
pub open spec fn operation_word(s: Seq<char>) -> int {
    let low = text::lower(s);
    if text::has_prefix(low, "update"@) {
        6
    } else if text::has_prefix(low, "add"@) {
        3
    } else if text::has_prefix(low, "delete"@) {
        6
    } else if text::has_prefix(low, "move"@) {
        4
    } else {
        0
    }
}

/// A text without the word `file` or `to` at its start, in any case.
pub open spec fn drop_object_word(s: Seq<char>) -> Seq<char> {
    let low = text::lower(s);
    if text::has_prefix(low, "file"@) {
        s.skip(4)
    } else if text::has_prefix(low, "to"@) {
        s.skip(2)
    } else {
        s
    }
}

/// Nothing but characters that are not ASCII letters or digits.
pub open spec fn only_separators(s: Seq<char>) -> bool {
    drop_separators(s).len() == 0
}

/// A path without the keywords that other patch formats put in front of it, such as
/// `Update File:` or `***`.
pub open spec fn noise_free(path: Seq<char>) -> Seq<char> {
    let s = text::trim_start(drop_stars(path));
    let k = operation_word(s);
    let rest = s.skip(k);
    let colon = text::find_char(rest, ':', 0);
    if k > 0 && colon < rest.len() && only_separators(
        drop_object_word(drop_separators(rest.take(colon))),
    ) {
        text::trim_start(drop_stars(text::trim_start(rest.skip(colon + 1))))
    } else {
        s
    }
}

fn operation_word_length(s: &str) -> (r: usize)
    ensures
        r == operation_word(s@),
        r <= s@.len(),
{
    let low = text::to_lower(s);
    proof {
        reveal_strlit("update");
        reveal_strlit("add");
        reveal_strlit("delete");
        reveal_strlit("move");
    }
    if text::starts_with(low.as_str(), "update") {
        6
    } else if text::starts_with(low.as_str(), "add") {
        3
    } else if text::starts_with(low.as_str(), "delete") {
        6
    } else if text::starts_with(low.as_str(), "move") {
        4
    } else {
        0
    }
}

fn without_object_word(s: &str) -> (r: String)
    ensures
        r@ == drop_object_word(s@),
{
    let low = text::to_lower(s);
    let v = text::chars_of(s);
    proof {
        reveal_strlit("file");
        reveal_strlit("to");
    }
    let k: usize = if text::starts_with(low.as_str(), "file") {
        4
    } else if text::starts_with(low.as_str(), "to") {
        2
    } else {
        0
    };
    proof {
        assert(v@.subrange(k as int, v@.len() as int) =~= v@.skip(k as int));
        assert(v@.skip(0) =~= v@);
    }
    text::string_of(v.as_slice(), k, v.len())
}

/// Strip the noise that other patch formats put in front of a path. See [`noise_free`].
pub fn strip_apply_patch_path_noise(path_text: &str) -> (r: String)
    ensures
        r@ == noise_free(path_text@),
{
    let s = text::trimmed_start(without_stars(path_text).as_str());
    let k: usize = operation_word_length(s.as_str());
    if k == 0 {
        return s;
    }
    let v = text::chars_of(s.as_str());
    let n: usize = v.len();
    let rest = text::string_of(v.as_slice(), k, n);
    proof {
        assert(v@.subrange(k as int, n as int) =~= s@.skip(k as int));
    }
    let w = text::chars_of(rest.as_str());
    let colon: usize = text::position_of(w.as_slice(), ':', 0);
    if colon >= w.len() {
        return s;
    }
    let between = text::string_of(w.as_slice(), 0, colon);
    let after = text::string_of(w.as_slice(), colon + 1, w.len());
    proof {
        assert(w@.subrange(0, colon as int) =~= rest@.take(colon as int));
        assert(w@.subrange(colon + 1, w@.len() as int) =~= rest@.skip(colon + 1));
    }
    let tail = without_object_word(without_separators(between.as_str()).as_str());
    if !without_separators(tail.as_str()).as_str().is_empty() {
        return s;
    }
    text::trimmed_start(without_stars(text::trimmed_start(after.as_str()).as_str()).as_str())
}

/// A path as a section is keyed by it: trimmed, unquoted, and free of noise.
pub open spec fn path_of(raw: Seq<char>) -> Seq<char> {
    noise_free(tokenizer::unquoted(text::trim(raw)))
}

/// See [`path_of`].
pub fn normalize_hashline_path(raw_path: &str) -> (r: String)
    ensures
        r@ == path_of(raw_path@),
{
    let t = text::trimmed(raw_path);
    strip_apply_patch_path_noise(unquote_path(t.as_str()).as_str())
}

// ── Headers ──────────────────────────────────────────────────────────────

/// The path and tag of a header whose body is `body`, given what the tag pattern found
/// in it; `None` when the path is empty or holds a `#`.
pub open spec fn recovered_header(
    body: Seq<char>,
    found: Option<(Seq<char>, Seq<Option<Seq<char>>>, Seq<char>)>,
) -> Option<(Seq<char>, Option<Seq<char>>)> {
    let (path_text, hash) = match found {
        Some(m) => (m.0, Some(text::upper(parser::group_text(m, 1)))),
        None => (text::trim_end(body), None),
    };
    let path = path_of(path_text);
    if body.len() == 0 || path_text.contains('#') || path.len() == 0 {
        None
    } else {
        Some((path, hash))
    }
}

/// A parsed header says what is wanted.
pub open spec fn same_header(
    r: Option<(String, Option<String>)>,
    want: Option<(Seq<char>, Option<Seq<char>>)>,
) -> bool {
    match (r, want) {
        (Some(a), Some(b)) => a.0@ == b.0 && views::opt_text(a.1) == b.1,
        (None, None) => true,
        _ => false,
    }
}

/// See [`recovered_header`].
pub fn recover_header(body: &str, found: &Option<RegexMatch>) -> (r: Option<
    (String, Option<String>),
>)
    ensures
        same_header(r, recovered_header(body@, engines::match_view(*found))),
{
    if body.is_empty() {
        return None;
    }
    let (path_text, file_hash) = match found {
        Some(m) => {
            let tag = parser::group_of(m, 1);
            (m.before.clone(), Some(text::to_upper(tag.as_str())))
        },
        None => (text::trimmed_end(body), None),
    };
    if text::holds_char(path_text.as_str(), '#') {
        return None;
    }
    let path = normalize_hashline_path(path_text.as_str());
    if path.as_str().is_empty() {
        return None;
    }
    Some((path, file_hash))
}

/// The path and tag of a bracketed line that is no strict header: noise around the path
/// is passed over.
pub open spec fn loose_header(line: Seq<char>) -> Option<(Seq<char>, Option<Seq<char>>)> {
    if line.len() < 2 || line[0] != '[' || line.last() != ']' {
        None
    } else {
        let body = noise_free(text::trim(line.subrange(1, line.len() - 1)));
        recovered_header(body, engines::regex_search(patterns::TRAILING_TAG_PATTERN@, body))
    }
}

fn try_parse_recovery_header(line: &str) -> (r: Option<(String, Option<String>)>)
    ensures
        same_header(r, loose_header(line@)),
{
    let v = text::chars_of(line);
    let n: usize = v.len();
    if n < 2 || v[0] != '[' || v[n - 1] != ']' {
        return None;
    }
    let inner = text::string_of(v.as_slice(), 1, n - 1);
    let body = strip_apply_patch_path_noise(text::trimmed(inner.as_str()).as_str());
    let found = engines::regex_find(patterns::TRAILING_TAG_PATTERN, body.as_str());
    recover_header(body.as_str(), &found)
}

/// The message for a header without a path.
pub const EMPTY_HEADER: &'static str = "Input header `[]` is empty; provide a file path.";

/// The message for a bracketed line that is no header; `quoted` is the line in quotes.
pub open spec fn bad_header(quoted: Seq<char>) -> Seq<char> {
    "Input header must be [PATH] or [PATH#TAG] with a 4-hex content-hash tag; got "@ + quoted
        + "."@
}

/// The header on a line: its path and tag, `Ok(None)` for a line that does not start
/// with `[`, and an error for a bracketed line that is no header.
pub open spec fn header_line(line: Seq<char>) -> Result<
    Option<(Seq<char>, Option<Seq<char>>)>,
    Seq<char>,
> {
    let s = text::trim_end(line);
    if !(s.len() > 0 && s[0] == '[') {
        Ok(None)
    } else {
        match tokenizer::section_header(s) {
            Some((raw, hash)) => if path_of(raw).len() == 0 {
                Err(EMPTY_HEADER@)
            } else {
                Ok(Some((path_of(raw), hash)))
            },
            None => match loose_header(s) {
                Some(h) => Ok(Some(h)),
                None => Err(bad_header(engines::debug_text(s))),
            },
        }
    }
}

/// A parsed header line says what is wanted.
pub open spec fn same_header_line(
    r: Result<Option<(String, Option<String>)>, String>,
    want: Result<Option<(Seq<char>, Option<Seq<char>>)>, Seq<char>>,
) -> bool {
    match (r, want) {
        (Ok(a), Ok(b)) => same_header(a, b),
        (Err(a), Err(b)) => a@ == b,
        _ => false,
    }
}

/// Parse a `[PATH]` or `[PATH#hash]` header line. See [`header_line`].
pub fn parse_hashline_header_line(line: &str) -> (r: Result<
    Option<(String, Option<String>)>,
    String,
>)
    ensures
        same_header_line(r, header_line(line@)),
{
    let s = text::trimmed_end(line);
    let v = text::chars_of(s.as_str());
    if v.len() == 0 || v[0] != '[' {
        return Ok(None);
    }
    match try_parse_header(s.as_str()) {
        Some((raw, file_hash)) => {
            let path = normalize_hashline_path(raw.as_str());
            if path.as_str().is_empty() {
                return Err(text::owned(EMPTY_HEADER));
            }
            Ok(Some((path, file_hash)))
        },
        None => match try_parse_recovery_header(s.as_str()) {
            Some(h) => Ok(Some(h)),
            None => {
                let quoted = engines::debug_quoted(s.as_str());
                let mut m = text::owned(
                    "Input header must be [PATH] or [PATH#TAG] with a 4-hex content-hash tag; got ",
                );
                m.append(quoted.as_str());
                m.append(".");
                Err(m)
            },
        },
    }
}

// ── Preparing the input ──────────────────────────────────────────────────

/// A text without a byte order mark at its start.
pub open spec fn without_bom(s: Seq<char>) -> Seq<char> {
    if s.len() > 0 && s[0] == '\u{feff}' {
        s.skip(1)
    } else {
        s
    }
}

/// Drop a byte order mark at the start of a text.
pub fn strip_bom_mark(s: &str) -> (r: String)
    ensures
        r@ == without_bom(s@),
{
    let v = text::chars_of(s);
    if v.len() > 0 && v[0] == '\u{feff}' {
        proof {
            assert(v@.subrange(1, v@.len() as int) =~= v@.skip(1));
        }
        text::string_of(v.as_slice(), 1, v.len())
    } else {
        text::owned(s)
    }
}

/// A line that may stand in front of the first header: blank, or an envelope marker.
pub open spec fn is_preamble(line: Seq<char>) -> bool {
    text::is_blank(text::strip_cr(line)) || tokenizer::envelope_marker(text::strip_cr(line))
}

/// The lines from the first one on that is not preamble.
pub open spec fn drop_preamble(lines: Seq<Seq<char>>) -> Seq<Seq<char>>
    decreases lines.len(),
{
    if lines.len() > 0 && is_preamble(lines[0]) {
        drop_preamble(lines.skip(1))
    } else {
        lines
    }
}

/// A text without a byte order mark and without preamble lines.
pub open spec fn body_of(s: Seq<char>) -> Seq<char> {
    text::unlines(drop_preamble(text::lines(without_bom(s))))
}

fn strip_leading_blank_lines(input: &str) -> (r: String)
    ensures
        r@ == body_of(input@),
{
    let bare = strip_bom_mark(input);
    let lines = text::lines_of(bare.as_str());
    let ghost ls = views::texts(lines@);
    let mut i: usize = 0;
    let mut more = true;
    assert(ls.skip(0) =~= ls);
    while more && i < lines.len()
        invariant
            ls == views::texts(lines@),
            i <= lines@.len(),
            drop_preamble(ls.skip(i as int)) == drop_preamble(ls),
            !more ==> i < lines@.len() && !is_preamble(ls[i as int]),
        decreases lines@.len() - i, (if more { 1int } else { 0int }),
    {
        assert(ls.skip(i as int)[0] == lines@[i as int]@);
        let head = text::without_cr(lines[i].as_str());
        if text::blank(head.as_str()) || is_envelope_marker(head.as_str()) {
            proof {
                assert(ls.skip(i as int).skip(1) =~= ls.skip(i + 1));
            }
            i = i + 1;
        } else {
            more = false;
        }
    }
    let mut kept: Vec<String> = Vec::new();
    let ghost rest = ls.skip(i as int);
    proof {
        if i < lines@.len() {
            assert(rest[0] == ls[i as int]);
        }
        assert(drop_preamble(rest) == rest);
    }
    for j in i..lines.len()
        invariant
            i <= lines@.len(),
            ls == views::texts(lines@),
            rest == ls.skip(i as int),
            views::texts(kept@) == rest.take(j - i),
    {
        proof {
            views::lemma_take_step(rest, j - i);
        }
        kept.push(lines[j].clone());
    }
    proof {
        views::lemma_take_all(rest);
    }
    text::join_lines(kept.as_slice())
}

/// Some line of a text is a hunk header.
pub open spec fn has_operation(s: Seq<char>) -> bool {
    exists|i: int|
        0 <= i < text::lines(s).len() && tokenizer::hunk_header(#[trigger] text::lines(s)[i])
            is Some
}

fn contains_recognizable_hashline_operations(input: &str) -> (r: bool)
    ensures
        r == has_operation(input@),
{
    let lines = text::lines_of(input);
    let ghost ls = text::lines(input@);
    for i in 0..lines.len()
        invariant
            ls == views::texts(lines@),
            ls == text::lines(input@),
            forall|j: int| 0 <= j < i ==> !(tokenizer::hunk_header(#[trigger] ls[j]) is Some),
    {
        assert(ls[i as int] == lines@[i as int]@);
        if is_op(lines[i].as_str()) {
            assert(tokenizer::hunk_header(ls[i as int]) is Some);
            return true;
        }
    }
    false
}

/// Some line of a text is a section header.
pub open spec fn has_header(s: Seq<char>) -> bool {
    exists|i: int|
        0 <= i < text::lines(s).len() && is_header_line(#[trigger] text::lines(s)[i])
}

/// A line is a section header.
pub open spec fn is_header_line(line: Seq<char>) -> bool {
    header_line(line) matches Ok(Some(_))
}

fn contains_header(input: &str) -> (r: bool)
    ensures
        r == has_header(input@),
{
    let lines = text::lines_of(input);
    let ghost ls = text::lines(input@);
    for i in 0..lines.len()
        invariant
            ls == views::texts(lines@),
            ls == text::lines(input@),
            forall|j: int| 0 <= j < i ==> !is_header_line(#[trigger] ls[j]),
    {
        assert(ls[i as int] == lines@[i as int]@);
        match parse_hashline_header_line(lines[i].as_str()) {
            Ok(Some(h)) => {
                assert(is_header_line(ls[i as int]));
                return true;
            },
            _ => {},
        }
    }
    false
}

/// The input with a header for the fallback path in front, when the input has
/// operations but no header of its own.
pub open spec fn with_fallback(input: Seq<char>, fallback: Option<Seq<char>>) -> Seq<char> {
    match fallback {
        None => input,
        Some(p) => if has_header(without_bom(input)) || !has_operation(input) || path_of(p).len()
            == 0 {
            input
        } else {
            "["@ + path_of(p) + "]\n"@ + input
        },
    }
}

fn normalize_fallback_input(input: &str, options: &SplitOptions) -> (r: String)
    ensures
        r@ == with_fallback(input@, views::opt_text(options.path)),
{
    match &options.path {
        None => text::owned(input),
        Some(p) => {
            let bare = strip_bom_mark(input);
            if contains_header(bare.as_str()) || !contains_recognizable_hashline_operations(input) {
                return text::owned(input);
            }
            let path = normalize_hashline_path(p.as_str());
            if path.as_str().is_empty() {
                return text::owned(input);
            }
            let mut s = text::owned("[");
            s.append(path.as_str());
            s.append("]\n");
            s.append(input);
            s
        },
    }
}

// ── Splitting ────────────────────────────────────────────────────────────

/// A section before its body is parsed.
pub struct RawSection {
    pub path: String,
    pub file_hash: Option<String>,
    pub diff: String,
}

/// The model of a [`RawSection`].
#[verifier::ext_equal]
pub struct RawSectionView {
    pub path: Seq<char>,
    pub file_hash: Option<Seq<char>>,
    pub diff: Seq<char>,
}

impl View for RawSection {
    type V = RawSectionView;

    open spec fn view(&self) -> RawSectionView {
        RawSectionView {
            path: self.path@,
            file_hash: views::opt_text(self.file_hash),
            diff: self.diff@,
        }
    }
}

/// The state of the splitter between two lines.
#[verifier::ext_equal]
pub struct SplitView {
    pub sections: Seq<RawSectionView>,
    pub current: Option<(Seq<char>, Option<Seq<char>>)>,
    pub lines: Seq<Seq<char>>,
    /// An end marker was read.
    pub stopped: bool,
    /// A bracketed line that is no header was read.
    pub error: Option<Seq<char>>,
}

/// Some line is not blank.
pub open spec fn any_text(lines: Seq<Seq<char>>) -> bool {
    exists|i: int| 0 <= i < lines.len() && !text::is_blank(#[trigger] lines[i])
}

/// The sections with the current one, if its body is not blank.
pub open spec fn closed_section(st: SplitView) -> Seq<RawSectionView> {
    match st.current {
        Some((path, file_hash)) => if any_text(st.lines) {
            st.sections.push(RawSectionView { path, file_hash, diff: text::unlines(st.lines) })
        } else {
            st.sections
        },
        None => st.sections,
    }
}

/// The state after a line.
pub open spec fn split_line(st: SplitView, line: Seq<char>) -> SplitView {
    if st.stopped || st.error is Some {
        st
    } else {
        match tokenizer::token_of(line, 1) {
            TokenView::EnvelopeEnd { .. } => SplitView { stopped: true, ..st },
            TokenView::Abort { .. } => SplitView { stopped: true, ..st },
            TokenView::EnvelopeBegin { .. } => st,
            _ => match header_line(line) {
                Err(e) => SplitView { error: Some(e), ..st },
                Ok(Some(h)) => SplitView {
                    sections: closed_section(st),
                    current: Some(h),
                    lines: Seq::empty(),
                    ..st
                },
                Ok(None) => SplitView { lines: st.lines.push(line), ..st },
            },
        }
    }
}

/// The state after a list of lines.
pub open spec fn split_lines(lines: Seq<Seq<char>>) -> SplitView
    decreases lines.len(),
{
    if lines.len() == 0 {
        SplitView {
            sections: Seq::empty(),
            current: None,
            lines: Seq::empty(),
            stopped: false,
            error: None,
        }
    } else {
        split_line(split_lines(lines.drop_last()), lines.last())
    }
}

/// The message for an input that begins like a unified diff.
pub const UNIFIED_INPUT: &'static str =
    "unified-diff hunk header (`@@ -N,M +N,M @@`) is not valid in hashline. File sections start with `[path#HASH]`; use `SWAP`, `DEL`, or `INS` ops.";

/// The message for an input whose first line is no header; `quoted` is the start of that
/// line in quotes.
pub open spec fn no_header_message(quoted: Seq<char>) -> Seq<char> {
    "input must begin with \"[PATH#HASH]\" on the first non-blank line for anchored edits; got: "@
        + quoted + ". Example: \"[src/foo.ts#1A2B]\" then edit ops."@
}

/// The raw sections of an input.
pub open spec fn raw_sections(input: Seq<char>, fallback: Option<Seq<char>>) -> Result<
    Seq<RawSectionView>,
    Seq<char>,
> {
    let lines = tokenizer::diff_lines(body_of(with_fallback(input, fallback)));
    let first = if lines.len() > 0 {
        lines[0]
    } else {
        Seq::empty()
    };
    match header_line(first) {
        Err(e) => Err(e),
        Ok(None) => if engines::found(
            patterns::UNIFIED_DIFF_HUNK_PATTERN@,
            text::trim_end(first),
        ) {
            Err(UNIFIED_INPUT@)
        } else {
            Err(no_header_message(engines::debug_text(numbers::clip(first, 120))))
        },
        Ok(Some(_)) => {
            let end = split_lines(lines);
            match end.error {
                Some(e) => Err(e),
                None => Ok(closed_section(end)),
            }
        },
    }
}

fn has_text(lines: &[String]) -> (r: bool)
    ensures
        r == any_text(views::texts(lines@)),
{
    let ghost ls = views::texts(lines@);
    for i in 0..lines.len()
        invariant
            ls == views::texts(lines@),
            forall|j: int| 0 <= j < i ==> text::is_blank(#[trigger] ls[j]),
    {
        assert(ls[i as int] == lines@[i as int]@);
        if !text::blank(lines[i].as_str()) {
            return true;
        }
    }
    false
}

/// The model of an optional header.
pub open spec fn opt_header(o: Option<(String, Option<String>)>) -> Option<
    (Seq<char>, Option<Seq<char>>),
> {
    match o {
        Some(h) => Some((h.0@, views::opt_text(h.1))),
        None => None,
    }
}

fn flush_current(
    sections: &mut Vec<RawSection>,
    current: Option<(String, Option<String>)>,
    lines: &[String],
    Ghost(st): Ghost<SplitView>,
)
    requires
        st.sections == views::all(old(sections)@),
        st.current == opt_header(current),
        st.lines == views::texts(lines@),
    ensures
        views::all(final(sections)@) == closed_section(st),
{
    match current {
        Some((path, file_hash)) => {
            if has_text(lines) {
                sections.push(RawSection { path, file_hash, diff: text::join_lines(lines) });
            }
        },
        None => {},
    }
}

/// A list of raw sections, or an error, says what is wanted.
pub open spec fn same_sections(
    r: Result<Vec<RawSection>, String>,
    want: Result<Seq<RawSectionView>, Seq<char>>,
) -> bool {
    match (r, want) {
        (Ok(a), Ok(b)) => views::all(a@) == b,
        (Err(a), Err(b)) => a@ == b,
        _ => false,
    }
}

/// Split an input into raw sections. See [`raw_sections`].
pub fn split_raw_sections(input: &str, options: &SplitOptions) -> (r: Result<
    Vec<RawSection>,
    String,
>)
    ensures
        same_sections(r, raw_sections(input@, views::opt_text(options.path))),
{
    let whole = normalize_fallback_input(input, options);
    let body = strip_leading_blank_lines(whole.as_str());
    let lines = split_hashline_lines(body.as_str());
    let ghost ls = views::texts(lines@);
    let first = if lines.len() > 0 {
        assert(ls[0] == lines@[0]@);
        lines[0].clone()
    } else {
        String::new()
    };
    proof {
        if lines@.len() == 0 {
            assert(first@ =~= Seq::<char>::empty());
        }
        assert(ls.len() == lines@.len());
    }
    match parse_hashline_header_line(first.as_str()) {
        Err(e) => {
            return Err(e);
        },
        Ok(None) => {
            let head = text::trimmed_end(first.as_str());
            if engines::regex_find(patterns::UNIFIED_DIFF_HUNK_PATTERN, head.as_str()).is_some() {
                return Err(text::owned(UNIFIED_INPUT));
            }
            let (preview, cut) = numbers::clipped(first.as_str(), 120);
            let quoted = engines::debug_quoted(preview.as_str());
            let mut m = text::owned(
                "input must begin with \"[PATH#HASH]\" on the first non-blank line for anchored edits; got: ",
            );
            m.append(quoted.as_str());
            m.append(". Example: \"[src/foo.ts#1A2B]\" then edit ops.");
            return Err(m);
        },
        Ok(Some(h)) => {},
    }
    let mut sections: Vec<RawSection> = Vec::new();
    let mut current: Option<(String, Option<String>)> = None;
    let mut rows: Vec<String> = Vec::new();
    let mut stopped = false;
    let mut error: Option<String> = None;
    proof {
        assert(views::all(sections@) =~= Seq::empty());
        assert(views::texts(rows@) =~= Seq::empty());
    }
    for i in 0..lines.len()
        invariant
            ls == views::texts(lines@),
            split_lines(ls.take(i as int)) == (SplitView {
                sections: views::all(sections@),
                current: opt_header(current),
                lines: views::texts(rows@),
                stopped,
                error: views::opt_text(error),
            }),
    {
        let ghost st = split_lines(ls.take(i as int));
        proof {
            views::lemma_take_step(ls, i as int);
            assert(ls[i as int] == lines@[i as int]@);
        }
        if !stopped && error.is_none() {
            let line = lines[i].as_str();
            match tokenize_line(line, 1) {
                Token::EnvelopeEnd { line_num } => {
                    stopped = true;
                },
                Token::Abort { line_num } => {
                    stopped = true;
                },
                Token::EnvelopeBegin { line_num } => {},
                _ => {
                    match parse_hashline_header_line(line) {
                        Err(e) => {
                            error = Some(e);
                        },
                        Ok(Some(h)) => {
                            flush_current(&mut sections, current, rows.as_slice(), Ghost(st));
                            current = Some(h);
                            rows = Vec::new();
                            proof {
                                assert(views::texts(rows@) =~= Seq::empty());
                            }
                        },
                        Ok(None) => {
                            rows.push(text::owned(line));
                        },
                    }
                },
            }
        }
    }
    let ghost st = split_lines(ls);
    proof {
        views::lemma_take_all(ls);
    }
    match error {
        Some(e) => Err(e),
        None => {
            flush_current(&mut sections, current, rows.as_slice(), Ghost(st));
            Ok(sections)
        },
    }
}

// ── Merging ──────────────────────────────────────────────────────────────

/// The position of the section for a path, from `i` on.
pub open spec fn section_index(sections: Seq<RawSectionView>, path: Seq<char>, i: int) -> int
    decreases sections.len() - i,
{
    if i < 0 || i >= sections.len() || sections[i].path == path {
        i
    } else {
        section_index(sections, path, i + 1)
    }
}

/// The message for two tags on one path.
pub open spec fn tag_conflict(path: Seq<char>, a: Seq<char>, b: Seq<char>) -> Seq<char> {
    "Conflicting hashline snapshot tags for "@ + path + ": #"@ + a + " and #"@ + b
        + ". Re-read the file and retry with one current header."@
}

/// The merged sections with one more: it joins the section for its path, if there is
/// one, and its tag must not conflict.
pub open spec fn merged_one(
    done: Result<Seq<RawSectionView>, Seq<char>>,
    section: RawSectionView,
) -> Result<Seq<RawSectionView>, Seq<char>> {
    match done {
        Err(e) => Err(e),
        Ok(sections) => {
            let k = section_index(sections, section.path, 0);
            if k >= sections.len() {
                Ok(sections.push(section))
            } else {
                match (sections[k].file_hash, section.file_hash) {
                    (Some(a), Some(b)) => if a != b {
                        Err(tag_conflict(section.path, a, b))
                    } else {
                        Ok(sections.update(k, joined_section(sections[k], section)))
                    },
                    _ => Ok(sections.update(k, joined_section(sections[k], section))),
                }
            }
        },
    }
}

/// Two sections of one path as one.
pub open spec fn joined_section(a: RawSectionView, b: RawSectionView) -> RawSectionView {
    RawSectionView {
        path: a.path,
        file_hash: match a.file_hash {
            Some(h) => Some(h),
            None => b.file_hash,
        },
        diff: a.diff + "\n"@ + b.diff,
    }
}

/// Sections with those of the same path merged, in the order in which paths first occur.
pub open spec fn merged(sections: Seq<RawSectionView>) -> Result<Seq<RawSectionView>, Seq<char>>
    decreases sections.len(),
{
    if sections.len() == 0 {
        Ok(Seq::empty())
    } else {
        merged_one(merged(sections.drop_last()), sections.last())
    }
}

fn find_section(sections: &[RawSection], path: &str) -> (r: usize)
    ensures
        r == section_index(views::all(sections@), path@, 0),
        r <= sections@.len(),
{
    let ghost vs = views::all(sections@);
    let mut i: usize = 0;
    while i < sections.len() && !text::same(sections[i].path.as_str(), path)
        invariant
            vs == views::all(sections@),
            i <= sections@.len(),
            section_index(vs, path@, i as int) == section_index(vs, path@, 0),
        decreases sections@.len() - i,
    {
        assert(vs[i as int] == sections@[i as int]@);
        i = i + 1;
    }
    proof {
        if i < sections@.len() {
            assert(vs[i as int] == sections@[i as int]@);
        }
    }
    i
}

/// Merge sections of the same path. See [`merged`].
pub fn merge_same_path_sections(sections: Vec<RawSection>) -> (r: Result<Vec<RawSection>, String>)
    ensures
        same_sections(r, merged(views::all(sections@))),
{
    let ghost vs = views::all(sections@);
    let mut out: Vec<RawSection> = Vec::new();
    let mut error: Option<String> = None;
    proof {
        assert(views::all(out@) =~= Seq::empty());
    }
    for i in 0..sections.len()
        invariant
            vs == views::all(sections@),
            match error {
                None => merged(vs.take(i as int)) == Ok::<Seq<RawSectionView>, Seq<char>>(
                    views::all(out@),
                ),
                Some(e) => merged(vs.take(i as int)) == Err::<Seq<RawSectionView>, Seq<char>>(e@),
            },
    {
        proof {
            views::lemma_take_step(vs, i as int);
            assert(vs[i as int] == sections@[i as int]@);
        }
        if error.is_none() {
            let section = &sections[i];
            let ghost before = views::all(out@);
            let k: usize = find_section(out.as_slice(), section.path.as_str());
            if k >= out.len() {
                out.push(
                    RawSection {
                        path: section.path.clone(),
                        file_hash: text::clone_opt(&section.file_hash),
                        diff: section.diff.clone(),
                    },
                );
            } else {
                assert(before[k as int] == out@[k as int]@);
                let mut conflict: Option<String> = None;
                match (&out[k].file_hash, &section.file_hash) {
                    (Some(a), Some(b)) => {
                        if *a != *b {
                            let mut m = text::owned("Conflicting hashline snapshot tags for ");
                            m.append(section.path.as_str());
                            m.append(": #");
                            m.append(a.as_str());
                            m.append(" and #");
                            m.append(b.as_str());
                            m.append(". Re-read the file and retry with one current header.");
                            conflict = Some(m);
                        }
                    },
                    _ => {},
                }
                if conflict.is_some() {
                    error = conflict;
                } else {
                    let mut diff = out[k].diff.clone();
                    diff.append("\n");
                    diff.append(section.diff.as_str());
                    let file_hash = match &out[k].file_hash {
                        Some(h) => Some(h.clone()),
                        None => text::clone_opt(&section.file_hash),
                    };
                    let joined = RawSection { path: out[k].path.clone(), file_hash, diff };
                    out.set(k, joined);
                }
            }
        }
    }
    proof {
        views::lemma_take_all(vs);
    }
    match error {
        Some(e) => Err(e),
        None => Ok(out),
    }
}

// ── Parsing ──────────────────────────────────────────────────────────────

/// A raw section with its body parsed.
pub open spec fn section_of(raw: RawSectionView) -> PatchSectionView {
    let p = parser::parsed(raw.diff);
    PatchSectionView {
        path: raw.path,
        file_hash: raw.file_hash,
        edits: p.edits,
        file_op: p.file_op,
        warnings: p.warnings,
    }
}

/// The sections of an input. An input that cannot be split, or whose sections conflict,
/// has none.
pub open spec fn sections(input: Seq<char>, fallback: Option<Seq<char>>) -> Seq<PatchSectionView> {
    match raw_sections(input, fallback) {
        Err(_) => Seq::empty(),
        Ok(raw) => match merged(raw) {
            Err(_) => Seq::empty(),
            Ok(done) => done.map_values(|s: RawSectionView| section_of(s)),
        },
    }
}

/// Parse a complete patch with `[path#TAG]` section headers into a list of sections,
/// each with its edits, file operation, and warnings.
pub fn parse_sections(input: &str) -> (r: Vec<PatchSection>)
    ensures
        views::all(r@) == sections(input@, None),
{
    parse_sections_with_options(input, &SplitOptions::default())
}

/// Parse with explicit split options (fallback path).
pub fn parse_sections_with_options(input: &str, options: &SplitOptions) -> (r: Vec<PatchSection>)
    ensures
        views::all(r@) == sections(input@, views::opt_text(options.path)),
{
    let raw = match split_raw_sections(input, options) {
        Ok(raw) => raw,
        Err(e) => {
            let none: Vec<PatchSection> = Vec::new();
            proof {
                assert(views::all(none@) =~= Seq::empty());
            }
            return none;
        },
    };
    let done = match merge_same_path_sections(raw) {
        Ok(done) => done,
        Err(e) => {
            let none: Vec<PatchSection> = Vec::new();
            proof {
                assert(views::all(none@) =~= Seq::empty());
            }
            return none;
        },
    };
    let ghost vd = views::all(done@);
    let ghost goal = vd.map_values(|s: RawSectionView| section_of(s));
    let mut out: Vec<PatchSection> = Vec::new();
    for i in 0..done.len()
        invariant
            vd == views::all(done@),
            goal == vd.map_values(|s: RawSectionView| section_of(s)),
            views::all(out@) == goal.take(i as int),
    {
        proof {
            views::lemma_take_step(goal, i as int);
            assert(vd[i as int] == done@[i as int]@);
        }
        let s = &done[i];
        let p = parse_patch(s.diff.as_str());
        out.push(
            PatchSection {
                path: s.path.clone(),
                file_hash: text::clone_opt(&s.file_hash),
                edits: p.edits,
                file_op: p.file_op,
                warnings: p.warnings,
            },
        );
        assert(out@.last()@ =~= goal[i as int]);
    }
    proof {
        views::lemma_take_all(goal);
    }
    out
}

// ── Laws ─────────────────────────────────────────────────────────────────

/// The header that a file is shown with names the file and its tag when it comes back in
/// a patch.
pub proof fn law_header_read_back(path: Seq<char>, content: Seq<char>)
    requires
        path.len() > 0,
        !path.contains('#'),
    ensures
        tokenizer::section_header(crate::format::header(path, crate::format::tag(content)))
            == Some((path, Some(crate::format::tag(content)))),
        path_of(path) == path ==> header_line(
            crate::format::header(path, crate::format::tag(content)),
        ) == Ok::<Option<(Seq<char>, Option<Seq<char>>)>, Seq<char>>(
            Some((path, Some(crate::format::tag(content)))),
        ),
{
    let tag = crate::format::tag(content);
    let line = crate::format::header(path, tag);
    crate::format::law_tag_shape(content);
    reveal_strlit("[");
    reveal_strlit("]");
    let n = path.len() as int;
    assert(line.len() == n + 7);
    assert(line[0] == '[');
    assert(line.last() == ']');
    assert(tokenizer::trim_ascii(line) == line);
    let body = line.subrange(1, line.len() - 1);
    assert(body =~= path + seq!['#'] + tag);
    assert(body[n + 1] == tag[0] && body[n + 2] == tag[1] && body[n + 3] == tag[2] && body[n + 4]
        == tag[3]);
    assert(tokenizer::ends_in_tag(body));
    assert(body.subrange(0, body.len() - 5) =~= path);
    let last = body.subrange(body.len() - 4, body.len() as int);
    assert(last =~= tag);
    assert(text::upper(tag) =~= tag);
    assert(text::trim_end(line) == line);
}

/// A plain path is taken as it is written, with white space around it or without, in quotes or
/// without.
pub proof fn law_plain_path(before: Seq<char>, path: Seq<char>, after: Seq<char>, quote: char)
    requires
        path.len() > 0,
        !path.contains(':'),
        path[0] != '*',
        path[0] != '"',
        path[0] != '\'',
        !text::is_white(path[0]),
        !text::is_white(path.last()),
        text::all_white(before),
        text::all_white(after),
        quote == '"' || quote == '\'',
    ensures
        path_of(before + path + after) == path,
        path_of(before + (seq![quote] + path + seq![quote]) + after) == path,
{
    lemma_plain_noise(path);
    text::law_trim(before, path, after);
    let quoted = seq![quote] + path + seq![quote];
    assert(quoted[0] == quote && quoted.last() == quote);
    assert(!text::is_white(quote));
    text::law_trim(before, quoted, after);
    assert(quoted.subrange(1, quoted.len() - 1) =~= path);
    assert(tokenizer::unquoted(quoted) == path);
    assert(tokenizer::unquoted(path) == path);
}

proof fn lemma_plain_noise(path: Seq<char>)
    requires
        path.len() > 0,
        !path.contains(':'),
        path[0] != '*',
        !text::is_white(path[0]),
    ensures
        noise_free(path) == path,
{
    assert(drop_stars(path) == path);
    assert(text::trim_start(path) == path);
    reveal_strlit("update");
    reveal_strlit("add");
    reveal_strlit("delete");
    reveal_strlit("move");
    assert(text::lower(path).len() == path.len());
    let k = operation_word(path);
    let rest = path.skip(k);
    assert(k <= path.len());
    if k > 0 {
        let colon = text::find_char(rest, ':', 0);
        text::lemma_find_char(rest, ':', 0);
        if colon < rest.len() {
            assert(path[k + colon] == ':');
            assert(path.contains(path[k + colon]));
        }
    }
}

} // verus!
