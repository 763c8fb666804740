//! Prefixes that read output puts in front of lines.
//!
//! Helpers that detect and strip hashline line-number prefixes (`123:`), diff-style
//! `+` prefixes, and read-output truncation notices from payloads authored against
//! `read`/`search` output. Two strip modes:
//!
//! - `strip_new_line_prefixes` is opportunistic: it strips when the input clearly
//!   carries hashline or diff prefixes, and leaves it alone otherwise.
//! - `strip_hashline_prefixes` is strict: it only strips when every non-empty
//!   content line is hashline-prefixed.

use vstd::prelude::*;

use crate::engines;
use crate::engines::RegexMatch;
use crate::patterns;
use crate::text;
use crate::views;

verus! {

broadcast use {crate::views::group_all, crate::views::group_texts};

// ── Removing a match ─────────────────────────────────────────────────────

/// A text without the match that was found in it.
pub open spec fn without_match(
    s: Seq<char>,
    found: Option<(Seq<char>, Seq<Option<Seq<char>>>, Seq<char>)>,
) -> Seq<char> {
    match found {
        Some(m) => m.0 + m.2,
        None => s,
    }
}

/// See [`without_match`].
pub fn remove_match(s: &str, found: &Option<RegexMatch>) -> (r: String)
    ensures
        r@ == without_match(s@, engines::match_view(*found)),
{
    match found {
        Some(m) => {
            let mut t = m.before.clone();
            t.append(m.after.as_str());
            t
        },
        None => text::owned(s),
    }
}

/// A line without the hashline prefix at its start, if it has one.
pub open spec fn stripped_once(s: Seq<char>) -> Seq<char> {
    without_match(s, engines::regex_search(patterns::HL_PREFIX_PATTERN@, s))
}

/// A line has no hashline prefix.
pub open spec fn is_bare(s: Seq<char>) -> bool {
    !engines::found(patterns::HL_PREFIX_PATTERN@, s)
}

/// A line without the hashline prefixes at its start, however many it has.
pub open spec fn stripped_all(s: Seq<char>) -> Seq<char>
    decreases s.len(),
{
    let t = stripped_once(s);
    if t.len() < s.len() {
        stripped_all(t)
    } else {
        s
    }
}

/// Strip at most one leading hashline prefix (`N:`, `>>>N:`, `+N:` etc.).
pub fn strip_one_leading_hashline_prefix(line: &str) -> (r: String)
    ensures
        r@ == stripped_once(line@),
        r@.len() <= line@.len(),
        r@.len() == line@.len() <==> is_bare(line@),
{
    let found = engines::regex_find(patterns::HL_PREFIX_PATTERN, line);
    remove_match(line, &found)
}

/// Repeatedly strip leading hashline prefixes until none remain.
pub fn strip_leading_hashline_prefixes(line: &str) -> (r: String)
    ensures
        r@ == stripped_all(line@),
        is_bare(r@),
{
    let mut result = text::owned(line);
    let mut size: usize = text::char_count(line);
    loop
        invariant
            size == result@.len(),
            stripped_all(result@) == stripped_all(line@),
        decreases size,
    {
        let next = strip_one_leading_hashline_prefix(result.as_str());
        let n: usize = text::char_count(next.as_str());
        if n == size {
            return result;
        }
        result = next;
        size = n;
    }
}

// ── Diff-style plus ──────────────────────────────────────────────────────

/// A line that starts with `+` not followed by another `+`.
pub open spec fn plus_line(s: Seq<char>) -> bool {
    s.len() > 0 && s[0] == '+' && !(s.len() > 1 && s[1] == '+')
}

/// See [`plus_line`].
pub fn is_diff_plus(line: &str) -> (r: bool)
    ensures
        r == plus_line(line@),
{
    let v = text::chars_of(line);
    v.len() > 0 && v[0] == '+' && !(v.len() > 1 && v[1] == '+')
}

/// A line without a single leading `+`.
pub open spec fn without_plus(s: Seq<char>) -> Seq<char> {
    if plus_line(s) {
        s.skip(1)
    } else {
        s
    }
}

/// Strip a single leading `+` that is not followed by another `+`.
pub fn strip_diff_plus_prefix(line: &str) -> (r: String)
    ensures
        r@ == without_plus(line@),
{
    if is_diff_plus(line) {
        let v = text::chars_of(line);
        proof {
            assert(v@.subrange(1, v@.len() as int) =~= line@.skip(1));
        }
        text::string_of(v.as_slice(), 1, v.len())
    } else {
        text::owned(line)
    }
}

// ── The shape of a line ──────────────────────────────────────────────────

/// A line and what the prefix patterns say of it.
pub struct Shape {
    pub line: String,
    /// A read/search truncation notice.
    pub notice: bool,
    /// A `[path#TAG]` header.
    pub header: bool,
    /// Starts with a hashline prefix.
    pub prefixed: bool,
    /// Starts with a hashline prefix behind a `+`.
    pub plus_prefixed: bool,
    /// The line without its first prefix.
    pub once: String,
    /// The line without any of its prefixes.
    pub bare: String,
}

/// The model of a [`Shape`].
#[verifier::ext_equal]
pub struct ShapeView {
    pub line: Seq<char>,
    pub notice: bool,
    pub header: bool,
    pub prefixed: bool,
    pub plus_prefixed: bool,
    pub once: Seq<char>,
    pub bare: Seq<char>,
}

impl View for Shape {
    type V = ShapeView;

    open spec fn view(&self) -> ShapeView {
        ShapeView {
            line: self.line@,
            notice: self.notice,
            header: self.header,
            prefixed: self.prefixed,
            plus_prefixed: self.plus_prefixed,
            once: self.once@,
            bare: self.bare@,
        }
    }
}

/// The shape of a line.
pub open spec fn shape_of(s: Seq<char>) -> ShapeView {
    ShapeView {
        line: s,
        notice: engines::found(patterns::READ_TRUNCATION_NOTICE_PATTERN@, s),
        header: engines::found(patterns::HL_HEADER_PATTERN@, s),
        prefixed: engines::found(patterns::HL_PREFIX_PATTERN@, s),
        plus_prefixed: engines::found(patterns::HL_PREFIX_PLUS_PATTERN@, s),
        once: stripped_once(s),
        bare: stripped_all(s),
    }
}

/// The shapes of a list of lines.
pub open spec fn shapes_of(lines: Seq<Seq<char>>) -> Seq<ShapeView> {
    lines.map_values(|s: Seq<char>| shape_of(s))
}

/// Find the shape of every line.
pub fn shape_lines(lines: &[String]) -> (r: Vec<Shape>)
    ensures
        views::all(r@) == shapes_of(views::texts(lines@)),
        forall|i: int| 0 <= i < lines@.len() ==> is_bare(stripped_all(#[trigger] lines@[i]@)),
{
    let notices = engines::regex_find_each(patterns::READ_TRUNCATION_NOTICE_PATTERN, lines);
    let headers = engines::regex_find_each(patterns::HL_HEADER_PATTERN, lines);
    let prefixed = engines::regex_find_each(patterns::HL_PREFIX_PATTERN, lines);
    let plus = engines::regex_find_each(patterns::HL_PREFIX_PLUS_PATTERN, lines);
    let ghost goal = shapes_of(views::texts(lines@));
    let mut out: Vec<Shape> = Vec::new();
    for i in 0..lines.len()
        invariant
            notices@.len() == lines@.len(),
            headers@.len() == lines@.len(),
            prefixed@.len() == lines@.len(),
            plus@.len() == lines@.len(),
            forall|j: int|
                0 <= j < lines@.len() ==> #[trigger] notices@[j] == engines::found(
                    patterns::READ_TRUNCATION_NOTICE_PATTERN@,
                    lines@[j]@,
                ),
            forall|j: int|
                0 <= j < lines@.len() ==> #[trigger] headers@[j] == engines::found(
                    patterns::HL_HEADER_PATTERN@,
                    lines@[j]@,
                ),
            forall|j: int|
                0 <= j < lines@.len() ==> #[trigger] prefixed@[j] == engines::found(
                    patterns::HL_PREFIX_PATTERN@,
                    lines@[j]@,
                ),
            forall|j: int|
                0 <= j < lines@.len() ==> #[trigger] plus@[j] == engines::found(
                    patterns::HL_PREFIX_PLUS_PATTERN@,
                    lines@[j]@,
                ),
            goal == shapes_of(views::texts(lines@)),
            views::all(out@) == goal.take(i as int),
            forall|j: int| 0 <= j < i ==> is_bare(stripped_all(#[trigger] lines@[j]@)),
    {
        let line = lines[i].as_str();
        let (once, bare) = if prefixed[i] {
            (strip_one_leading_hashline_prefix(line), strip_leading_hashline_prefixes(line))
        } else {
            (text::owned(line), text::owned(line))
        };
        out.push(
            Shape {
                line: text::owned(line),
                notice: notices[i],
                header: headers[i],
                prefixed: prefixed[i],
                plus_prefixed: plus[i],
                once,
                bare,
            },
        );
        proof {
            views::lemma_take_step(goal, i as int);
            assert(out@.last()@ == shape_of(lines@[i as int]@));
        }
    }
    proof {
        views::lemma_take_all(goal);
    }
    out
}

// ── Statistics ───────────────────────────────────────────────────────────

/// How many lines carry which prefix.
#[derive(Clone, Copy)]
pub struct LinePrefixStats {
    /// Lines that are neither empty nor truncation notices.
    pub non_empty: usize,
    pub header_count: usize,
    pub hash_prefix_count: usize,
    pub diff_plus_hash_prefix_count: usize,
    pub diff_plus_count: usize,
}

/// A line of content: neither empty, nor a truncation notice, nor a header.
pub open spec fn is_content(s: ShapeView) -> bool {
    s.line.len() > 0 && !s.notice && !s.header
}

/// How many of the shapes have a property.
pub open spec fn count_if(shapes: Seq<ShapeView>, p: spec_fn(ShapeView) -> bool) -> nat
    decreases shapes.len(),
{
    if shapes.len() == 0 {
        0
    } else {
        count_if(shapes.drop_last(), p) + (if p(shapes.last()) {
            1nat
        } else {
            0nat
        })
    }
}

/// The number of content lines.
pub open spec fn content_count(shapes: Seq<ShapeView>) -> nat {
    count_if(shapes, |s: ShapeView| is_content(s))
}

/// The number of header lines.
pub open spec fn header_count(shapes: Seq<ShapeView>) -> nat {
    count_if(shapes, |s: ShapeView| s.line.len() > 0 && !s.notice && s.header)
}

/// The number of content lines with a hashline prefix.
pub open spec fn prefixed_count(shapes: Seq<ShapeView>) -> nat {
    count_if(shapes, |s: ShapeView| is_content(s) && s.prefixed)
}

/// The number of content lines with a hashline prefix behind a `+`.
pub open spec fn plus_prefixed_count(shapes: Seq<ShapeView>) -> nat {
    count_if(shapes, |s: ShapeView| is_content(s) && s.plus_prefixed)
}

/// The number of content lines that start with a single `+`.
pub open spec fn plus_count(shapes: Seq<ShapeView>) -> nat {
    count_if(shapes, |s: ShapeView| is_content(s) && plus_line(s.line))
}

fn collect_line_prefix_stats(shapes: &[Shape]) -> (r: LinePrefixStats)
    ensures
        r.header_count == header_count(views::all(shapes@)),
        r.non_empty == content_count(views::all(shapes@)) + header_count(views::all(shapes@)),
        r.hash_prefix_count == prefixed_count(views::all(shapes@)),
        r.diff_plus_hash_prefix_count == plus_prefixed_count(views::all(shapes@)),
        r.diff_plus_count == plus_count(views::all(shapes@)),
        r.diff_plus_count <= r.non_empty,
{
    let ghost vs = views::all(shapes@);
    let mut st = LinePrefixStats {
        non_empty: 0,
        header_count: 0,
        hash_prefix_count: 0,
        diff_plus_hash_prefix_count: 0,
        diff_plus_count: 0,
    };
    for i in 0..shapes.len()
        invariant
            vs == views::all(shapes@),
            st.header_count == header_count(vs.take(i as int)),
            st.non_empty == content_count(vs.take(i as int)) + header_count(vs.take(i as int)),
            st.hash_prefix_count == prefixed_count(vs.take(i as int)),
            st.diff_plus_hash_prefix_count == plus_prefixed_count(vs.take(i as int)),
            st.diff_plus_count == plus_count(vs.take(i as int)),
            st.non_empty <= i,
            st.header_count <= i,
            st.hash_prefix_count <= i,
            st.diff_plus_hash_prefix_count <= i,
            st.diff_plus_count <= st.non_empty,
    {
        proof {
            views::lemma_take_step(vs, i as int);
            assert(vs[i as int] == shapes@[i as int]@);
        }
        let s = &shapes[i];
        if !s.line.as_str().is_empty() && !s.notice {
            st.non_empty = st.non_empty + 1;
            if s.header {
                st.header_count = st.header_count + 1;
            } else {
                if s.prefixed {
                    st.hash_prefix_count = st.hash_prefix_count + 1;
                }
                if s.plus_prefixed {
                    st.diff_plus_hash_prefix_count = st.diff_plus_hash_prefix_count + 1;
                }
                if is_diff_plus(s.line.as_str()) {
                    st.diff_plus_count = st.diff_plus_count + 1;
                }
            }
        }
    }
    proof {
        views::lemma_take_all(vs);
    }
    st
}

// ── Stripping ────────────────────────────────────────────────────────────

/// What the opportunistic mode strips.
#[derive(Clone, Copy, PartialEq, Eq, Structural)]
pub enum Scheme {
    /// Nothing; lines stay as they are, notices included.
    Leave,
    /// Hashline prefixes, headers and notices.
    Hash,
    /// Leading `+` signs, and notices.
    Plus,
    /// Hashline prefixes of the lines that carry one behind a `+`, and notices.
    PlusHash,
}

/// The scheme that the lines carry: hashline prefixes when every content line has one;
/// else prefixes behind a `+` when one occurs; else `+` signs when at least half of the
/// lines start with one.
pub open spec fn scheme(shapes: Seq<ShapeView>) -> Scheme {
    let content = content_count(shapes);
    let non_empty = content + header_count(shapes);
    if content > 0 && prefixed_count(shapes) == content {
        Scheme::Hash
    } else if plus_prefixed_count(shapes) > 0 {
        Scheme::PlusHash
    } else if plus_count(shapes) > 0 && 2 * plus_count(shapes) >= non_empty {
        Scheme::Plus
    } else {
        Scheme::Leave
    }
}

/// A line under a scheme; `None` when the scheme drops it.
pub open spec fn under(s: ShapeView, scheme: Scheme) -> Option<Seq<char>> {
    match scheme {
        Scheme::Leave => Some(s.line),
        Scheme::Hash => if s.notice || s.header {
            None
        } else {
            Some(s.bare)
        },
        Scheme::Plus => if s.notice {
            None
        } else {
            Some(without_plus(s.line))
        },
        Scheme::PlusHash => if s.notice {
            None
        } else if s.plus_prefixed {
            Some(s.once)
        } else {
            Some(s.line)
        },
    }
}

/// The lines that a scheme leaves.
pub open spec fn all_under(shapes: Seq<ShapeView>, scheme: Scheme) -> Seq<Seq<char>>
    decreases shapes.len(),
{
    if shapes.len() == 0 {
        Seq::empty()
    } else {
        let rest = all_under(shapes.drop_last(), scheme);
        match under(shapes.last(), scheme) {
            Some(l) => rest.push(l),
            None => rest,
        }
    }
}

fn strip_scheme(shapes: &[Shape], scheme: Scheme) -> (r: Vec<String>)
    ensures
        views::texts(r@) == all_under(views::all(shapes@), scheme),
{
    let ghost vs = views::all(shapes@);
    let mut out: Vec<String> = Vec::new();
    for i in 0..shapes.len()
        invariant
            vs == views::all(shapes@),
            views::texts(out@) == all_under(vs.take(i as int), scheme),
    {
        proof {
            views::lemma_take_step(vs, i as int);
            assert(vs[i as int] == shapes@[i as int]@);
        }
        let s = &shapes[i];
        match scheme {
            Scheme::Leave => {
                out.push(s.line.clone());
            },
            Scheme::Hash => {
                if !s.notice && !s.header {
                    out.push(s.bare.clone());
                }
            },
            Scheme::Plus => {
                if !s.notice {
                    out.push(strip_diff_plus_prefix(s.line.as_str()));
                }
            },
            Scheme::PlusHash => {
                if !s.notice {
                    if s.plus_prefixed {
                        out.push(s.once.clone());
                    } else {
                        out.push(s.line.clone());
                    }
                }
            },
        }
    }
    proof {
        views::lemma_take_all(vs);
    }
    out
}

/// The opportunistic mode on shaped lines.
pub fn strip_new_line_shapes(shapes: &[Shape]) -> (r: Vec<String>)
    ensures
        views::texts(r@) == all_under(views::all(shapes@), scheme(views::all(shapes@))),
{
    let st = collect_line_prefix_stats(shapes);
    let content: usize = st.non_empty - st.header_count;
    let chosen = if content > 0 && st.hash_prefix_count == content {
        Scheme::Hash
    } else if st.diff_plus_hash_prefix_count > 0 {
        Scheme::PlusHash
    } else if st.diff_plus_count > 0 && st.diff_plus_count >= st.non_empty - st.diff_plus_count {
        Scheme::Plus
    } else {
        Scheme::Leave
    };
    strip_scheme(shapes, chosen)
}

/// The strict mode on shaped lines: hashline prefixes are stripped when every content
/// line has one.
pub fn strip_hashline_shapes(shapes: &[Shape]) -> (r: Vec<String>)
    ensures
        views::texts(r@) == all_under(
            views::all(shapes@),
            if scheme(views::all(shapes@)) == Scheme::Hash {
                Scheme::Hash
            } else {
                Scheme::Leave
            },
        ),
{
    let st = collect_line_prefix_stats(shapes);
    let content: usize = st.non_empty - st.header_count;
    let chosen = if content > 0 && st.hash_prefix_count == content {
        Scheme::Hash
    } else {
        Scheme::Leave
    };
    strip_scheme(shapes, chosen)
}

/// The lines without whichever prefix scheme they carry.
pub open spec fn new_lines_stripped(lines: Seq<Seq<char>>) -> Seq<Seq<char>> {
    all_under(shapes_of(lines), scheme(shapes_of(lines)))
}

/// Strip whichever prefix scheme the lines appear to be carrying:
/// - hashline line-number prefixes (`123:`) when every content line has one
/// - leading `+` (diff style) when at least half the lines have one
/// - mixed `+<n>:` form when present
///
/// Returns the lines untouched if no scheme is recognized.
pub fn strip_new_line_prefixes(lines: &[String]) -> (r: Vec<String>)
    ensures
        views::texts(r@) == new_lines_stripped(views::texts(lines@)),
{
    let shapes = shape_lines(lines);
    strip_new_line_shapes(shapes.as_slice())
}

/// The lines without their hashline prefixes, when every content line has one; else the
/// lines as they are.
pub open spec fn strictly_stripped(lines: Seq<Seq<char>>) -> Seq<Seq<char>> {
    all_under(
        shapes_of(lines),
        if scheme(shapes_of(lines)) == Scheme::Hash {
            Scheme::Hash
        } else {
            Scheme::Leave
        },
    )
}

/// Strict variant: strip hashline prefixes only when every content line is
/// hashline-prefixed. Returns the lines unchanged otherwise. To strip the result again
/// changes nothing.
pub fn strip_hashline_prefixes(lines: &[String]) -> (r: Vec<String>)
    ensures
        views::texts(r@) == strictly_stripped(views::texts(lines@)),
        strictly_stripped(views::texts(r@)) == views::texts(r@),
{
    let shapes = shape_lines(lines);
    proof {
        let vl = views::texts(lines@);
        assert forall|i: int| 0 <= i < vl.len() implies is_bare(
            stripped_all(#[trigger] vl[i]),
        ) by {
            assert(vl[i] == lines@[i]@);
        }
        law_strip_once(vl);
    }
    strip_hashline_shapes(shapes.as_slice())
}

/// A text without its carriage returns.
pub open spec fn without_crs(s: Seq<char>) -> Seq<char>
    decreases s.len(),
{
    if s.len() == 0 {
        Seq::empty()
    } else if s.last() == '\r' {
        without_crs(s.drop_last())
    } else {
        without_crs(s.drop_last()).push(s.last())
    }
}

/// The lines of a payload: one line feed at the end and all carriage returns do not
/// count. An empty payload has none.
pub open spec fn payload_lines(s: Seq<char>) -> Seq<Seq<char>> {
    if s.len() == 0 {
        Seq::empty()
    } else {
        text::lines(
            without_crs(
                if s.last() == '\n' {
                    s.drop_last()
                } else {
                    s
                },
            ),
        )
    }
}

/// Normalize a payload by stripping read/search line prefixes from its lines. Empty
/// input yields no lines.
pub fn hashline_parse_text(edit: &str) -> (r: Vec<String>)
    ensures
        views::texts(r@) == new_lines_stripped(payload_lines(edit@)),
{
    let v = text::chars_of(edit);
    let n: usize = v.len();
    if n == 0 {
        let none: Vec<String> = Vec::new();
        return strip_new_line_prefixes(none.as_slice());
    }
    let end: usize = if v[n - 1] == '\n' {
        n - 1
    } else {
        n
    };
    let ghost kept = v@.take(end as int);
    proof {
        if end == n {
            views::lemma_take_all(v@);
        } else {
            assert(kept =~= v@.drop_last());
        }
    }
    let mut t: String = String::new();
    for i in 0..end
        invariant
            end <= v@.len(),
            kept == v@.take(end as int),
            t@ == without_crs(kept.take(i as int)),
    {
        proof {
            views::lemma_take_step(kept, i as int);
        }
        if v[i] != '\r' {
            t.push(v[i]);
        }
    }
    proof {
        views::lemma_take_all(kept);
    }
    let ls = text::lines_of(t.as_str());
    strip_new_line_prefixes(ls.as_slice())
}

/// Normalize a payload that is split into lines already.
pub fn hashline_parse_text_lines(edit: &[String]) -> (r: Vec<String>)
    ensures
        views::texts(r@) == new_lines_stripped(views::texts(edit@)),
{
    strip_new_line_prefixes(edit)
}

// ── Laws ─────────────────────────────────────────────────────────────────

proof fn lemma_shapes_step(lines: Seq<Seq<char>>)
    requires
        lines.len() > 0,
    ensures
        shapes_of(lines).len() == lines.len(),
        shapes_of(lines).drop_last() == shapes_of(lines.drop_last()),
        shapes_of(lines).last() == shape_of(lines.last()),
{
    assert(shapes_of(lines).drop_last() =~= shapes_of(lines.drop_last()));
}

proof fn lemma_left(lines: Seq<Seq<char>>)
    ensures
        all_under(shapes_of(lines), Scheme::Leave) == lines,
    decreases lines.len(),
{
    if lines.len() > 0 {
        lemma_shapes_step(lines);
        lemma_left(lines.drop_last());
        assert(lines.drop_last().push(lines.last()) =~= lines);
    } else {
        assert(all_under(shapes_of(lines), Scheme::Leave) =~= lines);
    }
}

proof fn lemma_prefixed_count(lines: Seq<Seq<char>>)
    ensures
        prefixed_count(shapes_of(lines)) <= content_count(shapes_of(lines)),
        (exists|i: int|
            0 <= i < lines.len() && is_content(shape_of(#[trigger] lines[i])) && is_bare(lines[i]))
            ==> prefixed_count(shapes_of(lines)) < content_count(shapes_of(lines)),
        (forall|i: int| 0 <= i < lines.len() ==> is_bare(#[trigger] lines[i])) ==> prefixed_count(
            shapes_of(lines),
        ) == 0,
    decreases lines.len(),
{
    if lines.len() > 0 {
        let rest = lines.drop_last();
        lemma_shapes_step(lines);
        lemma_prefixed_count(rest);
        if exists|i: int|
            0 <= i < lines.len() && is_content(shape_of(#[trigger] lines[i])) && is_bare(lines[i]) {
            let i = choose|i: int|
                0 <= i < lines.len() && is_content(shape_of(#[trigger] lines[i])) && is_bare(
                    lines[i],
                );
            if i < rest.len() {
                assert(rest[i] == lines[i]);
            }
        }
        if forall|i: int| 0 <= i < lines.len() ==> is_bare(#[trigger] lines[i]) {
            assert forall|i: int| 0 <= i < rest.len() implies is_bare(#[trigger] rest[i]) by {
                assert(rest[i] == lines[i]);
            }
            assert(is_bare(lines[lines.len() - 1]));
        }
    }
}

proof fn lemma_stripped_bare(lines: Seq<Seq<char>>, i: int)
    requires
        forall|j: int| 0 <= j < lines.len() ==> is_bare(stripped_all(#[trigger] lines[j])),
        0 <= i < all_under(shapes_of(lines), Scheme::Hash).len(),
    ensures
        is_bare(all_under(shapes_of(lines), Scheme::Hash)[i]),
    decreases lines.len(),
{
    if lines.len() > 0 {
        let rest = lines.drop_last();
        lemma_shapes_step(lines);
        assert forall|j: int| 0 <= j < rest.len() implies is_bare(
            stripped_all(#[trigger] rest[j]),
        ) by {
            assert(rest[j] == lines[j]);
        }
        if i < all_under(shapes_of(rest), Scheme::Hash).len() {
            lemma_stripped_bare(rest, i);
        } else {
            assert(is_bare(stripped_all(lines[lines.len() - 1])));
        }
    }
}

/// The strict mode is all or nothing: where one content line has no hashline prefix, all
/// lines come back as they were.
pub proof fn law_strict(lines: Seq<Seq<char>>, i: int)
    requires
        0 <= i < lines.len(),
        is_content(shape_of(lines[i])),
        !shape_of(lines[i]).prefixed,
    ensures
        strictly_stripped(lines) == lines,
{
    lemma_prefixed_count(lines);
    lemma_left(lines);
}

/// To strip twice is to strip once. The lines that come out of stripping have no prefix, as
/// [`strip_leading_hashline_prefixes`] says of each.
pub proof fn law_strip_once(lines: Seq<Seq<char>>)
    requires
        forall|i: int| 0 <= i < lines.len() ==> is_bare(stripped_all(#[trigger] lines[i])),
    ensures
        strictly_stripped(strictly_stripped(lines)) == strictly_stripped(lines),
{
    let r = strictly_stripped(lines);
    if scheme(shapes_of(lines)) == Scheme::Hash {
        assert forall|i: int| 0 <= i < r.len() implies is_bare(#[trigger] r[i]) by {
            lemma_stripped_bare(lines, i);
        }
        lemma_prefixed_count(r);
        lemma_left(r);
    } else {
        lemma_left(lines);
    }
}

proof fn lemma_count_if(
    lines: Seq<Seq<char>>,
    p: spec_fn(ShapeView) -> bool,
    q: spec_fn(Seq<char>) -> bool,
)
    requires
        forall|i: int| 0 <= i < lines.len() ==> p(shape_of(#[trigger] lines[i])) == q(lines[i]),
    ensures
        count_if(shapes_of(lines), p) == lines.filter(q).len(),
    decreases lines.len(),
{
    reveal(Seq::filter);
    if lines.len() > 0 {
        let rest = lines.drop_last();
        assert forall|i: int| 0 <= i < rest.len() implies p(shape_of(#[trigger] rest[i])) == q(
            rest[i],
        ) by {
            assert(rest[i] == lines[i]);
        }
        lemma_count_if(rest, p, q);
        assert(shapes_of(lines).drop_last() =~= shapes_of(rest));
        assert(p(shape_of(lines[lines.len() - 1])) == q(lines[lines.len() - 1]));
    }
}

/// Where every line stands for one, as many lines come out.
proof fn lemma_each_under(lines: Seq<Seq<char>>, scheme: Scheme)
    requires
        forall|i: int| 0 <= i < lines.len() ==> under(shape_of(#[trigger] lines[i]), scheme) is Some,
    ensures
        all_under(shapes_of(lines), scheme) == lines.map_values(
            |l: Seq<char>| under(shape_of(l), scheme)->0,
        ),
    decreases lines.len(),
{
    let f = |l: Seq<char>| under(shape_of(l), scheme)->0;
    if lines.len() > 0 {
        let rest = lines.drop_last();
        assert forall|i: int| 0 <= i < rest.len() implies under(
            shape_of(#[trigger] rest[i]),
            scheme,
        ) is Some by {
            assert(rest[i] == lines[i]);
        }
        lemma_each_under(rest, scheme);
        assert(shapes_of(lines).drop_last() =~= shapes_of(rest));
        assert(under(shape_of(lines[lines.len() - 1]), scheme) is Some);
    }
    assert(all_under(shapes_of(lines), scheme) =~= lines.map_values(f));
}

/// A line that is no note of a reader and no header of a file.
pub open spec fn is_plain_line(l: Seq<char>) -> bool {
    !engines::found(patterns::READ_TRUNCATION_NOTICE_PATTERN@, l) && !engines::found(
        patterns::HL_HEADER_PATTERN@,
        l,
    )
}

/// Lines pasted from what a reader showed, each with text bearing a prefix, lose their
/// prefixes; every line is there again, empty ones too, in order.
pub proof fn law_pasted_lines(lines: Seq<Seq<char>>)
    requires
        exists|i: int| 0 <= i < lines.len() && (#[trigger] lines[i]).len() > 0,
        forall|i: int|
            0 <= i < lines.len() ==> is_plain_line(#[trigger] lines[i]) && (lines[i].len() > 0
                ==> engines::found(patterns::HL_PREFIX_PATTERN@, lines[i])),
    ensures
        new_lines_stripped(lines) == lines.map_values(|l: Seq<char>| stripped_all(l)),
        strictly_stripped(lines) == lines.map_values(|l: Seq<char>| stripped_all(l)),
{
    let shapes = shapes_of(lines);
    let q = |l: Seq<char>| l.len() > 0;
    lemma_count_if(lines, |s: ShapeView| is_content(s), q);
    lemma_count_if(lines, |s: ShapeView| is_content(s) && s.prefixed, q);
    let i = choose|i: int| 0 <= i < lines.len() && (#[trigger] lines[i]).len() > 0;
    lines.lemma_filter_contains(q, i);
    assert(lines.filter(q).contains(lines[i]));
    assert(lines.filter(q).len() > 0);
    assert(scheme(shapes) == Scheme::Hash);
    lemma_each_under(lines, Scheme::Hash);
    assert(lines.map_values(|l: Seq<char>| under(shape_of(l), Scheme::Hash)->0) =~= lines.map_values(
        |l: Seq<char>| stripped_all(l),
    ));
}

/// Lines of a diff: where at least half of those with text begin with one `+`, that `+` goes;
/// every line is there again, in order, and otherwise as it was. Where fewer do, all lines are
/// as they were.
pub proof fn law_diff_lines(lines: Seq<Seq<char>>)
    requires
        forall|i: int|
            0 <= i < lines.len() ==> is_plain_line(#[trigger] lines[i]) && !engines::found(
                patterns::HL_PREFIX_PATTERN@,
                lines[i],
            ) && !engines::found(patterns::HL_PREFIX_PLUS_PATTERN@, lines[i]),
    ensures
        ({
            let marked = |l: Seq<char>|
                l.len() > 0 && l[0] == '+' && (l.len() == 1 || l[1] != '+');
            let n = lines.filter(|l: Seq<char>| l.len() > 0).len();
            let k = lines.filter(marked).len();
            new_lines_stripped(lines) == (if k > 0 && 2 * k >= n {
                lines.map_values(
                    |l: Seq<char>|
                        if l.len() > 0 && l[0] == '+' && (l.len() == 1 || l[1] != '+') {
                            l.skip(1)
                        } else {
                            l
                        },
                )
            } else {
                lines
            })
        }),
{
    let shapes = shapes_of(lines);
    let q = |l: Seq<char>| l.len() > 0;
    let none = |l: Seq<char>| false;
    let marked = |l: Seq<char>| l.len() > 0 && l[0] == '+' && (l.len() == 1 || l[1] != '+');
    lemma_count_if(lines, |s: ShapeView| is_content(s), q);
    lemma_count_if(lines, |s: ShapeView| is_content(s) && s.prefixed, none);
    lemma_count_if(lines, |s: ShapeView| is_content(s) && s.plus_prefixed, none);
    lemma_count_if(lines, |s: ShapeView| s.line.len() > 0 && !s.notice && s.header, none);
    lemma_count_if(lines, |s: ShapeView| is_content(s) && plus_line(s.line), marked);
    lemma_none_left(lines);
    let k = lines.filter(marked).len();
    let n = lines.filter(q).len();
    if k > 0 && 2 * k >= n {
        assert(scheme(shapes) == Scheme::Plus);
        lemma_each_under(lines, Scheme::Plus);
        assert(lines.map_values(|l: Seq<char>| under(shape_of(l), Scheme::Plus)->0)
            =~= lines.map_values(
            |l: Seq<char>|
                if l.len() > 0 && l[0] == '+' && (l.len() == 1 || l[1] != '+') {
                    l.skip(1)
                } else {
                    l
                },
        ));
    } else {
        assert(scheme(shapes) == Scheme::Leave);
        lemma_each_under(lines, Scheme::Leave);
        assert(lines.map_values(|l: Seq<char>| under(shape_of(l), Scheme::Leave)->0) =~= lines);
    }
}

proof fn lemma_none_left(lines: Seq<Seq<char>>)
    ensures
        lines.filter(|l: Seq<char>| false).len() == 0,
    decreases lines.len(),
{
    reveal(Seq::filter);
    if lines.len() > 0 {
        lemma_none_left(lines.drop_last());
    }
}

/// Dropping carriage returns drops all of them and nothing else.
pub proof fn law_without_crs(s: Seq<char>)
    ensures
        without_crs(s) == s.filter(|c: char| c != '\r'),
    decreases s.len(),
{
    reveal(Seq::filter);
    if s.len() > 0 {
        law_without_crs(s.drop_last());
    }
    assert(without_crs(s) =~= s.filter(|c: char| c != '\r'));
}

proof fn lemma_no_crs(s: Seq<char>)
    requires
        !s.contains('\r'),
    ensures
        without_crs(s) == s,
    decreases s.len(),
{
    if s.len() > 0 {
        let t = s.drop_last();
        assert(s.contains(s[s.len() - 1]));
        assert(!t.contains('\r')) by {
            assert forall|i: int| 0 <= i < t.len() implies t[i] != '\r' by {
                assert(s.contains(s[i]));
            }
        }
        lemma_no_crs(t);
        assert(t.push(s.last()) =~= s);
    } else {
        assert(s =~= Seq::empty());
    }
}

proof fn lemma_no_cr_joined(ls: Seq<Seq<char>>)
    requires
        forall|i: int| 0 <= i < ls.len() ==> !(#[trigger] ls[i]).contains('\r'),
    ensures
        !text::unlines(ls).contains('\r'),
    decreases ls.len(),
{
    if ls.len() == 1 {
        assert(!ls[0].contains('\r'));
    } else if ls.len() > 1 {
        let rest = ls.drop_last();
        assert forall|i: int| 0 <= i < rest.len() implies !(#[trigger] rest[i]).contains('\r') by {
            assert(rest[i] == ls[i]);
        }
        lemma_no_cr_joined(rest);
        let a = text::unlines(rest);
        let all = text::unlines(ls);
        let last = ls[ls.len() - 1];
        assert(!last.contains('\r'));
        assert forall|i: int| 0 <= i < all.len() implies all[i] != '\r' by {
            if i < a.len() {
                assert(a.contains(a[i]));
            } else if i > a.len() {
                assert(all[i] == last[i - a.len() - 1]);
                assert(last.contains(last[i - a.len() - 1]));
            }
        }
    }
}

/// A text that is handed over as lines comes apart into its lines, all of them and unchanged,
/// with a line end behind the last one or without.
pub proof fn law_payload_lines(ls: Seq<Seq<char>>)
    requires
        ls.len() > 0,
        forall|i: int|
            0 <= i < ls.len() ==> !(#[trigger] ls[i]).contains('\n') && !ls[i].contains('\r'),
    ensures
        payload_lines(text::unlines(ls).push('\n')) == ls,
        ls.last().len() > 0 ==> payload_lines(text::unlines(ls)) == ls,
{
    let s = text::unlines(ls);
    assert forall|i: int| 0 <= i < ls.len() implies !(#[trigger] ls[i]).contains('\r') by {
        assert(!ls[i].contains('\n'));
    }
    lemma_no_cr_joined(ls);
    lemma_no_crs(s);
    text::law_split_join(ls, '\n');
    assert(s.push('\n').drop_last() =~= s);
    if ls.last().len() > 0 {
        let last = ls[ls.len() - 1];
        assert(!last.contains('\n'));
        assert(s.len() > 0 && s.last() == last.last());
        assert(last.contains(last.last()));
    }
}

} // verus!
