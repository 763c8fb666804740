//! Rows: lines of text together with what the closing-line patterns say of them.
//!
//! The applier's repairs look at the shape of a line (is it nothing but closing
//! delimiters, does it close a JSX tag). A row carries the answers, so that the
//! repairs are functions of rows alone.

use vstd::prelude::*;

use crate::engines;
use crate::engines::RegexMatch;
use crate::patterns;
use crate::text;
use crate::views;

verus! {

broadcast use {crate::views::group_all, crate::views::group_texts};

/// A line and its shape.
pub struct Row {
    pub text: String,
    /// Nothing but closing delimiters, such as `});`.
    pub closer: bool,
    /// A JSX closing tag or the end of a self-closing tag.
    pub jsx_closer: bool,
    /// The name of the JSX closing tag the line holds; empty for a fragment.
    pub jsx_name: Option<String>,
}

/// The model of a [`Row`].
#[verifier::ext_equal]
pub struct RowView {
    pub text: Seq<char>,
    pub closer: bool,
    pub jsx_closer: bool,
    pub jsx_name: Option<Seq<char>>,
}

impl View for Row {
    type V = RowView;

    open spec fn view(&self) -> RowView {
        RowView {
            text: self.text@,
            closer: self.closer,
            jsx_closer: self.jsx_closer,
            jsx_name: views::opt_text(self.jsx_name),
        }
    }
}

impl Row {
    /// Copy a row.
    pub fn copy(&self) -> (r: Row)
        ensures
            r@ == self@,
    {
        Row {
            text: self.text.clone(),
            closer: self.closer,
            jsx_closer: self.jsx_closer,
            jsx_name: text::clone_opt(&self.jsx_name),
        }
    }
}

/// The texts of a list of rows.
pub open spec fn row_texts(rows: Seq<RowView>) -> Seq<Seq<char>> {
    rows.map_values(|r: RowView| r.text)
}

/// The name of the JSX closing tag on a line, given what the fragment pattern and
/// the named-closer pattern found there: empty for a fragment, the tag's name for
/// a named closer.
pub open spec fn closer_name(
    fragment: bool,
    named: Option<(Seq<char>, Seq<Option<Seq<char>>>, Seq<char>)>,
) -> Option<Seq<char>> {
    if fragment {
        Some(Seq::empty())
    } else {
        match named {
            None => None,
            Some(m) => if m.1.len() > 1 && m.1[1] is Some {
                Some(m.1[1]->0)
            } else {
                Some(Seq::empty())
            },
        }
    }
}

/// See [`closer_name`].
pub fn jsx_closer_name(fragment: bool, named: &Option<RegexMatch>) -> (r: Option<String>)
    ensures
        views::opt_text(r) == closer_name(fragment, engines::match_view(*named)),
{
    if fragment {
        return Some(String::new());
    }
    match named {
        None => None,
        Some(m) => {
            if m.groups.len() > 1 {
                match &m.groups[1] {
                    Some(name) => Some(name.clone()),
                    None => Some(String::new()),
                }
            } else {
                Some(String::new())
            }
        },
    }
}

/// The row of a line of text.
pub open spec fn row_of(t: Seq<char>) -> RowView {
    RowView {
        text: t,
        closer: engines::found(patterns::STRUCTURAL_CLOSER_PATTERN@, t),
        jsx_closer: engines::found(patterns::JSX_CLOSER_PATTERN@, t),
        jsx_name: closer_name(
            engines::found(patterns::JSX_FRAGMENT_CLOSER_PATTERN@, t),
            engines::regex_search(patterns::JSX_NAMED_CLOSER_PATTERN@, t),
        ),
    }
}

/// The rows of a list of lines.
pub open spec fn rows_of(ts: Seq<Seq<char>>) -> Seq<RowView> {
    ts.map_values(|t: Seq<char>| row_of(t))
}

/// Classify every line of a list.
pub fn classify(texts: &[String]) -> (r: Vec<Row>)
    ensures
        views::all(r@) == rows_of(views::texts(texts@)),
{
    let closers = engines::regex_find_each(patterns::STRUCTURAL_CLOSER_PATTERN, texts);
    let jsx = engines::regex_find_each(patterns::JSX_CLOSER_PATTERN, texts);
    let fragments = engines::regex_find_each(patterns::JSX_FRAGMENT_CLOSER_PATTERN, texts);
    let mut out: Vec<Row> = Vec::new();
    match engines::regex_each(patterns::JSX_NAMED_CLOSER_PATTERN, texts) {
        Ok(named) => {
            for i in 0..texts.len()
                invariant
                    closers@.len() == texts@.len(),
                    jsx@.len() == texts@.len(),
                    fragments@.len() == texts@.len(),
                    named@.len() == texts@.len(),
                    forall|j: int|
                        0 <= j < texts@.len() ==> #[trigger] closers@[j] == engines::found(
                            patterns::STRUCTURAL_CLOSER_PATTERN@,
                            texts@[j]@,
                        ),
                    forall|j: int|
                        0 <= j < texts@.len() ==> #[trigger] jsx@[j] == engines::found(
                            patterns::JSX_CLOSER_PATTERN@,
                            texts@[j]@,
                        ),
                    forall|j: int|
                        0 <= j < texts@.len() ==> #[trigger] fragments@[j] == engines::found(
                            patterns::JSX_FRAGMENT_CLOSER_PATTERN@,
                            texts@[j]@,
                        ),
                    forall|j: int|
                        0 <= j < texts@.len() ==> engines::match_view(#[trigger] named@[j])
                            == engines::regex_search(
                            patterns::JSX_NAMED_CLOSER_PATTERN@,
                            texts@[j]@,
                        ),
                    views::all(out@) == rows_of(views::texts(texts@)).take(i as int),
            {
                out.push(
                    Row {
                        text: texts[i].clone(),
                        closer: closers[i],
                        jsx_closer: jsx[i],
                        jsx_name: jsx_closer_name(fragments[i], &named[i]),
                    },
                );
                proof {
                    views::lemma_take_step(rows_of(views::texts(texts@)), i as int);
                    assert(out@.last()@ == row_of(texts@[i as int]@));
                }
            }
        },
        Err(e) => {},
    }
    proof {
        views::lemma_take_all(rows_of(views::texts(texts@)));
    }
    out
}

// ── Comparing rows ───────────────────────────────────────────────────────

/// `k` rows of `a` from `i` on read the same as `k` rows of `b` from `j` on.
pub open spec fn rows_agree(a: Seq<RowView>, i: int, b: Seq<RowView>, j: int, k: int) -> bool {
    forall|t: int| 0 <= t < k ==> #[trigger] a[i + t].text == b[j + t].text
}

/// See [`rows_agree`].
pub fn rows_match(a: &[Row], i: usize, b: &[Row], j: usize, k: usize) -> (r: bool)
    requires
        i + k <= a@.len(),
        j + k <= b@.len(),
    ensures
        r == rows_agree(views::all(a@), i as int, views::all(b@), j as int, k as int),
{
    let ghost va = views::all(a@);
    let ghost vb = views::all(b@);
    let na: usize = a.len();
    let nb: usize = b.len();
    for t in 0..k
        invariant
            na == a@.len(),
            nb == b@.len(),
            i + k <= a@.len(),
            j + k <= b@.len(),
            va == views::all(a@),
            vb == views::all(b@),
            rows_agree(va, i as int, vb, j as int, t as int),
    {
        if a[i + t].text != b[j + t].text {
            assert(va[i + t].text != vb[j + t].text);
            return false;
        }
        assert(va[i + t].text == vb[j + t].text);
    }
    true
}

/// A character other than ASCII white space occurs in the text.
pub open spec fn has_content(s: Seq<char>) -> bool {
    exists|i: int| 0 <= i < s.len() && !text::is_ascii_white(#[trigger] s[i])
}

/// See [`has_content`].
pub fn has_non_whitespace(s: &str) -> (r: bool)
    ensures
        r == has_content(s@),
{
    let v = text::chars_of(s);
    for i in 0..v.len()
        invariant
            v@ == s@,
            forall|j: int| 0 <= j < i ==> text::is_ascii_white(#[trigger] v@[j]),
    {
        if !text::ascii_white(v[i]) {
            assert(!text::is_ascii_white(s@[i as int]));
            return true;
        }
    }
    false
}

// ── Indentation ──────────────────────────────────────────────────────────

/// A tab or a space.
pub open spec fn is_indent_char(c: char) -> bool {
    c == '\t' || c == ' '
}

/// The longest run of tabs and spaces at the start of a line.
pub open spec fn indent(s: Seq<char>) -> Seq<char>
    decreases s.len(),
{
    if s.len() == 0 || !is_indent_char(s[0]) {
        Seq::empty()
    } else {
        seq![s[0]] + indent(s.skip(1))
    }
}

/// See [`indent`].
pub fn leading_indent(s: &str) -> (r: String)
    ensures
        r@ == indent(s@),
{
    let v = text::chars_of(s);
    let mut i: usize = 0;
    assert(v@.skip(0) =~= v@);
    assert(v@.take(0) + indent(v@) =~= indent(v@));
    while i < v.len() && (v[i] == '\t' || v[i] == ' ')
        invariant
            i <= v@.len(),
            v@.take(i as int) + indent(v@.skip(i as int)) == indent(v@),
        decreases v@.len() - i,
    {
        proof {
            let rest = v@.skip(i as int);
            assert(rest.skip(1) =~= v@.skip(i + 1));
            assert(v@.take(i + 1) + indent(v@.skip(i + 1)) =~= v@.take(i as int) + (seq![rest[0]]
                + indent(rest.skip(1))));
        }
        i = i + 1;
    }
    assert(indent(v@.skip(i as int)) =~= Seq::<char>::empty());
    assert(v@.take(i as int) =~= indent(v@));
    assert(v@.subrange(0, i as int) =~= v@.take(i as int));
    text::string_of(v.as_slice(), 0, i)
}

/// `deeper` strictly extends `shallower`: same indent style, more depth.
pub open spec fn deeper_than(deeper: Seq<char>, shallower: Seq<char>) -> bool {
    deeper.len() > shallower.len() && text::has_prefix(deeper, shallower)
}

/// See [`deeper_than`].
pub fn is_indent_deeper(deeper: &str, shallower: &str) -> (r: bool)
    ensures
        r == deeper_than(deeper@, shallower@),
{
    text::char_count(deeper) > text::char_count(shallower) && text::starts_with(deeper, shallower)
}

} // verus!
