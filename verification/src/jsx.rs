//! JSX tags in replacement payloads.
//!
//! A payload that ends in a closing tag of its own must not lose it to the
//! boundary-echo repair, so the repair asks which tags the payload leaves open.

use vstd::prelude::*;

use crate::rows::{Row, RowView};
use crate::text;
use crate::views;

verus! {

broadcast use {crate::views::group_all, crate::views::group_texts};

/// A tag found in a payload. The name of a fragment is empty.
pub struct JsxTag {
    pub name: String,
    pub closing: bool,
    pub self_closing: bool,
}

/// The model of a [`JsxTag`].
#[verifier::ext_equal]
pub struct JsxTagView {
    pub name: Seq<char>,
    pub closing: bool,
    pub self_closing: bool,
}

impl View for JsxTag {
    type V = JsxTagView;

    open spec fn view(&self) -> JsxTagView {
        JsxTagView {
            name: self.name@,
            closing: self.closing,
            self_closing: self.self_closing,
        }
    }
}

/// A `<` at position `i` begins a tag: `>`, `/` or an ASCII letter follows it.
pub open spec fn tag_starts(s: Seq<char>, i: int) -> bool {
    &&& 0 <= i
    &&& i + 1 < s.len()
    &&& s[i] == '<'
    &&& (s[i + 1] == '>' || s[i + 1] == '/' || text::is_letter(s[i + 1]))
}

/// The position of the `>` that ends a tag, searched from `i` on; `>` inside a
/// string literal or inside braces does not end it.
pub open spec fn tag_end_from(
    s: Seq<char>,
    i: int,
    quote: Option<char>,
    braces: int,
) -> Option<int>
    decreases (if i < s.len() { s.len() - i } else { 0 }),
{
    if i < 0 || i >= s.len() {
        None
    } else {
        let c = s[i];
        if quote is Some {
            if c == '\\' && i + 1 < s.len() {
                tag_end_from(s, i + 2, quote, braces)
            } else if Some(c) == quote {
                tag_end_from(s, i + 1, None, braces)
            } else {
                tag_end_from(s, i + 1, quote, braces)
            }
        } else if c == '"' || c == '\'' || c == '`' {
            tag_end_from(s, i + 1, Some(c), braces)
        } else if c == '{' {
            tag_end_from(s, i + 1, quote, braces + 1)
        } else if c == '}' && braces > 0 {
            tag_end_from(s, i + 1, quote, braces - 1)
        } else if c == '>' && braces == 0 {
            Some(i)
        } else {
            tag_end_from(s, i + 1, quote, braces)
        }
    }
}

/// The end of the tag that begins at `start`.
pub open spec fn tag_end(s: Seq<char>, start: int) -> Option<int> {
    tag_end_from(s, start + 1, None, 0)
}

proof fn lemma_tag_end_bounds(s: Seq<char>, i: int, quote: Option<char>, braces: int)
    ensures
        tag_end_from(s, i, quote, braces) matches Some(e) ==> i <= e < s.len(),
    decreases (if i < s.len() { s.len() - i } else { 0 }),
{
    if 0 <= i < s.len() {
        let c = s[i];
        lemma_tag_end_bounds(s, i + 1, quote, braces);
        lemma_tag_end_bounds(s, i + 2, quote, braces);
        lemma_tag_end_bounds(s, i + 1, None, braces);
        lemma_tag_end_bounds(s, i + 1, Some(c), braces);
        lemma_tag_end_bounds(s, i + 1, quote, braces + 1);
        lemma_tag_end_bounds(s, i + 1, quote, braces - 1);
    }
}

fn find_jsx_tag_end(v: &[char], start: usize) -> (r: Option<usize>)
    requires
        start < v@.len(),
    ensures
        match (r, tag_end(v@, start as int)) {
            (Some(e), Some(f)) => e == f && start < e < v@.len(),
            (None, None) => true,
            _ => false,
        },
{
    let n: usize = v.len();
    let mut quote: Option<char> = None;
    let mut braces: usize = 0;
    let mut i: usize = start + 1;
    while i < n
        invariant
            n == v@.len(),
            start < i,
            braces <= i,
            tag_end_from(v@, i as int, quote, braces as int) == tag_end(v@, start as int),
        decreases n - i,
    {
        let c = v[i];
        match quote {
            Some(q) => {
                if c == '\\' && n - i > 1 {
                    i = i + 2;
                } else {
                    if c == q {
                        quote = None;
                    }
                    i = i + 1;
                }
            },
            None => {
                if c == '"' || c == '\'' || c == '`' {
                    quote = Some(c);
                } else if c == '{' {
                    braces = braces + 1;
                } else if c == '}' && braces > 0 {
                    braces = braces - 1;
                } else if c == '>' && braces == 0 {
                    return Some(i);
                }
                i = i + 1;
            },
        }
    }
    None
}

/// A character of a tag name.
pub open spec fn is_name_char(c: char) -> bool {
    text::is_alphanumeric(c) || c == '_' || c == '.' || c == ':' || c == '-'
}

/// The end of the run of name characters from `i` on.
pub open spec fn name_end(s: Seq<char>, i: int) -> int
    decreases s.len() - i,
{
    if 0 <= i < s.len() && is_name_char(s[i]) {
        name_end(s, i + 1)
    } else {
        i
    }
}

/// The tag written as `raw`, which runs from its `<` to its `>`. A tag without a
/// name is none, save for the fragments `<>` and `</>`.
pub open spec fn tag_of(raw: Seq<char>) -> Option<JsxTagView> {
    if raw == "<>"@ {
        Some(JsxTagView { name: Seq::empty(), closing: false, self_closing: false })
    } else if raw == "</>"@ {
        Some(JsxTagView { name: Seq::empty(), closing: true, self_closing: false })
    } else {
        let closing = text::has_prefix(raw, "</"@);
        let start: int = if closing { 2 } else { 1 };
        let end = name_end(raw, start);
        if end == start {
            None
        } else {
            Some(
                JsxTagView {
                    name: raw.subrange(start, end),
                    closing,
                    self_closing: !closing && text::has_suffix(
                        raw.subrange(end, raw.len() as int),
                        "/>"@,
                    ),
                },
            )
        }
    }
}

fn parse_jsx_payload_tag(raw: &str) -> (r: Option<JsxTag>)
    ensures
        match (r, tag_of(raw@)) {
            (Some(t), Some(u)) => t@ == u,
            (None, None) => true,
            _ => false,
        },
{
    if text::same(raw, "<>") {
        return Some(JsxTag { name: String::new(), closing: false, self_closing: false });
    }
    if text::same(raw, "</>") {
        return Some(JsxTag { name: String::new(), closing: true, self_closing: false });
    }
    let v = text::chars_of(raw);
    let n: usize = v.len();
    let closing = text::starts_with(raw, "</");
    let start: usize = if closing {
        2
    } else {
        1
    };
    let mut end: usize = start;
    while end < n && (text::alphanumeric(v[end]) || v[end] == '_' || v[end] == '.' || v[end] == ':'
        || v[end] == '-')
        invariant
            n == v@.len(),
            v@ == raw@,
            start <= end,
            start < end ==> end <= n,
            name_end(raw@, end as int) == name_end(raw@, start as int),
        decreases n - end,
    {
        end = end + 1;
    }
    if end == start {
        return None;
    }
    let rest = text::string_of(v.as_slice(), end, n);
    let self_closing = !closing && text::ends_with(rest.as_str(), "/>");
    Some(JsxTag { name: text::string_of(v.as_slice(), start, end), closing, self_closing })
}

/// The tags of a text, read from position `i` on; an unended tag ends the reading.
pub open spec fn tags_from(s: Seq<char>, i: int) -> Seq<JsxTagView>
    decreases s.len() - i,
{
    if i < 0 || i >= s.len() {
        Seq::empty()
    } else if !tag_starts(s, i) {
        tags_from(s, i + 1)
    } else {
        match tag_end(s, i) {
            Some(end) => if i < end < s.len() {
                let rest = tags_from(s, end + 1);
                match tag_of(s.subrange(i, end + 1)) {
                    Some(t) => seq![t] + rest,
                    None => rest,
                }
            } else {
                Seq::empty()
            },
            None => Seq::empty(),
        }
    }
}

/// The tags of a text, in order.
pub open spec fn tags(s: Seq<char>) -> Seq<JsxTagView> {
    tags_from(s, 0)
}

/// Read the tags of a text, in order.
pub fn read_jsx_payload_tags(s: &str) -> (r: Vec<JsxTag>)
    ensures
        views::all(r@) == tags(s@),
{
    let v = text::chars_of(s);
    let n: usize = v.len();
    let mut out: Vec<JsxTag> = Vec::new();
    let mut i: usize = 0;
    assert(views::all(out@) + tags_from(s@, 0) =~= tags(s@));
    while i < n
        invariant
            n == v@.len(),
            v@ == s@,
            i <= n,
            views::all(out@) + tags_from(s@, i as int) == tags(s@),
        decreases n - i,
    {
        let starts = v[i] == '<' && n - i > 1 && (v[i + 1] == '>' || v[i + 1] == '/'
            || text::letter(v[i + 1]));
        if !starts {
            i = i + 1;
            continue ;
        }
        match find_jsx_tag_end(v.as_slice(), i) {
            Some(end) => {
                let raw = text::string_of(v.as_slice(), i, end + 1);
                let ghost done = views::all(out@);
                let ghost rest = tags_from(s@, end + 1);
                match parse_jsx_payload_tag(raw.as_str()) {
                    Some(tag) => {
                        proof {
                            assert(done.push(tag@) + rest =~= done + (seq![tag@] + rest));
                        }
                        out.push(tag);
                    },
                    None => {},
                }
                i = end + 1;
            },
            None => {
                assert(views::all(out@) =~= tags(s@));
                return out;
            },
        }
    }
    assert(views::all(out@) =~= tags(s@));
    out
}

/// The names of the tags still open after a sequence of tags, innermost last. A
/// closing tag closes the innermost open tag when the names agree.
pub open spec fn open_tags(ts: Seq<JsxTagView>) -> Seq<Seq<char>>
    decreases ts.len(),
{
    if ts.len() == 0 {
        Seq::empty()
    } else {
        let before = open_tags(ts.drop_last());
        let t = ts.last();
        if t.closing {
            if before.len() > 0 && before.last() == t.name {
                before.drop_last()
            } else {
                before
            }
        } else if !t.self_closing {
            before.push(t.name)
        } else {
            before
        }
    }
}

/// A payload leaves a tag open that one of the echoed rows closes.
pub open spec fn opens_for_echo(payload: Seq<RowView>, echo: Seq<RowView>) -> bool {
    let open = open_tags(tags(text::unlines(crate::rows::row_texts(payload))));
    exists|i: int|
        0 <= i < echo.len() && (#[trigger] echo[i]).jsx_name is Some && open.contains(
            echo[i].jsx_name->0,
        )
}

/// See [`opens_for_echo`]; the payload is `rows[..split]`, the echo `rows[split..]`.
pub fn payload_has_jsx_opener_for_echo(rows: &[Row], split: usize) -> (r: bool)
    requires
        split <= rows@.len(),
    ensures
        r == opens_for_echo(
            views::all(rows@).subrange(0, split as int),
            views::all(rows@).subrange(split as int, rows@.len() as int),
        ),
{
    let ghost payload = views::all(rows@).subrange(0, split as int);
    let ghost echo = views::all(rows@).subrange(split as int, rows@.len() as int);
    let ghost ptexts = crate::rows::row_texts(payload);
    let mut lines: Vec<String> = Vec::new();
    for i in 0..split
        invariant
            split <= rows@.len(),
            ptexts == crate::rows::row_texts(views::all(rows@).subrange(0, split as int)),
            views::texts(lines@) == ptexts.take(i as int),
    {
        proof {
            views::lemma_take_step(ptexts, i as int);
        }
        lines.push(rows[i].text.clone());
    }
    proof {
        views::lemma_take_all(ptexts);
    }
    let found_tags = read_jsx_payload_tags(text::join_lines(lines.as_slice()).as_str());
    let ghost ts = views::all(found_tags@);
    let mut open: Vec<String> = Vec::new();
    for i in 0..found_tags.len()
        invariant
            ts == views::all(found_tags@),
            views::texts(open@) == open_tags(ts.take(i as int)),
    {
        proof {
            views::lemma_take_step(ts, i as int);
        }
        let tag = &found_tags[i];
        assert(tag@ == ts[i as int]);
        if tag.closing {
            if open.len() > 0 {
                let top = open.len() - 1;
                assert(views::texts(open@).last() == open@.last()@);
                if open[top] == tag.name {
                    proof {
                        assert(open@.subrange(0, open@.len() - 1) =~= open@.drop_last());
                        views::lemma_texts_drop_last(open@);
                    }
                    let _ = open.pop();
                }
            }
        } else if !tag.self_closing {
            open.push(tag.name.clone());
        }
    }
    proof {
        views::lemma_take_all(ts);
    }
    let ghost names = views::texts(open@);
    for i in split..rows.len()
        invariant
            split <= rows@.len(),
            names == views::texts(open@),
            names == open_tags(
                tags(
                    text::unlines(
                        crate::rows::row_texts(views::all(rows@).subrange(0, split as int)),
                    ),
                ),
            ),
            echo == views::all(rows@).subrange(split as int, rows@.len() as int),
            forall|j: int|
                0 <= j < i - split ==> !((#[trigger] echo[j]).jsx_name is Some && names.contains(
                    echo[j].jsx_name->0,
                )),
    {
        assert(echo[i - split] == rows@[i as int]@);
        match &rows[i].jsx_name {
            Some(name) => {
                if text::holds_text(open.as_slice(), name.as_str()) {
                    assert(echo[i - split].jsx_name is Some);
                    return true;
                }
            },
            None => {},
        }
    }
    false
}

} // verus!
