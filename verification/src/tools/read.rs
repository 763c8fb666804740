//! `remote_read`: a file or a directory, as text.

use vstd::prelude::*;

use crate::format::{compute_file_hash, format_hashline_header};
use crate::json;
use crate::json::{Json, JsonView};
use crate::numbers;
use crate::order;
use crate::text;
use crate::tools;
use crate::views;

verus! {

broadcast use {crate::views::group_all, crate::views::group_texts};

/// Line cap for reads of a whole file.
pub const DEFAULT_LINE_CAP: usize = 3000;

// ── Selectors ────────────────────────────────────────────────────────────

/// A parsed path selector.
#[derive(Debug, Clone, Copy, PartialEq, Eq, Structural)]
pub enum Selector {
    Raw,
    /// `:N-M` inclusive range.
    Range { start: u32, end: u32 },
    /// `:N+COUNT` — COUNT lines starting at N.
    FromOffset { start: u32, count: u32 },
}

/// The number that a text spells in 32 bits.
pub open spec fn number(s: Seq<char>) -> Option<u32> {
    match numbers::parse_unsigned(s, 10, u32::MAX as int) {
        Some(n) => Some(n as u32),
        None => None,
    }
}

/// The two numbers around the separator at a position.
pub open spec fn two_numbers(s: Seq<char>, at: int) -> Option<(u32, u32)> {
    match (number(s.take(at)), number(s.skip(at + 1))) {
        (Some(a), Some(b)) => Some((a, b)),
        _ => None,
    }
}

/// A selector made of numbers: `N+COUNT`, `N-M` or `N`.
pub open spec fn numeric(s: Seq<char>) -> Option<Selector> {
    let t = text::trim(s);
    let plus = text::find_char(t, '+', 0);
    let dash = text::find_char(t, '-', 0);
    if plus < t.len() {
        match two_numbers(t, plus) {
            Some((start, count)) => Some(Selector::FromOffset { start, count }),
            None => None,
        }
    } else if dash < t.len() {
        match two_numbers(t, dash) {
            Some((start, end)) => Some(Selector::Range { start, end }),
            None => None,
        }
    } else {
        match number(t) {
            Some(n) => Some(Selector::Range { start: n, end: n }),
            None => None,
        }
    }
}

/// A piece of a selector without the `raw:` in front of it or the `:raw` behind it.
pub open spec fn without_raw(s: Seq<char>) -> Seq<char> {
    if text::has_prefix(s, "raw:"@) {
        s.skip(4)
    } else if text::has_suffix(s, ":raw"@) {
        s.take(s.len() - 4)
    } else {
        s
    }
}

/// A piece of a selector.
pub open spec fn is_piece(s: Seq<char>) -> bool {
    let t = text::trim(s);
    t.len() > 0 && numeric(without_raw(t)) is Some
}

/// All the pieces of a list are pieces of a selector.
pub open spec fn all_pieces(pieces: Seq<Seq<char>>) -> bool {
    forall|i: int| 0 <= i < pieces.len() ==> is_piece(#[trigger] pieces[i])
}

/// A text that is a selector: `raw`, `conflicts`, or pieces with commas in between.
pub open spec fn is_selector(s: Seq<char>) -> bool {
    s.len() > 0 && (s == "raw"@ || s == "conflicts"@ || all_pieces(text::split(s, ',')))
}

/// What a selector means. Of several pieces the first one counts; conflicts are shown
/// raw.
pub open spec fn meaning(s: Seq<char>) -> Option<Selector> {
    if s == "raw"@ || s == "conflicts"@ {
        Some(Selector::Raw)
    } else {
        numeric(without_raw(text::split(s, ',')[0]))
    }
}

/// The last colon among the first `n` characters of a path that a selector follows.
pub open spec fn selector_colon(raw: Seq<char>, n: int) -> Option<int>
    decreases n,
{
    if n <= 0 || n > raw.len() {
        None
    } else if raw[n - 1] == ':' && is_selector(raw.skip(n)) {
        Some(n - 1)
    } else {
        selector_colon(raw, n - 1)
    }
}

/// A path without its selector, and what the selector means.
pub open spec fn path_and_selector(raw: Seq<char>) -> (Seq<char>, Option<Selector>) {
    match selector_colon(raw, raw.len() as int) {
        Some(i) => (raw.take(i), meaning(raw.skip(i + 1))),
        None => (raw, None),
    }
}

fn read_number(s: &str) -> (r: Option<u32>)
    ensures
        r == number(s@),
{
    numbers::read_u32(s)
}

fn read_two_numbers(v: &[char], at: usize) -> (r: Option<(u32, u32)>)
    requires
        at < v@.len(),
    ensures
        r == two_numbers(v@, at as int),
{
    let n: usize = v.len();
    let a = text::string_of(v, 0, at);
    let b = text::string_of(v, at + 1, n);
    proof {
        assert(a@ =~= v@.take(at as int));
        assert(b@ =~= v@.skip(at + 1));
    }
    match read_number(a.as_str()) {
        Some(x) => match read_number(b.as_str()) {
            Some(y) => Some((x, y)),
            None => None,
        },
        None => None,
    }
}

/// Parse a selector made of numbers. See [`numeric`].
pub fn parse_numeric_selector(s: &str) -> (r: Option<Selector>)
    ensures
        r == numeric(s@),
{
    let t = text::trimmed(s);
    let v = text::chars_of(t.as_str());
    let n: usize = v.len();
    let plus: usize = text::position_of(&v, '+', 0);
    if plus < n {
        return match read_two_numbers(&v, plus) {
            Some((start, count)) => Some(Selector::FromOffset { start, count }),
            None => None,
        };
    }
    let dash: usize = text::position_of(&v, '-', 0);
    if dash < n {
        return match read_two_numbers(&v, dash) {
            Some((start, end)) => Some(Selector::Range { start, end }),
            None => None,
        };
    }
    match read_number(t.as_str()) {
        Some(k) => Some(Selector::Range { start: k, end: k }),
        None => None,
    }
}

fn strip_raw(s: &str) -> (r: String)
    ensures
        r@ == without_raw(s@),
{
    proof {
        reveal_strlit("raw:");
        reveal_strlit(":raw");
    }
    let v = text::chars_of(s);
    let n: usize = v.len();
    if text::starts_with(s, "raw:") {
        let r = text::string_of(&v, 4, n);
        assert(r@ =~= s@.skip(4));
        r
    } else if text::ends_with(s, ":raw") {
        let r = text::string_of(&v, 0, n - 4);
        assert(r@ =~= s@.take(s@.len() - 4));
        r
    } else {
        text::owned(s)
    }
}

fn seg_looks_like_selector(s: &str) -> (r: bool)
    ensures
        r == is_piece(s@),
{
    let t = text::trimmed(s);
    let n: usize = text::char_count(t.as_str());
    n > 0 && parse_numeric_selector(strip_raw(t.as_str()).as_str()).is_some()
}

/// Does the text after a ':' look like a selector? See [`is_selector`].
pub fn looks_like_selector(s: &str) -> (r: bool)
    ensures
        r == is_selector(s@),
{
    let n: usize = text::char_count(s);
    if n == 0 {
        return false;
    }
    if text::same(s, "raw") || text::same(s, "conflicts") {
        return true;
    }
    let pieces = text::split_on(s, ',');
    let ghost vp = views::texts(pieces@);
    for i in 0..pieces.len()
        invariant
            vp == views::texts(pieces@),
            vp == text::split(s@, ','),
            s@ != "raw"@,
            s@ != "conflicts"@,
            forall|j: int| 0 <= j < i ==> is_piece(#[trigger] vp[j]),
    {
        assert(vp[i as int] == pieces@[i as int]@);
        if !seg_looks_like_selector(pieces[i].as_str()) {
            assert(!is_piece(vp[i as int]));
            return false;
        }
    }
    assert(vp.len() == pieces@.len());
    true
}

/// What a selector means. See [`meaning`].
pub fn parse_selector_token(s: &str) -> (r: Option<Selector>)
    ensures
        r == meaning(s@),
{
    if text::same(s, "raw") || text::same(s, "conflicts") {
        return Some(Selector::Raw);
    }
    let pieces = text::split_on(s, ',');
    assert(views::texts(pieces@)[0] == pieces@[0]@);
    parse_numeric_selector(strip_raw(pieces[0].as_str()).as_str())
}

/// Split a path from its trailing `:selector`. See [`path_and_selector`].
pub fn parse_selector(raw: &str) -> (r: (String, Option<Selector>))
    ensures
        (r.0@, r.1) == path_and_selector(raw@),
{
    let v = text::chars_of(raw);
    let len: usize = v.len();
    let mut n: usize = len;
    while n > 0
        invariant
            v@ == raw@,
            len == v@.len(),
            n <= len,
            selector_colon(raw@, n as int) == selector_colon(raw@, len as int),
        decreases n,
    {
        if v[n - 1] == ':' {
            let rest = text::string_of(&v, n, len);
            assert(rest@ =~= raw@.skip(n as int));
            if looks_like_selector(rest.as_str()) {
                let path = text::string_of(&v, 0, n - 1);
                assert(path@ =~= raw@.take(n - 1));
                return (path, parse_selector_token(rest.as_str()));
            }
        }
        n = n - 1;
    }
    (text::owned(raw), None)
}

// ── What is read ─────────────────────────────────────────────────────────

/// Tool implementing file/directory reads.
pub struct ReadTool;

/// What a `remote_read` asks for.
#[derive(Debug)]
pub struct ReadRequest {
    pub path: String,
    pub selector: Option<Selector>,
    pub sudo: bool,
}

/// The model of a [`ReadRequest`].
#[verifier::ext_equal]
pub struct ReadRequestView {
    pub path: Seq<char>,
    pub selector: Option<Selector>,
    pub sudo: bool,
}

impl View for ReadRequest {
    type V = ReadRequestView;

    open spec fn view(&self) -> ReadRequestView {
        ReadRequestView { path: self.path@, selector: self.selector, sudo: self.sudo }
    }
}

/// The request that arguments make.
pub open spec fn request_of(args: JsonView) -> Result<ReadRequestView, Seq<char>> {
    match json::text_in(json::member(args, "path"@)) {
        None => Err(tools::required("path"@, "a string"@)),
        Some(raw) => Ok(
            ReadRequestView {
                path: path_and_selector(raw).0,
                selector: path_and_selector(raw).1,
                sudo: tools::flag(args, "sudo"@, false),
            },
        ),
    }
}

/// What was found at a path.
#[derive(Debug)]
pub enum Probe {
    /// It could not be looked at, for the reason given.
    Unknown(String),
    Missing,
    Directory,
    File,
}

/// What is to be read.
#[derive(Debug, Clone, Copy, PartialEq, Eq, Structural)]
pub enum ReadKind {
    Directory,
    File,
}

/// What is to be read at a path.
pub open spec fn kind_of(path: Seq<char>, probe: Probe) -> Result<ReadKind, Seq<char>> {
    match probe {
        Probe::Unknown(e) => Err(tools::failed("Cannot stat "@, path, e@)),
        Probe::Missing => Err("File not found: "@ + path),
        Probe::Directory => Ok(ReadKind::Directory),
        Probe::File => Ok(ReadKind::File),
    }
}

/// An entry of a directory.
#[derive(Debug)]
pub struct DirEntry {
    pub name: String,
    pub is_dir: bool,
}

impl View for DirEntry {
    type V = (Seq<char>, bool);

    open spec fn view(&self) -> (Seq<char>, bool) {
        (self.name@, self.is_dir)
    }
}

/// The names of the directories, or of the other entries; directories end in a slash.
pub open spec fn names_of(entries: Seq<(Seq<char>, bool)>, dirs: bool) -> Seq<Seq<char>>
    decreases entries.len(),
{
    if entries.len() == 0 {
        Seq::empty()
    } else {
        let rest = names_of(entries.drop_last(), dirs);
        let e = entries.last();
        if e.1 != dirs {
            rest
        } else if dirs {
            rest.push(e.0 + "/"@)
        } else {
            rest.push(e.0)
        }
    }
}

/// Lines, each with an indentation in front and a line end behind.
pub open spec fn as_rows(lines: Seq<Seq<char>>, indent: Seq<char>) -> Seq<char>
    decreases lines.len(),
{
    if lines.len() == 0 {
        Seq::empty()
    } else {
        as_rows(lines.drop_last(), indent) + indent + lines.last() + "\n"@
    }
}

/// One level of a directory as it is shown: the directories in it, then the files, both
/// sorted.
pub open spec fn level_text(entries: Seq<(Seq<char>, bool)>, indent: Seq<char>) -> Seq<char> {
    as_rows(order::sorted(names_of(entries, true)), indent) + as_rows(
        order::sorted(names_of(entries, false)),
        indent,
    )
}

/// An entry of a directory and, if it is a directory itself, the entries in it.
#[derive(Debug)]
pub struct TreeEntry {
    pub entry: DirEntry,
    pub below: Vec<DirEntry>,
}

impl View for TreeEntry {
    type V = ((Seq<char>, bool), Seq<(Seq<char>, bool)>);

    open spec fn view(&self) -> ((Seq<char>, bool), Seq<(Seq<char>, bool)>) {
        (self.entry@, views::all(self.below@))
    }
}

/// The entries of a tree at its first level.
pub open spec fn top_of(tree: Seq<((Seq<char>, bool), Seq<(Seq<char>, bool)>)>) -> Seq<
    (Seq<char>, bool),
> {
    tree.map_values(|t: ((Seq<char>, bool), Seq<(Seq<char>, bool)>)| t.0)
}

/// The directories of a tree, each with what is in it, indented, on the lines below.
pub open spec fn directory_blocks(
    tree: Seq<((Seq<char>, bool), Seq<(Seq<char>, bool)>)>,
) -> Seq<Seq<char>>
    decreases tree.len(),
{
    if tree.len() == 0 {
        Seq::empty()
    } else {
        let rest = directory_blocks(tree.drop_last());
        let t = tree.last();
        if t.0.1 {
            rest.push(t.0.0 + "/\n"@ + level_text(t.1, "  "@))
        } else {
            rest
        }
    }
}

/// A directory as it is shown, a tree of two levels: the directories in it, each with its
/// own entries below, then the files. Each level is sorted.
pub open spec fn directory_text(
    tree: Seq<((Seq<char>, bool), Seq<(Seq<char>, bool)>)>,
) -> Seq<char> {
    text::join(order::sorted(directory_blocks(tree)), ""@) + as_rows(
        order::sorted(names_of(top_of(tree), false)),
        ""@,
    )
}

pub(crate) fn append_rows(s: String, lines: &[String], indent: &str) -> (r: String)
    ensures
        r@ == s@ + as_rows(views::texts(lines@), indent@),
{
    let ghost vl = views::texts(lines@);
    let mut out = s;
    assert(s@ + as_rows(vl.take(0), indent@) =~= s@);
    for i in 0..lines.len()
        invariant
            vl == views::texts(lines@),
            out@ == s@ + as_rows(vl.take(i as int), indent@),
    {
        proof {
            views::lemma_take_step(vl, i as int);
            assert(vl[i as int] == lines@[i as int]@);
        }
        out.append(indent);
        out.append(lines[i].as_str());
        out.append("\n");
        assert(out@ =~= s@ + as_rows(vl.take(i + 1), indent@));
    }
    proof {
        views::lemma_take_all(vl);
    }
    out
}

fn append_level(s: String, entries: &[DirEntry], indent: &str) -> (r: String)
    ensures
        r@ == s@ + level_text(views::all(entries@), indent@),
{
    let dirs = order::sort_texts(collect_names(entries, true).as_slice());
    let files = order::sort_texts(collect_names(entries, false).as_slice());
    let top = append_rows(s, dirs.as_slice(), indent);
    let all = append_rows(top, files.as_slice(), indent);
    assert(all@ =~= s@ + level_text(views::all(entries@), indent@));
    all
}

fn collect_blocks(tree: &[TreeEntry]) -> (r: Vec<String>)
    ensures
        views::texts(r@) == directory_blocks(views::all(tree@)),
{
    let ghost vt = views::all(tree@);
    let mut out: Vec<String> = Vec::new();
    for i in 0..tree.len()
        invariant
            vt == views::all(tree@),
            views::texts(out@) == directory_blocks(vt.take(i as int)),
    {
        proof {
            views::lemma_take_step(vt, i as int);
            assert(vt[i as int] == tree@[i as int]@);
        }
        if tree[i].entry.is_dir {
            let mut block = tree[i].entry.name.clone();
            block.append("/\n");
            out.push(append_level(block, tree[i].below.as_slice(), "  "));
        }
    }
    proof {
        views::lemma_take_all(vt);
    }
    out
}

fn collect_files(tree: &[TreeEntry]) -> (r: Vec<String>)
    ensures
        views::texts(r@) == names_of(top_of(views::all(tree@)), false),
{
    let ghost vt = top_of(views::all(tree@));
    let mut out: Vec<String> = Vec::new();
    for i in 0..tree.len()
        invariant
            vt == top_of(views::all(tree@)),
            vt.len() == tree@.len(),
            views::texts(out@) == names_of(vt.take(i as int), false),
    {
        proof {
            views::lemma_take_step(vt, i as int);
            assert(views::all(tree@)[i as int] == tree@[i as int]@);
            assert(vt[i as int] == tree@[i as int].entry@);
        }
        if !tree[i].entry.is_dir {
            out.push(tree[i].entry.name.clone());
        }
    }
    proof {
        views::lemma_take_all(vt);
    }
    out
}

fn collect_names(entries: &[DirEntry], dirs: bool) -> (r: Vec<String>)
    ensures
        views::texts(r@) == names_of(views::all(entries@), dirs),
{
    let ghost ve = views::all(entries@);
    let mut out: Vec<String> = Vec::new();
    for i in 0..entries.len()
        invariant
            ve == views::all(entries@),
            views::texts(out@) == names_of(ve.take(i as int), dirs),
    {
        proof {
            views::lemma_take_step(ve, i as int);
            assert(ve[i as int] == entries@[i as int]@);
        }
        if entries[i].is_dir == dirs {
            let mut name = entries[i].name.clone();
            if dirs {
                name.append("/");
            }
            out.push(name);
        }
    }
    proof {
        views::lemma_take_all(ve);
    }
    out
}

/// The first and last line of a selection, in a text of `total` lines. A whole file is
/// shown up to the line cap.
pub open spec fn selected(selector: Option<Selector>, total: int) -> (int, int) {
    match selector {
        Some(Selector::Range { start, end }) => {
            let s = if start < 1 {
                1
            } else {
                start as int
            };
            let e = if end < total {
                end as int
            } else {
                total
            };
            (
                s,
                if e < s {
                    s
                } else {
                    e
                },
            )
        },
        Some(Selector::FromOffset { start, count }) => {
            let s = if start < 1 {
                1
            } else {
                start as int
            };
            let e = if s + count - 1 < total {
                s + count - 1
            } else {
                total
            };
            (
                s,
                if e < s {
                    s
                } else {
                    e
                },
            )
        },
        _ => (
            1,
            if total < DEFAULT_LINE_CAP {
                total
            } else {
                DEFAULT_LINE_CAP as int
            },
        ),
    }
}

/// A selector of lines.
pub open spec fn is_range(selector: Option<Selector>) -> bool {
    selector matches Some(s) && s != Selector::Raw
}

/// The first and last line that are shown: around a selection, one more line in front and
/// three more behind.
pub open spec fn shown_range(selector: Option<Selector>, total: int) -> (int, int) {
    let (s, e) = selected(selector, total);
    if is_range(selector) {
        (
            if s - 1 < 1 {
                1
            } else {
                s - 1
            },
            if e + 3 < total {
                e + 3
            } else {
                total
            },
        )
    } else {
        (s, e)
    }
}

/// The numbered rows of the lines from `a` to `b`.
pub open spec fn numbered_rows(lines: Seq<Seq<char>>, a: int, b: int) -> Seq<char>
    decreases lines.len(),
{
    if lines.len() == 0 {
        Seq::empty()
    } else {
        let rest = numbered_rows(lines.drop_last(), a, b);
        if a <= lines.len() <= b {
            rest + numbers::dec(lines.len()) + ":"@ + lines.last() + "\n"@
        } else {
            rest
        }
    }
}

/// The note below a file that is not shown whole.
pub open spec fn footer(selector: Option<Selector>, total: int) -> Seq<char> {
    let (a, b) = shown_range(selector, total);
    if is_range(selector) && (b < total || a > 1) {
        "…\n[showing lines "@ + numbers::dec(a as nat) + "-"@ + numbers::dec(b as nat) + " of "@
            + numbers::dec(total as nat) + "]\n"@
    } else if selector is None && total > DEFAULT_LINE_CAP {
        "…\n["@ + numbers::dec(total as nat) + " lines total — showing first "@ + numbers::dec(
            DEFAULT_LINE_CAP as nat,
        ) + "; use :N-M to select a range]\n"@
    } else {
        Seq::empty()
    }
}

/// A file as it is shown: its header with its tag, then its lines with their numbers. A
/// raw file is shown as it is.
pub open spec fn file_text(
    path: Seq<char>,
    content: Seq<char>,
    selector: Option<Selector>,
) -> Seq<char> {
    let lines = text::content_lines(content);
    let total = lines.len() as int;
    let (a, b) = shown_range(selector, total);
    if selector == Some(Selector::Raw) {
        content
    } else {
        crate::format::header(path, crate::format::tag(content)) + "\n"@ + numbered_rows(
            lines,
            a,
            b,
        ) + footer(selector, total)
    }
}

/// See [`shown_range`].
fn range_to_show(selector: Option<Selector>, total: usize) -> (r: (u64, u64))
    ensures
        (r.0 as int, r.1 as int) == shown_range(selector, total as int),
{
    let n: u64 = total as u64;
    match selector {
        Some(Selector::Range { start, end }) => {
            let s: u64 = if start < 1 {
                1
            } else {
                start as u64
            };
            let e: u64 = if (end as u64) < n {
                end as u64
            } else {
                n
            };
            around(s, e, n)
        },
        Some(Selector::FromOffset { start, count }) => {
            let s: u64 = if start < 1 {
                1
            } else {
                start as u64
            };
            let e: u64 = if s + count as u64 - 1 < n {
                s + count as u64 - 1
            } else {
                n
            };
            around(s, e, n)
        },
        _ => {
            if n < DEFAULT_LINE_CAP as u64 {
                (1, n)
            } else {
                (1, DEFAULT_LINE_CAP as u64)
            }
        },
    }
}

fn around(s: u64, end: u64, n: u64) -> (r: (u64, u64))
    requires
        1 <= s <= u32::MAX,
        end <= n,
    ensures
        ({
            let e = if end < s {
                s
            } else {
                end
            };
            &&& r.0 == if s - 1 < 1 {
                1
            } else {
                s - 1
            }
            &&& r.1 == if e + 3 < n {
                e + 3
            } else {
                n as int
            }
        }),
{
    let e: u64 = if end < s {
        s
    } else {
        end
    };
    let a: u64 = if s <= 2 {
        1
    } else {
        s - 1
    };
    let b: u64 = if e < n && n - e > 3 {
        e + 3
    } else {
        n
    };
    (a, b)
}

impl ReadTool {
    /// The request that arguments make: `{ path: string, sudo?: bool }`, where the path
    /// may have a `:selector` (e.g. `:50-100`, `:raw`, `:50+10`).
    pub fn request(args: &Json) -> (r: Result<ReadRequest, String>)
        ensures
            match (r, request_of(args@)) {
                (Ok(a), Ok(b)) => a@ == b,
                (Err(e), Err(m)) => e@ == m,
                _ => false,
            },
    {
        match args.text_at("path") {
            None => Err(tools::required_message("path", "a string")),
            Some(raw) => {
                let (path, selector) = parse_selector(raw.as_str());
                Ok(ReadRequest { path, selector, sudo: tools::flag_of(args, "sudo", false) })
            },
        }
    }

    /// What is to be read at a path, after a look at it. See [`kind_of`].
    pub fn kind(path: &str, probe: Probe) -> (r: Result<ReadKind, String>)
        ensures
            match (r, kind_of(path@, probe)) {
                (Ok(a), Ok(b)) => a == b,
                (Err(e), Err(m)) => e@ == m,
                _ => false,
            },
    {
        match probe {
            Probe::Unknown(e) => Err(tools::failed_message("Cannot stat ", path, e.as_str())),
            Probe::Missing => {
                let mut s = text::owned("File not found: ");
                s.append(path);
                Err(s)
            },
            Probe::Directory => Ok(ReadKind::Directory),
            Probe::File => Ok(ReadKind::File),
        }
    }

    /// The result of reading a directory. See [`directory_text`].
    pub fn read_directory(tree: &[TreeEntry]) -> (r: Json)
        ensures
            r@ == tools::text_result(directory_text(views::all(tree@))),
    {
        let dirs = order::sort_texts(collect_blocks(tree).as_slice());
        let files = order::sort_texts(collect_files(tree).as_slice());
        let all = append_rows(text::joined(dirs.as_slice(), ""), files.as_slice(), "");
        tools::text_result_of(all.as_str())
    }

    /// The result of reading a file. See [`file_text`].
    pub fn format_file_content(path: &str, content: &str, selector: Option<Selector>) -> (r: Json)
        ensures
            r@ == tools::text_result(file_text(path@, content@, selector)),
    {
        match selector {
            Some(Selector::Raw) => {
                return tools::text_result_of(content);
            },
            _ => {},
        }
        let lines = text::content_lines_of(content);
        let ghost vl = views::texts(lines@);
        let total: usize = lines.len();
        assert(vl.len() == total);
        let (a, b) = range_to_show(selector, total);
        let tag = compute_file_hash(content);
        let mut out = format_hashline_header(path, tag.as_str());
        out.append("\n");
        let ghost top = out@;
        assert(top + numbered_rows(vl.take(0), a as int, b as int) =~= top);
        for i in 0..lines.len()
            invariant
                vl == views::texts(lines@),
                out@ == top + numbered_rows(vl.take(i as int), a as int, b as int),
        {
            proof {
                views::lemma_take_step(vl, i as int);
                assert(vl[i as int] == lines@[i as int]@);
            }
            let line_no: u64 = i as u64 + 1;
            if a <= line_no && line_no <= b {
                out.append(numbers::decimal(line_no).as_str());
                out.append(":");
                out.append(lines[i].as_str());
                out.append("\n");
            }
            assert(out@ =~= top + numbered_rows(vl.take(i + 1), a as int, b as int));
        }
        proof {
            views::lemma_take_all(vl);
        }
        let range = match selector {
            Some(_) => true,
            None => false,
        };
        let ghost body = out@;
        if range && (b < total as u64 || a > 1) {
            out.append("…\n[showing lines ");
            out.append(numbers::decimal(a).as_str());
            out.append("-");
            out.append(numbers::decimal(b).as_str());
            out.append(" of ");
            out.append(numbers::decimal_usize(total).as_str());
            out.append("]\n");
        } else if !range && total > DEFAULT_LINE_CAP {
            out.append("…\n[");
            out.append(numbers::decimal_usize(total).as_str());
            out.append(" lines total — showing first ");
            out.append(numbers::decimal_usize(DEFAULT_LINE_CAP).as_str());
            out.append("; use :N-M to select a range]\n");
        }
        assert(out@ =~= body + footer(selector, total as int));
        tools::text_result_of(out.as_str())
    }
}

// ── Laws ─────────────────────────────────────────────────────────────────

/// What is read with a selection shows the header of the whole content, whatever the
/// selection: the tag that an edit cites is that of the file.
pub proof fn law_tag_of_whole_file(
    path: Seq<char>,
    content: Seq<char>,
    selector: Option<Selector>,
)
    requires
        selector != Some(Selector::Raw),
    ensures
        text::has_prefix(
            file_text(path, content, selector),
            crate::format::header(path, crate::format::tag(content)) + "\n"@,
        ),
{
    let head = crate::format::header(path, crate::format::tag(content)) + "\n"@;
    let all = file_text(path, content, selector);
    let total = text::content_lines(content).len() as int;
    let (a, b) = shown_range(selector, total);
    let rows = numbered_rows(text::content_lines(content), a, b);
    assert(all =~= head + (rows + footer(selector, total)));
    assert(all.subrange(0, head.len() as int) =~= head);
}

/// The rows of the lines from `a` to `b`: the number of each line, a colon, and the line as
/// it is.
pub open spec fn rows_of(ls: Seq<Seq<char>>, a: int, b: int) -> Seq<char> {
    Seq::new(
        (if b < a {
            0
        } else {
            b + 1 - a
        }) as nat,
        |i: int| numbers::dec((a + i) as nat) + seq![':'] + ls[a + i - 1] + seq!['\n'],
    ).flatten()
}

proof fn lemma_rows(ls: Seq<Seq<char>>, a: int, b: int, n: int)
    requires
        1 <= a,
        0 <= n <= ls.len(),
    ensures
        numbered_rows(ls.take(n), a, b) == rows_of(
            ls,
            a,
            if b < n {
                b
            } else {
                n
            },
        ),
    decreases n,
{
    let f = |i: int| numbers::dec((a + i) as nat) + seq![':'] + ls[a + i - 1] + seq!['\n'];
    if n == 0 {
        assert(Seq::new(0, f) =~= Seq::empty());
        assert(rows_of(ls, a, if b < n { b } else { n }) =~= Seq::empty());
    } else {
        lemma_rows(ls, a, b, n - 1);
        assert(ls.take(n).drop_last() =~= ls.take(n - 1));
        if a <= n <= b {
            reveal_strlit(":");
            reveal_strlit("\n");
            assert(":"@ =~= seq![':']);
            assert("\n"@ =~= seq!['\n']);
            let rows = Seq::new((n + 1 - a) as nat, f);
            rows.lemma_flatten_and_flatten_alt_are_equivalent();
            rows.drop_last().lemma_flatten_and_flatten_alt_are_equivalent();
            assert(rows.drop_last() =~= Seq::new((n - a) as nat, f));
            assert(rows.last() == f(n - a));
            assert(numbered_rows(ls.take(n), a, b) =~= rows.drop_last().flatten() + rows.last());
        } else if n < a {
            assert(Seq::new(0, f) =~= Seq::empty());
        }
    }
}

/// Of a file that is read whole, each line is shown in a row of its own, behind its number
/// and a colon, unchanged and in order, and nothing else is shown below the header. Of a file
/// too long for that, the first lines are shown so, and a note tells of the others.
pub proof fn law_file_shown(path: Seq<char>, content: Seq<char>)
    ensures
        ({
            let ls = text::content_lines(content);
            let head = crate::format::header(path, crate::format::tag(content)) + seq!['\n'];
            &&& ls.len() <= DEFAULT_LINE_CAP ==> file_text(path, content, None) == head + rows_of(
                ls,
                1,
                ls.len() as int,
            )
            &&& ls.len() > DEFAULT_LINE_CAP ==> file_text(path, content, None) == head + rows_of(
                ls,
                1,
                DEFAULT_LINE_CAP as int,
            ) + ("…\n["@ + numbers::dec(ls.len()) + " lines total — showing first "@
                + numbers::dec(DEFAULT_LINE_CAP as nat) + "; use :N-M to select a range]\n"@)
        }),
{
    let ls = text::content_lines(content);
    let n = ls.len() as int;
    reveal_strlit("\n");
    assert("\n"@ =~= seq!['\n']);
    assert(ls.take(n) =~= ls);
    lemma_rows(
        ls,
        1,
        if n < DEFAULT_LINE_CAP {
            n
        } else {
            DEFAULT_LINE_CAP as int
        },
        n,
    );
    if n <= DEFAULT_LINE_CAP {
        let head = crate::format::header(path, crate::format::tag(content)) + seq!['\n'];
        assert(head + rows_of(ls, 1, n) + Seq::<char>::empty() =~= head + rows_of(ls, 1, n));
    }
}

/// Reading a file back: whatever lines a file is made of, and whichever line ends stand
/// between them, what is shown of it are those lines, numbered from one.
pub proof fn law_file_read_back(
    path: Seq<char>,
    ls: Seq<Seq<char>>,
    crlf: Seq<bool>,
)
    requires
        ls.len() == crlf.len(),
        ls.len() <= DEFAULT_LINE_CAP,
        forall|i: int| 0 <= i < ls.len() ==> text::is_one_line(#[trigger] ls[i]),
    ensures
        file_text(path, text::ended_lines(ls, crlf), None) == crate::format::header(
            path,
            crate::format::tag(text::ended_lines(ls, crlf)),
        ) + seq!['\n'] + rows_of(ls, 1, ls.len() as int),
{
    let content = text::ended_lines(ls, crlf);
    text::law_content_lines(ls, crlf, Seq::empty());
    assert(content + Seq::<char>::empty() =~= content);
    law_file_shown(path, content);
}

/// Of a selected range, its lines are shown, with one more in front and three more behind as
/// far as there are such lines: each in a row of its own, behind its number and a colon,
/// unchanged and in order. Where that is not the whole file, a note tells which lines are
/// shown.
pub proof fn law_range_shown(path: Seq<char>, content: Seq<char>, start: u32, end: u32)
    requires
        1 <= start <= end,
        start <= text::content_lines(content).len(),
    ensures
        ({
            let ls = text::content_lines(content);
            let n = ls.len() as int;
            let first: int = if start == 1 {
                1
            } else {
                start - 1
            };
            let last: int = if end + 3 < n {
                end + 3
            } else {
                n
            };
            let head = crate::format::header(path, crate::format::tag(content)) + seq!['\n'];
            let shown = file_text(path, content, Some(Selector::Range { start, end }));
            if first == 1 && last == n {
                shown == head + rows_of(ls, first, last)
            } else {
                shown == head + rows_of(ls, first, last) + ("…\n[showing lines "@ + numbers::dec(
                    first as nat,
                ) + "-"@ + numbers::dec(last as nat) + " of "@ + numbers::dec(n as nat) + "]\n"@)
            }
        }),
{
    let ls = text::content_lines(content);
    let n = ls.len() as int;
    let (a, b) = shown_range(Some(Selector::Range { start, end }), n);
    reveal_strlit("\n");
    assert("\n"@ =~= seq!['\n']);
    assert(ls.take(n) =~= ls);
    lemma_rows(ls, a, b, n);
    let head = crate::format::header(path, crate::format::tag(content)) + seq!['\n'];
    assert(head + rows_of(ls, a, b) + Seq::<char>::empty() =~= head + rows_of(ls, a, b));
}

/// A number of lines from a line on is the range from that line to the last of them.
pub proof fn law_offset_is_range(path: Seq<char>, content: Seq<char>, start: u32, count: u32)
    requires
        1 <= start,
        1 <= count,
        start + count - 1 <= u32::MAX,
    ensures
        file_text(path, content, Some(Selector::FromOffset { start, count })) == file_text(
            path,
            content,
            Some(Selector::Range { start, end: (start + count - 1) as u32 }),
        ),
{
}

// ── Directories as they are shown ────────────────────────────────────────

/// The names of the directories among some entries, each with a slash behind it.
pub open spec fn dirs_among(entries: Seq<(Seq<char>, bool)>) -> Seq<Seq<char>> {
    entries.filter(|e: (Seq<char>, bool)| e.1).map_values(
        |e: (Seq<char>, bool)| e.0 + seq!['/'],
    )
}

/// The names of the other entries.
pub open spec fn files_among(entries: Seq<(Seq<char>, bool)>) -> Seq<Seq<char>> {
    entries.filter(|e: (Seq<char>, bool)| !e.1).map_values(|e: (Seq<char>, bool)| e.0)
}

/// Each line on a row of its own, behind an indentation.
pub open spec fn one_per_row(lines: Seq<Seq<char>>, indent: Seq<char>) -> Seq<char> {
    lines.map_values(|l: Seq<char>| indent + l + seq!['\n']).flatten()
}

pub proof fn lemma_one_per_row(lines: Seq<Seq<char>>, indent: Seq<char>)
    ensures
        as_rows(lines, indent) == one_per_row(lines, indent),
    decreases lines.len(),
{
    reveal_strlit("\n");
    assert("\n"@ =~= seq!['\n']);
    let f = |l: Seq<char>| indent + l + seq!['\n'];
    let rows = lines.map_values(f);
    if lines.len() == 0 {
        assert(rows.flatten() =~= Seq::empty());
    } else {
        lemma_one_per_row(lines.drop_last(), indent);
        rows.lemma_flatten_and_flatten_alt_are_equivalent();
        rows.drop_last().lemma_flatten_and_flatten_alt_are_equivalent();
        assert(rows.drop_last() =~= lines.drop_last().map_values(f));
        assert(as_rows(lines, indent) =~= rows.drop_last().flatten() + rows.last());
    }
}

proof fn lemma_names(entries: Seq<(Seq<char>, bool)>)
    ensures
        names_of(entries, true) == dirs_among(entries),
        names_of(entries, false) == files_among(entries),
    decreases entries.len(),
{
    reveal(Seq::filter);
    reveal_strlit("/");
    assert("/"@ =~= seq!['/']);
    if entries.len() > 0 {
        lemma_names(entries.drop_last());
    }
    assert(names_of(entries, true) =~= dirs_among(entries));
    assert(names_of(entries, false) =~= files_among(entries));
}

/// What is shown of a directory in a tree: its name, and its own entries below it, indented,
/// directories first, each kind sorted.
pub open spec fn shown_directory(t: ((Seq<char>, bool), Seq<(Seq<char>, bool)>)) -> Seq<char> {
    t.0.0 + seq!['/', '\n'] + one_per_row(order::sorted(dirs_among(t.1)), seq![' ', ' '])
        + one_per_row(order::sorted(files_among(t.1)), seq![' ', ' '])
}

proof fn lemma_blocks(tree: Seq<((Seq<char>, bool), Seq<(Seq<char>, bool)>)>)
    ensures
        directory_blocks(tree) == tree.filter(
            |t: ((Seq<char>, bool), Seq<(Seq<char>, bool)>)| t.0.1,
        ).map_values(|t: ((Seq<char>, bool), Seq<(Seq<char>, bool)>)| shown_directory(t)),
    decreases tree.len(),
{
    reveal(Seq::filter);
    reveal_strlit("/\n");
    reveal_strlit("  ");
    assert("/\n"@ =~= seq!['/', '\n']);
    assert("  "@ =~= seq![' ', ' ']);
    let p = |t: ((Seq<char>, bool), Seq<(Seq<char>, bool)>)| t.0.1;
    let f = |t: ((Seq<char>, bool), Seq<(Seq<char>, bool)>)| shown_directory(t);
    if tree.len() > 0 {
        lemma_blocks(tree.drop_last());
        let t = tree.last();
        lemma_names(t.1);
        lemma_one_per_row(order::sorted(names_of(t.1, true)), "  "@);
        lemma_one_per_row(order::sorted(names_of(t.1, false)), "  "@);
        assert(t.0.0 + "/\n"@ + level_text(t.1, "  "@) =~= shown_directory(t));
    }
    assert(directory_blocks(tree) =~= tree.filter(p).map_values(f));
}

proof fn lemma_joined_plainly(parts: Seq<Seq<char>>)
    ensures
        text::join(parts, ""@) == parts.flatten(),
    decreases parts.len(),
{
    reveal_strlit("");
    parts.lemma_flatten_and_flatten_alt_are_equivalent();
    if parts.len() == 0 {
        assert(parts.flatten() =~= Seq::empty());
    } else {
        let rest = parts.drop_last();
        rest.lemma_flatten_and_flatten_alt_are_equivalent();
        lemma_joined_plainly(rest);
        if parts.len() == 1 {
            assert(rest.flatten() =~= Seq::empty());
            assert(parts.flatten() =~= parts[0]);
        } else {
            assert(text::join(parts, ""@) =~= rest.flatten() + parts.last());
        }
    }
}

/// A directory is shown with everything that is in it: its directories, each with its own
/// entries below it, and then its files, each kind sorted, and no entry left out.
pub proof fn law_directory_shown(tree: Seq<((Seq<char>, bool), Seq<(Seq<char>, bool)>)>)
    ensures
        directory_text(tree) == order::sorted(
            tree.filter(|t: ((Seq<char>, bool), Seq<(Seq<char>, bool)>)| t.0.1).map_values(
                |t: ((Seq<char>, bool), Seq<(Seq<char>, bool)>)| shown_directory(t),
            ),
        ).flatten() + one_per_row(
            order::sorted(
                files_among(
                    tree.map_values(|t: ((Seq<char>, bool), Seq<(Seq<char>, bool)>)| t.0),
                ),
            ),
            Seq::empty(),
        ),
{
    reveal_strlit("");
    assert(""@ =~= Seq::empty());
    lemma_blocks(tree);
    lemma_joined_plainly(order::sorted(directory_blocks(tree)));
    lemma_names(top_of(tree));
    lemma_one_per_row(order::sorted(names_of(top_of(tree), false)), ""@);
}

// ── Selectors as they are written ────────────────────────────────────────

/// A character that stands for itself in a selector of numbers.
spec fn is_plain(c: char) -> bool {
    c != ':' && c != '+' && c != '-' && c != ',' && c != 'r' && c != 'w' && !text::is_white(c)
}

proof fn lemma_dec_plain(n: nat, i: int)
    requires
        0 <= i < numbers::dec(n).len(),
    ensures
        is_plain(numbers::dec(n)[i]),
    decreases n,
{
    if n >= 10 {
        let head = numbers::dec(n / 10);
        if i < head.len() {
            lemma_dec_plain(n / 10, i);
            assert(numbers::dec(n)[i] == head[i]);
        } else {
            lemma_digit_plain(n % 10);
        }
    } else {
        lemma_digit_plain(n);
    }
}

proof fn lemma_digit_plain(d: nat)
    requires
        d < 10,
    ensures
        is_plain(numbers::digit_char(d)),
{
}

proof fn lemma_dec_some(n: nat)
    ensures
        numbers::dec(n).len() > 0,
        forall|i: int| 0 <= i < numbers::dec(n).len() ==> is_plain(#[trigger] numbers::dec(n)[i]),
{
    assert forall|i: int| 0 <= i < numbers::dec(n).len() implies is_plain(
        #[trigger] numbers::dec(n)[i],
    ) by {
        lemma_dec_plain(n, i);
    }
}

/// A text that begins and ends with a digit is taken as it is.
proof fn lemma_one_piece(sel: Seq<char>)
    requires
        sel.len() > 0,
        is_plain(sel[0]),
        is_plain(sel.last()),
        !sel.contains(','),
        numeric(sel) is Some,
    ensures
        is_selector(sel),
        meaning(sel) == numeric(sel),
{
    reveal_strlit("raw");
    reveal_strlit("conflicts");
    reveal_strlit("raw:");
    reveal_strlit(":raw");
    assert(text::trim(sel) == sel);
    assert("raw"@.last() == 'w');
    assert("conflicts"@[0] == 'c');
    assert(text::split(sel, ',') =~= seq![sel]) by {
        assert forall|k: int| 0 <= k < 1 implies !(#[trigger] seq![sel][k]).contains(',') by {}
        text::law_split_join(seq![sel], ',');
        assert(text::join(seq![sel], seq![',']) == sel);
    }
    assert(without_raw(sel) == sel) by {
        if text::has_prefix(sel, "raw:"@) {
            assert(sel.subrange(0, 4)[0] == sel[0]);
        }
        if text::has_suffix(sel, ":raw"@) {
            let n = sel.len() as int;
            assert(sel.subrange(n - 4, n - 4 + 4)[3] == sel[n - 1]);
        }
    }
    if sel == "conflicts"@ {
        lemma_word_is_no_number(sel);
    }
}

/// A word of letters is no selector of numbers.
proof fn lemma_word_is_no_number(sel: Seq<char>)
    requires
        sel == "conflicts"@,
    ensures
        numeric(sel) is None,
{
    reveal_strlit("conflicts");
    assert(sel.len() == 9);
    assert(sel[0] == 'c' && sel[8] == 's');
    assert(text::trim(sel) == sel);
    text::lemma_find_char(sel, '+', 0);
    text::lemma_find_char(sel, '-', 0);
    assert(numbers::unsigned_part(sel) == sel);
    assert(!numbers::is_radix_digit(sel[0], 10));
}

/// The colon in front of a selector is the one that is found.
proof fn lemma_colon_found(path: Seq<char>, sel: Seq<char>, n: int)
    requires
        path.len() < n <= path.len() + 1 + sel.len(),
        !sel.contains(':'),
        is_selector(sel),
    ensures
        selector_colon(path + seq![':'] + sel, n) == Some(path.len() as int),
    decreases n,
{
    let raw = path + seq![':'] + sel;
    if n == path.len() + 1 {
        assert(raw[n - 1] == ':');
        assert(raw.skip(n) =~= sel);
    } else {
        assert(raw[n - 1] == sel[n - 2 - path.len()]);
        assert(sel.contains(sel[n - 2 - path.len()]));
        lemma_colon_found(path, sel, n - 1);
    }
}

proof fn lemma_selector_taken(path: Seq<char>, sel: Seq<char>)
    requires
        !sel.contains(':'),
        is_selector(sel),
    ensures
        path_and_selector(path + seq![':'] + sel) == (path, meaning(sel)),
{
    let raw = path + seq![':'] + sel;
    lemma_colon_found(path, sel, raw.len() as int);
    assert(raw.take(path.len() as int) =~= path);
    assert(raw.skip(path.len() as int + 1) =~= sel);
}

/// Two numbers around a sign.
proof fn lemma_two_read(a: u32, sign: char, b: u32)
    requires
        sign == '+' || sign == '-',
    ensures
        ({
            let sel = numbers::dec(a as nat) + seq![sign] + numbers::dec(b as nat);
            &&& !sel.contains(':')
            &&& is_selector(sel)
            &&& meaning(sel) == Some(
                if sign == '+' {
                    Selector::FromOffset { start: a, count: b }
                } else {
                    Selector::Range { start: a, end: b }
                },
            )
        }),
{
    let x = numbers::dec(a as nat);
    let y = numbers::dec(b as nat);
    let sel = x + seq![sign] + y;
    let k = x.len() as int;
    lemma_dec_some(a as nat);
    lemma_dec_some(b as nat);
    assert forall|i: int| 0 <= i < sel.len() implies (i == k && sel[i] == sign) || (i != k
        && is_plain(#[trigger] sel[i])) by {
        if i < k {
            assert(sel[i] == x[i]);
        } else if i > k {
            assert(sel[i] == y[i - k - 1]);
        }
    }
    assert(sel.last() == y.last());
    assert(is_plain(sel[0]) && is_plain(sel.last()));
    assert(text::trim(sel) == sel);
    text::lemma_find_char(sel, '+', 0);
    text::lemma_find_char(sel, '-', 0);
    assert(sel[k] == sign);
    assert(sel.take(k) =~= x);
    assert(sel.skip(k + 1) =~= y);
    numbers::law_number_read_back(a as nat, 10, u32::MAX as int);
    numbers::law_number_read_back(b as nat, 10, u32::MAX as int);
    lemma_one_piece(sel);
}

/// A path with a range behind it, `:N-M`, names the path and that range; with `:N+C`, as
/// many lines from line `N` on; with `:N`, that one line; with `:raw`, the file as it is. The
/// path may hold anything, colons too.
pub proof fn law_selector_read(path: Seq<char>, n: u32, m: u32)
    ensures
        path_and_selector(
            path + seq![':'] + (numbers::dec(n as nat) + seq!['-'] + numbers::dec(m as nat)),
        ) == (path, Some(Selector::Range { start: n, end: m })),
        path_and_selector(
            path + seq![':'] + (numbers::dec(n as nat) + seq!['+'] + numbers::dec(m as nat)),
        ) == (path, Some(Selector::FromOffset { start: n, count: m })),
        path_and_selector(path + seq![':'] + numbers::dec(n as nat)) == (
            path,
            Some(Selector::Range { start: n, end: n }),
        ),
        path_and_selector(path + seq![':'] + "raw"@) == (path, Some(Selector::Raw)),
{
    lemma_two_read(n, '-', m);
    lemma_two_read(n, '+', m);
    lemma_selector_taken(path, numbers::dec(n as nat) + seq!['-'] + numbers::dec(m as nat));
    lemma_selector_taken(path, numbers::dec(n as nat) + seq!['+'] + numbers::dec(m as nat));
    let x = numbers::dec(n as nat);
    lemma_dec_some(n as nat);
    assert(is_plain(x[0]) && is_plain(x.last()));
    assert(text::trim(x) == x);
    text::lemma_find_char(x, '+', 0);
    text::lemma_find_char(x, '-', 0);
    numbers::law_number_read_back(n as nat, 10, u32::MAX as int);
    lemma_one_piece(x);
    lemma_selector_taken(path, x);
    reveal_strlit("raw");
    lemma_selector_taken(path, "raw"@);
}

proof fn lemma_no_colon(raw: Seq<char>, n: int)
    requires
        !raw.contains(':'),
        n <= raw.len(),
    ensures
        selector_colon(raw, n) is None,
    decreases n,
{
    if n > 0 {
        assert(raw.contains(raw[n - 1]));
        lemma_no_colon(raw, n - 1);
    }
}

/// A path without a colon has no selector.
pub proof fn law_no_selector(path: Seq<char>)
    requires
        !path.contains(':'),
    ensures
        path_and_selector(path) == (path, None::<Selector>),
{
    lemma_no_colon(path, path.len() as int);
}

} // verus!
