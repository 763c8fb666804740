//! `remote_search`: lines that match a regular expression, with the lines around them.

use vstd::prelude::*;

use crate::engines;
use crate::engines::Compiled;
use crate::format::{compute_file_hash, format_hashline_header};
use crate::json;
use crate::json::{Json, JsonView};
use crate::numbers;
use crate::text;
use crate::tools;
use crate::views;

verus! {

broadcast use {
    crate::views::group_all,
    crate::views::group_texts,
    crate::json::group_json,
};

/// Match limit for the whole search.
pub const MAX_TOTAL_MATCHES: usize = 2000;

/// Per-file match limit when searching multiple files.
pub const MAX_PER_FILE_MULTI: usize = 20;

/// Per-file match limit when searching a single file.
pub const MAX_PER_FILE_SINGLE: usize = 200;

/// Maximum bytes shown of a line.
pub const MAX_LINE_COLUMNS: usize = 512;

/// Tool implementing regex search across files.
pub struct SearchTool;

/// What a `remote_search` asks for.
#[derive(Debug)]
pub struct SearchRequest {
    pub pattern: String,
    pub paths: Vec<String>,
    pub case_sensitive: bool,
    /// Respect ignore files.
    pub gitignore: bool,
}

/// The model of a [`SearchRequest`].
#[verifier::ext_equal]
pub struct SearchRequestView {
    pub pattern: Seq<char>,
    pub paths: Seq<Seq<char>>,
    pub case_sensitive: bool,
    pub gitignore: bool,
}

impl View for SearchRequest {
    type V = SearchRequestView;

    open spec fn view(&self) -> SearchRequestView {
        SearchRequestView {
            pattern: self.pattern@,
            paths: views::texts(self.paths@),
            case_sensitive: self.case_sensitive,
            gitignore: self.gitignore,
        }
    }
}

/// The paths to search: a text, the texts of an array, or the current directory.
pub open spec fn paths_of(v: Option<JsonView>) -> Option<Seq<Seq<char>>> {
    match v {
        None => Some(seq!["."@]),
        Some(JsonView::Text(s)) => Some(seq![s]),
        Some(JsonView::Array(items)) => Some(tools::texts_among(items)),
        Some(_) => None,
    }
}

/// The request that arguments make.
pub open spec fn request_of(args: JsonView) -> Result<SearchRequestView, Seq<char>> {
    match (
        json::text_in(json::member(args, "pattern"@)),
        paths_of(json::member(args, "paths"@)),
    ) {
        (None, _) => Err(tools::required("pattern"@, "a string"@)),
        (_, None) => Err("`paths` must be a string or array"@),
        (Some(pattern), Some(paths)) => Ok(
            SearchRequestView {
                pattern,
                paths,
                case_sensitive: tools::flag(args, "case"@, true),
                gitignore: tools::flag(args, "gitignore"@, true),
            },
        ),
    }
}

// ── Showing matches ──────────────────────────────────────────────────────

/// A line as it is shown: its number and its beginning.
pub open spec fn row(mark: Seq<char>, number: nat, line: Seq<char>) -> Seq<char> {
    mark + numbers::dec(number) + ":"@ + numbers::clip(line, MAX_LINE_COLUMNS as nat) + "\n"@
}

/// The row of the line at a position, if there is such a line.
pub open spec fn context_row(lines: Seq<Seq<char>>, at: int) -> Seq<char> {
    if 0 <= at < lines.len() {
        row(" "@, (at + 1) as nat, lines[at])
    } else {
        Seq::empty()
    }
}

/// A match at a position: the line, the line before it, and the three lines behind it.
pub open spec fn match_rows(lines: Seq<Seq<char>>, at: int) -> Seq<char> {
    row("*"@, (at + 1) as nat, lines[at]) + context_row(lines, at - 1) + context_row(
        lines,
        at + 1,
    ) + context_row(lines, at + 2) + context_row(lines, at + 3)
}

/// The matches among the first `n` lines of a file, and how many they are, up to the
/// limit for the file and that for the whole search, of which `total` are used up.
pub open spec fn matches_upto(
    lines: Seq<Seq<char>>,
    flags: Seq<bool>,
    limit: int,
    total: int,
    n: int,
) -> (Seq<char>, int)
    decreases n,
{
    if n <= 0 {
        (Seq::empty(), 0)
    } else {
        let (rows, count) = matches_upto(lines, flags, limit, total, n - 1);
        if total + count >= MAX_TOTAL_MATCHES || count >= limit || !flags[n - 1] {
            (rows, count)
        } else {
            (rows + match_rows(lines, n - 1), count + 1)
        }
    }
}

fn append_row(s: String, mark: &str, number: usize, line: &str) -> (r: String)
    ensures
        r@ == s@ + row(mark@, number as nat, line@),
{
    let mut out = s;
    let mut t = text::owned(mark);
    t.append(numbers::decimal_usize(number).as_str());
    t.append(":");
    let (beginning, _cut) = numbers::clipped(line, MAX_LINE_COLUMNS);
    t.append(beginning.as_str());
    t.append("\n");
    out.append(t.as_str());
    out
}

fn append_context(s: String, lines: &[String], at: usize) -> (r: String)
    requires
        at < usize::MAX,
    ensures
        r@ == s@ + context_row(views::texts(lines@), at as int),
{
    if at < lines.len() {
        assert(views::texts(lines@)[at as int] == lines@[at as int]@);
        append_row(s, " ", at + 1, lines[at].as_str())
    } else {
        assert(s@ + Seq::<char>::empty() =~= s@);
        s
    }
}

fn append_match(s: String, lines: &[String], at: usize) -> (r: String)
    requires
        at < lines@.len(),
    ensures
        r@ == s@ + match_rows(views::texts(lines@), at as int),
{
    let ghost vl = views::texts(lines@);
    let n: usize = lines.len();
    assert(vl.len() == n);
    assert(vl[at as int] == lines@[at as int]@);
    let mut out = append_row(s, "*", at + 1, lines[at].as_str());
    let ghost first = row("*"@, (at + 1) as nat, vl[at as int]);
    if at > 0 {
        out = append_context(out, lines, at - 1);
    } else {
        assert(out@ + context_row(vl, -1) =~= out@);
    }
    let mut k: usize = 1;
    while k <= 3
        invariant
            1 <= k <= 4,
            n == lines@.len(),
            vl == views::texts(lines@),
            vl.len() == n,
            at < n,
            k == 1 ==> out@ == s@ + first + context_row(vl, at - 1),
            k == 2 ==> out@ == s@ + first + context_row(vl, at - 1) + context_row(vl, at + 1),
            k == 3 ==> out@ == s@ + first + context_row(vl, at - 1) + context_row(vl, at + 1)
                + context_row(vl, at + 2),
            k == 4 ==> out@ == s@ + first + context_row(vl, at - 1) + context_row(vl, at + 1)
                + context_row(vl, at + 2) + context_row(vl, at + 3),
        decreases 4 - k,
    {
        if n - at > k {
            out = append_context(out, lines, at + k);
        } else {
            assert(out@ + context_row(vl, at + k) =~= out@);
        }
        k = k + 1;
    }
    assert(out@ =~= s@ + match_rows(vl, at as int));
    out
}

/// A search under way.
#[derive(Debug)]
pub struct SearchRun {
    /// The pattern that is matched.
    pub pattern: Compiled,
    /// The match limit for a file.
    pub limit: usize,
    /// How many matches there were.
    pub total: usize,
    /// What is shown of them.
    pub output: String,
}

/// The model of a [`SearchRun`].
#[verifier::ext_equal]
pub struct SearchRunView {
    pub pattern: Seq<char>,
    pub limit: int,
    pub total: int,
    pub output: Seq<char>,
}

impl View for SearchRun {
    type V = SearchRunView;

    open spec fn view(&self) -> SearchRunView {
        SearchRunView {
            pattern: self.pattern@,
            limit: self.limit as int,
            total: self.total as int,
            output: self.output@,
        }
    }
}

/// A search after one more file; `flags` says which of its lines match. A file without a
/// match is not shown.
pub open spec fn file_searched(
    run: SearchRunView,
    path: Seq<char>,
    content: Seq<char>,
    flags: Seq<bool>,
) -> SearchRunView {
    let lines = text::content_lines(content);
    let (rows, count) = matches_upto(lines, flags, run.limit, run.total, lines.len() as int);
    if count > 0 {
        SearchRunView {
            total: run.total + count,
            output: run.output + (crate::format::header(path, crate::format::tag(content)) + "\n"@
                + rows),
            ..run
        }
    } else {
        run
    }
}

/// The pattern that is matched: case is ignored by a mark in front.
pub open spec fn effective_pattern(pattern: Seq<char>, case_sensitive: bool) -> Seq<char> {
    if case_sensitive {
        pattern
    } else {
        "(?i)"@ + pattern
    }
}

/// The match limit for a file.
pub open spec fn file_limit(single_file: bool) -> int {
    if single_file {
        MAX_PER_FILE_SINGLE as int
    } else {
        MAX_PER_FILE_MULTI as int
    }
}

/// Which lines match a pattern.
pub open spec fn flags_of(pattern: Seq<char>, lines: Seq<Seq<char>>) -> Seq<bool> {
    lines.map_values(|l: Seq<char>| engines::found(pattern, l))
}

/// The syntax of a pattern is in order.
pub open spec fn is_parsed(pattern: Seq<char>) -> bool {
    engines::regex_syntax_error(pattern) is None
}

/// The complaint about a pattern that cannot be used: the engine's message behind a fixed
/// opening. Where the syntax of the pattern is not in order, the message is that of its
/// syntax error.
pub open spec fn is_refusal(pattern: Seq<char>, message: Seq<char>) -> bool {
    &&& exists|m: Seq<char>| message == #[trigger] refusal(m)
    &&& engines::regex_syntax_error(pattern) matches Some(m) ==> message == refusal(m)
}

/// Which lines a pattern matches. See [`flags_of`].
fn flags_for(pattern: &Compiled, lines: &[String]) -> (r: Vec<bool>)
    ensures
        r@ == flags_of(pattern@, views::texts(lines@)),
{
    let ghost vl = views::texts(lines@);
    let mut flags: Vec<bool> = Vec::new();
    for i in 0..lines.len()
        invariant
            vl == views::texts(lines@),
            flags@.len() == i,
            forall|j: int|
                0 <= j < i ==> #[trigger] flags@[j] == engines::found(pattern@, vl[j]),
    {
        assert(vl[i as int] == lines@[i as int]@);
        flags.push(pattern.is_match(lines[i].as_str()));
    }
    assert(flags@ =~= flags_of(pattern@, vl));
    flags
}

/// The complaint about a pattern, from the engine's message.
pub open spec fn refusal(message: Seq<char>) -> Seq<char> {
    "Invalid regex pattern: "@ + message
}

fn refused(message: String) -> (r: String)
    ensures
        r@ == refusal(message@),
{
    let mut s = text::owned("Invalid regex pattern: ");
    s.append(message.as_str());
    s
}

/// A search before the first file.
pub open spec fn fresh_run(pattern: Seq<char>, single_file: bool) -> SearchRunView {
    SearchRunView {
        pattern,
        limit: file_limit(single_file),
        total: 0,
        output: Seq::empty(),
    }
}

impl SearchTool {
    /// The request that arguments make:
    /// `{ pattern: string, paths?: string|array, case?: bool, gitignore?: bool }`.
    pub fn request(args: &Json) -> (r: Result<SearchRequest, String>)
        ensures
            match (r, request_of(args@)) {
                (Ok(a), Ok(b)) => a@ == b,
                (Err(e), Err(m)) => e@ == m,
                _ => false,
            },
    {
        let pattern = match args.text_at("pattern") {
            Some(p) => p,
            None => {
                return Err(tools::required_message("pattern", "a string"));
            },
        };
        let mut paths: Vec<String> = Vec::new();
        match args.get("paths") {
            None => {
                paths.push(text::owned("."));
                assert(views::texts(paths@) =~= seq!["."@]);
            },
            Some(j) => match j {
                Json::Text(s) => {
                    paths.push(s.clone());
                    assert(views::texts(paths@) =~= seq![s@]);
                },
                Json::Array(items) => {
                    paths = tools::collect_texts(items.as_slice());
                },
                _ => {
                    return Err(text::owned("`paths` must be a string or array"));
                },
            },
        }
        Ok(
            SearchRequest {
                pattern,
                paths,
                case_sensitive: tools::flag_of(args, "case", true),
                gitignore: tools::flag_of(args, "gitignore", true),
            },
        )
    }

    /// Begin a search with what became of compiling its pattern as it was given and, where
    /// case is to be ignored, of compiling it again with a mark for that in front. The
    /// pattern must be usable as it was given, too; it is the last one compiled that is
    /// matched.
    pub fn started(
        given: Result<Compiled, String>,
        ignoring_case: Option<Result<Compiled, String>>,
        single_file: bool,
    ) -> (r: Result<SearchRun, String>)
        ensures
            match (given, ignoring_case) {
                (Err(m), _) => r is Err && r->Err_0@ == refusal(m@),
                (Ok(c), None) => r is Ok && r->Ok_0@ == fresh_run(c@, single_file),
                (Ok(_), Some(Err(m))) => r is Err && r->Err_0@ == refusal(m@),
                (Ok(_), Some(Ok(c))) => r is Ok && r->Ok_0@ == fresh_run(c@, single_file),
            },
    {
        let first = match given {
            Ok(c) => c,
            Err(m) => {
                return Err(refused(m));
            },
        };
        let pattern = match ignoring_case {
            None => first,
            Some(Ok(c)) => c,
            Some(Err(m)) => {
                return Err(refused(m));
            },
        };
        let limit: usize = if single_file {
            MAX_PER_FILE_SINGLE
        } else {
            MAX_PER_FILE_MULTI
        };
        let run = SearchRun { pattern, limit, total: 0, output: String::new() };
        assert(run.output@ =~= Seq::empty());
        Ok(run)
    }

    /// Begin a search. A pattern with a syntax error is refused; whether another can be used
    /// is for the regular expression engine to say. Where it cannot, the error is the
    /// engine's message behind `Invalid regex pattern: `. What is made of the engine's
    /// answers is told by [`SearchTool::started`].
    pub fn start(request: &SearchRequest, single_file: bool) -> (r: Result<SearchRun, String>)
        ensures
            match r {
                Ok(run) => {
                    &&& is_parsed(request@.pattern)
                    &&& is_parsed(run@.pattern)
                    &&& run@ == fresh_run(
                        effective_pattern(request@.pattern, request.case_sensitive),
                        single_file,
                    )
                },
                Err(e) => {
                    ||| is_refusal(request@.pattern, e@)
                    ||| is_parsed(request@.pattern) && is_refusal(
                        effective_pattern(request@.pattern, request.case_sensitive),
                        e@,
                    )
                },
            },
    {
        let given = Compiled::new(request.pattern.as_str());
        let ignoring_case = if request.case_sensitive {
            None
        } else {
            let mut p = text::owned("(?i)");
            p.append(request.pattern.as_str());
            Some(Compiled::new(p.as_str()))
        };
        SearchTool::started(given, ignoring_case, single_file)
    }
}

impl SearchRun {
    /// Whether another file may still show a match.
    pub fn wants_more(&self) -> (r: bool)
        ensures
            r == (self@.total < MAX_TOTAL_MATCHES),
    {
        self.total < MAX_TOTAL_MATCHES
    }

    /// Search a file, given which of its lines match. See [`file_searched`].
    pub fn add_matches(&mut self, path: &str, content: &str, flags: &[bool])
        requires
            flags@.len() == text::content_lines(content@).len(),
        ensures
            final(self)@ == file_searched(old(self)@, path@, content@, flags@),
    {
        if self.total >= MAX_TOTAL_MATCHES {
            proof {
                let n = text::content_lines(content@).len() as int;
                law_limit_reached(
                    text::content_lines(content@),
                    flags@,
                    self.limit as int,
                    self.total as int,
                    n,
                );
            }
            return;
        }
        let lines = text::content_lines_of(content);
        let ghost vl = views::texts(lines@);
        let limit: usize = self.limit;
        let total: usize = self.total;
        let n: usize = lines.len();
        assert(vl.len() == n);
        let mut rows = String::new();
        let mut count: usize = 0;
        assert(rows@ =~= Seq::empty());
        for i in 0..n
            invariant
                n == lines@.len(),
                vl == views::texts(lines@),
                vl.len() == n,
                flags@.len() == n,
                total + count <= MAX_TOTAL_MATCHES,
                (rows@, count as int) == matches_upto(
                    vl,
                    flags@,
                    limit as int,
                    total as int,
                    i as int,
                ),
        {
            if total + count < MAX_TOTAL_MATCHES && count < limit && flags[i] {
                rows = append_match(rows, lines.as_slice(), i);
                count = count + 1;
            }
        }
        if count > 0 {
            let tag = compute_file_hash(content);
            let mut shown = format_hashline_header(path, tag.as_str());
            shown.append("\n");
            shown.append(rows.as_str());
            self.output.append(shown.as_str());
            self.total = total + count;
        }
    }

    /// Search a file for the pattern.
    pub fn search_file(&mut self, path: &str, content: &str)
        ensures
            final(self)@ == file_searched(
                old(self)@,
                path@,
                content@,
                flags_of(old(self)@.pattern, text::content_lines(content@)),
            ),
    {
        let lines = text::content_lines_of(content);
        let flags = flags_for(&self.pattern, lines.as_slice());
        self.add_matches(path, content, flags.as_slice());
    }

    /// The result of the search.
    pub fn result(&self) -> (r: Json)
        ensures
            r@ == tools::text_result(self@.output),
    {
        tools::text_result_of(self.output.as_str())
    }
}

// ── Laws ─────────────────────────────────────────────────────────────────

/// Once the limit for the whole search is reached, no file shows another match.
pub proof fn law_limit_reached(
    lines: Seq<Seq<char>>,
    flags: Seq<bool>,
    limit: int,
    total: int,
    n: int,
)
    requires
        total >= MAX_TOTAL_MATCHES,
    ensures
        matches_upto(lines, flags, limit, total, n) == (Seq::<char>::empty(), 0int),
    decreases n,
{
    if n > 0 {
        law_limit_reached(lines, flags, limit, total, n - 1);
    }
}

/// A search never shows more matches than the limits allow, neither of a file nor in all.
pub proof fn law_limits_kept(
    lines: Seq<Seq<char>>,
    flags: Seq<bool>,
    limit: int,
    total: int,
    n: int,
)
    requires
        0 <= limit,
        0 <= total <= MAX_TOTAL_MATCHES,
    ensures
        0 <= matches_upto(lines, flags, limit, total, n).1 <= limit,
        total + matches_upto(lines, flags, limit, total, n).1 <= MAX_TOTAL_MATCHES,
    decreases n,
{
    if n > 0 {
        law_limits_kept(lines, flags, limit, total, n - 1);
    }
}

/// The positions of the lines that match, in order.
pub open spec fn matched(flags: Seq<bool>) -> Seq<int> {
    Seq::new(flags.len(), |i: int| i).filter(|i: int| flags[i])
}

/// A line behind a mark, its number and a colon, up to its first 512 bytes.
pub open spec fn marked_line(mark: char, lines: Seq<Seq<char>>, at: int) -> Seq<char> {
    seq![mark] + numbers::dec((at + 1) as nat) + seq![':'] + numbers::clip(lines[at], 512)
        + seq!['\n']
}

/// What is shown of a match: the line itself behind the mark `*`, then, behind a space, the
/// line before it and the three behind it, as far as there are such lines.
pub open spec fn shown_match(lines: Seq<Seq<char>>, at: int) -> Seq<char> {
    let n = lines.len();
    marked_line('*', lines, at) + (if at >= 1 {
        marked_line(' ', lines, at - 1)
    } else {
        seq![]
    }) + (if at + 1 < n {
        marked_line(' ', lines, at + 1)
    } else {
        seq![]
    }) + (if at + 2 < n {
        marked_line(' ', lines, at + 2)
    } else {
        seq![]
    }) + (if at + 3 < n {
        marked_line(' ', lines, at + 3)
    } else {
        seq![]
    })
}

/// How many matches a file may still add: its own limit, and what is left of the search's.
pub open spec fn allowed(limit: int, total: int) -> int {
    let left = 2000 - total;
    let least = if limit < left {
        limit
    } else {
        left
    };
    if least < 0 {
        0
    } else {
        least
    }
}

proof fn lemma_shown_match(lines: Seq<Seq<char>>, at: int)
    requires
        0 <= at < lines.len(),
    ensures
        match_rows(lines, at) == shown_match(lines, at),
{
    reveal_strlit("*");
    reveal_strlit(" ");
    reveal_strlit(":");
    reveal_strlit("\n");
    assert("*"@ =~= seq!['*']);
    assert(" "@ =~= seq![' ']);
    assert(":"@ =~= seq![':']);
    assert("\n"@ =~= seq!['\n']);
}

proof fn lemma_matches_upto(
    lines: Seq<Seq<char>>,
    flags: Seq<bool>,
    limit: int,
    total: int,
    n: int,
)
    requires
        0 <= n <= flags.len(),
        flags.len() == lines.len(),
    ensures
        ({
            let at = Seq::new(n as nat, |i: int| i).filter(|i: int| flags[i]);
            let k = if (at.len() as int) < allowed(limit, total) {
                at.len() as int
            } else {
                allowed(limit, total)
            };
            &&& matches_upto(lines, flags, limit, total, n).1 == k
            &&& matches_upto(lines, flags, limit, total, n).0 == at.take(k).map_values(
                |i: int| shown_match(lines, i),
            ).flatten()
        }),
    decreases n,
{
    reveal(Seq::filter);
    let p = |i: int| flags[i];
    let f = |i: int| shown_match(lines, i);
    let all = Seq::new(n as nat, |i: int| i);
    let at = all.filter(p);
    let most = allowed(limit, total);
    if n == 0 {
        assert(at.take(0).map_values(f).flatten() =~= Seq::empty());
    } else {
        lemma_matches_upto(lines, flags, limit, total, n - 1);
        assert(all.drop_last() =~= Seq::new((n - 1) as nat, |i: int| i));
        let before = all.drop_last().filter(p);
        if flags[n - 1] {
            assert(at =~= before.push(n - 1));
            if (before.len() as int) < most {
                assert(before.take(before.len() as int) =~= before);
                assert(at.take(at.len() as int) =~= at);
                let rows = at.map_values(f);
                rows.lemma_flatten_and_flatten_alt_are_equivalent();
                rows.drop_last().lemma_flatten_and_flatten_alt_are_equivalent();
                assert(rows.drop_last() =~= before.map_values(f));
                lemma_shown_match(lines, n - 1);
            } else {
                assert(at.take(most) =~= before.take(most));
            }
        } else {
            assert(at =~= before);
        }
    }
}

/// A search shows the lines that match, each in a row of its own with the mark `*`, its number
/// and its text, and its neighbours below it, in the order of the file; and it counts them.
/// It shows and counts all of them unless a limit is reached, and then the first ones.
pub proof fn law_matches_shown(
    run: SearchRunView,
    path: Seq<char>,
    content: Seq<char>,
    flags: Seq<bool>,
)
    requires
        flags.len() == text::content_lines(content).len(),
    ensures
        ({
            let lines = text::content_lines(content);
            let at = matched(flags);
            let k: int = if (at.len() as int) < allowed(run.limit, run.total) {
                at.len() as int
            } else {
                allowed(run.limit, run.total)
            };
            let after = file_searched(run, path, content, flags);
            &&& after.total == run.total + k
            &&& after.output == (if k == 0 {
                run.output
            } else {
                run.output + (crate::format::header(path, crate::format::tag(content)) + seq![
                    '\n',
                ] + at.take(k).map_values(|i: int| shown_match(lines, i)).flatten())
            })
        }),
{
    let lines = text::content_lines(content);
    reveal_strlit("\n");
    assert("\n"@ =~= seq!['\n']);
    lemma_matches_upto(lines, flags, run.limit, run.total, lines.len() as int);
}

/// Every line that the pattern matches is counted and shown, while no limit is reached:
/// of each such line the output holds a row with the mark `*`, its number and its text.
pub proof fn law_each_match_shown(
    run: SearchRunView,
    path: Seq<char>,
    content: Seq<char>,
    pattern: Seq<char>,
    i: int,
)
    requires
        matched(flags_of(pattern, text::content_lines(content))).len() <= allowed(
            run.limit,
            run.total,
        ),
        0 <= i < text::content_lines(content).len(),
        engines::found(pattern, text::content_lines(content)[i]),
    ensures
        ({
            let lines = text::content_lines(content);
            let flags = Seq::new(lines.len(), |j: int| engines::found(pattern, lines[j]));
            let after = file_searched(run, path, content, flags_of(pattern, lines));
            &&& after.total == run.total + matched(flags).len()
            &&& exists|a: Seq<char>, b: Seq<char>|
                after.output == #[trigger] (a + marked_line('*', lines, i) + b)
        }),
{
    let lines = text::content_lines(content);
    let flags = flags_of(pattern, lines);
    let p = |j: int| flags[j];
    let f = |j: int| shown_match(lines, j);
    let all = Seq::new(flags.len(), |j: int| j);
    let at = matched(flags);
    assert(flags =~= Seq::new(lines.len(), |j: int| engines::found(pattern, lines[j])));
    law_matches_shown(run, path, content, flags);
    assert(at.take(at.len() as int) =~= at);
    assert(all[i] == i && p(i));
    all.lemma_filter_contains(p, i);
    let m = choose|m: int| 0 <= m < at.len() && at[m] == i;
    let head = run.output + (crate::format::header(path, crate::format::tag(content)) + seq!['\n']);
    let rows = at.map_values(f);
    let (a, b) = lemma_row_within(rows, m);
    let one = marked_line('*', lines, i);
    let tail = shown_match(lines, i).skip(one.len() as int);
    assert(shown_match(lines, i) =~= one + tail);
    let out = file_searched(run, path, content, flags).output;
    assert(out =~= (head + a) + one + (tail + b));
}

/// A list of rows, put together, holds each of them.
proof fn lemma_row_within(rows: Seq<Seq<char>>, m: int) -> (r: (Seq<char>, Seq<char>))
    requires
        0 <= m < rows.len(),
    ensures
        rows.flatten() == r.0 + rows[m] + r.1,
    decreases rows.len(),
{
    rows.lemma_flatten_and_flatten_alt_are_equivalent();
    let rest = rows.drop_last();
    rest.lemma_flatten_and_flatten_alt_are_equivalent();
    if m == rows.len() - 1 {
        assert(rows.flatten() =~= rest.flatten() + rows[m] + Seq::<char>::empty());
        (rest.flatten(), Seq::empty())
    } else {
        let (a, b) = lemma_row_within(rest, m);
        assert(rest[m] == rows[m]);
        assert(rows.flatten() =~= a + rows[m] + (b + rows.last()));
        (a, b + rows.last())
    }
}

/// What a search begins with: nothing found and nothing shown; of a single file two hundred
/// matches are allowed, of each of several files twenty. A search that ignores case marks its
/// pattern so and leaves it alone otherwise.
pub proof fn law_search_begun(pattern: Seq<char>)
    ensures
        fresh_run(pattern, true).limit == 200,
        fresh_run(pattern, false).limit == 20,
        fresh_run(pattern, true).total == 0,
        fresh_run(pattern, false).total == 0,
        fresh_run(pattern, true).output.len() == 0,
        fresh_run(pattern, false).output.len() == 0,
        effective_pattern(pattern, true) == pattern,
        effective_pattern(pattern, false) == seq!['(', '?', 'i', ')'] + pattern,
{
    reveal_strlit("(?i)");
    assert("(?i)"@ =~= seq!['(', '?', 'i', ')']);
}

} // verus!
