//! What makes no difference to the parse of a patch: what stands behind an end marker, and
//! how a hunk header is spelled.

use vstd::prelude::*;

use crate::format::{
    HL_DELETE_BLOCK_KEYWORD, HL_DELETE_KEYWORD, HL_INSERT_AFTER, HL_INSERT_AFTER_BLOCK_KEYWORD,
    HL_INSERT_BEFORE, HL_INSERT_HEAD, HL_INSERT_KEYWORD, HL_INSERT_TAIL, HL_MOVE_KEYWORD,
    HL_REM_KEYWORD, HL_REPLACE_BLOCK_KEYWORD, HL_REPLACE_KEYWORD,
};
use crate::numbers;
use crate::parser;
use crate::parser::{CommentView, ExecutorView, RawFactsView};
use crate::text;
use crate::tokenizer;
use crate::tokenizer::{BlockTargetView, TokenView, ABORT_MARKER, END_PATCH_MARKER};
use crate::types::{Anchor, Cursor, InsertMode, ParsedRange};

verus! {

// ── Tokens of a text in which one line is told apart ─────────────────────

/// A line as the tokenizer numbers it.
pub open spec fn tokens_of_lines(ls: Seq<Seq<char>>) -> Seq<TokenView> {
    Seq::new(ls.len(), |i: int| tokenizer::token_of(text::strip_cr(ls[i]), (i + 1) as usize))
}

/// The lines of a diff before carriage returns are dropped.
pub open spec fn kept_lines(s: Seq<char>) -> Seq<Seq<char>> {
    let ls = text::lines(s);
    if s.len() > 0 && ls.last().len() == 0 {
        ls.drop_last()
    } else {
        ls
    }
}

pub proof fn lemma_tokens(s: Seq<char>)
    ensures
        tokenizer::tokens(s) == tokens_of_lines(kept_lines(s)),
{
    assert(tokenizer::tokens(s) =~= tokens_of_lines(kept_lines(s)));
}

/// The lines behind a line, as they follow in a text.
pub open spec fn lines_behind(tail: Seq<char>) -> Seq<Seq<char>> {
    if tail.len() == 0 {
        Seq::empty()
    } else {
        let ls = text::lines(tail.skip(1));
        if ls.last().len() == 0 {
            ls.drop_last()
        } else {
            ls
        }
    }
}

proof fn lemma_kept_around(before: Seq<char>, line: Seq<char>, tail: Seq<char>)
    requires
        before.len() == 0 || before.last() == '\n',
        line.len() > 0,
        !line.contains('\n'),
        tail.len() == 0 || tail[0] == '\n',
    ensures
        kept_lines(before + line + tail) == text::lines(before).drop_last().push(line)
            + lines_behind(tail),
{
    let s = before + line + tail;
    text::lemma_lines_around(before, line, tail);
    let head = text::lines(before).drop_last().push(line);
    if tail.len() > 0 {
        let ls = text::lines(tail.skip(1));
        text::lemma_split_nonempty(tail.skip(1), '\n');
        assert((head + ls).last() == ls.last());
        assert((head + ls).drop_last() =~= head + ls.drop_last());
    } else {
        assert(head + Seq::<Seq<char>>::empty() =~= head);
        assert(head.last() == line);
    }
}

// ── End markers ──────────────────────────────────────────────────────────

/// A line that ends a patch: the envelope end or the truncation sentinel.
pub open spec fn ends_patch(line: Seq<char>) -> bool {
    tokenizer::is_marker(line, END_PATCH_MARKER@) || tokenizer::is_marker(line, ABORT_MARKER@)
}

proof fn lemma_trim_cr(line: Seq<char>)
    ensures
        tokenizer::trim_ascii(text::strip_cr(line)) == tokenizer::trim_ascii(line),
{
}

proof fn lemma_end_token(line: Seq<char>, n: usize)
    requires
        ends_patch(line),
    ensures
        line.len() > 0,
        tokenizer::token_of(text::strip_cr(line), n) == (TokenView::EnvelopeEnd { line_num: n })
            || tokenizer::token_of(text::strip_cr(line), n) == (TokenView::Abort { line_num: n }),
{
    reveal_strlit("*** Begin Patch");
    reveal_strlit("*** End Patch");
    reveal_strlit("*** Abort");
    lemma_trim_cr(line);
    let s = text::strip_cr(line);
    assert(tokenizer::trim_ascii(s).len() > 0);
    if s.len() == 0 {
        assert(tokenizer::trim_ascii(s).len() == 0);
    }
    assert("*** Begin Patch"@[4] == 'B');
    assert("*** End Patch"@[4] == 'E');
    assert("*** Abort"@[4] == 'A');
}

/// A state that takes no more tokens.
pub open spec fn closed_state(st: ExecutorView) -> ExecutorView {
    ExecutorView { terminated: true, ..st }
}

proof fn lemma_comments_closed(st: ExecutorView, comments: Seq<CommentView>)
    ensures
        parser::comments_read(closed_state(st), comments) == closed_state(
            parser::comments_read(st, comments),
        ),
        parser::comments_read(st, comments).comments == st.comments,
    decreases comments.len(),
{
    if comments.len() > 0 {
        lemma_comments_closed(st, comments.drop_last());
        let c = comments.last();
        let a = parser::comments_read(st, comments.drop_last());
        assert(parser::raw_row(closed_state(a), c.text, c.facts, c.line_num) =~= closed_state(
            parser::raw_row(a, c.text, c.facts, c.line_num),
        ));
    }
}

proof fn lemma_consumed(st: ExecutorView)
    ensures
        parser::comments_consumed(st).comments == Seq::<CommentView>::empty(),
        parser::comments_consumed(parser::comments_consumed(st)) == parser::comments_consumed(st),
        parser::comments_consumed(closed_state(st)) == closed_state(parser::comments_consumed(st)),
{
    let open = ExecutorView { comments: Seq::empty(), ..st };
    lemma_comments_closed(open, st.comments);
    let done = parser::comments_consumed(st);
    assert(ExecutorView { comments: Seq::empty(), ..done } =~= done);
    assert(closed_state(open) =~= ExecutorView { comments: Seq::empty(), ..closed_state(st) });
}

proof fn lemma_ended_closed(st: ExecutorView)
    ensures
        parser::ended(closed_state(st)) == parser::ended(st),
        parser::ended(parser::comments_consumed(st)) == parser::ended(st),
{
    lemma_consumed(st);
    let done = parser::comments_consumed(st);
    assert(parser::flushed(closed_state(done)) =~= closed_state(parser::flushed(done)));
}

proof fn lemma_end_marker_fed(st: ExecutorView, token: TokenView, facts: RawFactsView)
    requires
        token is EnvelopeEnd || token is Abort,
    ensures
        parser::fed(st, token, facts).terminated,
        parser::ended(parser::fed(st, token, facts)) == parser::ended(st),
{
    if !st.terminated {
        lemma_ended_closed(st);
        lemma_ended_closed(parser::comments_consumed(st));
    }
}

proof fn lemma_blank_fed(st: ExecutorView, n: usize, facts: RawFactsView)
    ensures
        parser::ended(parser::fed(st, TokenView::Blank { line_num: n }, facts)) == parser::ended(
            st,
        ),
{
    if !st.terminated {
        lemma_consumed(st);
        let done = parser::comments_consumed(st);
        let next = parser::blank_row(done, Seq::empty());
        assert(ExecutorView { comments: Seq::empty(), ..next } =~= next);
        assert(parser::comments_consumed(next) == next);
        assert(parser::flushed(next) =~= parser::flushed(done));
    }
}

/// The state after all tokens of a text.
pub open spec fn state_after(tokens: Seq<TokenView>) -> ExecutorView {
    parser::fed_all(tokens, parser::token_facts(tokens))
}

pub proof fn lemma_state_step(tokens: Seq<TokenView>, t: TokenView)
    ensures
        state_after(tokens.push(t)) == parser::fed(
            state_after(tokens),
            t,
            parser::facts_of(parser::fact_line(t)),
        ),
{
    let all = tokens.push(t);
    assert(all.drop_last() =~= tokens);
    assert(parser::token_facts(all).drop_last() =~= parser::token_facts(tokens));
}

proof fn lemma_closed_stays(tokens: Seq<TokenView>, more: Seq<TokenView>)
    requires
        state_after(tokens).terminated,
    ensures
        state_after(tokens + more) == state_after(tokens),
    decreases more.len(),
{
    if more.len() == 0 {
        assert(tokens + more =~= tokens);
    } else {
        let rest = more.drop_last();
        lemma_closed_stays(tokens, rest);
        assert(tokens + more =~= (tokens + rest).push(more.last()));
        lemma_state_step(tokens + rest, more.last());
    }
}

proof fn lemma_tokens_concat(a: Seq<Seq<char>>, b: Seq<Seq<char>>)
    ensures
        tokens_of_lines(a + b).len() == a.len() + b.len(),
        tokens_of_lines(a + b).take(a.len() as int) == tokens_of_lines(a),
{
    assert(tokens_of_lines(a + b).take(a.len() as int) =~= tokens_of_lines(a));
}

/// An end marker and whatever follows it change nothing: a patch parses as what stands
/// before the marker does. The marker itself brings no warning.
pub proof fn law_end_marker(d: Seq<char>, marker: Seq<char>, tail: Seq<char>)
    requires
        !marker.contains('\n'),
        ends_patch(marker),
        tail.len() == 0 || tail[0] == '\n',
    ensures
        parser::parsed(d + seq!['\n'] + marker + tail) == parser::parsed(d),
{
    let before = d + seq!['\n'];
    let s = before + marker + tail;
    let ls = text::lines(d);
    let n = ls.len() as int;
    text::lemma_split_nonempty(d, '\n');
    text::lemma_split_concat(d, Seq::empty(), '\n');
    assert(before =~= d + seq!['\n'] + Seq::<char>::empty());
    assert(text::lines(before).drop_last() =~= ls);
    lemma_end_token(marker, (n + 1) as usize);
    lemma_kept_around(before, marker, tail);
    lemma_tokens(s);
    lemma_tokens(d);
    let all = tokens_of_lines(ls.push(marker) + lines_behind(tail));
    let upto = tokens_of_lines(ls.push(marker));
    let own = tokens_of_lines(ls);
    lemma_tokens_concat(ls.push(marker), lines_behind(tail));
    assert(all =~= upto + all.skip(n + 1));
    assert(upto =~= own.push(tokenizer::token_of(text::strip_cr(marker), (n + 1) as usize)));
    lemma_state_step(own, upto.last());
    lemma_end_marker_fed(
        state_after(own),
        upto.last(),
        parser::facts_of(parser::fact_line(upto.last())),
    );
    lemma_closed_stays(upto, all.skip(n + 1));
    if d.len() > 0 && ls.last().len() == 0 {
        let kept = ls.drop_last();
        let t = TokenView::Blank { line_num: n as usize };
        assert(own =~= tokens_of_lines(kept).push(t)) by {
            assert(text::strip_cr(ls[n - 1]).len() == 0);
            assert(own.drop_last() =~= tokens_of_lines(kept));
        }
        lemma_state_step(tokens_of_lines(kept), t);
        lemma_blank_fed(
            state_after(tokens_of_lines(kept)),
            n as usize,
            parser::facts_of(parser::fact_line(t)),
        );
    }
}

// ── The parts of a hunk header ───────────────────────────────────────────

/// A separator between the two numbers of a range: white space, `-`, the ellipsis, `..` and
/// `.=`, repeated and mixed.
pub open spec fn is_separator(sep: Seq<char>) -> bool {
    sep.len() > 0 && tokenizer::separator_end(sep, 0) == sep.len()
}

/// What may close a header that takes a body: a colon or none, a stray dot before it or
/// none, and white space.
pub open spec fn is_header_end(end: Seq<char>) -> bool {
    tokenizer::pass_colon(end, 0) == end.len() && tokenizer::trim_ascii(end) == end
}

/// What may close a header that takes no body: a stray dot or none, and white space.
pub open spec fn is_bare_end(end: Seq<char>) -> bool {
    tokenizer::pass_stray_dot(end, tokenizer::skip(end, 0)) == end.len() && tokenizer::trim_ascii(
        end,
    ) == end
}

proof fn lemma_skip(a: Seq<char>, b: Seq<char>, j: int)
    requires
        0 <= j <= b.len(),
    ensures
        tokenizer::skip(a + b, a.len() + j) == a.len() + tokenizer::skip(b, j),
        j <= tokenizer::skip(b, j) <= b.len(),
        forall|k: int| j <= k < tokenizer::skip(b, j) ==> !text::is_digit(#[trigger] b[k]),
    decreases b.len() - j,
{
    if j < b.len() {
        assert((a + b)[a.len() + j] == b[j]);
        if text::is_ascii_white(b[j]) {
            lemma_skip(a, b, j + 1);
        }
    }
}

proof fn lemma_stray_dot(a: Seq<char>, b: Seq<char>, j: int)
    requires
        0 <= j <= b.len(),
    ensures
        tokenizer::pass_stray_dot(a + b, a.len() + j) == a.len() + tokenizer::pass_stray_dot(b, j),
        j <= tokenizer::pass_stray_dot(b, j) <= b.len(),
        forall|k: int|
            j <= k < tokenizer::pass_stray_dot(b, j) ==> !text::is_digit(#[trigger] b[k]),
{
    if j < b.len() {
        assert((a + b)[a.len() + j] == b[j]);
        lemma_skip(a, b, j + 1);
        let after = tokenizer::skip(b, j + 1);
        if after < b.len() {
            assert((a + b)[a.len() + after] == b[after]);
        }
    }
}

proof fn lemma_colon(a: Seq<char>, b: Seq<char>)
    ensures
        tokenizer::pass_colon(a + b, a.len() as int) == a.len() + tokenizer::pass_colon(b, 0),
        0 <= tokenizer::pass_colon(b, 0) <= b.len(),
        forall|k: int|
            0 <= k < tokenizer::pass_colon(b, 0) ==> !text::is_digit(#[trigger] b[k]),
{
    lemma_skip(a, b, 0);
    let i = tokenizer::skip(b, 0);
    lemma_stray_dot(a, b, i);
    let at = tokenizer::pass_stray_dot(b, i);
    if at < b.len() {
        assert((a + b)[a.len() + at] == b[at]);
        lemma_skip(a, b, at + 1);
    }
}

proof fn lemma_separator(a: Seq<char>, sep: Seq<char>, b: Seq<char>, j: int)
    requires
        0 <= j <= sep.len(),
        tokenizer::separator_end(sep, j) == sep.len(),
        b.len() > 0,
        text::is_digit(b[0]),
    ensures
        tokenizer::separator_end(a + sep + b, a.len() + j) == a.len() + sep.len(),
    decreases sep.len() - j,
{
    let s = a + sep + b;
    let i = a.len() + j;
    if j < sep.len() {
        assert(s[i] == sep[j]);
        if text::is_ascii_white(sep[j]) || sep[j] == '-' || sep[j] == '\u{2026}' {
            lemma_separator(a, sep, b, j + 1);
        } else {
            assert(sep[j] == '.' && j + 1 < sep.len());
            assert(s[i + 1] == sep[j + 1]);
            lemma_separator(a, sep, b, j + 2);
        }
    } else {
        assert(s[i] == b[0]);
    }
}

proof fn lemma_separator_stays(s: Seq<char>, i: int)
    requires
        0 <= i <= s.len(),
    ensures
        i <= tokenizer::separator_end(s, i) <= s.len(),
    decreases s.len() - i,
{
    if i < s.len() {
        if text::is_ascii_white(s[i]) || s[i] == '-' || s[i] == '\u{2026}' {
            lemma_separator_stays(s, i + 1);
        } else if s[i] == '.' && i + 1 < s.len() && (s[i + 1] == '.' || s[i + 1] == '=') {
            lemma_separator_stays(s, i + 2);
        }
    }
}

proof fn lemma_dec_digits(n: nat, i: int)
    requires
        0 <= i < numbers::dec(n).len(),
    ensures
        text::is_digit(numbers::dec(n)[i]),
    decreases n,
{
    if n >= 10 {
        let head = numbers::dec(n / 10);
        if i < head.len() {
            lemma_dec_digits(n / 10, i);
            assert(numbers::dec(n)[i] == head[i]);
        }
    }
}

proof fn lemma_leading_digit(n: nat)
    requires
        n >= 1,
    ensures
        numbers::dec(n).len() > 0,
        text::is_nonzero_digit(numbers::dec(n)[0]),
    decreases n,
{
    if n >= 10 {
        lemma_leading_digit(n / 10);
        assert(numbers::dec(n)[0] == numbers::dec(n / 10)[0]);
    }
}

proof fn lemma_digits_end(a: Seq<char>, d: Seq<char>, b: Seq<char>, j: int)
    requires
        0 <= j <= d.len(),
        forall|i: int| 0 <= i < d.len() ==> text::is_digit(#[trigger] d[i]),
        b.len() == 0 || !text::is_digit(b[0]),
    ensures
        tokenizer::digits_end(a + d + b, a.len() + j) == a.len() + d.len(),
    decreases d.len() - j,
{
    let s = a + d + b;
    if j < d.len() {
        assert(s[a.len() + j] == d[j]);
        lemma_digits_end(a, d, b, j + 1);
    } else if b.len() > 0 {
        assert(s[a.len() + j] == b[0]);
    }
}

/// A number stands between two texts, the second of which does not begin with a digit.
proof fn lemma_number(a: Seq<char>, n: u32, b: Seq<char>)
    requires
        n >= 1,
        b.len() == 0 || !text::is_digit(b[0]),
    ensures
        tokenizer::line_number(a + numbers::dec(n as nat) + b, a.len() as int) == Some(
            (n, (a.len() + numbers::dec(n as nat).len()) as int),
        ),
        numbers::dec(n as nat).len() > 0,
        text::is_digit(numbers::dec(n as nat)[0]),
        text::is_digit(numbers::dec(n as nat).last()),
{
    let d = numbers::dec(n as nat);
    let s = a + d + b;
    lemma_leading_digit(n as nat);
    numbers::lemma_numeral(n as nat, 10);
    assert forall|i: int| 0 <= i < d.len() implies text::is_digit(#[trigger] d[i]) by {
        lemma_dec_digits(n as nat, i);
    }
    lemma_digits_end(a, d, b, 0);
    numbers::law_number_read_back(n as nat, 10, u32::MAX as int);
    assert(s.subrange(a.len() as int, (a.len() + d.len()) as int) =~= d);
    assert(s[a.len() as int] == d[0]);
    assert(text::is_digit(d[d.len() - 1]));
}

proof fn lemma_no_keyword(s: Seq<char>, at: int, word: Seq<char>, k: int)
    requires
        0 <= k < word.len(),
        0 <= at,
        at + k < s.len() ==> s[at + k] != word[k],
    ensures
        tokenizer::keyword(s, at, word) is None,
{
    if text::has_at(s, at, word) {
        assert(s.subrange(at, at + word.len())[k] == word[k]);
    }
}

proof fn lemma_keyword(a: Seq<char>, word: Seq<char>, b: Seq<char>)
    requires
        b.len() == 0 || text::is_ascii_white(b[0]) || b[0] == ':' || b[0] == '.',
    ensures
        tokenizer::keyword(a + word + b, a.len() as int, word) == Some(
            (a.len() + word.len()) as int,
        ),
{
    let s = a + word + b;
    assert(s.subrange(a.len() as int, (a.len() + word.len()) as int) =~= word);
    if b.len() > 0 {
        assert(s[(a.len() + word.len()) as int] == b[0]);
    }
}

/// A line that ends neither in white space nor in nothing is trimmed already.
proof fn lemma_trimmed(a: Seq<char>, end: Seq<char>)
    requires
        a.len() > 0,
        !text::is_ascii_white(a.last()),
        tokenizer::trim_ascii(end) == end,
    ensures
        tokenizer::trim_ascii(a + end) == a + end,
{
    if end.len() > 0 {
        assert((a + end).last() == end.last());
        if text::is_ascii_white(end.last()) {
            lemma_trim_shortens(end.drop_last());
        }
    } else {
        assert(a + end =~= a);
    }
}

pub proof fn lemma_trim_shortens(s: Seq<char>)
    ensures
        tokenizer::trim_ascii(s).len() <= s.len(),
    decreases s.len(),
{
    if s.len() > 0 {
        lemma_trim_shortens(s.drop_last());
    }
}

/// Two numbers with a separator between them, behind a space, are a range.
proof fn lemma_range(a: Seq<char>, n: u32, sep: Seq<char>, m: u32, end: Seq<char>)
    requires
        n >= 1,
        m >= 1,
        is_separator(sep),
        end.len() == 0 || !text::is_digit(end[0]),
    ensures
        tokenizer::header_range(
            a + seq![' '] + numbers::dec(n as nat) + sep + numbers::dec(m as nat) + end,
            a.len() as int,
        ) == Some(
            (
                ParsedRange { start: n, end: m },
                a.len() + 1 + numbers::dec(n as nat).len() + sep.len() + numbers::dec(
                    m as nat,
                ).len() + tokenizer::skip(end, 0),
            ),
        ),
{
    let dn = numbers::dec(n as nat);
    let dm = numbers::dec(m as nat);
    let p = a + seq![' '];
    let q = p + dn;
    let u = q + sep;
    let v = u + dm;
    let s = v + end;
    assert(!text::is_digit(sep[0]));
    assert(s =~= p + dn + (sep + dm + end));
    lemma_number(p, n, sep + dm + end);
    assert(s =~= u + dm + end);
    lemma_number(u, m, end);
    assert(s =~= a + (seq![' '] + dn + sep + dm + end));
    let from = seq![' '] + dn + sep + dm + end;
    lemma_skip(a, from, 0);
    assert(from[0] == ' ' && from[1] == dn[0]);
    assert(tokenizer::skip(from, 1) == 1);
    assert(tokenizer::skip(from, 0) == 1);
    assert(s =~= q + sep + (dm + end));
    assert((dm + end)[0] == dm[0]);
    lemma_separator(q, sep, dm + end, 0);
    assert(s[u.len() as int] == dm[0]);
    lemma_leading_digit(m as nat);
    lemma_skip(v, end, 0);
}

/// One number behind a space is a range of one line.
proof fn lemma_single(a: Seq<char>, n: u32, end: Seq<char>)
    requires
        n >= 1,
        forall|k: int| 0 <= k < end.len() ==> !text::is_digit(#[trigger] end[k]),
    ensures
        tokenizer::header_range(
            a + seq![' '] + numbers::dec(n as nat) + end,
            a.len() as int,
        ) == Some(
            (
                ParsedRange { start: n, end: n },
                a.len() + 1 + numbers::dec(n as nat).len() + tokenizer::skip(end, 0),
            ),
        ),
        tokenizer::line_number(
            a + seq![' '] + numbers::dec(n as nat) + end,
            tokenizer::skip(a + seq![' '] + numbers::dec(n as nat) + end, a.len() as int),
        ) == Some((n, (a.len() + 1 + numbers::dec(n as nat).len()) as int)),
{
    let dn = numbers::dec(n as nat);
    let p = a + seq![' '];
    let q = p + dn;
    let s = q + end;
    assert(end.len() == 0 || !text::is_digit(end[0]));
    lemma_number(p, n, end);
    assert(s =~= a + (seq![' '] + dn + end));
    let from = seq![' '] + dn + end;
    lemma_skip(a, from, 0);
    assert(from[0] == ' ' && from[1] == dn[0]);
    assert(tokenizer::skip(from, 1) == 1);
    assert(tokenizer::skip(from, 0) == 1);
    lemma_separator_stays(s, q.len() as int);
    let at = tokenizer::separator_end(s, q.len() as int);
    if at < s.len() {
        assert(s[at] == end[at - q.len()]);
    }
    lemma_skip(q, end, 0);
}

// ── Headers, however they are spelled ────────────────────────────────────

/// A `SWAP` header for a range, with a separator and an end of one's choice.
pub open spec fn swap_header(n: u32, sep: Seq<char>, m: u32, end: Seq<char>) -> Seq<char> {
    HL_REPLACE_KEYWORD@ + seq![' '] + numbers::dec(n as nat) + sep + numbers::dec(m as nat) + end
}

/// A `DEL` header for a range, with a separator and an end of one's choice.
pub open spec fn del_header(n: u32, sep: Seq<char>, m: u32, end: Seq<char>) -> Seq<char> {
    HL_DELETE_KEYWORD@ + seq![' '] + numbers::dec(n as nat) + sep + numbers::dec(m as nat) + end
}

proof fn lemma_swap_word(s: Seq<char>)
    requires
        s.len() > 4,
        s.subrange(0, 5) == "SWAP"@ + seq![' '],
    ensures
        tokenizer::hunk_anchor(s, 0) == (match tokenizer::header_range(s, 4) {
            Some((range, next)) => Some(
                (BlockTargetView::Replace { range }, tokenizer::pass_colon(s, next)),
            ),
            None => None,
        }),
{
    reveal_strlit("SWAP");
    reveal_strlit("REM");
    reveal_strlit("MV");
    reveal_strlit("SWAP.BLK");
    let w = s.subrange(0, 5);
    assert(s[0] == w[0] && s[1] == w[1] && s[2] == w[2] && s[3] == w[3] && s[4] == w[4]);
    assert(w[0] == 'S' && w[1] == 'W' && w[2] == 'A' && w[3] == 'P' && w[4] == ' ');
    assert(tokenizer::skip(s, 0) == 0);
    lemma_no_keyword(s, 0, HL_REM_KEYWORD@, 0);
    lemma_no_keyword(s, 0, HL_MOVE_KEYWORD@, 0);
    lemma_no_keyword(s, 0, HL_REPLACE_BLOCK_KEYWORD@, 4);
    assert(s =~= Seq::<char>::empty() + HL_REPLACE_KEYWORD@ + s.skip(4));
    lemma_keyword(Seq::empty(), HL_REPLACE_KEYWORD@, s.skip(4));
}

proof fn lemma_del_word(s: Seq<char>)
    requires
        s.len() > 3,
        s.subrange(0, 4) == "DEL"@ + seq![' '],
    ensures
        tokenizer::hunk_anchor(s, 0) == (match tokenizer::header_range(s, 3) {
            Some((range, next)) => tokenizer::no_colon(BlockTargetView::Delete { range }, s, next),
            None => None,
        }),
{
    reveal_strlit("DEL");
    reveal_strlit("REM");
    reveal_strlit("MV");
    reveal_strlit("SWAP");
    reveal_strlit("SWAP.BLK");
    reveal_strlit("DEL.BLK");
    let w = s.subrange(0, 4);
    assert(s[0] == w[0] && s[1] == w[1] && s[2] == w[2] && s[3] == w[3]);
    assert(w[0] == 'D' && w[1] == 'E' && w[2] == 'L' && w[3] == ' ');
    assert(tokenizer::skip(s, 0) == 0);
    lemma_no_keyword(s, 0, HL_REM_KEYWORD@, 0);
    lemma_no_keyword(s, 0, HL_MOVE_KEYWORD@, 0);
    lemma_no_keyword(s, 0, HL_REPLACE_BLOCK_KEYWORD@, 0);
    lemma_no_keyword(s, 0, HL_REPLACE_KEYWORD@, 0);
    lemma_no_keyword(s, 0, HL_DELETE_BLOCK_KEYWORD@, 3);
    assert(s =~= Seq::<char>::empty() + HL_DELETE_KEYWORD@ + s.skip(3));
    lemma_keyword(Seq::empty(), HL_DELETE_KEYWORD@, s.skip(3));
}

/// A `SWAP` header names its range whatever stands between the two numbers and behind them:
/// any separator, with or without a colon, with or without a stray dot.
pub proof fn law_swap_header(n: u32, sep: Seq<char>, m: u32, end: Seq<char>)
    requires
        n >= 1,
        m >= 1,
        is_separator(sep),
        is_header_end(end),
    ensures
        tokenizer::hunk_header(swap_header(n, sep, m, end)) == Some(
            BlockTargetView::Replace { range: ParsedRange { start: n, end: m } },
        ),
{
    reveal_strlit("SWAP");
    let s = swap_header(n, sep, m, end);
    let a = HL_REPLACE_KEYWORD@;
    let v = a + seq![' '] + numbers::dec(n as nat) + sep + numbers::dec(m as nat);
    lemma_colon(v, end);
    lemma_number(a + seq![' '] + numbers::dec(n as nat) + sep, m, end);
    assert(v.last() == numbers::dec(m as nat).last());
    lemma_trimmed(v, end);
    assert(s.subrange(0, 5) =~= "SWAP"@ + seq![' ']);
    lemma_swap_word(s);
    lemma_range(a, n, sep, m, end);
    lemma_skip(v, end, 0);
    lemma_skip_twice(end, 0);
    lemma_colon_behind(v, end);
}

proof fn lemma_skip_twice(s: Seq<char>, i: int)
    requires
        0 <= i <= s.len(),
    ensures
        tokenizer::skip(s, tokenizer::skip(s, i)) == tokenizer::skip(s, i),
    decreases s.len() - i,
{
    if i < s.len() && text::is_ascii_white(s[i]) {
        lemma_skip_twice(s, i + 1);
    }
}

proof fn lemma_colon_behind(v: Seq<char>, end: Seq<char>)
    ensures
        tokenizer::pass_colon(v + end, v.len() + tokenizer::skip(end, 0)) == v.len()
            + tokenizer::pass_colon(end, 0),
{
    let i = tokenizer::skip(end, 0);
    lemma_skip(v, end, 0);
    lemma_skip(v, end, i);
    lemma_skip_twice(end, 0);
    lemma_colon(v, end);
}

/// A `DEL` header names its range whatever separator stands between the two numbers, with or
/// without a stray dot behind them.
pub proof fn law_del_header(n: u32, sep: Seq<char>, m: u32, end: Seq<char>)
    requires
        n >= 1,
        m >= 1,
        is_separator(sep),
        is_bare_end(end),
    ensures
        tokenizer::hunk_header(del_header(n, sep, m, end)) == Some(
            BlockTargetView::Delete { range: ParsedRange { start: n, end: m } },
        ),
{
    reveal_strlit("DEL");
    let s = del_header(n, sep, m, end);
    let a = HL_DELETE_KEYWORD@;
    let v = a + seq![' '] + numbers::dec(n as nat) + sep + numbers::dec(m as nat);
    lemma_skip(v, end, 0);
    lemma_stray_dot(v, end, tokenizer::skip(end, 0));
    lemma_number(a + seq![' '] + numbers::dec(n as nat) + sep, m, end);
    assert(v.last() == numbers::dec(m as nat).last());
    lemma_trimmed(v, end);
    assert(s.subrange(0, 4) =~= "DEL"@ + seq![' ']);
    lemma_del_word(s);
    lemma_range(a, n, sep, m, end);
    lemma_skip(v, end, tokenizer::skip(end, 0));
    lemma_skip_twice(end, 0);
}

/// A header of one line number, with an end of one's choice.
pub open spec fn anchor_header(word: Seq<char>, n: u32, end: Seq<char>) -> Seq<char> {
    word + seq![' '] + numbers::dec(n as nat) + end
}

/// A header of one number is a header of the range of that line, however it ends.
pub proof fn law_single_line(n: u32, end: Seq<char>)
    requires
        n >= 1,
    ensures
        is_header_end(end) ==> tokenizer::hunk_header(anchor_header(HL_REPLACE_KEYWORD@, n, end))
            == Some(BlockTargetView::Replace { range: ParsedRange { start: n, end: n } }),
        is_bare_end(end) ==> tokenizer::hunk_header(anchor_header(HL_DELETE_KEYWORD@, n, end))
            == Some(BlockTargetView::Delete { range: ParsedRange { start: n, end: n } }),
{
    let dn = numbers::dec(n as nat);
    if is_header_end(end) {
        reveal_strlit("SWAP");
        let a = HL_REPLACE_KEYWORD@;
        let s = anchor_header(a, n, end);
        let v = a + seq![' '] + dn;
        lemma_colon(v, end);
        lemma_number(a + seq![' '], n, end);
        assert(v.last() == dn.last());
        lemma_trimmed(v, end);
        assert(s.subrange(0, 5) =~= "SWAP"@ + seq![' ']);
        lemma_swap_word(s);
        lemma_single(a, n, end);
        lemma_colon_behind(v, end);
    }
    if is_bare_end(end) {
        reveal_strlit("DEL");
        let a = HL_DELETE_KEYWORD@;
        let s = anchor_header(a, n, end);
        let v = a + seq![' '] + dn;
        lemma_skip(v, end, 0);
        lemma_stray_dot(v, end, tokenizer::skip(end, 0));
        lemma_number(a + seq![' '], n, end);
        assert(v.last() == dn.last());
        lemma_trimmed(v, end);
        assert(s.subrange(0, 4) =~= "DEL"@ + seq![' ']);
        lemma_del_word(s);
        lemma_single(a, n, end);
        lemma_skip(v, end, tokenizer::skip(end, 0));
        lemma_skip_twice(end, 0);
    }
}

proof fn lemma_anchored(a: Seq<char>, n: u32, end: Seq<char>)
    requires
        n >= 1,
        a.len() > 0,
        is_header_end(end),
    ensures
        tokenizer::anchored_number(anchor_header(a, n, end), a.len() as int) == Some(
            (Anchor { line: n }, anchor_header(a, n, end).len() as int),
        ),
        tokenizer::trim_ascii(anchor_header(a, n, end)) == anchor_header(a, n, end),
{
    let dn = numbers::dec(n as nat);
    let v = a + seq![' '] + dn;
    lemma_colon(v, end);
    lemma_number(a + seq![' '], n, end);
    assert(v.last() == dn.last());
    lemma_trimmed(v, end);
    lemma_single(a, n, end);
}

proof fn lemma_ins_word(s: Seq<char>)
    requires
        s.len() > 4,
        s.subrange(0, 4) == "INS."@,
        s[4] != 'B',
    ensures
        tokenizer::hunk_anchor(s, 0) == tokenizer::insert_target(s, 3),
{
    reveal_strlit("INS.");
    reveal_strlit("INS");
    reveal_strlit("REM");
    reveal_strlit("MV");
    reveal_strlit("SWAP");
    reveal_strlit("SWAP.BLK");
    reveal_strlit("DEL");
    reveal_strlit("DEL.BLK");
    reveal_strlit("INS.BLK.POST");
    let w = s.subrange(0, 4);
    assert(s[0] == w[0] && s[1] == w[1] && s[2] == w[2] && s[3] == w[3]);
    assert(w[0] == 'I' && w[1] == 'N' && w[2] == 'S' && w[3] == '.');
    assert(tokenizer::skip(s, 0) == 0);
    lemma_no_keyword(s, 0, HL_REM_KEYWORD@, 0);
    lemma_no_keyword(s, 0, HL_MOVE_KEYWORD@, 0);
    lemma_no_keyword(s, 0, HL_REPLACE_BLOCK_KEYWORD@, 0);
    lemma_no_keyword(s, 0, HL_REPLACE_KEYWORD@, 0);
    lemma_no_keyword(s, 0, HL_DELETE_BLOCK_KEYWORD@, 0);
    lemma_no_keyword(s, 0, HL_DELETE_KEYWORD@, 0);
    lemma_no_keyword(s, 0, HL_INSERT_AFTER_BLOCK_KEYWORD@, 4);
    assert(s =~= Seq::<char>::empty() + HL_INSERT_KEYWORD@ + s.skip(3));
    lemma_keyword(Seq::empty(), HL_INSERT_KEYWORD@, s.skip(3));
}

/// `INS.PRE` and `INS.POST` name their line however the header ends: with or without a
/// colon, with or without a stray dot.
pub proof fn law_insert_at_line(n: u32, end: Seq<char>)
    requires
        n >= 1,
        is_header_end(end),
    ensures
        tokenizer::hunk_header(anchor_header("INS."@ + HL_INSERT_BEFORE@, n, end)) == Some(
            BlockTargetView::InsertBefore { anchor: Anchor { line: n } },
        ),
        tokenizer::hunk_header(anchor_header("INS."@ + HL_INSERT_AFTER@, n, end)) == Some(
            BlockTargetView::InsertAfter { anchor: Anchor { line: n } },
        ),
{
    reveal_strlit("INS.");
    reveal_strlit("PRE");
    reveal_strlit("POST");
    let dn = numbers::dec(n as nat);
    let b = seq![' '] + dn + end;
    let s1 = anchor_header("INS."@ + HL_INSERT_BEFORE@, n, end);
    let s2 = anchor_header("INS."@ + HL_INSERT_AFTER@, n, end);
    lemma_anchored("INS."@ + HL_INSERT_BEFORE@, n, end);
    lemma_anchored("INS."@ + HL_INSERT_AFTER@, n, end);
    assert(s1.subrange(0, 4) =~= "INS."@);
    assert(s2.subrange(0, 4) =~= "INS."@);
    assert(s1[4] == 'P' && s1[5] == 'R' && s1[3] == '.');
    assert(s2[4] == 'P' && s2[5] == 'O' && s2[3] == '.');
    lemma_ins_word(s1);
    lemma_ins_word(s2);
    assert(tokenizer::skip(s1, 4) == 4);
    assert(tokenizer::skip(s2, 4) == 4);
    assert(s1 =~= "INS."@ + HL_INSERT_BEFORE@ + b);
    assert(s2 =~= "INS."@ + HL_INSERT_AFTER@ + b);
    lemma_keyword("INS."@, HL_INSERT_BEFORE@, b);
    lemma_no_keyword(s2, 4, HL_INSERT_BEFORE@, 1);
    lemma_keyword("INS."@, HL_INSERT_AFTER@, b);
}

/// `INS.HEAD` and `INS.TAIL` are understood however the header ends: with or without a
/// colon, with or without a stray dot.
pub proof fn law_insert_at_ends(end: Seq<char>)
    requires
        is_header_end(end),
    ensures
        tokenizer::hunk_header("INS."@ + HL_INSERT_HEAD@ + end) == Some(BlockTargetView::Bof),
        tokenizer::hunk_header("INS."@ + HL_INSERT_TAIL@ + end) == Some(BlockTargetView::Eof),
{
    reveal_strlit("INS.");
    reveal_strlit("PRE");
    reveal_strlit("POST");
    reveal_strlit("HEAD");
    reveal_strlit("TAIL");
    let v1 = "INS."@ + HL_INSERT_HEAD@;
    let v2 = "INS."@ + HL_INSERT_TAIL@;
    let s1 = v1 + end;
    let s2 = v2 + end;
    lemma_colon(v1, end);
    lemma_colon(v2, end);
    lemma_trimmed(v1, end);
    lemma_trimmed(v2, end);
    assert(s1.subrange(0, 4) =~= "INS."@);
    assert(s2.subrange(0, 4) =~= "INS."@);
    assert(s1[4] == 'H' && s1[3] == '.');
    assert(s2[4] == 'T' && s2[3] == '.');
    lemma_ins_word(s1);
    lemma_ins_word(s2);
    assert(tokenizer::skip(s1, 4) == 4);
    assert(tokenizer::skip(s2, 4) == 4);
    lemma_no_keyword(s1, 4, HL_INSERT_BEFORE@, 0);
    lemma_no_keyword(s1, 4, HL_INSERT_AFTER@, 0);
    lemma_no_keyword(s2, 4, HL_INSERT_BEFORE@, 0);
    lemma_no_keyword(s2, 4, HL_INSERT_AFTER@, 0);
    lemma_no_keyword(s2, 4, HL_INSERT_HEAD@, 0);
    lemma_keyword("INS."@, HL_INSERT_HEAD@, end);
    lemma_keyword("INS."@, HL_INSERT_TAIL@, end);
}

/// `SWAP.BLK`, `INS.BLK.POST` and `DEL.BLK` name the line of their block, however the header
/// ends; the last of them takes no body and no colon.
pub proof fn law_block_headers(n: u32, end: Seq<char>)
    requires
        n >= 1,
    ensures
        is_header_end(end) ==> tokenizer::hunk_header(anchor_header("SWAP.BLK"@, n, end)) == Some(
            BlockTargetView::Block { anchor: Anchor { line: n } },
        ),
        is_header_end(end) ==> tokenizer::hunk_header(anchor_header("INS.BLK.POST"@, n, end))
            == Some(BlockTargetView::InsertAfterBlock { anchor: Anchor { line: n } }),
        is_bare_end(end) ==> tokenizer::hunk_header(anchor_header("DEL.BLK"@, n, end)) == Some(
            BlockTargetView::DeleteBlock { anchor: Anchor { line: n } },
        ),
{
    reveal_strlit("REM");
    reveal_strlit("MV");
    reveal_strlit("SWAP");
    reveal_strlit("SWAP.BLK");
    reveal_strlit("DEL");
    reveal_strlit("DEL.BLK");
    reveal_strlit("INS");
    reveal_strlit("INS.BLK.POST");
    let dn = numbers::dec(n as nat);
    let b = seq![' '] + dn + end;
    let none = Seq::<char>::empty();
    if is_header_end(end) {
        let s1 = anchor_header("SWAP.BLK"@, n, end);
        let s2 = anchor_header("INS.BLK.POST"@, n, end);
        lemma_anchored("SWAP.BLK"@, n, end);
        lemma_anchored("INS.BLK.POST"@, n, end);
        assert(s1[0] == 'S' && s2[0] == 'I');
        assert(tokenizer::skip(s1, 0) == 0);
        assert(tokenizer::skip(s2, 0) == 0);
        lemma_no_keyword(s1, 0, HL_REM_KEYWORD@, 0);
        lemma_no_keyword(s1, 0, HL_MOVE_KEYWORD@, 0);
        assert(s1 =~= none + "SWAP.BLK"@ + b);
        lemma_keyword(none, "SWAP.BLK"@, b);
        lemma_no_keyword(s2, 0, HL_REM_KEYWORD@, 0);
        lemma_no_keyword(s2, 0, HL_MOVE_KEYWORD@, 0);
        lemma_no_keyword(s2, 0, HL_REPLACE_BLOCK_KEYWORD@, 0);
        lemma_no_keyword(s2, 0, HL_REPLACE_KEYWORD@, 0);
        lemma_no_keyword(s2, 0, HL_DELETE_BLOCK_KEYWORD@, 0);
        lemma_no_keyword(s2, 0, HL_DELETE_KEYWORD@, 0);
        assert(s2 =~= none + "INS.BLK.POST"@ + b);
        lemma_keyword(none, "INS.BLK.POST"@, b);
    }
    if is_bare_end(end) {
        let a = "DEL.BLK"@;
        let s = anchor_header(a, n, end);
        let v = a + seq![' '] + dn;
        lemma_skip(v, end, 0);
        lemma_stray_dot(v, end, tokenizer::skip(end, 0));
        lemma_number(a + seq![' '], n, end);
        assert(v.last() == dn.last());
        lemma_trimmed(v, end);
        assert(s[0] == 'D');
        assert(tokenizer::skip(s, 0) == 0);
        lemma_no_keyword(s, 0, HL_REM_KEYWORD@, 0);
        lemma_no_keyword(s, 0, HL_MOVE_KEYWORD@, 0);
        lemma_no_keyword(s, 0, HL_REPLACE_BLOCK_KEYWORD@, 0);
        lemma_no_keyword(s, 0, HL_REPLACE_KEYWORD@, 0);
        assert(s =~= none + a + b);
        lemma_keyword(none, a, b);
        lemma_single(a, n, end);
    }
}

/// `REM` alone on a line removes a file. `MV` and a path, plain or in quotes, moves it there.
pub proof fn law_file_headers(dest: Seq<char>)
    requires
        dest.len() > 0,
        text::trim(dest) == dest,
        !text::is_ascii_white(dest[0]),
        !text::is_ascii_white(dest.last()),
        dest[0] != '"',
        dest[0] != '\'',
        forall|i: int| 0 <= i < dest.len() ==> dest[i] != '"' && #[trigger] dest[i] != '\\',
    ensures
        tokenizer::hunk_header("REM"@) == Some(BlockTargetView::Rem),
        tokenizer::hunk_header("MV "@ + dest) == Some(BlockTargetView::Move { dest }),
        tokenizer::hunk_header("MV \""@ + dest + seq!['"']) == Some(BlockTargetView::Move { dest }),
{
    reveal_strlit("REM");
    reveal_strlit("MV");
    reveal_strlit("MV ");
    reveal_strlit("MV \"");
    let none = Seq::<char>::empty();
    assert(none + "REM"@ + none =~= "REM"@);
    lemma_keyword(none, "REM"@, none);
    assert("REM"@[0] == 'R' && "REM"@.last() == 'M');
    assert(tokenizer::trim_ascii("REM"@) == "REM"@);
    assert(tokenizer::skip("REM"@, 0) == 0);
    let s = "MV "@ + dest;
    let b = seq![' '] + dest;
    assert(s =~= none + "MV"@ + b);
    assert(s[0] == 'M' && s[3] == dest[0]);
    assert(s.last() == dest.last());
    assert(tokenizer::trim_ascii(s) == s);
    assert(tokenizer::skip(s, 0) == 0);
    lemma_no_keyword(s, 0, HL_REM_KEYWORD@, 0);
    lemma_keyword(none, "MV"@, b);
    assert(tokenizer::skip(s, 3) == 3);
    assert(s[2] == ' ');
    assert(tokenizer::skip(s, 2) == 3);
    assert(s.subrange(3, s.len() as int) =~= dest);
    let q = "MV \""@ + dest + seq!['"'];
    let c = seq![' ', '"'] + dest + seq!['"'];
    assert(q =~= none + "MV"@ + c);
    assert(q[0] == 'M' && q[2] == ' ' && q[3] == '"');
    assert(q.last() == '"');
    assert(tokenizer::trim_ascii(q) == q);
    assert(tokenizer::skip(q, 0) == 0);
    lemma_no_keyword(q, 0, HL_REM_KEYWORD@, 0);
    lemma_keyword(none, "MV"@, c);
    assert(tokenizer::skip(q, 3) == 3);
    assert(tokenizer::skip(q, 2) == 3);
    lemma_quote_end("MV \""@, dest, 0);
    assert(q.subrange(4, 4 + dest.len() as int) =~= dest);
}

/// The quote behind a text without quotes and backslashes ends it.
proof fn lemma_quote_end(a: Seq<char>, dest: Seq<char>, i: int)
    requires
        0 <= i <= dest.len(),
        forall|i: int| 0 <= i < dest.len() ==> dest[i] != '"' && #[trigger] dest[i] != '\\',
    ensures
        tokenizer::quote_end(a + dest + seq!['"'], a.len() + i, '"') == Some(
            (a.len() + dest.len()) as int,
        ),
    decreases dest.len() - i,
{
    let s = a + dest + seq!['"'];
    if i < dest.len() {
        assert(s[a.len() + i] == dest[i]);
        lemma_quote_end(a, dest, i + 1);
    } else {
        assert(s[a.len() + i] == '"');
    }
}

// ── What is parsed alike ─────────────────────────────────────────────────

pub proof fn lemma_header_start(s: Seq<char>)
    requires
        s.len() > 0,
        tokenizer::hunk_anchor(s, 0) is Some,
    ensures
        s[0] != '*',
        s[0] != '[',
        s[0] != '+',
        s[0] != '#',
{
    if s[0] == '*' || s[0] == '[' || s[0] == '+' || s[0] == '#' {
        reveal_strlit("REM");
        reveal_strlit("MV");
        reveal_strlit("SWAP");
        reveal_strlit("SWAP.BLK");
        reveal_strlit("DEL");
        reveal_strlit("DEL.BLK");
        reveal_strlit("INS");
        reveal_strlit("INS.BLK.POST");
        assert(tokenizer::skip(s, 0) == 0);
        lemma_no_keyword(s, 0, HL_REM_KEYWORD@, 0);
        lemma_no_keyword(s, 0, HL_MOVE_KEYWORD@, 0);
        lemma_no_keyword(s, 0, HL_REPLACE_BLOCK_KEYWORD@, 0);
        lemma_no_keyword(s, 0, HL_REPLACE_KEYWORD@, 0);
        lemma_no_keyword(s, 0, HL_DELETE_BLOCK_KEYWORD@, 0);
        lemma_no_keyword(s, 0, HL_DELETE_KEYWORD@, 0);
        lemma_no_keyword(s, 0, HL_INSERT_AFTER_BLOCK_KEYWORD@, 0);
        lemma_no_keyword(s, 0, HL_INSERT_KEYWORD@, 0);
    }
}

proof fn lemma_empty_header()
    ensures
        tokenizer::hunk_anchor(Seq::<char>::empty(), 0) is None,
{
    reveal_strlit("REM");
    reveal_strlit("MV");
    reveal_strlit("SWAP");
    reveal_strlit("SWAP.BLK");
    reveal_strlit("DEL");
    reveal_strlit("DEL.BLK");
    reveal_strlit("INS");
    reveal_strlit("INS.BLK.POST");
}

pub proof fn lemma_header_token(line: Seq<char>, n: usize)
    requires
        tokenizer::hunk_header(line) is Some,
    ensures
        line.len() > 0,
        tokenizer::token_of(text::strip_cr(line), n) == (TokenView::HunkHeader {
            line_num: n,
            target: tokenizer::hunk_header(line)->0,
        }),
{
    lemma_trim_cr(line);
    let cut = text::strip_cr(line);
    let s = tokenizer::trim_ascii(line);
    lemma_trim_shortens(line);
    lemma_trim_shortens(cut);
    if s.len() == 0 {
        assert(s =~= Seq::<char>::empty());
        lemma_empty_header();
    }
    lemma_header_start(s);
    reveal_strlit("*** Begin Patch");
    reveal_strlit("*** End Patch");
    reveal_strlit("*** Abort");
    assert("*** Begin Patch"@[0] == '*');
    assert("*** End Patch"@[0] == '*');
    assert("*** Abort"@[0] == '*');
}

proof fn lemma_tokens_differ_at(a: Seq<Seq<char>>, x: Seq<char>, y: Seq<char>, b: Seq<Seq<char>>)
    requires
        tokenizer::token_of(text::strip_cr(x), (a.len() + 1) as usize) == tokenizer::token_of(
            text::strip_cr(y),
            (a.len() + 1) as usize,
        ),
    ensures
        tokens_of_lines(a.push(x) + b) == tokens_of_lines(a.push(y) + b),
{
    let p = a.push(x) + b;
    let q = a.push(y) + b;
    assert forall|i: int| 0 <= i < p.len() implies tokens_of_lines(p)[i] == tokens_of_lines(
        q,
    )[i] by {
        if i != a.len() {
            assert(p[i] == q[i]);
        }
    }
    assert(tokens_of_lines(p) =~= tokens_of_lines(q));
}

/// Two lines that are headers of the same hunk can stand for each other: the patch parses
/// alike, edits, warnings and all.
pub proof fn law_same_header(before: Seq<char>, h: Seq<char>, k: Seq<char>, tail: Seq<char>)
    requires
        before.len() == 0 || before.last() == '\n',
        !h.contains('\n'),
        !k.contains('\n'),
        tail.len() == 0 || tail[0] == '\n',
        tokenizer::hunk_header(h) is Some,
        tokenizer::hunk_header(h) == tokenizer::hunk_header(k),
    ensures
        parser::parsed(before + h + tail) == parser::parsed(before + k + tail),
{
    let ls = text::lines(before).drop_last();
    let n = (ls.len() + 1) as usize;
    lemma_header_token(h, n);
    lemma_header_token(k, n);
    lemma_kept_around(before, h, tail);
    lemma_kept_around(before, k, tail);
    lemma_tokens(before + h + tail);
    lemma_tokens(before + k + tail);
    lemma_tokens_differ_at(ls, h, k, lines_behind(tail));
}

/// The usual separators and ends.
pub proof fn lemma_usual_forms()
    ensures
        is_separator(".="@),
        is_separator(".."@),
        is_separator("-"@),
        is_separator("\u{2026}"@),
        is_separator(" "@),
        is_header_end(":"@),
        is_header_end(".:"@),
        is_header_end("."@),
        is_header_end(Seq::empty()),
        is_bare_end("."@),
        is_bare_end(Seq::empty()),
        !".="@.contains('\n'),
        !":"@.contains('\n'),
{
    reveal_strlit(".=");
    reveal_strlit("..");
    reveal_strlit("-");
    reveal_strlit("\u{2026}");
    reveal_strlit(" ");
    reveal_strlit(":");
    reveal_strlit(".:");
    reveal_strlit(".");
    reveal_with_fuel(tokenizer::separator_end, 3);
    reveal_with_fuel(tokenizer::skip, 3);
}

proof fn lemma_no_line_feed(n: nat)
    ensures
        !numbers::dec(n).contains('\n'),
{
    if numbers::dec(n).contains('\n') {
        let i = choose|i: int| 0 <= i < numbers::dec(n).len() && numbers::dec(n)[i] == '\n';
        lemma_dec_digits(n, i);
    }
}

proof fn lemma_one_line(word: Seq<char>, n: u32, sep: Seq<char>, m: u32, end: Seq<char>)
    requires
        !word.contains('\n'),
        !sep.contains('\n'),
        !end.contains('\n'),
    ensures
        !(word + seq![' '] + numbers::dec(n as nat) + sep + numbers::dec(m as nat) + end).contains(
            '\n',
        ),
{
    let dn = numbers::dec(n as nat);
    let dm = numbers::dec(m as nat);
    let s = word + seq![' '] + dn + sep + dm + end;
    lemma_no_line_feed(n as nat);
    lemma_no_line_feed(m as nat);
    if s.contains('\n') {
        let i = choose|i: int| 0 <= i < s.len() && s[i] == '\n';
        let a = word.len();
        let b = a + 1;
        let c = b + dn.len();
        let d = c + sep.len();
        let e = d + dm.len();
        if i < a {
            assert(word[i] == '\n');
        } else if i < b {
            assert(s[i] == ' ');
        } else if i < c {
            assert(dn[i - b] == '\n');
        } else if i < d {
            assert(sep[i - c] == '\n');
        } else if i < e {
            assert(dm[i - d] == '\n');
        } else {
            assert(end[i - e] == '\n');
        }
    }
}

proof fn lemma_swap_line(n: u32, sep: Seq<char>, m: u32, end: Seq<char>)
    requires
        !sep.contains('\n'),
        !end.contains('\n'),
    ensures
        !swap_header(n, sep, m, end).contains('\n'),
{
    reveal_strlit("SWAP");
    lemma_one_line(HL_REPLACE_KEYWORD@, n, sep, m, end);
}

proof fn lemma_del_line(n: u32, sep: Seq<char>, m: u32, end: Seq<char>)
    requires
        !sep.contains('\n'),
        !end.contains('\n'),
    ensures
        !del_header(n, sep, m, end).contains('\n'),
{
    reveal_strlit("DEL");
    lemma_one_line(HL_DELETE_KEYWORD@, n, sep, m, end);
}

/// Equivalent spellings of a range are parsed alike: a patch with a `SWAP` header in which
/// any separator stands between the numbers, and in which the colon is missing or a stray dot
/// stands before it, parses as the patch with the header `SWAP n.=m:` does.
pub proof fn law_swap_spellings(
    before: Seq<char>,
    n: u32,
    sep: Seq<char>,
    m: u32,
    end: Seq<char>,
    tail: Seq<char>,
)
    requires
        before.len() == 0 || before.last() == '\n',
        tail.len() == 0 || tail[0] == '\n',
        n >= 1,
        m >= 1,
        is_separator(sep),
        is_header_end(end),
        !sep.contains('\n'),
        !end.contains('\n'),
    ensures
        parser::parsed(before + swap_header(n, sep, m, end) + tail) == parser::parsed(
            before + swap_header(n, ".="@, m, ":"@) + tail,
        ),
{
    lemma_usual_forms();
    law_swap_header(n, sep, m, end);
    law_swap_header(n, ".="@, m, ":"@);
    lemma_swap_line(n, sep, m, end);
    lemma_swap_line(n, ".="@, m, ":"@);
    law_same_header(
        before,
        swap_header(n, sep, m, end),
        swap_header(n, ".="@, m, ":"@),
        tail,
    );
}

/// Equivalent spellings of a `DEL` range are parsed alike.
pub proof fn law_del_spellings(
    before: Seq<char>,
    n: u32,
    sep: Seq<char>,
    m: u32,
    end: Seq<char>,
    tail: Seq<char>,
)
    requires
        before.len() == 0 || before.last() == '\n',
        tail.len() == 0 || tail[0] == '\n',
        n >= 1,
        m >= 1,
        is_separator(sep),
        is_bare_end(end),
        !sep.contains('\n'),
        !end.contains('\n'),
    ensures
        parser::parsed(before + del_header(n, sep, m, end) + tail) == parser::parsed(
            before + del_header(n, ".="@, m, Seq::empty()) + tail,
        ),
{
    lemma_usual_forms();
    law_del_header(n, sep, m, end);
    law_del_header(n, ".="@, m, Seq::empty());
    lemma_del_line(n, sep, m, end);
    lemma_del_line(n, ".="@, m, Seq::empty());
    law_same_header(
        before,
        del_header(n, sep, m, end),
        del_header(n, ".="@, m, Seq::empty()),
        tail,
    );
}

proof fn lemma_empty_hunk(
    st: ExecutorView,
    n: usize,
    range: ParsedRange,
    f: RawFactsView,
    g: RawFactsView,
)
    ensures
        parser::ended(
            parser::fed(
                st,
                TokenView::HunkHeader { line_num: n, target: BlockTargetView::Replace { range } },
                f,
            ),
        ) == parser::ended(
            parser::fed(
                st,
                TokenView::HunkHeader { line_num: n, target: BlockTargetView::Delete { range } },
                g,
            ),
        ),
        st == parser::initial() ==> parser::ended(
            parser::fed(
                st,
                TokenView::HunkHeader { line_num: n, target: BlockTargetView::Replace { range } },
                f,
            ),
        ).edits == parser::range_deletes(range),
{
    let t = TokenView::HunkHeader { line_num: n, target: BlockTargetView::Replace { range } };
    let u = TokenView::HunkHeader { line_num: n, target: BlockTargetView::Delete { range } };
    let a = parser::fed(st, t, f);
    let b = parser::fed(st, u, g);
    if !st.terminated {
        assert(parser::comments_consumed(a) =~= a);
        assert(parser::comments_consumed(b) =~= b);
        let none = Seq::<Seq<char>>::empty();
        assert(parser::body_texts(Seq::empty()) =~= none);
        let ins = parser::inserts(
            Cursor::BeforeAnchor(Anchor { line: range.start }),
            none,
            InsertMode::Replacement,
        );
        assert(ins + parser::range_deletes(range) =~= parser::range_deletes(range));
        assert(parser::flushed(a) =~= parser::flushed(b));
        if st == parser::initial() {
            assert(parser::flushed(b).edits =~= parser::range_deletes(range));
        }
    }
}

proof fn lemma_last_token(before: Seq<char>, line: Seq<char>)
    requires
        before.len() == 0 || before.last() == '\n',
        !line.contains('\n'),
        tokenizer::hunk_header(line) is Some,
    ensures
        tokenizer::tokens(before + line) == tokens_of_lines(text::lines(before).drop_last()).push(
            TokenView::HunkHeader {
                line_num: text::lines(before).len() as usize,
                target: tokenizer::hunk_header(line)->0,
            },
        ),
{
    let ls = text::lines(before).drop_last();
    let none = Seq::<char>::empty();
    text::lemma_split_nonempty(before, '\n');
    lemma_header_token(line, (ls.len() + 1) as usize);
    assert(before + line + none =~= before + line);
    lemma_kept_around(before, line, none);
    assert(ls.push(line) + Seq::<Seq<char>>::empty() =~= ls.push(line));
    lemma_tokens(before + line);
    assert(tokens_of_lines(ls.push(line)).drop_last() =~= tokens_of_lines(ls));
    assert(tokens_of_lines(ls.push(line)) =~= tokens_of_lines(ls).push(
        tokens_of_lines(ls.push(line)).last(),
    ));
}

/// A `SWAP` without a body at the end of a patch is a `DEL`: the patch parses alike, and
/// where it holds nothing else, its edits delete the lines of the range, one by one.
pub proof fn law_empty_swap(before: Seq<char>, swap: Seq<char>, del: Seq<char>, range: ParsedRange)
    requires
        before.len() == 0 || before.last() == '\n',
        !swap.contains('\n'),
        !del.contains('\n'),
        tokenizer::hunk_header(swap) == Some(BlockTargetView::Replace { range }),
        tokenizer::hunk_header(del) == Some(BlockTargetView::Delete { range }),
    ensures
        parser::parsed(before + swap) == parser::parsed(before + del),
        before.len() == 0 ==> parser::parsed(before + swap).edits == parser::range_deletes(range),
{
    let own = tokens_of_lines(text::lines(before).drop_last());
    let n = text::lines(before).len() as usize;
    let t = TokenView::HunkHeader { line_num: n, target: BlockTargetView::Replace { range } };
    let u = TokenView::HunkHeader { line_num: n, target: BlockTargetView::Delete { range } };
    lemma_last_token(before, swap);
    lemma_last_token(before, del);
    lemma_state_step(own, t);
    lemma_state_step(own, u);
    lemma_empty_hunk(
        state_after(own),
        n,
        range,
        parser::facts_of(parser::fact_line(t)),
        parser::facts_of(parser::fact_line(u)),
    );
    if before.len() == 0 {
        assert(own =~= Seq::<TokenView>::empty());
        assert(state_after(own) == parser::initial());
    }
}

} // verus!
