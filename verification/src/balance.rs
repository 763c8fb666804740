//! Delimiter balance: the net `()` / `[]` / `{}` count of a run of lines.

use vstd::prelude::*;

use crate::rows::{Row, RowView};
use crate::text;
use crate::views;

verus! {

broadcast use {crate::views::group_all, crate::views::group_texts};

/// Net counts of the three delimiter pairs. The counters wrap at 32 bits.
#[derive(Debug, Clone, Copy, PartialEq, Eq, Structural)]
pub struct DelimiterBalance {
    pub paren: i32,
    pub bracket: i32,
    pub brace: i32,
}

impl DelimiterBalance {
    /// No delimiter is open or closed.
    pub open spec fn zero() -> DelimiterBalance {
        DelimiterBalance { paren: 0, bracket: 0, brace: 0 }
    }

    /// The counts of `self` and `other` together.
    pub open spec fn plus(self, other: DelimiterBalance) -> DelimiterBalance {
        DelimiterBalance {
            paren: self.paren.wrapping_add(other.paren),
            bracket: self.bracket.wrapping_add(other.bracket),
            brace: self.brace.wrapping_add(other.brace),
        }
    }

    /// The counts of `self` without those of `other`.
    pub open spec fn minus(self, other: DelimiterBalance) -> DelimiterBalance {
        DelimiterBalance {
            paren: self.paren.wrapping_sub(other.paren),
            bracket: self.bracket.wrapping_sub(other.bracket),
            brace: self.brace.wrapping_sub(other.brace),
        }
    }

    /// The counts with every sign turned round.
    pub open spec fn negated(self) -> DelimiterBalance {
        DelimiterBalance::zero().minus(self)
    }

    /// Every open or close count of `target` is met by one of `self` with the same
    /// sign and at least the same size.
    pub open spec fn covers(self, target: DelimiterBalance) -> bool {
        &&& component_covers(self.paren as int, target.paren as int)
        &&& component_covers(self.bracket as int, target.bracket as int)
        &&& component_covers(self.brace as int, target.brace as int)
    }
}

/// One count of [`DelimiterBalance::covers`].
pub open spec fn component_covers(candidate: int, target: int) -> bool {
    ||| target == 0
    ||| target > 0 && candidate >= target
    ||| target < 0 && candidate <= target
}

pub fn balance_zero() -> (r: DelimiterBalance)
    ensures
        r == DelimiterBalance::zero(),
{
    DelimiterBalance { paren: 0, bracket: 0, brace: 0 }
}

pub fn balance_sum(a: DelimiterBalance, b: DelimiterBalance) -> (r: DelimiterBalance)
    ensures
        r == a.plus(b),
{
    DelimiterBalance {
        paren: a.paren.wrapping_add(b.paren),
        bracket: a.bracket.wrapping_add(b.bracket),
        brace: a.brace.wrapping_add(b.brace),
    }
}

pub fn balance_delta(a: DelimiterBalance, b: DelimiterBalance) -> (r: DelimiterBalance)
    ensures
        r == a.minus(b),
{
    DelimiterBalance {
        paren: a.paren.wrapping_sub(b.paren),
        bracket: a.bracket.wrapping_sub(b.bracket),
        brace: a.brace.wrapping_sub(b.brace),
    }
}

pub fn balance_negate(a: DelimiterBalance) -> (r: DelimiterBalance)
    ensures
        r == a.negated(),
{
    balance_delta(balance_zero(), a)
}

pub fn balance_is_zero(a: DelimiterBalance) -> (r: bool)
    ensures
        r == (a == DelimiterBalance::zero()),
{
    a.paren == 0 && a.bracket == 0 && a.brace == 0
}

fn balance_component_covers(candidate: i32, target: i32) -> (r: bool)
    ensures
        r == component_covers(candidate as int, target as int),
{
    target == 0 || (target > 0 && candidate >= target) || (target < 0 && candidate <= target)
}

pub fn balance_covers(candidate: DelimiterBalance, target: DelimiterBalance) -> (r: bool)
    ensures
        r == candidate.covers(target),
{
    balance_component_covers(candidate.paren, target.paren) && balance_component_covers(
        candidate.bracket,
        target.bracket,
    ) && balance_component_covers(candidate.brace, target.brace)
}

// ── Scanning ─────────────────────────────────────────────────────────────

/// What the scanner knows between two characters.
#[derive(Debug, Clone, Copy)]
pub struct Scan {
    pub balance: DelimiterBalance,
    pub in_block_comment: bool,
    pub quote: Option<char>,
}

/// `c` opens a string or template literal.
pub open spec fn is_quote(c: char) -> bool {
    c == '"' || c == '\'' || c == '`'
}

/// The balance after a delimiter outside comments and literals.
pub open spec fn count(b: DelimiterBalance, c: char) -> DelimiterBalance {
    if c == '(' {
        DelimiterBalance { paren: b.paren.wrapping_add(1), ..b }
    } else if c == ')' {
        DelimiterBalance { paren: b.paren.wrapping_sub(1), ..b }
    } else if c == '[' {
        DelimiterBalance { bracket: b.bracket.wrapping_add(1), ..b }
    } else if c == ']' {
        DelimiterBalance { bracket: b.bracket.wrapping_sub(1), ..b }
    } else if c == '{' {
        DelimiterBalance { brace: b.brace.wrapping_add(1), ..b }
    } else if c == '}' {
        DelimiterBalance { brace: b.brace.wrapping_sub(1), ..b }
    } else {
        b
    }
}

fn counted(b: DelimiterBalance, c: char) -> (r: DelimiterBalance)
    ensures
        r == count(b, c),
{
    let mut r = b;
    if c == '(' {
        r.paren = b.paren.wrapping_add(1);
    } else if c == ')' {
        r.paren = b.paren.wrapping_sub(1);
    } else if c == '[' {
        r.bracket = b.bracket.wrapping_add(1);
    } else if c == ']' {
        r.bracket = b.bracket.wrapping_sub(1);
    } else if c == '{' {
        r.brace = b.brace.wrapping_add(1);
    } else if c == '}' {
        r.brace = b.brace.wrapping_sub(1);
    }
    r
}

/// One step at position `i` of a line: how far to move on, and what is known then.
/// Delimiters inside `//` comments, block comments and literals do not count; a
/// backslash inside a literal hides the character behind it.
pub open spec fn step(s: Seq<char>, i: int, st: Scan) -> (int, Scan) {
    let c = s[i];
    let next = i + 1 < s.len();
    if st.in_block_comment {
        if c == '*' && next && s[i + 1] == '/' {
            (2, Scan { in_block_comment: false, ..st })
        } else {
            (1, st)
        }
    } else if st.quote is Some {
        if c == '\\' {
            (2, st)
        } else if Some(c) == st.quote {
            (1, Scan { quote: None, ..st })
        } else {
            (1, st)
        }
    } else if is_quote(c) {
        (1, Scan { quote: Some(c), ..st })
    } else if c == '/' && next && s[i + 1] == '/' {
        (s.len() - i, st)
    } else if c == '/' && next && s[i + 1] == '*' {
        (2, Scan { in_block_comment: true, ..st })
    } else {
        (1, Scan { balance: count(st.balance, c), ..st })
    }
}

/// The state after the rest of a line from position `i` on.
pub open spec fn scan_from(s: Seq<char>, i: int, st: Scan) -> Scan
    decreases (if i < s.len() { s.len() - i } else { 0 }),
{
    if i < 0 || i >= s.len() {
        st
    } else {
        let (d, next) = step(s, i, st);
        scan_from(s, i + d, next)
    }
}

/// The state after a whole line. A literal in `"` or `'` ends with its line;
/// template literals and block comments run on.
pub open spec fn scan_line(s: Seq<char>, st: Scan) -> Scan {
    let end = scan_from(s, 0, st);
    if end.quote == Some('"') || end.quote == Some('\'') {
        Scan { quote: None, ..end }
    } else {
        end
    }
}

/// The state after a run of lines.
pub open spec fn scan_lines(lines: Seq<Seq<char>>) -> Scan
    decreases lines.len(),
{
    if lines.len() == 0 {
        Scan { balance: DelimiterBalance::zero(), in_block_comment: false, quote: None }
    } else {
        scan_line(lines.last(), scan_lines(lines.drop_last()))
    }
}

/// Net `()` / `[]` / `{}` counts across lines, without delimiters inside comments
/// and literals.
pub open spec fn balance(lines: Seq<Seq<char>>) -> DelimiterBalance {
    scan_lines(lines).balance
}

fn scanned_line(s: &str, st: Scan) -> (r: Scan)
    ensures
        r == scan_line(s@, st),
{
    let v = text::chars_of(s);
    let n: usize = v.len();
    let mut i: usize = 0;
    let mut cur = st;
    while i < n
        invariant
            v@ == s@,
            n == v@.len(),
            scan_from(s@, i as int, cur) == scan_from(s@, 0, st),
        decreases n - i,
    {
        let c = v[i];
        let ghost before = cur;
        if cur.in_block_comment {
            if c == '*' && n - i > 1 && v[i + 1] == '/' {
                cur.in_block_comment = false;
                i = i + 2;
            } else {
                i = i + 1;
            }
        } else if cur.quote.is_some() {
            if c == '\\' {
                if n - i > 1 {
                    i = i + 2;
                } else {
                    i = n;
                    assert(scan_from(s@, n as int, cur) == cur);
                    assert(scan_from(s@, n + 1, cur) == cur);
                }
            } else {
                match cur.quote {
                    Some(q) => {
                        if c == q {
                            cur.quote = None;
                        }
                    },
                    None => {},
                }
                i = i + 1;
            }
        } else if c == '"' || c == '\'' || c == '`' {
            cur.quote = Some(c);
            i = i + 1;
        } else if c == '/' && n - i > 1 && v[i + 1] == '/' {
            i = n;
        } else if c == '/' && n - i > 1 && v[i + 1] == '*' {
            cur.in_block_comment = true;
            i = i + 2;
        } else {
            cur.balance = counted(cur.balance, c);
            i = i + 1;
        }
    }
    match cur.quote {
        Some(q) => {
            if q == '"' || q == '\'' {
                cur.quote = None;
            }
        },
        None => {},
    }
    cur
}

/// The texts of `rows[from..to]`, whose balance is asked for.
pub open spec fn slice_texts(rows: Seq<RowView>, from: int, to: int) -> Seq<Seq<char>> {
    crate::rows::row_texts(rows).subrange(from, to)
}

/// The balance of a run of lines.
pub fn compute_delimiter_balance(lines: &[String]) -> (r: DelimiterBalance)
    ensures
        r == balance(views::texts(lines@)),
{
    let mut st = Scan { balance: balance_zero(), in_block_comment: false, quote: None };
    let ghost ts = views::texts(lines@);
    for i in 0..lines.len()
        invariant
            ts == views::texts(lines@),
            st == scan_lines(ts.take(i as int)),
    {
        proof {
            views::lemma_take_step(ts, i as int);
        }
        st = scanned_line(lines[i].as_str(), st);
    }
    proof {
        views::lemma_take_all(ts);
    }
    st.balance
}

/// The balance of the rows from `from` up to `to`.
pub fn rows_balance(rows: &[Row], from: usize, to: usize) -> (r: DelimiterBalance)
    requires
        from <= to <= rows@.len(),
    ensures
        r == balance(slice_texts(views::all(rows@), from as int, to as int)),
{
    let mut st = Scan { balance: balance_zero(), in_block_comment: false, quote: None };
    let ghost ts = slice_texts(views::all(rows@), from as int, to as int);
    for i in from..to
        invariant
            from <= to <= rows@.len(),
            ts == slice_texts(views::all(rows@), from as int, to as int),
            st == scan_lines(ts.take(i - from)),
    {
        proof {
            views::lemma_take_step(ts, i - from);
        }
        st = scanned_line(rows[i].text.as_str(), st);
    }
    proof {
        views::lemma_take_all(ts);
    }
    st.balance
}

// ── Laws ─────────────────────────────────────────────────────────────────

/// How often a character occurs.
pub open spec fn occurrences(s: Seq<char>, c: char) -> int {
    s.filter(|x: char| x == c).len() as int
}

/// A text without quotes and slashes.
pub open spec fn is_plain_code(s: Seq<char>) -> bool {
    forall|i: int|
        0 <= i < s.len() ==> (#[trigger] s[i]) != '"' && s[i] != '\'' && s[i] != '`' && s[i] != '/'
}

/// As many are open as were opened and not closed.
spec fn is_counted(b: DelimiterBalance, from: DelimiterBalance, s: Seq<char>) -> bool {
    &&& b.paren == from.paren + occurrences(s, '(') - occurrences(s, ')')
    &&& b.bracket == from.bracket + occurrences(s, '[') - occurrences(s, ']')
    &&& b.brace == from.brace + occurrences(s, '{') - occurrences(s, '}')
}

spec fn has_room(b: DelimiterBalance, n: int) -> bool {
    &&& -0x7fff_ffff <= b.paren - n && b.paren + n <= 0x7fff_ffff
    &&& -0x7fff_ffff <= b.bracket - n && b.bracket + n <= 0x7fff_ffff
    &&& -0x7fff_ffff <= b.brace - n && b.brace + n <= 0x7fff_ffff
}

proof fn lemma_occurs(s: Seq<char>, i: int, c: char)
    requires
        0 <= i < s.len(),
    ensures
        occurrences(s.take(i + 1), c) == occurrences(s.take(i), c) + (if s[i] == c {
            1int
        } else {
            0
        }),
        0 <= occurrences(s.take(i), c) <= i,
{
    reveal(Seq::filter);
    let t = s.take(i + 1);
    assert(t.drop_last() =~= s.take(i));
    assert(t.last() == s[i]);
    s.take(i).lemma_filter_len(|x: char| x == c);
}

proof fn lemma_scan_plain(s: Seq<char>, i: int, st: Scan, from: DelimiterBalance)
    requires
        is_plain_code(s),
        0 <= i <= s.len(),
        !st.in_block_comment,
        st.quote is None,
        is_counted(st.balance, from, s.take(i)),
        has_room(from, s.len() as int),
    ensures
        !scan_from(s, i, st).in_block_comment,
        scan_from(s, i, st).quote is None,
        is_counted(scan_from(s, i, st).balance, from, s),
    decreases s.len() - i,
{
    if i == s.len() {
        assert(s.take(i) =~= s);
    } else {
        assert(s[i] != '"');
        lemma_occurs(s, i, '(');
        lemma_occurs(s, i, ')');
        lemma_occurs(s, i, '[');
        lemma_occurs(s, i, ']');
        lemma_occurs(s, i, '{');
        lemma_occurs(s, i, '}');
        let (d, next) = step(s, i, st);
        assert(d == 1);
        lemma_scan_plain(s, i + 1, next, from);
    }
}

proof fn lemma_occurs_add(a: Seq<char>, b: Seq<char>, c: char)
    ensures
        occurrences(a + b, c) == occurrences(a, c) + occurrences(b, c),
        0 <= occurrences(a, c) <= a.len(),
{
    let p = |x: char| x == c;
    Seq::filter_distributes_over_add(a, b, p);
    a.lemma_filter_len(p);
}

proof fn lemma_lines_counted(lines: Seq<Seq<char>>)
    requires
        forall|i: int| 0 <= i < lines.len() ==> is_plain_code(#[trigger] lines[i]),
        lines.flatten().len() <= 0x7fff_ffff,
    ensures
        !scan_lines(lines).in_block_comment,
        scan_lines(lines).quote is None,
        is_counted(scan_lines(lines).balance, DelimiterBalance::zero(), lines.flatten()),
    decreases lines.len(),
{
    lines.lemma_flatten_and_flatten_alt_are_equivalent();
    if lines.len() == 0 {
        reveal(Seq::filter);
        assert(lines.flatten() =~= Seq::empty());
    } else {
        let rest = lines.drop_last();
        let last = lines[lines.len() - 1];
        rest.lemma_flatten_and_flatten_alt_are_equivalent();
        assert(lines.flatten() == rest.flatten() + last);
        assert forall|i: int| 0 <= i < rest.len() implies is_plain_code(#[trigger] rest[i]) by {
            assert(rest[i] == lines[i]);
        }
        lemma_lines_counted(rest);
        let st = scan_lines(rest);
        let a = rest.flatten();
        lemma_occurs_add(a, last, '(');
        lemma_occurs_add(a, last, ')');
        lemma_occurs_add(a, last, '[');
        lemma_occurs_add(a, last, ']');
        lemma_occurs_add(a, last, '{');
        lemma_occurs_add(a, last, '}');
        assert(is_plain_code(last));
        assert(has_room(st.balance, last.len() as int));
        assert(is_counted(st.balance, st.balance, last.take(0))) by {
            reveal(Seq::filter);
            assert(last.take(0) =~= Seq::empty());
        }
        lemma_scan_plain(last, 0, st, st.balance);
    }
}

/// In lines without quotes and comments every bracket counts, an opening one for and a closing
/// one against: the balance of each kind is the difference.
pub proof fn law_brackets_counted(lines: Seq<Seq<char>>)
    requires
        forall|i: int| 0 <= i < lines.len() ==> is_plain_code(#[trigger] lines[i]),
        lines.flatten().len() <= 0x7fff_ffff,
    ensures
        ({
            let all = lines.flatten();
            let b = balance(lines);
            &&& b.paren == occurrences(all, '(') - occurrences(all, ')')
            &&& b.bracket == occurrences(all, '[') - occurrences(all, ']')
            &&& b.brace == occurrences(all, '{') - occurrences(all, '}')
        }),
{
    lemma_lines_counted(lines);
}

proof fn lemma_string_skipped(s: Seq<char>, i: int, end: int, st: Scan)
    requires
        0 <= i <= end < s.len(),
        !st.in_block_comment,
        st.quote == Some(s[end]),
        forall|k: int| i <= k < end ==> (#[trigger] s[k]) != s[end] && s[k] != '\\',
        s[end] != '\\',
    ensures
        scan_from(s, i, st) == scan_from(s, end + 1, Scan { quote: None, ..st }),
    decreases end - i,
{
    if i < end {
        assert(s[i] != s[end]);
        lemma_string_skipped(s, i + 1, end, st);
    }
}

/// What stands in quotes does not count, and neither does what stands behind `//`.
pub proof fn law_strings_and_comments_skipped(
    before: Seq<char>,
    quote: char,
    inner: Seq<char>,
    after: Seq<char>,
    st: Scan,
)
    requires
        quote == '"' || quote == '\'' || quote == '`',
        forall|k: int| 0 <= k < inner.len() ==> (#[trigger] inner[k]) != quote && inner[k] != '\\',
        !st.in_block_comment,
        st.quote is None,
    ensures
        ({
            let s = before + seq![quote] + inner + seq![quote] + after;
            scan_from(s, before.len() as int, st) == scan_from(
                s,
                (before.len() + inner.len() + 2) as int,
                st,
            )
        }),
        scan_from(before + seq!['/', '/'] + after, before.len() as int, st) == st,
{
    let s = before + seq![quote] + inner + seq![quote] + after;
    let n = before.len() as int;
    let end = n + 1 + inner.len();
    assert(s[n] == quote && s[end] == quote);
    assert forall|k: int| n + 1 <= k < end implies (#[trigger] s[k]) != s[end] && s[k] != '\\' by {
        assert(s[k] == inner[k - n - 1]);
    }
    lemma_string_skipped(s, n + 1, end, Scan { quote: Some(quote), ..st });
    assert(Scan { quote: None, ..st } == st);
    let t = before + seq!['/', '/'] + after;
    assert(t[n] == '/' && t[n + 1] == '/');
    assert(step(t, n, st) == ((t.len() - n) as int, st));
    assert(scan_from(t, t.len() as int, st) == st);
    assert(scan_from(t, n, st) == scan_from(t, n + (t.len() - n), st));
}

} // verus!
