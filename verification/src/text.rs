//! Text primitives.
//!
//! A text is modelled as the sequence of its characters, and a list of lines as
//! a sequence of texts. Everything here is pure: each executable function has a
//! specification function that says what it returns.

use vstd::prelude::*;

use crate::views;

verus! {

// ── Trusted: the one string operation of std used below without a specification of its own ──

/// `String::push` of std: appends one character to the end of the string.
pub assume_specification[ String::push ](s: &mut String, c: char)
    ensures
        final(s)@ == old(s)@.push(c),
;

broadcast use crate::views::group_texts;

/// Copy a string slice.
pub fn owned(s: &str) -> (r: String)
    ensures
        r@ == s@,
{
    s.to_owned()
}

/// Copy a list of strings.
pub fn clone_strings(v: &[String]) -> (r: Vec<String>)
    ensures
        r@ == v@,
{
    let mut out: Vec<String> = Vec::new();
    for i in 0..v.len()
        invariant
            out@ == v@.take(i as int),
    {
        proof {
            views::lemma_take_step(v@, i as int);
        }
        out.push(v[i].clone());
    }
    proof {
        views::lemma_take_all(v@);
    }
    out
}

/// Copy an optional string.
pub fn clone_opt(o: &Option<String>) -> (r: Option<String>)
    ensures
        r == *o,
{
    match o {
        Some(s) => Some(s.clone()),
        None => None,
    }
}

/// Append a copy of every string of `more` to `v`.
pub fn extend_strings(v: &mut Vec<String>, more: &[String])
    ensures
        final(v)@ == old(v)@ + more@,
{
    let ghost start = v@;
    for i in 0..more.len()
        invariant
            v@ == start + more@.take(i as int),
    {
        proof {
            views::lemma_take_step(more@, i as int);
        }
        v.push(more[i].clone());
        proof {
            assert(v@ =~= start + more@.take(i + 1));
        }
    }
    proof {
        views::lemma_take_all(more@);
    }
}

// ── Characters of a string ───────────────────────────────────────────────

/// The characters of a string.
pub fn chars_of(s: &str) -> (r: Vec<char>)
    ensures
        r@ == s@,
{
    let mut out: Vec<char> = Vec::new();
    for c in it: s.chars()
        invariant
            out@ == s@.take(it.index() as int),
            it.seq() == s@,
    {
        proof {
            views::lemma_take_step(s@, it.index() as int);
        }
        out.push(c);
    }
    proof {
        views::lemma_take_all(s@);
    }
    out
}

/// The string made of the characters from `a` to `b`.
pub fn string_of(v: &[char], a: usize, b: usize) -> (r: String)
    requires
        a <= b <= v.len(),
    ensures
        r@ == v@.subrange(a as int, b as int),
{
    let mut out: String = String::new();
    for i in a..b
        invariant
            a <= b <= v.len(),
            out@ == v@.subrange(a as int, i as int),
    {
        out.push(v[i]);
        proof {
            assert(out@ =~= v@.subrange(a as int, i + 1));
        }
    }
    proof {
        assert(v@.subrange(a as int, a as int) =~= Seq::<char>::empty());
    }
    out
}

/// Whether two strings hold the same text.
pub fn same(a: &str, b: &str) -> (r: bool)
    ensures
        r == (a@ == b@),
{
    a.to_owned() == b.to_owned()
}

/// The number of characters in a string.
pub fn char_count(s: &str) -> (r: usize)
    ensures
        r == s@.len(),
{
    s.unicode_len()
}

// ── Character classes ────────────────────────────────────────────────────

/// The characters that Unicode gives the property `White_Space`.
pub open spec fn is_white(c: char) -> bool {
    let n = c as u32;
    ||| 0x09 <= n <= 0x0d
    ||| n == 0x20
    ||| n == 0x85
    ||| n == 0xa0
    ||| n == 0x1680
    ||| 0x2000 <= n <= 0x200a
    ||| n == 0x2028
    ||| n == 0x2029
    ||| n == 0x202f
    ||| n == 0x205f
    ||| n == 0x3000
}

/// Whether a character is Unicode white space.
pub fn white(c: char) -> (r: bool)
    ensures
        r == is_white(c),
{
    let n: u32 = c as u32;
    (0x09 <= n && n <= 0x0d) || n == 0x20 || n == 0x85 || n == 0xa0 || n == 0x1680 || (0x2000 <= n
        && n <= 0x200a) || n == 0x2028 || n == 0x2029 || n == 0x202f || n == 0x205f || n == 0x3000
}

/// ASCII white space: tab, line feed, vertical tab, form feed, carriage return, space.
pub open spec fn is_ascii_white(c: char) -> bool {
    c == ' ' || 0x09 <= c as u32 <= 0x0d
}

/// Whether a character is ASCII white space.
pub fn ascii_white(c: char) -> (r: bool)
    ensures
        r == is_ascii_white(c),
{
    let n: u32 = c as u32;
    c == ' ' || (0x09 <= n && n <= 0x0d)
}

/// An ASCII digit.
pub open spec fn is_digit(c: char) -> bool {
    '0' <= c <= '9'
}

/// Whether a character is an ASCII digit.
pub fn digit(c: char) -> (r: bool)
    ensures
        r == is_digit(c),
{
    '0' <= c && c <= '9'
}

/// An ASCII digit other than zero.
pub open spec fn is_nonzero_digit(c: char) -> bool {
    '1' <= c <= '9'
}

/// Whether a character is an ASCII digit other than zero.
pub fn nonzero_digit(c: char) -> (r: bool)
    ensures
        r == is_nonzero_digit(c),
{
    '1' <= c && c <= '9'
}

/// An ASCII hexadecimal digit, in either case.
pub open spec fn is_hex_digit(c: char) -> bool {
    is_digit(c) || 'A' <= c <= 'F' || 'a' <= c <= 'f'
}

/// Whether a character is an ASCII hexadecimal digit.
pub fn hex_digit(c: char) -> (r: bool)
    ensures
        r == is_hex_digit(c),
{
    digit(c) || ('A' <= c && c <= 'F') || ('a' <= c && c <= 'f')
}

/// An ASCII letter.
pub open spec fn is_letter(c: char) -> bool {
    'A' <= c <= 'Z' || 'a' <= c <= 'z'
}

/// Whether a character is an ASCII letter.
pub fn letter(c: char) -> (r: bool)
    ensures
        r == is_letter(c),
{
    ('A' <= c && c <= 'Z') || ('a' <= c && c <= 'z')
}

/// An ASCII letter or digit.
pub open spec fn is_alphanumeric(c: char) -> bool {
    is_letter(c) || is_digit(c)
}

/// Whether a character is an ASCII letter or digit.
pub fn alphanumeric(c: char) -> (r: bool)
    ensures
        r == is_alphanumeric(c),
{
    letter(c) || digit(c)
}

// ── ASCII case ───────────────────────────────────────────────────────────

/// The upper-case form of an ASCII letter; any other character as it is.
pub open spec fn upper_char(c: char) -> char {
    if 'a' <= c <= 'z' {
        ((c as u32) - 32) as char
    } else {
        c
    }
}

/// The lower-case form of an ASCII letter; any other character as it is.
pub open spec fn lower_char(c: char) -> char {
    if 'A' <= c <= 'Z' {
        ((c as u32) + 32) as char
    } else {
        c
    }
}

/// A text with its ASCII letters in upper case.
pub open spec fn upper(s: Seq<char>) -> Seq<char> {
    s.map_values(|c: char| upper_char(c))
}

/// A text with its ASCII letters in lower case.
pub open spec fn lower(s: Seq<char>) -> Seq<char> {
    s.map_values(|c: char| lower_char(c))
}

/// A copy of a string with its ASCII letters in upper case.
pub fn to_upper(s: &str) -> (r: String)
    ensures
        r@ == upper(s@),
{
    let v = chars_of(s);
    let mut out: String = String::new();
    for i in 0..v.len()
        invariant
            v@ == s@,
            out@ == upper(s@).take(i as int),
    {
        let c = v[i];
        proof {
            views::lemma_take_step(upper(s@), i as int);
        }
        if 'a' <= c && c <= 'z' {
            out.push(((c as u8) - 32) as char);
        } else {
            out.push(c);
        }
    }
    proof {
        views::lemma_take_all(upper(s@));
    }
    out
}

/// A copy of a string with its ASCII letters in lower case.
pub fn to_lower(s: &str) -> (r: String)
    ensures
        r@ == lower(s@),
{
    let v = chars_of(s);
    let mut out: String = String::new();
    for i in 0..v.len()
        invariant
            v@ == s@,
            out@ == lower(s@).take(i as int),
    {
        let c = v[i];
        proof {
            views::lemma_take_step(lower(s@), i as int);
        }
        if 'A' <= c && c <= 'Z' {
            out.push(((c as u8) + 32) as char);
        } else {
            out.push(c);
        }
    }
    proof {
        views::lemma_take_all(lower(s@));
    }
    out
}

// ── Prefixes, suffixes, membership ───────────────────────────────────────

/// Whether the text `s` has `p` at position `at`.
pub open spec fn has_at(s: Seq<char>, at: int, p: Seq<char>) -> bool {
    0 <= at && at + p.len() <= s.len() && s.subrange(at, at + p.len()) == p
}

/// Whether the characters `s` have `p` at position `at`.
pub fn chars_have_at(s: &[char], at: usize, p: &[char]) -> (r: bool)
    ensures
        r == has_at(s@, at as int, p@),
{
    if at > s.len() || p.len() > s.len() - at {
        return false;
    }
    let mut i: usize = 0;
    while i < p.len()
        invariant
            i <= p.len(),
            at + p.len() <= s.len(),
            forall|j: int| 0 <= j < i ==> s@[at + j] == p@[j],
        decreases p.len() - i,
    {
        if s[at + i] != p[i] {
            proof {
                assert(s@.subrange(at as int, at + p@.len())[i as int] != p@[i as int]);
            }
            return false;
        }
        i = i + 1;
    }
    proof {
        assert(s@.subrange(at as int, at + p@.len()) =~= p@);
    }
    true
}

/// Whether a text begins with `p`.
pub open spec fn has_prefix(s: Seq<char>, p: Seq<char>) -> bool {
    has_at(s, 0, p)
}

/// Whether a text ends with `p`.
pub open spec fn has_suffix(s: Seq<char>, p: Seq<char>) -> bool {
    has_at(s, s.len() - p.len(), p)
}

/// Whether a string begins with `p`.
pub fn starts_with(s: &str, p: &str) -> (r: bool)
    ensures
        r == has_prefix(s@, p@),
{
    let v = chars_of(s);
    let w = chars_of(p);
    chars_have_at(&v, 0, &w)
}

/// Whether a string ends with `p`.
pub fn ends_with(s: &str, p: &str) -> (r: bool)
    ensures
        r == has_suffix(s@, p@),
{
    let v = chars_of(s);
    let w = chars_of(p);
    if w.len() > v.len() {
        return false;
    }
    chars_have_at(&v, v.len() - w.len(), &w)
}

/// Whether a string holds the character `c`.
pub fn holds_char(s: &str, c: char) -> (r: bool)
    ensures
        r == s@.contains(c),
{
    let v = chars_of(s);
    let mut i: usize = 0;
    while i < v.len()
        invariant
            i <= v.len(),
            v@ == s@,
            forall|j: int| 0 <= j < i ==> v@[j] != c,
        decreases v.len() - i,
    {
        if v[i] == c {
            proof {
                assert(s@[i as int] == c);
            }
            return true;
        }
        i = i + 1;
    }
    false
}

/// Whether one of the strings holds the text of `s`.
pub fn holds_text(v: &[String], s: &str) -> (r: bool)
    ensures
        r == views::texts(v@).contains(s@),
{
    let t = owned(s);
    let mut i: usize = 0;
    while i < v.len()
        invariant
            i <= v.len(),
            t@ == s@,
            forall|j: int| 0 <= j < i ==> views::texts(v@)[j] != s@,
        decreases v.len() - i,
    {
        if v[i] == t {
            proof {
                assert(views::texts(v@)[i as int] == s@);
            }
            return true;
        }
        i = i + 1;
    }
    false
}

/// Position of the first `c` at or after `from`; the length when there is none.
pub open spec fn find_char(s: Seq<char>, c: char, from: int) -> int
    decreases s.len() - from,
{
    if from >= s.len() || from < 0 {
        s.len() as int
    } else if s[from] == c {
        from
    } else {
        find_char(s, c, from + 1)
    }
}

/// What `find_char` says: the first place of `c`, or the length.
pub proof fn lemma_find_char(s: Seq<char>, c: char, from: int)
    requires
        0 <= from <= s.len(),
    ensures
        from <= find_char(s, c, from) <= s.len(),
        find_char(s, c, from) < s.len() ==> s[find_char(s, c, from)] == c,
        forall|j: int| from <= j < find_char(s, c, from) ==> s[j] != c,
    decreases s.len() - from,
{
    if from < s.len() && s[from] != c {
        lemma_find_char(s, c, from + 1);
    }
}

/// Position of the first `c` at or after `from`; the length when there is none.
pub fn position_of(v: &[char], c: char, from: usize) -> (r: usize)
    requires
        from <= v.len(),
    ensures
        r == find_char(v@, c, from as int),
        from <= r <= v.len(),
        r < v.len() ==> v@[r as int] == c,
{
    let mut i: usize = from;
    while i < v.len() && v[i] != c
        invariant
            from <= i <= v.len(),
            find_char(v@, c, i as int) == find_char(v@, c, from as int),
        decreases v.len() - i,
    {
        i = i + 1;
    }
    i
}

// ── Trimming ─────────────────────────────────────────────────────────────

/// A text without the white space at its start.
pub open spec fn trim_start(s: Seq<char>) -> Seq<char>
    decreases s.len(),
{
    if s.len() > 0 && is_white(s[0]) {
        trim_start(s.drop_first())
    } else {
        s
    }
}

/// A text without the white space at its end.
pub open spec fn trim_end(s: Seq<char>) -> Seq<char>
    decreases s.len(),
{
    if s.len() > 0 && is_white(s.last()) {
        trim_end(s.drop_last())
    } else {
        s
    }
}

/// A text without the white space at its two ends.
pub open spec fn trim(s: Seq<char>) -> Seq<char> {
    trim_end(trim_start(s))
}

/// Whether a text is empty or white space throughout.
pub open spec fn is_blank(s: Seq<char>) -> bool {
    trim(s).len() == 0
}

/// Where the characters stand after the white space at their start.
pub fn trim_start_index(v: &[char]) -> (r: usize)
    ensures
        r <= v.len(),
        v@.skip(r as int) == trim_start(v@),
{
    let mut i: usize = 0;
    proof {
        assert(v@.skip(0) =~= v@);
    }
    while i < v.len() && white(v[i])
        invariant
            i <= v.len(),
            trim_start(v@.skip(i as int)) == trim_start(v@),
        decreases v.len() - i,
    {
        proof {
            assert(v@.skip(i as int).drop_first() =~= v@.skip(i + 1));
        }
        i = i + 1;
    }
    i
}

/// Where the characters end before the white space at their end.
pub fn trim_end_index(v: &[char]) -> (r: usize)
    ensures
        r <= v.len(),
        v@.take(r as int) == trim_end(v@),
{
    let mut i: usize = v.len();
    proof {
        views::lemma_take_all(v@);
    }
    while i > 0 && white(v[i - 1])
        invariant
            i <= v.len(),
            trim_end(v@.take(i as int)) == trim_end(v@),
        decreases i,
    {
        proof {
            views::lemma_take_step(v@, i - 1);
        }
        i = i - 1;
    }
    i
}

/// A copy of a string without the white space at its start.
pub fn trimmed_start(s: &str) -> (r: String)
    ensures
        r@ == trim_start(s@),
{
    let v = chars_of(s);
    let a = trim_start_index(&v);
    let r = string_of(&v, a, v.len());
    proof {
        assert(v@.subrange(a as int, v@.len() as int) =~= v@.skip(a as int));
    }
    r
}

/// A copy of a string without the white space at its end.
pub fn trimmed_end(s: &str) -> (r: String)
    ensures
        r@ == trim_end(s@),
{
    let v = chars_of(s);
    let b = trim_end_index(&v);
    let r = string_of(&v, 0, b);
    proof {
        assert(v@.subrange(0, b as int) =~= v@.take(b as int));
    }
    r
}

/// A copy of a string without the white space at its two ends.
pub fn trimmed(s: &str) -> (r: String)
    ensures
        r@ == trim(s@),
{
    let t = trimmed_start(s);
    trimmed_end(t.as_str())
}

/// Whether a string is empty or white space throughout.
pub fn blank(s: &str) -> (r: bool)
    ensures
        r == is_blank(s@),
{
    let t = trimmed(s);
    t.as_str().is_empty()
}

// ── Splitting and joining ────────────────────────────────────────────────

/// The pieces of a text between the occurrences of `sep`; one more than there
/// are occurrences.
pub open spec fn split(s: Seq<char>, sep: char) -> Seq<Seq<char>>
    decreases s.len(),
{
    if s.len() == 0 {
        seq![Seq::empty()]
    } else {
        let before = split(s.drop_last(), sep);
        if s.last() == sep {
            before.push(Seq::empty())
        } else {
            before.drop_last().push(before.last().push(s.last()))
        }
    }
}

pub proof fn lemma_split_nonempty(s: Seq<char>, sep: char)
    ensures
        split(s, sep).len() >= 1,
    decreases s.len(),
{
    if s.len() > 0 {
        lemma_split_nonempty(s.drop_last(), sep);
    }
}

/// The pieces of a string between the occurrences of `sep`.
pub fn split_on(s: &str, sep: char) -> (r: Vec<String>)
    ensures
        views::texts(r@) == split(s@, sep),
        r.len() >= 1,
{
    let v = chars_of(s);
    let mut out: Vec<String> = Vec::new();
    let mut cur: String = String::new();
    proof {
        assert(views::texts(out@).push(cur@) =~= seq![Seq::<char>::empty()]);
    }
    for i in 0..v.len()
        invariant
            v@ == s@,
            split(s@.take(i as int), sep) == views::texts(out@).push(cur@),
    {
        proof {
            views::lemma_take_step(s@, i as int);
            assert(views::texts(out@).push(cur@).drop_last() =~= views::texts(out@));
        }
        if v[i] == sep {
            out.push(cur);
            cur = String::new();
        } else {
            cur.push(v[i]);
        }
    }
    proof {
        views::lemma_take_all(s@);
    }
    out.push(cur);
    out
}

/// The pieces of a text between its whitespace characters.
pub open spec fn white_pieces(s: Seq<char>) -> Seq<Seq<char>>
    decreases s.len(),
{
    if s.len() == 0 {
        seq![Seq::empty()]
    } else {
        let before = white_pieces(s.drop_last());
        if is_white(s.last()) {
            before.push(Seq::empty())
        } else {
            before.drop_last().push(before.last().push(s.last()))
        }
    }
}

/// Those of a list of texts that are not empty.
pub open spec fn nonempty(parts: Seq<Seq<char>>) -> Seq<Seq<char>>
    decreases parts.len(),
{
    if parts.len() == 0 {
        Seq::empty()
    } else {
        let rest = nonempty(parts.drop_last());
        if parts.last().len() > 0 {
            rest.push(parts.last())
        } else {
            rest
        }
    }
}

/// The words of a text, with whitespace in between.
pub open spec fn words(s: Seq<char>) -> Seq<Seq<char>> {
    nonempty(white_pieces(s))
}

/// Split a text into its words.
pub fn words_of(s: &str) -> (r: Vec<String>)
    ensures
        views::texts(r@) == words(s@),
{
    let v = chars_of(s);
    let mut out: Vec<String> = Vec::new();
    let mut current = String::new();
    let mut filled: bool = false;
    let ghost mut pieces: Seq<Seq<char>> = seq![Seq::empty()];
    proof {
        assert(v@.take(0) =~= Seq::empty());
        assert(current@ =~= Seq::empty());
        assert(pieces.drop_last() =~= Seq::empty());
    }
    for i in 0..v.len()
        invariant
            v@ == s@,
            pieces == white_pieces(v@.take(i as int)),
            pieces.len() > 0,
            pieces.last() == current@,
            filled == (current@.len() > 0),
            views::texts(out@) == nonempty(pieces.drop_last()),
    {
        let ghost was = pieces;
        proof {
            views::lemma_take_step(v@, i as int);
        }
        if white(v[i]) {
            proof {
                pieces = was.push(Seq::empty());
                assert(pieces.drop_last() =~= was);
            }
            if filled {
                out.push(current);
            }
            current = String::new();
            filled = false;
            assert(current@ =~= Seq::empty());
        } else {
            let ghost before = current@;
            current.push(v[i]);
            filled = true;
            proof {
                assert(current@ =~= before.push(v@[i as int]));
                pieces = was.drop_last().push(current@);
                assert(pieces.drop_last() =~= was.drop_last());
            }
        }
    }
    proof {
        views::lemma_take_all(v@);
    }
    if filled {
        out.push(current);
    }
    out
}

/// The texts one after the other with `sep` between them.
pub open spec fn join(parts: Seq<Seq<char>>, sep: Seq<char>) -> Seq<char>
    decreases parts.len(),
{
    if parts.len() == 0 {
        Seq::empty()
    } else if parts.len() == 1 {
        parts[0]
    } else {
        join(parts.drop_last(), sep) + sep + parts.last()
    }
}

/// The strings one after the other with `sep` between them.
pub fn joined(parts: &[String], sep: &str) -> (r: String)
    ensures
        r@ == join(views::texts(parts@), sep@),
{
    let mut out: String = String::new();
    for i in 0..parts.len()
        invariant
            out@ == join(views::texts(parts@).take(i as int), sep@),
    {
        proof {
            views::lemma_take_step(views::texts(parts@), i as int);
        }
        if i > 0 {
            out.append(sep);
        }
        out.append(parts[i].as_str());
        proof {
            if i == 0 {
                assert(out@ =~= parts@[0]@);
            }
        }
    }
    proof {
        views::lemma_take_all(views::texts(parts@));
    }
    out
}

/// The lines of a text: its pieces between line feeds.
pub open spec fn lines(s: Seq<char>) -> Seq<Seq<char>> {
    split(s, '\n')
}

/// The lines of a string.
pub fn lines_of(s: &str) -> (r: Vec<String>)
    ensures
        views::texts(r@) == lines(s@),
        r.len() >= 1,
{
    split_on(s, '\n')
}

/// The text made of `ls`, a line feed between each two.
pub open spec fn unlines(ls: Seq<Seq<char>>) -> Seq<char> {
    join(ls, seq!['\n'])
}

/// The string made of the lines `ls`.
pub fn join_lines(ls: &[String]) -> (r: String)
    ensures
        r@ == unlines(views::texts(ls@)),
{
    proof {
        reveal_strlit("\n");
        assert("\n"@ =~= seq!['\n']);
    }
    joined(ls, "\n")
}

/// A line without the one carriage return at its end, if it has one.
pub open spec fn strip_cr(s: Seq<char>) -> Seq<char> {
    if s.len() > 0 && s.last() == '\r' {
        s.drop_last()
    } else {
        s
    }
}

/// A copy of a line without the one carriage return at its end.
pub fn without_cr(s: &str) -> (r: String)
    ensures
        r@ == strip_cr(s@),
{
    let v = chars_of(s);
    let n: usize = v.len();
    if n > 0 && v[n - 1] == '\r' {
        let r = string_of(&v, 0, n - 1);
        proof {
            assert(r@ =~= s@.drop_last());
        }
        r
    } else {
        owned(s)
    }
}

/// The lines of a text whose line ends may be `\n` or `\r\n`. The last line is what
/// follows the last line end, and keeps a carriage return.
pub open spec fn crlf_lines(s: Seq<char>) -> Seq<Seq<char>> {
    let ls = lines(s);
    ls.drop_last().map_values(|l: Seq<char>| strip_cr(l)).push(ls.last())
}

/// The lines of a string whose line ends may be `\n` or `\r\n`.
pub fn crlf_lines_of(s: &str) -> (r: Vec<String>)
    ensures
        views::texts(r@) == crlf_lines(s@),
        r.len() >= 1,
{
    let ls = lines_of(s);
    let n: usize = ls.len();
    let mut out: Vec<String> = Vec::new();
    let ghost heads = lines(s@).drop_last().map_values(|l: Seq<char>| strip_cr(l));
    for i in 0..n - 1
        invariant
            n == ls.len(),
            n >= 1,
            views::texts(ls@) == lines(s@),
            heads == lines(s@).drop_last().map_values(|l: Seq<char>| strip_cr(l)),
            views::texts(out@) == heads.take(i as int),
    {
        proof {
            views::lemma_take_step(heads, i as int);
            assert(views::texts(ls@)[i as int] == ls@[i as int]@);
        }
        out.push(without_cr(ls[i].as_str()));
    }
    out.push(ls[n - 1].clone());
    proof {
        views::lemma_take_all(heads);
        assert(views::texts(ls@)[n - 1] == ls@[n - 1]@);
    }
    out
}

/// A text with every `\r\n` turned into `\n`.
pub open spec fn lf(s: Seq<char>) -> Seq<char> {
    unlines(crlf_lines(s))
}

/// See [`lf`].
pub fn to_lf(s: &str) -> (r: String)
    ensures
        r@ == lf(s@),
{
    join_lines(crlf_lines_of(s).as_slice())
}

/// The lines of a text as a reader counts them: line ends may be `\n` or `\r\n`,
/// and a line end at the very end starts no further line.
pub open spec fn content_lines(s: Seq<char>) -> Seq<Seq<char>> {
    let ls = crlf_lines(s);
    if ls.last().len() == 0 {
        ls.drop_last()
    } else {
        ls
    }
}

/// The lines of a string as a reader counts them.
pub fn content_lines_of(s: &str) -> (r: Vec<String>)
    ensures
        views::texts(r@) == content_lines(s@),
{
    let mut ls = crlf_lines_of(s);
    let n: usize = ls.len();
    proof {
        assert(views::texts(ls@).last() == ls@.last()@);
    }
    if ls[n - 1].as_str().is_empty() {
        let ghost before = ls@;
        let _ = ls.pop();
        proof {
            assert(ls@ =~= before.drop_last());
        }
    }
    ls
}

// ── Laws of splitting and joining ────────────────────────────────────────

/// Joining the pieces with the separator gives the text back.
pub proof fn law_join_split(s: Seq<char>, sep: char)
    ensures
        join(split(s, sep), seq![sep]) == s,
    decreases s.len(),
{
    if s.len() == 0 {
        assert(s =~= Seq::empty());
    } else {
        let before = split(s.drop_last(), sep);
        law_join_split(s.drop_last(), sep);
        lemma_split_nonempty(s.drop_last(), sep);
        assert(s =~= s.drop_last().push(s.last()));
        if s.last() == sep {
            let all = before.push(Seq::empty());
            assert(all.drop_last() =~= before);
            assert(join(all, seq![sep]) =~= s);
        } else {
            let grown = before.last().push(s.last());
            let all = before.drop_last().push(grown);
            assert(all.drop_last() =~= before.drop_last());
            if before.len() == 1 {
                assert(join(all, seq![sep]) =~= s);
            } else {
                assert(join(all, seq![sep]) =~= s);
            }
        }
    }
}

/// No piece of a split holds the separator.
pub proof fn lemma_split_pieces(s: Seq<char>, sep: char)
    ensures
        forall|i: int| 0 <= i < split(s, sep).len() ==> !(#[trigger] split(s, sep)[i]).contains(sep),
    decreases s.len(),
{
    if s.len() > 0 {
        let before = split(s.drop_last(), sep);
        lemma_split_pieces(s.drop_last(), sep);
        lemma_split_nonempty(s.drop_last(), sep);
        let all = split(s, sep);
        assert forall|i: int| 0 <= i < all.len() implies !(#[trigger] all[i]).contains(sep) by {
            if i < before.len() - 1 {
                assert(all[i] == before[i]);
            } else if s.last() == sep {
                if i == before.len() - 1 {
                    assert(all[i] == before[i]);
                }
            } else {
                assert(!before.last().contains(sep)) by {
                    assert(before.last() == before[before.len() - 1]);
                }
                let grown = before.last().push(s.last());
                assert(all[i] == grown);
                if grown.contains(sep) {
                    let j = choose|j: int| 0 <= j < grown.len() && grown[j] == sep;
                    assert(j < before.last().len());
                    assert(before.last()[j] == sep);
                }
            }
        }
    }
}

proof fn lemma_split_append(a: Seq<char>, b: Seq<char>, sep: char)
    requires
        !b.contains(sep),
    ensures
        split(a + seq![sep] + b, sep) == split(a, sep).push(b),
    decreases b.len(),
{
    let s = a + seq![sep] + b;
    if b.len() == 0 {
        assert(s.drop_last() =~= a);
        assert(b =~= Seq::empty());
    } else {
        assert(s.drop_last() =~= a + seq![sep] + b.drop_last());
        assert(!b.drop_last().contains(sep)) by {
            if b.drop_last().contains(sep) {
                let j = choose|j: int| 0 <= j < b.drop_last().len() && b.drop_last()[j] == sep;
                assert(b[j] == sep);
            }
        }
        lemma_split_append(a, b.drop_last(), sep);
        assert(b[b.len() - 1] == s.last());
        let before = split(s.drop_last(), sep);
        assert(before.drop_last() =~= split(a, sep));
        assert(b.drop_last().push(b.last()) =~= b);
    }
}

/// The pieces of two texts with the separator between them are those of the one, then
/// those of the other.
pub proof fn lemma_split_concat(a: Seq<char>, b: Seq<char>, sep: char)
    ensures
        split(a + seq![sep] + b, sep) == split(a, sep) + split(b, sep),
    decreases b.len(),
{
    let s = a + seq![sep] + b;
    lemma_split_nonempty(b, sep);
    if b.len() == 0 {
        assert(s.drop_last() =~= a);
        assert(split(s, sep) =~= split(a, sep) + split(b, sep));
    } else {
        let rest = b.drop_last();
        assert(s.drop_last() =~= a + seq![sep] + rest);
        lemma_split_concat(a, rest, sep);
        lemma_split_nonempty(rest, sep);
        assert(s.last() == b.last());
        let before = split(s.drop_last(), sep);
        assert(before.last() == split(rest, sep).last());
        assert(split(s, sep) =~= split(a, sep) + split(b, sep));
    }
}

/// The lines of a text in which one line is told apart: those before it, the line, and
/// those behind it.
pub proof fn lemma_lines_around(before: Seq<char>, line: Seq<char>, tail: Seq<char>)
    requires
        before.len() == 0 || before.last() == '\n',
        !line.contains('\n'),
        tail.len() == 0 || tail[0] == '\n',
    ensures
        lines(before + line + tail) == lines(before).drop_last().push(line) + (if tail.len() == 0 {
            Seq::empty()
        } else {
            lines(tail.skip(1))
        }),
{
    let head = before + line;
    lemma_split_nonempty(before, '\n');
    lemma_split_plain(line, '\n');
    if before.len() > 0 {
        let b = before.drop_last();
        assert(head =~= b + seq!['\n'] + line);
        assert(before =~= b + seq!['\n'] + Seq::<char>::empty());
        lemma_split_append(b, line, '\n');
        lemma_split_append(b, Seq::<char>::empty(), '\n');
        assert(lines(before).drop_last() =~= lines(b));
    } else {
        assert(head =~= line);
        assert(lines(before).drop_last() =~= Seq::empty());
        assert(seq![line] =~= Seq::<Seq<char>>::empty().push(line));
    }
    if tail.len() > 0 {
        assert(before + line + tail =~= head + seq!['\n'] + tail.skip(1));
        lemma_split_concat(head, tail.skip(1), '\n');
    } else {
        assert(before + line + tail =~= head);
        assert(lines(head) + Seq::<Seq<char>>::empty() =~= lines(head));
    }
}

proof fn lemma_split_plain(b: Seq<char>, sep: char)
    requires
        !b.contains(sep),
    ensures
        split(b, sep) == seq![b],
    decreases b.len(),
{
    if b.len() == 0 {
        assert(b =~= Seq::empty());
    } else {
        assert(!b.drop_last().contains(sep)) by {
            if b.drop_last().contains(sep) {
                let j = choose|j: int| 0 <= j < b.drop_last().len() && b.drop_last()[j] == sep;
                assert(b[j] == sep);
            }
        }
        lemma_split_plain(b.drop_last(), sep);
        assert(b[b.len() - 1] == b.last());
        assert(b.drop_last().push(b.last()) =~= b);
        assert(split(b, sep) =~= seq![b]);
    }
}

/// Splitting what was joined gives the pieces back, when there is one piece at
/// least and no piece holds the separator.
pub proof fn law_split_join(parts: Seq<Seq<char>>, sep: char)
    requires
        parts.len() >= 1,
        forall|i: int| 0 <= i < parts.len() ==> !(#[trigger] parts[i]).contains(sep),
    ensures
        split(join(parts, seq![sep]), sep) == parts,
    decreases parts.len(),
{
    if parts.len() == 1 {
        lemma_split_plain(parts[0], sep);
        assert(seq![parts[0]] =~= parts);
    } else {
        assert forall|i: int| 0 <= i < parts.drop_last().len() implies !(
        #[trigger] parts.drop_last()[i]).contains(sep) by {
            assert(parts.drop_last()[i] == parts[i]);
        }
        law_split_join(parts.drop_last(), sep);
        assert(parts.last() == parts[parts.len() - 1]);
        lemma_split_append(join(parts.drop_last(), seq![sep]), parts.last(), sep);
        assert(parts.drop_last().push(parts.last()) =~= parts);
    }
}

/// The lines of a text, put together again, are the text.
pub proof fn law_unlines_lines(s: Seq<char>)
    ensures
        unlines(lines(s)) == s,
{
    law_join_split(s, '\n');
}

/// Turning line ends into `\n` keeps the lines, but for carriage returns at their ends.
pub proof fn law_lf_lines(s: Seq<char>)
    ensures
        lines(lf(s)) == crlf_lines(s),
{
    let ls = lines(s);
    let cs = crlf_lines(s);
    lemma_split_nonempty(s, '\n');
    lemma_split_pieces(s, '\n');
    assert forall|i: int| 0 <= i < cs.len() implies !(#[trigger] cs[i]).contains('\n') by {
        assert(!ls[i].contains('\n'));
        if i < ls.len() - 1 {
            assert(ls.drop_last()[i] == ls[i]);
            assert(cs[i] == strip_cr(ls[i]));
            if cs[i].contains('\n') {
                let j = choose|j: int| 0 <= j < cs[i].len() && cs[i][j] == '\n';
                assert(ls[i][j] == '\n');
            }
        }
    }
    law_split_join(cs, '\n');
}

// ── Lines and their ends ─────────────────────────────────────────────────

/// A line that holds no line end.
pub open spec fn is_one_line(s: Seq<char>) -> bool {
    !s.contains('\n') && (s.len() == 0 || s.last() != '\r')
}

/// Lines one after the other, each with a line end behind it: `\r\n` where `crlf` says so,
/// `\n` elsewhere.
pub open spec fn ended_lines(ls: Seq<Seq<char>>, crlf: Seq<bool>) -> Seq<char> {
    Seq::new(
        ls.len(),
        |i: int|
            ls[i] + (if crlf[i] {
                seq!['\r', '\n']
            } else {
                seq!['\n']
            }),
    ).flatten()
}

proof fn lemma_ended_lines(ls: Seq<Seq<char>>, crlf: Seq<bool>)
    requires
        ls.len() == crlf.len(),
        forall|i: int| 0 <= i < ls.len() ==> is_one_line(#[trigger] ls[i]),
    ensures
        lines(ended_lines(ls, crlf)) == Seq::new(
            ls.len(),
            |i: int|
                if crlf[i] {
                    ls[i].push('\r')
                } else {
                    ls[i]
                },
        ).push(Seq::empty()),
    decreases ls.len(),
{
    let pieces = Seq::new(
        ls.len(),
        |i: int|
            ls[i] + (if crlf[i] {
                seq!['\r', '\n']
            } else {
                seq!['\n']
            }),
    );
    pieces.lemma_flatten_and_flatten_alt_are_equivalent();
    if ls.len() > 0 {
        let ls0 = ls.drop_last();
        let crlf0 = crlf.drop_last();
        let before = ended_lines(ls0, crlf0);
        assert forall|i: int| 0 <= i < ls0.len() implies is_one_line(#[trigger] ls0[i]) by {
            assert(ls0[i] == ls[i]);
        }
        lemma_ended_lines(ls0, crlf0);
        pieces.drop_last().lemma_flatten_and_flatten_alt_are_equivalent();
        assert(pieces.drop_last() =~= Seq::new(
            ls0.len(),
            |i: int|
                ls0[i] + (if crlf0[i] {
                    seq!['\r', '\n']
                } else {
                    seq!['\n']
                }),
        ));
        let line = if crlf.last() {
            ls.last().push('\r')
        } else {
            ls.last()
        };
        assert(is_one_line(ls[ls.len() - 1]));
        assert(!line.contains('\n')) by {
            assert forall|c: int| 0 <= c < line.len() implies line[c] != '\n' by {
                if c < ls.last().len() {
                    assert(line[c] == ls.last()[c]);
                    assert(ls.last().contains(ls.last()[c]));
                }
            }
        }
        assert(ended_lines(ls, crlf) =~= before + line + seq!['\n']);
        assert(before.len() > 0 ==> before.last() == '\n') by {
            if ls0.len() > 0 {
                let ps = pieces.drop_last();
                assert(ps.last().last() == '\n');
                assert(before == ps.drop_last().flatten_alt() + ps.last());
            } else {
                assert(before =~= Seq::empty());
            }
        }
        lemma_lines_around(before, line, seq!['\n']);
        assert(seq!['\n'].skip(1) =~= Seq::<char>::empty());
        assert(lines(Seq::<char>::empty()) =~= seq![Seq::<char>::empty()]);
        assert(lines(ended_lines(ls, crlf)) =~= Seq::new(
            ls.len(),
            |i: int|
                if crlf[i] {
                    ls[i].push('\r')
                } else {
                    ls[i]
                },
        ).push(Seq::empty()));
    } else {
        assert(ended_lines(ls, crlf) =~= Seq::empty());
        assert(lines(Seq::<char>::empty()) =~= seq![Seq::<char>::empty()]);
    }
}

/// A reader of a text finds the lines that were written, whichever line end stands behind
/// each: all lines, unchanged and in order. A last line needs no line end.
pub proof fn law_content_lines(ls: Seq<Seq<char>>, crlf: Seq<bool>, last: Seq<char>)
    requires
        ls.len() == crlf.len(),
        forall|i: int| 0 <= i < ls.len() ==> is_one_line(#[trigger] ls[i]),
        !last.contains('\n'),
    ensures
        content_lines(ended_lines(ls, crlf) + last) == (if last.len() == 0 {
            ls
        } else {
            ls.push(last)
        }),
{
    let before = ended_lines(ls, crlf);
    let s = before + last;
    lemma_ended_lines(ls, crlf);
    let cut = Seq::new(
        ls.len(),
        |i: int|
            if crlf[i] {
                ls[i].push('\r')
            } else {
                ls[i]
            },
    );
    lemma_tail_line(before, last);
    let all = lines(s);
    assert(all =~= cut.push(last));
    assert forall|i: int| 0 <= i < ls.len() implies strip_cr(#[trigger] cut[i]) == ls[i] by {
        assert(is_one_line(ls[i]));
        if crlf[i] {
            assert(ls[i].push('\r').drop_last() =~= ls[i]);
        }
    }
    assert(all.drop_last() =~= cut);
    assert(crlf_lines(s) =~= ls.push(last));
    assert(ls.push(last).drop_last() =~= ls);
}

/// A text without a line end behind another text goes to its last line.
proof fn lemma_tail_line(a: Seq<char>, b: Seq<char>)
    requires
        !b.contains('\n'),
    ensures
        lines(a + b) == lines(a).drop_last().push(lines(a).last() + b),
    decreases b.len(),
{
    lemma_split_nonempty(a, '\n');
    if b.len() == 0 {
        assert(a + b =~= a);
        assert(lines(a).last() + b =~= lines(a).last());
        assert(lines(a).drop_last().push(lines(a).last()) =~= lines(a));
    } else {
        let rest = b.drop_last();
        assert(!rest.contains('\n')) by {
            assert forall|c: int| 0 <= c < rest.len() implies rest[c] != '\n' by {
                assert(b.contains(b[c]));
            }
        }
        lemma_tail_line(a, rest);
        assert(b.contains(b.last()));
        assert((a + b).drop_last() =~= a + rest);
        assert((a + b).last() == b.last());
        assert((lines(a).last() + rest).push(b.last()) =~= lines(a).last() + b);
        assert(lines(a + b) =~= lines(a).drop_last().push(lines(a).last() + b));
    }
}

// ── White space ──────────────────────────────────────────────────────────

/// Every character is white space.
pub open spec fn all_white(s: Seq<char>) -> bool {
    forall|i: int| 0 <= i < s.len() ==> is_white(#[trigger] s[i])
}

proof fn lemma_trim_start_drops(a: Seq<char>, s: Seq<char>)
    requires
        all_white(a),
        s.len() == 0 || !is_white(s[0]),
    ensures
        trim_start(a + s) == s,
    decreases a.len(),
{
    if a.len() == 0 {
        assert(a + s =~= s);
    } else {
        assert((a + s)[0] == a[0]);
        assert((a + s).drop_first() =~= a.drop_first() + s);
        assert(all_white(a.drop_first())) by {
            assert forall|i: int| 0 <= i < a.drop_first().len() implies is_white(
                #[trigger] a.drop_first()[i],
            ) by {
                assert(a.drop_first()[i] == a[i + 1]);
            }
        }
        lemma_trim_start_drops(a.drop_first(), s);
    }
}

proof fn lemma_trim_end_drops(s: Seq<char>, b: Seq<char>)
    requires
        all_white(b),
        s.len() == 0 || !is_white(s.last()),
    ensures
        trim_end(s + b) == s,
    decreases b.len(),
{
    if b.len() == 0 {
        assert(s + b =~= s);
    } else {
        assert((s + b).last() == b[b.len() - 1]);
        assert((s + b).drop_last() =~= s + b.drop_last());
        assert(all_white(b.drop_last())) by {
            assert forall|i: int| 0 <= i < b.drop_last().len() implies is_white(
                #[trigger] b.drop_last()[i],
            ) by {
                assert(b.drop_last()[i] == b[i]);
            }
        }
        lemma_trim_end_drops(s, b.drop_last());
    }
}

/// Trimming drops the white space at the two ends, or at one of them, and nothing else.
pub proof fn law_trim(a: Seq<char>, s: Seq<char>, b: Seq<char>)
    requires
        all_white(a),
        all_white(b),
        s.len() > 0,
        !is_white(s[0]),
        !is_white(s.last()),
    ensures
        trim(a + s + b) == s,
        trim_start(a + s + b) == s + b,
        trim_end(a + s + b) == a + s,
{
    assert(a + s + b =~= a + (s + b));
    assert((s + b)[0] == s[0]);
    assert((a + s).last() == s.last());
    lemma_trim_start_drops(a, s + b);
    lemma_trim_end_drops(s, b);
    lemma_trim_end_drops(a + s, b);
}

proof fn lemma_white_nonempty(s: Seq<char>)
    ensures
        white_pieces(s).len() > 0,
    decreases s.len(),
{
    if s.len() > 0 {
        lemma_white_nonempty(s.drop_last());
    }
}

proof fn lemma_word_pieces(a: Seq<char>, w: Seq<char>)
    requires
        forall|i: int| 0 <= i < w.len() ==> !is_white(#[trigger] w[i]),
    ensures
        white_pieces(a + w) == white_pieces(a).drop_last().push(white_pieces(a).last() + w),
    decreases w.len(),
{
    lemma_white_nonempty(a);
    if w.len() == 0 {
        assert(a + w =~= a);
        assert(white_pieces(a).last() + w =~= white_pieces(a).last());
        assert(white_pieces(a).drop_last().push(white_pieces(a).last()) =~= white_pieces(a));
    } else {
        let v = w.drop_last();
        assert forall|i: int| 0 <= i < v.len() implies !is_white(#[trigger] v[i]) by {
            assert(v[i] == w[i]);
        }
        lemma_word_pieces(a, v);
        assert((a + w).drop_last() =~= a + v);
        assert((a + w).last() == w[w.len() - 1]);
        assert((white_pieces(a).last() + v).push(w.last()) =~= white_pieces(a).last() + w);
        assert(white_pieces(a + w) =~= white_pieces(a).drop_last().push(
            white_pieces(a).last() + w,
        ));
    }
}

/// A word behind white space is one more word; white space behind a text adds none.
pub proof fn law_words(a: Seq<char>, space: char, w: Seq<char>)
    requires
        is_white(space),
        forall|i: int| 0 <= i < w.len() ==> !is_white(#[trigger] w[i]),
    ensures
        words(Seq::<char>::empty()) == Seq::<Seq<char>>::empty(),
        words(a.push(space)) == words(a),
        w.len() > 0 ==> words(a.push(space) + w) == words(a).push(w),
        w.len() > 0 ==> words(w) == seq![w],
{
    let none = Seq::<char>::empty();
    assert(white_pieces(none) =~= seq![none]);
    assert(seq![none].drop_last() =~= Seq::empty());
    assert(nonempty(seq![none]) =~= Seq::empty()) by {
        assert(nonempty(Seq::<Seq<char>>::empty()) =~= Seq::empty());
    }
    let b = a.push(space);
    lemma_white_nonempty(a);
    assert(b.drop_last() =~= a);
    let ps = white_pieces(a);
    assert(white_pieces(b) == ps.push(none));
    assert(ps.push(none).drop_last() =~= ps);
    if w.len() > 0 {
        lemma_word_pieces(b, w);
        assert(none + w =~= w);
        assert(white_pieces(b + w) =~= ps.push(w));
        assert(ps.push(w).drop_last() =~= ps);
        lemma_word_pieces(none, w);
        assert(none + w =~= w);
        assert(white_pieces(w) =~= seq![w]);
        assert(seq![w].drop_last() =~= Seq::empty());
        assert(nonempty(Seq::<Seq<char>>::empty()) =~= Seq::empty());
        assert(words(w) =~= seq![w]);
    }
}

proof fn lemma_first_piece(w: Seq<char>, space: char, rest: Seq<char>)
    requires
        is_white(space),
        forall|i: int| 0 <= i < w.len() ==> !is_white(#[trigger] w[i]),
    ensures
        white_pieces(w.push(space) + rest).len() >= 2,
        white_pieces(w.push(space) + rest)[0] == w,
    decreases rest.len(),
{
    let a = w.push(space);
    let none = Seq::<char>::empty();
    if rest.len() == 0 {
        assert(a + rest =~= a);
        assert(a.drop_last() =~= w);
        lemma_word_pieces(none, w);
        assert(none + w =~= w);
        assert(white_pieces(none) =~= seq![none]);
        assert(white_pieces(w) =~= seq![w]);
    } else {
        lemma_first_piece(w, space, rest.drop_last());
        assert((a + rest).drop_last() =~= a + rest.drop_last());
    }
}

proof fn lemma_first_nonempty(ps: Seq<Seq<char>>)
    requires
        ps.len() > 0,
        ps[0].len() > 0,
    ensures
        nonempty(ps).len() > 0,
        nonempty(ps)[0] == ps[0],
    decreases ps.len(),
{
    if ps.len() > 1 {
        lemma_first_nonempty(ps.drop_last());
    } else {
        assert(nonempty(ps.drop_last()) =~= Seq::empty());
    }
}

/// The first word of a text is what stands before its first white space.
pub proof fn law_first_word(w: Seq<char>, space: char, rest: Seq<char>)
    requires
        w.len() > 0,
        is_white(space),
        forall|i: int| 0 <= i < w.len() ==> !is_white(#[trigger] w[i]),
    ensures
        words(w.push(space) + rest).len() > 0,
        words(w.push(space) + rest)[0] == w,
{
    lemma_first_piece(w, space, rest);
    lemma_first_nonempty(white_pieces(w.push(space) + rest));
}

} // verus!
