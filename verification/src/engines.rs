//! The outside engines the library calls: the hash function, the regular
//! expression engine, the line differ, and std's quoting and decoding. What is declared or
//! wrapped here is trusted: its contracts are taken from the engines' documentation and
//! source, not proved. `regex_each` and the two `regex_find` functions are proved.

use vstd::prelude::*;

use crate::patterns;
use crate::views;

verus! {

broadcast use crate::views::group_texts;

// ── xxHash32 ─────────────────────────────────────────────────────────────

/// The 32-bit xxHash of a byte string under a seed.
pub uninterp spec fn xxh32_digest(bytes: Seq<u8>, seed: u32) -> u32;

/// `xxhash_rust::xxh32::xxh32`: the 32-bit xxHash of `input` under `seed`. The
/// digest is a function of the two arguments alone; no more is claimed of it.
pub assume_specification[ xxhash_rust::xxh32::xxh32 ](input: &[u8], seed: u32) -> (r: u32)
    ensures
        r == xxh32_digest(input@, seed),
;

// ── Regular expressions ──────────────────────────────────────────────────

/// The first match of a pattern in a text.
pub struct RegexMatch {
    /// The text in front of the match.
    pub before: String,
    /// The whole match, then the pattern's groups in order; a group that took no
    /// part in the match is `None`.
    pub groups: Vec<Option<String>>,
    /// The text behind the match.
    pub after: String,
}

/// The models of a list of optional strings.
pub open spec fn opt_texts(v: Seq<Option<String>>) -> Seq<Option<Seq<char>>> {
    v.map_values(|o: Option<String>| views::opt_text(o))
}

/// The model of an optional [`RegexMatch`]: what stands before, the groups, what
/// stands behind.
pub open spec fn match_view(m: Option<RegexMatch>) -> Option<
    (Seq<char>, Seq<Option<Seq<char>>>, Seq<char>),
> {
    match m {
        Some(m) => Some((m.before@, opt_texts(m.groups@), m.after@)),
        None => None,
    }
}

/// The leftmost match of a pattern in a text: what stands before it, the groups
/// (the whole match first), and what stands behind it.
pub uninterp spec fn regex_search(pattern: Seq<char>, text: Seq<char>) -> Option<
    (Seq<char>, Seq<Option<Seq<char>>>, Seq<char>),
>;

/// What is wrong with a pattern that is no regular expression: the message of its syntax
/// error. `None` for a pattern whose syntax is in order.
pub uninterp spec fn regex_syntax_error(pattern: Seq<char>) -> Option<Seq<char>>;

/// A match splits its text in three: what stands before the match, the match,
/// and what stands behind it.
pub open spec fn splits(
    found: Option<(Seq<char>, Seq<Option<Seq<char>>>, Seq<char>)>,
    text: Seq<char>,
) -> bool {
    found matches Some(m) ==> {
        &&& m.1.len() > 0
        &&& m.1[0] is Some
        &&& m.0 + m.1[0]->0 + m.2 == text
    }
}

/// A match takes up a part of its text that is not empty.
pub open spec fn takes_some(
    found: Option<(Seq<char>, Seq<Option<Seq<char>>>, Seq<char>)>,
) -> bool {
    found matches Some(m) ==> m.1[0]->0.len() > 0
}

/// A compiled regular expression of the `regex` crate. What it holds is opaque; see
/// [`regex_pattern`].
#[verifier::external_type_specification]
#[verifier::external_body]
pub struct ExRegex(regex::Regex);

/// The pattern that `regex::Regex::new` made a compiled expression from. Expressions come
/// from [`regex_compile`] only: none is built with options that its pattern does not show.
pub uninterp spec fn regex_pattern(re: regex::Regex) -> Seq<char>;

/// `regex::Regex::new`: compile a pattern. Claimed: a compiled expression is that of the
/// pattern; a pattern with a syntax error is refused with the message of that error, which
/// depends on the pattern alone, since the pattern is parsed before anything is built from
/// it; the fixed patterns of this library compile. Whether another pattern compiles once it
/// is parsed is left open, since the engine's limit on a compiled pattern counts bytes of
/// the machine's own structures; so is the message when it does not.
#[verifier::external_body]
pub(crate) fn regex_compile(pattern: &str) -> (r: Result<regex::Regex, String>)
    ensures
        r is Ok ==> regex_pattern(r->Ok_0) == pattern@,
        regex_syntax_error(pattern@) is Some ==> r is Err && r->Err_0@ == regex_syntax_error(
            pattern@,
        )->0,
        patterns::is_fixed(pattern@) ==> r is Ok,
{
    regex::Regex::new(pattern).map_err(|e| e.to_string())
}

/// `regex::Regex::captures`: search a text for the leftmost match. Claimed: the match
/// depends on the expression's pattern and the text alone; it is a part of the text, and
/// group 0 is the whole match; a match of `HL_PREFIX_PATTERN`, which asks for a digit and a
/// colon, is not empty.
#[verifier::external_body]
pub(crate) fn regex_match(re: &regex::Regex, text: &str) -> (r: Option<RegexMatch>)
    ensures
        match_view(r) == regex_search(regex_pattern(*re), text@),
        splits(match_view(r), text@),
        regex_pattern(*re) == patterns::HL_PREFIX_PATTERN@ ==> takes_some(match_view(r)),
{
    re.captures(text).map(|c| RegexMatch {
        before: text[..c.get_match().start()].to_string(),
        groups: c.iter().map(|g| g.map(|m| m.as_str().to_string())).collect(),
        after: text[c.get_match().end()..].to_string(),
    })
}

/// A pattern that was compiled.
#[derive(Debug)]
pub struct Compiled {
    re: regex::Regex,
}

impl View for Compiled {
    type V = Seq<char>;

    /// The pattern.
    closed spec fn view(&self) -> Seq<char> {
        regex_pattern(self.re)
    }
}

impl Compiled {
    /// Compile a pattern. A pattern with a syntax error is refused with the message of that
    /// error; of any other the regular expression engine has the last word.
    pub fn new(pattern: &str) -> (r: Result<Compiled, String>)
        ensures
            match r {
                Ok(c) => c@ == pattern@ && regex_syntax_error(pattern@) is None,
                Err(e) => regex_syntax_error(pattern@) matches Some(m) ==> e@ == m,
            },
            patterns::is_fixed(pattern@) ==> r is Ok,
    {
        match regex_compile(pattern) {
            Ok(re) => Ok(Compiled { re }),
            Err(e) => Err(e),
        }
    }

    /// Whether the pattern matches a text somewhere.
    pub fn is_match(&self, text: &str) -> (r: bool)
        ensures
            r == found(self@, text@),
    {
        regex_match(&self.re, text).is_some()
    }
}

/// Search each of `texts` for the leftmost match of a pattern. The error is the engine's
/// message.
pub(crate) fn regex_each(pattern: &str, texts: &[String]) -> (r: Result<
    Vec<Option<RegexMatch>>,
    String,
>)
    ensures
        r matches Ok(v) ==> v@.len() == texts@.len() && forall|i: int|
            0 <= i < v@.len() ==> match_view(#[trigger] v@[i]) == regex_search(
                pattern@,
                texts@[i]@,
            ) && splits(match_view(v@[i]), texts@[i]@),
        patterns::is_fixed(pattern@) ==> r is Ok,
{
    let re = match regex_compile(pattern) {
        Ok(re) => re,
        Err(e) => {
            return Err(e);
        },
    };
    let mut out: Vec<Option<RegexMatch>> = Vec::new();
    for i in 0..texts.len()
        invariant
            regex_pattern(re) == pattern@,
            out@.len() == i,
            forall|j: int|
                0 <= j < i ==> match_view(#[trigger] out@[j]) == regex_search(
                    pattern@,
                    texts@[j]@,
                ) && splits(match_view(out@[j]), texts@[j]@),
    {
        out.push(regex_match(&re, texts[i].as_str()));
    }
    Ok(out)
}

/// Search one text for a fixed pattern.
pub fn regex_find(pattern: &str, s: &str) -> (r: Option<RegexMatch>)
    requires
        patterns::is_fixed(pattern@),
    ensures
        match_view(r) == regex_search(pattern@, s@),
        splits(match_view(r), s@),
        pattern@ == patterns::HL_PREFIX_PATTERN@ ==> takes_some(match_view(r)),
{
    match regex_compile(pattern) {
        Ok(re) => regex_match(&re, s),
        Err(e) => None,
    }
}

/// Whether a pattern matches a text somewhere.
pub open spec fn found(pattern: Seq<char>, text: Seq<char>) -> bool {
    regex_search(pattern, text) is Some
}

/// Test every text for a fixed pattern.
pub fn regex_find_each(pattern: &str, texts: &[String]) -> (r: Vec<bool>)
    requires
        patterns::is_fixed(pattern@),
    ensures
        r@.len() == texts@.len(),
        forall|i: int| 0 <= i < r@.len() ==> #[trigger] r@[i] == found(pattern@, texts@[i]@),
{
    let mut out: Vec<bool> = Vec::new();
    match regex_each(pattern, texts) {
        Ok(v) => {
            for i in 0..v.len()
                invariant
                    out@.len() == i,
                    v@.len() == texts@.len(),
                    forall|j: int|
                        0 <= j < v@.len() ==> match_view(#[trigger] v@[j]) == regex_search(
                            pattern@,
                            texts@[j]@,
                        ),
                    forall|j: int|
                        0 <= j < i ==> #[trigger] out@[j] == found(pattern@, texts@[j]@),
            {
                assert(match_view(v@[i as int]) == regex_search(pattern@, texts@[i as int]@));
                out.push(v[i].is_some());
            }
        },
        Err(e) => {},
    }
    out
}

// ── Line differences ─────────────────────────────────────────────────────

/// What became of a line.
#[derive(Debug, Clone, Copy, PartialEq, Eq, Structural)]
pub enum ChangeKind {
    /// The line stands in both texts.
    Equal,
    /// The line stands in the old text only.
    Delete,
    /// The line stands in the new text only.
    Insert,
}

/// One line of the difference between two texts.
pub struct Change {
    pub kind: ChangeKind,
    pub text: String,
}

/// The model of a list of changes.
pub open spec fn changes_view(v: Seq<Change>) -> Seq<(ChangeKind, Seq<char>)> {
    v.map_values(|c: Change| (c.kind, c.text@))
}

/// The lines of the old text that a difference speaks of, in order.
pub open spec fn old_side(changes: Seq<(ChangeKind, Seq<char>)>) -> Seq<Seq<char>>
    decreases changes.len(),
{
    if changes.len() == 0 {
        Seq::empty()
    } else if changes.last().0 == ChangeKind::Insert {
        old_side(changes.drop_last())
    } else {
        old_side(changes.drop_last()).push(changes.last().1)
    }
}

/// The lines of the new text that a difference speaks of, in order.
pub open spec fn new_side(changes: Seq<(ChangeKind, Seq<char>)>) -> Seq<Seq<char>>
    decreases changes.len(),
{
    if changes.len() == 0 {
        Seq::empty()
    } else if changes.last().0 == ChangeKind::Delete {
        new_side(changes.drop_last())
    } else {
        new_side(changes.drop_last()).push(changes.last().1)
    }
}

/// The line-by-line difference between two lists of lines.
pub uninterp spec fn line_diff(from: Seq<Seq<char>>, to: Seq<Seq<char>>) -> Seq<
    (ChangeKind, Seq<char>),
>;

/// `similar::TextDiff::from_slices` and `TextDiff::iter_all_changes`: the difference
/// between two lists of lines. Claimed: it depends on the two lists alone, and it goes
/// through each list once, in order. Which lines it pairs up is left to the differ. The
/// differ numbers distinct lines with 32 bits, so the lists must not be longer.
#[verifier::external_body]
pub(crate) fn diff_lines(from: &[String], to: &[String]) -> (r: Vec<Change>)
    requires
        from@.len() + to@.len() < u32::MAX,
    ensures
        changes_view(r@) == line_diff(views::texts(from@), views::texts(to@)),
        old_side(changes_view(r@)) == views::texts(from@),
        new_side(changes_view(r@)) == views::texts(to@),
{
    let a: Vec<&str> = from.iter().map(|s| s.as_str()).collect();
    let b: Vec<&str> = to.iter().map(|s| s.as_str()).collect();
    similar::TextDiff::from_slices(&a, &b).iter_all_changes().map(|c| Change {
        kind: match c.tag() {
            similar::ChangeTag::Equal => ChangeKind::Equal,
            similar::ChangeTag::Delete => ChangeKind::Delete,
            similar::ChangeTag::Insert => ChangeKind::Insert,
        },
        text: c.value().to_string(),
    }).collect()
}

// ── Quoting ──────────────────────────────────────────────────────────────

/// A text as std's `Debug` formatting shows it: in double quotes, with escapes.
pub uninterp spec fn debug_text(s: Seq<char>) -> Seq<char>;

/// The `Debug` formatting of std's `str`. Claimed: the output depends on the string
/// alone.
#[verifier::external_body]
pub(crate) fn debug_quoted(s: &str) -> (r: String)
    ensures
        r@ == debug_text(s@),
{
    format!("{:?}", s)
}

// ── Decoding ─────────────────────────────────────────────────────────────

/// A byte string as std decodes it: what is not UTF-8 gives way to replacement
/// characters.
pub uninterp spec fn lossy_text(bytes: Seq<u8>) -> Seq<char>;

/// `String::from_utf8_lossy`: a byte string decoded as UTF-8. Claimed: the text depends
/// on the bytes alone, and valid UTF-8 gives the characters it encodes. Where the
/// replacement characters go in other byte strings is left to std.
#[verifier::external_body]
pub(crate) fn decode_lossy(bytes: &[u8]) -> (r: String)
    ensures
        r@ == lossy_text(bytes@),
        vstd::utf8::valid_utf8(bytes@) ==> r@ == vstd::utf8::decode_utf8(bytes@),
{
    String::from_utf8_lossy(bytes).into_owned()
}

} // verus!
