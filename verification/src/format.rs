//! Format primitives: sigils, separators, and the content tag.

use vstd::prelude::*;

use crate::engines;
use crate::numbers;
use crate::text;
use crate::views;

verus! {

broadcast use crate::views::group_texts;

// ── Sigils and delimiters ────────────────────────────────────────────────

pub const HL_FILE_PREFIX: &'static str = "[";

pub const HL_FILE_SUFFIX: &'static str = "]";

pub const HL_PAYLOAD_REPLACE: char = '+';

pub const HL_REPLACE_KEYWORD: &'static str = "SWAP";

pub const HL_DELETE_KEYWORD: &'static str = "DEL";

pub const HL_INSERT_KEYWORD: &'static str = "INS";

pub const HL_INSERT_BEFORE: &'static str = "PRE";

pub const HL_INSERT_AFTER: &'static str = "POST";

pub const HL_INSERT_HEAD: &'static str = "HEAD";

pub const HL_INSERT_TAIL: &'static str = "TAIL";

pub const HL_REPLACE_BLOCK_KEYWORD: &'static str = "SWAP.BLK";

pub const HL_DELETE_BLOCK_KEYWORD: &'static str = "DEL.BLK";

pub const HL_INSERT_AFTER_BLOCK_KEYWORD: &'static str = "INS.BLK.POST";

pub const HL_REM_KEYWORD: &'static str = "REM";

pub const HL_MOVE_KEYWORD: &'static str = "MV";

pub const HL_HEADER_COLON: char = ':';

pub const HL_FILE_HASH_SEP: char = '#';

pub const HL_RANGE_SEP: &'static str = ".=";

pub const HL_LINE_BODY_SEP: char = ':';

pub const HL_FILE_HASH_LENGTH: usize = 4;

// ── The content tag ──────────────────────────────────────────────────────

/// A space, a tab, or a carriage return.
pub open spec fn is_line_end_space(c: char) -> bool {
    c == ' ' || c == '\t' || c == '\r'
}

/// A line without the spaces, tabs and carriage returns at its end.
pub open spec fn trim_line(s: Seq<char>) -> Seq<char>
    decreases s.len(),
{
    if s.len() > 0 && is_line_end_space(s.last()) {
        trim_line(s.drop_last())
    } else {
        s
    }
}

/// The text a tag is computed from: every line without the spaces, tabs and carriage
/// returns at its end, so that CRLF endings and display-trimmed lines do not
/// invalidate a tag.
pub open spec fn normalized(s: Seq<char>) -> Seq<char> {
    text::unlines(text::lines(s).map_values(|l: Seq<char>| trim_line(l)))
}

fn trimmed_line(s: &str) -> (r: String)
    ensures
        r@ == trim_line(s@),
{
    let v = text::chars_of(s);
    let mut n: usize = v.len();
    proof {
        views::lemma_take_all(v@);
    }
    while n > 0 && (v[n - 1] == ' ' || v[n - 1] == '\t' || v[n - 1] == '\r')
        invariant
            n <= v@.len(),
            trim_line(v@.take(n as int)) == trim_line(v@),
        decreases n,
    {
        proof {
            views::lemma_take_step(v@, n - 1);
        }
        n = n - 1;
    }
    proof {
        if n > 0 {
            views::lemma_take_step(v@, n - 1);
        }
        assert(v@.subrange(0, n as int) =~= v@.take(n as int));
    }
    text::string_of(v.as_slice(), 0, n)
}

/// Normalize text before hashing: trim trailing `[ \t\r]` from every line.
pub fn normalize_file_hash_text(s: &str) -> (r: String)
    ensures
        r@ == normalized(s@),
{
    let ls = text::lines_of(s);
    let ghost goal = text::lines(s@).map_values(|l: Seq<char>| trim_line(l));
    let mut out: Vec<String> = Vec::new();
    for i in 0..ls.len()
        invariant
            views::texts(ls@) == text::lines(s@),
            goal == text::lines(s@).map_values(|l: Seq<char>| trim_line(l)),
            views::texts(out@) == goal.take(i as int),
    {
        proof {
            views::lemma_take_step(goal, i as int);
            assert(views::texts(ls@)[i as int] == ls@[i as int]@);
        }
        out.push(trimmed_line(ls[i].as_str()));
    }
    proof {
        views::lemma_take_all(goal);
    }
    text::join_lines(out.as_slice())
}

/// The tag of a 32-bit digest: its low sixteen bits as four upper-case hexadecimal
/// digits.
pub fn format_tag(digest: u32) -> (r: String)
    ensures
        r@ == numbers::hex4(digest as int),
{
    numbers::hex4_of(digest)
}

/// The tag of a text: the xxHash32 of the normalized text under seed 0, as
/// [`format_tag`] writes it.
pub open spec fn tag(s: Seq<char>) -> Seq<char> {
    numbers::hex4(engines::xxh32_digest(vstd::utf8::encode_utf8(normalized(s)), 0) as int)
}

/// Compute the content-derived hash tag carried by a hashline section header.
///
/// The tag is a 4-hex fingerprint of the whole file's normalized text: any read of
/// identical content mints the same tag, and a follow-up edit anchored at any line
/// validates whenever the live file still hashes to it.
pub fn compute_file_hash(text: &str) -> (r: String)
    ensures
        r@ == tag(text@),
{
    let normal = normalize_file_hash_text(text);
    format_tag(xxhash_rust::xxh32::xxh32(normal.as_str().as_bytes(), 0))
}

/// The section header of a file: `[path#tag]`.
pub open spec fn header(path: Seq<char>, tag: Seq<char>) -> Seq<char> {
    HL_FILE_PREFIX@ + path + seq![HL_FILE_HASH_SEP] + tag + HL_FILE_SUFFIX@
}

/// Format a hashline section header for a file path and snapshot tag.
///
/// Example: `format_hashline_header("src/foo.ts", "1A2B")` gives `[src/foo.ts#1A2B]`.
pub fn format_hashline_header(file_path: &str, file_hash: &str) -> (r: String)
    ensures
        r@ == header(file_path@, file_hash@),
{
    let mut s = text::owned(HL_FILE_PREFIX);
    s.append(file_path);
    let ghost before = s@;
    s.push(HL_FILE_HASH_SEP);
    proof {
        assert(s@ =~= before + seq![HL_FILE_HASH_SEP]);
    }
    s.append(file_hash);
    s.append(HL_FILE_SUFFIX);
    s
}

/// A numbered line: `LINE:TEXT`.
pub open spec fn numbered(line_number: nat, line: Seq<char>) -> Seq<char> {
    numbers::dec(line_number) + seq![HL_LINE_BODY_SEP] + line
}

/// Format a single numbered line as `LINE:TEXT`.
pub fn format_numbered_line(line_number: usize, line: &str) -> (r: String)
    ensures
        r@ == numbered(line_number as nat, line@),
{
    let mut s = numbers::decimal_usize(line_number);
    let ghost before = s@;
    s.push(HL_LINE_BODY_SEP);
    proof {
        assert(s@ =~= before + seq![HL_LINE_BODY_SEP]);
    }
    s.append(line);
    s
}

// ── Laws ─────────────────────────────────────────────────────────────────

proof fn lemma_trim_line_idem(s: Seq<char>)
    ensures
        trim_line(trim_line(s)) == trim_line(s),
    decreases s.len(),
{
    if s.len() > 0 && is_line_end_space(s.last()) {
        lemma_trim_line_idem(s.drop_last());
    }
}

proof fn lemma_trim_line_part(s: Seq<char>)
    ensures
        trim_line(s).len() <= s.len(),
        trim_line(s) == s.take(trim_line(s).len() as int),
    decreases s.len(),
{
    if s.len() > 0 && is_line_end_space(s.last()) {
        lemma_trim_line_part(s.drop_last());
        assert(s.drop_last().take(trim_line(s).len() as int) =~= s.take(
            trim_line(s).len() as int,
        ));
    } else {
        views::lemma_take_all(s);
    }
}

/// Normalizing a text twice is normalizing it once.
pub proof fn law_normalized_idempotent(s: Seq<char>)
    ensures
        normalized(normalized(s)) == normalized(s),
{
    let ls = text::lines(s);
    let ts = ls.map_values(|l: Seq<char>| trim_line(l));
    text::lemma_split_nonempty(s, '\n');
    text::lemma_split_pieces(s, '\n');
    assert forall|i: int| 0 <= i < ts.len() implies !(#[trigger] ts[i]).contains('\n') by {
        lemma_trim_line_part(ls[i]);
        if ts[i].contains('\n') {
            let j = choose|j: int| 0 <= j < ts[i].len() && ts[i][j] == '\n';
            assert(ls[i][j] == '\n');
            assert(ls[i].contains('\n'));
        }
    }
    text::law_split_join(ts, '\n');
    assert(text::lines(normalized(s)) == ts);
    assert(ts.map_values(|l: Seq<char>| trim_line(l)) =~= ts) by {
        assert forall|i: int| 0 <= i < ts.len() implies trim_line(#[trigger] ts[i]) == ts[i] by {
            lemma_trim_line_idem(ls[i]);
        }
    }
}

/// A tag depends on the normalized text alone: texts that differ only in spaces, tabs
/// and carriage returns at line ends have the same tag.
pub proof fn law_tag_of_normalized(s: Seq<char>, t: Seq<char>)
    requires
        text::lines(s).len() == text::lines(t).len(),
        forall|i: int|
            0 <= i < text::lines(s).len() ==> trim_line(#[trigger] text::lines(s)[i]) == trim_line(
                text::lines(t)[i],
            ),
    ensures
        tag(s) == tag(t),
{
    assert(text::lines(s).map_values(|l: Seq<char>| trim_line(l)) =~= text::lines(t).map_values(
        |l: Seq<char>| trim_line(l),
    ));
}

/// A tag has four characters, each an upper-case hexadecimal digit.
pub proof fn law_tag_shape(s: Seq<char>)
    ensures
        tag(s).len() == HL_FILE_HASH_LENGTH,
        forall|i: int|
            0 <= i < tag(s).len() ==> text::is_digit(#[trigger] tag(s)[i]) || 'A' <= tag(s)[i]
                <= 'F',
{
}

/// A text has the same tag whether its lines end in `\n` or in `\r\n`.
pub proof fn law_tag_of_lf(s: Seq<char>)
    ensures
        tag(text::lf(s)) == tag(s),
{
    text::law_lf_lines(s);
    text::lemma_split_nonempty(s, '\n');
    let ls = text::lines(s);
    let cs = text::crlf_lines(s);
    assert forall|i: int| 0 <= i < cs.len() implies trim_line(#[trigger] cs[i]) == trim_line(
        ls[i],
    ) by {
        if i < ls.len() - 1 {
            assert(ls.drop_last()[i] == ls[i]);
            assert(cs[i] == text::strip_cr(ls[i]));
        }
    }
    law_tag_of_normalized(text::lf(s), s);
}

proof fn lemma_trimmed_off(line: Seq<char>, space: Seq<char>)
    requires
        line.len() == 0 || !is_line_end_space(line.last()),
        forall|i: int| 0 <= i < space.len() ==> is_line_end_space(#[trigger] space[i]),
    ensures
        trim_line(line + space) == line,
    decreases space.len(),
{
    if space.len() == 0 {
        assert(line + space =~= line);
    } else {
        assert((line + space).last() == space[space.len() - 1]);
        assert((line + space).drop_last() =~= line + space.drop_last());
        lemma_trimmed_off(line, space.drop_last());
    }
}

/// A tag tells texts apart by everything but the blanks, tabs and carriage returns at the ends
/// of their lines: the text that is hashed is the text without these, and nothing else of a
/// line is dropped, neither an empty line nor what stands at the beginning of one.
pub proof fn law_tagged_text(ls: Seq<Seq<char>>, spaces: Seq<Seq<char>>)
    requires
        ls.len() > 0,
        ls.len() == spaces.len(),
        forall|i: int|
            0 <= i < ls.len() ==> !(#[trigger] ls[i]).contains('\n') && (ls[i].len() == 0 || !(
            ls[i].last() == ' ' || ls[i].last() == '\t' || ls[i].last() == '\r')),
        forall|i: int, j: int|
            0 <= i < spaces.len() && 0 <= j < spaces[i].len() ==> (#[trigger] spaces[i][j] == ' '
                || spaces[i][j] == '\t' || spaces[i][j] == '\r'),
    ensures
        normalized(text::unlines(Seq::new(ls.len(), |i: int| ls[i] + spaces[i]))) == text::unlines(
            ls,
        ),
        tag(text::unlines(Seq::new(ls.len(), |i: int| ls[i] + spaces[i]))) == tag(
            text::unlines(ls),
        ),
{
    let all = Seq::new(ls.len(), |i: int| ls[i] + spaces[i]);
    assert forall|i: int| 0 <= i < all.len() implies !(#[trigger] all[i]).contains('\n') by {
        assert forall|j: int| 0 <= j < all[i].len() implies all[i][j] != '\n' by {
            if j < ls[i].len() {
                assert(ls[i].contains(ls[i][j]));
            } else {
                assert(all[i][j] == spaces[i][j - ls[i].len()]);
            }
        }
    }
    text::law_split_join(all, '\n');
    assert forall|i: int| 0 <= i < ls.len() implies trim_line(#[trigger] all[i]) == ls[i] by {
        assert(!ls[i].contains('\n'));
        assert forall|j: int| 0 <= j < spaces[i].len() implies is_line_end_space(
            #[trigger] spaces[i][j],
        ) by {}
        lemma_trimmed_off(ls[i], spaces[i]);
    }
    assert(all.map_values(|l: Seq<char>| trim_line(l)) =~= ls);
    law_normalized_idempotent(text::unlines(all));
}

/// How a file and a line are written: the path and the tag of a file with `#` between them, in
/// brackets; the number of a line, a colon and the line.
pub proof fn law_written_forms(path: Seq<char>, hash: Seq<char>, n: nat, line: Seq<char>)
    ensures
        header(path, hash) == seq!['['] + path + seq!['#'] + hash + seq![']'],
        numbered(n, line) == numbers::dec(n) + seq![':'] + line,
{
    reveal_strlit("[");
    reveal_strlit("]");
    assert("["@ =~= seq!['[']);
    assert("]"@ =~= seq![']']);
}

} // verus!
