//! The regular expressions of the patch language.

use vstd::prelude::*;

verus! {

/// A line that is nothing but closing delimiters: `}`, `)`, `];`, `})`, `},`.
pub const STRUCTURAL_CLOSER_PATTERN: &'static str = r"^\s*[)\]}]+[;,]?\s*$";

/// A JSX/XML closing boundary.
pub const JSX_CLOSER_PATTERN: &'static str = r"^\s*(?:</>|</[A-Za-z][\w.:-]*>|/>)\s*[;,]?\s*$";

/// A JSX/XML closing tag with a name, which is its first group.
pub const JSX_NAMED_CLOSER_PATTERN: &'static str = r"^\s*</([A-Za-z][\w.:-]*)>\s*[;,]?\s*$";

/// A JSX closing fragment.
pub const JSX_FRAGMENT_CLOSER_PATTERN: &'static str = r"^\s*</>\s*[;,]?\s*$";

/// A leading line number as read output shows it, with an optional marker.
pub const HL_PREFIX_PATTERN: &'static str = r"^\s*(?:>>>|>>)?\s*(?:[+*-]\s*)?\d+:";

/// A leading line number behind a `+`.
pub const HL_PREFIX_PLUS_PATTERN: &'static str = r"^\s*(?:>>>|>>)?\s*\+\s*\d+:";

/// A `[path#TAG]` header line.
pub const HL_HEADER_PATTERN: &'static str = r"^\s*\[[^#\r\n]+#[0-9a-fA-F]{4}\]\s*$";

/// Read/search truncation notice: `[Showing lines ...]` or `[N more lines in ...]`.
pub const READ_TRUNCATION_NOTICE_PATTERN: &'static str =
    r"^\[(?:Showing lines \d+-\d+ of \d+|\d+ more lines? in (?:file|\S+))\b.*\bUse :L?\d+";

/// A bare string or number literal, as a list of values holds one per line.
pub const BARE_LITERAL_VALUE_PATTERN: &'static str =
    r#"^\s*(?:"[^"]*"|'[^']*'|[-+]?\d+(?:\.\d+)?)\s*,?\s*$"#;

/// A unified-diff hunk header.
pub const UNIFIED_DIFF_HUNK_PATTERN: &'static str = r"^@@\s+[-+]?\d+,\d+\s+[-+]?\d+,\d+\s+@@";

/// A `DEL` header that ends in a colon.
pub const DEL_WITH_COLON_PATTERN: &'static str =
    r"^DEL\s+[1-9]\d*(?:\s*(?:\.\.|\.=|-|…|\s)\s*[1-9]\d*)?\s*:";

/// A line number on a line of its own.
pub const BARE_NUMBER_PATTERN: &'static str = r"^[1-9]\d*\s*$";

/// A line range without a keyword; its two numbers are its groups.
pub const BARE_RANGE_PATTERN: &'static str = r"^([1-9]\d*)\s*[-. …=]+\s*([1-9]\d*)\s*:?$";

/// A snapshot tag at the end of a header's body; the tag is its first group.
pub const TRAILING_TAG_PATTERN: &'static str = r"#([0-9A-Fa-f]{4})\s*$";

/// The patterns above.
pub open spec fn is_fixed(pattern: Seq<char>) -> bool {
    ||| pattern == STRUCTURAL_CLOSER_PATTERN@
    ||| pattern == JSX_CLOSER_PATTERN@
    ||| pattern == JSX_NAMED_CLOSER_PATTERN@
    ||| pattern == JSX_FRAGMENT_CLOSER_PATTERN@
    ||| pattern == HL_PREFIX_PATTERN@
    ||| pattern == HL_PREFIX_PLUS_PATTERN@
    ||| pattern == HL_HEADER_PATTERN@
    ||| pattern == READ_TRUNCATION_NOTICE_PATTERN@
    ||| pattern == BARE_LITERAL_VALUE_PATTERN@
    ||| pattern == UNIFIED_DIFF_HUNK_PATTERN@
    ||| pattern == DEL_WITH_COLON_PATTERN@
    ||| pattern == BARE_NUMBER_PATTERN@
    ||| pattern == BARE_RANGE_PATTERN@
    ||| pattern == TRAILING_TAG_PATTERN@
}

} // verus!
