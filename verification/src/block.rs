//! Block resolution: deferred block edits (`SWAP.BLK N:` / `DEL.BLK N` /
//! `INS.BLK.POST N:`) become concrete inserts and deletes.

use vstd::prelude::*;

use crate::errors::PatchError;
use crate::messages;
use crate::messages::{
    block_single_line_message, block_unresolved_message, insert_after_block_closer_lowered_warning,
    insert_after_block_unresolved_lowered_warning, BLOCK_RESOLVER_UNAVAILABLE,
};
use crate::numbers;
use crate::parser;
use crate::text;
use crate::types::{
    Anchor, BlockMode, BlockOp, BlockResolution, BlockResolver, BlockResolverRequest, BlockSpan,
    Cursor, Edit, EditView, InsertMode, ParsedRange,
};
use crate::views;

verus! {

broadcast use {crate::views::group_all, crate::views::group_texts};

/// How to handle a replace/delete block edit that cannot be resolved.
#[derive(Debug, Clone, Copy, PartialEq, Eq, Structural)]
pub enum OnUnresolved {
    /// Fail.
    Throw,
    /// Silently skip the edit.
    Drop,
}

impl Default for OnUnresolved {
    fn default() -> (r: Self)
        ensures
            r == OnUnresolved::Throw,
    {
        OnUnresolved::Throw
    }
}

/// Options for `resolve_block_edits`, and where it reports.
pub struct ResolveBlockEditsOptions {
    /// How to handle an unresolvable replace/delete block edit.
    pub on_unresolved: OnUnresolved,
    /// Receives each resolution.
    pub resolutions: Vec<BlockResolution>,
    /// Receives each diagnostic warning.
    pub warnings: Vec<String>,
}

impl Default for ResolveBlockEditsOptions {
    fn default() -> (r: Self)
        ensures
            r.on_unresolved == OnUnresolved::Throw,
            r.resolutions@.len() == 0,
            r.warnings@.len() == 0,
    {
        ResolveBlockEditsOptions {
            on_unresolved: OnUnresolved::Throw,
            resolutions: Vec::new(),
            warnings: Vec::new(),
        }
    }
}

/// Some edit is a block edit.
pub open spec fn any_block(edits: Seq<EditView>) -> bool {
    crate::apply::has_block(edits)
}

/// True when at least one edit is an unresolved deferred block edit.
pub fn has_block_edit(edits: &[Edit]) -> (r: bool)
    ensures
        r == any_block(views::all(edits@)),
{
    crate::apply::contains_block(edits)
}

/// One of the characters `)`, `]`, `}`, `;` and `,`.
pub open spec fn is_closing_char(c: char) -> bool {
    c == ')' || c == ']' || c == '}' || c == ';' || c == ','
}

/// A line of nothing but closing delimiters, semicolons and commas.
pub open spec fn is_closing_line(s: Seq<char>) -> bool {
    let t = text::trim(s);
    t.len() > 0 && forall|i: int| 0 <= i < t.len() ==> is_closing_char(#[trigger] t[i])
}

/// See [`is_closing_line`].
pub fn is_structural_closer(s: &str) -> (r: bool)
    ensures
        r == is_closing_line(s@),
{
    let t = text::trimmed(s);
    let v = text::chars_of(t.as_str());
    if v.len() == 0 {
        return false;
    }
    for i in 0..v.len()
        invariant
            v@ == text::trim(s@),
            forall|j: int| 0 <= j < i ==> is_closing_char(#[trigger] v@[j]),
    {
        let c = v[i];
        if !(c == ')' || c == ']' || c == '}' || c == ';' || c == ',') {
            assert(!is_closing_char(v@[i as int]));
            return false;
        }
    }
    true
}

/// The operation of a block edit.
pub open spec fn op_of(mode: BlockMode) -> BlockOp {
    match mode {
        BlockMode::Replace => BlockOp::Replace,
        BlockMode::Delete => BlockOp::Delete,
        BlockMode::InsertAfter => BlockOp::InsertAfter,
    }
}

/// See [`op_of`].
pub fn mode_to_op(mode: BlockMode) -> (r: BlockOp)
    ensures
        r == op_of(mode),
{
    match mode {
        BlockMode::Replace => BlockOp::Replace,
        BlockMode::Delete => BlockOp::Delete,
        BlockMode::InsertAfter => BlockOp::InsertAfter,
    }
}

/// What resolving a list of edits has brought so far.
#[verifier::ext_equal]
pub struct ResolvedView {
    pub edits: Seq<EditView>,
    pub resolutions: Seq<BlockResolution>,
    pub warnings: Seq<Seq<char>>,
    /// The first failure; nothing is resolved after it.
    pub error: Option<Seq<char>>,
}

/// Why a block edit without a span fails.
pub open spec fn unresolved_reason(
    line: u32,
    op: BlockOp,
    has_resolver: bool,
    lines: Seq<Seq<char>>,
) -> Seq<char> {
    if has_resolver {
        messages::unresolved_block(line, op, messages::line_context(line, Some(lines)))
    } else {
        BLOCK_RESOLVER_UNAVAILABLE@
    }
}

/// A block edit for which the resolver found `span`.
///
/// Without a span, `INS.BLK.POST N:` becomes `INS.POST N:`, and the others fail or are
/// dropped. A span of one line is taken for a mistake and fails or is dropped. Otherwise
/// the insertion goes behind the span, or the span gives way to the payload.
pub open spec fn block_resolved(
    st: ResolvedView,
    anchor: Anchor,
    payloads: Seq<Seq<char>>,
    mode: BlockMode,
    span: Option<BlockSpan>,
    has_resolver: bool,
    on_unresolved: OnUnresolved,
    lines: Seq<Seq<char>>,
) -> ResolvedView {
    let line = anchor.line;
    match span {
        None => if mode == BlockMode::InsertAfter {
            ResolvedView {
                edits: st.edits + parser::inserts(
                    Cursor::AfterAnchor(anchor),
                    payloads,
                    InsertMode::Insert,
                ),
                warnings: st.warnings.push(
                    if 1 <= line <= lines.len() && is_closing_line(lines[line - 1]) {
                        messages::closer_lowered(line)
                    } else {
                        messages::unresolved_lowered(line)
                    },
                ),
                ..st
            }
        } else if on_unresolved == OnUnresolved::Drop {
            st
        } else {
            ResolvedView {
                error: Some(
                    parser::at_line(
                        line as usize,
                        unresolved_reason(line, op_of(mode), has_resolver, lines),
                    ),
                ),
                ..st
            }
        },
        Some(s) => if s.start == s.end {
            if on_unresolved == OnUnresolved::Drop {
                st
            } else {
                ResolvedView {
                    error: Some(
                        parser::at_line(
                            line as usize,
                            messages::single_line_block(line, op_of(mode)),
                        ),
                    ),
                    ..st
                }
            }
        } else {
            ResolvedView {
                edits: st.edits + (if mode == BlockMode::InsertAfter {
                    parser::inserts(
                        Cursor::AfterAnchor(Anchor { line: s.end }),
                        payloads,
                        InsertMode::Insert,
                    )
                } else {
                    parser::inserts(
                        Cursor::BeforeAnchor(Anchor { line: s.start }),
                        payloads,
                        InsertMode::Replacement,
                    ) + parser::range_deletes(ParsedRange { start: s.start, end: s.end })
                }),
                resolutions: st.resolutions.push(
                    BlockResolution {
                        anchor_line: line,
                        start: s.start,
                        end: s.end,
                        op: op_of(mode),
                    },
                ),
                ..st
            }
        },
    }
}

/// A list of edits resolved one after the other; `spans` holds what the resolver found
/// for each block edit. Other edits pass through untouched.
pub open spec fn resolved(
    init: ResolvedView,
    edits: Seq<EditView>,
    spans: Seq<Option<BlockSpan>>,
    has_resolver: bool,
    on_unresolved: OnUnresolved,
    lines: Seq<Seq<char>>,
) -> ResolvedView
    decreases edits.len(),
{
    if edits.len() == 0 {
        init
    } else {
        let st = resolved(
            init,
            edits.drop_last(),
            spans.drop_last(),
            has_resolver,
            on_unresolved,
            lines,
        );
        if st.error is Some {
            st
        } else {
            match edits.last() {
                EditView::Block { anchor, payloads, mode } => block_resolved(
                    st,
                    anchor,
                    payloads,
                    mode,
                    spans.last(),
                    has_resolver,
                    on_unresolved,
                    lines,
                ),
                _ => ResolvedView { edits: st.edits.push(edits.last()), ..st },
            }
        }
    }
}

fn fail(line: u32, reason: &str) -> (r: PatchError)
    ensures
        r@ == parser::at_line(line as usize, reason@),
{
    let mut s = text::owned("line ");
    s.append(numbers::decimal(line as u64).as_str());
    s.append(": ");
    s.append(reason);
    PatchError { message: s }
}

/// The model of what a resolution run reports and returns.
pub open spec fn reported(
    out: Seq<EditView>,
    options: ResolveBlockEditsOptions,
    error: Option<Seq<char>>,
) -> ResolvedView {
    ResolvedView {
        edits: out,
        resolutions: options.resolutions@,
        warnings: views::texts(options.warnings@),
        error,
    }
}

/// A result says what a resolution run came to.
pub open spec fn same_outcome(
    r: Result<Vec<Edit>, PatchError>,
    options: ResolveBlockEditsOptions,
    want: ResolvedView,
) -> bool {
    &&& options.resolutions@ == want.resolutions
    &&& views::texts(options.warnings@) == want.warnings
    &&& match (r, want.error) {
        (Ok(v), None) => views::all(v@) == want.edits,
        (Err(e), Some(m)) => e@ == m,
        _ => false,
    }
}

/// Resolve block edits, given what the resolver found for each. See [`resolved`].
pub fn expand_block_edits(
    edits: &[Edit],
    spans: &[Option<BlockSpan>],
    has_resolver: bool,
    lines: &[String],
    options: &mut ResolveBlockEditsOptions,
) -> (r: Result<Vec<Edit>, PatchError>)
    requires
        edits@.len() == spans@.len(),
    ensures
        same_outcome(
            r,
            *final(options),
            resolved(
                reported(Seq::empty(), *old(options), None),
                views::all(edits@),
                spans@,
                has_resolver,
                old(options).on_unresolved,
                views::texts(lines@),
            ),
        ),
        final(options).on_unresolved == old(options).on_unresolved,
{
    let ghost ve = views::all(edits@);
    let ghost ls = views::texts(lines@);
    let ghost init = reported(Seq::empty(), *options, None);
    let on_unresolved = options.on_unresolved;
    let mut out: Vec<Edit> = Vec::new();
    let mut error: Option<PatchError> = None;
    assert(views::all(out@) =~= Seq::empty());
    for i in 0..edits.len()
        invariant
            edits@.len() == spans@.len(),
            ve == views::all(edits@),
            ls == views::texts(lines@),
            options.on_unresolved == on_unresolved,
            resolved(
                init,
                ve.take(i as int),
                spans@.take(i as int),
                has_resolver,
                on_unresolved,
                ls,
            ) == reported(
                views::all(out@),
                *options,
                match error {
                    Some(e) => Some(e@),
                    None => None,
                },
            ),
    {
        proof {
            views::lemma_take_step(ve, i as int);
            views::lemma_take_step(spans@, i as int);
            assert(ve[i as int] == edits@[i as int]@);
        }
        if error.is_none() {
            match &edits[i] {
                Edit::Block { anchor, payloads, mode } => {
                    let line = anchor.line;
                    let after = match mode {
                        BlockMode::InsertAfter => true,
                        _ => false,
                    };
                    match spans[i] {
                        None => {
                            if after {
                                let closer = 1 <= line && line as usize <= lines.len()
                                    && is_structural_closer(lines[line as usize - 1].as_str());
                                proof {
                                    if 1 <= line <= ls.len() {
                                        assert(ls[line - 1] == lines@[line - 1]@);
                                    }
                                    assert(ls.len() == lines@.len());
                                }
                                if closer {
                                    options.warnings.push(
                                        insert_after_block_closer_lowered_warning(line),
                                    );
                                } else {
                                    options.warnings.push(
                                        insert_after_block_unresolved_lowered_warning(line),
                                    );
                                }
                                parser::emit_payload_rows(
                                    &mut out,
                                    Cursor::AfterAnchor(*anchor),
                                    payloads.as_slice(),
                                    InsertMode::Insert,
                                );
                            } else {
                                match on_unresolved {
                                    OnUnresolved::Drop => {},
                                    OnUnresolved::Throw => {
                                        let reason = if has_resolver {
                                            block_unresolved_message(
                                                line,
                                                mode_to_op(*mode),
                                                Some(lines),
                                            )
                                        } else {
                                            text::owned(BLOCK_RESOLVER_UNAVAILABLE)
                                        };
                                        error = Some(fail(line, reason.as_str()));
                                    },
                                }
                            }
                        },
                        Some(s) => {
                            if s.start == s.end {
                                match on_unresolved {
                                    OnUnresolved::Drop => {},
                                    OnUnresolved::Throw => {
                                        let reason = block_single_line_message(
                                            line,
                                            mode_to_op(*mode),
                                        );
                                        error = Some(fail(line, reason.as_str()));
                                    },
                                }
                            } else {
                                let ghost before = views::all(out@);
                                let ghost ps = views::texts(payloads@);
                                options.resolutions.push(
                                    BlockResolution {
                                        anchor_line: line,
                                        start: s.start,
                                        end: s.end,
                                        op: mode_to_op(*mode),
                                    },
                                );
                                if after {
                                    parser::emit_payload_rows(
                                        &mut out,
                                        Cursor::AfterAnchor(Anchor { line: s.end }),
                                        payloads.as_slice(),
                                        InsertMode::Insert,
                                    );
                                } else {
                                    let range = ParsedRange { start: s.start, end: s.end };
                                    parser::emit_payload_rows(
                                        &mut out,
                                        Cursor::BeforeAnchor(Anchor { line: s.start }),
                                        payloads.as_slice(),
                                        InsertMode::Replacement,
                                    );
                                    parser::push_range_deletes(&mut out, &range);
                                    proof {
                                        let ins = parser::inserts(
                                            Cursor::BeforeAnchor(Anchor { line: s.start }),
                                            ps,
                                            InsertMode::Replacement,
                                        );
                                        assert(views::all(out@) =~= before + (ins
                                            + parser::range_deletes(range)));
                                    }
                                }
                            }
                        },
                    }
                },
                _ => {
                    out.push(edits[i].copy());
                },
            }
        }
    }
    proof {
        views::lemma_take_all(ve);
        views::lemma_take_all(spans@);
    }
    match error {
        Some(e) => Err(e),
        None => Ok(out),
    }
}

/// The request for the block on a line of a text.
pub open spec fn is_request(
    request: BlockResolverRequest,
    code: Seq<char>,
    path: Seq<char>,
    line: u32,
) -> bool {
    &&& request.code@ == code
    &&& request.lang is None
    &&& views::opt_text(request.path) == Some(path)
    &&& request.line == line
}

/// `span` is what the resolver may answer for the block on a line; without a resolver
/// there is no span.
pub open spec fn is_answer<R: BlockResolver>(
    resolver: Option<&R>,
    code: Seq<char>,
    path: Seq<char>,
    line: u32,
    span: Option<BlockSpan>,
) -> bool {
    match resolver {
        None => span is None,
        Some(r) => exists|q: BlockResolverRequest|
            is_request(q, code, path, line) && #[trigger] call_ensures(R::resolve, (r, &q), span),
    }
}

/// `spans` holds what the resolver may answer for each block edit.
pub open spec fn are_answers<R: BlockResolver>(
    resolver: Option<&R>,
    code: Seq<char>,
    path: Seq<char>,
    edits: Seq<EditView>,
    spans: Seq<Option<BlockSpan>>,
) -> bool {
    &&& spans.len() == edits.len()
    &&& forall|i: int|
        0 <= i < edits.len() ==> match #[trigger] edits[i] {
            EditView::Block { anchor, .. } => is_answer(
                resolver,
                code,
                path,
                anchor.line,
                spans[i],
            ),
            _ => spans[i] is None,
        }
}

fn ask<R: BlockResolver>(
    edits: &[Edit],
    code: &str,
    path: &str,
    resolver: Option<&R>,
) -> (r: Vec<Option<BlockSpan>>)
    ensures
        are_answers(resolver, code@, path@, views::all(edits@), r@),
{
    let ghost ve = views::all(edits@);
    let mut spans: Vec<Option<BlockSpan>> = Vec::new();
    for i in 0..edits.len()
        invariant
            ve == views::all(edits@),
            spans@.len() == i,
            forall|j: int|
                0 <= j < i ==> match #[trigger] ve[j] {
                    EditView::Block { anchor, .. } => is_answer(
                        resolver,
                        code@,
                        path@,
                        anchor.line,
                        spans@[j],
                    ),
                    _ => spans@[j] is None,
                },
    {
        assert(ve[i as int] == edits@[i as int]@);
        let span = match &edits[i] {
            Edit::Block { anchor, payloads, mode } => match resolver {
                None => None,
                Some(r) => {
                    let request = BlockResolverRequest {
                        code: text::owned(code),
                        lang: None,
                        path: Some(text::owned(path)),
                        line: anchor.line,
                    };
                    let answer = r.resolve(&request);
                    assert(is_request(request, code@, path@, anchor.line));
                    assert(call_ensures(R::resolve, (r, &request), answer));
                    answer
                },
            },
            _ => None,
        };
        spans.push(span);
    }
    spans
}

/// Resolve every deferred block edit in `edits` against `text`. Non-block edits pass
/// through untouched.
///
/// The inserts and deletes are those of the concrete forms:
/// - `SWAP.BLK N:` gives one replacement insert per payload in front of the span, then
///   one delete per line of the span.
/// - `DEL.BLK N` gives one delete per line of the span.
/// - `INS.BLK.POST N:` gives one insert per payload behind the span.
///
/// Fails when a block edit cannot be resolved, unless `options` has it dropped.
pub fn resolve_block_edits<R: BlockResolver>(
    edits: Vec<Edit>,
    text: &str,
    path: &str,
    resolver: Option<&R>,
    options: &mut ResolveBlockEditsOptions,
) -> (r: Result<Vec<Edit>, PatchError>)
    ensures
        exists|spans: Seq<Option<BlockSpan>>| #[trigger]
            are_answers(resolver, text@, path@, views::all(edits@), spans) && same_outcome(
                r,
                *final(options),
                resolved(
                    reported(Seq::empty(), *old(options), None),
                    views::all(edits@),
                    spans,
                    resolver is Some,
                    old(options).on_unresolved,
                    crate::text::lines(text@),
                ),
            ),
        final(options).on_unresolved == old(options).on_unresolved,
{
    let spans = ask(edits.as_slice(), text, path, resolver);
    let lines = crate::text::lines_of(text);
    assert(views::all(edits@).len() == edits@.len());
    expand_block_edits(
        edits.as_slice(),
        spans.as_slice(),
        resolver.is_some(),
        lines.as_slice(),
        options,
    )
}

// ── Laws ─────────────────────────────────────────────────────────────────

/// Edits without block edits pass through resolution untouched and unreported.
pub proof fn law_resolved_passthrough(
    init: ResolvedView,
    edits: Seq<EditView>,
    spans: Seq<Option<BlockSpan>>,
    has_resolver: bool,
    on_unresolved: OnUnresolved,
    lines: Seq<Seq<char>>,
)
    requires
        !any_block(edits),
        spans.len() == edits.len(),
        init.error is None,
    ensures
        resolved(init, edits, spans, has_resolver, on_unresolved, lines) == (ResolvedView {
            edits: init.edits + edits,
            ..init
        }),
    decreases edits.len(),
{
    if edits.len() > 0 {
        let rest = edits.drop_last();
        assert(!any_block(rest)) by {
            assert forall|i: int| 0 <= i < rest.len() implies !((#[trigger] rest[i]) is Block) by {
                assert(rest[i] == edits[i]);
            }
        }
        law_resolved_passthrough(init, rest, spans.drop_last(), has_resolver, on_unresolved, lines);
        assert(!(edits[edits.len() - 1] is Block));
        assert((init.edits + rest).push(edits.last()) =~= init.edits + edits);
    } else {
        assert(init.edits + edits =~= init.edits);
    }
}

/// Resolution leaves no block edit behind.
pub proof fn law_resolved_concrete(
    init: ResolvedView,
    edits: Seq<EditView>,
    spans: Seq<Option<BlockSpan>>,
    has_resolver: bool,
    on_unresolved: OnUnresolved,
    lines: Seq<Seq<char>>,
)
    requires
        !any_block(init.edits),
    ensures
        !any_block(resolved(init, edits, spans, has_resolver, on_unresolved, lines).edits),
    decreases edits.len(),
{
    if edits.len() > 0 {
        law_resolved_concrete(
            init,
            edits.drop_last(),
            spans.drop_last(),
            has_resolver,
            on_unresolved,
            lines,
        );
        let st = resolved(
            init,
            edits.drop_last(),
            spans.drop_last(),
            has_resolver,
            on_unresolved,
            lines,
        );
        let after = resolved(init, edits, spans, has_resolver, on_unresolved, lines);
        assert forall|i: int| 0 <= i < after.edits.len() implies !((#[trigger] after.edits[i]) is Block) by {
            if i < st.edits.len() {
                assert(after.edits[i] == st.edits[i]);
            }
        }
    }
}

/// What an edit of a block stands for, once it is known which lines the block spans.
pub open spec fn edits_of_span(
    payloads: Seq<Seq<char>>,
    mode: BlockMode,
    start: u32,
    end: u32,
) -> Seq<EditView> {
    match mode {
        BlockMode::InsertAfter => Seq::new(
            payloads.len(),
            |i: int|
                EditView::Insert {
                    cursor: Cursor::AfterAnchor(Anchor { line: end }),
                    text: payloads[i],
                    mode: InsertMode::Insert,
                },
        ),
        _ => Seq::new(
            payloads.len(),
            |i: int|
                EditView::Insert {
                    cursor: Cursor::BeforeAnchor(Anchor { line: start }),
                    text: payloads[i],
                    mode: InsertMode::Replacement,
                },
        ) + Seq::new(
            (end - start + 1) as nat,
            |i: int| EditView::Delete { anchor: Anchor { line: (start + i) as u32 } },
        ),
    }
}

/// What each edit of a list stands for, given the spans of the blocks among them.
pub open spec fn meant(edits: Seq<EditView>, spans: Seq<Option<BlockSpan>>) -> Seq<EditView> {
    Seq::new(
        edits.len(),
        |i: int|
            match edits[i] {
                EditView::Block { anchor, payloads, mode } => edits_of_span(
                    payloads,
                    mode,
                    spans[i]->0.start,
                    spans[i]->0.end,
                ),
                _ => seq![edits[i]],
            },
    ).flatten()
}

/// Where every block is found and spans more than a line, the edits mean what they say of the
/// lines that the blocks span, in order: a block that is replaced is the range of its lines, a
/// block that is deleted too, and what goes behind a block goes behind its last line. Every
/// other edit stays as it is. Nothing is warned of.
pub proof fn law_blocks_resolved(
    edits: Seq<EditView>,
    spans: Seq<Option<BlockSpan>>,
    has_resolver: bool,
    on_unresolved: OnUnresolved,
    lines: Seq<Seq<char>>,
)
    requires
        spans.len() == edits.len(),
        forall|i: int|
            0 <= i < edits.len() && (#[trigger] edits[i]) is Block ==> (spans[i] matches Some(s)
                && s.start < s.end),
    ensures
        ({
            let none = ResolvedView {
                edits: Seq::empty(),
                resolutions: Seq::empty(),
                warnings: Seq::empty(),
                error: None,
            };
            let r = resolved(none, edits, spans, has_resolver, on_unresolved, lines);
            &&& r.error is None
            &&& r.warnings.len() == 0
            &&& r.edits == meant(edits, spans)
        }),
    decreases edits.len(),
{
    let none = ResolvedView {
        edits: Seq::empty(),
        resolutions: Seq::empty(),
        warnings: Seq::empty(),
        error: None,
    };
    let f = |i: int|
        match edits[i] {
            EditView::Block { anchor, payloads, mode } => edits_of_span(
                payloads,
                mode,
                spans[i]->0.start,
                spans[i]->0.end,
            ),
            _ => seq![edits[i]],
        };
    let parts = Seq::new(edits.len(), f);
    parts.lemma_flatten_and_flatten_alt_are_equivalent();
    if edits.len() == 0 {
        assert(meant(edits, spans) =~= Seq::empty());
    } else {
        let rest = edits.drop_last();
        let rest_spans = spans.drop_last();
        assert forall|i: int| 0 <= i < rest.len() && (#[trigger] rest[i]) is Block implies (
        rest_spans[i] matches Some(s) && s.start < s.end) by {
            assert(rest[i] == edits[i]);
            assert(edits[i] is Block);
        }
        law_blocks_resolved(rest, rest_spans, has_resolver, on_unresolved, lines);
        let st = resolved(none, rest, rest_spans, has_resolver, on_unresolved, lines);
        let before = Seq::new(
            rest.len(),
            |i: int|
                match rest[i] {
                    EditView::Block { anchor, payloads, mode } => edits_of_span(
                        payloads,
                        mode,
                        rest_spans[i]->0.start,
                        rest_spans[i]->0.end,
                    ),
                    _ => seq![rest[i]],
                },
        );
        before.lemma_flatten_and_flatten_alt_are_equivalent();
        assert(parts.drop_last() =~= before);
        assert(parts.last() == f(edits.len() - 1));
        let last = edits[edits.len() - 1];
        match last {
            EditView::Block { anchor, payloads, mode } => {
                let s = spans[edits.len() - 1]->0;
                assert(edits[edits.len() - 1] is Block);
                if mode == BlockMode::InsertAfter {
                    assert(parser::inserts(
                        Cursor::AfterAnchor(Anchor { line: s.end }),
                        payloads,
                        InsertMode::Insert,
                    ) =~= edits_of_span(payloads, mode, s.start, s.end));
                } else {
                    assert(parser::inserts(
                        Cursor::BeforeAnchor(Anchor { line: s.start }),
                        payloads,
                        InsertMode::Replacement,
                    ) + parser::range_deletes(ParsedRange { start: s.start, end: s.end })
                        =~= edits_of_span(payloads, mode, s.start, s.end));
                }
            },
            _ => {
                assert(st.edits.push(last) =~= st.edits + seq![last]);
            },
        }
    }
}

/// A block that is not found: what was to go behind it goes behind the line that was named,
/// with a warning; to replace or delete it is a failure, or is passed over where that is asked
/// for. A block of a single line is no block either, and then nothing goes behind it.
pub proof fn law_block_not_found(
    st: ResolvedView,
    anchor: Anchor,
    payloads: Seq<Seq<char>>,
    mode: BlockMode,
    has_resolver: bool,
    on_unresolved: OnUnresolved,
    lines: Seq<Seq<char>>,
)
    ensures
        ({
            let r = block_resolved(
                st,
                anchor,
                payloads,
                mode,
                None,
                has_resolver,
                on_unresolved,
                lines,
            );
            if mode == BlockMode::InsertAfter {
                &&& r.error == st.error
                &&& r.warnings.len() == st.warnings.len() + 1
                &&& r.resolutions == st.resolutions
                &&& r.edits == st.edits + Seq::new(
                    payloads.len(),
                    |i: int|
                        EditView::Insert {
                            cursor: Cursor::AfterAnchor(anchor),
                            text: payloads[i],
                            mode: InsertMode::Insert,
                        },
                )
            } else {
                &&& r.edits == st.edits
                &&& r.warnings == st.warnings
                &&& on_unresolved == OnUnresolved::Drop ==> r.error == st.error
                &&& on_unresolved != OnUnresolved::Drop ==> r.error is Some
            }
        }),
        forall|l: u32|
            {
                let r = #[trigger] block_resolved(
                    st,
                    anchor,
                    payloads,
                    mode,
                    Some(BlockSpan { start: l, end: l }),
                    has_resolver,
                    on_unresolved,
                    lines,
                );
                &&& r.edits == st.edits
                &&& on_unresolved == OnUnresolved::Drop ==> r == st
                &&& on_unresolved != OnUnresolved::Drop ==> r.error is Some
            },
{
    assert(parser::inserts(Cursor::AfterAnchor(anchor), payloads, InsertMode::Insert) =~= Seq::new(
        payloads.len(),
        |i: int|
            EditView::Insert {
                cursor: Cursor::AfterAnchor(anchor),
                text: payloads[i],
                mode: InsertMode::Insert,
            },
    ));
}

} // verus!
