//! What applying edits keeps: laws over the whole of [`crate::apply`].

use vstd::prelude::*;

use crate::apply;
use crate::apply::Place;
use crate::boundary;
use crate::boundary::{PassView, SlotView};
use crate::hunks;
use crate::hunks::{Group, RowEditView, RowOpView};
use crate::landing;
use crate::messages::UNRESOLVED_BLOCK_INTERNAL;
use crate::rows;
use crate::rows::RowView;
use crate::text;
use crate::types::EditView;

verus! {

// ── Boundary repair only drops edits ─────────────────────────────────────

/// Every edit of the first list is one of the second.
pub open spec fn among(a: Seq<RowEditView>, b: Seq<RowEditView>) -> bool {
    forall|i: int| 0 <= i < a.len() ==> b.contains(#[trigger] a[i])
}

proof fn lemma_among_add(a: Seq<RowEditView>, b: Seq<RowEditView>, c: Seq<RowEditView>)
    requires
        among(a, c),
        among(b, c),
    ensures
        among(a + b, c),
{
    assert forall|i: int| 0 <= i < (a + b).len() implies c.contains(#[trigger] (a + b)[i]) by {
        if i < a.len() {
            assert((a + b)[i] == a[i]);
        } else {
            assert((a + b)[i] == b[i - a.len()]);
        }
    }
}

proof fn lemma_among_subrange(edits: Seq<RowEditView>, a: int, b: int)
    requires
        0 <= a <= b <= edits.len(),
    ensures
        among(edits.subrange(a, b), edits),
{
    let s = edits.subrange(a, b);
    assert forall|i: int| 0 <= i < s.len() implies edits.contains(#[trigger] s[i]) by {
        assert(s[i] == edits[a + i]);
    }
}

proof fn lemma_echo_bounds(
    p: Seq<RowView>,
    file: Seq<RowView>,
    line: int,
    delta: crate::balance::DelimiterBalance,
    k: int,
)
    ensures
        0 <= boundary::leading_echo(p, file, line, k),
        0 <= boundary::trailing_echo(p, file, line, k),
        0 <= boundary::duplicate_suffix(p, file, line, delta, k),
        0 <= boundary::duplicate_prefix(p, file, line, delta, k),
        k >= 0 ==> boundary::leading_echo(p, file, line, k) <= k,
        k >= 0 ==> boundary::trailing_echo(p, file, line, k) <= k,
        k >= 0 ==> boundary::duplicate_suffix(p, file, line, delta, k) <= k,
        k >= 0 ==> boundary::duplicate_prefix(p, file, line, delta, k) <= k,
        k < 0 ==> boundary::leading_echo(p, file, line, k) == 0,
        k < 0 ==> boundary::trailing_echo(p, file, line, k) == 0,
        k < 0 ==> boundary::duplicate_suffix(p, file, line, delta, k) == 0,
        k < 0 ==> boundary::duplicate_prefix(p, file, line, delta, k) == 0,
    decreases k,
{
    if k > 0 {
        lemma_echo_bounds(p, file, line, delta, k - 1);
    }
}

proof fn lemma_trimmed_among(edits: Seq<RowEditView>, g: Group, leading: int, trailing: int)
    requires
        g.end() <= edits.len(),
        0 <= leading,
        0 <= trailing,
        leading + trailing <= g.inserts,
    ensures
        among(boundary::trimmed(edits, g, leading, trailing), edits),
{
    lemma_among_subrange(edits, g.start + leading, g.start + g.inserts - trailing);
    lemma_among_subrange(edits, g.start + g.inserts, g.end());
    lemma_among_add(
        edits.subrange(g.start + leading, g.start + g.inserts - trailing),
        edits.subrange(g.start + g.inserts, g.end()),
        edits,
    );
}

proof fn lemma_slot_among(edits: Seq<RowEditView>, file: Seq<RowView>, g: Group)
    requires
        g.end() <= edits.len(),
    ensures
        among(boundary::local_repair(edits, file, g).edits, edits),
{
    let p = boundary::payload(edits, g);
    let delta = boundary::group_delta(p, file, g);
    let below = boundary::least(p.len() as int, file.len() - g.end_line());
    let above = boundary::least(p.len() as int, g.line - 1);
    lemma_echo_bounds(p, file, g.end_line(), delta, below);
    lemma_echo_bounds(p, file, g.line as int, delta, above);
    let leading = boundary::leading_count(p, file, g);
    let trailing = boundary::trailing_count(p, file, g);
    let suffix = boundary::duplicate_suffix(p, file, g.end_line(), delta, below);
    let prefix = boundary::duplicate_prefix(p, file, g.line as int, delta, above);
    assert(p.len() == g.inserts);
    lemma_trimmed_among(edits, g, 0, 0);
    lemma_trimmed_among(edits, g, leading, 0);
    lemma_trimmed_among(edits, g, 0, trailing);
    lemma_trimmed_among(edits, g, prefix, 0);
    lemma_trimmed_among(edits, g, 0, suffix);
    if leading + trailing < p.len() {
        lemma_trimmed_among(edits, g, leading, trailing);
    }
}

proof fn lemma_slots_among(edits: Seq<RowEditView>, file: Seq<RowView>, i: int)
    requires
        hunks::in_bounds(edits, file.len() as int),
        edits.len() <= usize::MAX,
    ensures
        forall|k: int|
            0 <= k < boundary::slots_from(edits, file, i).len() ==> among(
                (#[trigger] boundary::slots_from(edits, file, i)[k]).edits,
                edits,
            ),
    decreases (if i < edits.len() { edits.len() - i } else { 0 }),
{
    let slots = boundary::slots_from(edits, file, i);
    if 0 <= i < edits.len() {
        match hunks::group_at(edits, i) {
            Some(g) => {
                hunks::lemma_group_fits(edits, i, file.len() as int);
                if g.end() > i {
                    lemma_slots_among(edits, file, g.end());
                    lemma_slot_among(edits, file, g);
                    let rest = boundary::slots_from(edits, file, g.end());
                    assert forall|k: int| 0 <= k < slots.len() implies among(
                        (#[trigger] slots[k]).edits,
                        edits,
                    ) by {
                        if k > 0 {
                            assert(slots[k] == rest[k - 1]);
                        }
                    }
                }
            },
            None => {
                lemma_slots_among(edits, file, i + 1);
                lemma_among_subrange(edits, i, i + 1);
                let rest = boundary::slots_from(edits, file, i + 1);
                assert forall|k: int| 0 <= k < slots.len() implies among(
                    (#[trigger] slots[k]).edits,
                    edits,
                ) by {
                    if k > 0 {
                        assert(slots[k] == rest[k - 1]);
                    }
                }
            },
        }
    }
}

proof fn lemma_sparing_among(edits: Seq<RowEditView>, from: int, to: int, all: Seq<RowEditView>)
    requires
        among(edits, all),
    ensures
        among(boundary::sparing(edits, from, to), all),
    decreases edits.len(),
{
    if edits.len() > 0 {
        let rest = edits.drop_last();
        assert forall|i: int| 0 <= i < rest.len() implies all.contains(#[trigger] rest[i]) by {
            assert(rest[i] == edits[i]);
        }
        lemma_sparing_among(rest, from, to, all);
        let s = boundary::sparing(rest, from, to);
        let last = edits[edits.len() - 1];
        assert(among(s.push(last), all)) by {
            assert forall|i: int| 0 <= i < s.push(last).len() implies all.contains(
                #[trigger] s.push(last)[i],
            ) by {
                if i < s.len() {
                    assert(s.push(last)[i] == s[i]);
                }
            }
        }
    }
}

proof fn lemma_pass_among(
    init: PassView,
    slots: Seq<SlotView>,
    all: Seq<RowEditView>,
    edits: Seq<RowEditView>,
    file: Seq<RowView>,
)
    requires
        among(init.out, edits),
        forall|k: int| 0 <= k < slots.len() ==> among((#[trigger] slots[k]).edits, edits),
    ensures
        among(boundary::pass_slots(init, slots, all, edits, file).out, edits),
    decreases slots.len(),
{
    if slots.len() > 0 {
        let rest = slots.drop_last();
        assert forall|k: int| 0 <= k < rest.len() implies among((#[trigger] rest[k]).edits, edits) by {
            assert(rest[k] == slots[k]);
        }
        lemma_pass_among(init, rest, all, edits, file);
        let st = boundary::pass_slots(init, rest, all, edits, file);
        let slot = slots[slots.len() - 1];
        lemma_among_add(st.out, slot.edits, edits);
        match slot.candidate {
            Some((g, delta)) => {
                match boundary::dropped_closers(
                    boundary::payload(edits, g),
                    all,
                    file,
                    st.deleted,
                    g,
                    delta,
                    st.remaining,
                    boundary::deleted_prefix_balance(all, file, st.deleted, g),
                ) {
                    Some(k) => {
                        let spared = boundary::sparing(
                            slot.edits,
                            k.from as int,
                            k.from + k.count,
                        );
                        lemma_sparing_among(slot.edits, k.from as int, k.from + k.count, edits);
                        lemma_among_add(st.out, spared, edits);
                    },
                    None => {},
                }
            },
            None => {},
        }
    }
}

/// Boundary repair only drops edits: it makes none up and changes none.
pub proof fn law_repair_only_drops(edits: Seq<RowEditView>, file: Seq<RowView>)
    requires
        hunks::in_bounds(edits, file.len() as int),
        edits.len() <= usize::MAX,
    ensures
        among(boundary::boundaries_repaired(edits, file).0, edits),
{
    let slots = boundary::slots_from(edits, file, 0);
    let all = boundary::projected(slots);
    let init = PassView {
        out: Seq::empty(),
        warnings: Seq::empty(),
        deleted: boundary::deleted_flags(all, file.len() as int),
        remaining: boundary::total_delta(slots, file),
    };
    lemma_slots_among(edits, file, 0);
    lemma_pass_among(init, slots, all, edits, file);
}

// ── Lines that no edit deletes are kept ──────────────────────────────────

/// `f` says where the items of the first list stand in the second, in order.
pub open spec fn is_embedding(f: Seq<int>, a: Seq<Seq<char>>, b: Seq<Seq<char>>) -> bool {
    &&& f.len() == a.len()
    &&& forall|i: int|
        0 <= i < f.len() ==> 0 <= #[trigger] f[i] < b.len() && a[i] == b[f[i]]
    &&& forall|i: int, j: int| 0 <= i < j < f.len() ==> #[trigger] f[i] < #[trigger] f[j]
}

/// The first list stands in the second, in order, perhaps with other items in between.
pub open spec fn is_within(a: Seq<Seq<char>>, b: Seq<Seq<char>>) -> bool {
    exists|f: Seq<int>| is_embedding(f, a, b)
}

/// An edit deletes a line.
pub open spec fn is_named(edits: Seq<EditView>, line: int) -> bool {
    exists|i: int|
        0 <= i < edits.len() && match #[trigger] edits[i] {
            EditView::Delete { anchor } => anchor.line == line,
            _ => false,
        }
}

/// Those of the first `n` lines that have text in them and that no edit deletes.
pub open spec fn surviving(lines: Seq<Seq<char>>, edits: Seq<EditView>, n: int) -> Seq<Seq<char>>
    decreases n,
{
    if n <= 0 {
        Seq::empty()
    } else {
        let rest = surviving(lines, edits, n - 1);
        if lines[n - 1].len() > 0 && !is_named(edits, n) {
            rest.push(lines[n - 1])
        } else {
            rest
        }
    }
}

proof fn lemma_within_more(a: Seq<Seq<char>>, b: Seq<Seq<char>>, c: Seq<Seq<char>>)
    requires
        is_within(a, b),
    ensures
        is_within(a, b + c),
{
    let f = choose|f: Seq<int>| is_embedding(f, a, b);
    assert forall|i: int| 0 <= i < f.len() implies 0 <= #[trigger] f[i] < (b + c).len() && a[i] == (b
        + c)[f[i]] by {
        assert((b + c)[f[i]] == b[f[i]]);
    }
    assert(is_embedding(f, a, b + c));
}

proof fn lemma_within_behind(a: Seq<Seq<char>>, b: Seq<Seq<char>>, c: Seq<Seq<char>>)
    requires
        is_within(a, b),
    ensures
        is_within(a, c + b),
{
    let f = choose|f: Seq<int>| is_embedding(f, a, b);
    let g = f.map_values(|x: int| x + c.len());
    assert forall|i: int| 0 <= i < g.len() implies 0 <= #[trigger] g[i] < (c + b).len() && a[i] == (c
        + b)[g[i]] by {
        assert(0 <= f[i] < b.len() && a[i] == b[f[i]]);
        assert((c + b)[g[i]] == b[f[i]]);
    }
    assert forall|i: int, j: int| 0 <= i < j < g.len() implies #[trigger] g[i] < #[trigger] g[j] by {
        assert(f[i] < f[j]);
    }
    assert(is_embedding(g, a, c + b));
}

proof fn lemma_within_push(
    a: Seq<Seq<char>>,
    b: Seq<Seq<char>>,
    before: Seq<Seq<char>>,
    x: Seq<char>,
    after: Seq<Seq<char>>,
)
    requires
        is_within(a, b),
    ensures
        is_within(a.push(x), b + (before + seq![x] + after)),
{
    let f = choose|f: Seq<int>| is_embedding(f, a, b);
    let at = (b.len() + before.len()) as int;
    let g = f.push(at);
    let all = b + (before + seq![x] + after);
    assert forall|i: int| 0 <= i < g.len() implies 0 <= #[trigger] g[i] < all.len() && a.push(x)[i]
        == all[g[i]] by {
        if i < f.len() {
            assert(0 <= f[i] < b.len() && a[i] == b[f[i]]);
            assert(all[f[i]] == b[f[i]]);
        } else {
            assert(all[at] == (before + seq![x] + after)[before.len() as int]);
            assert((before + seq![x] + after)[before.len() as int] == x);
        }
    }
    assert forall|i: int, j: int| 0 <= i < j < g.len() implies #[trigger] g[i] < #[trigger] g[j] by {
        if j == f.len() {
            assert(0 <= f[i] < b.len());
        } else {
            assert(f[i] < f[j]);
        }
    }
    assert(is_embedding(g, a.push(x), all));
}

proof fn lemma_within_drop_empty(a: Seq<Seq<char>>, b: Seq<Seq<char>>)
    requires
        is_within(a, b),
        b.len() > 0,
        b.last().len() == 0,
        forall|i: int| 0 <= i < a.len() ==> (#[trigger] a[i]).len() > 0,
    ensures
        is_within(a, b.drop_last()),
{
    let f = choose|f: Seq<int>| is_embedding(f, a, b);
    assert forall|i: int| 0 <= i < f.len() implies 0 <= #[trigger] f[i] < b.drop_last().len() && a[i]
        == b.drop_last()[f[i]] by {
        assert(0 <= f[i] < b.len() && a[i] == b[f[i]]);
        assert(a[i].len() > 0);
    }
    assert(is_embedding(f, a, b.drop_last()));
}

proof fn lemma_surviving(lines: Seq<Seq<char>>, edits: Seq<EditView>, n: int)
    requires
        n <= lines.len(),
    ensures
        forall|i: int|
            0 <= i < surviving(lines, edits, n).len() ==> (#[trigger] surviving(
                lines,
                edits,
                n,
            )[i]).len() > 0,
    decreases n,
{
    if n > 0 {
        lemma_surviving(lines, edits, n - 1);
        let rest = surviving(lines, edits, n - 1);
        let all = surviving(lines, edits, n);
        assert forall|i: int| 0 <= i < all.len() implies (#[trigger] all[i]).len() > 0 by {
            if i < rest.len() {
                assert(all[i] == rest[i]);
            }
        }
    }
}

proof fn lemma_surviving_within(lines: Seq<Seq<char>>, edits: Seq<EditView>, n: int)
    requires
        0 <= n <= lines.len(),
    ensures
        is_within(surviving(lines, edits, n), lines.take(n)),
    decreases n,
{
    if n == 0 {
        assert(is_embedding(Seq::empty(), surviving(lines, edits, n), lines.take(n)));
    } else {
        lemma_surviving_within(lines, edits, n - 1);
        let rest = surviving(lines, edits, n - 1);
        let x = lines[n - 1];
        let none: Seq<Seq<char>> = Seq::empty();
        assert(lines.take(n) =~= lines.take(n - 1) + (none + seq![x] + none));
        lemma_within_push(rest, lines.take(n - 1), none, x, none);
        lemma_within_more(rest, lines.take(n - 1), none + seq![x] + none);
    }
}

proof fn lemma_rendered_keeps(
    done: Seq<RowEditView>,
    file: Seq<RowView>,
    lines: Seq<Seq<char>>,
    edits: Seq<EditView>,
    n: int,
)
    requires
        0 <= n <= lines.len(),
        file.len() == lines.len(),
        forall|i: int| 0 <= i < lines.len() ==> (#[trigger] file[i]).text == lines[i],
        forall|line: int| #[trigger] apply::is_deleted(done, line) ==> is_named(edits, line),
    ensures
        is_within(surviving(lines, edits, n), apply::rendered(done, file, n)),
    decreases n,
{
    let now = apply::rendered(done, file, n);
    if n == 0 {
        assert(is_embedding(Seq::empty(), surviving(lines, edits, n), now));
    } else {
        lemma_rendered_keeps(done, file, lines, edits, n - 1);
        let rest = surviving(lines, edits, n - 1);
        let top = apply::rendered(done, file, n - 1);
        let before = apply::inserted(done, Place::Before, n) + apply::inserted(
            done,
            Place::Instead,
            n,
        );
        let after = apply::inserted(done, Place::After, n);
        let x = lines[n - 1];
        assert(file[n - 1].text == x);
        if x.len() > 0 && !is_named(edits, n) {
            assert(!apply::is_deleted(done, n));
            lemma_within_push(rest, top, before, x, after);
            assert(now =~= top + (before + seq![x] + after));
        } else {
            lemma_within_more(rest, top, apply::rendered_line(done, file, n));
        }
    }
}

proof fn lemma_render_keeps(
    done: Seq<RowEditView>,
    file: Seq<RowView>,
    lines: Seq<Seq<char>>,
    edits: Seq<EditView>,
)
    requires
        file.len() == lines.len(),
        forall|i: int| 0 <= i < lines.len() ==> (#[trigger] file[i]).text == lines[i],
        forall|line: int| #[trigger] apply::is_deleted(done, line) ==> is_named(edits, line),
    ensures
        is_within(surviving(lines, edits, lines.len() as int), apply::render(done, file)),
{
    let s = surviving(lines, edits, lines.len() as int);
    let body = apply::rendered(done, file, file.len() as int);
    let head = apply::inserted(done, Place::Head, 0);
    let tail = apply::inserted(done, Place::Tail, 0);
    let topped = apply::with_head(body, head);
    lemma_rendered_keeps(done, file, lines, edits, lines.len() as int);
    lemma_surviving(lines, edits, lines.len() as int);
    let none: Seq<Seq<char>> = Seq::empty();
    // In front.
    if head.len() > 0 && apply::is_void(body) {
        lemma_within_drop_empty(s, body);
        assert(body.drop_last() =~= none);
        lemma_within_more(s, none, head);
        assert(none + head =~= head);
    } else {
        lemma_within_behind(s, body, head);
    }
    assert(is_within(s, topped));
    // Behind.
    if tail.len() > 0 && topped.len() > 0 && topped.last().len() == 0 {
        lemma_within_drop_empty(s, topped);
        lemma_within_more(s, topped.drop_last(), tail);
        lemma_within_more(s, topped.drop_last() + tail, seq![Seq::<char>::empty()]);
        if apply::is_void(topped) {
            assert(topped.drop_last() =~= none);
            assert(none + tail =~= tail);
        }
    } else {
        lemma_within_more(s, topped, tail);
    }
}

proof fn lemma_phantom_among(edits: Seq<RowEditView>, phantom: int)
    ensures
        among(apply::without_phantom(edits, phantom), edits),
    decreases edits.len(),
{
    if edits.len() > 0 {
        let rest = edits.drop_last();
        lemma_phantom_among(rest, phantom);
        let s = apply::without_phantom(rest, phantom);
        let last = edits[edits.len() - 1];
        let all = apply::without_phantom(edits, phantom);
        assert forall|i: int| 0 <= i < all.len() implies edits.contains(#[trigger] all[i]) by {
            if i < s.len() {
                assert(all[i] == s[i]);
                assert(rest.contains(s[i]));
                let j = choose|j: int| 0 <= j < rest.len() && rest[j] == s[i];
                assert(edits[j] == s[i]);
            } else {
                assert(all[i] == last);
            }
        }
    }
}

pub proof fn lemma_phantom_len(edits: Seq<RowEditView>, phantom: int)
    ensures
        apply::without_phantom(edits, phantom).len() <= edits.len(),
    decreases edits.len(),
{
    if edits.len() > 0 {
        lemma_phantom_len(edits.drop_last(), phantom);
    }
}

pub proof fn lemma_bounded(edits: Seq<RowEditView>, n: int, i: int)
    requires
        0 <= i <= edits.len(),
        apply::first_out_of_bounds(edits, n, i) is None,
    ensures
        forall|j: int|
            i <= j < edits.len() ==> match (#[trigger] edits[j]).op.anchored() {
                Some(l) => 1 <= l <= n,
                None => true,
            },
    decreases edits.len() - i,
{
    if i < edits.len() {
        lemma_bounded(edits, n, i + 1);
    }
}

/// A line with text in it that no edit deletes is kept, and such lines stay in their
/// order, whatever else the edits do and whatever the repairs make of them.
pub proof fn law_untouched_lines_kept(
    s: Seq<char>,
    edits: Seq<EditView>,
    block_starts: Map<usize, u32>,
)
    requires
        edits.len() <= usize::MAX,
    ensures
        exists|ls: Seq<Seq<char>>| #[trigger]
            text::unlines(ls) == apply::applied(s, edits, block_starts).0 && is_within(
                surviving(text::lines(s), edits, text::lines(s).len() as int),
                ls,
            ),
{
    let lines = text::lines(s);
    let n = lines.len() as int;
    let file = rows::rows_of(lines);
    let all = hunks::indexed(edits, apply::insert_rows(edits), block_starts);
    let wanted = apply::without_phantom(all, apply::phantom_line(file));
    text::law_unlines_lines(s);
    lemma_surviving_within(lines, edits, n);
    assert(lines.take(n) =~= lines);
    if edits.len() > 0 && !apply::has_block(edits) && apply::first_out_of_bounds(wanted, n, 0) is None {
        let repaired = boundary::boundaries_repaired(wanted, file).0;
        let done = landing::landed(repaired, file);
        lemma_phantom_among(all, apply::phantom_line(file));
        lemma_phantom_len(all, apply::phantom_line(file));
        lemma_bounded(wanted, n, 0);
        law_repair_only_drops(wanted, file);
        assert forall|line: int| #[trigger] apply::is_deleted(done, line) implies is_named(
            edits,
            line,
        ) by {
            let i = choose|i: int|
                0 <= i < done.len() && match (#[trigger] done[i]).op {
                    RowOpView::Delete { line: l } => l == line,
                    _ => false,
                };
            assert(done[i] == landing::landed_edit(repaired, file, i));
            assert(done[i] == repaired[i]);
            assert(wanted.contains(repaired[i]));
            let j = choose|j: int| 0 <= j < wanted.len() && wanted[j] == repaired[i];
            assert(all.contains(wanted[j]));
            let k = choose|k: int| 0 <= k < all.len() && all[k] == wanted[j];
            assert(!(edits[k] is Block));
            assert(match edits[k] {
                EditView::Delete { anchor } => anchor.line == line,
                _ => false,
            });
        }
        lemma_render_keeps(done, file, lines, edits);
        assert(text::unlines(apply::render(done, file)) == apply::applied(
            s,
            edits,
            block_starts,
        ).0);
    } else {
        assert(text::unlines(lines) == apply::applied(s, edits, block_starts).0);
    }
}

/// Without edits nothing changes and nothing is told.
pub proof fn law_no_edits(s: Seq<char>, block_starts: Map<usize, u32>)
    ensures
        apply::applied(s, Seq::empty(), block_starts) == (s, Seq::<Seq<char>>::empty()),
{
}

/// Edits that cannot be made leave the text as it is, and one warning says why: a block
/// edit that was not resolved, or an anchor that names no line.
pub proof fn law_refused_edits_change_nothing(
    s: Seq<char>,
    edits: Seq<EditView>,
    block_starts: Map<usize, u32>,
)
    requires
        edits.len() > 0,
        apply::has_block(edits) || apply::first_out_of_bounds(
            apply::without_phantom(
                hunks::indexed(edits, apply::insert_rows(edits), block_starts),
                apply::phantom_line(rows::rows_of(text::lines(s))),
            ),
            text::lines(s).len() as int,
            0,
        ) is Some,
    ensures
        apply::applied(s, edits, block_starts).0 == s,
        apply::applied(s, edits, block_starts).1.len() == 1,
        apply::has_block(edits) ==> apply::applied(s, edits, block_starts).1[0]
            == UNRESOLVED_BLOCK_INTERNAL@,
{
}

// ── Deletions alone ──────────────────────────────────────────────────────

/// A slot of one edit.
pub open spec fn lone_slot(edits: Seq<RowEditView>, k: int) -> SlotView {
    SlotView { edits: edits.subrange(k, k + 1), warning: None, candidate: None }
}

/// Every edit is a deletion.
pub open spec fn only_deletes(edits: Seq<RowEditView>) -> bool {
    forall|i: int| 0 <= i < edits.len() ==> (#[trigger] edits[i]).op is Delete
}

proof fn lemma_lone_slots(edits: Seq<RowEditView>, file: Seq<RowView>, i: int)
    requires
        0 <= i <= edits.len(),
        only_deletes(edits),
    ensures
        boundary::slots_from(edits, file, i) == Seq::new(
            (edits.len() - i) as nat,
            |k: int| lone_slot(edits, i + k),
        ),
    decreases edits.len() - i,
{
    let want = Seq::new((edits.len() - i) as nat, |k: int| lone_slot(edits, i + k));
    if i < edits.len() {
        lemma_lone_slots(edits, file, i + 1);
        assert(edits[i].op is Delete);
        assert(hunks::group_at(edits, i) is None);
        let rest = Seq::new(
            (edits.len() - (i + 1)) as nat,
            |k: int| lone_slot(edits, i + 1 + k),
        );
        assert(boundary::slots_from(edits, file, i) == seq![lone_slot(edits, i)] + rest);
        assert(seq![lone_slot(edits, i)] + rest =~= want);
    } else {
        assert(boundary::slots_from(edits, file, i) =~= want);
    }
}

pub proof fn lemma_lone_pass(
    init: PassView,
    slots: Seq<SlotView>,
    all: Seq<RowEditView>,
    edits: Seq<RowEditView>,
    file: Seq<RowView>,
    m: int,
)
    requires
        0 <= m <= edits.len(),
        slots == Seq::new(edits.len(), |k: int| lone_slot(edits, 0 + k)),
    ensures
        boundary::pass_slots(init, slots.take(m), all, edits, file) == (PassView {
            out: init.out + edits.take(m),
            ..init
        }),
    decreases m,
{
    let part = slots.take(m);
    if m > 0 {
        lemma_lone_pass(init, slots, all, edits, file, m - 1);
        assert(part.drop_last() =~= slots.take(m - 1));
        assert(part.last() == lone_slot(edits, m - 1));
        assert(init.out + edits.take(m - 1) + edits.subrange(m - 1, m) =~= init.out + edits.take(
            m,
        ));
    } else {
        assert(init.out + edits.take(0) =~= init.out);
    }
}

proof fn lemma_deletes_unrepaired(edits: Seq<RowEditView>, file: Seq<RowView>)
    requires
        only_deletes(edits),
    ensures
        boundary::boundaries_repaired(edits, file) == (edits, Seq::<Seq<char>>::empty()),
        landing::landed(edits, file) == edits,
        landing::landing_warnings(edits, file, edits.len() as int) == Seq::<Seq<char>>::empty(),
{
    let slots = boundary::slots_from(edits, file, 0);
    let all = boundary::projected(slots);
    let init = PassView {
        out: Seq::empty(),
        warnings: Seq::empty(),
        deleted: boundary::deleted_flags(all, file.len() as int),
        remaining: boundary::total_delta(slots, file),
    };
    lemma_lone_slots(edits, file, 0);
    lemma_lone_pass(init, slots, all, edits, file, edits.len() as int);
    assert(slots.take(edits.len() as int) =~= slots);
    assert(init.out + edits.take(edits.len() as int) =~= edits);
    assert(landing::landed(edits, file) =~= edits) by {
        assert forall|i: int| 0 <= i < edits.len() implies #[trigger] landing::landed_edit(
            edits,
            file,
            i,
        ) == edits[i] by {
            assert(edits[i].op is Delete);
        }
    }
    lemma_deletes_unwarned(edits, file, edits.len() as int);
}

proof fn lemma_deletes_unwarned(edits: Seq<RowEditView>, file: Seq<RowView>, n: int)
    requires
        n <= edits.len(),
        only_deletes(edits),
    ensures
        landing::landing_warnings(edits, file, n) == Seq::<Seq<char>>::empty(),
    decreases n,
{
    if n > 0 {
        lemma_deletes_unwarned(edits, file, n - 1);
        assert(edits[n - 1].op is Delete);
    }
}

proof fn lemma_deletes_insert_nothing(edits: Seq<RowEditView>, place: Place, line: int)
    requires
        only_deletes(edits),
    ensures
        apply::inserted(edits, place, line) == Seq::<Seq<char>>::empty(),
    decreases edits.len(),
{
    if edits.len() > 0 {
        assert(edits[edits.len() - 1].op is Delete);
        let rest = edits.drop_last();
        assert forall|i: int| 0 <= i < rest.len() implies (#[trigger] rest[i]).op is Delete by {
            assert(rest[i] == edits[i]);
        }
        lemma_deletes_insert_nothing(rest, place, line);
    }
}

/// Those of the first `n` lines that no edit deletes.
pub open spec fn remaining(lines: Seq<Seq<char>>, edits: Seq<EditView>, n: int) -> Seq<Seq<char>>
    decreases n,
{
    if n <= 0 {
        Seq::empty()
    } else {
        let rest = remaining(lines, edits, n - 1);
        if is_named(edits, n) {
            rest
        } else {
            rest.push(lines[n - 1])
        }
    }
}

proof fn lemma_deletes_rendered(
    done: Seq<RowEditView>,
    file: Seq<RowView>,
    lines: Seq<Seq<char>>,
    edits: Seq<EditView>,
    n: int,
)
    requires
        0 <= n <= lines.len(),
        only_deletes(done),
        file == rows::rows_of(lines),
        forall|line: int| #[trigger] apply::is_deleted(done, line) == is_named(edits, line),
    ensures
        apply::rendered(done, file, n) == remaining(lines, edits, n),
    decreases n,
{
    if n > 0 {
        lemma_deletes_rendered(done, file, lines, edits, n - 1);
        lemma_deletes_insert_nothing(done, Place::Before, n);
        lemma_deletes_insert_nothing(done, Place::Instead, n);
        lemma_deletes_insert_nothing(done, Place::After, n);
        assert(apply::is_deleted(done, n) == is_named(edits, n));
        assert(file[n - 1].text == lines[n - 1]);
        assert(apply::rendered(done, file, n) =~= remaining(lines, edits, n));
    } else {
        assert(apply::rendered(done, file, n) =~= remaining(lines, edits, n));
    }
}

pub proof fn lemma_phantom_unnamed(edits: Seq<RowEditView>, phantom: int)
    requires
        forall|i: int|
            0 <= i < edits.len() ==> match (#[trigger] edits[i]).op {
                RowOpView::Delete { line } => phantom == 0 || line != phantom,
                _ => true,
            },
    ensures
        apply::without_phantom(edits, phantom) == edits,
    decreases edits.len(),
{
    if edits.len() > 0 {
        let rest = edits.drop_last();
        assert forall|i: int| 0 <= i < rest.len() implies match (#[trigger] rest[i]).op {
            RowOpView::Delete { line } => phantom == 0 || line != phantom,
            _ => true,
        } by {
            assert(rest[i] == edits[i]);
        }
        lemma_phantom_unnamed(rest, phantom);
        let last = edits[edits.len() - 1];
        assert(rest.push(last) =~= edits);
    } else {
        assert(apply::without_phantom(edits, phantom) =~= edits);
    }
}

pub proof fn lemma_in_bounds(edits: Seq<RowEditView>, n: int, i: int)
    requires
        hunks::in_bounds(edits, n),
        0 <= i,
    ensures
        apply::first_out_of_bounds(edits, n, i) is None,
    decreases (if i < edits.len() { edits.len() - i } else { 0 }),
{
    if i < edits.len() {
        assert(match edits[i].op.anchored() {
            Some(l) => 1 <= l <= n,
            None => true,
        });
        lemma_in_bounds(edits, n, i + 1);
    }
}

/// Deletions of lines of a text take out these lines and nothing else, without a
/// warning. (The empty line behind a trailing newline is not deleted.)
pub proof fn law_deletes_exact(
    s: Seq<char>,
    edits: Seq<EditView>,
    block_starts: Map<usize, u32>,
)
    requires
        edits.len() > 0,
        forall|i: int|
            0 <= i < edits.len() ==> match #[trigger] edits[i] {
                EditView::Delete { anchor } => 1 <= anchor.line <= text::lines(s).len()
                    && anchor.line != apply::phantom_line(rows::rows_of(text::lines(s))),
                _ => false,
            },
    ensures
        apply::applied(s, edits, block_starts) == (
            text::unlines(remaining(text::lines(s), edits, text::lines(s).len() as int)),
            Seq::<Seq<char>>::empty(),
        ),
{
    let lines = text::lines(s);
    let n = lines.len() as int;
    let file = rows::rows_of(lines);
    let phantom = apply::phantom_line(file);
    let all = hunks::indexed(edits, apply::insert_rows(edits), block_starts);
    assert forall|i: int| 0 <= i < all.len() implies (#[trigger] all[i]).op is Delete && (
    all[i].op matches RowOpView::Delete { line } ==> 1 <= line <= n && line != phantom && edits[i]
        is Delete && edits[i]->Delete_anchor.line == line) by {
        assert(match edits[i] {
            EditView::Delete { anchor } => 1 <= anchor.line <= n,
            _ => false,
        });
    }
    assert(!apply::has_block(edits)) by {
        assert forall|i: int| 0 <= i < edits.len() implies !((#[trigger] edits[i]) is Block) by {}
    }
    lemma_phantom_unnamed(all, phantom);
    assert(hunks::in_bounds(all, n)) by {
        assert forall|i: int| 0 <= i < all.len() implies match (#[trigger] all[i]).op.anchored() {
            Some(l) => 1 <= l <= n,
            None => true,
        } by {
            assert(all[i].op is Delete);
        }
    }
    lemma_in_bounds(all, n, 0);
    assert(only_deletes(all));
    lemma_deletes_unrepaired(all, file);
    assert forall|line: int| #[trigger] apply::is_deleted(all, line) == is_named(edits, line) by {
        if apply::is_deleted(all, line) {
            let i = choose|i: int|
                0 <= i < all.len() && match (#[trigger] all[i]).op {
                    RowOpView::Delete { line: l } => l == line,
                    _ => false,
                };
            assert(match edits[i] {
                EditView::Delete { anchor } => anchor.line == line,
                _ => false,
            });
        }
        if is_named(edits, line) {
            let i = choose|i: int|
                0 <= i < edits.len() && match #[trigger] edits[i] {
                    EditView::Delete { anchor } => anchor.line == line,
                    _ => false,
                };
            assert(all[i].op is Delete);
            assert(match all[i].op {
                RowOpView::Delete { line: l } => l == line,
                _ => false,
            });
        }
    }
    lemma_deletes_rendered(all, file, lines, edits, n);
    lemma_deletes_insert_nothing(all, Place::Head, 0);
    lemma_deletes_insert_nothing(all, Place::Tail, 0);
    assert(Seq::<Seq<char>>::empty() + Seq::<Seq<char>>::empty() =~= Seq::<Seq<char>>::empty());
}

} // verus!
