//! What a replacement makes of a text when it is repaired.

use vstd::prelude::*;

use crate::apply;
use crate::balance;
use crate::balance::{DelimiterBalance, Scan};
use crate::boundary;
use crate::boundary::{PassView, SlotView};
use crate::effects;
use crate::engines;
use crate::hunks;
use crate::hunks::{Group, RowEditView, RowOpView};
use crate::keeping;
use crate::landing;
use crate::patterns;
use crate::rows;
use crate::rows::RowView;
use crate::text;
use crate::types::{Anchor, Cursor, EditView, InsertMode};

verus! {

/// The edits of a replacement that spares the lines behind `f`, as many as `c`.
spec fn sparing_edits(a: u32, b: u32, texts: Seq<Seq<char>>, f: int, c: int) -> Seq<EditView> {
    Seq::new(
        texts.len(),
        |i: int|
            EditView::Insert {
                cursor: Cursor::BeforeAnchor(Anchor { line: a }),
                text: texts[i],
                mode: InsertMode::Replacement,
            },
    ) + Seq::new(
        (b - a + 1 - c) as nat,
        |i: int|
            EditView::Delete {
                anchor: Anchor {
                    line: (if a + i <= f {
                        a + i
                    } else {
                        a + i + c
                    }) as u32,
                },
            },
    )
}

proof fn lemma_sparing_put(
    a: u32,
    b: u32,
    texts: Seq<Seq<char>>,
    f: int,
    c: int,
    cursor: Cursor,
    line: int,
)
    requires
        1 <= a <= b,
        a - 1 <= f <= f + c <= b,
        0 <= c,
        0 <= line <= u32::MAX,
    ensures
        effects::put_at(sparing_edits(a, b, texts, f, c), cursor) == Seq::<Seq<char>>::empty(),
        cursor.anchored() is None ==> effects::put_at_end(sparing_edits(a, b, texts, f, c), cursor) == Seq::<
            Seq<char>,
        >::empty(),
        effects::put_instead(sparing_edits(a, b, texts, f, c), line) == (if line == a {
            texts
        } else {
            Seq::empty()
        }),
        effects::deletes(sparing_edits(a, b, texts, f, c), line) == (a <= line <= b && !(f < line <= f + c)),
{
    let edits = sparing_edits(a, b, texts, f, c);
    let n = texts.len();
    let ins = edits.take(n as int);
    let del = edits.skip(n as int);
    assert(edits =~= ins + del);
    effects::lemma_choices(edits, cursor, line);
    effects::lemma_filter_none(edits, effects::at_cursor(cursor));
    if cursor.anchored() is None {
        effects::lemma_filter_none(edits, effects::at_file_end(cursor));
    }
    if line == a {
        effects::lemma_filter_add(ins, del, effects::at_line(line));
        effects::lemma_filter_all(ins, effects::at_line(line), texts);
        effects::lemma_filter_none(del, effects::at_line(line));
        assert(texts + Seq::<Seq<char>>::empty() =~= texts);
    } else {
        effects::lemma_filter_none(edits, effects::at_line(line));
    }
    if a <= line <= b && !(f < line <= f + c) {
        let i = if line <= f {
            line - a
        } else {
            line - a - c
        };
        assert(edits[n + i] == (EditView::Delete { anchor: Anchor { line: line as u32 } }));
    }
}

/// The lines that stand after a replacement which spares some of them.
proof fn lemma_spared_region(
    lines: Seq<Seq<char>>,
    parts: Seq<Seq<Seq<char>>>,
    a: int,
    b: int,
    x: Seq<Seq<char>>,
    f: int,
    c: int,
    n: int,
)
    requires
        parts.len() == lines.len(),
        0 <= a < b <= lines.len(),
        a <= f <= f + c <= b,
        0 <= n <= lines.len(),
        forall|i: int|
            0 <= i < parts.len() ==> (#[trigger] parts[i]) == (if i == a {
                x
            } else {
                Seq::empty()
            }) + (if a <= i < b && !(f <= i < f + c) {
                Seq::empty()
            } else {
                seq![lines[i]]
            }),
    ensures
        n <= a ==> parts.take(n).flatten_alt() == lines.take(n),
        a < n <= b ==> parts.take(n).flatten_alt() == lines.take(a) + x + lines.subrange(
            f,
            if n <= f {
                f
            } else if n < f + c {
                n
            } else {
                f + c
            },
        ),
        b <= n ==> parts.take(n).flatten_alt() == lines.take(a) + x + lines.subrange(f, f + c)
            + lines.subrange(b, n),
    decreases n,
{
    if n > 0 {
        lemma_spared_region(lines, parts, a, b, x, f, c, n - 1);
        let t = parts.take(n);
        let l = seq![lines[n - 1]];
        assert(t.drop_last() =~= parts.take(n - 1));
        assert(t.last() == parts[n - 1]);
        let before = parts.take(n - 1).flatten_alt();
        assert(t.flatten_alt() == before + parts[n - 1]);
        if n <= a {
            assert(parts[n - 1] =~= l);
            assert(lines.take(n) =~= lines.take(n - 1) + l);
        } else if n <= b {
            let goal = lines.take(a) + x + lines.subrange(
                f,
                if n <= f {
                    f
                } else if n < f + c {
                    n
                } else {
                    f + c
                },
            );
            assert(before + parts[n - 1] =~= goal);
            if n == b {
                assert(lines.take(a) + x + lines.subrange(f, f + c) + lines.subrange(b, n)
                    =~= goal);
            }
        } else {
            assert(parts[n - 1] =~= l);
            assert(before + l =~= lines.take(a) + x + lines.subrange(f, f + c) + lines.subrange(
                b,
                n,
            ));
        }
    } else {
        assert(parts.take(0).flatten_alt() =~= lines.take(0));
    }
}

proof fn lemma_sparing_lines(
    lines: Seq<Seq<char>>,
    a: u32,
    b: u32,
    texts: Seq<Seq<char>>,
    f: int,
    c: int,
)
    requires
        1 <= a <= b <= lines.len() <= u32::MAX,
        a - 1 <= f <= f + c <= b,
        0 <= c,
        !effects::is_phantom(lines, b as int),
    ensures
        effects::lines_after(lines, sparing_edits(a, b, texts, f, c)) == lines.take(a - 1) + texts
            + lines.subrange(f, f + c) + lines.skip(b as int),
{
    let edits = sparing_edits(a, b, texts, f, c);
    let n = lines.len() as int;
    let parts = Seq::new(lines.len(), |i: int| effects::line_after(lines, edits, i + 1));
    assert forall|i: int| 0 <= i < parts.len() implies (#[trigger] parts[i]) == (if i == a - 1 {
        texts
    } else {
        Seq::empty()
    }) + (if a - 1 <= i < b && !(f <= i < f + c) {
        Seq::empty()
    } else {
        seq![lines[i]]
    }) by {
        let l = (i + 1) as u32;
        lemma_sparing_put(a, b, texts, f, c, Cursor::BeforeAnchor(Anchor { line: l }), i + 1);
        lemma_sparing_put(a, b, texts, f, c, Cursor::AfterAnchor(Anchor { line: l }), i + 1);
        assert(effects::line_after(lines, edits, i + 1) =~= (if i == a - 1 {
            texts
        } else {
            Seq::empty()
        }) + (if a - 1 <= i < b && !(f <= i < f + c) {
            Seq::empty()
        } else {
            seq![lines[i]]
        }));
    }
    lemma_spared_region(lines, parts, a - 1, b as int, texts, f, c, n);
    assert(parts.take(n) =~= parts);
    assert(lines.subrange(b as int, n) =~= lines.skip(b as int));
    parts.lemma_flatten_and_flatten_alt_are_equivalent();
    lemma_sparing_put(a, b, texts, f, c, Cursor::Bof, 0);
    lemma_sparing_put(a, b, texts, f, c, Cursor::Eof, 0);
    assert(Seq::<Seq<char>>::empty() + parts.flatten() =~= parts.flatten());
}

/// The edits of a replacement are one hunk.
proof fn lemma_one_hunk(ops: Seq<RowOpView>, a: u32, n: int, i: int)
    requires
        0 < n,
        0 <= i < ops.len(),
        forall|k: int|
            0 <= k < ops.len() ==> if k < n {
                (#[trigger] ops[k]) matches RowOpView::Insert { cursor, mode, .. } && cursor
                    == Cursor::BeforeAnchor(Anchor { line: a }) && mode == InsertMode::Replacement
            } else {
                ops[k] == (RowOpView::Delete { line: (a + (k - n)) as u32 }) && a + (k - n)
                    <= u32::MAX
            },
    ensures
        hunks::hunk_number(ops.take(i + 1)) == 0,
    decreases i,
{
    let t = ops.take(i + 1);
    if i > 0 {
        lemma_one_hunk(ops, a, n, i - 1);
        assert(t.drop_last() =~= ops.take(i));
        assert(t[t.len() - 2] == ops[i - 1]);
        assert(t.last() == ops[i]);
    }
}

spec fn is_swap(all: Seq<RowEditView>, a: u32, b: u32, texts: Seq<Seq<char>>) -> bool {
    &&& all.len() == texts.len() + (b - a + 1)
    &&& forall|k: int|
        0 <= k < all.len() ==> (#[trigger] all[k]).hunk == 0 && if k < texts.len() {
            all[k].op matches RowOpView::Insert { cursor, row, mode } && cursor
                == Cursor::BeforeAnchor(Anchor { line: a }) && mode == InsertMode::Replacement
                && row == rows::row_of(texts[k])
        } else {
            all[k].op == (RowOpView::Delete { line: (a + (k - texts.len())) as u32 })
        }
}

proof fn lemma_is_swap(
    a: u32,
    b: u32,
    texts: Seq<Seq<char>>,
    block_starts: Map<usize, u32>,
)
    requires
        1 <= a <= b,
        texts.len() > 0,
    ensures
        ({
            let edits = effects::swap_edits(a, b, texts);
            is_swap(
                hunks::indexed(edits, apply::insert_rows(edits), block_starts),
                a,
                b,
                texts,
            )
        }),
{
    let edits = effects::swap_edits(a, b, texts);
    let some = apply::insert_rows(edits);
    let all = hunks::indexed(edits, some, block_starts);
    let ops = hunks::ops_of(edits, some);
    let n = texts.len() as int;
    assert forall|k: int| 0 <= k < all.len() implies (#[trigger] all[k]).hunk == 0 && if k < n {
        all[k].op matches RowOpView::Insert { cursor, row, mode } && cursor
            == Cursor::BeforeAnchor(Anchor { line: a }) && mode == InsertMode::Replacement
            && row == rows::row_of(texts[k])
    } else {
        all[k].op == (RowOpView::Delete { line: (a + (k - n)) as u32 })
    } by {
        assert forall|j: int| 0 <= j < ops.len() implies if j < n {
            (#[trigger] ops[j]) matches RowOpView::Insert { cursor, mode, .. } && cursor
                == Cursor::BeforeAnchor(Anchor { line: a }) && mode == InsertMode::Replacement
        } else {
            ops[j] == (RowOpView::Delete { line: (a + (j - n)) as u32 }) && a + (j - n) <= u32::MAX
        } by {
            assert(edits[j] == edits[j]);
        }
        lemma_one_hunk(ops, a, n, k);
        assert(some[k] == rows::row_of(apply::insert_text(edits[k])));
        assert(edits[k] == edits[k]);
    }
}

proof fn lemma_swap_runs(
    all: Seq<RowEditView>,
    a: u32,
    b: u32,
    texts: Seq<Seq<char>>,
    i: int,
)
    requires
        1 <= a <= b,
        is_swap(all, a, b, texts),
        0 <= i <= all.len(),
    ensures
        i <= texts.len() ==> hunks::body_run(all, i, 0, a) == texts.len() - i,
        i >= texts.len() ==> hunks::delete_run(all, i, 0, a + (i - texts.len())) == all.len() - i,
    decreases all.len() - i,
{
    if i < all.len() {
        lemma_swap_runs(all, a, b, texts, i + 1);
        assert(all[i].hunk == 0);
        if i == texts.len() {
            assert(all[i].op is Delete);
            assert(hunks::body_run(all, i, 0, a) == 0);
        }
    }
}

/// A repair of a replacement: the first `x` rows restate the lines just above the range, the
/// last `y` rows those just below it, and `c` lines of the range, behind line `f`, that do
/// nothing but close.
pub open spec fn is_repair(
    lines: Seq<Seq<char>>,
    a: int,
    b: int,
    texts: Seq<Seq<char>>,
    x: int,
    y: int,
    f: int,
    c: int,
) -> bool {
    &&& 0 <= x <= a - 1
    &&& 0 <= y <= lines.len() - b
    &&& x + y <= texts.len()
    &&& a - 1 <= f <= f + c <= b
    &&& 0 <= c
    &&& c > 0 ==> x == 0 && y == 0
    &&& forall|t: int| 0 <= t < x ==> (#[trigger] texts[t]) == lines[a - 1 - x + t]
    &&& forall|t: int|
        texts.len() - y <= t < texts.len() ==> (#[trigger] texts[t]) == lines[b + t - (texts.len()
            - y)]
    &&& forall|t: int|
        f <= t < f + c ==> engines::found(
            patterns::STRUCTURAL_CLOSER_PATTERN@,
            #[trigger] lines[t],
        )
}

proof fn lemma_leading_echo(p: Seq<RowView>, file: Seq<RowView>, start: int, k: int)
    ensures
        ({
            let r = boundary::leading_echo(p, file, start, k);
            0 <= r && (r <= k || k < 0) && (r > 0 ==> rows::rows_agree(p, 0, file, start - 1 - r, r))
        }),
    decreases k,
{
    if k > 0 {
        lemma_leading_echo(p, file, start, k - 1);
    }
}

proof fn lemma_trailing_echo(p: Seq<RowView>, file: Seq<RowView>, end: int, k: int)
    ensures
        ({
            let r = boundary::trailing_echo(p, file, end, k);
            0 <= r && (r <= k || k < 0) && (r > 0 ==> rows::rows_agree(p, p.len() - r, file, end, r))
        }),
    decreases k,
{
    if k > 0 {
        lemma_trailing_echo(p, file, end, k - 1);
    }
}

proof fn lemma_duplicates(
    p: Seq<RowView>,
    file: Seq<RowView>,
    at: int,
    delta: DelimiterBalance,
    k: int,
)
    ensures
        ({
            let r = boundary::duplicate_suffix(p, file, at, delta, k);
            0 <= r && (r <= k || k < 0) && (r > 0 ==> rows::rows_agree(p, p.len() - r, file, at, r))
        }),
        ({
            let r = boundary::duplicate_prefix(p, file, at, delta, k);
            0 <= r && (r <= k || k < 0) && (r > 0 ==> rows::rows_agree(p, 0, file, at - 1 - r, r))
        }),
    decreases k,
{
    if k > 0 {
        lemma_duplicates(p, file, at, delta, k - 1);
    }
}

/// How many rows at the two ends of a body a repair leaves out.
spec fn dropped_rows(p: Seq<RowView>, file: Seq<RowView>, g: Group) -> (int, int) {
    let delta = boundary::group_delta(p, file, g);
    let suffix = boundary::duplicate_suffix(
        p,
        file,
        g.end_line(),
        delta,
        boundary::least(p.len() as int, file.len() - g.end_line()),
    );
    let prefix = boundary::duplicate_prefix(
        p,
        file,
        g.line as int,
        delta,
        boundary::least(p.len() as int, g.line - 1),
    );
    match boundary::boundary_echo(p, file, g) {
        Some((l, t)) => (l, t),
        None => if delta == DelimiterBalance::zero() {
            match boundary::one_sided_echo(p, file, g) {
                Some((true, k)) => (k, 0),
                Some((false, k)) => (0, k),
                None => (0, 0),
            }
        } else if suffix > 0 {
            (0, suffix)
        } else if prefix > 0 {
            (prefix, 0)
        } else {
            (0, 0)
        },
    }
}

/// The rows at the two ends of a body that a repair leaves out.
proof fn lemma_local_repair(
    all: Seq<RowEditView>,
    lines: Seq<Seq<char>>,
    a: u32,
    b: u32,
    texts: Seq<Seq<char>>,
    g: Group,
) -> (r: (int, int))
    requires
        1 <= a <= b <= lines.len(),
        is_swap(all, a, b, texts),
        texts.len() > 0,
        g.start == 0,
        g.inserts == texts.len(),
        g.deletes == b - a + 1,
        g.line == a,
    ensures
        is_repair(lines, a as int, b as int, texts, r.0, r.1, a - 1, 0),
        r == dropped_rows(rows::rows_of(texts), rows::rows_of(lines), g),
        ({
            let slot = boundary::local_repair(all, rows::rows_of(lines), g);
            &&& slot.edits == boundary::trimmed(all, g, r.0, r.1)
            &&& slot.warning is Some <==> r.0 + r.1 > 0
            &&& slot.candidate is Some ==> r.0 + r.1 == 0
            &&& slot.candidate matches Some((h, _)) ==> h == g
        }),
{
    let file = rows::rows_of(lines);
    let p = boundary::payload(all, g);
    let delta = boundary::group_delta(p, file, g);
    let up = boundary::least(p.len() as int, a - 1);
    let down = boundary::least(p.len() as int, file.len() - b);
    lemma_leading_echo(p, file, a as int, up);
    lemma_trailing_echo(p, file, b as int, down);
    lemma_duplicates(p, file, b as int, delta, down);
    lemma_duplicates(p, file, a as int, delta, up);
    let leading = boundary::leading_count(p, file, g);
    let trailing = boundary::trailing_count(p, file, g);
    let suffix = boundary::duplicate_suffix(p, file, b as int, delta, down);
    let prefix = boundary::duplicate_prefix(p, file, a as int, delta, up);
    assert forall|t: int| 0 <= t < texts.len() implies (#[trigger] p[t]).text == texts[t] by {
        assert(all[t].hunk == 0);
    }
    assert(p =~= rows::rows_of(texts)) by {
        assert forall|t: int| 0 <= t < p.len() implies p[t] == rows::row_of(texts[t]) by {
            assert(all[t].hunk == 0);
        }
    }
    let slot = boundary::local_repair(all, file, g);
    let r: (int, int) = match boundary::boundary_echo(p, file, g) {
        Some((l, t)) => (l, t),
        None => if delta == DelimiterBalance::zero() {
            match boundary::one_sided_echo(p, file, g) {
                Some((true, k)) => (k, 0),
                Some((false, k)) => (0, k),
                None => (0, 0),
            }
        } else if suffix > 0 {
            (0, suffix)
        } else if prefix > 0 {
            (prefix, 0)
        } else {
            (0, 0)
        },
    };
    assert forall|t: int| 0 <= t < r.0 implies (#[trigger] texts[t]) == lines[a - 1 - r.0 + t] by {
        assert(rows::rows_agree(p, 0, file, a - 1 - r.0, r.0));
        assert(p[0 + t].text == file[a - 1 - r.0 + t].text);
        assert(file[a - 1 - r.0 + t].text == lines[a - 1 - r.0 + t]);
    }
    assert forall|t: int| texts.len() - r.1 <= t < texts.len() implies (#[trigger] texts[t])
        == lines[b + t - (texts.len() - r.1)] by {
        let j = t - (texts.len() - r.1);
        assert(rows::rows_agree(p, p.len() - r.1, file, b as int, r.1));
        assert(p[(p.len() - r.1) + j].text == file[b + j].text);
        assert(file[b + j].text == lines[b + j]);
    }
    r
}

/// Lines of a range that are all closing.
proof fn lemma_closer_run(file: Seq<RowView>, end: int, max: int)
    requires
        0 <= max <= end <= file.len(),
    ensures
        0 <= boundary::closer_run(file, end, max) <= max,
        forall|i: int|
            end - boundary::closer_run(file, end, max) <= i < end ==> (#[trigger] file[i]).closer,
    decreases max,
{
    if max > 0 && file[end - 1].closer {
        lemma_closer_run(file, end - 1, max - 1);
    }
}

proof fn lemma_overlap(a: Seq<RowView>, b: Seq<RowView>, k: int)
    ensures
        0 <= boundary::overlap(a, b, k),
        boundary::overlap(a, b, k) <= k || k < 0,
    decreases k,
{
    if k > 0 {
        lemma_overlap(a, b, k - 1);
    }
}

/// A part of the edits of a replacement, as edits.
proof fn lemma_trimmed_stands(
    all: Seq<RowEditView>,
    a: u32,
    b: u32,
    texts: Seq<Seq<char>>,
    g: Group,
    x: int,
    y: int,
)
    requires
        1 <= a <= b,
        is_swap(all, a, b, texts),
        g.start == 0,
        g.inserts == texts.len(),
        g.deletes == b - a + 1,
        0 <= x,
        0 <= y,
        x + y <= texts.len(),
    ensures
        effects::stands_for(
            boundary::trimmed(all, g, x, y),
            sparing_edits(a, b, texts.subrange(x, texts.len() - y), a - 1, 0),
        ),
{
    let some = texts.subrange(x, texts.len() - y);
    let part = boundary::trimmed(all, g, x, y);
    let edits = sparing_edits(a, b, some, a - 1, 0);
    assert(part.len() == edits.len());
    assert forall|i: int| 0 <= i < part.len() implies match #[trigger] edits[i] {
        EditView::Insert { cursor, text, mode } => part[i].op matches RowOpView::Insert {
            cursor: c,
            row,
            mode: m,
        } && c == cursor && row.text == text && m == mode,
        EditView::Delete { anchor } => part[i].op == (RowOpView::Delete { line: anchor.line }),
        EditView::Block { .. } => false,
    } by {
        if i < some.len() {
            assert(part[i] == all[x + i]);
            assert(all[x + i].hunk == 0);
        } else {
            let k = texts.len() + (i - some.len());
            assert(part[i] == all[k]);
            assert(all[k].hunk == 0);
        }
    }
}

/// The edits of a replacement without the deletions of some lines, as edits.
proof fn lemma_sparing_stands(
    all: Seq<RowEditView>,
    a: u32,
    b: u32,
    texts: Seq<Seq<char>>,
    f: int,
    c: int,
    n: int,
)
    requires
        1 <= a <= b,
        is_swap(all, a, b, texts),
        a - 1 <= f <= f + c <= b,
        0 <= c,
        0 <= n <= all.len(),
    ensures
        ({
            let part = boundary::sparing(all.take(n), f, f + c);
            let k = n - texts.len();
            let edits = sparing_edits(a, b, texts, f, c);
            let m: int = if k <= 0 {
                n
            } else if a + k - 1 <= f {
                n
            } else if a + k - 1 <= f + c {
                texts.len() + (f - a + 1)
            } else {
                n - c
            };
            part.len() == m && m <= edits.len() && effects::stands_for(part, edits.take(m))
        }),
    decreases n,
{
    let part = boundary::sparing(all.take(n), f, f + c);
    let edits = sparing_edits(a, b, texts, f, c);
    if n > 0 {
        lemma_sparing_stands(all, a, b, texts, f, c, n - 1);
        assert(all.take(n).drop_last() =~= all.take(n - 1));
        let before = boundary::sparing(all.take(n - 1), f, f + c);
        assert(all[n - 1].hunk == 0);
        let k = n - texts.len();
        let m: int = if k <= 0 {
            n
        } else if a + k - 1 <= f {
            n
        } else if a + k - 1 <= f + c {
            texts.len() + (f - a + 1)
        } else {
            n - c
        };
        if k > 0 && f < a + k - 1 <= f + c {
            assert(part == before);
        } else {
            assert(part == before.push(all[n - 1]));
            assert(edits.take(m) =~= edits.take(m - 1).push(edits[m - 1]));
            assert forall|i: int| 0 <= i < part.len() implies match #[trigger] edits.take(m)[i] {
                EditView::Insert { cursor, text, mode } => part[i].op matches RowOpView::Insert {
                    cursor: c,
                    row,
                    mode: m,
                } && c == cursor && row.text == text && m == mode,
                EditView::Delete { anchor } => part[i].op == (RowOpView::Delete {
                    line: anchor.line,
                }),
                EditView::Block { .. } => false,
            } by {
                if i < m - 1 {
                    assert(edits.take(m)[i] == edits.take(m - 1)[i]);
                    assert(part[i] == before[i]);
                }
            }
        }
    } else {
        assert(edits.take(0) =~= Seq::empty());
    }
}

/// The group that the edits of a replacement form.
spec fn swap_group(a: u32, b: u32, texts: Seq<Seq<char>>) -> Group {
    Group {
        start: 0,
        inserts: texts.len() as usize,
        deletes: (b - a + 1) as usize,
        line: a,
    }
}

proof fn lemma_swap_slot(
    all: Seq<RowEditView>,
    file: Seq<RowView>,
    a: u32,
    b: u32,
    texts: Seq<Seq<char>>,
)
    requires
        1 <= a <= b,
        is_swap(all, a, b, texts),
        texts.len() > 0,
        all.len() <= usize::MAX,
    ensures
        boundary::slots_from(all, file, 0) == seq![
            boundary::local_repair(all, file, swap_group(a, b, texts)),
        ],
{
    let n = texts.len() as int;
    let g = swap_group(a, b, texts);
    lemma_swap_runs(all, a, b, texts, 0);
    lemma_swap_runs(all, a, b, texts, n);
    assert(all[0].hunk == 0);
    assert(hunks::group_at(all, 0) == Some(g));
    assert(boundary::slots_from(all, file, g.end()) =~= Seq::empty());
    assert(boundary::slots_from(all, file, 0) =~= seq![boundary::local_repair(all, file, g)]);
}

/// The closing lines that are spared, if any are.
proof fn lemma_kept_closers(
    lines: Seq<Seq<char>>,
    a: u32,
    b: u32,
    g: Group,
    p: Seq<RowView>,
    edits: Seq<RowEditView>,
    deleted: Seq<bool>,
    delta: DelimiterBalance,
    remaining: DelimiterBalance,
    prefix: DelimiterBalance,
)
    requires
        1 <= a <= b <= lines.len() <= u32::MAX,
        g.line == a,
        g.deletes == b - a + 1,
    ensures
        boundary::dropped_closers(
            p,
            edits,
            rows::rows_of(lines),
            deleted,
            g,
            delta,
            remaining,
            prefix,
        ) matches Some(k) ==> {
            &&& a - 1 <= k.from
            &&& k.from + k.count <= b
            &&& k.count > 0
            &&& forall|t: int|
                k.from <= t < k.from + k.count ==> engines::found(
                    patterns::STRUCTURAL_CLOSER_PATTERN@,
                    #[trigger] lines[t],
                )
        },
{
    let file = rows::rows_of(lines);
    let length = boundary::closer_run(file, b as int, b - a + 1);
    let suffix = file.subrange(b - length, b as int);
    let below = boundary::closers_below(edits, file, deleted, b as int);
    lemma_closer_run(file, b as int, b - a + 1);
    lemma_overlap(p, suffix, boundary::least(p.len() as int, length));
    lemma_overlap(suffix, below, boundary::least(length, below.len() as int));
    assert forall|t: int| b - length <= t < b implies engines::found(
        patterns::STRUCTURAL_CLOSER_PATTERN@,
        #[trigger] lines[t],
    ) by {
        assert(file[t].closer);
        assert(file[t] == rows::row_of(lines[t]));
    }
}

/// The edits of a replacement with some lines spared.
proof fn lemma_swap_spared(
    all: Seq<RowEditView>,
    a: u32,
    b: u32,
    texts: Seq<Seq<char>>,
    f: int,
    c: int,
)
    requires
        1 <= a <= b,
        is_swap(all, a, b, texts),
        a - 1 <= f <= f + c <= b,
        0 <= c,
    ensures
        effects::stands_for(
            boundary::sparing(all, f, f + c),
            sparing_edits(a, b, texts.subrange(0, texts.len() as int), f, c),
        ),
{
    lemma_sparing_stands(all, a, b, texts, f, c, all.len() as int);
    assert(all.take(all.len() as int) =~= all);
    let edits = sparing_edits(a, b, texts, f, c);
    assert(edits.take(edits.len() as int) =~= edits);
    assert(texts.subrange(0, texts.len() as int) =~= texts);
}

/// What becomes of the edits of a replacement when they are repaired: some rows are left out,
/// or some lines are spared.
#[verifier::spinoff_prover]
#[verifier::rlimit(40)]
proof fn lemma_swap_repaired(
    all: Seq<RowEditView>,
    lines: Seq<Seq<char>>,
    a: u32,
    b: u32,
    texts: Seq<Seq<char>>,
) -> (r: (int, int, int, int))
    requires
        1 <= a <= b <= lines.len() <= u32::MAX,
        is_swap(all, a, b, texts),
        texts.len() > 0,
        all.len() <= usize::MAX,
    ensures
        is_repair(lines, a as int, b as int, texts, r.0, r.1, r.2, r.3),
        (r.0, r.1) == dropped_rows(
            rows::rows_of(texts),
            rows::rows_of(lines),
            swap_group(a, b, texts),
        ),
        ({
            let (out, told) = boundary::boundaries_repaired(all, rows::rows_of(lines));
            &&& effects::stands_for(
                out,
                sparing_edits(a, b, texts.subrange(r.0, texts.len() - r.1), r.2, r.3),
            )
            &&& told.len() == (if r.0 + r.1 + r.3 > 0 {
                1
            } else {
                0int
            })
        }),
{
    let file = rows::rows_of(lines);
    let g = swap_group(a, b, texts);
    let slot = boundary::local_repair(all, file, g);
    let slots = boundary::slots_from(all, file, 0);
    lemma_swap_slot(all, file, a, b, texts);
    let (x, y) = lemma_local_repair(all, lines, a, b, texts, g);
    lemma_trimmed_stands(all, a, b, texts, g, x, y);
    let joined = boundary::projected(slots);
    let init = PassView {
        out: Seq::empty(),
        warnings: Seq::empty(),
        deleted: boundary::deleted_flags(joined, file.len() as int),
        remaining: boundary::total_delta(slots, file),
    };
    lemma_pass_of_one(init, slot, joined, all, file);
    let end = boundary::pass_slots(init, slots, joined, all, file);
    assert(Seq::<RowEditView>::empty() + slot.edits =~= slot.edits);
    match slot.candidate {
        None => { (x, y, a - 1, 0) },
        Some((h, delta)) => {
            assert(boundary::trimmed(all, g, 0, 0) =~= all);
            let p = boundary::payload(all, g);
            let prefix = boundary::deleted_prefix_balance(joined, file, init.deleted, g);
            lemma_kept_closers(
                lines,
                a,
                b,
                g,
                p,
                joined,
                init.deleted,
                delta,
                init.remaining,
                prefix,
            );
            match boundary::dropped_closers(
                p,
                joined,
                file,
                init.deleted,
                g,
                delta,
                init.remaining,
                prefix,
            ) {
                None => { (0, 0, a - 1, 0) },
                Some(k) => {
                    let f = k.from as int;
                    let c = k.count as int;
                    lemma_swap_spared(all, a, b, texts, f, c);
                    assert(Seq::<RowEditView>::empty() + boundary::sparing(all, f, f + c)
                        =~= boundary::sparing(all, f, f + c));
                    (0, 0, f, c)
                },
            }
        },
    }
}

proof fn lemma_pass_of_one(
    init: PassView,
    slot: SlotView,
    joined: Seq<RowEditView>,
    all: Seq<RowEditView>,
    file: Seq<RowView>,
)
    ensures
        boundary::pass_slots(init, seq![slot], joined, all, file) == boundary::pass_slot(
            init,
            slot,
            joined,
            all,
            file,
        ),
{
    let slots = seq![slot];
    assert(slots.drop_last() =~= Seq::empty());
    assert(boundary::pass_slots(init, slots.drop_last(), joined, all, file) == init);
}

/// Replacements and deletions stay where they are.
proof fn lemma_swap_landed(out: Seq<RowEditView>, edits: Seq<EditView>, file: Seq<RowView>)
    requires
        effects::stands_for(out, edits),
        forall|i: int|
            0 <= i < edits.len() ==> match #[trigger] edits[i] {
                EditView::Insert { mode, .. } => mode == InsertMode::Replacement,
                _ => true,
            },
    ensures
        landing::landed(out, file) == out,
        landing::landing_warnings(out, file, out.len() as int).len() == 0,
{
    assert forall|i: int| 0 <= i < out.len() implies landing::after_key(#[trigger] out[i]) is None by {
        assert(edits[i] == edits[i]);
    }
    assert(landing::landed(out, file) =~= out);
    assert forall|i: int| 0 <= i < out.len() implies landing::shift(
        out,
        file,
        #[trigger] effects::id(i),
    ) is None by {
        assert(landing::after_key(out[i]) is None);
    }
    effects::lemma_no_slides(out, file, out.len() as int);
}

/// What a replacement makes of a text, and how much of its body it leaves out.
proof fn lemma_swap_in_full(
    s: Seq<char>,
    a: u32,
    b: u32,
    texts: Seq<Seq<char>>,
    block_starts: Map<usize, u32>,
) -> (r: (int, int, int, int))
    requires
        1 <= a <= b <= text::lines(s).len() <= u32::MAX,
        0 < texts.len(),
        effects::swap_edits(a, b, texts).len() <= usize::MAX,
        !effects::is_phantom(text::lines(s), b as int),
    ensures
        is_repair(text::lines(s), a as int, b as int, texts, r.0, r.1, r.2, r.3),
        (r.0, r.1) == dropped_rows(
            rows::rows_of(texts),
            rows::rows_of(text::lines(s)),
            swap_group(a, b, texts),
        ),
        apply::applied(s, effects::swap_edits(a, b, texts), block_starts).0 == text::unlines(
            text::lines(s).take(a - 1) + texts.subrange(r.0, texts.len() - r.1) + text::lines(
                s,
            ).subrange(r.2, r.2 + r.3) + text::lines(s).skip(b as int),
        ),
        apply::applied(s, effects::swap_edits(a, b, texts), block_starts).1.len() == (if r.0 + r.1 + r.3
            > 0 {
            1
        } else {
            0int
        }),
{
    let lines = text::lines(s);
    let file = rows::rows_of(lines);
    let n = lines.len() as int;
    let edits = effects::swap_edits(a, b, texts);
    let all = hunks::indexed(edits, apply::insert_rows(edits), block_starts);
    lemma_is_swap(a, b, texts, block_starts);
    assert(!apply::has_block(edits)) by {
        assert forall|i: int| 0 <= i < edits.len() implies !((#[trigger] edits[i]) is Block) by {}
    }
    let phantom = apply::phantom_line(file);
    assert(file[n - 1].text == lines[n - 1]);
    assert forall|i: int| 0 <= i < all.len() implies match (#[trigger] all[i]).op {
        RowOpView::Delete { line } => phantom == 0 || line != phantom,
        _ => true,
    } by {
        assert(all[i].hunk == 0);
    }
    keeping::lemma_phantom_unnamed(all, phantom);
    assert(hunks::in_bounds(all, n)) by {
        assert forall|i: int| 0 <= i < all.len() implies match (#[trigger] all[i]).op.anchored() {
            Some(l) => 1 <= l <= n,
            None => true,
        } by {
            assert(all[i].hunk == 0);
        }
    }
    keeping::lemma_in_bounds(all, n, 0);
    let (x, y, f, c) = lemma_swap_repaired(all, lines, a, b, texts);
    let (out, told) = boundary::boundaries_repaired(all, file);
    let some = texts.subrange(x, texts.len() - y);
    let done = sparing_edits(a, b, some, f, c);
    lemma_swap_landed(out, done, file);
    assert forall|i: int| 0 <= i < out.len() implies match (#[trigger] out[i]).op {
        RowOpView::Delete { line } => phantom == 0 || line != phantom,
        _ => true,
    } by {
        assert(done[i] == done[i]);
    }
    keeping::lemma_phantom_unnamed(out, phantom);
    effects::lemma_whole_rendered(out, done, lines);
    lemma_sparing_lines(lines, a, b, some, f, c);
    (x, y, f, c)
}

/// What a replacement makes of a text, whatever it looks like: the lines before its range, the
/// rows of its body and the lines behind its range. Of the body nothing is left out but rows
/// at its ends that restate the lines just outside the range, and of the range nothing is kept
/// but closing lines, which stand behind the body; and one warning is given if anything was
/// left out or kept.
pub proof fn law_swap_in_full(
    s: Seq<char>,
    a: u32,
    b: u32,
    texts: Seq<Seq<char>>,
    block_starts: Map<usize, u32>,
) -> (r: (int, int, int, int))
    requires
        1 <= a <= b <= text::lines(s).len() <= u32::MAX,
        0 < texts.len(),
        effects::swap_edits(a, b, texts).len() <= usize::MAX,
        !effects::is_phantom(text::lines(s), b as int),
    ensures
        is_repair(text::lines(s), a as int, b as int, texts, r.0, r.1, r.2, r.3),
        apply::applied(s, effects::swap_edits(a, b, texts), block_starts).0 == text::unlines(
            text::lines(s).take(a - 1) + texts.subrange(r.0, texts.len() - r.1) + text::lines(
                s,
            ).subrange(r.2, r.2 + r.3) + text::lines(s).skip(b as int),
        ),
        apply::applied(s, effects::swap_edits(a, b, texts), block_starts).1.len() == (if r.0 + r.1 + r.3
            > 0 {
            1
        } else {
            0int
        }),
{
    lemma_swap_in_full(s, a, b, texts, block_starts)
}

/// A replacement whose body holds neither the line just above its range nor the one just
/// below, and whose range holds no line that does nothing but close, is never repaired.
pub proof fn law_swap_plain(
    s: Seq<char>,
    a: u32,
    b: u32,
    texts: Seq<Seq<char>>,
    block_starts: Map<usize, u32>,
)
    requires
        1 <= a <= b <= text::lines(s).len() <= u32::MAX,
        0 < texts.len(),
        effects::swap_edits(a, b, texts).len() <= usize::MAX,
        !effects::is_phantom(text::lines(s), b as int),
        a > 1 ==> !texts.contains(text::lines(s)[a - 2]),
        b < text::lines(s).len() ==> !texts.contains(text::lines(s)[b as int]),
        forall|t: int|
            a - 1 <= t < b ==> !engines::found(
                patterns::STRUCTURAL_CLOSER_PATTERN@,
                #[trigger] text::lines(s)[t],
            ),
    ensures
        apply::applied(s, effects::swap_edits(a, b, texts), block_starts) == (
            text::unlines(text::lines(s).take(a - 1) + texts + text::lines(s).skip(b as int)),
            Seq::<Seq<char>>::empty(),
        ),
{
    let lines = text::lines(s);
    let (x, y, f, c) = law_swap_in_full(s, a, b, texts, block_starts);
    if x > 0 {
        assert(texts[x - 1] == lines[a - 2]);
        assert(texts.contains(texts[x - 1]));
    }
    if y > 0 {
        assert(texts[texts.len() - y] == lines[b as int]);
        assert(texts.contains(texts[texts.len() - y]));
    }
    if c > 0 {
        assert(!engines::found(
            patterns::STRUCTURAL_CLOSER_PATTERN@,
            lines[f],
        ));
    }
    assert(texts.subrange(0, texts.len() as int) =~= texts);
    assert(lines.take(a - 1) + texts + lines.subrange(f, f) + lines.skip(b as int) =~= lines.take(
        a - 1,
    ) + texts + lines.skip(b as int));
    assert(apply::applied(s, effects::swap_edits(a, b, texts), block_starts).1 =~= Seq::<
        Seq<char>,
    >::empty());
}

// ── When a replacement is repaired ───────────────────────────────────────

/// A line without brackets, quotes and slashes.
pub open spec fn is_bracketless(s: Seq<char>) -> bool {
    forall|i: int|
        0 <= i < s.len() ==> {
            let c = #[trigger] s[i];
            c != '(' && c != ')' && c != '[' && c != ']' && c != '{' && c != '}' && c != '"' && c
                != '\'' && c != '`' && c != '/'
        }
}

proof fn lemma_scan_nothing(s: Seq<char>, i: int, st: Scan)
    requires
        is_bracketless(s),
        0 <= i <= s.len(),
        !st.in_block_comment,
        st.quote is None,
    ensures
        balance::scan_from(s, i, st) == st,
    decreases s.len() - i,
{
    if i < s.len() {
        assert(s[i] != '(');
        let (d, next) = balance::step(s, i, st);
        assert(d == 1 && next == st);
        lemma_scan_nothing(s, i + 1, st);
    }
}

proof fn lemma_no_balance(lines: Seq<Seq<char>>)
    requires
        forall|i: int| 0 <= i < lines.len() ==> is_bracketless(#[trigger] lines[i]),
    ensures
        balance::scan_lines(lines) == (Scan {
            balance: DelimiterBalance::zero(),
            in_block_comment: false,
            quote: None,
        }),
    decreases lines.len(),
{
    if lines.len() > 0 {
        let rest = lines.drop_last();
        assert forall|i: int| 0 <= i < rest.len() implies is_bracketless(#[trigger] rest[i]) by {
            assert(rest[i] == lines[i]);
        }
        lemma_no_balance(rest);
        assert(is_bracketless(lines[lines.len() - 1]));
        lemma_scan_nothing(lines.last(), 0, balance::scan_lines(rest));
    }
}

proof fn lemma_span_nothing(lines: Seq<Seq<char>>, i: int, j: int)
    requires
        0 <= i <= j <= lines.len(),
        forall|k: int| i <= k < j ==> is_bracketless(#[trigger] lines[k]),
    ensures
        boundary::span_balance(rows::rows_of(lines), i, j) == DelimiterBalance::zero(),
{
    let part = balance::slice_texts(rows::rows_of(lines), i, j);
    assert(part =~= lines.subrange(i, j));
    assert forall|k: int| 0 <= k < part.len() implies is_bracketless(#[trigger] part[k]) by {
        assert(part[k] == lines[i + k]);
    }
    lemma_no_balance(part);
}

/// The rows at the start of a body that restate what is above its range are as many as there
/// are, here one or none.
proof fn lemma_leading_one(texts: Seq<Seq<char>>, lines: Seq<Seq<char>>, a: int, k: int)
    requires
        1 <= a <= lines.len(),
        0 <= k <= a - 1,
        k <= texts.len(),
        forall|t: int|
            0 < t < texts.len() && a > 1 ==> (#[trigger] texts[t]) != lines[a - 2],
    ensures
        boundary::leading_echo(rows::rows_of(texts), rows::rows_of(lines), a, k) == (if k > 0
            && texts[0] == lines[a - 2] && rows::has_content(texts[0]) {
            1int
        } else {
            0
        }),
    decreases k,
{
    let p = rows::rows_of(texts);
    let file = rows::rows_of(lines);
    if k > 1 {
        if rows::rows_agree(p, 0, file, a - 1 - k, k) {
            assert(p[0 + (k - 1)].text == file[a - 1 - k + (k - 1)].text);
            assert(texts[k - 1] != lines[a - 2]);
        }
        lemma_leading_one(texts, lines, a, k - 1);
    } else if k == 1 {
        assert(p[0] == rows::row_of(texts[0]));
        assert(file[a - 2] == rows::row_of(lines[a - 2]));
        assert(rows::rows_agree(p, 0, file, a - 2, 1) == (texts[0] == lines[a - 2])) by {
            if rows::rows_agree(p, 0, file, a - 2, 1) {
                assert(p[0int + 0int].text == file[a - 2 + 0].text);
            }
        }
        assert(boundary::any_content(p, 0, 1) == rows::has_content(texts[0]));
        assert(boundary::leading_echo(p, file, a, 0) == 0);
    }
}

proof fn lemma_trailing_one(texts: Seq<Seq<char>>, lines: Seq<Seq<char>>, b: int, k: int)
    requires
        0 <= b <= lines.len(),
        0 <= k <= lines.len() - b,
        k <= texts.len(),
        forall|t: int|
            0 <= t < texts.len() - 1 && b < lines.len() ==> (#[trigger] texts[t]) != lines[b],
    ensures
        boundary::trailing_echo(rows::rows_of(texts), rows::rows_of(lines), b, k) == (if k > 0
            && texts.last() == lines[b] && rows::has_content(texts.last()) {
            1int
        } else {
            0
        }),
    decreases k,
{
    let p = rows::rows_of(texts);
    let file = rows::rows_of(lines);
    let n = texts.len() as int;
    if k > 1 {
        if rows::rows_agree(p, n - k, file, b, k) {
            assert(p[(n - k) + 0].text == file[b + 0].text);
            assert(texts[n - k] != lines[b]);
        }
        lemma_trailing_one(texts, lines, b, k - 1);
    } else if k == 1 {
        assert(p[n - 1] == rows::row_of(texts[n - 1]));
        assert(file[b] == rows::row_of(lines[b]));
        assert(rows::rows_agree(p, n - 1, file, b, 1) == (texts[n - 1] == lines[b])) by {
            if rows::rows_agree(p, n - 1, file, b, 1) {
                assert(p[(n - 1) + 0].text == file[b + 0].text);
            }
        }
        assert(boundary::any_content(p, n - 1, n) == rows::has_content(texts[n - 1]));
        assert(boundary::trailing_echo(p, file, b, 0) == 0);
    }
}

/// When a body without brackets, put in the place of lines without any, is repaired. A first
/// row that restates the line above the range and a last row that restates the line below it
/// are both left out; one of the two alone is left out of a body that replaces several lines,
/// and the first row alone is kept in a body that replaces a single line. Rows that restate
/// nothing are never left out.
pub proof fn law_restated_rows(
    s: Seq<char>,
    a: u32,
    b: u32,
    texts: Seq<Seq<char>>,
)
    requires
        2 <= a <= b < text::lines(s).len() <= u32::MAX,
        3 <= texts.len(),
        swap_edits_len(a, b, texts) <= usize::MAX,
        forall|i: int| 0 <= i < texts.len() ==> is_bracketless(#[trigger] texts[i]),
        forall|i: int| a - 1 <= i < b ==> is_bracketless(#[trigger] text::lines(s)[i]),
        forall|i: int|
            a - 1 <= i < b ==> !engines::found(
                patterns::STRUCTURAL_CLOSER_PATTERN@,
                #[trigger] text::lines(s)[i],
            ),
        forall|t: int| 0 < t < texts.len() ==> (#[trigger] texts[t]) != text::lines(s)[a - 2],
        forall|t: int|
            0 <= t < texts.len() - 1 ==> (#[trigger] texts[t]) != text::lines(s)[b as int],
    ensures
        ({
            let lines = text::lines(s);
            let n = texts.len() as int;
            let first = texts[0] == lines[a - 2] && rows::has_content(texts[0]);
            let last = texts[n - 1] == lines[b as int] && rows::has_content(texts[n - 1]);
            let after = apply::applied(s, effects::swap_edits(a, b, texts), Map::empty()).0;
            let whole = |body: Seq<Seq<char>>| text::unlines(
                lines.take(a - 1) + body + lines.skip(b as int),
            );
            &&& first && last ==> after == whole(texts.subrange(1, n - 1))
            &&& first && !last && a < b ==> after == whole(texts.skip(1))
            &&& !first && last && a < b ==> after == whole(texts.take(n - 1))
            &&& first && !last && a == b ==> after == whole(texts)
            &&& !first && !last ==> after == whole(texts)
        }),
{
    let lines = text::lines(s);
    let file = rows::rows_of(lines);
    let n = texts.len() as int;
    let p = rows::rows_of(texts);
    let g = swap_group(a, b, texts);
    let up = boundary::least(n, a - 1);
    let down = boundary::least(n, lines.len() - b);
    lemma_leading_one(texts, lines, a as int, up);
    lemma_trailing_one(texts, lines, b as int, down);
    let leading = boundary::leading_count(p, file, g);
    let trailing = boundary::trailing_count(p, file, g);
    lemma_span_nothing(texts, 0, n);
    lemma_span_nothing(lines, a - 1, b as int);
    lemma_span_nothing(texts, 0, leading);
    lemma_span_nothing(texts, n - trailing, n);
    let zero = DelimiterBalance::zero();
    assert(zero.minus(zero) == zero);
    assert(zero.negated() == zero);
    assert(boundary::group_delta(p, file, g) == zero);
    assert(!effects::is_phantom(lines, b as int));
    let (x, y, f, c) = lemma_swap_in_full(s, a, b, texts, Map::empty());
    if c > 0 {
        assert(!engines::found(patterns::STRUCTURAL_CLOSER_PATTERN@, lines[f]));
    }
    assert(lines.subrange(f, f + 0) =~= Seq::empty());
    let body = texts.subrange(x, n - y);
    assert(lines.take(a - 1) + body + Seq::<Seq<char>>::empty() + lines.skip(b as int)
        =~= lines.take(a - 1) + body + lines.skip(b as int));
    assert(texts.subrange(1, n) =~= texts.skip(1));
    assert(texts.subrange(0, n - 1) =~= texts.take(n - 1));
    assert(texts.subrange(0, n) =~= texts);
}

/// How many edits a replacement has.
pub open spec fn swap_edits_len(a: u32, b: u32, texts: Seq<Seq<char>>) -> int {
    texts.len() + (b - a + 1)
}

} // verus!
