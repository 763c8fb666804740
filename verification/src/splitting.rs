//! What a whole patch is made of: its sections, as they are written.

use vstd::prelude::*;

use crate::parser;
use crate::sections;
use crate::sections::{RawSectionView, SplitView};
use crate::text;
use crate::tokenizer;
use crate::types::PatchSectionView;

verus! {

// ── Sections as they are written ─────────────────────────────────────────

/// A section as it is written: the line of its header and the lines of its body.
pub struct WrittenSection {
    pub header: Seq<char>,
    pub body: Seq<Seq<char>>,
}

/// A line that can stand in the body of a section: it neither opens a section nor an envelope.
pub open spec fn is_body_line(s: Seq<char>) -> bool {
    text::is_one_line(s) && (s.len() == 0 || (s[0] != '[' && s[0] != '*'))
}

/// A section that names `path` and `tag`, and says something in its body.
pub open spec fn names(w: WrittenSection, path: Seq<char>, tag: Option<Seq<char>>) -> bool {
    &&& text::is_one_line(w.header)
    &&& sections::header_line(w.header) == Ok::<
        Option<(Seq<char>, Option<Seq<char>>)>,
        Seq<char>,
    >(Some((path, tag)))
    &&& forall|i: int| 0 <= i < w.body.len() ==> is_body_line(#[trigger] w.body[i])
    &&& w.body.len() > 0 && w.body.last().len() > 0
    &&& exists|i: int| 0 <= i < w.body.len() && !text::is_blank(#[trigger] w.body[i])
}

/// The lines of a patch, section for section.
pub open spec fn all_lines(ws: Seq<WrittenSection>) -> Seq<Seq<char>> {
    ws.map_values(|w: WrittenSection| seq![w.header] + w.body).flatten()
}

/// The sections that a patch holds: what each header names, and the body as it is written.
pub open spec fn held(
    ws: Seq<WrittenSection>,
    heads: Seq<(Seq<char>, Option<Seq<char>>)>,
) -> Seq<RawSectionView> {
    Seq::new(
        ws.len(),
        |i: int|
            RawSectionView {
                path: heads[i].0,
                file_hash: heads[i].1,
                diff: text::unlines(ws[i].body),
            },
    )
}

// ── Lines of a patch ─────────────────────────────────────────────────────

proof fn lemma_first_kept(s: Seq<char>)
    ensures
        tokenizer::trim_ascii(s).len() > 0 ==> s.len() > 0 && tokenizer::trim_ascii(s)[0] == s[0],
        text::trim_end(s).len() > 0 ==> s.len() > 0 && text::trim_end(s)[0] == s[0],
    decreases s.len(),
{
    if s.len() > 0 {
        lemma_first_kept(s.drop_last());
    }
}

proof fn lemma_no_marker(s: Seq<char>)
    requires
        s.len() == 0 || s[0] != '*',
    ensures
        !tokenizer::envelope_marker(s),
{
    lemma_first_kept(s);
    reveal_strlit("*** Begin Patch");
    reveal_strlit("*** End Patch");
    reveal_strlit("*** Abort");
    assert("*** Begin Patch"@[0] == '*');
    assert("*** End Patch"@[0] == '*');
    assert("*** Abort"@[0] == '*');
}

/// A line of a body is put to the body.
proof fn lemma_body_line(st: SplitView, line: Seq<char>)
    requires
        is_body_line(line),
        !st.stopped,
        st.error is None,
    ensures
        sections::split_line(st, line) == (SplitView { lines: st.lines.push(line), ..st }),
{
    lemma_no_marker(line);
    lemma_first_kept(line);
}

/// A header closes the section before it.
proof fn lemma_header_line(st: SplitView, w: WrittenSection, path: Seq<char>, tag: Option<Seq<char>>)
    requires
        names(w, path, tag),
        !st.stopped,
        st.error is None,
    ensures
        sections::split_line(st, w.header) == (SplitView {
            sections: sections::closed_section(st),
            current: Some((path, tag)),
            lines: Seq::empty(),
            ..st
        }),
        w.header.len() > 0,
        w.header[0] == '[',
{
    lemma_first_kept(w.header);
    lemma_no_marker(w.header);
}

proof fn lemma_body_read(ls: Seq<Seq<char>>, body: Seq<Seq<char>>)
    requires
        !sections::split_lines(ls).stopped,
        sections::split_lines(ls).error is None,
        sections::split_lines(ls).lines.len() == 0,
        forall|i: int| 0 <= i < body.len() ==> is_body_line(#[trigger] body[i]),
    ensures
        sections::split_lines(ls + body) == (SplitView {
            lines: body,
            ..sections::split_lines(ls)
        }),
    decreases body.len(),
{
    let st = sections::split_lines(ls);
    if body.len() == 0 {
        assert(ls + body =~= ls);
        assert(st.lines =~= body);
    } else {
        let rest = body.drop_last();
        assert forall|i: int| 0 <= i < rest.len() implies is_body_line(#[trigger] rest[i]) by {
            assert(rest[i] == body[i]);
        }
        lemma_body_read(ls, rest);
        assert((ls + body).drop_last() =~= ls + rest);
        assert(is_body_line(body[body.len() - 1]));
        lemma_body_line(sections::split_lines(ls + rest), body.last());
        assert(rest.push(body.last()) =~= body);
    }
}

proof fn lemma_one_more(ws: Seq<WrittenSection>)
    requires
        ws.len() > 0,
    ensures
        all_lines(ws) == all_lines(ws.drop_last()).push(ws.last().header) + ws.last().body,
{
    let f = |w: WrittenSection| seq![w.header] + w.body;
    let a = ws.map_values(f);
    a.lemma_flatten_and_flatten_alt_are_equivalent();
    a.drop_last().lemma_flatten_and_flatten_alt_are_equivalent();
    assert(a.drop_last() =~= ws.drop_last().map_values(f));
    assert(all_lines(ws) =~= all_lines(ws.drop_last()).push(ws.last().header) + ws.last().body);
}

proof fn lemma_sections_read(ws: Seq<WrittenSection>, heads: Seq<(Seq<char>, Option<Seq<char>>)>)
    requires
        ws.len() == heads.len(),
        forall|i: int| 0 <= i < ws.len() ==> names(#[trigger] ws[i], heads[i].0, heads[i].1),
    ensures
        ({
            let st = sections::split_lines(all_lines(ws));
            &&& !st.stopped
            &&& st.error is None
            &&& sections::closed_section(st) == held(ws, heads)
        }),
    decreases ws.len(),
{
    if ws.len() == 0 {
        assert(all_lines(ws) =~= Seq::empty());
        assert(held(ws, heads) =~= Seq::empty());
    } else {
        let ws0 = ws.drop_last();
        let heads0 = heads.drop_last();
        let w = ws.last();
        let h = heads.last();
        assert forall|i: int| 0 <= i < ws0.len() implies names(
            #[trigger] ws0[i],
            heads0[i].0,
            heads0[i].1,
        ) by {
            assert(ws0[i] == ws[i]);
        }
        assert(names(ws[ws.len() - 1], h.0, h.1));
        lemma_sections_read(ws0, heads0);
        lemma_one_more(ws);
        let before = all_lines(ws0);
        assert(before.push(w.header).drop_last() =~= before);
        lemma_header_line(sections::split_lines(before), w, h.0, h.1);
        lemma_body_read(before.push(w.header), w.body);
        assert(held(ws, heads) =~= held(ws0, heads0).push(
            RawSectionView { path: h.0, file_hash: h.1, diff: text::unlines(w.body) },
        ));
    }
}

proof fn lemma_lines_plain(ws: Seq<WrittenSection>, heads: Seq<(Seq<char>, Option<Seq<char>>)>)
    requires
        ws.len() > 0,
        ws.len() == heads.len(),
        forall|i: int| 0 <= i < ws.len() ==> names(#[trigger] ws[i], heads[i].0, heads[i].1),
    ensures
        forall|i: int|
            0 <= i < all_lines(ws).len() ==> text::is_one_line(#[trigger] all_lines(ws)[i]),
        all_lines(ws).len() > 1,
        all_lines(ws)[0] == ws[0].header,
        all_lines(ws).last() == ws.last().body.last(),
        ws[0].header.len() > 0,
        ws[0].header[0] == '[',
    decreases ws.len(),
{
    let ws0 = ws.drop_last();
    let heads0 = heads.drop_last();
    let w = ws.last();
    lemma_one_more(ws);
    let all = all_lines(ws);
    let k = all_lines(ws0).len();
    assert(names(ws[ws.len() - 1], heads.last().0, heads.last().1));
    if ws0.len() == 0 {
        assert(all_lines(ws0) =~= Seq::empty());
        lemma_first_kept(w.header);
    } else {
        assert forall|i: int| 0 <= i < ws0.len() implies names(
            #[trigger] ws0[i],
            heads0[i].0,
            heads0[i].1,
        ) by {
            assert(ws0[i] == ws[i]);
        }
        lemma_lines_plain(ws0, heads0);
    }
    assert forall|i: int| 0 <= i < all.len() implies text::is_one_line(#[trigger] all[i]) by {
        if i < k {
            assert(all[i] == all_lines(ws0)[i]);
        } else if i > k {
            assert(all[i] == w.body[i - k - 1]);
            assert(is_body_line(w.body[i - k - 1]));
        }
    }
    assert(all.last() == w.body.last());
}

// ── Laws ─────────────────────────────────────────────────────────────────

/// A patch written section by section is split into those sections: each with the path and
/// the tag that its header names and with its body unchanged, in order.
pub proof fn law_sections_split(
    ws: Seq<WrittenSection>,
    heads: Seq<(Seq<char>, Option<Seq<char>>)>,
)
    requires
        ws.len() > 0,
        ws.len() == heads.len(),
        forall|i: int| 0 <= i < ws.len() ==> names(#[trigger] ws[i], heads[i].0, heads[i].1),
    ensures
        sections::raw_sections(text::unlines(all_lines(ws)), None) == Ok::<
            Seq<RawSectionView>,
            Seq<char>,
        >(held(ws, heads)),
{
    let ls = all_lines(ws);
    let input = text::unlines(ls);
    lemma_lines_plain(ws, heads);
    lemma_sections_read(ws, heads);
    assert(names(ws[0], heads[0].0, heads[0].1));
    assert(names(ws[ws.len() - 1], heads.last().0, heads.last().1));
    text::law_split_join(ls, '\n');
    lemma_starts_with(ls);
    assert(sections::without_bom(input) == input);
    assert(text::strip_cr(ls[0]) == ls[0]);
    lemma_no_marker(ls[0]);
    lemma_not_blank(ls[0]);
    assert(sections::drop_preamble(ls) == ls);
    text::law_join_split(input, '\n');
    assert(sections::body_of(input) == input);
    assert(tokenizer::diff_lines(input) =~= ls) by {
        assert forall|i: int| 0 <= i < ls.len() implies text::strip_cr(#[trigger] ls[i])
            == ls[i] by {
            assert(text::is_one_line(ls[i]));
        }
    }
}

proof fn lemma_starts_with(ls: Seq<Seq<char>>)
    requires
        ls.len() > 0,
        ls[0].len() > 0,
        ls[0][0] == '[',
    ensures
        text::unlines(ls).len() > 0,
        text::unlines(ls)[0] == '[',
    decreases ls.len(),
{
    if ls.len() > 1 {
        lemma_starts_with(ls.drop_last());
    }
}

proof fn lemma_not_blank(s: Seq<char>)
    requires
        s.len() > 0,
        s[0] == '[',
    ensures
        !text::is_blank(s),
{
    assert(!text::is_white('['));
    assert(text::trim_start(s) == s);
    lemma_trim_end_keeps(s);
}

proof fn lemma_trim_end_keeps(s: Seq<char>)
    requires
        s.len() > 0,
        s[0] == '[',
    ensures
        text::trim_end(s).len() > 0,
    decreases s.len(),
{
    assert(!text::is_white('['));
    if text::is_white(s.last()) {
        lemma_trim_end_keeps(s.drop_last());
    }
}

/// Two sections of one path whose tags differ.
pub open spec fn in_conflict(a: RawSectionView, b: RawSectionView) -> bool {
    a.path == b.path && a.file_hash is Some && b.file_hash is Some && a.file_hash != b.file_hash
}

/// The bodies of the sections of a path, in order.
pub open spec fn bodies_of(all: Seq<RawSectionView>, path: Seq<char>) -> Seq<Seq<char>> {
    all.filter(|s: RawSectionView| s.path == path).map_values(|s: RawSectionView| s.diff)
}

proof fn lemma_section_index(done: Seq<RawSectionView>, path: Seq<char>, i: int)
    requires
        0 <= i <= done.len(),
    ensures
        i <= sections::section_index(done, path, i) <= done.len(),
        sections::section_index(done, path, i) < done.len()
            ==> done[sections::section_index(done, path, i)].path == path,
        forall|j: int|
            i <= j < sections::section_index(done, path, i) ==> (#[trigger] done[j]).path != path,
    decreases done.len() - i,
{
    if i < done.len() && done[i].path != path {
        lemma_section_index(done, path, i + 1);
    }
}

/// One more section, among the bodies of a path.
proof fn lemma_bodies_step(all: Seq<RawSectionView>, path: Seq<char>)
    requires
        all.len() > 0,
    ensures
        bodies_of(all, path) == (if all.last().path == path {
            bodies_of(all.drop_last(), path).push(all.last().diff)
        } else {
            bodies_of(all.drop_last(), path)
        }),
{
    reveal(Seq::filter);
    let f = |s: RawSectionView| s.diff;
    let rest = all.drop_last().filter(|s: RawSectionView| s.path == path);
    assert(rest.push(all.last()).map_values(f) =~= rest.map_values(f).push(all.last().diff));
}

/// Lists of sections of the same paths are searched alike.
proof fn lemma_index_alike(
    a: Seq<RawSectionView>,
    b: Seq<RawSectionView>,
    path: Seq<char>,
    i: int,
)
    requires
        0 <= i <= a.len() <= b.len(),
        forall|k: int| 0 <= k < a.len() ==> (#[trigger] a[k]).path == b[k].path,
    ensures
        sections::section_index(a, path, i) < a.len() ==> sections::section_index(b, path, i)
            == sections::section_index(a, path, i),
        a.len() == b.len() ==> sections::section_index(b, path, i) == sections::section_index(
            a,
            path,
            i,
        ),
    decreases a.len() - i,
{
    if i < a.len() {
        assert(a[i].path == b[i].path);
        if a[i].path != path {
            lemma_index_alike(a, b, path, i + 1);
        }
    }
}

/// What merging made of the sections of one path.
spec fn is_merged_at(done: Seq<RawSectionView>, all: Seq<RawSectionView>, path: Seq<char>) -> bool {
    let k = sections::section_index(done, path, 0);
    &&& k < done.len() <==> bodies_of(all, path).len() > 0
    &&& k < done.len() ==> done[k].diff == text::unlines(bodies_of(all, path))
    &&& k < done.len() && done[k].file_hash is Some ==> exists|i: int|
        0 <= i < all.len() && (#[trigger] all[i]).path == path && all[i].file_hash
            == done[k].file_hash
    &&& k < done.len() ==> forall|i: int|
        0 <= i < all.len() && (#[trigger] all[i]).path == path && all[i].file_hash is Some
            ==> done[k].file_hash == all[i].file_hash
}

/// No two sections of a path bear different tags.
pub open spec fn in_accord(all: Seq<RawSectionView>) -> bool {
    forall|i: int, j: int|
        0 <= i < j < all.len() ==> !in_conflict(#[trigger] all[i], #[trigger] all[j])
}

proof fn lemma_merged_ok(done: Seq<RawSectionView>, all: Seq<RawSectionView>)
    requires
        all.len() > 0,
        in_accord(all),
        is_merged_at(done, all.drop_last(), all.last().path),
    ensures
        sections::merged_one(Ok(done), all.last()) is Ok,
{
    let rest = all.drop_last();
    let s = all.last();
    let k = sections::section_index(done, s.path, 0);
    if k < done.len() && done[k].file_hash is Some && s.file_hash is Some {
        let i = choose|i: int|
            0 <= i < rest.len() && (#[trigger] rest[i]).path == s.path && rest[i].file_hash
                == done[k].file_hash;
        assert(rest[i] == all[i]);
        assert(!in_conflict(all[i], all[all.len() - 1]));
    }
}

proof fn lemma_merged_step(
    done: Seq<RawSectionView>,
    all: Seq<RawSectionView>,
    path: Seq<char>,
)
    requires
        all.len() > 0,
        in_accord(all),
        is_merged_at(done, all.drop_last(), path),
        sections::merged_one(Ok(done), all.last()) is Ok,
        all.last().path != path,
    ensures
        is_merged_at(sections::merged_one(Ok(done), all.last())->Ok_0, all, path),
{
    let rest = all.drop_last();
    let s = all.last();
    let next = sections::merged_one(Ok(done), s)->Ok_0;
    let m = sections::section_index(done, s.path, 0);
    let k = sections::section_index(done, path, 0);
    lemma_section_index(done, s.path, 0);
    lemma_section_index(done, path, 0);
    lemma_section_index(next, path, 0);
    lemma_bodies_step(all, path);
    lemma_index_alike(done, next, path, 0);
    if k < done.len() {
        assert(next[k] == done[k]);
        if done[k].file_hash is Some {
            let i = choose|i: int|
                0 <= i < rest.len() && (#[trigger] rest[i]).path == path && rest[i].file_hash
                    == done[k].file_hash;
            assert(all[i] == rest[i]);
        }
        assert forall|i: int|
            0 <= i < all.len() && (#[trigger] all[i]).path == path && all[i].file_hash is Some implies next[k].file_hash
            == all[i].file_hash by {
            assert(i < rest.len());
            assert(rest[i] == all[i]);
        }
    }
}

proof fn lemma_merged_own(done: Seq<RawSectionView>, all: Seq<RawSectionView>)
    requires
        all.len() > 0,
        in_accord(all),
        is_merged_at(done, all.drop_last(), all.last().path),
        sections::merged_one(Ok(done), all.last()) is Ok,
    ensures
        is_merged_at(sections::merged_one(Ok(done), all.last())->Ok_0, all, all.last().path),
{
    let rest = all.drop_last();
    let s = all.last();
    let next = sections::merged_one(Ok(done), s)->Ok_0;
    let m = sections::section_index(done, s.path, 0);
    lemma_section_index(done, s.path, 0);
    lemma_section_index(next, s.path, 0);
    lemma_bodies_step(all, s.path);
    lemma_index_alike(done, next, s.path, 0);
    reveal_strlit("\n");
    assert("\n"@ =~= seq!['\n']);
    let bs = bodies_of(rest, s.path);
    assert(bs.push(s.diff).drop_last() =~= bs);
    assert(all[all.len() - 1] == s);
    if m < done.len() {
        assert(next[m].diff == text::unlines(bs.push(s.diff)));
        if done[m].file_hash is Some {
            let i = choose|i: int|
                0 <= i < rest.len() && (#[trigger] rest[i]).path == s.path && rest[i].file_hash
                    == done[m].file_hash;
            assert(all[i] == rest[i]);
        }
        assert forall|i: int|
            0 <= i < all.len() && (#[trigger] all[i]).path == s.path && all[i].file_hash is Some implies next[m].file_hash
            == all[i].file_hash by {
            if i < rest.len() {
                assert(rest[i] == all[i]);
            }
        }
    } else {
        assert(bs =~= Seq::empty());
        assert(text::unlines(bs.push(s.diff)) =~= s.diff);
        assert(next[done.len() as int] == s);
        assert(sections::section_index(next, s.path, 0) == done.len()) by {
            let l = sections::section_index(next, s.path, 0);
            if l < done.len() {
                assert(next[l] == done[l]);
            }
            if l > done.len() {
                assert(next[done.len() as int].path != s.path);
            }
        }
        assert forall|i: int|
            0 <= i < all.len() && (#[trigger] all[i]).path == s.path && all[i].file_hash is Some implies s.file_hash
            == all[i].file_hash by {
            if i < rest.len() {
                assert(rest[i] == all[i]);
                lemma_body_found(rest, i);
            }
        }
    }
}

proof fn lemma_body_found(all: Seq<RawSectionView>, i: int)
    requires
        0 <= i < all.len(),
    ensures
        bodies_of(all, all[i].path).len() > 0,
    decreases all.len(),
{
    lemma_bodies_step(all, all[i].path);
    if i < all.len() - 1 {
        assert(all.drop_last()[i] == all[i]);
        lemma_body_found(all.drop_last(), i);
    }
}

proof fn lemma_merged_at(all: Seq<RawSectionView>, path: Seq<char>)
    requires
        in_accord(all),
    ensures
        sections::merged(all) is Ok,
        is_merged_at(sections::merged(all)->Ok_0, all, path),
    decreases all.len(),
{
    if all.len() == 0 {
        reveal(Seq::filter);
        assert(bodies_of(all, path) =~= Seq::empty());
    } else {
        let rest = all.drop_last();
        assert(in_accord(rest)) by {
            assert forall|i: int, j: int| 0 <= i < j < rest.len() implies !in_conflict(
                #[trigger] rest[i],
                #[trigger] rest[j],
            ) by {
                assert(rest[i] == all[i] && rest[j] == all[j]);
            }
        }
        lemma_merged_at(rest, all.last().path);
        lemma_merged_at(rest, path);
        let done = sections::merged(rest)->Ok_0;
        lemma_merged_ok(done, all);
        if all.last().path == path {
            lemma_merged_own(done, all);
        } else {
            lemma_merged_step(done, all, path);
        }
    }
}

proof fn lemma_merged_distinct(all: Seq<RawSectionView>)
    ensures
        sections::merged(all) matches Ok(done) ==> forall|k: int, l: int|
            0 <= k < l < done.len() ==> (#[trigger] done[k]).path != (#[trigger] done[l]).path,
    decreases all.len(),
{
    if all.len() > 0 {
        lemma_merged_distinct(all.drop_last());
        match sections::merged(all.drop_last()) {
            Ok(done) => {
                lemma_section_index(done, all.last().path, 0);
            },
            Err(_) => {},
        }
    }
}

/// Sections of one path become one, whose body is made of all the bodies of the path, in
/// order, one below the other, and whose tag is the one that sections of the path bear. A path
/// that no section names is not there, and none is there twice.
pub proof fn law_sections_merged(all: Seq<RawSectionView>, path: Seq<char>)
    requires
        in_accord(all),
    ensures
        sections::merged(all) matches Ok(done) && {
            &&& forall|k: int, l: int|
                0 <= k < l < done.len() ==> (#[trigger] done[k]).path != (#[trigger] done[l]).path
            &&& bodies_of(all, path).len() == 0 ==> forall|k: int|
                0 <= k < done.len() ==> (#[trigger] done[k]).path != path
            &&& bodies_of(all, path).len() > 0 ==> exists|k: int|
                0 <= k < done.len() && (#[trigger] done[k]).path == path && done[k].diff
                    == text::unlines(bodies_of(all, path)) && forall|i: int|
                    0 <= i < all.len() && (#[trigger] all[i]).path == path && all[i].file_hash
                        is Some ==> done[k].file_hash == all[i].file_hash
        },
{
    lemma_merged_at(all, path);
    lemma_merged_distinct(all);
    let done = sections::merged(all)->Ok_0;
    lemma_section_index(done, path, 0);
    if bodies_of(all, path).len() > 0 {
        assert(done[sections::section_index(done, path, 0)].path == path);
    }
}

/// Where two sections of one path bear different tags, there is no merging them.
pub proof fn law_conflict_refused(all: Seq<RawSectionView>)
    requires
        !in_accord(all),
    ensures
        sections::merged(all) is Err,
    decreases all.len(),
{
    let (i, j) = choose|i: int, j: int|
        0 <= i < j < all.len() && in_conflict(#[trigger] all[i], #[trigger] all[j]);
    let rest = all.drop_last();
    if !in_accord(rest) {
        law_conflict_refused(rest);
    } else {
        if j < rest.len() {
            assert(in_conflict(rest[i], rest[j]));
        }
        assert(j == all.len() - 1);
        lemma_merged_at(rest, all.last().path);
        assert(rest[i] == all[i]);
        lemma_body_found(rest, i);
        let done = sections::merged(rest)->Ok_0;
        lemma_section_index(done, all.last().path, 0);
    }
}

proof fn lemma_distinct_merged(all: Seq<RawSectionView>)
    requires
        forall|i: int, j: int|
            0 <= i < j < all.len() ==> (#[trigger] all[i]).path != (#[trigger] all[j]).path,
    ensures
        sections::merged(all) == Ok::<Seq<RawSectionView>, Seq<char>>(all),
    decreases all.len(),
{
    if all.len() == 0 {
        assert(all =~= Seq::empty());
    } else {
        let rest = all.drop_last();
        assert forall|i: int, j: int| 0 <= i < j < rest.len() implies (#[trigger] rest[i]).path != (
        #[trigger] rest[j]).path by {
            assert(rest[i] == all[i] && rest[j] == all[j]);
        }
        lemma_distinct_merged(rest);
        let k = sections::section_index(rest, all.last().path, 0);
        lemma_section_index(rest, all.last().path, 0);
        if k < rest.len() {
            assert(all[k].path != all[all.len() - 1].path);
        }
        assert(rest.push(all.last()) =~= all);
    }
}

/// A patch for several files is read file by file: each section, in order, with the path and
/// the tag of its header, and with what its body parses to.
pub proof fn law_patch_for_files(
    ws: Seq<WrittenSection>,
    heads: Seq<(Seq<char>, Option<Seq<char>>)>,
)
    requires
        ws.len() > 0,
        ws.len() == heads.len(),
        forall|i: int| 0 <= i < ws.len() ==> names(#[trigger] ws[i], heads[i].0, heads[i].1),
        forall|i: int, j: int|
            0 <= i < j < heads.len() ==> (#[trigger] heads[i]).0 != (#[trigger] heads[j]).0,
    ensures
        sections::sections(text::unlines(all_lines(ws)), None) == Seq::new(
            ws.len(),
            |i: int|
                {
                    let p = parser::parsed(text::unlines(ws[i].body));
                    PatchSectionView {
                        path: heads[i].0,
                        file_hash: heads[i].1,
                        edits: p.edits,
                        file_op: p.file_op,
                        warnings: p.warnings,
                    }
                },
        ),
{
    let all = held(ws, heads);
    law_sections_split(ws, heads);
    assert forall|i: int, j: int| 0 <= i < j < all.len() implies (#[trigger] all[i]).path != (
    #[trigger] all[j]).path by {
        assert(heads[i].0 != heads[j].0);
    }
    lemma_distinct_merged(all);
    assert(sections::sections(text::unlines(all_lines(ws)), None) =~= Seq::new(
        ws.len(),
        |i: int|
            {
                let p = parser::parsed(text::unlines(ws[i].body));
                PatchSectionView {
                    path: heads[i].0,
                    file_hash: heads[i].1,
                    edits: p.edits,
                    file_op: p.file_op,
                    warnings: p.warnings,
                }
            },
    ));
}

} // verus!
