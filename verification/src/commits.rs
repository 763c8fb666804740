//! What a patch does to the files that it names.

use vstd::prelude::*;

use crate::patcher;
use crate::patcher::{FileActionView, FileStateView, PreparedSectionView, SectionOp};
use crate::paths;
use crate::recovery;
use crate::sections;
use crate::snapshots::{SnapshotView, StoreView};
use crate::text;
use crate::types::{BlockSpan, FileOpView, PatchSectionView};

verus! {

// ── What is done to a file ───────────────────────────────────────────────

/// A section that removes its file removes it; one that moves it writes what was made of it at
/// the destination; any other writes what was made of it, in its place, unless that is what it
/// was.
pub proof fn law_actions(p: PreparedSectionView)
    ensures
        p.file_op == Some(FileOpView::Rem) ==> patcher::action_of(p) == (FileActionView::Remove {
            path: p.section.path,
        }),
        p.file_op matches Some(FileOpView::Mv { dest }) ==> patcher::action_of(p) == (
        FileActionView::Move { from: p.section.path, dest, text: p.apply_result.text }),
        p.file_op is None && p.apply_result.text != p.normalized ==> patcher::action_of(p) == (
        FileActionView::Write { path: p.section.path, text: p.apply_result.text }),
        p.file_op is None && p.apply_result.text == p.normalized ==> patcher::action_of(p)
            == FileActionView::Keep,
{
}

/// What is told of a file that was written: the text before and after with plain line ends,
/// the header to cite next, which bears the tag of the text that was written, the first line
/// that differs, and every warning, those of the parse first.
pub proof fn law_write_reported(
    st: StoreView,
    p: PreparedSectionView,
    dest_canonical: Seq<char>,
)
    requires
        p.file_op is None,
        p.apply_result.text != p.normalized,
    ensures
        patcher::committed(st, p, dest_canonical, None).1 matches Ok(r) && {
            &&& r.path == p.section.path
            &&& r.canonical_path == p.canonical_path
            &&& r.op == (if p.exists {
                SectionOp::Update
            } else {
                SectionOp::Create
            })
            &&& r.before == text::lf(p.normalized)
            &&& r.after == text::lf(p.apply_result.text)
            &&& r.file_hash == crate::format::tag(p.apply_result.text)
            &&& r.header == crate::format::header(
                p.section.path,
                crate::format::tag(p.apply_result.text),
            )
            &&& r.warnings == p.parse_warnings + p.apply_result.warnings
            &&& r.first_changed_line == recovery::first_changed(r.before, r.after)
            &&& r.move_dest is None
        },
{
}

/// A write that fails is reported with the fault and changes nothing that is known.
pub proof fn law_failure_reported(
    st: StoreView,
    p: PreparedSectionView,
    dest_canonical: Seq<char>,
    fault: Seq<char>,
)
    requires
        p.file_op is None,
        p.apply_result.text != p.normalized,
    ensures
        patcher::committed(st, p, dest_canonical, Some(fault)).0 == st,
        patcher::committed(st, p, dest_canonical, Some(fault)).1 matches Err(m) && m == fault,
{
}

// ── What is refused ──────────────────────────────────────────────────────

/// Two of the sections work on one file.
pub open spec fn share_file(list: Seq<PreparedSectionView>) -> bool {
    exists|i: int, j: int|
        0 <= i < j < list.len() && (#[trigger] list[i]).canonical_path == (
        #[trigger] list[j]).canonical_path
}

/// One of the sections does nothing.
pub open spec fn one_idle(list: Seq<PreparedSectionView>) -> bool {
    exists|i: int|
        0 <= i < list.len() && (#[trigger] list[i]).file_op is None && list[i].apply_result.text
            == list[i].normalized
}

proof fn lemma_holder(list: Seq<PreparedSectionView>, canonical: Seq<char>)
    ensures
        patcher::holder(list, canonical) is Some <==> exists|i: int|
            0 <= i < list.len() && (#[trigger] list[i]).canonical_path == canonical,
    decreases list.len(),
{
    if list.len() > 0 {
        let rest = list.drop_last();
        lemma_holder(rest, canonical);
        if patcher::holder(rest, canonical) is Some {
            let i = choose|i: int|
                0 <= i < rest.len() && (#[trigger] rest[i]).canonical_path == canonical;
            assert(list[i].canonical_path == canonical);
        } else if patcher::holder(list, canonical) is Some {
            assert(list[list.len() - 1].canonical_path == canonical);
        } else {
            assert forall|i: int| 0 <= i < list.len() implies (#[trigger] list[i]).canonical_path
                != canonical by {
                if i < rest.len() {
                    assert(rest[i] == list[i]);
                }
            }
        }
    }
}

proof fn lemma_clash(list: Seq<PreparedSectionView>)
    ensures
        patcher::clash(list) is Some <==> share_file(list),
    decreases list.len(),
{
    if list.len() > 0 {
        let rest = list.drop_last();
        let last = list[list.len() - 1];
        lemma_clash(rest);
        lemma_holder(rest, last.canonical_path);
        if share_file(rest) {
            let (i, j) = choose|i: int, j: int|
                0 <= i < j < rest.len() && (#[trigger] rest[i]).canonical_path == (
                #[trigger] rest[j]).canonical_path;
            assert(list[i].canonical_path == list[j].canonical_path);
        } else if patcher::holder(rest, last.canonical_path) is Some {
            let i = choose|i: int|
                0 <= i < rest.len() && (#[trigger] rest[i]).canonical_path
                    == last.canonical_path;
            assert(list[i].canonical_path == list[list.len() - 1].canonical_path);
        } else if share_file(list) {
            let (i, j) = choose|i: int, j: int|
                0 <= i < j < list.len() && (#[trigger] list[i]).canonical_path == (
                #[trigger] list[j]).canonical_path;
            assert(rest[i] == list[i]);
            if j < rest.len() {
                assert(rest[j] == list[j]);
            }
        }
    }
}

proof fn lemma_idle(list: Seq<PreparedSectionView>)
    ensures
        patcher::idle(list) is Some <==> one_idle(list),
    decreases list.len(),
{
    if list.len() > 0 {
        let rest = list.drop_last();
        lemma_idle(rest);
        if one_idle(rest) {
            let i = choose|i: int|
                0 <= i < rest.len() && (#[trigger] rest[i]).file_op is None
                    && rest[i].apply_result.text == rest[i].normalized;
            assert(list[i] == rest[i]);
        } else if patcher::idle(list) is Some {
            assert(list[list.len() - 1].file_op is None);
        } else if one_idle(list) {
            let i = choose|i: int|
                0 <= i < list.len() && (#[trigger] list[i]).file_op is None
                    && list[i].apply_result.text == list[i].normalized;
            if i < rest.len() {
                assert(rest[i] == list[i]);
            }
        }
    }
}

/// A patch is refused as a whole where two of its sections work on one file, and where one of
/// them does nothing; otherwise it is not.
pub proof fn law_batch_refused(list: Seq<PreparedSectionView>)
    ensures
        patcher::batch_refusal(list) is Some <==> share_file(list) || one_idle(list),
{
    lemma_clash(list);
    lemma_idle(list);
}

/// The lines that an edit names and that were never shown are those among its anchors that are
/// not among the lines seen, all of them and in order.
pub proof fn law_unseen(anchors: Seq<u32>, seen: Seq<u32>)
    ensures
        patcher::unseen(anchors, seen) == anchors.filter(|l: u32| !seen.contains(l)),
    decreases anchors.len(),
{
    reveal(Seq::filter);
    if anchors.len() > 0 {
        law_unseen(anchors.drop_last(), seen);
        let l = anchors.last();
        assert(recovery::holds_line(seen, l as int) == seen.contains(l)) by {
            if seen.contains(l) {
                let i = choose|i: int| 0 <= i < seen.len() && seen[i] == l;
                assert(seen[i] == l as int);
            }
            if recovery::holds_line(seen, l as int) {
                let i = choose|i: int| 0 <= i < seen.len() && (#[trigger] seen[i]) == l as int;
                assert(seen[i] == l);
            }
        }
    }
    assert(patcher::unseen(anchors, seen) =~= anchors.filter(|l: u32| !seen.contains(l)));
}

/// An edit of a version of which some lines were shown is refused exactly where it names a line
/// that was not.
pub proof fn law_unseen_refused(
    st: StoreView,
    canonical: Seq<char>,
    section: PatchSectionView,
    tag: Seq<char>,
    snap: SnapshotView,
)
    ensures
        patcher::seen_check(st, canonical, section, tag, snap).1 is Some <==> {
            &&& snap.seen_lines.len() > 0
            &&& exists|i: int|
                0 <= i < recovery::anchor_lines(section.edits).len() && !snap.seen_lines.contains(
                    #[trigger] recovery::anchor_lines(section.edits)[i],
                )
        },
{
    let anchors = recovery::anchor_lines(section.edits);
    let seen = snap.seen_lines;
    let p = |l: u32| !seen.contains(l);
    law_unseen(anchors, seen);
    let left = anchors.filter(p);
    if left.len() > 0 {
        anchors.lemma_filter_pred(p, 0);
        assert(left.contains(left[0]));
        anchors.lemma_filter_contains_rev(p, left[0]);
        let i = choose|i: int| 0 <= i < anchors.len() && anchors[i] == left[0];
        assert(!seen.contains(anchors[i]));
    }
    if exists|i: int| 0 <= i < anchors.len() && !seen.contains(#[trigger] anchors[i]) {
        let i = choose|i: int| 0 <= i < anchors.len() && !seen.contains(#[trigger] anchors[i]);
        anchors.lemma_filter_contains(p, i);
        assert(left.contains(anchors[i]));
    }
}

// ── What is prepared ─────────────────────────────────────────────────────

/// The paths that may be meant by a name are those with that name which are another file.
pub proof fn law_candidates(
    all: Seq<Seq<char>>,
    name: Seq<char>,
    canonical: Seq<char>,
    files: Seq<FileStateView>,
)
    ensures
        patcher::candidates(all, name, canonical, files) == all.filter(
            |p: Seq<char>|
                paths::base_name(p) == name && patcher::file_at(files, p, 0).canonical != canonical,
        ),
    decreases all.len(),
{
    reveal(Seq::filter);
    if all.len() > 0 {
        law_candidates(all.drop_last(), name, canonical, files);
    }
    assert(patcher::candidates(all, name, canonical, files) =~= all.filter(
        |p: Seq<char>|
            paths::base_name(p) == name && patcher::file_at(files, p, 0).canonical != canonical,
    ));
}

/// What a prepared section has of the section that was read.
pub open spec fn is_prepared(p: PreparedSectionView, s: PatchSectionView) -> bool {
    &&& p.section.edits == s.edits
    &&& p.section.file_hash == s.file_hash
    &&& p.file_op == s.file_op
    &&& p.parse_warnings == s.warnings
    &&& p.normalized == sections::without_bom(p.raw_content)
}

proof fn lemma_one_prepared(
    st: StoreView,
    s: PatchSectionView,
    files: Seq<FileStateView>,
    spans: Seq<Option<BlockSpan>>,
    has_resolver: bool,
)
    ensures
        patcher::section_prepared(st, s, files, spans, has_resolver).1 matches Ok(p)
            ==> is_prepared(p, s),
{
}

/// A patch is prepared section by section, in order: each section is there, with its edits, its
/// operation and its warnings, and with the text of its file without a byte order mark.
pub proof fn law_prepared_in_order(
    st: StoreView,
    all: Seq<PatchSectionView>,
    files: Seq<FileStateView>,
    answers: Seq<Seq<Option<BlockSpan>>>,
    has_resolver: bool,
)
    ensures
        patcher::sections_prepared(st, all, files, answers, has_resolver).1 matches Ok(list) ==> {
            &&& list.len() == all.len()
            &&& forall|i: int| 0 <= i < all.len() ==> is_prepared(#[trigger] list[i], all[i])
        },
    decreases all.len(),
{
    if all.len() > 0 {
        let rest = all.drop_last();
        let before = patcher::sections_prepared(
            st,
            rest,
            files,
            answers.drop_last(),
            has_resolver,
        );
        law_prepared_in_order(st, rest, files, answers.drop_last(), has_resolver);
        lemma_one_prepared(before.0, all.last(), files, answers.last(), has_resolver);
        lemma_prepared_step(st, all, files, answers, has_resolver);
    }
}

/// One more section, prepared behind the others.
proof fn lemma_prepared_step(
    st: StoreView,
    all: Seq<PatchSectionView>,
    files: Seq<FileStateView>,
    answers: Seq<Seq<Option<BlockSpan>>>,
    has_resolver: bool,
)
    requires
        all.len() > 0,
    ensures
        ({
            let before = patcher::sections_prepared(
                st,
                all.drop_last(),
                files,
                answers.drop_last(),
                has_resolver,
            );
            patcher::sections_prepared(st, all, files, answers, has_resolver).1 matches Ok(list)
                ==> (before.1 matches Ok(l) && patcher::section_prepared(
                before.0,
                all.last(),
                files,
                answers.last(),
                has_resolver,
            ).1 matches Ok(p) && list == l.push(p))
        }),
{
}

} // verus!
