//! `remote_edit`: a hashline patch, and what it made of the files.

use vstd::prelude::*;

use crate::format::{compute_file_hash, format_hashline_header};
use crate::json;
use crate::json::{Json, JsonView};
use crate::numbers;
use crate::text;
use crate::tools;
use crate::tools::read;
use crate::tools::sudo::SudoMeta;
use crate::types::{FileOp, FileOpView, PatchSection, PatchSectionView};
use crate::views;

verus! {

broadcast use {crate::views::group_all, crate::views::group_texts};

/// How many rows of a diff are shown after an edit.
pub const PREVIEW_LINES: usize = 40;

/// How many unchanged lines are shown on either side of what changed.
pub const PREVIEW_CONTEXT: usize = 3;

/// Tool implementing hashline patch application.
pub struct EditTool;

/// What a `remote_edit` asks for.
#[derive(Debug)]
pub struct EditRequest {
    pub input: String,
    pub sudo: bool,
}

/// The request that arguments make: the patch, and whether to use sudo.
pub open spec fn request_of(args: JsonView) -> Result<(Seq<char>, bool), Seq<char>> {
    match json::text_in(json::member(args, "input"@)) {
        None => Err(tools::required("input"@, "a string"@)),
        Some(input) => Ok((input, tools::flag(args, "sudo"@, false))),
    }
}

/// The complaint about a patch without sections.
pub open spec fn no_sections() -> Seq<char> {
    "No hashline sections found in input. A patch must contain at least one `[path#TAG]` section."@
}

/// What became of the file of a section.
#[derive(Debug)]
pub struct SectionOutcome {
    /// What the file holds after the edit, or `None` where it is not there.
    pub content: Option<String>,
    /// The numbered diff between what the file held before and what it holds now.
    pub diff: String,
}

/// The model of a [`SectionOutcome`].
#[verifier::ext_equal]
pub struct SectionOutcomeView {
    pub content: Option<Seq<char>>,
    pub diff: Seq<char>,
}

impl View for SectionOutcome {
    type V = SectionOutcomeView;

    open spec fn view(&self) -> SectionOutcomeView {
        SectionOutcomeView { content: views::opt_text(self.content), diff: self.diff@ }
    }
}

/// A row of a diff that tells of a line that was added or removed.
pub open spec fn is_change(row: Seq<char>) -> bool {
    row.len() > 0 && (row[0] == '+' || row[0] == '-')
}

/// The first row from `i` on that tells of a change; the number of rows when there is none.
pub open spec fn first_change(rows: Seq<Seq<char>>, i: int) -> int
    decreases rows.len() - i,
{
    if i < 0 || i >= rows.len() || is_change(rows[i]) {
        i
    } else {
        first_change(rows, i + 1)
    }
}

/// Where the rows end, of the first `n`, that tell of a change; 0 when there is none.
pub open spec fn changes_end(rows: Seq<Seq<char>>, n: int) -> int
    decreases n,
{
    if n <= 0 || n > rows.len() || is_change(rows[n - 1]) {
        n
    } else {
        changes_end(rows, n - 1)
    }
}

/// Where the changed region of a diff starts and ends: from the first change to the last,
/// with unchanged lines on either side. It is empty when nothing changed.
pub open spec fn region_bounds(rows: Seq<Seq<char>>) -> (int, int) {
    let first = first_change(rows, 0);
    let end = changes_end(rows, rows.len() as int);
    if first >= rows.len() {
        (0, 0)
    } else {
        (
            if first > PREVIEW_CONTEXT {
                first - PREVIEW_CONTEXT
            } else {
                0
            },
            if end + PREVIEW_CONTEXT < rows.len() {
                end + PREVIEW_CONTEXT
            } else {
                rows.len() as int
            },
        )
    }
}

/// The changed region of a diff. See [`region_bounds`].
pub open spec fn changed_region(rows: Seq<Seq<char>>) -> Seq<Seq<char>> {
    rows.subrange(region_bounds(rows).0, region_bounds(rows).1)
}

/// The first rows of a region, with a note where there are more.
pub open spec fn region_text(region: Seq<Seq<char>>) -> Seq<char> {
    if region.len() > PREVIEW_LINES {
        read::as_rows(region.take(PREVIEW_LINES as int), ""@) + "…\n["@ + numbers::dec(
            region.len(),
        ) + " lines total — showing first 40]\n"@
    } else {
        read::as_rows(region, ""@)
    }
}

/// A file as it is shown after an edit: its header with its new tag, and a short diff of
/// the changed region.
pub open spec fn preview(path: Seq<char>, content: Seq<char>, diff: Seq<char>) -> Seq<char> {
    crate::format::header(path, crate::format::tag(content)) + "\n"@ + region_text(
        changed_region(text::content_lines(diff)),
    )
}

/// A file that is no longer there: what became of it.
pub open spec fn absence(path: Seq<char>, op: Option<FileOpView>) -> Seq<char> {
    "["@ + path + "]\n"@ + (match op {
        Some(FileOpView::Rem) => "(file removed)\n"@,
        Some(FileOpView::Mv { dest }) => "(moved to "@ + dest + ")\n"@,
        None => Seq::empty(),
    })
}

/// Warnings as a list.
pub open spec fn warning_rows(warnings: Seq<Seq<char>>) -> Seq<char>
    decreases warnings.len(),
{
    if warnings.len() == 0 {
        Seq::empty()
    } else {
        warning_rows(warnings.drop_last()) + "  - "@ + warnings.last() + "\n"@
    }
}

/// What is told of one section.
pub open spec fn section_text(section: PatchSectionView, outcome: SectionOutcomeView) -> Seq<char> {
    (match outcome.content {
        Some(c) => preview(section.path, c, outcome.diff),
        None => absence(section.path, section.file_op),
    }) + (if section.warnings.len() > 0 {
        "warnings:\n"@ + warning_rows(section.warnings)
    } else {
        Seq::empty()
    }) + "\n"@
}

/// What is told of all the sections.
pub open spec fn sections_text(
    sections: Seq<PatchSectionView>,
    outcomes: Seq<SectionOutcomeView>,
) -> Seq<char>
    decreases sections.len(),
{
    if sections.len() == 0 {
        Seq::empty()
    } else {
        sections_text(sections.drop_last(), outcomes.drop_last()) + section_text(
            sections.last(),
            outcomes.last(),
        )
    }
}

proof fn lemma_first_change(rows: Seq<Seq<char>>, i: int)
    requires
        0 <= i <= rows.len(),
    ensures
        i <= first_change(rows, i) <= rows.len(),
        first_change(rows, i) < rows.len() ==> is_change(rows[first_change(rows, i)]),
        forall|k: int| i <= k < first_change(rows, i) ==> !is_change(#[trigger] rows[k]),
    decreases rows.len() - i,
{
    if i < rows.len() && !is_change(rows[i]) {
        lemma_first_change(rows, i + 1);
    }
}

proof fn lemma_changes_end(rows: Seq<Seq<char>>, n: int)
    requires
        0 <= n <= rows.len(),
    ensures
        0 <= changes_end(rows, n) <= n,
        changes_end(rows, n) > 0 ==> is_change(rows[changes_end(rows, n) - 1]),
        forall|k: int| changes_end(rows, n) <= k < n ==> !is_change(#[trigger] rows[k]),
    decreases n,
{
    if n > 0 && !is_change(rows[n - 1]) {
        lemma_changes_end(rows, n - 1);
    }
}

fn tells_of_change(row: &str) -> (r: bool)
    ensures
        r == is_change(row@),
{
    let v = text::chars_of(row);
    v.len() > 0 && (v[0] == '+' || v[0] == '-')
}

fn bounds_of_region(rows: &[String]) -> (r: (usize, usize))
    ensures
        (r.0 as int, r.1 as int) == region_bounds(views::texts(rows@)),
        r.0 <= r.1 <= rows@.len(),
{
    let ghost vr = views::texts(rows@);
    let n: usize = rows.len();
    let mut first: usize = 0;
    while first < n && !tells_of_change(rows[first].as_str())
        invariant
            n == rows@.len(),
            vr == views::texts(rows@),
            vr.len() == n,
            first <= n,
            first_change(vr, first as int) == first_change(vr, 0),
        decreases n - first,
    {
        assert(vr[first as int] == rows@[first as int]@);
        first = first + 1;
    }
    proof {
        if first < n {
            assert(vr[first as int] == rows@[first as int]@);
        }
    }
    if first == n {
        return (0, 0);
    }
    let mut end: usize = n;
    while end > 0 && !tells_of_change(rows[end - 1].as_str())
        invariant
            n == rows@.len(),
            vr == views::texts(rows@),
            vr.len() == n,
            end <= n,
            changes_end(vr, end as int) == changes_end(vr, n as int),
        decreases end,
    {
        assert(vr[end - 1] == rows@[end - 1]@);
        end = end - 1;
    }
    proof {
        if end > 0 {
            assert(vr[end - 1] == rows@[end - 1]@);
        }
        lemma_first_change(vr, 0);
        lemma_changes_end(vr, n as int);
        if end <= first {
            assert(!is_change(vr[first as int]));
        }
    }
    let from: usize = if first > PREVIEW_CONTEXT {
        first - PREVIEW_CONTEXT
    } else {
        0
    };
    let to: usize = if end < n && n - end > PREVIEW_CONTEXT {
        end + PREVIEW_CONTEXT
    } else {
        n
    };
    (from, to)
}

fn preview_of(path: &str, content: &str, diff: &str) -> (r: String)
    ensures
        r@ == preview(path@, content@, diff@),
{
    let tag = compute_file_hash(content);
    let mut out = format_hashline_header(path, tag.as_str());
    out.append("\n");
    let ghost top = out@;
    let rows = text::content_lines_of(diff);
    let ghost vr = views::texts(rows@);
    let (from, to) = bounds_of_region(rows.as_slice());
    let total: usize = to - from;
    let count: usize = if total > PREVIEW_LINES {
        PREVIEW_LINES
    } else {
        total
    };
    let ghost region = changed_region(vr);
    let mut picked: Vec<String> = Vec::new();
    assert(region.len() == total);
    for i in 0..count
        invariant
            vr == views::texts(rows@),
            vr.len() == rows@.len(),
            region == vr.subrange(from as int, to as int),
            from + total == to,
            to <= rows@.len(),
            count <= total,
            views::texts(picked@) == region.take(i as int),
    {
        proof {
            views::lemma_take_step(region, i as int);
            assert(vr[from + i] == rows@[from + i]@);
        }
        picked.push(rows[from + i].clone());
    }
    out = read::append_rows(out, picked.as_slice(), "");
    if total > PREVIEW_LINES {
        out.append("…\n[");
        out.append(numbers::decimal_usize(total).as_str());
        out.append(" lines total — showing first 40]\n");
    } else {
        proof {
            views::lemma_take_all(region);
        }
    }
    assert(out@ =~= preview(path@, content@, diff@));
    out
}

fn absence_of(path: &str, op: &Option<FileOp>) -> (r: String)
    ensures
        r@ == absence(path@, crate::types::opt_file_op(*op)),
{
    let mut out = text::owned("[");
    out.append(path);
    out.append("]\n");
    match op {
        Some(FileOp::Rem) => {
            out.append("(file removed)\n");
        },
        Some(FileOp::Mv { dest }) => {
            out.append("(moved to ");
            out.append(dest.as_str());
            out.append(")\n");
        },
        None => {},
    }
    assert(out@ =~= absence(path@, crate::types::opt_file_op(*op)));
    out
}

fn text_of_section(section: &PatchSection, outcome: &SectionOutcome) -> (r: String)
    ensures
        r@ == section_text(section@, outcome@),
{
    let mut out = match &outcome.content {
        Some(c) => preview_of(section.path.as_str(), c.as_str(), outcome.diff.as_str()),
        None => absence_of(section.path.as_str(), &section.file_op),
    };
    let ghost top = out@;
    let ghost vw = section@.warnings;
    assert(vw.len() == section.warnings@.len());
    if section.warnings.len() > 0 {
        out.append("warnings:\n");
        let ghost head = out@;
        assert(head + warning_rows(vw.take(0)) =~= head);
        for i in 0..section.warnings.len()
            invariant
                vw == views::texts(section.warnings@),
                out@ == head + warning_rows(vw.take(i as int)),
        {
            proof {
                views::lemma_take_step(vw, i as int);
                assert(vw[i as int] == section.warnings@[i as int]@);
            }
            out.append("  - ");
            out.append(section.warnings[i].as_str());
            out.append("\n");
            assert(out@ =~= head + warning_rows(vw.take(i + 1)));
        }
        proof {
            views::lemma_take_all(vw);
        }
    }
    out.append("\n");
    assert(out@ =~= section_text(section@, outcome@));
    out
}

/// The path of the copy that an edit with sudo works on; `n` is the place of its section.
pub open spec fn copy_path(process: u32, n: nat) -> Seq<char> {
    "/tmp/remote-agentd-edit-"@ + numbers::dec(process as nat) + "-"@ + numbers::dec(n)
}

/// A section on the copy of its file.
pub open spec fn on_copy(section: PatchSectionView, process: u32, n: nat) -> PatchSectionView {
    PatchSectionView { path: copy_path(process, n), ..section }
}

impl EditTool {
    /// The sections of an edit with sudo, each on the copy of its file. The tag of a
    /// section is that of a content, so it still fits. See [`on_copy`].
    pub fn on_copies(sections: &[PatchSection], process: u32) -> (r: Vec<PatchSection>)
        ensures
            r@.len() == sections@.len(),
            forall|i: int|
                0 <= i < r@.len() ==> (#[trigger] r@[i])@ == on_copy(
                    sections@[i]@,
                    process,
                    i as nat,
                ),
    {
        let mut out: Vec<PatchSection> = Vec::new();
        for i in 0..sections.len()
            invariant
                out@.len() == i,
                forall|j: int|
                    0 <= j < i ==> (#[trigger] out@[j])@ == on_copy(
                        sections@[j]@,
                        process,
                        j as nat,
                    ),
        {
            let mut path = text::owned("/tmp/remote-agentd-edit-");
            path.append(numbers::decimal(process as u64).as_str());
            path.append("-");
            path.append(numbers::decimal_usize(i).as_str());
            let mut section = sections[i].copy();
            section.path = path;
            out.push(section);
        }
        out
    }

    /// The owner that a file is given back after an edit with sudo: `owner:group`.
    pub fn restored_owner(meta: &SudoMeta) -> (r: String)
        ensures
            r@ == meta.owner@ + ":"@ + meta.group@,
    {
        let mut s = meta.owner.clone();
        s.append(":");
        s.append(meta.group.as_str());
        s
    }

    /// The request that arguments make: `{ input: string, sudo?: bool }`.
    pub fn request(args: &Json) -> (r: Result<EditRequest, String>)
        ensures
            match (r, request_of(args@)) {
                (Ok(a), Ok(b)) => (a.input@, a.sudo) == b,
                (Err(e), Err(m)) => e@ == m,
                _ => false,
            },
    {
        match args.text_at("input") {
            None => Err(tools::required_message("input", "a string")),
            Some(input) => Ok(EditRequest { input, sudo: tools::flag_of(args, "sudo", false) }),
        }
    }

    /// Refuse a patch without sections.
    pub fn check_sections(sections: &[PatchSection]) -> (r: Result<(), String>)
        ensures
            match r {
                Ok(_) => sections@.len() > 0,
                Err(e) => sections@.len() == 0 && e@ == no_sections(),
            },
    {
        if sections.len() == 0 {
            return Err(
                text::owned(
                    "No hashline sections found in input. A patch must contain at least one `[path#TAG]` section.",
                ),
            );
        }
        Ok(())
    }

    /// The complaint about a patch that could not be applied.
    pub fn failure(sudo: bool, reason: &str) -> (r: String)
        ensures
            r@ == (if sudo {
                "Patch application (sudo) failed: "@
            } else {
                "Patch application failed: "@
            }) + reason@,
    {
        let mut s = if sudo {
            text::owned("Patch application (sudo) failed: ")
        } else {
            text::owned("Patch application failed: ")
        };
        s.append(reason);
        s
    }

    /// The result: one block per section with the new tag and a short diff preview of the
    /// changed region.
    pub fn build_result(sections: &[PatchSection], outcomes: &[SectionOutcome]) -> (r: Json)
        requires
            sections@.len() == outcomes@.len(),
        ensures
            r@ == tools::text_result(
                sections_text(views::all(sections@), views::all(outcomes@)),
            ),
    {
        let ghost vs = views::all(sections@);
        let ghost vo = views::all(outcomes@);
        let mut out = String::new();
        assert(out@ =~= Seq::empty());
        for i in 0..sections.len()
            invariant
                vs == views::all(sections@),
                vo == views::all(outcomes@),
                sections@.len() == outcomes@.len(),
                out@ == sections_text(vs.take(i as int), vo.take(i as int)),
        {
            proof {
                views::lemma_take_step(vs, i as int);
                views::lemma_take_step(vo, i as int);
                assert(vs[i as int] == sections@[i as int]@);
                assert(vo[i as int] == outcomes@[i as int]@);
            }
            out.append(text_of_section(&sections[i], &outcomes[i]).as_str());
        }
        proof {
            views::lemma_take_all(vs);
            views::lemma_take_all(vo);
        }
        tools::text_result_of(out.as_str())
    }
}

// ── Laws ─────────────────────────────────────────────────────────────────

/// No two sections of an edit with sudo work on the same copy.
pub proof fn law_copies_distinct(process: u32, n: nat, m: nat)
    requires
        n != m,
    ensures
        copy_path(process, n) != copy_path(process, m),
{
    numbers::lemma_numeral(n, 10);
    numbers::lemma_numeral(m, 10);
    let head = "/tmp/remote-agentd-edit-"@ + numbers::dec(process as nat) + "-"@;
    assert(copy_path(process, n).skip(head.len() as int) =~= numbers::dec(n));
    assert(copy_path(process, m).skip(head.len() as int) =~= numbers::dec(m));
}

/// The changed region holds every change: what lies outside it is unchanged. It is empty only
/// where nothing changed.
pub proof fn law_region_holds_changes(rows: Seq<Seq<char>>, i: int)
    requires
        0 <= i < rows.len(),
        is_change(rows[i]),
    ensures
        region_bounds(rows).0 <= i < region_bounds(rows).1 <= rows.len(),
        changed_region(rows)[i - region_bounds(rows).0] == rows[i],
{
    lemma_first_change(rows, 0);
    lemma_changes_end(rows, rows.len() as int);
}

/// The region that is shown of a change goes from a few rows before the first changed row to
/// as many behind the last, as far as there are rows, and holds all rows in between unchanged
/// and in order.
pub proof fn law_region_around_changes(rows: Seq<Seq<char>>, first: int, last: int)
    requires
        0 <= first <= last < rows.len(),
        rows[first].len() > 0,
        rows[first][0] == '+' || rows[first][0] == '-',
        rows[last].len() > 0,
        rows[last][0] == '+' || rows[last][0] == '-',
        forall|i: int|
            (0 <= i < first || last < i < rows.len()) && (#[trigger] rows[i]).len() > 0
                ==> rows[i][0] != '+' && rows[i][0] != '-',
    ensures
        changed_region(rows) == rows.subrange(
            if first < PREVIEW_CONTEXT {
                0
            } else {
                first - PREVIEW_CONTEXT
            },
            if last + 1 + PREVIEW_CONTEXT > rows.len() {
                rows.len() as int
            } else {
                last + 1 + PREVIEW_CONTEXT
            },
        ),
{
    lemma_first_change(rows, 0);
    lemma_changes_end(rows, rows.len() as int);
    let f = first_change(rows, 0);
    let e = changes_end(rows, rows.len() as int);
    assert(is_change(rows[first]) && is_change(rows[last]));
    assert(f == first);
    assert(e == last + 1);
}

/// What is shown of a change: the header of the file as it is now and, each on its own row,
/// the rows of the changed region, unchanged; of a long one the first forty, and how many they
/// are.
pub proof fn law_region_shown(path: Seq<char>, content: Seq<char>, diff: Seq<char>)
    ensures
        ({
            let region = changed_region(text::content_lines(diff));
            let head = crate::format::header(path, crate::format::tag(content)) + seq!['\n'];
            &&& region.len() <= 40 ==> preview(path, content, diff) == head + region.map_values(
                |l: Seq<char>| l + seq!['\n'],
            ).flatten()
            &&& region.len() > 40 ==> preview(path, content, diff) == head + (region.take(
                40,
            ).map_values(|l: Seq<char>| l + seq!['\n']).flatten() + "…\n["@ + numbers::dec(
                region.len(),
            ) + " lines total — showing first 40]\n"@)
        }),
{
    let region = changed_region(text::content_lines(diff));
    reveal_strlit("\n");
    reveal_strlit("");
    assert("\n"@ =~= seq!['\n']);
    assert(""@ =~= Seq::empty());
    let f = |l: Seq<char>| Seq::<char>::empty() + l + seq!['\n'];
    let g = |l: Seq<char>| l + seq!['\n'];
    let some = if region.len() > 40 {
        region.take(40)
    } else {
        region
    };
    read::lemma_one_per_row(some, Seq::empty());
    assert(some.map_values(f) =~= some.map_values(g)) by {
        assert forall|i: int| 0 <= i < some.len() implies #[trigger] f(some[i]) == g(some[i]) by {
            assert(Seq::<char>::empty() + some[i] =~= some[i]);
        }
        assert forall|i: int| 0 <= i < some.len() implies some.map_values(f)[i]
            == some.map_values(g)[i] by {
            assert(f(some[i]) == g(some[i]));
        }
    }
}

/// Every warning of a section is shown, in order, each on a row of its own.
pub proof fn law_warnings_shown(warnings: Seq<Seq<char>>)
    ensures
        warning_rows(warnings) == warnings.map_values(
            |w: Seq<char>| seq![' ', ' ', '-', ' '] + w + seq!['\n'],
        ).flatten(),
    decreases warnings.len(),
{
    reveal_strlit("  - ");
    reveal_strlit("\n");
    assert("  - "@ =~= seq![' ', ' ', '-', ' ']);
    assert("\n"@ =~= seq!['\n']);
    let f = |w: Seq<char>| seq![' ', ' ', '-', ' '] + w + seq!['\n'];
    let rows = warnings.map_values(f);
    rows.lemma_flatten_and_flatten_alt_are_equivalent();
    if warnings.len() == 0 {
        assert(rows.flatten() =~= Seq::empty());
    } else {
        law_warnings_shown(warnings.drop_last());
        rows.drop_last().lemma_flatten_and_flatten_alt_are_equivalent();
        assert(rows.drop_last() =~= warnings.drop_last().map_values(f));
        assert(warning_rows(warnings) =~= rows.drop_last().flatten() + rows.last());
    }
}

/// Every section of an edit is told of, in order.
pub proof fn law_sections_shown(
    sections: Seq<PatchSectionView>,
    outcomes: Seq<SectionOutcomeView>,
)
    requires
        sections.len() == outcomes.len(),
    ensures
        sections_text(sections, outcomes) == Seq::new(
            sections.len(),
            |i: int| section_text(sections[i], outcomes[i]),
        ).flatten(),
    decreases sections.len(),
{
    let rows = Seq::new(sections.len(), |i: int| section_text(sections[i], outcomes[i]));
    rows.lemma_flatten_and_flatten_alt_are_equivalent();
    if sections.len() == 0 {
        assert(rows.flatten() =~= Seq::empty());
    } else {
        let a = sections.drop_last();
        let b = outcomes.drop_last();
        law_sections_shown(a, b);
        rows.drop_last().lemma_flatten_and_flatten_alt_are_equivalent();
        assert(rows.drop_last() =~= Seq::new(a.len(), |i: int| section_text(a[i], b[i])));
    }
}

} // verus!
