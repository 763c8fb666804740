//! `remote_find`: files that paths or globs name, newest first.

use vstd::prelude::*;

use crate::json;
use crate::json::{Json, JsonView};
use crate::order;
use crate::text;
use crate::tools;
use crate::views;

verus! {

broadcast use {
    crate::views::group_all,
    crate::views::group_texts,
    crate::json::group_json,
};

/// Tool implementing file discovery.
pub struct FindTool;

/// What a `remote_find` asks for.
#[derive(Debug)]
pub struct FindRequest {
    pub paths: Vec<String>,
    /// Respect ignore files.
    pub gitignore: bool,
    /// Show hidden files too.
    pub hidden: bool,
}

/// The model of a [`FindRequest`].
#[verifier::ext_equal]
pub struct FindRequestView {
    pub paths: Seq<Seq<char>>,
    pub gitignore: bool,
    pub hidden: bool,
}

impl View for FindRequest {
    type V = FindRequestView;

    open spec fn view(&self) -> FindRequestView {
        FindRequestView {
            paths: views::texts(self.paths@),
            gitignore: self.gitignore,
            hidden: self.hidden,
        }
    }
}

/// The request that arguments make. Items of the paths that are no texts are passed over.
pub open spec fn request_of(args: JsonView) -> Result<FindRequestView, Seq<char>> {
    match json::member(args, "paths"@) {
        Some(JsonView::Array(items)) => {
            let paths = tools::texts_among(items);
            if paths.len() == 0 {
                Err("`paths` must contain at least one path"@)
            } else {
                Ok(
                    FindRequestView {
                        paths,
                        gitignore: tools::flag(args, "gitignore"@, true),
                        hidden: tools::flag(args, "hidden"@, true),
                    },
                )
            }
        },
        _ => Err(tools::required("paths"@, "an array"@)),
    }
}

/// A file that was found.
#[derive(Debug)]
pub struct FoundFile {
    /// The directory it is in; empty for the current one.
    pub dir: String,
    pub name: String,
    /// When it was last changed, in nanoseconds from some fixed moment.
    pub modified: i128,
}

/// The model of a [`FoundFile`].
#[verifier::ext_equal]
pub struct FoundFileView {
    pub dir: Seq<char>,
    pub name: Seq<char>,
    pub modified: i128,
}

impl View for FoundFile {
    type V = FoundFileView;

    open spec fn view(&self) -> FoundFileView {
        FoundFileView { dir: self.dir@, name: self.name@, modified: self.modified }
    }
}

/// When the files were last changed.
pub open spec fn times(files: Seq<FoundFileView>) -> Seq<i128> {
    files.map_values(|f: FoundFileView| f.modified)
}

/// The files, newest first.
pub open spec fn newest_first(files: Seq<FoundFileView>) -> Seq<FoundFileView> {
    order::by_key(times(files), files.len() as int).map_values(|i: int| files[i])
}

/// A directory as it is shown.
pub open spec fn shown_dir(dir: Seq<char>) -> Seq<char> {
    if dir.len() == 0 {
        "."@
    } else {
        dir
    }
}

/// The names of files in their order, with a header wherever the directory is another
/// one than that of the file before.
pub open spec fn listing(files: Seq<FoundFileView>) -> Seq<char>
    decreases files.len(),
{
    if files.len() == 0 {
        Seq::empty()
    } else {
        let rest = listing(files.drop_last());
        let f = files.last();
        let n = files.len();
        let head = if n > 1 && files[n - 2].dir == f.dir {
            Seq::empty()
        } else {
            (if rest.len() == 0 {
                Seq::empty()
            } else {
                "\n"@
            }) + "# "@ + shown_dir(f.dir) + "/\n"@
        };
        rest + head + f.name + "\n"@
    }
}

impl FindTool {
    /// The request that arguments make:
    /// `{ paths: array, gitignore?: bool, hidden?: bool }`.
    pub fn request(args: &Json) -> (r: Result<FindRequest, String>)
        ensures
            match (r, request_of(args@)) {
                (Ok(a), Ok(b)) => a@ == b,
                (Err(e), Err(m)) => e@ == m,
                _ => false,
            },
    {
        let paths = match args.get("paths") {
            Some(j) => match j {
                Json::Array(items) => tools::collect_texts(items.as_slice()),
                _ => {
                    return Err(tools::required_message("paths", "an array"));
                },
            },
            None => {
                return Err(tools::required_message("paths", "an array"));
            },
        };
        assert(views::texts(paths@).len() == paths@.len());
        if paths.len() == 0 {
            return Err(text::owned("`paths` must contain at least one path"));
        }
        Ok(
            FindRequest {
                paths,
                gitignore: tools::flag_of(args, "gitignore", true),
                hidden: tools::flag_of(args, "hidden", true),
            },
        )
    }

    /// The result of a search: the files sorted by time, newest first, grouped under
    /// `# dir/` headers.
    pub fn result(files: &[FoundFile]) -> (r: Json)
        ensures
            r@ == tools::text_result(listing(newest_first(views::all(files@)))),
    {
        let ghost vf = views::all(files@);
        let mut keys: Vec<i128> = Vec::new();
        for i in 0..files.len()
            invariant
                vf == views::all(files@),
                keys@ == times(vf).take(i as int),
        {
            proof {
                views::lemma_take_step(times(vf), i as int);
                assert(vf[i as int] == files@[i as int]@);
            }
            keys.push(files[i].modified);
        }
        proof {
            views::lemma_take_all(times(vf));
        }
        let order = order::order_by_key(keys.as_slice());
        let ghost ranked = newest_first(vf);
        proof {
            assert(order::positions(order@).len() == order@.len());
            assert(ranked.len() == order@.len());
        }
        let mut out = String::new();
        assert(out@ =~= listing(ranked.take(0)));
        let mut filled: bool = false;
        for i in 0..order.len()
            invariant
                vf == views::all(files@),
                vf.len() == files@.len(),
                ranked == newest_first(vf),
                ranked.len() == order@.len(),
                order::positions(order@) == order::by_key(times(vf), vf.len() as int),
                forall|j: int| 0 <= j < order@.len() ==> #[trigger] order@[j] < files@.len(),
                out@ == listing(ranked.take(i as int)),
                filled == (out@.len() > 0),
        {
            let at: usize = order[i];
            let f = &files[at];
            proof {
                views::lemma_take_step(ranked, i as int);
                assert(order::positions(order@)[i as int] == at as int);
                assert(ranked[i as int] == vf[at as int]);
                assert(vf[at as int] == f@);
            }
            let ghost before = out@;
            let same_dir = i > 0 && text::same(
                files[order[i - 1]].dir.as_str(),
                f.dir.as_str(),
            );
            proof {
                if i > 0 {
                    let p = order@[i - 1] as int;
                    assert(order::positions(order@)[i - 1] == p);
                    assert(ranked[i - 1] == vf[p]);
                    assert(vf[p] == files@[p]@);
                    assert(ranked.take(i + 1)[i - 1] == ranked[i - 1]);
                }
                reveal_strlit("\n");
            }
            if !same_dir {
                if filled {
                    out.append("\n");
                }
                out.append("# ");
                let chars: usize = text::char_count(f.dir.as_str());
                if chars == 0 {
                    out.append(".");
                } else {
                    out.append(f.dir.as_str());
                }
                out.append("/\n");
            }
            out.append(f.name.as_str());
            out.append("\n");
            filled = true;
            assert(out@ =~= listing(ranked.take(i + 1)));
        }
        proof {
            views::lemma_take_all(ranked);
        }
        tools::text_result_of(out.as_str())
    }
}

// ── Laws ─────────────────────────────────────────────────────────────────

/// The files that were found are all shown, the one changed last first.
pub proof fn law_newest_first(files: Seq<FoundFileView>)
    ensures
        newest_first(files).to_multiset() == files.to_multiset(),
        newest_first(files).len() == files.len(),
        forall|i: int, j: int|
            0 <= i < j < files.len() ==> (#[trigger] newest_first(files)[i]).modified >= (
            #[trigger] newest_first(files)[j]).modified,
{
    let n = files.len() as int;
    let keys = times(files);
    order::law_by_key(keys, n);
    order::lemma_by_key_keeps(keys, files, n);
    assert(files.take(n) =~= files);
    assert(newest_first(files) =~= order::by_key(keys, n).map_values(|i: int| files[i]));
    assert forall|i: int, j: int| 0 <= i < j < n implies (#[trigger] newest_first(files)[i]).modified >= (
    #[trigger] newest_first(files)[j]).modified by {
        let a = order::by_key(keys, n)[i];
        let b = order::by_key(keys, n)[j];
        assert(keys[a] == files[a].modified && keys[b] == files[b].modified);
    }
}

/// What is shown of a file in a list: its name on a row of its own and, where its directory is
/// another one than that of the file before, a header that names the directory above it.
pub open spec fn shown_file(files: Seq<FoundFileView>, i: int) -> Seq<char> {
    (if i > 0 && files[i - 1].dir == files[i].dir {
        seq![]
    } else {
        (if i > 0 {
            seq!['\n']
        } else {
            seq![]
        }) + seq!['#', ' '] + (if files[i].dir.len() == 0 {
            seq!['.']
        } else {
            files[i].dir
        }) + seq!['/', '\n']
    }) + files[i].name + seq!['\n']
}

/// Every file of a list is shown, in order.
pub proof fn law_files_listed(files: Seq<FoundFileView>)
    ensures
        listing(files) == Seq::new(files.len(), |i: int| shown_file(files, i)).flatten(),
    decreases files.len(),
{
    let rows = Seq::new(files.len(), |i: int| shown_file(files, i));
    rows.lemma_flatten_and_flatten_alt_are_equivalent();
    if files.len() == 0 {
        assert(rows.flatten() =~= Seq::empty());
    } else {
        let rest = files.drop_last();
        let before = Seq::new(rest.len(), |i: int| shown_file(rest, i));
        law_files_listed(rest);
        rows.drop_last().lemma_flatten_and_flatten_alt_are_equivalent();
        assert(rows.drop_last() =~= before) by {
            assert forall|i: int| 0 <= i < before.len() implies rows[i] == before[i] by {
                assert(shown_file(files, i) == shown_file(rest, i));
            }
        }
        reveal_strlit("\n");
        reveal_strlit("# ");
        reveal_strlit("/\n");
        reveal_strlit(".");
        assert("\n"@ =~= seq!['\n']);
        assert("# "@ =~= seq!['#', ' ']);
        assert("/\n"@ =~= seq!['/', '\n']);
        assert("."@ =~= seq!['.']);
        if rest.len() > 0 {
            before.lemma_flatten_and_flatten_alt_are_equivalent();
            assert(before.last() == shown_file(rest, rest.len() - 1));
            assert(before.flatten() =~= before.drop_last().flatten_alt() + before.last());
            assert(listing(rest).len() > 0);
        } else {
            assert(before.flatten() =~= Seq::empty());
        }
        assert(listing(files) =~= rows.drop_last().flatten() + rows.last());
    }
}

} // verus!
