//! `remote_put`: upload of a large file in two phases.
//!
//! In the first phase a staging path is made, to which the client uploads the file over a
//! channel of its own. In the second the staged file is moved to its destination, and its
//! mode and owner are set.

use vstd::prelude::*;

use crate::json;
use crate::json::{Json, JsonView, Member};
use crate::numbers;
use crate::paths;
use crate::text;
use crate::tools;
use crate::tools::sudo;
use crate::tools::sudo::{SudoMeta, SudoMetaView};
use crate::tools::write::DEFAULT_MODE;
use crate::views;

verus! {

broadcast use {
    crate::views::group_all,
    crate::views::group_texts,
    crate::json::group_json,
};

/// Staging directory for uploads in progress.
pub const STAGING_DIR: &'static str = "/tmp/remote-agentd-staging";

/// Tool implementing large-file put (upload) via sideband + commit.
pub struct PutTool;

/// What a `remote_put` asks for.
#[derive(Debug)]
pub enum PutRequest {
    /// Make a staging path.
    Prepare { path: String, sudo: bool },
    /// Move the staged file into place.
    Commit {
        path: String,
        staging_path: String,
        sudo: bool,
        mode: Option<String>,
        owner: Option<String>,
    },
}

/// The model of a [`PutRequest`].
#[verifier::ext_equal]
pub enum PutRequestView {
    Prepare { path: Seq<char>, sudo: bool },
    Commit {
        path: Seq<char>,
        staging_path: Seq<char>,
        sudo: bool,
        mode: Option<Seq<char>>,
        owner: Option<Seq<char>>,
    },
}

impl View for PutRequest {
    type V = PutRequestView;

    open spec fn view(&self) -> PutRequestView {
        match self {
            PutRequest::Prepare { path, sudo } => PutRequestView::Prepare {
                path: path@,
                sudo: *sudo,
            },
            PutRequest::Commit { path, staging_path, sudo, mode, owner } => {
                PutRequestView::Commit {
                    path: path@,
                    staging_path: staging_path@,
                    sudo: *sudo,
                    mode: views::opt_text(*mode),
                    owner: views::opt_text(*owner),
                }
            },
        }
    }
}

/// The request that arguments make.
pub open spec fn request_of(args: JsonView) -> Result<PutRequestView, Seq<char>> {
    match json::text_in(json::member(args, "path"@)) {
        None => Err(tools::required("path"@, "a string"@)),
        Some(path) => if !tools::flag(args, "commit"@, false) {
            Ok(PutRequestView::Prepare { path, sudo: tools::flag(args, "sudo"@, false) })
        } else {
            match json::text_in(json::member(args, "staging_path"@)) {
                None => Err(
                    "`staging_path` is required for commit phase (returned by phase 1)"@,
                ),
                Some(staging_path) => Ok(
                    PutRequestView::Commit {
                        path,
                        staging_path,
                        sudo: tools::flag(args, "sudo"@, false),
                        mode: json::text_in(json::member(args, "mode"@)),
                        owner: json::text_in(json::member(args, "owner"@)),
                    },
                ),
            }
        },
    }
}

/// The staging path for a destination: its last component, a process id and a time make
/// it unique.
pub open spec fn stage_path(dest: Seq<char>, process: u32, nanos: u128) -> Seq<char> {
    let name = match paths::final_name(dest) {
        Some(n) => n,
        None => "upload"@,
    };
    STAGING_DIR@ + "/"@ + name + "."@ + numbers::dec(process as nat) + "."@ + numbers::dec(
        nanos as nat,
    )
}

/// What is told of a staging path that was made.
pub open spec fn staged_text(dest: Seq<char>, stage: Seq<char>) -> Seq<char> {
    "remote_put: staging ready (phase 1/2)\ndest:         "@ + dest + "\nstaging_path: "@ + stage
        + "\n\nClient: upload the file to the staging path over a separate SSH channel:\nscp ./local-file user@host:"@
        + stage + "\nrsync -e ssh ./local-file user@host:"@ + stage
        + "\nThen call remote_put again with {path, commit: true} to finalize.\nData does not transit the MCP/LLM channel."@
}

/// The same as JSON.
pub open spec fn staged_metadata(dest: Seq<char>, stage: Seq<char>) -> JsonView {
    JsonView::Object(
        seq![
            ("dest"@, JsonView::Text(dest)),
            ("staging_path"@, JsonView::Text(stage)),
            ("phase"@, JsonView::Number("1"@)),
        ],
    )
}

/// What is wrong with a staged file: it is a directory, or nothing was uploaded.
pub open spec fn stage_fault(stage: Seq<char>, is_dir: bool, size: u64) -> Option<Seq<char>> {
    if is_dir {
        Some("Staging path "@ + stage + " is a directory, expected a file"@)
    } else if size == 0 {
        Some(
            "Staged file "@ + stage
                + " is empty — did the client upload to it? (phase 1 creates an empty placeholder; the client must scp/rsync the real content over it before calling commit)"@,
        )
    } else {
        None
    }
}

/// The mode that a file is given: the one asked for, else that of the file it replaces,
/// else the default.
pub open spec fn chosen_mode(mode: Option<Seq<char>>, replaced: Option<u32>) -> Result<
    u32,
    Seq<char>,
> {
    match (mode, replaced) {
        (Some(m), _) => sudo::mode_value(m),
        (None, Some(n)) => Ok(n),
        (None, None) => Ok(DEFAULT_MODE),
    }
}

/// What is told of an upload that was committed.
pub open spec fn committed_text(
    dest: Seq<char>,
    stage: Seq<char>,
    meta: SudoMetaView,
) -> Seq<char> {
    "remote_put: committed (phase 2/2)\ndest:    "@ + dest + "\nsize:    "@ + numbers::dec(
        meta.size as nat,
    ) + " bytes\nmode:    "@ + numbers::oct(meta.mode as nat) + "\nowner:   "@ + meta.owner
        + "\ngroup:   "@ + meta.group + "\nstaged:  "@ + stage + " (removed)"@
}

/// The same as JSON.
pub open spec fn committed_metadata(dest: Seq<char>, meta: SudoMetaView) -> JsonView {
    JsonView::Object(
        seq![
            ("dest"@, JsonView::Text(dest)),
            ("size"@, JsonView::Number(numbers::dec(meta.size as nat))),
            ("mode"@, JsonView::Text(numbers::oct(meta.mode as nat))),
            ("owner"@, JsonView::Text(meta.owner)),
            ("group"@, JsonView::Text(meta.group)),
            ("phase"@, JsonView::Number("2"@)),
        ],
    )
}

impl PutTool {
    /// The request that arguments make: `{ path, sudo?: bool }`, or
    /// `{ path, commit: true, staging_path, sudo?: bool, mode?: string, owner?: string }`.
    pub fn request(args: &Json) -> (r: Result<PutRequest, String>)
        ensures
            match (r, request_of(args@)) {
                (Ok(a), Ok(b)) => a@ == b,
                (Err(e), Err(m)) => e@ == m,
                _ => false,
            },
    {
        let path = match args.text_at("path") {
            Some(p) => p,
            None => {
                return Err(tools::required_message("path", "a string"));
            },
        };
        let sudo = tools::flag_of(args, "sudo", false);
        if !tools::flag_of(args, "commit", false) {
            return Ok(PutRequest::Prepare { path, sudo });
        }
        match args.text_at("staging_path") {
            None => Err(
                text::owned("`staging_path` is required for commit phase (returned by phase 1)"),
            ),
            Some(staging_path) => Ok(
                PutRequest::Commit {
                    path,
                    staging_path,
                    sudo,
                    mode: args.text_at("mode"),
                    owner: args.text_at("owner"),
                },
            ),
        }
    }

    /// The staging path for a destination. See [`stage_path`].
    pub fn staging_path(dest: &str, process: u32, nanos: u128) -> (r: String)
        ensures
            r@ == stage_path(dest@, process, nanos),
    {
        let name = match paths::file_name(dest) {
            Some(n) => n,
            None => text::owned("upload"),
        };
        let mut s = text::owned(STAGING_DIR);
        s.append("/");
        s.append(name.as_str());
        s.append(".");
        s.append(numbers::decimal(process as u64).as_str());
        s.append(".");
        s.append(numbers::decimal_wide(nanos).as_str());
        s
    }

    /// The result of the first phase. See [`staged_text`].
    pub fn prepared(dest: &str, stage: &str) -> (r: Json)
        ensures
            r@ == tools::result_with_metadata(
                staged_text(dest@, stage@),
                staged_metadata(dest@, stage@),
            ),
    {
        let mut s = text::owned("remote_put: staging ready (phase 1/2)\ndest:         ");
        s.append(dest);
        s.append("\nstaging_path: ");
        s.append(stage);
        s.append(
            "\n\nClient: upload the file to the staging path over a separate SSH channel:\nscp ./local-file user@host:",
        );
        s.append(stage);
        s.append("\nrsync -e ssh ./local-file user@host:");
        s.append(stage);
        s.append(
            "\nThen call remote_put again with {path, commit: true} to finalize.\nData does not transit the MCP/LLM channel.",
        );
        let metadata = json::object_of_three(
            "dest",
            json::text_of(dest),
            "staging_path",
            json::text_of(stage),
            "phase",
            Json::Number(text::owned("1")),
        );
        tools::result_and_metadata(s.as_str(), metadata)
    }

    /// Refuse a staged file that is a directory or empty. See [`stage_fault`].
    pub fn check_staged(stage: &str, meta: &SudoMeta) -> (r: Result<(), String>)
        ensures
            match (r, stage_fault(stage@, meta.is_dir, meta.size)) {
                (Ok(_), None) => true,
                (Err(e), Some(m)) => e@ == m,
                _ => false,
            },
    {
        if meta.is_dir {
            let mut s = text::owned("Staging path ");
            s.append(stage);
            s.append(" is a directory, expected a file");
            return Err(s);
        }
        if meta.size == 0 {
            let mut s = text::owned("Staged file ");
            s.append(stage);
            s.append(
                " is empty — did the client upload to it? (phase 1 creates an empty placeholder; the client must scp/rsync the real content over it before calling commit)",
            );
            return Err(s);
        }
        Ok(())
    }

    /// The mode that the file is given. See [`chosen_mode`].
    pub fn mode(mode: &Option<String>, replaced: Option<u32>) -> (r: Result<u32, String>)
        ensures
            match (r, chosen_mode(views::opt_text(*mode), replaced)) {
                (Ok(a), Ok(b)) => a == b,
                (Err(e), Err(m)) => e@ == m,
                _ => false,
            },
    {
        match mode {
            Some(m) => sudo::parse_mode(m.as_str()),
            None => match replaced {
                Some(n) => Ok(n),
                None => Ok(DEFAULT_MODE),
            },
        }
    }

    /// The owner that the file is given: the one asked for, else that of the file it
    /// replaces, else the one it has.
    pub fn owner(owner: &Option<String>, replaced: &Option<String>) -> (r: Option<String>)
        ensures
            views::opt_text(r) == match (views::opt_text(*owner), views::opt_text(*replaced)) {
                (Some(o), _) => Some(o),
                (None, o) => o,
            },
    {
        match owner {
            Some(o) => Some(o.clone()),
            None => text::clone_opt(replaced),
        }
    }

    /// The result of the second phase. See [`committed_text`].
    pub fn committed(dest: &str, stage: &str, meta: &SudoMeta) -> (r: Json)
        ensures
            r@ == tools::result_with_metadata(
                committed_text(dest@, stage@, meta@),
                committed_metadata(dest@, meta@),
            ),
    {
        let size = numbers::decimal(meta.size);
        let mode = numbers::octal(meta.mode);
        let mut s = text::owned("remote_put: committed (phase 2/2)\ndest:    ");
        s.append(dest);
        s.append("\nsize:    ");
        s.append(size.as_str());
        s.append(" bytes\nmode:    ");
        s.append(mode.as_str());
        s.append("\nowner:   ");
        s.append(meta.owner.as_str());
        s.append("\ngroup:   ");
        s.append(meta.group.as_str());
        s.append("\nstaged:  ");
        s.append(stage);
        s.append(" (removed)");
        let mut members: Vec<Member> = Vec::new();
        members.push(json::pair("dest", json::text_of(dest)));
        members.push(json::pair("size", Json::Number(size)));
        members.push(json::pair("mode", json::text_of(mode.as_str())));
        members.push(json::pair("owner", json::text_of(meta.owner.as_str())));
        members.push(json::pair("group", json::text_of(meta.group.as_str())));
        members.push(json::pair("phase", Json::Number(text::owned("2"))));
        proof {
            assert(views::all(members@) =~= committed_metadata(dest@, meta@)->Object_0);
        }
        tools::result_and_metadata(s.as_str(), Json::Object(members))
    }
}

// ── Laws ─────────────────────────────────────────────────────────────────

/// Two uploads to one destination get staging paths of their own, unless one process
/// asks for both at the same time.
pub proof fn law_staging_paths_differ(
    dest: Seq<char>,
    process: u32,
    nanos: u128,
    other_process: u32,
    other_nanos: u128,
)
    requires
        process != other_process || nanos != other_nanos,
    ensures
        stage_path(dest, process, nanos) != stage_path(dest, other_process, other_nanos),
{
    let a = stage_path(dest, process, nanos);
    let b = stage_path(dest, other_process, other_nanos);
    let name = match paths::final_name(dest) {
        Some(n) => n,
        None => "upload"@,
    };
    let head = STAGING_DIR@ + "/"@ + name + "."@;
    let n = head.len() as int;
    let p = numbers::dec(process as nat);
    let q = numbers::dec(other_process as nat);
    numbers::lemma_numeral(process as nat, 10);
    numbers::lemma_numeral(other_process as nat, 10);
    numbers::lemma_numeral(nanos as nat, 10);
    numbers::lemma_numeral(other_nanos as nat, 10);
    reveal_strlit(".");
    if a == b {
        assert(a.skip(n) =~= p + "."@ + numbers::dec(nanos as nat));
        assert(b.skip(n) =~= q + "."@ + numbers::dec(other_nanos as nat));
        let rest = a.skip(n);
        assert(rest[p.len() as int] == '.');
        assert(rest[q.len() as int] == '.');
        if p.len() < q.len() {
            assert(rest[p.len() as int] == q[p.len() as int]);
            assert(numbers::is_radix_digit(q[p.len() as int], 10));
        }
        if q.len() < p.len() {
            assert(rest[q.len() as int] == p[q.len() as int]);
            assert(numbers::is_radix_digit(p[q.len() as int], 10));
        }
        assert(rest.take(p.len() as int) =~= p);
        assert(rest.take(p.len() as int) =~= q);
        assert(rest.skip(p.len() as int + 1) =~= numbers::dec(nanos as nat));
        assert(rest.skip(p.len() as int + 1) =~= numbers::dec(other_nanos as nat));
    }
}

/// The mode of a file that is put: the one asked for, in octal; else that of the file it
/// replaces; else read and write for its owner and read for the others.
pub proof fn law_mode_chosen(n: u32, replaced: Option<u32>, old: u32)
    ensures
        chosen_mode(Some(numbers::oct(n as nat)), replaced) == Ok::<u32, Seq<char>>(n),
        chosen_mode(None, Some(old)) == Ok::<u32, Seq<char>>(old),
        chosen_mode(None, None) == Ok::<u32, Seq<char>>(0o644),
{
    sudo::law_mode_read_back(n);
}

/// A staged file is taken if it is a file and holds something.
pub proof fn law_staged_file_taken(stage: Seq<char>, is_dir: bool, size: u64)
    ensures
        stage_fault(stage, is_dir, size) is None <==> !is_dir && size > 0,
{
}

} // verus!
