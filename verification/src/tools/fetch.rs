//! `remote_fetch`: what a client needs to know to pull a file over a channel of its own.
//! The bytes of the file never pass through the protocol.

use vstd::prelude::*;

use crate::engines;
use crate::json;
use crate::json::{Json, JsonView, Member};
use crate::numbers;
use crate::text;
use crate::tools;
use crate::tools::sudo::{SudoMeta, SudoMetaView};
use crate::views;

verus! {

broadcast use {
    crate::views::group_all,
    crate::views::group_texts,
    crate::json::group_json,
};

/// Tool implementing large-file fetch metadata.
pub struct FetchTool;

/// What a `remote_fetch` asks for.
#[derive(Debug)]
pub struct FetchRequest {
    pub path: String,
    pub sudo: bool,
}

/// The request that arguments make: the path, and whether to use sudo.
pub open spec fn request_of(args: JsonView) -> Result<(Seq<char>, bool), Seq<char>> {
    match json::text_in(json::member(args, "path"@)) {
        None => Err(tools::required("path"@, "a string"@)),
        Some(path) => Ok((path, tools::flag(args, "sudo"@, false))),
    }
}

/// The complaint about a directory.
pub open spec fn is_directory(abs_path: Seq<char>) -> Seq<char> {
    abs_path
        + " is a directory; remote_fetch only handles files. Use remote_read for directory listings."@
}

/// The permission bits of a mode, in octal.
pub open spec fn permissions(mode: u32) -> Seq<char> {
    numbers::oct((mode % 0o10000) as nat)
}

/// What is told of a file that can be fetched.
pub open spec fn ready_text(
    path: Seq<char>,
    abs_path: Seq<char>,
    meta: SudoMetaView,
    sha256: Seq<char>,
) -> Seq<char> {
    "remote_fetch: ready for sideband transfer\npath:      "@ + path + "\nabs_path:  "@ + abs_path
        + "\nsize:      "@ + numbers::dec(meta.size as nat) + " bytes\nsha256:    "@ + sha256
        + "\nmode:      "@ + permissions(meta.mode) + "\nowner:     "@ + meta.owner
        + "\ngroup:     "@ + meta.group
        + "\n\nClient: pull this file over a separate SSH channel, e.g.\nscp user@host:"@ + abs_path
        + " ./local-name\nrsync -e ssh user@host:"@ + abs_path
        + " ./local-name\nData does not transit the MCP/LLM channel."@
}

/// The same as JSON.
pub open spec fn ready_metadata(
    path: Seq<char>,
    abs_path: Seq<char>,
    meta: SudoMetaView,
    sha256: Seq<char>,
) -> JsonView {
    JsonView::Object(
        seq![
            ("path"@, JsonView::Text(path)),
            ("abs_path"@, JsonView::Text(abs_path)),
            ("size"@, JsonView::Number(numbers::dec(meta.size as nat))),
            ("sha256"@, JsonView::Text(sha256)),
            ("mode"@, JsonView::Text(permissions(meta.mode))),
            ("owner"@, JsonView::Text(meta.owner)),
            ("group"@, JsonView::Text(meta.group)),
        ],
    )
}

impl FetchTool {
    /// The request that arguments make: `{ path: string, sudo?: bool }`.
    pub fn request(args: &Json) -> (r: Result<FetchRequest, String>)
        ensures
            match (r, request_of(args@)) {
                (Ok(a), Ok(b)) => (a.path@, a.sudo) == b,
                (Err(e), Err(m)) => e@ == m,
                _ => false,
            },
    {
        match args.text_at("path") {
            None => Err(tools::required_message("path", "a string")),
            Some(path) => Ok(FetchRequest { path, sudo: tools::flag_of(args, "sudo", false) }),
        }
    }

    /// Refuse a directory.
    pub fn check(abs_path: &str, meta: &SudoMeta) -> (r: Result<(), String>)
        ensures
            match r {
                Ok(_) => !meta.is_dir,
                Err(e) => meta.is_dir && e@ == is_directory(abs_path@),
            },
    {
        if meta.is_dir {
            let mut s = text::owned(abs_path);
            s.append(
                " is a directory; remote_fetch only handles files. Use remote_read for directory listings.",
            );
            return Err(s);
        }
        Ok(())
    }

    /// The result for a file. See [`ready_text`] and [`ready_metadata`].
    pub fn result(path: &str, abs_path: &str, meta: &SudoMeta, sha256: &str) -> (r: Json)
        ensures
            r@ == tools::result_with_metadata(
                ready_text(path@, abs_path@, meta@, sha256@),
                ready_metadata(path@, abs_path@, meta@, sha256@),
            ),
    {
        let size = numbers::decimal(meta.size);
        let mode = numbers::octal(meta.mode % 0o10000);
        let mut s = text::owned("remote_fetch: ready for sideband transfer\npath:      ");
        s.append(path);
        s.append("\nabs_path:  ");
        s.append(abs_path);
        s.append("\nsize:      ");
        s.append(size.as_str());
        s.append(" bytes\nsha256:    ");
        s.append(sha256);
        s.append("\nmode:      ");
        s.append(mode.as_str());
        s.append("\nowner:     ");
        s.append(meta.owner.as_str());
        s.append("\ngroup:     ");
        s.append(meta.group.as_str());
        s.append(
            "\n\nClient: pull this file over a separate SSH channel, e.g.\nscp user@host:",
        );
        s.append(abs_path);
        s.append(" ./local-name\nrsync -e ssh user@host:");
        s.append(abs_path);
        s.append(" ./local-name\nData does not transit the MCP/LLM channel.");
        let mut members: Vec<Member> = Vec::new();
        members.push(json::pair("path", json::text_of(path)));
        members.push(json::pair("abs_path", json::text_of(abs_path)));
        members.push(json::pair("size", Json::Number(size)));
        members.push(json::pair("sha256", json::text_of(sha256)));
        members.push(json::pair("mode", json::text_of(mode.as_str())));
        members.push(json::pair("owner", json::text_of(meta.owner.as_str())));
        members.push(json::pair("group", json::text_of(meta.group.as_str())));
        proof {
            assert(views::all(members@) =~= ready_metadata(
                path@,
                abs_path@,
                meta@,
                sha256@,
            )->Object_0);
        }
        tools::result_and_metadata(s.as_str(), Json::Object(members))
    }
}

// ── Checksums ────────────────────────────────────────────────────────────

/// What came of running a checksum program.
#[derive(Debug)]
pub enum Attempt {
    /// It printed this.
    Done(Vec<u8>),
    /// It failed and complained with this.
    Failed(Vec<u8>),
    /// It could not be run.
    NotFound,
}

/// The checksum that an attempt gives: the first word that was printed.
pub open spec fn checksum_in(attempt: Attempt) -> Option<Seq<char>> {
    match attempt {
        Attempt::Done(out) => {
            let words = text::words(engines::lossy_text(out@));
            if words.len() > 0 {
                Some(words[0])
            } else {
                None
            }
        },
        _ => None,
    }
}

/// What is noted of an attempt that gave no checksum.
pub open spec fn note_of(program: Seq<char>, attempt: Attempt) -> Seq<char> {
    match attempt {
        Attempt::Done(_) => Seq::empty(),
        Attempt::Failed(err) => program + ": "@ + engines::lossy_text(err@) + "\n"@,
        Attempt::NotFound => program + ": not found\n"@,
    }
}

/// A search for a program that computes a checksum.
#[derive(Debug)]
pub struct ChecksumSearch {
    /// What was noted of the attempts so far.
    pub tried: String,
}

impl ChecksumSearch {
    pub fn new() -> (r: Self)
        ensures
            r.tried@ == Seq::<char>::empty(),
    {
        ChecksumSearch { tried: String::new() }
    }

    /// Take note of an attempt. Returns the checksum if it gave one.
    pub fn attempt(&mut self, program: &str, attempt: Attempt) -> (r: Option<String>)
        ensures
            views::opt_text(r) == checksum_in(attempt),
            final(self).tried@ == old(self).tried@ + note_of(program@, attempt),
    {
        let ghost before = self.tried@;
        match attempt {
            Attempt::Done(out) => {
                assert(before + Seq::<char>::empty() =~= before);
                let s = engines::decode_lossy(out.as_slice());
                let words = text::words_of(s.as_str());
                assert(views::texts(words@).len() == words@.len());
                if words.len() > 0 {
                    assert(views::texts(words@)[0] == words@[0]@);
                    Some(words[0].clone())
                } else {
                    None
                }
            },
            Attempt::Failed(err) => {
                let s = engines::decode_lossy(err.as_slice());
                let mut note = text::owned(program);
                note.append(": ");
                note.append(s.as_str());
                note.append("\n");
                self.tried.append(note.as_str());
                None
            },
            Attempt::NotFound => {
                let mut note = text::owned(program);
                note.append(": not found\n");
                self.tried.append(note.as_str());
                None
            },
        }
    }

    /// The complaint once every program was tried.
    pub fn give_up(&self, path: &str) -> (r: String)
        ensures
            r@ == tools::failed("Could not compute sha256 for "@, path@, self.tried@),
    {
        tools::failed_message("Could not compute sha256 for ", path, self.tried.as_str())
    }
}

// ── Laws ─────────────────────────────────────────────────────────────────

/// The checksum is the first word of what a checksum program writes.
pub proof fn law_checksum_read(out: Vec<u8>, sum: Seq<char>, space: char, rest: Seq<char>)
    requires
        engines::lossy_text(out@) == sum.push(space) + rest,
        sum.len() > 0,
        forall|i: int| 0 <= i < sum.len() ==> !text::is_white(#[trigger] sum[i]),
        text::is_white(space),
    ensures
        checksum_in(Attempt::Done(out)) == Some(sum),
{
    text::law_first_word(sum, space, rest);
}

/// The permissions of a file are the last twelve bits of its mode, in octal.
pub proof fn law_permissions(mode: u32)
    ensures
        numbers::parse_unsigned(permissions(mode), 8, u32::MAX as int) == Some(
            (mode % 4096) as int,
        ),
{
    numbers::law_number_read_back((mode % 0o10000) as nat, 8, u32::MAX as int);
}

} // verus!
