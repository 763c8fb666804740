//! `remote_write`: create or overwrite a file.

use vstd::prelude::*;

use crate::json;
use crate::json::{Json, JsonView};
use crate::numbers;
use crate::text;
use crate::tools;
use crate::tools::sudo;
use crate::views;

verus! {

/// The mode of a file of which nothing is known.
pub const DEFAULT_MODE: u32 = 0o644;

/// Tool implementing file creation/overwrite.
pub struct WriteTool;

/// What a `remote_write` asks for.
#[derive(Debug)]
pub struct WriteRequest {
    pub path: String,
    pub content: String,
    pub sudo: bool,
    pub mode: Option<String>,
    pub owner: Option<String>,
}

/// The model of a [`WriteRequest`].
#[verifier::ext_equal]
pub struct WriteRequestView {
    pub path: Seq<char>,
    pub content: Seq<char>,
    pub sudo: bool,
    pub mode: Option<Seq<char>>,
    pub owner: Option<Seq<char>>,
}

impl View for WriteRequest {
    type V = WriteRequestView;

    open spec fn view(&self) -> WriteRequestView {
        WriteRequestView {
            path: self.path@,
            content: self.content@,
            sudo: self.sudo,
            mode: views::opt_text(self.mode),
            owner: views::opt_text(self.owner),
        }
    }
}

/// The request that arguments make.
pub open spec fn request_of(args: JsonView) -> Result<WriteRequestView, Seq<char>> {
    match (
        json::text_in(json::member(args, "path"@)),
        json::text_in(json::member(args, "content"@)),
    ) {
        (None, _) => Err(tools::required("path"@, "a string"@)),
        (_, None) => Err(tools::required("content"@, "a string"@)),
        (Some(path), Some(content)) => Ok(
            WriteRequestView {
                path,
                content,
                sudo: tools::flag(args, "sudo"@, false),
                mode: json::text_in(json::member(args, "mode"@)),
                owner: json::text_in(json::member(args, "owner"@)),
            },
        ),
    }
}

/// The mode that is set once the file is written: none where neither mode nor owner was
/// asked for; where only the owner was, the mode that the file has.
pub open spec fn mode_to_set(w: WriteRequestView, current: Option<u32>) -> Result<
    Option<u32>,
    Seq<char>,
> {
    match (w.mode, w.owner) {
        (Some(m), _) => match sudo::mode_value(m) {
            Ok(n) => Ok(Some(n)),
            Err(e) => Err(e),
        },
        (None, Some(_)) => Ok(
            Some(
                match current {
                    Some(n) => n,
                    None => DEFAULT_MODE,
                },
            ),
        ),
        (None, None) => Ok(None),
    }
}

/// What is told of a file that was written.
pub open spec fn written_text(w: WriteRequestView) -> Seq<char> {
    let bytes = vstd::utf8::encode_utf8(w.content).len();
    "Wrote "@ + numbers::dec(bytes) + " bytes to "@ + w.path + (if w.sudo {
        " (via sudo)"@
    } else {
        Seq::empty()
    }) + (match w.mode {
        Some(m) => ", mode="@ + m,
        None => Seq::empty(),
    }) + (match w.owner {
        Some(o) => ", owner="@ + o,
        None => Seq::empty(),
    })
}

impl WriteTool {
    /// The request that arguments make:
    /// `{ path, content, sudo?: bool, mode?: string, owner?: string }`.
    pub fn request(args: &Json) -> (r: Result<WriteRequest, String>)
        ensures
            match (r, request_of(args@)) {
                (Ok(a), Ok(b)) => a@ == b,
                (Err(e), Err(m)) => e@ == m,
                _ => false,
            },
    {
        let path = match args.text_at("path") {
            Some(p) => p,
            None => {
                return Err(tools::required_message("path", "a string"));
            },
        };
        let content = match args.text_at("content") {
            Some(c) => c,
            None => {
                return Err(tools::required_message("content", "a string"));
            },
        };
        Ok(
            WriteRequest {
                path,
                content,
                sudo: tools::flag_of(args, "sudo", false),
                mode: args.text_at("mode"),
                owner: args.text_at("owner"),
            },
        )
    }

    /// The mode to set after writing, given the one that the file has. See
    /// [`mode_to_set`].
    pub fn mode(request: &WriteRequest, current: Option<u32>) -> (r: Result<Option<u32>, String>)
        ensures
            match (r, mode_to_set(request@, current)) {
                (Ok(a), Ok(b)) => a == b,
                (Err(e), Err(m)) => e@ == m,
                _ => false,
            },
    {
        match &request.mode {
            Some(m) => match sudo::parse_mode(m.as_str()) {
                Ok(n) => Ok(Some(n)),
                Err(e) => Err(e),
            },
            None => {
                if request.owner.is_none() {
                    return Ok(None);
                }
                match current {
                    Some(n) => Ok(Some(n)),
                    None => Ok(Some(DEFAULT_MODE)),
                }
            },
        }
    }

    /// The result of a write. See [`written_text`].
    pub fn result(request: &WriteRequest) -> (r: Json)
        ensures
            r@ == tools::text_result(written_text(request@)),
    {
        let bytes: usize = request.content.as_str().as_bytes().len();
        let mut s = text::owned("Wrote ");
        s.append(numbers::decimal_usize(bytes).as_str());
        s.append(" bytes to ");
        s.append(request.path.as_str());
        if request.sudo {
            s.append(" (via sudo)");
        }
        match &request.mode {
            Some(m) => {
                s.append(", mode=");
                s.append(m.as_str());
            },
            None => {},
        }
        match &request.owner {
            Some(o) => {
                s.append(", owner=");
                s.append(o.as_str());
            },
            None => {},
        }
        assert(s@ =~= written_text(request@));
        tools::text_result_of(s.as_str())
    }
}

/// The mode that a write sets: the one asked for, in octal; where only an owner is asked for,
/// the one that the file has; and otherwise none.
pub proof fn law_mode_set(w: WriteRequestView, n: u32, current: u32)
    ensures
        w.mode == Some(numbers::oct(n as nat)) ==> mode_to_set(w, Some(current)) == Ok::<
            Option<u32>,
            Seq<char>,
        >(Some(n)),
        w.mode is None && w.owner is Some ==> mode_to_set(w, Some(current)) == Ok::<
            Option<u32>,
            Seq<char>,
        >(Some(current)),
        w.mode is None && w.owner is None ==> mode_to_set(w, Some(current)) == Ok::<
            Option<u32>,
            Seq<char>,
        >(None),
{
    sudo::law_mode_read_back(n);
}

} // verus!
