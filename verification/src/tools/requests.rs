//! What the arguments of a call ask a tool for.

use vstd::prelude::*;

use crate::json;
use crate::json::JsonView;
use crate::tools;
use crate::tools::bash;
use crate::tools::edit;
use crate::tools::fetch;
use crate::tools::find;
use crate::tools::put;
use crate::tools::put::PutRequestView;
use crate::tools::read;
use crate::tools::search;

verus! {

/// The argument of a name is this text.
pub open spec fn says(args: JsonView, name: Seq<char>, s: Seq<char>) -> bool {
    json::member(args, name) == Some(JsonView::Text(s))
}

/// The argument of a name is a text.
pub open spec fn says_text(args: JsonView, name: Seq<char>) -> bool {
    json::member(args, name) matches Some(v) && v is Text
}

/// A switch is on: set so, or left alone where it is on by itself.
pub open spec fn is_on(args: JsonView, name: Seq<char>, by_itself: bool) -> bool {
    match json::member(args, name) {
        Some(JsonView::Bool(b)) => b,
        _ => by_itself,
    }
}

/// What may be said in a text and was.
pub open spec fn is_optional(args: JsonView, name: Seq<char>, got: Option<Seq<char>>) -> bool {
    &&& got matches Some(s) ==> says(args, name, s)
    &&& got is None ==> !says_text(args, name)
}

/// The texts of a list are all its texts, in order.
pub proof fn law_texts_among(items: Seq<JsonView>)
    ensures
        tools::texts_among(items) == items.filter_map(
            |v: JsonView|
                match v {
                    JsonView::Text(s) => Some(s),
                    _ => None,
                },
        ),
    decreases items.len(),
{
    if items.len() > 0 {
        law_texts_among(items.drop_last());
    }
    assert(tools::texts_among(items) =~= items.filter_map(
        |v: JsonView|
            match v {
                JsonView::Text(s) => Some(s),
                _ => None,
            },
    ));
}

/// A write asks for a path and a content, both as they are given; without either it is refused.
pub proof fn law_write_request(args: JsonView)
    ensures
        tools::write::request_of(args) is Ok <==> says_text(args, "path"@) && says_text(args, "content"@),
        tools::write::request_of(args) matches Ok(r) ==> {
            &&& says(args, "path"@, r.path)
            &&& says(args, "content"@, r.content)
            &&& r.sudo == is_on(args, "sudo"@, false)
            &&& is_optional(args, "mode"@, r.mode)
            &&& is_optional(args, "owner"@, r.owner)
        },
{
}

/// An edit asks for a patch, as it is given.
pub proof fn law_edit_request(args: JsonView)
    ensures
        edit::request_of(args) is Ok <==> says_text(args, "input"@),
        edit::request_of(args) matches Ok((input, sudo)) ==> says(args, "input"@, input) && sudo
            == is_on(args, "sudo"@, false),
{
}

/// A fetch asks for a path, as it is given.
pub proof fn law_fetch_request(args: JsonView)
    ensures
        fetch::request_of(args) is Ok <==> says_text(args, "path"@),
        fetch::request_of(args) matches Ok((path, sudo)) ==> says(args, "path"@, path) && sudo
            == is_on(args, "sudo"@, false),
{
}

/// A read asks for a path, from which a selector is taken off.
pub proof fn law_read_request(args: JsonView)
    ensures
        read::request_of(args) is Ok <==> says_text(args, "path"@),
        read::request_of(args) matches Ok(r) ==> r.sudo == is_on(args, "sudo"@, false) && exists|
            raw: Seq<char>,
        |
            says(args, "path"@, raw) && (r.path, r.selector) == #[trigger] read::path_and_selector(
                raw,
            ),
{
    match json::member(args, "path"@) {
        Some(JsonView::Text(raw)) => {
            assert(says(args, "path"@, raw));
            let taken = read::path_and_selector(raw);
            assert(read::request_of(args) matches Ok(r) && (r.path, r.selector) == taken);
        },
        _ => {},
    }
}

/// A command is run as it is given, in the directory, with the time and with the variables that
/// are given; without a time it has a minute.
pub proof fn law_bash_request(args: JsonView)
    ensures
        bash::request_of(args) is Ok <==> says_text(args, "command"@),
        bash::request_of(args) matches Ok(r) ==> {
            &&& says(args, "command"@, r.command)
            &&& r.sudo == is_on(args, "sudo"@, false)
            &&& is_optional(args, "cwd"@, r.cwd)
            &&& json::integer_in(json::member(args, "timeout"@)) matches Some(n) ==> r.timeout_secs
                == n
            &&& json::integer_in(json::member(args, "timeout"@)) is None ==> r.timeout_secs
                == 60
            &&& json::member(args, "env"@) matches Some(JsonView::Object(members)) ==> r.env
                == members.filter_map(
                |m: (Seq<char>, JsonView)|
                    match m.1 {
                        JsonView::Text(s) => Some((m.0, s)),
                        _ => None,
                    },
            )
        },
{
    match json::member(args, "env"@) {
        Some(JsonView::Object(members)) => {
            bash::law_text_members(members);
        },
        _ => {},
    }
}

/// A search asks for a pattern, as it is given, in the paths that are given; a single path
/// stands for itself, and no path for the current directory. Case counts, and ignored files are
/// left out, unless it is said otherwise.
pub proof fn law_search_request(args: JsonView)
    ensures
        search::request_of(args) matches Ok(r) ==> {
            &&& says(args, "pattern"@, r.pattern)
            &&& r.case_sensitive == is_on(args, "case"@, true)
            &&& r.gitignore == is_on(args, "gitignore"@, true)
            &&& json::member(args, "paths"@) is None ==> r.paths == seq![seq!['.']]
            &&& json::member(args, "paths"@) matches Some(JsonView::Text(s)) ==> r.paths == seq![s]
            &&& json::member(args, "paths"@) matches Some(JsonView::Array(items)) ==> r.paths
                == items.filter_map(
                |v: JsonView|
                    match v {
                        JsonView::Text(s) => Some(s),
                        _ => None,
                    },
            )
        },
        says_text(args, "pattern"@) && (json::member(args, "paths"@) is None || says_text(
            args,
            "paths"@,
        )) ==> search::request_of(args) is Ok,
        !says_text(args, "pattern"@) ==> search::request_of(args) is Err,
{
    reveal_strlit(".");
    assert("."@ =~= seq!['.']);
    match json::member(args, "paths"@) {
        Some(JsonView::Array(items)) => {
            law_texts_among(items);
        },
        _ => {},
    }
}

/// A find asks for some paths, all of those that are given; hidden files are shown, and ignored
/// ones left out, unless it is said otherwise.
pub proof fn law_find_request(args: JsonView)
    ensures
        find::request_of(args) matches Ok(r) ==> {
            &&& r.gitignore == is_on(args, "gitignore"@, true)
            &&& r.hidden == is_on(args, "hidden"@, true)
            &&& r.paths.len() > 0
            &&& json::member(args, "paths"@) matches Some(JsonView::Array(items)) && r.paths
                == items.filter_map(
                |v: JsonView|
                    match v {
                        JsonView::Text(s) => Some(s),
                        _ => None,
                    },
            )
        },
{
    match json::member(args, "paths"@) {
        Some(JsonView::Array(items)) => {
            law_texts_among(items);
        },
        _ => {},
    }
}

/// A put first asks for a place to upload to and then to take over what was uploaded: where it
/// says so, and names the place.
pub proof fn law_put_request(args: JsonView)
    ensures
        put::request_of(args) is Ok <==> says_text(args, "path"@) && (is_on(args, "commit"@, false)
            ==> says_text(args, "staging_path"@)),
        put::request_of(args) matches Ok(PutRequestView::Prepare { path, sudo }) ==> says(
            args,
            "path"@,
            path,
        ) && sudo == is_on(args, "sudo"@, false) && !is_on(args, "commit"@, false),
        put::request_of(args) matches Ok(
            PutRequestView::Commit { path, staging_path, sudo, mode, owner },
        ) ==> {
            &&& is_on(args, "commit"@, false)
            &&& says(args, "path"@, path)
            &&& says(args, "staging_path"@, staging_path)
            &&& sudo == is_on(args, "sudo"@, false)
            &&& is_optional(args, "mode"@, mode)
            &&& is_optional(args, "owner"@, owner)
        },
{
}

} // verus!
