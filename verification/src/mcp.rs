//! The Model Context Protocol: JSON-RPC 2.0 messages, one per line.
//!
//! Supported methods:
//!   - `initialize` gives server info and capabilities
//!   - `notifications/initialized` gives no response
//!   - `tools/list` gives the tool definitions
//!   - `tools/call` runs a tool
//!   - `ping` gives an empty result
//!
//! Unknown methods with an `id` give an error.
//!
//! Running a tool is left to the caller: a message that asks for it gives a
//! [`ToolCall`], and [`finish_call`] makes the responses of what came of it.

use vstd::prelude::*;

use crate::json;
use crate::json::{Json, JsonView, Member};
use crate::line_reader::{MAX_CONSECUTIVE_ERRORS, MAX_LINE_LEN};
use crate::numbers;
use crate::snapshots::{InMemorySnapshotStore, PathEntryView};
use crate::text;
use crate::tools;
use crate::tools::registry;
use crate::tools::registry::{ToolRegistry, ToolRegistryView};
use crate::tools::{ToolResult, ToolResultView};
use crate::views;

verus! {

broadcast use {
    crate::views::group_all,
    crate::views::group_texts,
    crate::json::group_json,
};

/// JSON-RPC error codes, without their minus sign.
pub const PARSE_ERROR: u32 = 32700;

pub const INVALID_REQUEST: u32 = 32600;

pub const METHOD_NOT_FOUND: u32 = 32601;

pub const INVALID_PARAMS: u32 = 32602;

pub const PROTOCOL_VERSION: &'static str = "2025-03-26";

pub const SERVER_NAME: &'static str = "remote-agentd";

pub const SERVER_VERSION: &'static str = "0.1.0";

// ── Messages ─────────────────────────────────────────────────────────────

/// A JSON-RPC message with an id and one more member.
pub open spec fn message(id: JsonView, key: Seq<char>, value: JsonView) -> JsonView {
    JsonView::Object(seq![("jsonrpc"@, JsonView::Text("2.0"@)), ("id"@, id), (key, value)])
}

/// A JSON-RPC response.
pub open spec fn response(id: JsonView, result: JsonView) -> JsonView {
    message(id, "result"@, result)
}

/// A JSON-RPC error response; the code is the negative of `code`.
pub open spec fn error_response(id: JsonView, code: u32, text: Seq<char>) -> JsonView {
    message(
        id,
        "error"@,
        JsonView::Object(
            seq![
                ("code"@, JsonView::Number("-"@ + numbers::dec(code as nat))),
                ("message"@, JsonView::Text(text)),
            ],
        ),
    )
}

fn respond(id: Json, result: Json) -> (r: Json)
    ensures
        r@ == response(id@, result@),
{
    json::object_of_three("jsonrpc", json::text_of("2.0"), "id", id, "result", result)
}

/// Build a JSON-RPC error response. See [`error_response`].
pub fn json_error(id: Json, code: u32, text: &str) -> (r: Json)
    ensures
        r@ == error_response(id@, code, text@),
{
    let mut number = text::owned("-");
    number.append(numbers::decimal(code as u64).as_str());
    json::object_of_three(
        "jsonrpc",
        json::text_of("2.0"),
        "id",
        id,
        "error",
        json::object_of_two("code", Json::Number(number), "message", json::text_of(text)),
    )
}

/// What the server says of itself.
pub open spec fn server_info() -> JsonView {
    JsonView::Object(
        seq![
            ("protocolVersion"@, JsonView::Text(PROTOCOL_VERSION@)),
            (
                "capabilities"@,
                JsonView::Object(
                    seq![
                        (
                            "tools"@,
                            JsonView::Object(seq![("listChanged"@, JsonView::Bool(false))]),
                        ),
                    ],
                ),
            ),
            (
                "serverInfo"@,
                JsonView::Object(
                    seq![
                        ("name"@, JsonView::Text(SERVER_NAME@)),
                        ("version"@, JsonView::Text(SERVER_VERSION@)),
                    ],
                ),
            ),
        ],
    )
}

fn describe_server() -> (r: Json)
    ensures
        r@ == server_info(),
{
    json::object_of_three(
        "protocolVersion",
        json::text_of(PROTOCOL_VERSION),
        "capabilities",
        json::object_of_one(
            "tools",
            json::object_of_one("listChanged", Json::Bool(false)),
        ),
        "serverInfo",
        json::object_of_two(
            "name",
            json::text_of(SERVER_NAME),
            "version",
            json::text_of(SERVER_VERSION),
        ),
    )
}

// ── Handling a message ───────────────────────────────────────────────────

/// A tool that is to be run.
#[derive(Debug)]
pub struct ToolCall {
    pub id: Json,
    pub name: String,
    pub arguments: Json,
    /// Present when the client wants to be told of progress.
    pub progress_token: Option<Json>,
}

/// What is to be done about a message.
#[derive(Debug)]
pub enum Step {
    /// Write these messages, in order; none for a notification.
    Reply(Vec<Json>),
    /// Run a tool, then [`finish_call`].
    Call(ToolCall),
}

/// The model of a [`Step`].
#[verifier::ext_equal]
pub enum StepView {
    Reply(Seq<JsonView>),
    Call {
        id: JsonView,
        name: Seq<char>,
        arguments: JsonView,
        progress_token: Option<JsonView>,
    },
}

impl View for Step {
    type V = StepView;

    open spec fn view(&self) -> StepView {
        match self {
            Step::Reply(messages) => StepView::Reply(views::all(messages@)),
            Step::Call(call) => StepView::Call {
                id: call.id@,
                name: call.name@,
                arguments: call.arguments@,
                progress_token: opt_value(call.progress_token),
            },
        }
    }
}

/// The model of an optional value.
pub open spec fn opt_value(o: Option<Json>) -> Option<JsonView> {
    match o {
        Some(j) => Some(j@),
        None => None,
    }
}

/// A value, or null where there is none.
pub open spec fn or_null(v: Option<JsonView>) -> JsonView {
    match v {
        Some(j) => j,
        None => JsonView::Null,
    }
}

/// A text, or the empty one where there is none.
pub open spec fn or_empty(s: Option<Seq<char>>) -> Seq<char> {
    match s {
        Some(t) => t,
        None => Seq::empty(),
    }
}

/// A reply of one message.
pub open spec fn reply(m: JsonView) -> StepView {
    StepView::Reply(seq![m])
}

/// The complaint about a tool that is defined but cannot be run.
pub open spec fn no_implementation(name: Seq<char>) -> Seq<char> {
    "Tool '"@ + name + "' is defined but has no implementation registered"@
}

/// What is to be done about a `tools/call`.
pub open spec fn call_handled(tools: ToolRegistryView, id: JsonView, params: JsonView) -> StepView {
    let name = or_empty(json::text_in(json::member(params, "name"@)));
    if !(params is Object) {
        reply(error_response(id, INVALID_PARAMS, "Invalid params"@))
    } else if name.len() == 0 {
        reply(error_response(id, INVALID_PARAMS, "Missing tool name"@))
    } else if !registry::is_defined(tools.definitions, name) {
        reply(error_response(id, METHOD_NOT_FOUND, "Unknown tool: "@ + name))
    } else if !tools.handlers.contains(name) {
        reply(
            response(
                id,
                tools::result_json(
                    ToolResultView { content: seq![no_implementation(name)], is_error: true },
                ),
            ),
        )
    } else {
        StepView::Call {
            id,
            name,
            arguments: match json::member(params, "arguments"@) {
                Some(a) => a,
                None => JsonView::Object(Seq::empty()),
            },
            progress_token: match json::member(params, "_meta"@) {
                Some(m) => json::member(m, "progressToken"@),
                None => None,
            },
        }
    }
}

/// What is to be done about a message that is a JSON object. A missing version of the
/// protocol is accepted.
pub open spec fn request_handled(tools: ToolRegistryView, v: JsonView) -> StepView {
    let version = json::member(v, "jsonrpc"@);
    let id = json::member(v, "id"@);
    let method = or_empty(json::text_in(json::member(v, "method"@)));
    if version is Some && json::text_in(version) != Some("2.0"@) {
        reply(error_response(or_null(id), INVALID_REQUEST, "Invalid jsonrpc version"@))
    } else if method == "initialize"@ {
        reply(response(or_null(id), server_info()))
    } else if method == "notifications/initialized"@ {
        StepView::Reply(Seq::empty())
    } else if method == "tools/list"@ {
        reply(
            response(
                or_null(id),
                JsonView::Object(
                    seq![
                        (
                            "tools"@,
                            JsonView::Array(
                                tools.definitions.map_values(
                                    |d: registry::ToolDefinitionView| registry::definition_json(d),
                                ),
                            ),
                        ),
                    ],
                ),
            ),
        )
    } else if method == "tools/call"@ {
        call_handled(tools, or_null(id), or_null(json::member(v, "params"@)))
    } else if method == "ping"@ {
        reply(response(or_null(id), JsonView::Object(Seq::empty())))
    } else if id is Some {
        reply(error_response(id->0, METHOD_NOT_FOUND, "Unknown method: "@ + method))
    } else {
        StepView::Reply(Seq::empty())
    }
}

/// What is to be done about a line: `parsed` is the value it holds, or why it holds none.
pub open spec fn line_handled(
    tools: ToolRegistryView,
    parsed: Result<JsonView, Seq<char>>,
) -> StepView {
    match parsed {
        Err(e) => reply(error_response(JsonView::Null, PARSE_ERROR, "Parse error: "@ + e)),
        Ok(v) => if v is Object {
            request_handled(tools, v)
        } else {
            reply(
                error_response(
                    JsonView::Null,
                    INVALID_REQUEST,
                    "Invalid Request: not a JSON object"@,
                ),
            )
        },
    }
}

fn reply_with(m: Json) -> (r: Step)
    ensures
        r@ == reply(m@),
{
    let mut v: Vec<Json> = Vec::new();
    v.push(m);
    assert(views::all(v@) =~= seq![m@]);
    Step::Reply(v)
}

fn copy_or_null(j: Option<&Json>) -> (r: Json)
    ensures
        r@ == or_null(json::opt_json(j)),
{
    match j {
        Some(v) => v.copy(),
        None => Json::Null,
    }
}

/// Protocol handler. Owns the snapshot store and the tool registry.
pub struct McpHandler {
    /// Snapshot store for read/edit/write tag verification.
    pub snapshots: InMemorySnapshotStore,
    /// The tools.
    pub tools: ToolRegistry,
}

impl McpHandler {
    /// A handler with an empty store, and tools that cannot be run yet.
    pub fn new() -> (r: Self)
        ensures
            r.snapshots@.entries == Seq::<PathEntryView>::empty(),
            r.snapshots@.lru == Seq::<Seq<char>>::empty(),
            r.tools@ == (ToolRegistryView {
                definitions: registry::all_tools(),
                handlers: Seq::empty(),
            }),
    {
        McpHandler { snapshots: InMemorySnapshotStore::new(), tools: ToolRegistry::new() }
    }

    /// Say that the tool of a name can be run. Delegates to the registry.
    pub fn register_tool(&mut self, name: &str)
        ensures
            final(self).tools@ == registry::with_handler(old(self).tools@, name@),
            final(self).snapshots == old(self).snapshots,
    {
        self.tools.register(name);
    }

    /// Handle one incoming line, given the JSON value that it holds or the parser's
    /// message. See [`line_handled`].
    pub fn handle_message(&self, parsed: Result<Json, String>) -> (r: Step)
        ensures
            r@ == line_handled(
                self.tools@,
                match parsed {
                    Ok(v) => Ok(v@),
                    Err(e) => Err(e@),
                },
            ),
    {
        match parsed {
            Err(e) => {
                let mut s = text::owned("Parse error: ");
                s.append(e.as_str());
                reply_with(json_error(Json::Null, PARSE_ERROR, s.as_str()))
            },
            Ok(v) => {
                let object = match &v {
                    Json::Object(_) => true,
                    _ => false,
                };
                if !object {
                    return reply_with(
                        json_error(
                            Json::Null,
                            INVALID_REQUEST,
                            "Invalid Request: not a JSON object",
                        ),
                    );
                }
                self.handle_request(&v)
            },
        }
    }

    fn handle_request(&self, v: &Json) -> (r: Step)
        requires
            v@ is Object,
        ensures
            r@ == request_handled(self.tools@, v@),
    {
        let version_ok = match v.get("jsonrpc") {
            Some(j) => match j.as_text() {
                Some(s) => text::same(s, "2.0"),
                None => false,
            },
            None => true,
        };
        let id = v.get("id");
        if !version_ok {
            return reply_with(
                json_error(copy_or_null(id), INVALID_REQUEST, "Invalid jsonrpc version"),
            );
        }
        let method = match v.text_at("method") {
            Some(s) => s,
            None => String::new(),
        };
        assert(method@ =~= or_empty(json::text_in(json::member(v@, "method"@))));
        if text::same(method.as_str(), "initialize") {
            reply_with(respond(copy_or_null(id), describe_server()))
        } else if text::same(method.as_str(), "notifications/initialized") {
            let none: Vec<Json> = Vec::new();
            assert(views::all(none@) =~= Seq::empty());
            Step::Reply(none)
        } else if text::same(method.as_str(), "tools/list") {
            let list = self.tools.list();
            reply_with(
                respond(copy_or_null(id), json::object_of_one("tools", Json::Array(list))),
            )
        } else if text::same(method.as_str(), "tools/call") {
            self.handle_tools_call(copy_or_null(id), copy_or_null(v.get("params")))
        } else if text::same(method.as_str(), "ping") {
            let none: Vec<Member> = Vec::new();
            assert(views::all(none@) =~= Seq::empty());
            reply_with(respond(copy_or_null(id), Json::Object(none)))
        } else {
            match id {
                Some(i) => {
                    let mut s = text::owned("Unknown method: ");
                    s.append(method.as_str());
                    reply_with(json_error(i.copy(), METHOD_NOT_FOUND, s.as_str()))
                },
                None => {
                    let none: Vec<Json> = Vec::new();
                    assert(views::all(none@) =~= Seq::empty());
                    Step::Reply(none)
                },
            }
        }
    }

    fn handle_tools_call(&self, id: Json, params: Json) -> (r: Step)
        ensures
            r@ == call_handled(self.tools@, id@, params@),
    {
        let object = match &params {
            Json::Object(_) => true,
            _ => false,
        };
        if !object {
            return reply_with(json_error(id, INVALID_PARAMS, "Invalid params"));
        }
        let name = match params.text_at("name") {
            Some(s) => s,
            None => String::new(),
        };
        assert(name@ =~= or_empty(json::text_in(json::member(params@, "name"@))));
        let chars: usize = text::char_count(name.as_str());
        if chars == 0 {
            return reply_with(json_error(id, INVALID_PARAMS, "Missing tool name"));
        }
        if !self.tools.has_tool(name.as_str()) {
            let mut s = text::owned("Unknown tool: ");
            s.append(name.as_str());
            return reply_with(json_error(id, METHOD_NOT_FOUND, s.as_str()));
        }
        if !self.tools.has_handler(name.as_str()) {
            let mut s = text::owned("Tool '");
            s.append(name.as_str());
            s.append("' is defined but has no implementation registered");
            let result = ToolResult::error(s);
            return reply_with(respond(id, result.to_json()));
        }
        let arguments = match params.get("arguments") {
            Some(a) => a.copy(),
            None => {
                let none: Vec<Member> = Vec::new();
                assert(views::all(none@) =~= Seq::empty());
                Json::Object(none)
            },
        };
        let progress_token = match params.get("_meta") {
            Some(m) => match m.get("progressToken") {
                Some(t) => Some(t.copy()),
                None => None,
            },
            None => None,
        };
        Step::Call(ToolCall { id, name, arguments, progress_token })
    }
}

impl Default for McpHandler {
    fn default() -> (r: Self)
        ensures
            r.snapshots@.entries == Seq::<PathEntryView>::empty(),
            r.snapshots@.lru == Seq::<Seq<char>>::empty(),
            r.tools@ == (ToolRegistryView {
                definitions: registry::all_tools(),
                handlers: Seq::empty(),
            }),
    {
        McpHandler::new()
    }
}

/// The messages after a tool has run: the progress notifications, then the response.
pub fn finish_call(id: Json, progress: Vec<Json>, result: &ToolResult) -> (r: Vec<Json>)
    ensures
        views::all(r@) == views::all(progress@).push(
            response(id@, tools::result_json(result@)),
        ),
{
    let mut out = progress;
    out.push(respond(id, result.to_json()));
    out
}

// ── Lines that are too long ──────────────────────────────────────────────

/// The complaint about a line that is too long.
pub open spec fn too_long(len: nat) -> Seq<char> {
    "Line too long ("@ + numbers::dec(len) + " bytes, limit "@ + numbers::dec(
        MAX_LINE_LEN as nat,
    ) + "). Input may be truncated/malformed."@
}

/// The response to a line that is too long.
pub fn too_long_reply(len: usize) -> (r: Json)
    ensures
        r@ == error_response(JsonView::Null, PARSE_ERROR, too_long(len as nat)),
{
    let mut s = text::owned("Line too long (");
    s.append(numbers::decimal_usize(len).as_str());
    s.append(" bytes, limit ");
    s.append(numbers::decimal_usize(MAX_LINE_LEN).as_str());
    s.append("). Input may be truncated/malformed.");
    json_error(Json::Null, PARSE_ERROR, s.as_str())
}

/// Counts the parse errors in a row, so that a client that keeps sending garbage is not
/// answered forever. A line that is too long is a parse error, too.
#[derive(Debug)]
pub struct ErrorCount {
    pub consecutive: u32,
}

/// The count after one more answer.
pub open spec fn counted(consecutive: u32, parse_error: bool) -> u32 {
    if !parse_error {
        0
    } else if consecutive < u32::MAX {
        (consecutive + 1) as u32
    } else {
        u32::MAX
    }
}

impl ErrorCount {
    pub fn new() -> (r: Self)
        ensures
            r.consecutive == 0,
    {
        ErrorCount { consecutive: 0 }
    }

    /// A line was answered. Any answer but a parse error starts the count anew. Returns
    /// whether it is time to give up.
    pub fn answered(&mut self, parse_error: bool) -> (r: bool)
        ensures
            final(self).consecutive == counted(old(self).consecutive, parse_error),
            r == (final(self).consecutive >= MAX_CONSECUTIVE_ERRORS),
    {
        if !parse_error {
            self.consecutive = 0;
        } else if self.consecutive < u32::MAX {
            self.consecutive = self.consecutive + 1;
        }
        self.consecutive >= MAX_CONSECUTIVE_ERRORS
    }
}

// ── Laws ─────────────────────────────────────────────────────────────────

/// A notification, which has no id, is answered only where its line is at fault or where
/// it names a method that answers whatever the id; an unknown one is passed over.
pub proof fn law_unknown_notification_ignored(tools: ToolRegistryView, v: JsonView)
    requires
        v is Object,
        json::member(v, "id"@) is None,
        json::member(v, "jsonrpc"@) is None || json::text_in(json::member(v, "jsonrpc"@)) == Some(
            "2.0"@,
        ),
        ({
            let method = or_empty(json::text_in(json::member(v, "method"@)));
            &&& method != "initialize"@
            &&& method != "tools/list"@
            &&& method != "tools/call"@
            &&& method != "ping"@
        }),
    ensures
        line_handled(tools, Ok(v)) == StepView::Reply(Seq::empty()),
{
}

/// Every line that is answered at once is answered with one message at most.
pub proof fn law_one_reply(tools: ToolRegistryView, parsed: Result<JsonView, Seq<char>>)
    ensures
        match line_handled(tools, parsed) {
            StepView::Reply(ms) => ms.len() <= 1,
            StepView::Call { .. } => true,
        },
{
}

/// Only a tool that is defined and can be run is ever run.
pub proof fn law_only_known_tools_run(
    tools: ToolRegistryView,
    parsed: Result<JsonView, Seq<char>>,
)
    ensures
        line_handled(tools, parsed) matches StepView::Call { name, .. } ==> registry::is_defined(
            tools.definitions,
            name,
        ) && tools.handlers.contains(name),
{
}

/// The count after `n` parse errors in a row.
pub open spec fn after_errors(consecutive: u32, n: nat) -> u32
    decreases n,
{
    if n == 0 {
        consecutive
    } else {
        counted(after_errors(consecutive, (n - 1) as nat), true)
    }
}

proof fn lemma_errors_add_up(consecutive: u32, n: nat)
    requires
        n <= u32::MAX,
    ensures
        after_errors(consecutive, n) >= n,
    decreases n,
{
    if n > 0 {
        lemma_errors_add_up(consecutive, (n - 1) as nat);
    }
}

/// A client that sends nothing but garbage is given up on, after so many answers.
pub proof fn law_gives_up(consecutive: u32)
    ensures
        after_errors(consecutive, MAX_CONSECUTIVE_ERRORS as nat) >= MAX_CONSECUTIVE_ERRORS,
{
    lemma_errors_add_up(consecutive, MAX_CONSECUTIVE_ERRORS as nat);
}

/// A message is an answer to an id: it says which version of the protocol it speaks, bears the
/// id, and holds either a result or an error.
pub open spec fn answers(m: JsonView, id: JsonView) -> bool {
    &&& json::member(m, "jsonrpc"@) == Some(JsonView::Text("2.0"@))
    &&& json::member(m, "id"@) == Some(id)
    &&& (json::member(m, "result"@) is Some) != (json::member(m, "error"@) is Some)
}

proof fn lemma_answers(id: JsonView, key: Seq<char>, value: JsonView)
    requires
        key == "result"@ || key == "error"@,
    ensures
        answers(message(id, key, value), id),
{
    reveal_strlit("jsonrpc");
    reveal_strlit("id");
    reveal_strlit("result");
    reveal_strlit("error");
    let members = seq![("jsonrpc"@, JsonView::Text("2.0"@)), ("id"@, id), (key, value)];
    assert("jsonrpc"@.len() == 7 && "id"@.len() == 2 && "result"@.len() == 6 && "error"@.len()
        == 5);
    json::law_member(members, "jsonrpc"@, 0);
    json::law_member(members, "id"@, 1);
    if key == "result"@ {
        json::law_member(members, "result"@, 2);
        json::law_member(members, "error"@, 3);
    } else {
        json::law_member(members, "error"@, 2);
        json::law_member(members, "result"@, 3);
    }
}

/// Whatever is answered to a request answers that request: it bears the id of the request, and
/// so does a call that is begun. A line that is no request is answered without an id.
pub proof fn law_reply_bears_id(tools: ToolRegistryView, parsed: Result<JsonView, Seq<char>>)
    ensures
        ({
            let id = match parsed {
                Ok(v) => match json::member(v, "id"@) {
                    Some(i) => i,
                    None => JsonView::Null,
                },
                Err(_) => JsonView::Null,
            };
            match line_handled(tools, parsed) {
                StepView::Reply(ms) => forall|k: int|
                    0 <= k < ms.len() ==> answers(#[trigger] ms[k], id),
                StepView::Call { id: i, .. } => i == id,
            }
        }),
{
    let id = match parsed {
        Ok(v) => match json::member(v, "id"@) {
            Some(i) => i,
            None => JsonView::Null,
        },
        Err(_) => JsonView::Null,
    };
    match line_handled(tools, parsed) {
        StepView::Reply(ms) => {
            if ms.len() > 0 {
                assert(exists|key: Seq<char>, value: JsonView|
                    (key == "result"@ || key == "error"@) && ms[0] == #[trigger] message(
                        id,
                        key,
                        value,
                    ));
                let (key, value) = choose|key: Seq<char>, value: JsonView|
                    (key == "result"@ || key == "error"@) && ms[0] == #[trigger] message(
                        id,
                        key,
                        value,
                    );
                lemma_answers(id, key, value);
                law_one_reply(tools, parsed);
            }
        },
        _ => {},
    }
}

/// A request to call a tool that is defined and can be run begins that call: with the tool that
/// it names, the arguments that it holds and the token under which it wants to hear of
/// progress.
pub proof fn law_call_begun(tools: ToolRegistryView, v: JsonView, params: JsonView, name: Seq<char>)
    requires
        v is Object,
        json::member(v, "jsonrpc"@) == Some(JsonView::Text("2.0"@)),
        json::member(v, "method"@) == Some(JsonView::Text("tools/call"@)),
        json::member(v, "params"@) == Some(params),
        params is Object,
        json::member(params, "name"@) == Some(JsonView::Text(name)),
        name.len() > 0,
        registry::is_defined(tools.definitions, name),
        tools.handlers.contains(name),
    ensures
        line_handled(tools, Ok(v)) matches StepView::Call { id, name: n, arguments, progress_token }
            && n == name && id == (match json::member(v, "id"@) {
            Some(i) => i,
            None => JsonView::Null,
        }) && (json::member(params, "arguments"@) matches Some(a) ==> arguments == a) && (
        json::member(params, "arguments"@) is None ==> arguments == JsonView::Object(Seq::empty()))
            && (json::member(params, "_meta"@) matches Some(m) ==> progress_token == json::member(
            m,
            "progressToken"@,
        )) && (json::member(params, "_meta"@) is None ==> progress_token is None),
{
    reveal_strlit("initialize");
    reveal_strlit("notifications/initialized");
    reveal_strlit("tools/list");
    reveal_strlit("tools/call");
    assert("tools/call"@[6] == 'c');
    assert("tools/list"@[6] == 'l');
    assert("initialize"@[0] == 'i');
    assert("notifications/initialized"@[0] == 'n');
    assert("tools/call"@[0] == 't');
}

/// What is refused before its method is looked at: a line that is no JSON as a parse error, a
/// line that is no object and another version of the protocol as an invalid request.
pub proof fn law_refusals(tools: ToolRegistryView, parsed: Result<JsonView, Seq<char>>)
    ensures
        parsed is Err ==> refused_with(line_handled(tools, parsed), PARSE_ERROR),
        parsed matches Ok(v) ==> !(v is Object) ==> refused_with(
            line_handled(tools, parsed),
            INVALID_REQUEST,
        ),
        parsed matches Ok(v) ==> v is Object && (json::member(v, "jsonrpc"@) matches Some(j) && j
            != JsonView::Text("2.0"@)) ==> refused_with(line_handled(tools, parsed), INVALID_REQUEST),
{
}

/// A step is a refusal with an error code.
pub open spec fn refused_with(step: StepView, code: u32) -> bool {
    exists|id: JsonView, text: Seq<char>|
        step == StepView::Reply(seq![#[trigger] error_response(id, code, text)])
}

} // verus!
