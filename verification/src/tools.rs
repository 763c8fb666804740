//! The tools: their definitions, their results, and which of them are at hand.

pub mod bash;
pub mod edit;
pub mod fetch;
pub mod find;
pub mod put;
pub mod read;
pub mod registry;
pub mod replies;
pub mod requests;
pub mod search;
pub mod sudo;
pub mod walk;
pub mod write;

use vstd::prelude::*;

use crate::json;
use crate::json::{Json, JsonView};
use crate::mcp::McpHandler;
use crate::numbers;
use crate::text;
use crate::views;

verus! {

broadcast use {
    crate::views::group_all,
    crate::views::group_texts,
    crate::json::group_json,
};

// ── Results ──────────────────────────────────────────────────────────────

/// A single content block in a tool result.
#[derive(Debug)]
pub struct ContentBlock {
    /// The text content.
    pub text: String,
}

impl View for ContentBlock {
    type V = Seq<char>;

    open spec fn view(&self) -> Seq<char> {
        self.text@
    }
}

/// A content block as JSON.
pub open spec fn block_json(text: Seq<char>) -> JsonView {
    JsonView::Object(seq![("type"@, JsonView::Text("text"@)), ("text"@, JsonView::Text(text))])
}

impl ContentBlock {
    pub fn text(text: String) -> (r: Self)
        ensures
            r@ == text@,
    {
        ContentBlock { text }
    }

    pub fn to_json(&self) -> (r: Json)
        ensures
            r@ == block_json(self@),
    {
        json::object_of_two(
            "type",
            json::text_of("text"),
            "text",
            json::text_of(self.text.as_str()),
        )
    }
}

/// Result of a tool execution: the result object of a `tools/call`.
#[derive(Debug)]
pub struct ToolResult {
    /// Content blocks (text).
    pub content: Vec<ContentBlock>,
    /// `true` when the tool ran but the operation itself failed.
    pub is_error: bool,
}

/// The model of a [`ToolResult`].
#[verifier::ext_equal]
pub struct ToolResultView {
    pub content: Seq<Seq<char>>,
    pub is_error: bool,
}

impl View for ToolResult {
    type V = ToolResultView;

    open spec fn view(&self) -> ToolResultView {
        ToolResultView { content: views::all(self.content@), is_error: self.is_error }
    }
}

/// A tool result as JSON.
pub open spec fn result_json(r: ToolResultView) -> JsonView {
    JsonView::Object(
        seq![
            (
                "content"@,
                JsonView::Array(r.content.map_values(|t: Seq<char>| block_json(t))),
            ),
            ("isError"@, JsonView::Bool(r.is_error)),
        ],
    )
}

impl ToolResult {
    /// Successful result with a single text block.
    pub fn text(text: String) -> (r: Self)
        ensures
            r@ == (ToolResultView { content: seq![text@], is_error: false }),
    {
        let mut content: Vec<ContentBlock> = Vec::new();
        content.push(ContentBlock::text(text));
        assert(views::all(content@) =~= seq![text@]);
        ToolResult { content, is_error: false }
    }

    /// Error result with a single text block.
    pub fn error(text: String) -> (r: Self)
        ensures
            r@ == (ToolResultView { content: seq![text@], is_error: true }),
    {
        let mut content: Vec<ContentBlock> = Vec::new();
        content.push(ContentBlock::text(text));
        assert(views::all(content@) =~= seq![text@]);
        ToolResult { content, is_error: true }
    }

    /// Convert to the `result` JSON value of a `tools/call`.
    pub fn to_json(&self) -> (r: Json)
        ensures
            r@ == result_json(self@),
    {
        let ghost goal = self@.content.map_values(|t: Seq<char>| block_json(t));
        let mut blocks: Vec<Json> = Vec::new();
        for i in 0..self.content.len()
            invariant
                goal == self@.content.map_values(|t: Seq<char>| block_json(t)),
                views::all(blocks@) == goal.take(i as int),
        {
            proof {
                views::lemma_take_step(goal, i as int);
                assert(self@.content[i as int] == self.content@[i as int]@);
            }
            blocks.push(self.content[i].to_json());
        }
        proof {
            views::lemma_take_all(goal);
        }
        json::object_of_two(
            "content",
            Json::Array(blocks),
            "isError",
            Json::Bool(self.is_error),
        )
    }
}

/// The texts of those items of a list that have one.
pub open spec fn block_texts(items: Seq<JsonView>) -> Seq<Seq<char>>
    decreases items.len(),
{
    if items.len() == 0 {
        Seq::empty()
    } else {
        let rest = block_texts(items.drop_last());
        match json::text_in(json::member(items.last(), "text"@)) {
            Some(t) => rest.push(t),
            None => rest,
        }
    }
}

/// The tool result that a JSON value stands for: a full result object, a bare string, or
/// any other value, which stands for itself as it is printed.
pub open spec fn result_of(v: JsonView, printed: Seq<char>) -> ToolResultView {
    if json::member(v, "content"@) is Some {
        ToolResultView {
            content: match json::member(v, "content"@) {
                Some(JsonView::Array(items)) => block_texts(items),
                _ => Seq::empty(),
            },
            is_error: match json::bool_in(json::member(v, "isError"@)) {
                Some(b) => b,
                None => false,
            },
        }
    } else {
        match v {
            JsonView::Text(s) => ToolResultView { content: seq![s], is_error: false },
            _ => ToolResultView { content: seq![printed], is_error: false },
        }
    }
}

/// Convert a JSON result into a [`ToolResult`]. `printed` is the value as it is printed.
///
/// Accepts either:
///   - `{"content":[{"type":"text","text":"…"}], "isError": bool}` (full), or
///   - a bare string (treated as a single text block), or
///   - any other JSON (`printed` as a single text block).
pub fn result_from_json(v: &Json, printed: &str) -> (r: ToolResult)
    ensures
        r@ == result_of(v@, printed@),
{
    match v.get("content") {
        Some(c) => {
            let mut content: Vec<ContentBlock> = Vec::new();
            assert(views::all(content@) =~= Seq::empty());
            match c {
                Json::Array(items) => {
                    let ghost vi = views::all(items@);
                    for i in 0..items.len()
                        invariant
                            vi == views::all(items@),
                            views::all(content@) == block_texts(vi.take(i as int)),
                    {
                        proof {
                            views::lemma_take_step(vi, i as int);
                            assert(vi[i as int] == items@[i as int]@);
                        }
                        match items[i].text_at("text") {
                            Some(t) => {
                                content.push(ContentBlock::text(t));
                            },
                            None => {},
                        }
                    }
                    proof {
                        views::lemma_take_all(vi);
                    }
                },
                _ => {},
            }
            let is_error = match v.bool_at("isError") {
                Some(b) => b,
                None => false,
            };
            ToolResult { content, is_error }
        },
        None => match v {
            Json::Text(s) => ToolResult::text(s.clone()),
            _ => ToolResult::text(text::owned(printed)),
        },
    }
}

// ── Arguments and messages ───────────────────────────────────────────────

/// The result of a tool that succeeded with a text, as JSON.
pub open spec fn text_result(text: Seq<char>) -> JsonView {
    JsonView::Object(seq![("content"@, JsonView::Array(seq![block_json(text)]))])
}

/// The content blocks of one text.
pub fn blocks_of(text: &str) -> (r: Json)
    ensures
        r@ == JsonView::Array(seq![block_json(text@)]),
{
    let mut blocks: Vec<Json> = Vec::new();
    blocks.push(ContentBlock::text(text::owned(text)).to_json());
    assert(views::all(blocks@) =~= seq![block_json(text@)]);
    Json::Array(blocks)
}

/// See [`text_result`].
pub fn text_result_of(text: &str) -> (r: Json)
    ensures
        r@ == text_result(text@),
{
    json::object_of_one("content", blocks_of(text))
}

/// The result of a tool that succeeded with a text and with metadata, as JSON.
pub open spec fn result_with_metadata(text: Seq<char>, metadata: JsonView) -> JsonView {
    JsonView::Object(
        seq![
            ("content"@, JsonView::Array(seq![block_json(text)])),
            ("metadata"@, metadata),
        ],
    )
}

/// See [`result_with_metadata`].
pub fn result_and_metadata(text: &str, metadata: Json) -> (r: Json)
    ensures
        r@ == result_with_metadata(text@, metadata@),
{
    json::object_of_two("content", blocks_of(text), "metadata", metadata)
}

/// The complaint about an argument that is missing or of another type.
pub open spec fn required(name: Seq<char>, kind: Seq<char>) -> Seq<char> {
    "`"@ + name + "` is required and must be "@ + kind
}

/// See [`required`].
pub fn required_message(name: &str, kind: &str) -> (r: String)
    ensures
        r@ == required(name@, kind@),
{
    let mut s = text::owned("`");
    s.append(name);
    s.append("` is required and must be ");
    s.append(kind);
    s
}

/// A flag among the arguments; `default` where it is missing or of another type.
pub open spec fn flag(args: JsonView, name: Seq<char>, default: bool) -> bool {
    match json::bool_in(json::member(args, name)) {
        Some(b) => b,
        None => default,
    }
}

/// See [`flag`].
pub fn flag_of(args: &Json, name: &str, default: bool) -> (r: bool)
    ensures
        r == flag(args@, name@, default),
{
    match args.bool_at(name) {
        Some(b) => b,
        None => default,
    }
}

/// Those items of a list that are texts.
pub open spec fn texts_among(items: Seq<JsonView>) -> Seq<Seq<char>>
    decreases items.len(),
{
    if items.len() == 0 {
        Seq::empty()
    } else {
        let rest = texts_among(items.drop_last());
        match items.last() {
            JsonView::Text(s) => rest.push(s),
            _ => rest,
        }
    }
}

/// See [`texts_among`].
pub fn collect_texts(items: &[Json]) -> (r: Vec<String>)
    ensures
        views::texts(r@) == texts_among(views::all(items@)),
{
    let ghost vi = views::all(items@);
    let mut out: Vec<String> = Vec::new();
    for i in 0..items.len()
        invariant
            vi == views::all(items@),
            views::texts(out@) == texts_among(vi.take(i as int)),
    {
        proof {
            views::lemma_take_step(vi, i as int);
            assert(vi[i as int] == items@[i as int]@);
        }
        match &items[i] {
            Json::Text(s) => {
                out.push(s.clone());
            },
            _ => {},
        }
    }
    proof {
        views::lemma_take_all(vi);
    }
    out
}

/// The complaint that something could not be done with a path.
pub open spec fn failed(what: Seq<char>, path: Seq<char>, reason: Seq<char>) -> Seq<char> {
    what + path + ": "@ + reason
}

/// See [`failed`].
pub fn failed_message(what: &str, path: &str, reason: &str) -> (r: String)
    ensures
        r@ == failed(what@, path@, reason@),
{
    let mut s = text::owned(what);
    s.append(path);
    s.append(": ");
    s.append(reason);
    s
}

// ── Progress ─────────────────────────────────────────────────────────────

/// A `notifications/progress` message.
pub open spec fn progress_json(
    token: JsonView,
    progress: u64,
    total: u64,
    message: Seq<char>,
) -> JsonView {
    JsonView::Object(
        seq![
            ("jsonrpc"@, JsonView::Text("2.0"@)),
            ("method"@, JsonView::Text("notifications/progress"@)),
            (
                "params"@,
                JsonView::Object(
                    seq![
                        ("progressToken"@, token),
                        ("progress"@, JsonView::Number(numbers::dec(progress as nat))),
                        ("total"@, JsonView::Number(numbers::dec(total as nat))),
                        ("message"@, JsonView::Text(message)),
                    ],
                ),
            ),
        ],
    )
}

/// Collects `notifications/progress` messages during tool execution. They are written in
/// front of the final response.
#[derive(Debug)]
pub struct ProgressSender {
    pub token: Json,
    pub out: Vec<Json>,
}

impl ProgressSender {
    pub fn new(token: Json) -> (r: Self)
        ensures
            r.token == token,
            r.out@ == Seq::<Json>::empty(),
    {
        ProgressSender { token, out: Vec::new() }
    }

    /// Emit a progress notification. A `total` of `0` means that the total is not known.
    pub fn send(&mut self, progress: u64, total: u64, message: &str)
        ensures
            final(self).token == old(self).token,
            views::all(final(self).out@) == views::all(old(self).out@).push(
                progress_json(old(self).token@, progress, total, message@),
            ),
    {
        let mut params: Vec<json::Member> = Vec::new();
        params.push(json::pair("progressToken", self.token.copy()));
        params.push(json::pair("progress", Json::Number(numbers::decimal(progress))));
        params.push(json::pair("total", Json::Number(numbers::decimal(total))));
        params.push(json::pair("message", json::text_of(message)));
        proof {
            assert(views::all(params@) =~= seq![
                ("progressToken"@, self.token@),
                ("progress"@, JsonView::Number(numbers::dec(progress as nat))),
                ("total"@, JsonView::Number(numbers::dec(total as nat))),
                ("message"@, JsonView::Text(message@)),
            ]);
        }
        self.out.push(
            json::object_of_three(
                "jsonrpc",
                json::text_of("2.0"),
                "method",
                json::text_of("notifications/progress"),
                "params",
                Json::Object(params),
            ),
        );
    }
}

// ── Wiring ───────────────────────────────────────────────────────────────

/// A registry that can run all the tools, one after the other.
pub open spec fn with_all_handlers(
    r: registry::ToolRegistryView,
    n: int,
) -> registry::ToolRegistryView
    decreases n,
{
    if n <= 0 || n > registry::all_tools().len() {
        r
    } else {
        registry::with_handler(with_all_handlers(r, n - 1), registry::all_tools()[n - 1].name)
    }
}

/// Register all the tools with the handler.
pub fn register_all(handler: &mut McpHandler)
    ensures
        final(handler).tools@ == with_all_handlers(
            old(handler).tools@,
            registry::all_tools().len() as int,
        ),
        final(handler).snapshots == old(handler).snapshots,
{
    proof {
        reveal_with_fuel(with_all_handlers, 9);
    }
    handler.register_tool("remote_read");
    handler.register_tool("remote_edit");
    handler.register_tool("remote_search");
    handler.register_tool("remote_bash");
    handler.register_tool("remote_find");
    handler.register_tool("remote_write");
    handler.register_tool("remote_fetch");
    handler.register_tool("remote_put");
}

} // verus!
