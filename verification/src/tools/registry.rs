//! The definitions of the tools, and the registry that knows which of them can be run.

use vstd::prelude::*;

use crate::json;
use crate::json::{Json, JsonView, Member};
use crate::text;
use crate::views;

verus! {

broadcast use {
    crate::views::group_all,
    crate::views::group_texts,
    crate::json::group_json,
};

/// An argument of a tool.
#[derive(Debug)]
pub struct Property {
    pub name: String,
    /// The JSON types that the argument may have.
    pub kinds: Vec<String>,
    pub description: String,
}

/// The model of a [`Property`].
#[verifier::ext_equal]
pub struct PropertyView {
    pub name: Seq<char>,
    pub kinds: Seq<Seq<char>>,
    pub description: Seq<char>,
}

impl View for Property {
    type V = PropertyView;

    open spec fn view(&self) -> PropertyView {
        PropertyView {
            name: self.name@,
            kinds: views::texts(self.kinds@),
            description: self.description@,
        }
    }
}

/// What is told of a tool.
#[derive(Debug)]
pub struct ToolDefinition {
    pub name: String,
    pub description: String,
    pub properties: Vec<Property>,
    pub required: Vec<String>,
}

/// The model of a [`ToolDefinition`].
#[verifier::ext_equal]
pub struct ToolDefinitionView {
    pub name: Seq<char>,
    pub description: Seq<char>,
    pub properties: Seq<PropertyView>,
    pub required: Seq<Seq<char>>,
}

impl View for ToolDefinition {
    type V = ToolDefinitionView;

    open spec fn view(&self) -> ToolDefinitionView {
        ToolDefinitionView {
            name: self.name@,
            description: self.description@,
            properties: views::all(self.properties@),
            required: views::texts(self.required@),
        }
    }
}

/// An argument of one type.
pub open spec fn argument(name: Seq<char>, kind: Seq<char>, description: Seq<char>) -> PropertyView {
    PropertyView { name, kinds: seq![kind], description }
}

fn one(s: &str) -> (r: Vec<String>)
    ensures
        views::texts(r@) == seq![s@],
{
    let mut v: Vec<String> = Vec::new();
    v.push(text::owned(s));
    assert(views::texts(v@) =~= seq![s@]);
    v
}

fn two(a: &str, b: &str) -> (r: Vec<String>)
    ensures
        views::texts(r@) == seq![a@, b@],
{
    let mut v: Vec<String> = Vec::new();
    v.push(text::owned(a));
    v.push(text::owned(b));
    assert(views::texts(v@) =~= seq![a@, b@]);
    v
}

fn make_argument(name: &str, kind: &str, description: &str) -> (r: Property)
    ensures
        r@ == argument(name@, kind@, description@),
{
    Property { name: text::owned(name), kinds: one(kind), description: text::owned(description) }
}

/// The definition of `remote_read`.
pub open spec fn read_tool() -> ToolDefinitionView {
    ToolDefinitionView {
        name: "remote_read"@,
        description: "Read files on the remote host with line selectors and hashline tags. Supports directories (tree listing), line ranges (:50-100), raw mode (:raw). Output format matches pi's read tool: [path#TAG] header + numbered lines."@,
        properties: seq![
            argument("path"@, "string"@, "Remote file/directory path, may include :selector"@),
        ],
        required: seq!["path"@],
    }
}

fn define_read() -> (r: ToolDefinition)
    ensures
        r@ == read_tool(),
{
    let mut properties: Vec<Property> = Vec::new();
    properties.push(make_argument("path", "string", "Remote file/directory path, may include :selector"));
    assert(views::all(properties@) =~= read_tool().properties);
    ToolDefinition {
        name: text::owned("remote_read"),
        description: text::owned("Read files on the remote host with line selectors and hashline tags. Supports directories (tree listing), line ranges (:50-100), raw mode (:raw). Output format matches pi's read tool: [path#TAG] header + numbered lines."),
        properties,
        required: one("path"),
    }
}

/// The definition of `remote_edit`.
pub open spec fn edit_tool() -> ToolDefinitionView {
    ToolDefinitionView {
        name: "remote_edit"@,
        description: "Apply hashline patch edits to remote files. Input is the hashline patch language: [PATH#TAG] sections with SWAP/DEL/INS ops. TAG must match the latest remote_read output."@,
        properties: seq![
            argument("input"@, "string"@, "Hashline patch language input"@),
        ],
        required: seq!["input"@],
    }
}

fn define_edit() -> (r: ToolDefinition)
    ensures
        r@ == edit_tool(),
{
    let mut properties: Vec<Property> = Vec::new();
    properties.push(make_argument("input", "string", "Hashline patch language input"));
    assert(views::all(properties@) =~= edit_tool().properties);
    ToolDefinition {
        name: text::owned("remote_edit"),
        description: text::owned("Apply hashline patch edits to remote files. Input is the hashline patch language: [PATH#TAG] sections with SWAP/DEL/INS ops. TAG must match the latest remote_read output."),
        properties,
        required: one("input"),
    }
}

/// The definition of `remote_search`.
pub open spec fn search_tool() -> ToolDefinitionView {
    ToolDefinitionView {
        name: "remote_search"@,
        description: "Search file contents with regex on the remote host. Uses ripgrep when available, falls back to Rust regex. Output format: [path#TAG] headers with *LINE:content match lines."@,
        properties: seq![
            argument("pattern"@, "string"@, "Regex pattern"@),
            PropertyView { name: "paths"@, kinds: seq!["string"@, "array"@], description: "Files/dirs/globs to search"@ },
            argument("case"@, "boolean"@, "Case-sensitive (default true)"@),
            argument("gitignore"@, "boolean"@, "Respect .gitignore (default true)"@),
        ],
        required: seq!["pattern"@],
    }
}

fn define_search() -> (r: ToolDefinition)
    ensures
        r@ == search_tool(),
{
    let mut properties: Vec<Property> = Vec::new();
    properties.push(make_argument("pattern", "string", "Regex pattern"));
    properties.push(Property { name: text::owned("paths"), kinds: two("string", "array"), description: text::owned("Files/dirs/globs to search") });
    properties.push(make_argument("case", "boolean", "Case-sensitive (default true)"));
    properties.push(make_argument("gitignore", "boolean", "Respect .gitignore (default true)"));
    assert(views::all(properties@) =~= search_tool().properties);
    ToolDefinition {
        name: text::owned("remote_search"),
        description: text::owned("Search file contents with regex on the remote host. Uses ripgrep when available, falls back to Rust regex. Output format: [path#TAG] headers with *LINE:content match lines."),
        properties,
        required: one("pattern"),
    }
}

/// The definition of `remote_bash`.
pub open spec fn bash_tool() -> ToolDefinitionView {
    ToolDefinitionView {
        name: "remote_bash"@,
        description: "Execute a shell command on the remote host with streaming output. Each output line is streamed via progress notification. Final result includes exit code."@,
        properties: seq![
            argument("command"@, "string"@, "Shell command to execute"@),
            argument("cwd"@, "string"@, "Working directory"@),
            argument("timeout"@, "number"@, "Timeout in seconds (default 60)"@),
            argument("env"@, "object"@, "Environment variables"@),
        ],
        required: seq!["command"@],
    }
}

fn define_bash() -> (r: ToolDefinition)
    ensures
        r@ == bash_tool(),
{
    let mut properties: Vec<Property> = Vec::new();
    properties.push(make_argument("command", "string", "Shell command to execute"));
    properties.push(make_argument("cwd", "string", "Working directory"));
    properties.push(make_argument("timeout", "number", "Timeout in seconds (default 60)"));
    properties.push(make_argument("env", "object", "Environment variables"));
    assert(views::all(properties@) =~= bash_tool().properties);
    ToolDefinition {
        name: text::owned("remote_bash"),
        description: text::owned("Execute a shell command on the remote host with streaming output. Each output line is streamed via progress notification. Final result includes exit code."),
        properties,
        required: one("command"),
    }
}

/// The definition of `remote_find`.
pub open spec fn find_tool() -> ToolDefinitionView {
    ToolDefinitionView {
        name: "remote_find"@,
        description: "Find files matching glob patterns on the remote host."@,
        properties: seq![
            argument("paths"@, "array"@, "Glob patterns or directories"@),
            argument("gitignore"@, "boolean"@, "Respect .gitignore (default true)"@),
            argument("hidden"@, "boolean"@, "Include hidden files (default true)"@),
        ],
        required: seq!["paths"@],
    }
}

fn define_find() -> (r: ToolDefinition)
    ensures
        r@ == find_tool(),
{
    let mut properties: Vec<Property> = Vec::new();
    properties.push(make_argument("paths", "array", "Glob patterns or directories"));
    properties.push(make_argument("gitignore", "boolean", "Respect .gitignore (default true)"));
    properties.push(make_argument("hidden", "boolean", "Include hidden files (default true)"));
    assert(views::all(properties@) =~= find_tool().properties);
    ToolDefinition {
        name: text::owned("remote_find"),
        description: text::owned("Find files matching glob patterns on the remote host."),
        properties,
        required: one("paths"),
    }
}

/// The definition of `remote_write`.
pub open spec fn write_tool() -> ToolDefinitionView {
    ToolDefinitionView {
        name: "remote_write"@,
        description: "Create or overwrite a file on the remote host."@,
        properties: seq![
            argument("path"@, "string"@, "Remote file path"@),
            argument("content"@, "string"@, "File content"@),
        ],
        required: seq!["path"@, "content"@],
    }
}

fn define_write() -> (r: ToolDefinition)
    ensures
        r@ == write_tool(),
{
    let mut properties: Vec<Property> = Vec::new();
    properties.push(make_argument("path", "string", "Remote file path"));
    properties.push(make_argument("content", "string", "File content"));
    assert(views::all(properties@) =~= write_tool().properties);
    ToolDefinition {
        name: text::owned("remote_write"),
        description: text::owned("Create or overwrite a file on the remote host."),
        properties,
        required: two("path", "content"),
    }
}

/// The definition of `remote_fetch`.
pub open spec fn fetch_tool() -> ToolDefinitionView {
    ToolDefinitionView {
        name: "remote_fetch"@,
        description: "Prepare a large-file download from the remote host: returns path, size and checksum for a sideband scp/rsync transfer that bypasses the LLM context."@,
        properties: seq![
            argument("path"@, "string"@, "Remote file path"@),
            argument("sudo"@, "boolean"@, "Access the file via sudo -n (default false)"@),
        ],
        required: seq!["path"@],
    }
}

fn define_fetch() -> (r: ToolDefinition)
    ensures
        r@ == fetch_tool(),
{
    let mut properties: Vec<Property> = Vec::new();
    properties.push(make_argument("path", "string", "Remote file path"));
    properties.push(make_argument("sudo", "boolean", "Access the file via sudo -n (default false)"));
    assert(views::all(properties@) =~= fetch_tool().properties);
    ToolDefinition {
        name: text::owned("remote_fetch"),
        description: text::owned("Prepare a large-file download from the remote host: returns path, size and checksum for a sideband scp/rsync transfer that bypasses the LLM context."),
        properties,
        required: one("path"),
    }
}

/// The definition of `remote_put`.
pub open spec fn put_tool() -> ToolDefinitionView {
    ToolDefinitionView {
        name: "remote_put"@,
        description: "Upload a large file to the remote host in two phases: first get a staging path for a sideband scp/rsync transfer, then commit the staged file into place."@,
        properties: seq![
            argument("path"@, "string"@, "Remote destination path"@),
            argument("sudo"@, "boolean"@, "Access the files via sudo -n (default false)"@),
            argument("commit"@, "boolean"@, "Finish the upload (default false)"@),
            argument("staging_path"@, "string"@, "Staging path returned by the first phase"@),
            argument("mode"@, "string"@, "Permission bits in octal"@),
            argument("owner"@, "string"@, "Owner as user or user:group"@),
        ],
        required: seq!["path"@],
    }
}

fn define_put() -> (r: ToolDefinition)
    ensures
        r@ == put_tool(),
{
    let mut properties: Vec<Property> = Vec::new();
    properties.push(make_argument("path", "string", "Remote destination path"));
    properties.push(make_argument("sudo", "boolean", "Access the files via sudo -n (default false)"));
    properties.push(make_argument("commit", "boolean", "Finish the upload (default false)"));
    properties.push(make_argument("staging_path", "string", "Staging path returned by the first phase"));
    properties.push(make_argument("mode", "string", "Permission bits in octal"));
    properties.push(make_argument("owner", "string", "Owner as user or user:group"));
    assert(views::all(properties@) =~= put_tool().properties);
    ToolDefinition {
        name: text::owned("remote_put"),
        description: text::owned("Upload a large file to the remote host in two phases: first get a staging path for a sideband scp/rsync transfer, then commit the staged file into place."),
        properties,
        required: one("path"),
    }
}

/// The definitions of all the tools.
pub open spec fn all_tools() -> Seq<ToolDefinitionView> {
    seq![
        read_tool(),
        edit_tool(),
        search_tool(),
        bash_tool(),
        find_tool(),
        write_tool(),
        fetch_tool(),
        put_tool(),
    ]
}

fn define_all() -> (r: Vec<ToolDefinition>)
    ensures
        views::all(r@) == all_tools(),
{
    let mut v: Vec<ToolDefinition> = Vec::new();
    v.push(define_read());
    v.push(define_edit());
    v.push(define_search());
    v.push(define_bash());
    v.push(define_find());
    v.push(define_write());
    v.push(define_fetch());
    v.push(define_put());
    assert(views::all(v@) =~= all_tools());
    v
}

// ── Definitions as JSON ──────────────────────────────────────────────────

/// The JSON types of an argument: one of them alone, or a list.
pub open spec fn kinds_json(kinds: Seq<Seq<char>>) -> JsonView {
    if kinds.len() == 1 {
        JsonView::Text(kinds[0])
    } else {
        json::text_array(kinds)
    }
}

/// An argument in a JSON schema.
pub open spec fn property_json(p: PropertyView) -> (Seq<char>, JsonView) {
    (
        p.name,
        JsonView::Object(
            seq![
                ("type"@, kinds_json(p.kinds)),
                ("description"@, JsonView::Text(p.description)),
            ],
        ),
    )
}

/// The JSON schema of the arguments of a tool.
pub open spec fn schema_json(d: ToolDefinitionView) -> JsonView {
    JsonView::Object(
        seq![
            ("type"@, JsonView::Text("object"@)),
            (
                "properties"@,
                JsonView::Object(d.properties.map_values(|p: PropertyView| property_json(p))),
            ),
            ("required"@, json::text_array(d.required)),
        ],
    )
}

/// A tool as `tools/list` shows it.
pub open spec fn definition_json(d: ToolDefinitionView) -> JsonView {
    JsonView::Object(
        seq![
            ("name"@, JsonView::Text(d.name)),
            ("description"@, JsonView::Text(d.description)),
            ("inputSchema"@, schema_json(d)),
        ],
    )
}

impl Property {
    fn to_member(&self) -> (r: Member)
        ensures
            r@ == property_json(self@),
    {
        assert(self@.kinds.len() == self.kinds@.len());
        let kinds = if self.kinds.len() == 1 {
            assert(self@.kinds[0] == self.kinds@[0]@);
            json::text_of(self.kinds[0].as_str())
        } else {
            json::array_of_texts(self.kinds.as_slice())
        };
        json::pair(
            self.name.as_str(),
            json::object_of_two(
                "type",
                kinds,
                "description",
                json::text_of(self.description.as_str()),
            ),
        )
    }
}

impl ToolDefinition {
    /// The tool as `tools/list` shows it.
    pub fn to_json(&self) -> (r: Json)
        ensures
            r@ == definition_json(self@),
    {
        let ghost goal = self@.properties.map_values(|p: PropertyView| property_json(p));
        let mut members: Vec<Member> = Vec::new();
        for i in 0..self.properties.len()
            invariant
                goal == self@.properties.map_values(|p: PropertyView| property_json(p)),
                views::all(members@) == goal.take(i as int),
        {
            proof {
                views::lemma_take_step(goal, i as int);
                assert(self@.properties[i as int] == self.properties@[i as int]@);
            }
            members.push(self.properties[i].to_member());
        }
        proof {
            views::lemma_take_all(goal);
        }
        let schema = json::object_of_three(
            "type",
            json::text_of("object"),
            "properties",
            Json::Object(members),
            "required",
            json::array_of_texts(self.required.as_slice()),
        );
        json::object_of_three(
            "name",
            json::text_of(self.name.as_str()),
            "description",
            json::text_of(self.description.as_str()),
            "inputSchema",
            schema,
        )
    }
}

// ── The registry ─────────────────────────────────────────────────────────

/// Maps tool names to definitions, and knows which tools can be run.
///
/// `tools/list` always shows all definitions, even of tools that cannot be run yet.
#[derive(Debug)]
pub struct ToolRegistry {
    definitions: Vec<ToolDefinition>,
    /// The names of the tools that can be run.
    handlers: Vec<String>,
}

/// The model of a [`ToolRegistry`].
#[verifier::ext_equal]
pub struct ToolRegistryView {
    pub definitions: Seq<ToolDefinitionView>,
    pub handlers: Seq<Seq<char>>,
}

impl View for ToolRegistry {
    type V = ToolRegistryView;

    closed spec fn view(&self) -> ToolRegistryView {
        ToolRegistryView {
            definitions: views::all(self.definitions@),
            handlers: views::texts(self.handlers@),
        }
    }
}

/// A tool of a name is defined.
pub open spec fn is_defined(definitions: Seq<ToolDefinitionView>, name: Seq<char>) -> bool {
    exists|i: int| 0 <= i < definitions.len() && (#[trigger] definitions[i]).name == name
}

/// A registry that can also run the tool of a name; nothing changes for a name that is
/// not defined.
pub open spec fn with_handler(r: ToolRegistryView, name: Seq<char>) -> ToolRegistryView {
    if is_defined(r.definitions, name) {
        ToolRegistryView { handlers: r.handlers.push(name), ..r }
    } else {
        r
    }
}

impl ToolRegistry {
    /// Create a registry with all tool definitions, none of which can be run yet.
    pub fn new() -> (r: Self)
        ensures
            r@ == (ToolRegistryView { definitions: all_tools(), handlers: Seq::empty() }),
    {
        ToolRegistry { definitions: define_all(), handlers: Vec::new() }
    }

    /// Say that the tool of a name can be run. The name must match an existing
    /// definition; otherwise this is a no-op.
    pub fn register(&mut self, name: &str)
        ensures
            final(self)@ == with_handler(old(self)@, name@),
    {
        if self.has_tool(name) {
            self.handlers.push(text::owned(name));
        }
    }

    /// List all tool definitions as JSON (for `tools/list`).
    pub fn list(&self) -> (r: Vec<Json>)
        ensures
            views::all(r@) == self@.definitions.map_values(
                |d: ToolDefinitionView| definition_json(d),
            ),
    {
        let ghost goal = self@.definitions.map_values(|d: ToolDefinitionView| definition_json(d));
        let mut out: Vec<Json> = Vec::new();
        for i in 0..self.definitions.len()
            invariant
                goal == self@.definitions.map_values(
                    |d: ToolDefinitionView| definition_json(d),
                ),
                views::all(out@) == goal.take(i as int),
        {
            proof {
                views::lemma_take_step(goal, i as int);
                assert(self@.definitions[i as int] == self.definitions@[i as int]@);
            }
            out.push(self.definitions[i].to_json());
        }
        proof {
            views::lemma_take_all(goal);
        }
        out
    }

    /// Check whether a tool name is known (exists in definitions).
    pub fn has_tool(&self, name: &str) -> (r: bool)
        ensures
            r == is_defined(self@.definitions, name@),
    {
        let ghost vd = self@.definitions;
        for i in 0..self.definitions.len()
            invariant
                vd == self@.definitions,
                forall|j: int| 0 <= j < i ==> (#[trigger] vd[j]).name != name@,
        {
            assert(vd[i as int] == self.definitions@[i as int]@);
            if text::same(self.definitions[i].name.as_str(), name) {
                assert(vd[i as int].name == name@);
                return true;
            }
        }
        false
    }

    /// Check whether a tool can be run.
    pub fn has_handler(&self, name: &str) -> (r: bool)
        ensures
            r == self@.handlers.contains(name@),
    {
        text::holds_text(self.handlers.as_slice(), name)
    }
}

impl Default for ToolRegistry {
    fn default() -> (r: Self)
        ensures
            r@ == (ToolRegistryView { definitions: all_tools(), handlers: Seq::empty() }),
    {
        ToolRegistry::new()
    }
}

} // verus!
