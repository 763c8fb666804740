//! What a client can read back of what the tools say.

use vstd::prelude::*;

use crate::json;
use crate::json::JsonView;
use crate::tools;
use crate::tools::registry;
use crate::tools::registry::ToolDefinitionView;
use crate::tools::ToolResultView;

verus! {

proof fn lemma_block_read(t: Seq<char>)
    ensures
        json::member(tools::block_json(t), "text"@) == Some(JsonView::Text(t)),
{
    reveal_strlit("type");
    reveal_strlit("text");
    assert("type"@[1] == 'y' && "text"@[1] == 'e');
    let members = seq![("type"@, JsonView::Text("text"@)), ("text"@, JsonView::Text(t))];
    json::law_member(members, "text"@, 1);
}

proof fn lemma_blocks_read(texts: Seq<Seq<char>>)
    ensures
        tools::block_texts(texts.map_values(|t: Seq<char>| tools::block_json(t))) == texts,
    decreases texts.len(),
{
    let f = |t: Seq<char>| tools::block_json(t);
    let items = texts.map_values(f);
    if texts.len() > 0 {
        lemma_blocks_read(texts.drop_last());
        lemma_block_read(texts.last());
        assert(items.drop_last() =~= texts.drop_last().map_values(f));
        assert(items.last() == tools::block_json(texts.last()));
        assert(texts.drop_last().push(texts.last()) =~= texts);
    }
    assert(tools::block_texts(items) =~= texts);
}

/// The result of a tool comes through whole: its texts, all of them and in order, and whether it
/// failed.
pub proof fn law_result_read_back(r: ToolResultView)
    ensures
        json::member(tools::result_json(r), "content"@) matches Some(JsonView::Array(items))
            && tools::block_texts(items) == r.content,
        json::member(tools::result_json(r), "isError"@) == Some(JsonView::Bool(r.is_error)),
{
    reveal_strlit("content");
    reveal_strlit("isError");
    assert("content"@[0] == 'c' && "isError"@[0] == 'i');
    let items = r.content.map_values(|t: Seq<char>| tools::block_json(t));
    let members = seq![
        ("content"@, JsonView::Array(items)),
        ("isError"@, JsonView::Bool(r.is_error)),
    ];
    json::law_member(members, "content"@, 0);
    json::law_member(members, "isError"@, 1);
    lemma_blocks_read(r.content);
}

/// The definition of a tool says its name, what it does and what it takes: under its name each
/// argument that it has, in order, and the names of those that it must have.
pub proof fn law_definition_read_back(d: ToolDefinitionView)
    ensures
        json::member(registry::definition_json(d), "name"@) == Some(JsonView::Text(d.name)),
        json::member(registry::definition_json(d), "description"@) == Some(
            JsonView::Text(d.description),
        ),
        json::member(registry::definition_json(d), "inputSchema"@) matches Some(schema) && {
            &&& json::member(schema, "type"@) == Some(JsonView::Text("object"@))
            &&& json::member(schema, "properties"@) matches Some(JsonView::Object(members))
                && members.len() == d.properties.len() && forall|i: int|
                0 <= i < members.len() ==> (#[trigger] members[i]).0 == d.properties[i].name
            &&& json::member(schema, "required"@) matches Some(JsonView::Array(items))
                && items.len() == d.required.len() && forall|i: int|
                0 <= i < items.len() ==> (#[trigger] items[i]) == JsonView::Text(d.required[i])
        },
{
    reveal_strlit("name");
    reveal_strlit("description");
    reveal_strlit("inputSchema");
    reveal_strlit("type");
    reveal_strlit("properties");
    reveal_strlit("required");
    assert("name"@[0] == 'n' && "description"@[0] == 'd' && "inputSchema"@[0] == 'i');
    assert("type"@[0] == 't' && "properties"@[0] == 'p' && "required"@[0] == 'r');
    let schema = registry::schema_json(d);
    let outer = seq![
        ("name"@, JsonView::Text(d.name)),
        ("description"@, JsonView::Text(d.description)),
        ("inputSchema"@, schema),
    ];
    json::law_member(outer, "name"@, 0);
    json::law_member(outer, "description"@, 1);
    json::law_member(outer, "inputSchema"@, 2);
    let props = d.properties.map_values(|p: registry::PropertyView| registry::property_json(p));
    let inner = seq![
        ("type"@, JsonView::Text("object"@)),
        ("properties"@, JsonView::Object(props)),
        ("required"@, json::text_array(d.required)),
    ];
    json::law_member(inner, "type"@, 0);
    json::law_member(inner, "properties"@, 1);
    json::law_member(inner, "required"@, 2);
}

/// Once all handlers are in place, every tool that is defined can be run.
pub proof fn law_all_tools_run(r: registry::ToolRegistryView, n: int, k: int)
    requires
        0 <= k < n <= registry::all_tools().len(),
        r.definitions == registry::all_tools(),
    ensures
        tools::with_all_handlers(r, n).definitions == r.definitions,
        tools::with_all_handlers(r, n).handlers.contains(registry::all_tools()[k].name),
    decreases n,
{
    let before = tools::with_all_handlers(r, n - 1);
    let name = registry::all_tools()[n - 1].name;
    if n > 1 {
        law_all_tools_run(r, n - 1, if k < n - 1 { k } else { 0 });
    }
    assert(before.definitions == registry::all_tools());
    assert(registry::is_defined(before.definitions, name));
    let after = tools::with_all_handlers(r, n);
    assert(after.handlers == before.handlers.push(name));
    if k < n - 1 {
        let wanted = registry::all_tools()[k].name;
        let i = choose|i: int| 0 <= i < before.handlers.len() && before.handlers[i] == wanted;
        assert(after.handlers[i] == wanted);
    } else {
        assert(after.handlers[before.handlers.len() as int] == name);
    }
}

} // verus!
