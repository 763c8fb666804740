//! Protocol messages.

use hashline::json::{Json, Member};
use hashline::mcp::{finish_call, too_long_reply, ErrorCount, McpHandler, Step};
use hashline::tools::registry::ToolRegistry;
use hashline::tools::{register_all, result_from_json, ProgressSender, ToolResult};
use serde_json::Value;

fn from_value(v: &Value) -> Json {
    match v {
        Value::Null => Json::Null,
        Value::Bool(b) => Json::Bool(*b),
        Value::Number(n) => Json::Number(n.to_string()),
        Value::String(s) => Json::Text(s.clone()),
        Value::Array(items) => Json::Array(items.iter().map(from_value).collect()),
        Value::Object(map) => Json::Object(
            map.iter()
                .map(|(k, v)| Member { key: k.clone(), value: from_value(v) })
                .collect(),
        ),
    }
}

fn to_value(j: &Json) -> Value {
    match j {
        Json::Null => Value::Null,
        Json::Bool(b) => Value::Bool(*b),
        Json::Number(s) => serde_json::from_str(s).unwrap(),
        Json::Text(s) => Value::String(s.clone()),
        Json::Array(items) => Value::Array(items.iter().map(to_value).collect()),
        Json::Object(members) => Value::Object(
            members.iter().map(|m| (m.key.clone(), to_value(&m.value))).collect(),
        ),
    }
}

fn parse(line: &str) -> Result<Json, String> {
    match serde_json::from_str::<Value>(line) {
        Ok(v) => Ok(from_value(&v)),
        Err(e) => Err(e.to_string()),
    }
}

fn replies(handler: &McpHandler, line: &str) -> Vec<Value> {
    match handler.handle_message(parse(line)) {
        Step::Reply(messages) => messages.iter().map(to_value).collect(),
        Step::Call(call) => panic!("unexpected call of {}", call.name),
    }
}

fn req_id(handler: &McpHandler, method: &str, params: &str) -> Value {
    let line = format!(
        "{{\"jsonrpc\":\"2.0\",\"id\":1,\"method\":\"{}\",\"params\":{}}}",
        method, params
    );
    let out = replies(handler, &line);
    assert_eq!(out.len(), 1, "expected exactly one response for {}", method);
    out.into_iter().next().unwrap()
}

#[test]
fn initialize_returns_server_info() {
    let h = McpHandler::new();
    let resp = req_id(&h, "initialize", "{}");
    assert_eq!(resp["id"], 1);
    assert_eq!(resp["result"]["serverInfo"]["name"], "remote-agentd");
    assert_eq!(resp["result"]["serverInfo"]["version"], "0.1.0");
    assert_eq!(resp["result"]["protocolVersion"], "2025-03-26");
    assert_eq!(resp["result"]["capabilities"]["tools"]["listChanged"], false);
}

#[test]
fn tools_list_returns_eight_tools() {
    let h = McpHandler::new();
    let resp = req_id(&h, "tools/list", "{}");
    let tools = resp["result"]["tools"].as_array().unwrap();
    assert_eq!(tools.len(), 8);
    let names: Vec<&str> = tools.iter().map(|t| t["name"].as_str().unwrap()).collect();
    assert!(names.contains(&"remote_read"));
    assert!(names.contains(&"remote_edit"));
    assert!(names.contains(&"remote_search"));
    assert!(names.contains(&"remote_bash"));
    assert!(names.contains(&"remote_find"));
    assert!(names.contains(&"remote_write"));
    assert!(names.contains(&"remote_fetch"));
    assert!(names.contains(&"remote_put"));
}

#[test]
fn ping_returns_empty_result() {
    let h = McpHandler::new();
    let resp = req_id(&h, "ping", "{}");
    assert_eq!(resp["id"], 1);
    assert!(resp["result"].as_object().unwrap().is_empty());
}

#[test]
fn initialized_notification_no_response() {
    let h = McpHandler::new();
    let out = replies(&h, "{\"jsonrpc\":\"2.0\",\"method\":\"notifications/initialized\"}");
    assert!(out.is_empty(), "notification should produce no response");
}

#[test]
fn unknown_method_returns_error() {
    let h = McpHandler::new();
    let resp = req_id(&h, "nonexistent/method", "{}");
    assert_eq!(resp["error"]["code"], -32601);
    assert_eq!(resp["error"]["message"], "Unknown method: nonexistent/method");
}

#[test]
fn parse_error_returns_error() {
    let h = McpHandler::new();
    let out = replies(&h, "this is not json {{{");
    assert_eq!(out.len(), 1);
    assert_eq!(out[0]["error"]["code"], -32700);
}

#[test]
fn unknown_tool_returns_error() {
    let h = McpHandler::new();
    let resp = req_id(&h, "tools/call", "{\"name\":\"no_such_tool\",\"arguments\":{}}");
    assert_eq!(resp["error"]["code"], -32601);
}

#[test]
fn unregistered_tool_returns_iserror() {
    let h = McpHandler::new();
    let resp =
        req_id(&h, "tools/call", "{\"name\":\"remote_read\",\"arguments\":{\"path\":\".\"}}");
    assert_eq!(resp["result"]["isError"], true);
    let text = resp["result"]["content"][0]["text"].as_str().unwrap();
    assert!(text.contains("no implementation"));
}

#[test]
fn missing_tool_name_returns_error() {
    let h = McpHandler::new();
    let resp = req_id(&h, "tools/call", "{\"arguments\":{}}");
    assert_eq!(resp["error"]["code"], -32602);
}

#[test]
fn params_that_are_no_object_are_refused() {
    let h = McpHandler::new();
    let resp = req_id(&h, "tools/call", "[1]");
    assert_eq!(resp["error"]["code"], -32602);
    assert_eq!(resp["error"]["message"], "Invalid params");
}

#[test]
fn a_line_that_is_no_object_is_refused() {
    let h = McpHandler::new();
    let out = replies(&h, "[1,2]");
    assert_eq!(out[0]["error"]["code"], -32600);
    assert_eq!(out[0]["id"], Value::Null);
}

#[test]
fn another_version_is_refused_and_a_missing_one_accepted() {
    let h = McpHandler::new();
    let out = replies(&h, "{\"jsonrpc\":\"1.0\",\"id\":7,\"method\":\"ping\"}");
    assert_eq!(out[0]["error"]["code"], -32600);
    assert_eq!(out[0]["id"], 7);
    let out = replies(&h, "{\"id\":\"a\",\"method\":\"ping\"}");
    assert_eq!(out[0]["id"], "a");
    assert!(out[0]["error"].is_null());
}

#[test]
fn unknown_notifications_are_passed_over() {
    let h = McpHandler::new();
    assert!(replies(&h, "{\"jsonrpc\":\"2.0\",\"method\":\"whatever\"}").is_empty());
}

#[test]
fn a_registered_tool_is_called() {
    let mut h = McpHandler::new();
    register_all(&mut h);
    let line = "{\"id\":5,\"method\":\"tools/call\",\"params\":{\"name\":\"remote_put\",\
                \"arguments\":{\"path\":\"x\"},\"_meta\":{\"progressToken\":9}}}";
    match h.handle_message(parse(line)) {
        Step::Call(call) => {
            assert_eq!(call.name, "remote_put");
            assert_eq!(to_value(&call.id), 5);
            assert_eq!(to_value(&call.arguments)["path"], "x");
            let token = call.progress_token.unwrap();
            let mut progress = ProgressSender::new(token);
            progress.send(1, 0, "half way");
            let out = finish_call(call.id, progress.out, &ToolResult::text("done".to_string()));
            assert_eq!(out.len(), 2);
            let first = to_value(&out[0]);
            assert_eq!(first["method"], "notifications/progress");
            assert_eq!(first["params"]["progressToken"], 9);
            assert_eq!(first["params"]["progress"], 1);
            assert_eq!(first["params"]["total"], 0);
            assert_eq!(first["params"]["message"], "half way");
            let last = to_value(&out[1]);
            assert_eq!(last["id"], 5);
            assert_eq!(last["result"]["content"][0]["type"], "text");
            assert_eq!(last["result"]["content"][0]["text"], "done");
            assert_eq!(last["result"]["isError"], false);
        }
        Step::Reply(_) => panic!("expected a call"),
    }
}

#[test]
fn registration_of_an_unknown_name_does_nothing() {
    let mut r = ToolRegistry::new();
    r.register("remote_nothing");
    assert!(!r.has_tool("remote_nothing"));
    assert!(!r.has_handler("remote_nothing"));
    r.register("remote_find");
    assert!(r.has_handler("remote_find"));
    assert!(!r.has_handler("remote_read"));
}

#[test]
fn tool_definitions_have_schemas() {
    let r = ToolRegistry::default();
    let list: Vec<Value> = r.list().iter().map(to_value).collect();
    let search = &list[2];
    assert_eq!(search["name"], "remote_search");
    assert_eq!(search["inputSchema"]["type"], "object");
    assert_eq!(search["inputSchema"]["properties"]["paths"]["type"][1], "array");
    assert_eq!(search["inputSchema"]["properties"]["pattern"]["type"], "string");
    assert_eq!(search["inputSchema"]["required"][0], "pattern");
}

#[test]
fn results_come_from_json_in_three_forms() {
    let full = parse(
        "{\"content\":[{\"type\":\"text\",\"text\":\"a\"},{\"no\":1},{\"text\":\"b\"}],\"isError\":true}",
    )
    .unwrap();
    let r = result_from_json(&full, "");
    assert!(r.is_error);
    assert_eq!(r.content.len(), 2);
    assert_eq!(r.content[1].text, "b");
    let bare = parse("\"plain\"").unwrap();
    let r = result_from_json(&bare, "\"plain\"");
    assert!(!r.is_error);
    assert_eq!(r.content[0].text, "plain");
    let other = parse("[1,2]").unwrap();
    let r = result_from_json(&other, "[1,2]");
    assert_eq!(r.content[0].text, "[1,2]");
}

#[test]
fn an_error_result_says_so() {
    let r = ToolResult::error("broken".to_string());
    let v = to_value(&r.to_json());
    assert_eq!(v["isError"], true);
    assert_eq!(v["content"][0]["text"], "broken");
}

#[test]
fn lines_that_are_too_long_are_counted() {
    let v = to_value(&too_long_reply(2_000_000));
    assert_eq!(v["error"]["code"], -32700);
    assert_eq!(
        v["error"]["message"],
        "Line too long (2000000 bytes, limit 1048576). Input may be truncated/malformed."
    );
    let mut count = ErrorCount::new();
    for _ in 0..99 {
        assert!(!count.answered(true));
    }
    assert!(!count.answered(false));
    for _ in 0..99 {
        assert!(!count.answered(true));
    }
    assert!(count.answered(true));
}
