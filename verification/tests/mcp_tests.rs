use prompt_manager::json::Json;
use prompt_manager::mcp::{handle_message, needs_library, tools_list, write_failed_reply};
use prompt_manager::storage::Library;

const NOW: &str = "2026-07-23T10:00:00Z";

fn lib_root() -> Library {
    Library::new("/tmp/pm-mcp-test")
}

fn call(lib: &mut Library, stamp: &str, raw: &str) -> Json {
    Json::parse(&handle_message(raw, lib, stamp, NOW).expect("expected a response")).unwrap()
}

fn tool_text(resp: &Json) -> String {
    resp.get("result")
        .unwrap()
        .get("content")
        .unwrap()
        .as_arr()
        .unwrap()[0]
        .get_str("text")
        .unwrap()
        .to_string()
}

#[test]
fn initialize_and_list() {
    let mut root = lib_root();
    let r = call(
        &mut root,
        "x-1",
        r#"{"jsonrpc":"2.0","id":1,"method":"initialize","params":{"protocolVersion":"2025-06-18","capabilities":{}}}"#,
    );
    assert_eq!(
        r.get("result").unwrap().get("serverInfo").unwrap().get_str("name").unwrap(),
        "prompt-manager"
    );
    // notification -> no reply
    assert!(handle_message(
        r#"{"jsonrpc":"2.0","method":"notifications/initialized"}"#,
        &mut root,
        "x-2",
        NOW
    )
    .is_none());
    let r = call(&mut root, "x-3", r#"{"jsonrpc":"2.0","id":2,"method":"tools/list"}"#);
    let tools = r.get("result").unwrap().get("tools").unwrap().as_arr().unwrap();
    assert!(tools.len() >= 10);
    assert!(tools.iter().any(|t| t.get_str("name") == Some("render_prompt")));
}

#[test]
fn tool_flow_create_render() {
    let mut root = lib_root();
    // create recipe
    let r = call(
        &mut root,
        "1",
        r#"{"jsonrpc":"2.0","id":1,"method":"tools/call","params":{"name":"create_recipe","arguments":{"name":"R","values":{"cesta":"C:\\X"}}}}"#,
    );
    let recipe = Json::parse(&tool_text(&r)).unwrap();
    let rid = recipe.get_str("id").unwrap().to_string();
    assert_eq!(rid, "r-1");

    // create prompt
    let r = call(
        &mut root,
        "2",
        r#"{"jsonrpc":"2.0","id":2,"method":"tools/call","params":{"name":"create_prompt","arguments":{"title":"P","content":"Cesta: {{cesta}} a {{jina}}"}}}"#,
    );
    let prompt = Json::parse(&tool_text(&r)).unwrap();
    let _pid = prompt.get_str("id").unwrap();

    // render by title + recipe name
    let r = call(
        &mut root,
        "x-3",
        r#"{"jsonrpc":"2.0","id":3,"method":"tools/call","params":{"name":"render_prompt","arguments":{"id":"P","recipe":"R"}}}"#,
    );
    let out = Json::parse(&tool_text(&r)).unwrap();
    assert_eq!(out.get_str("text").unwrap(), "Cesta: C:\\X a {{jina}}");
    assert_eq!(out.get("missing").unwrap().as_arr().unwrap().len(), 1);
    let _ = rid;
}

#[test]
fn tool_errors_are_soft() {
    let mut root = lib_root();
    let r = call(
        &mut root,
        "x-1",
        r#"{"jsonrpc":"2.0","id":1,"method":"tools/call","params":{"name":"get_prompt","arguments":{"id":"neexistuje"}}}"#,
    );
    assert_eq!(r.get("result").unwrap().get("isError").unwrap().as_bool(), Some(true));
    // unknown method -> protocol error
    let r = call(&mut root, "x-2", r#"{"jsonrpc":"2.0","id":2,"method":"nope"}"#);
    assert!(r.get("error").is_some());
    // parse error
    let r = Json::parse(&handle_message("not json", &mut root, "x-3", NOW).unwrap()).unwrap();
    assert!(r.get("error").is_some());
}

#[test]
fn list_variables_tool() {
    let mut root = lib_root();
    call(
        &mut root,
        "1",
        r#"{"jsonrpc":"2.0","id":1,"method":"tools/call","params":{"name":"create_recipe","arguments":{"name":"A","values":{"x":"1","y":"2"}}}}"#,
    );
    let r = call(
        &mut root,
        "x-2",
        r#"{"jsonrpc":"2.0","id":2,"method":"tools/call","params":{"name":"list_variables","arguments":{}}}"#,
    );
    let vars = Json::parse(&tool_text(&r)).unwrap();
    assert_eq!(vars.as_arr().unwrap().len(), 2);
}

#[test]
fn rpc_error_shapes() {
    let mut root = lib_root();
    let raw = handle_message(r#"{"jsonrpc":"2.0","id":7,"method":"nope"}"#, &mut root, "x", NOW).unwrap();
    assert_eq!(
        raw,
        r#"{"error":{"code":-32601,"message":"method not found: nope"},"id":7,"jsonrpc":"2.0"}"#
    );
    let raw = handle_message(r#"{"jsonrpc":"2.0","id":"a","method":"ping"}"#, &mut root, "x", NOW).unwrap();
    assert_eq!(raw, r#"{"id":"a","jsonrpc":"2.0","result":{}}"#);
    let r = call(&mut root, "x", r#"{"jsonrpc":"2.0","id":3,"method":"tools/call","params":{}}"#);
    assert_eq!(r.get("error").unwrap().get_str("message").unwrap(), "missing tool name");
    let r = call(
        &mut root,
        "x",
        r#"{"jsonrpc":"2.0","id":4,"method":"tools/call","params":{"name":"nope"}}"#,
    );
    assert_eq!(r.get("error").unwrap().get_str("message").unwrap(), "unknown tool: nope");
    let r = call(
        &mut root,
        "x",
        r#"{"jsonrpc":"2.0","id":5,"method":"tools/call","params":{"name":"get_prompt","arguments":{"id":"  "}}}"#,
    );
    assert_eq!(tool_text(&r), "Chybí povinný argument 'id'.");
}

#[test]
fn initialize_echoes_version() {
    let mut root = lib_root();
    let r = call(&mut root, "x", r#"{"jsonrpc":"2.0","id":1,"method":"initialize","params":{"protocolVersion":"2024-11-05"}}"#);
    assert_eq!(r.get("result").unwrap().get_str("protocolVersion").unwrap(), "2024-11-05");
    let r = call(&mut root, "x", r#"{"jsonrpc":"2.0","id":1,"method":"initialize"}"#);
    assert_eq!(r.get("result").unwrap().get_str("protocolVersion").unwrap(), "2025-06-18");
}

#[test]
fn tools_are_described() {
    let t = tools_list();
    let tools = t.get("tools").unwrap().as_arr().unwrap();
    assert_eq!(tools.len(), 11);
    let render = &tools[2];
    assert_eq!(render.get_str("name"), Some("render_prompt"));
    let schema = render.get("inputSchema").unwrap();
    assert_eq!(schema.get_str("type"), Some("object"));
    assert_eq!(schema.get("required").unwrap().as_arr().unwrap().len(), 1);
    assert!(schema.get("properties").unwrap().get("recipe").is_some());
}

#[test]
fn update_and_delete_through_tools() {
    let mut root = lib_root();
    let r = call(&mut root, "1", r#"{"jsonrpc":"2.0","id":1,"method":"tools/call","params":{"name":"create_prompt","arguments":{"title":"Starý"}}}"#);
    assert_eq!(Json::parse(&tool_text(&r)).unwrap().get_str("id"), Some("p-1"));
    let r = call(&mut root, "x", r#"{"jsonrpc":"2.0","id":2,"method":"tools/call","params":{"name":"update_prompt","arguments":{"id":"Starý","title":"Nový","content":"c"}}}"#);
    let p = Json::parse(&tool_text(&r)).unwrap();
    assert_eq!(p.get_str("title"), Some("Nový"));
    assert_eq!(p.get_str("content"), Some("c"));
    let r = call(&mut root, "x", r#"{"jsonrpc":"2.0","id":3,"method":"tools/call","params":{"name":"delete_prompt","arguments":{"id":"p-1"}}}"#);
    assert_eq!(Json::parse(&tool_text(&r)).unwrap().get("deleted").unwrap().as_bool(), Some(true));
    let r = call(&mut root, "x", r#"{"jsonrpc":"2.0","id":4,"method":"tools/call","params":{"name":"list_prompts"}}"#);
    assert!(Json::parse(&tool_text(&r)).unwrap().as_arr().unwrap().is_empty());
}

#[test]
fn notifications_and_reads_change_nothing() {
    let mut root = lib_root();
    assert!(handle_message(r#"{"jsonrpc":"2.0","method":"tools/call","params":{"name":"create_prompt","arguments":{"title":"X"}}}"#, &mut root, "1", NOW).is_none());
    call(&mut root, "2", r#"{"jsonrpc":"2.0","id":1,"method":"tools/call","params":{"name":"list_prompts"}}"#);
    call(&mut root, "3", r#"{"jsonrpc":"2.0","id":2,"method":"tools/list"}"#);
    call(&mut root, "4", r#"{"jsonrpc":"2.0","id":3,"method":"tools/call","params":{"name":"list_variables","arguments":{}}}"#);
    assert!(root.take_effects().is_empty());
}

#[test]
fn a_failed_write_is_answered_as_a_failed_tool() {
    let raw = r#"{"jsonrpc":"2.0","id":3,"method":"tools/call","params":{"name":"delete_prompt","arguments":{"id":"p-1"}}}"#;
    assert_eq!(
        write_failed_reply(raw, "disk full").as_deref(),
        Some(r#"{"id":3,"jsonrpc":"2.0","result":{"content":[{"text":"IO error: disk full","type":"text"}],"isError":true}}"#)
    );
    // a notification gets no reply, and neither does text that is not JSON
    assert_eq!(write_failed_reply(r#"{"jsonrpc":"2.0","method":"tools/call"}"#, "disk full"), None);
    assert_eq!(write_failed_reply("not json", "disk full"), None);
}

#[test]
fn only_tool_calls_read_the_library() {
    assert!(needs_library(r#"{"jsonrpc":"2.0","id":1,"method":"tools/call","params":{"name":"list_prompts"}}"#));
    assert!(!needs_library(r#"{"jsonrpc":"2.0","id":1,"method":"tools/call","params":{}}"#));
    assert!(!needs_library(r#"{"jsonrpc":"2.0","method":"tools/call","params":{"name":"list_prompts"}}"#));
    assert!(!needs_library(r#"{"jsonrpc":"2.0","id":1,"method":"tools/list"}"#));
    assert!(!needs_library("not json"));
}
