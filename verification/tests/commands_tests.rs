use prompt_manager::commands::{
    add_variable, create_prompt, create_recipe, delete_prompt, delete_recipe, delete_variable, duplicate_prompt,
    mcp_config_snippet, recipe_usage, rename_variable, render_prompt, reorder_prompts, save_prompt, save_recipe,
    set_selected_recipe, state_snapshot, variable_usage,
};
use prompt_manager::json::Json;
use prompt_manager::storage::{Library, Stored};

const NOW: &str = "2026-07-23T10:00:00Z";
const LATER: &str = "2026-07-23T11:00:00Z";

fn lib() -> Library {
    Library::new("/tmp/pm-commands")
}

fn field(text: &str, key: &str) -> String {
    Json::parse(text).unwrap().get_str(key).unwrap().to_string()
}

#[test]
fn create_prompt_answers_the_prompt() {
    let mut l = lib();
    let out = create_prompt(&mut l, "1", NOW, "Hello", "Hi {{name}}").unwrap();
    assert_eq!(field(&out, "id"), "p-1");
    assert_eq!(field(&out, "title"), "Hello");
    assert_eq!(field(&out, "content"), "Hi {{name}}");
    let v = Json::parse(&out).unwrap();
    let ph = v.get("placeholders").unwrap().as_arr().unwrap();
    assert_eq!(ph.len(), 1);
    assert_eq!(ph[0].as_str(), Some("name"));
}

#[test]
fn save_prompt_patches_given_fields() {
    let mut l = lib();
    create_prompt(&mut l, "1", NOW, "Hello", "Hi").unwrap();
    create_recipe(&mut l, "1", NOW, "R").unwrap();
    let out = save_prompt(
        &mut l,
        LATER,
        r#"{"id":"p-1","title":"New","recipes":["r-1",5],"selected_recipe":"r-1"}"#,
    )
    .unwrap();
    assert_eq!(field(&out, "title"), "New");
    assert_eq!(field(&out, "content"), "Hi");
    assert_eq!(field(&out, "selected_recipe"), "r-1");
    assert_eq!(field(&out, "updated"), LATER);
    let p = l.get_prompt("p-1").unwrap();
    assert_eq!(p.recipes, vec!["r-1".to_string()]);
    // a null selection clears it
    save_prompt(&mut l, LATER, r#"{"id":"p-1","selected_recipe":null}"#).unwrap();
    assert_eq!(l.get_prompt("p-1").unwrap().selected_recipe, None);
}

#[test]
fn save_prompt_errors() {
    let mut l = lib();
    create_prompt(&mut l, "1", NOW, "Hello", "Hi").unwrap();
    assert_eq!(save_prompt(&mut l, NOW, r#"{"title":"x"}"#), Err("missing id".to_string()));
    assert_eq!(save_prompt(&mut l, NOW, r#"{"id":"p-9"}"#), Err("Not found: p-9".to_string()));
    assert!(save_prompt(&mut l, NOW, "{oops").is_err());
    assert_eq!(l.get_prompt("p-1").unwrap().title, "Hello");
}

#[test]
fn duplicate_names_the_copy_in_the_ui_language() {
    let mut l = lib();
    create_prompt(&mut l, "1", NOW, "Mail", "x").unwrap();
    let en = duplicate_prompt(&mut l, "2", NOW, "p-1", "en").unwrap();
    assert_eq!(field(&en, "id"), "p-2");
    assert_eq!(field(&en, "title"), "Mail (copy)");
    let de = duplicate_prompt(&mut l, "3", NOW, "p-1", "de").unwrap();
    assert_eq!(field(&de, "title"), "Mail (Kopie)");
    let cs = duplicate_prompt(&mut l, "4", NOW, "p-1", "cs").unwrap();
    assert_eq!(field(&cs, "title"), "Mail (kopie)");
    assert_eq!(l.get_prompt("p-2").unwrap().title, "Mail (copy)");
    assert_eq!(
        duplicate_prompt(&mut l, "5", NOW, "p-9", "en"),
        Err("Not found: p-9".to_string())
    );
}

#[test]
fn reorder_takes_a_json_array() {
    let mut l = lib();
    create_prompt(&mut l, "1", NOW, "A", "").unwrap();
    create_prompt(&mut l, "2", NOW, "B", "").unwrap();
    reorder_prompts(&mut l, r#"["p-2", 7, "p-1"]"#).unwrap();
    assert_eq!(l.load_order().unwrap(), vec!["p-2".to_string(), "p-1".to_string()]);
    assert_eq!(reorder_prompts(&mut l, r#"{"a":1}"#), Err("expected array of ids".to_string()));
    assert!(reorder_prompts(&mut l, "[").is_err());
    assert_eq!(l.load_order().unwrap(), vec!["p-2".to_string(), "p-1".to_string()]);
}

#[test]
fn selected_recipe_is_set_and_cleared() {
    let mut l = lib();
    create_prompt(&mut l, "1", NOW, "A", "").unwrap();
    create_recipe(&mut l, "1", NOW, "R").unwrap();
    save_prompt(&mut l, NOW, r#"{"id":"p-1","recipes":["r-1"]}"#).unwrap();
    set_selected_recipe(&mut l, NOW, "p-1", Some("r-1")).unwrap();
    assert_eq!(l.get_prompt("p-1").unwrap().selected_recipe, Some("r-1".to_string()));
    set_selected_recipe(&mut l, NOW, "p-1", None).unwrap();
    assert_eq!(l.get_prompt("p-1").unwrap().selected_recipe, None);
    assert_eq!(set_selected_recipe(&mut l, NOW, "p-9", None), Err("Not found: p-9".to_string()));
}

#[test]
fn save_recipe_orders_new_variables_as_asked() {
    let mut l = lib();
    let out = create_recipe(&mut l, "1", NOW, "R").unwrap();
    assert_eq!(out, r#"{"id":"r-1","name":"R","updated":"2026-07-23T10:00:00Z","values":{}}"#);
    let saved = save_recipe(
        &mut l,
        LATER,
        r#"{"id":"r-1","name":"R2","values":{"a":"1","b":"2","c":"3","n":4},"values_order":["c","x","a"]}"#,
    )
    .unwrap();
    assert_eq!(
        saved,
        r#"{"id":"r-1","name":"R2","updated":"2026-07-23T11:00:00Z","values":{"a":"1","b":"2","c":"3"}}"#
    );
    assert_eq!(l.list_variables().unwrap(), vec!["c".to_string(), "a".to_string(), "b".to_string()]);
    let r = l.get_recipe("r-1").unwrap();
    let keys: Vec<&str> = r.values.iter().map(|(k, _)| k.as_str()).collect();
    assert_eq!(keys, vec!["c", "a", "b"]);
    assert_eq!(save_recipe(&mut l, NOW, r#"{"name":"x"}"#), Err("missing id".to_string()));
}

#[test]
fn recipe_usage_and_delete_answer_titles() {
    let mut l = lib();
    create_prompt(&mut l, "1", NOW, "P", "").unwrap();
    create_recipe(&mut l, "1", NOW, "R").unwrap();
    save_prompt(&mut l, NOW, r#"{"id":"p-1","recipes":["r-1"],"selected_recipe":"r-1"}"#).unwrap();
    assert_eq!(recipe_usage(&l, "r-1").unwrap(), r#"["P"]"#);
    assert_eq!(delete_recipe(&mut l, "r-1").unwrap(), r#"["P"]"#);
    assert_eq!(recipe_usage(&l, "r-1").unwrap(), "[]");
    assert_eq!(l.get_prompt("p-1").unwrap().selected_recipe, None);
}

#[test]
fn variable_commands_answer_the_list() {
    let mut l = lib();
    create_prompt(&mut l, "1", NOW, "P", "Hi {{name}}").unwrap();
    assert_eq!(add_variable(&mut l, "name").unwrap(), r#"["name"]"#);
    assert_eq!(add_variable(&mut l, "tone").unwrap(), r#"["name","tone"]"#);
    assert_eq!(variable_usage(&l, "name").unwrap(), r#"["P"]"#);
    assert_eq!(rename_variable(&mut l, LATER, "name", "who").unwrap(), r#"["who","tone"]"#);
    assert_eq!(l.get_prompt("p-1").unwrap().content, "Hi {{who}}");
    assert_eq!(delete_variable(&mut l, "tone").unwrap(), r#"["who"]"#);
    assert!(add_variable(&mut l, "Bad Name").is_err());
}

#[test]
fn render_answers_text_and_missing() {
    // without a recipe the prompt is copied raw
    let mut l = lib();
    create_prompt(&mut l, "1", NOW, "P", "Hi {{name}}, {{tone}}").unwrap();
    create_recipe(&mut l, "1", NOW, "R").unwrap();
    save_recipe(&mut l, NOW, r#"{"id":"r-1","values":{"name":"Ann","tone":""}}"#).unwrap();
    assert_eq!(
        render_prompt(&l, "p-1", Some("r-1")).unwrap(),
        r#"{"missing":["tone"],"text":"Hi Ann, {{tone}}"}"#
    );
    assert_eq!(
        render_prompt(&l, "p-1", None).unwrap(),
        r#"{"missing":[],"text":"Hi {{name}}, {{tone}}"}"#
    );
    assert_eq!(render_prompt(&l, "p-9", None), Err("Not found: p-9".to_string()));
}

#[test]
fn snapshot_holds_everything() {
    let mut l = lib();
    create_prompt(&mut l, "1", NOW, "P", "x").unwrap();
    add_variable(&mut l, "v").unwrap();
    create_recipe(&mut l, "1", NOW, "R").unwrap();
    let settings = Json::parse(r#"{"language":"en"}"#).unwrap();
    let out = state_snapshot(&l, &settings).unwrap();
    let v = Json::parse(&out).unwrap();
    assert_eq!(v.get("prompts").unwrap().as_arr().unwrap().len(), 1);
    assert_eq!(v.get("recipes").unwrap().as_arr().unwrap().len(), 1);
    assert_eq!(v.get("settings").unwrap().get_str("language"), Some("en"));
    assert!(out.ends_with(
        r#""variables":[{"name":"v","recipes":[{"recipe_id":"r-1","recipe_name":"R","value":""}]}]}"#
    ));
    delete_prompt(&mut l, "p-1").unwrap();
    let out = state_snapshot(&l, &settings).unwrap();
    assert!(out.starts_with(r#"{"prompts":[],"recipes":["#));
}

#[test]
fn mcp_config_names_server_and_library() {
    let out = mcp_config_snippet("C:\\pm\\prompt-manager-mcp.exe", "D:\\lib");
    let v = Json::parse(&out).unwrap();
    let server = v.get("mcpServers").unwrap().get("prompt-manager").unwrap();
    assert_eq!(server.get_str("command"), Some("C:\\pm\\prompt-manager-mcp.exe"));
    let args = server.get("args").unwrap().as_arr().unwrap();
    assert_eq!(args[0].as_str(), Some("--library"));
    assert_eq!(args[1].as_str(), Some("D:\\lib"));
    assert!(out.starts_with("{\n  \"mcpServers\": {\n    \"prompt-manager\": {\n"));
}

#[test]
fn a_broken_order_file_is_reported_with_its_reason() {
    let mut l = lib();
    l.set_order_stored(Stored::Text("{oops".to_string()));
    let settings = Json::parse("{}").unwrap();
    assert_eq!(
        state_snapshot(&l, &settings),
        Err("Cannot parse order.json: expected '\"' at byte 1, found Some('o')".to_string())
    );
}
