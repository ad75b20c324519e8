use prompt_manager::api::{
    body_length, constant_time_eq, head_line, keep_alive, needs_library, parse_usize, request_line, response_body, response_head, route,
    status_text, ApiConfig, HeadLine, Request, Resp,
};
use prompt_manager::storage::Library;

const NOW: &str = "2026-07-23T10:00:00Z";

struct Env {
    cfg: ApiConfig,
    lib: Library,
    next: u32,
}

fn cfg() -> Env {
    Env {
        cfg: ApiConfig { library_root: "/tmp/pm-api-test".into(), api_key: "test-key".into(), port: 0 },
        lib: Library::new("/tmp/pm-api-test"),
        next: 0,
    }
}

fn send(env: &mut Env, req: Request) -> Resp {
    env.next += 1;
    let stamp = format!("{}", env.next);
    route(&req, &env.cfg, &mut env.lib, &stamp, NOW)
}

fn call(env: &mut Env, method: &str, path: &str, body: &str) -> Resp {
    let key = env.cfg.api_key.clone();
    send(env, Request::test(method, path, body).with_auth(&key))
}

#[test]
fn auth_required() {
    let mut c = cfg();
    let r = send(&mut c, Request::test("GET", "/api/v1/prompts", ""));
    assert_eq!(r.status, 401);
    let r = send(&mut c, Request::test("GET", "/api/v1/prompts", "").with_auth("wrong"));
    assert_eq!(r.status, 401);
    let r = call(&mut c, "GET", "/api/v1/prompts", "");
    assert_eq!(r.status, 200);
}

#[test]
fn full_crud_flow() {
    let mut c = cfg();
    // create recipe
    let r = call(
        &mut c,
        "POST",
        "/api/v1/recipes",
        r#"{"name":"R1","values":{"cesta":"C:\\X","jazyk":"rust"}}"#,
    );
    assert_eq!(r.status, 201);
    let rid = r.body.get_str("id").unwrap().to_string();

    // create prompt
    let r = call(
        &mut c,
        "POST",
        "/api/v1/prompts",
        r#"{"title":"P1","content":"Ahoj {{cesta}} {{chybi}}"}"#,
    );
    assert_eq!(r.status, 201);
    let pid = r.body.get_str("id").unwrap().to_string();
    assert_eq!(r.body.get("placeholders").unwrap().as_arr().unwrap().len(), 2);

    // assign recipe
    let r = call(
        &mut c,
        "PUT",
        &format!("/api/v1/prompts/{}", pid),
        &format!(r#"{{"recipes":["{}"],"selected_recipe":"{}"}}"#, rid, rid),
    );
    assert_eq!(r.status, 200);
    assert_eq!(r.body.get_str("selected_recipe").unwrap(), rid);

    // render with recipe
    let r = call(
        &mut c,
        "POST",
        &format!("/api/v1/prompts/{}/render", pid),
        &format!(r#"{{"recipe_id":"{}"}}"#, rid),
    );
    assert_eq!(r.status, 200);
    assert_eq!(r.body.get_str("text").unwrap(), "Ahoj C:\\X {{chybi}}");
    assert_eq!(r.body.get("missing").unwrap().as_arr().unwrap().len(), 1);

    // render with override
    let r = call(
        &mut c,
        "POST",
        &format!("/api/v1/prompts/{}/render", pid),
        &format!(r#"{{"recipe_id":"{}","overrides":{{"chybi":"DOPLNĚNO"}}}}"#, rid),
    );
    assert_eq!(r.body.get_str("text").unwrap(), "Ahoj C:\\X DOPLNĚNO");

    // variables
    let r = call(&mut c, "GET", "/api/v1/variables", "");
    assert_eq!(r.body.as_arr().unwrap().len(), 2);

    // order
    let r = call(&mut c, "POST", "/api/v1/prompts", r#"{"title":"P2","content":"x"}"#);
    let pid2 = r.body.get_str("id").unwrap().to_string();
    let r = call(
        &mut c,
        "PUT",
        "/api/v1/prompts/order",
        &format!(r#"{{"prompts":["{}","{}"]}}"#, pid2, pid),
    );
    assert_eq!(r.status, 200);
    let r = call(&mut c, "GET", "/api/v1/prompts", "");
    let arr = r.body.as_arr().unwrap();
    assert_eq!(arr[0].get_str("id").unwrap(), pid2);

    // delete recipe cleans references
    let r = call(&mut c, "DELETE", &format!("/api/v1/recipes/{}", rid), "");
    assert_eq!(r.status, 200);
    let r = call(&mut c, "GET", &format!("/api/v1/prompts/{}", pid), "");
    assert!(r.body.get("recipes").unwrap().as_arr().unwrap().is_empty());

    // delete prompt
    let r = call(&mut c, "DELETE", &format!("/api/v1/prompts/{}", pid), "");
    assert_eq!(r.status, 200);
    let r = call(&mut c, "GET", &format!("/api/v1/prompts/{}", pid), "");
    assert_eq!(r.status, 404);
}

#[test]
fn validation_errors() {
    let mut c = cfg();
    assert_eq!(call(&mut c, "POST", "/api/v1/prompts", r#"{}"#).status, 400);
    assert_eq!(call(&mut c, "POST", "/api/v1/prompts", "not json").status, 400);
    assert_eq!(call(&mut c, "GET", "/api/v1/nope", "").status, 404);
    assert_eq!(call(&mut c, "POST", "/api/v1/recipes", r#"{"name":""}"#).status, 400);
    assert_eq!(
        call(&mut c, "POST", "/api/v1/recipes", r#"{"name":"X","values":{"ŠPATNĚ":"1"}}"#).status,
        400
    );
}

#[test]
fn options_and_unknown_methods() {
    let mut c = cfg();
    assert_eq!(send(&mut c, Request::test("OPTIONS", "/anything", "")).status, 204);
    assert_eq!(call(&mut c, "PATCH", "/api/v1/prompts", "").status, 405);
    assert_eq!(call(&mut c, "GET", "/other/v1/prompts", "").status, 404);
    // query strings and surrounding slashes do not matter
    assert_eq!(call(&mut c, "GET", "//api/v1/prompts/?x=1", "").status, 200);
    // header names are matched ignoring case
    let mut req = Request::test("GET", "/api/v1/recipes", "");
    req.headers.push(("AUTHORIZATION".into(), "Bearer  test-key ".into()));
    assert_eq!(send(&mut c, req).status, 200);
}

#[test]
fn failed_values_roll_back_the_new_recipe() {
    let mut c = cfg();
    let r = call(&mut c, "POST", "/api/v1/recipes", r#"{"name":"X","values":{"a":"1","a b":"2"}}"#);
    assert_eq!(r.status, 400);
    assert_eq!(
        r.body.get_str("error").unwrap(),
        "invalid variable name 'a b' (allowed: a-z, 0-9, _)"
    );
    let r = call(&mut c, "GET", "/api/v1/recipes", "");
    assert!(r.body.as_arr().unwrap().is_empty());
}

#[test]
fn library_errors_become_responses() {
    let mut c = cfg();
    c.lib.set_open_error("permission denied".into());
    let r = call(&mut c, "GET", "/api/v1/prompts", "");
    assert_eq!(r.status, 500);
    assert_eq!(r.body.get_str("error").unwrap(), "io error: permission denied");
    // still no access without the key
    assert_eq!(send(&mut c, Request::test("GET", "/api/v1/prompts", "")).status, 401);
}

#[test]
fn helpers() {
    assert!(constant_time_eq("abc", "abc"));
    assert!(!constant_time_eq("abc", "abd"));
    assert!(!constant_time_eq("abc", "abcd"));
    assert_eq!(status_text(201), "Created");
    assert_eq!(status_text(500), "Internal Server Error");
    let r = Request::test("POST", "/p", "čau");
    assert_eq!(r.body, "čau".as_bytes().to_vec());
    let r = r.with_auth("k");
    assert_eq!(r.header("authorization").as_deref(), Some("Bearer k"));
}

#[test]
fn request_line_parts() {
    assert_eq!(request_line("get /api/v1/prompts HTTP/1.1\r\n"), Some(("GET".to_string(), "/api/v1/prompts".to_string())));
    assert_eq!(request_line("DELETE"), Some(("DELETE".to_string(), "/".to_string())));
    assert_eq!(request_line("   \r\n"), None);
    assert_eq!(request_line(""), None);
}

#[test]
fn header_lines() {
    match head_line("Content-Length:  12  \r\n") {
        HeadLine::Field(k, v) => {
            assert_eq!(k, "Content-Length");
            assert_eq!(v, "12");
        }
        _ => panic!("expected a field"),
    }
    match head_line("Host: 127.0.0.1:8737\r\n") {
        HeadLine::Field(k, v) => {
            assert_eq!(k, "Host");
            assert_eq!(v, "127.0.0.1:8737");
        }
        _ => panic!("expected a field"),
    }
    assert!(matches!(head_line("\r\n"), HeadLine::End));
    assert!(matches!(head_line("   "), HeadLine::End));
    assert!(matches!(head_line("garbage"), HeadLine::Other));
}

#[test]
fn body_lengths() {
    let h = |v: &str| vec![("content-LENGTH".to_string(), v.to_string())];
    assert_eq!(body_length(&vec![]), Some(0));
    assert_eq!(body_length(&h("12")), Some(12));
    assert_eq!(body_length(&h("+12")), Some(12));
    assert_eq!(body_length(&h("abc")), Some(0));
    assert_eq!(body_length(&h("-1")), Some(0));
    assert_eq!(body_length(&h("10485760")), Some(10485760));
    assert_eq!(body_length(&h("10485761")), None);
    assert_eq!(parse_usize("18446744073709551615"), Some(usize::MAX));
    assert_eq!(parse_usize("18446744073709551616"), None);
    assert_eq!(parse_usize("+"), None);
    assert_eq!(parse_usize(""), None);
    assert_eq!(parse_usize("007"), Some(7));
}

#[test]
fn response_heads() {
    assert_eq!(
        response_head(404, 2, false),
        "HTTP/1.1 404 Not Found\r\nContent-Type: application/json; charset=utf-8\r\nContent-Length: 2\r\nAccess-Control-Allow-Origin: *\r\nAccess-Control-Allow-Headers: Authorization, Content-Type\r\nAccess-Control-Allow-Methods: GET, POST, PUT, DELETE, OPTIONS\r\nConnection: close\r\n\r\n"
    );
    assert!(response_head(200, 0, true).ends_with("Connection: keep-alive\r\n\r\n"));
    let resp = Resp { status: 200, body: prompt_manager::json::Json::Obj(vec![]) };
    assert_eq!(response_body("HEAD", &resp), "");
    assert_eq!(response_body("GET", &resp), "{}");
}

#[test]
fn connection_close_is_honoured() {
    let mut req = Request::test("GET", "/", "");
    assert!(keep_alive(&req));
    req.headers.push(("Connection".into(), "Close".into()));
    assert!(!keep_alive(&req));
}

#[test]
fn refused_requests_change_nothing() {
    let mut c = cfg();
    let r = send(&mut c, Request::test("POST", "/api/v1/prompts", r#"{"title":"X"}"#).with_auth("wrong"));
    assert_eq!(r.status, 401);
    assert_eq!(r.body.get_str("error"), Some("missing or invalid API key"));
    let r = send(&mut c, Request::test("OPTIONS", "/api/v1/prompts", ""));
    assert_eq!(r.status, 204);
    let r = call(&mut c, "GET", "/api/v1/nothing-here", "");
    assert_eq!(r.status, 404);
    assert!(c.lib.take_effects().is_empty());
    assert!(c.lib.list_prompts().unwrap().is_empty());
}

#[test]
fn only_keyed_requests_read_the_library() {
    let c = cfg();
    assert!(!needs_library(&Request::test("OPTIONS", "/api/v1/prompts", ""), &c.cfg));
    assert!(!needs_library(&Request::test("GET", "/api/v1/prompts", ""), &c.cfg));
    assert!(!needs_library(&Request::test("GET", "/api/v1/prompts", "").with_auth("wrong"), &c.cfg));
    assert!(needs_library(&Request::test("GET", "/nowhere", "").with_auth("test-key"), &c.cfg));
}
