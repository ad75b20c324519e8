//! The local REST API: routing of authenticated HTTP requests to library
//! operations, with JSON bodies.
//!
//! Endpoints:
//!   GET    /api/v1/prompts
//!   POST   /api/v1/prompts                 {title, content}
//!   GET    /api/v1/prompts/{id}
//!   PUT    /api/v1/prompts/{id}            {title?, content?, recipes?, selected_recipe?}
//!   DELETE /api/v1/prompts/{id}
//!   PUT    /api/v1/prompts/order           {prompts: [id, ...]}
//!   POST   /api/v1/prompts/{id}/render     {recipe_id?, overrides?}
//!   GET    /api/v1/recipes
//!   POST   /api/v1/recipes                 {name, values?}
//!   GET    /api/v1/recipes/{id}
//!   PUT    /api/v1/recipes/{id}            {name?, values?}
//!   DELETE /api/v1/recipes/{id}
//!   GET    /api/v1/variables

use vstd::prelude::*;
use vstd::string::StrSliceExecFns;
use vstd::utf8::{decode_utf8, encode_utf8, valid_utf8};
use crate::json::{Json, JsonV, jget, jget_str, jstr, jv, jv_pairs, lemma_jv_pairs, parse_error, parse_spec};
use crate::mcp::{jtext, members, variables_json, pair, prompts_json, prompts_to_json, recipes_json, recipes_to_json, rendered, rendered_json, str_members, values_arg, var_json, var_to_json};
use crate::model::{PromptV, Recipe, RecipeV, lemma_prompt_json_fields, lemma_recipe_json_fields, or_empty, prompt_json, recipe_json, strs_json, strs_to_json};
use crate::storage::{ErrV, Library, LibraryV, StoreError, create_prompt_spec, create_recipe_spec, delete_prompt_spec, delete_recipe_spec, err_v, prompt_by_id, prompts_of, recipe_by_id, recipes_of, reconciled, lemma_create_prompt_gives, lemma_create_recipe_gives, lemma_save_prompt_keeps_given, lemma_save_recipe_keeps_given, render_prompt_spec, reorder_spec, save_prompt_spec, save_recipe_spec, str_values, table_v, value_of, variable_table};
use crate::text::{chars_of, copy_string, str_eq, string_of, views};
use crate::util::{ascii_lower, dec, prefixed, prefixed_id};
use crate::yamlish::{pairs_v, trim, trim_str};

verus! {

/// Where the library lives, the key clients must present, and the port.
#[derive(Clone)]
pub struct ApiConfig {
    pub library_root: String,
    pub api_key: String,
    pub port: u16,
}

/// A running server (port 0 asks for an ephemeral one; this is the one
/// bound).
pub struct ApiServer {
    pub port: u16,
}

/// An HTTP request as read from a connection.
pub struct Request {
    pub method: String,
    pub path: String,
    pub headers: Vec<(String, String)>,
    pub body: Vec<u8>,
}

pub struct RequestV {
    pub method: Seq<char>,
    pub path: Seq<char>,
    pub headers: Seq<(Seq<char>, Seq<char>)>,
    pub body: Seq<u8>,
}

impl View for Request {
    type V = RequestV;

    open spec fn view(&self) -> RequestV {
        RequestV { method: self.method@, path: self.path@, headers: pairs_v(self.headers@), body: self.body@ }
    }
}

/// A response: status and JSON body.
pub struct Resp {
    pub status: u16,
    pub body: Json,
}

pub open spec fn resp_v(r: Resp) -> (u16, JsonV) {
    (r.status, jv(r.body))
}

/// An error response.
pub open spec fn error_resp(status: u16, msg: Seq<char>) -> (u16, JsonV) {
    (status, JsonV::Obj(seq![("error"@, jtext(msg))]))
}

pub open spec fn ok_resp(body: JsonV) -> (u16, JsonV) {
    (200, body)
}

/// The reason phrase of a status code.
pub open spec fn status_text_v(code: u16) -> Seq<char> {
    if code == 200 {
        "OK"@
    } else if code == 201 {
        "Created"@
    } else if code == 204 {
        "No Content"@
    } else if code == 400 {
        "Bad Request"@
    } else if code == 401 {
        "Unauthorized"@
    } else if code == 404 {
        "Not Found"@
    } else if code == 405 {
        "Method Not Allowed"@
    } else if code == 409 {
        "Conflict"@
    } else {
        "Internal Server Error"@
    }
}

/// ASCII case folding of a text.
pub open spec fn ascii_fold(s: Seq<char>) -> Seq<char> {
    s.map_values(|c: char| ascii_lower(c))
}

/// The value of the first header named `name`, ignoring ASCII case.
pub open spec fn header_v(headers: Seq<(Seq<char>, Seq<char>)>, name: Seq<char>) -> Option<Seq<char>>
    decreases headers.len(),
{
    if headers.len() == 0 {
        None
    } else if ascii_fold(headers[0].0) == ascii_fold(name) {
        Some(headers[0].1)
    } else {
        header_v(headers.drop_first(), name)
    }
}

/// Whether the request carries `Authorization: Bearer <key>`.
pub open spec fn authorized_v(req: RequestV, key: Seq<char>) -> bool {
    match header_v(req.headers, "authorization"@) {
        Some(v) => v.len() >= 7 && v.take(7) == "Bearer "@ && trim(v.skip(7)) == key,
        None => false,
    }
}

/// How a library error is answered.
pub open spec fn store_err_v(e: ErrV) -> (u16, JsonV) {
    match e {
        ErrV::NotFound(id) => error_resp(404, "not found: "@ + id),
        ErrV::Invalid(m) => error_resp(400, m),
        ErrV::Parse(f, m) => error_resp(500, "cannot parse "@ + f + ": "@ + m),
        ErrV::Io(m) => error_resp(500, "io error: "@ + m),
    }
}

/// The request body as JSON: an empty object for an empty body.
pub open spec fn body_json_v(body: Seq<u8>) -> Result<JsonV, (u16, JsonV)> {
    if body.len() == 0 {
        Ok(JsonV::Obj(seq![]))
    } else if !valid_utf8(body) {
        Err(error_resp(400, "body is not valid UTF-8"@))
    } else {
        match parse_spec(decode_utf8(body)) {
            None => Err(error_resp(400, "invalid JSON: "@ + parse_error(decode_utf8(body)))),
            Some(v) => Ok(v),
        }
    }
}

/// The string items of member `key` when it is an array.
pub open spec fn str_list_arg(body: JsonV, key: Seq<char>) -> Option<Seq<Seq<char>>> {
    match jget(body, key) {
        Some(JsonV::Arr(a)) => Some(str_values(a)),
        _ => None,
    }
}

// ---------- paths ----------

/// Index of the first `c` in `s`.
pub open spec fn first_of(s: Seq<char>, c: char) -> Option<int>
    decreases s.len(),
{
    if s.len() == 0 {
        None
    } else if s[0] == c {
        Some(0)
    } else {
        match first_of(s.drop_first(), c) {
            Some(i) => Some(i + 1),
            None => None,
        }
    }
}

/// The path without its query.
pub open spec fn before_query(p: Seq<char>) -> Seq<char> {
    match first_of(p, '?') {
        Some(i) => p.take(i),
        None => p,
    }
}

/// `s` without leading `/`.
pub open spec fn trim_slash_start(s: Seq<char>) -> Seq<char>
    decreases s.len(),
{
    if s.len() > 0 && s[0] == '/' {
        trim_slash_start(s.drop_first())
    } else {
        s
    }
}

/// `s` without trailing `/`.
pub open spec fn trim_slash_end(s: Seq<char>) -> Seq<char>
    decreases s.len(),
{
    if s.len() > 0 && s.last() == '/' {
        trim_slash_end(s.drop_last())
    } else {
        s
    }
}

/// The pieces of `s` between `/` (one piece when there is none).
pub open spec fn split_slash(s: Seq<char>) -> Seq<Seq<char>>
    decreases s.len(),
{
    if s.len() == 0 {
        seq![seq![]]
    } else {
        let front = split_slash(s.drop_last());
        if s.last() == '/' {
            front.push(seq![])
        } else {
            front.update(front.len() - 1, front.last().push(s.last()))
        }
    }
}

/// The path segments a request is routed by.
pub open spec fn segments(path: Seq<char>) -> Seq<Seq<char>> {
    split_slash(trim_slash_end(trim_slash_start(before_query(path))))
}


// ---------- handlers ----------

pub open spec fn empty_obj() -> JsonV {
    JsonV::Obj(seq![])
}

pub open spec fn list_prompts_v(l: LibraryV) -> (u16, JsonV) {
    match prompts_of(l) {
        Err(e) => store_err_v(e),
        Ok(ps) => ok_resp(prompts_json(ps)),
    }
}

pub open spec fn get_prompt_v(id: Seq<char>, l: LibraryV) -> (u16, JsonV) {
    match prompt_by_id(l, id) {
        Err(e) => store_err_v(e),
        Ok(p) => ok_resp(prompt_json(p)),
    }
}

/// `POST /prompts`: a new prompt from a non-blank (trimmed) title and the
/// content; recipes and a selection given along are saved right after.
pub open spec fn create_prompt_v(req: RequestV, l: LibraryV, stamp: Seq<char>, now: Seq<char>) -> (
    (u16, JsonV),
    LibraryV,
) {
    match body_json_v(req.body) {
        Err(r) => (r, l),
        Ok(body) => {
            let title = trim(or_empty(jget_str(body, "title"@)));
            if title.len() == 0 {
                (error_resp(400, "title is required"@), l)
            } else {
                let (c, l2) = create_prompt_spec(l, prefixed_id("p"@, stamp), now, title, or_empty(jget_str(body, "content"@)));
                match c {
                    Err(e) => (store_err_v(e), l2),
                    Ok(p) => {
                        let rs = str_list_arg(body, "recipes"@);
                        let sel = jget_str(body, "selected_recipe"@);
                        if rs is None && sel is None {
                            ((201, prompt_json(p)), l2)
                        } else {
                            let p2 = PromptV {
                                recipes: match rs {
                                    Some(x) => x,
                                    None => p.recipes,
                                },
                                selected_recipe: match sel {
                                    Some(x) => Some(x),
                                    None => p.selected_recipe,
                                },
                                ..p
                            };
                            let (s2, l3) = save_prompt_spec(l2, now, p2);
                            match s2 {
                                Err(e) => (store_err_v(e), l3),
                                Ok(q) => ((201, prompt_json(q)), l3),
                            }
                        }
                    },
                }
            }
        },
    }
}

/// `PUT /prompts/{id}`: the given fields replace the stored ones (a title
/// must not be blank; a non-string selection clears it).
pub open spec fn update_prompt_v(id: Seq<char>, req: RequestV, l: LibraryV, now: Seq<char>) -> (
    (u16, JsonV),
    LibraryV,
) {
    match body_json_v(req.body) {
        Err(r) => (r, l),
        Ok(body) => match prompt_by_id(l, id) {
            Err(e) => (store_err_v(e), l),
            Ok(p) => {
                let t = jget_str(body, "title"@);
                if t is Some && trim(t->0).len() == 0 {
                    (error_resp(400, "title must not be empty"@), l)
                } else {
                    let p2 = PromptV {
                        title: match t {
                            Some(x) => x,
                            None => p.title,
                        },
                        content: match jget_str(body, "content"@) {
                            Some(x) => x,
                            None => p.content,
                        },
                        recipes: match str_list_arg(body, "recipes"@) {
                            Some(x) => x,
                            None => p.recipes,
                        },
                        selected_recipe: match jget(body, "selected_recipe"@) {
                            Some(v) => jstr(v),
                            None => p.selected_recipe,
                        },
                        ..p
                    };
                    let (s2, l2) = save_prompt_spec(l, now, p2);
                    match s2 {
                        Err(e) => (store_err_v(e), l2),
                        Ok(q) => (ok_resp(prompt_json(q)), l2),
                    }
                }
            },
        },
    }
}

pub open spec fn delete_prompt_v(id: Seq<char>, l: LibraryV) -> ((u16, JsonV), LibraryV) {
    let (r, l2) = delete_prompt_spec(l, id);
    match r {
        Err(e) => (store_err_v(e), l2),
        Ok(_) => (ok_resp(empty_obj()), l2),
    }
}

/// `PUT /prompts/order`.
pub open spec fn set_order_v(req: RequestV, l: LibraryV) -> ((u16, JsonV), LibraryV) {
    match body_json_v(req.body) {
        Err(r) => (r, l),
        Ok(body) => {
            let ids = match str_list_arg(body, "prompts"@) {
                Some(x) => x,
                None => seq![],
            };
            let (r, l2) = reorder_spec(l, ids);
            match r {
                Err(e) => (store_err_v(e), l2),
                Ok(o) => (ok_resp(JsonV::Obj(seq![("prompts"@, JsonV::Arr(strs_json(o)))])), l2),
            }
        },
    }
}

/// `POST /prompts/{id}/render`: with the recipe `recipe_id` (if a string)
/// and the string members of `overrides`.
pub open spec fn render_v(id: Seq<char>, req: RequestV, l: LibraryV) -> (u16, JsonV) {
    match body_json_v(req.body) {
        Err(r) => r,
        Ok(body) => {
            let rid = match jget(body, "recipe_id"@) {
                Some(v) => jstr(v),
                None => None,
            };
            let ov = match jget(body, "overrides"@) {
                Some(JsonV::Obj(m)) => str_members(m),
                _ => seq![],
            };
            match render_prompt_spec(l, id, rid, ov) {
                Err(e) => store_err_v(e),
                Ok(out) => ok_resp(rendered_json(out.0, out.1)),
            }
        },
    }
}

pub open spec fn get_recipe_v(id: Seq<char>, l: LibraryV) -> (u16, JsonV) {
    match recipe_by_id(l, id) {
        Err(e) => store_err_v(e),
        Ok(r) => ok_resp(recipe_json(r)),
    }
}

/// `POST /recipes`: a new recipe from a non-blank (trimmed) name; values
/// given along are saved right after, and when that fails the new recipe
/// is deleted again.
pub open spec fn create_recipe_v(req: RequestV, l: LibraryV, stamp: Seq<char>, now: Seq<char>) -> (
    (u16, JsonV),
    LibraryV,
) {
    match body_json_v(req.body) {
        Err(r) => (r, l),
        Ok(body) => {
            let name = trim(or_empty(jget_str(body, "name"@)));
            if name.len() == 0 {
                (error_resp(400, "name is required"@), l)
            } else {
                let (c, l2) = create_recipe_spec(l, prefixed_id("r"@, stamp), now, name);
                match c {
                    Err(e) => (store_err_v(e), l2),
                    Ok(r) => match values_arg(body) {
                        None => ((201, recipe_json(r)), l2),
                        Some(vals) => {
                            let (s2, l3) = save_recipe_spec(l2, now, RecipeV { values: vals, ..r });
                            match s2 {
                                Ok(r2) => ((201, recipe_json(r2)), l3),
                                Err(e) => (store_err_v(e), delete_recipe_spec(l3, r.id).1),
                            }
                        },
                    },
                }
            }
        },
    }
}

/// `PUT /recipes/{id}`: the given name (not blank) and values replace the
/// stored ones.
pub open spec fn update_recipe_v(id: Seq<char>, req: RequestV, l: LibraryV, now: Seq<char>) -> (
    (u16, JsonV),
    LibraryV,
) {
    match body_json_v(req.body) {
        Err(r) => (r, l),
        Ok(body) => match recipe_by_id(l, id) {
            Err(e) => (store_err_v(e), l),
            Ok(r) => {
                let n = jget_str(body, "name"@);
                if n is Some && trim(n->0).len() == 0 {
                    (error_resp(400, "name must not be empty"@), l)
                } else {
                    let r2 = RecipeV {
                        name: match n {
                            Some(x) => x,
                            None => r.name,
                        },
                        values: match values_arg(body) {
                            Some(v) => v,
                            None => r.values,
                        },
                        ..r
                    };
                    let (s2, l2) = save_recipe_spec(l, now, r2);
                    match s2 {
                        Err(e) => (store_err_v(e), l2),
                        Ok(x) => (ok_resp(recipe_json(x)), l2),
                    }
                }
            },
        },
    }
}

pub open spec fn delete_recipe_v(id: Seq<char>, l: LibraryV) -> ((u16, JsonV), LibraryV) {
    let (r, l2) = delete_recipe_spec(l, id);
    match r {
        Err(e) => (store_err_v(e), l2),
        Ok(t) => (ok_resp(JsonV::Obj(seq![("removed_from_prompts"@, JsonV::Arr(strs_json(t)))])), l2),
    }
}

pub open spec fn list_variables_v(l: LibraryV) -> (u16, JsonV) {
    match reconciled(l) {
        Err(e) => store_err_v(e),
        Ok(names) => ok_resp(
            JsonV::Arr(
                variable_table(names, recipes_of(l)).map_values(
                    |e: (Seq<char>, Seq<(Seq<char>, Seq<char>, Seq<char>)>)| var_json(e),
                ),
            ),
        ),
    }
}

/// The handler for method `m` and the segments after `api/v1`.
pub open spec fn dispatch_v(
    m: Seq<char>,
    rest: Seq<Seq<char>>,
    req: RequestV,
    l: LibraryV,
    stamp: Seq<char>,
    now: Seq<char>,
) -> ((u16, JsonV), LibraryV) {
    if m == "GET"@ && rest == seq!["prompts"@] {
        (list_prompts_v(l), l)
    } else if m == "POST"@ && rest == seq!["prompts"@] {
        create_prompt_v(req, l, stamp, now)
    } else if m == "PUT"@ && rest == seq!["prompts"@, "order"@] {
        set_order_v(req, l)
    } else if m == "GET"@ && rest.len() == 2 && rest[0] == "prompts"@ {
        (get_prompt_v(rest[1], l), l)
    } else if m == "PUT"@ && rest.len() == 2 && rest[0] == "prompts"@ {
        update_prompt_v(rest[1], req, l, now)
    } else if m == "DELETE"@ && rest.len() == 2 && rest[0] == "prompts"@ {
        delete_prompt_v(rest[1], l)
    } else if m == "POST"@ && rest.len() == 3 && rest[0] == "prompts"@ && rest[2] == "render"@ {
        (render_v(rest[1], req, l), l)
    } else if m == "GET"@ && rest == seq!["recipes"@] {
        match l.recipes_error {
            Some(m) => (store_err_v(ErrV::Io(m)), l),
            None => (ok_resp(recipes_json(recipes_of(l))), l),
        }
    } else if m == "POST"@ && rest == seq!["recipes"@] {
        create_recipe_v(req, l, stamp, now)
    } else if m == "GET"@ && rest.len() == 2 && rest[0] == "recipes"@ {
        (get_recipe_v(rest[1], l), l)
    } else if m == "PUT"@ && rest.len() == 2 && rest[0] == "recipes"@ {
        update_recipe_v(rest[1], req, l, now)
    } else if m == "DELETE"@ && rest.len() == 2 && rest[0] == "recipes"@ {
        delete_recipe_v(rest[1], l)
    } else if m == "GET"@ && rest == seq!["variables"@] {
        (list_variables_v(l), l)
    } else if m == "GET"@ || m == "POST"@ || m == "PUT"@ || m == "DELETE"@ {
        (error_resp(404, "unknown path"@), l)
    } else {
        (error_resp(405, "method not allowed"@), l)
    }
}

/// A request's response and the library after it. `OPTIONS` is answered
/// without authentication; anything else needs the API key.
pub open spec fn route_v(req: RequestV, key: Seq<char>, l: LibraryV, stamp: Seq<char>, now: Seq<char>) -> (
    (u16, JsonV),
    LibraryV,
) {
    if req.method == "OPTIONS"@ {
        ((204, empty_obj()), l)
    } else if !authorized_v(req, key) {
        (error_resp(401, "missing or invalid API key"@), l)
    } else {
        match l.open_error {
            Some(m) => (store_err_v(ErrV::Io(m)), l),
            None => {
                let segs = segments(req.path);
                if segs.len() < 3 || segs[0] != "api"@ || segs[1] != "v1"@ {
                    (error_resp(404, "unknown path"@), l)
                } else {
                    dispatch_v(req.method, segs.skip(2), req, l, stamp, now)
                }
            },
        }
    }
}


// ---------- requests and responses ----------

/// std's `str::from_utf8`: the text that a byte string encodes, when it is
/// valid UTF-8.
#[verifier::external_body]
fn utf8_text(bytes: &[u8]) -> (r: Option<String>)
    ensures
        match r {
            Some(s) => valid_utf8(bytes@) && s@ == decode_utf8(bytes@),
            None => !valid_utf8(bytes@),
        },
{
    match std::str::from_utf8(bytes) {
        Ok(s) => Some(s.to_string()),
        Err(_) => None,
    }
}

/// Whether two texts are equal ignoring ASCII case (std's
/// `str::eq_ignore_ascii_case`).
pub fn eq_ignore_ascii_case(a: &str, b: &str) -> (r: bool)
    ensures
        r == (ascii_fold(a@) == ascii_fold(b@)),
{
    let x = chars_of(a);
    let y = chars_of(b);
    if x.len() != y.len() {
        proof {
            if ascii_fold(a@) == ascii_fold(b@) {
                assert(ascii_fold(a@).len() == ascii_fold(b@).len());
            }
        }
        return false;
    }
    let n = x.len();
    let mut i: usize = 0;
    while i < n
        invariant
            n == x@.len(),
            n == y@.len(),
            x@ == a@,
            y@ == b@,
            i <= n,
            forall|j: int| 0 <= j < i ==> #[trigger] ascii_fold(a@)[j] == ascii_fold(b@)[j],
        decreases n - i,
    {
        if crate::util::ascii_lower_exec(x[i]) != crate::util::ascii_lower_exec(y[i]) {
            proof {
                assert(ascii_fold(a@)[i as int] != ascii_fold(b@)[i as int]);
            }
            return false;
        }
        i = i + 1;
    }
    assert(ascii_fold(a@) =~= ascii_fold(b@));
    true
}

/// Compares two texts in time that depends on their length only.
pub fn constant_time_eq(a: &str, b: &str) -> (r: bool)
    ensures
        r == (a@ == b@),
{
    let x = a.as_bytes();
    let y = b.as_bytes();
    proof {
        vstd::utf8::encode_utf8_decode_utf8(a@);
        vstd::utf8::encode_utf8_decode_utf8(b@);
    }
    if x.len() != y.len() {
        return false;
    }
    let n = x.len();
    let mut diff: u8 = 0;
    let mut i: usize = 0;
    while i < n
        invariant
            n == x@.len(),
            n == y@.len(),
            i <= n,
            (diff == 0) == (forall|j: int| 0 <= j < i ==> #[trigger] x@[j] == y@[j]),
        decreases n - i,
    {
        let u = x[i];
        let v = y[i];
        let nd = diff | (u ^ v);
        assert(nd == 0 <==> (diff == 0 && u == v)) by (bit_vector)
            requires
                nd == diff | (u ^ v),
        ;
        diff = nd;
        proof {
            if diff == 0 {
                assert forall|j: int| 0 <= j < i + 1 implies #[trigger] x@[j] == y@[j] by {
                    if j < i {
                    }
                }
            }
        }
        i = i + 1;
    }
    proof {
        if diff == 0 {
            assert(x@ =~= y@);
        } else {
            if a@ == b@ {
                assert(forall|j: int| 0 <= j < n ==> #[trigger] x@[j] == y@[j]);
            }
        }
    }
    diff == 0
}

/// The reason phrase of a status code.
pub fn status_text(code: u16) -> (r: &'static str)
    ensures
        r@ == status_text_v(code),
{
    if code == 200 {
        "OK"
    } else if code == 201 {
        "Created"
    } else if code == 204 {
        "No Content"
    } else if code == 400 {
        "Bad Request"
    } else if code == 401 {
        "Unauthorized"
    } else if code == 404 {
        "Not Found"
    } else if code == 405 {
        "Method Not Allowed"
    } else if code == 409 {
        "Conflict"
    } else {
        "Internal Server Error"
    }
}

impl Request {
    /// A request without headers, for tests.
    pub fn test(method: &str, path: &str, body: &str) -> (r: Request)
        ensures
            r@ == (RequestV { method: method@, path: path@, headers: seq![], body: encode_utf8(body@) }),
    {
        let r = Request {
            method: copy_string(method),
            path: copy_string(path),
            headers: Vec::new(),
            body: body.as_bytes_vec(),
        };
        assert(pairs_v(r.headers@) =~= seq![]);
        r
    }

    /// The request with `Authorization: Bearer <key>` added.
    pub fn with_auth(self, key: &str) -> (r: Request)
        ensures
            r@ == (RequestV {
                headers: self@.headers.push(("Authorization"@, "Bearer "@ + key@)),
                ..self@
            }),
    {
        let mut me = self;
        let mut v: Vec<char> = Vec::new();
        crate::text::extend_str(&mut v, "Bearer ");
        crate::text::extend_str(&mut v, key);
        let ghost before = pairs_v(me.headers@);
        me.headers.push((copy_string("Authorization"), string_of(v.as_slice())));
        assert(pairs_v(me.headers@) =~= before.push(("Authorization"@, "Bearer "@ + key@)));
        me
    }

    /// The value of the first header with this name (ignoring ASCII case).
    pub fn header(&self, name: &str) -> (r: Option<String>)
        ensures
            match r {
                Some(v) => header_v(self@.headers, name@) == Some(v@),
                None => header_v(self@.headers, name@) is None,
            },
    {
        let ghost s = self@.headers;
        let n = self.headers.len();
        let mut i: usize = 0;
        assert(s.skip(0) =~= s);
        while i < n
            invariant
                n == self.headers@.len(),
                i <= n,
                s == pairs_v(self.headers@),
                header_v(s, name@) == header_v(s.skip(i as int), name@),
            decreases n - i,
        {
            assert(s.skip(i as int)[0] == s[i as int]);
            assert(s.skip(i as int).drop_first() =~= s.skip(i + 1));
            if eq_ignore_ascii_case(self.headers[i].0.as_str(), name) {
                return Some(copy_string(self.headers[i].1.as_str()));
            }
            i = i + 1;
        }
        None
    }
}

fn error(status: u16, msg: &str) -> (r: Resp)
    ensures
        resp_v(r) == error_resp(status, msg@),
{
    let m = vec![pair("error", Json::str(msg))];
    proof {
        lemma_jv_pairs(m@);
        assert(jv_pairs(m@) =~= seq![("error"@, jtext(msg@))]);
    }
    Resp { status, body: members(m) }
}

fn ok(body: Json) -> (r: Resp)
    ensures
        resp_v(r) == ok_resp(jv(body)),
{
    Resp { status: 200, body }
}

fn empty_object() -> (r: Json)
    ensures
        jv(r) == empty_obj(),
{
    let m: Vec<(String, Json)> = Vec::new();
    assert(jv_pairs(m@) =~= seq![]);
    members(m)
}

/// The response for a library error.
pub fn store_err(e: StoreError) -> (r: Resp)
    ensures
        resp_v(r) == store_err_v(err_v(e)),
{
    let mut m: Vec<char> = Vec::new();
    match e {
        StoreError::NotFound(id) => {
            crate::text::extend_str(&mut m, "not found: ");
            crate::text::extend_str(&mut m, id.as_str());
            error(404, string_of(m.as_slice()).as_str())
        },
        StoreError::Invalid(x) => {
            error(400, x.as_str())
        },
        StoreError::Parse(f, x) => {
            crate::text::extend_str(&mut m, "cannot parse ");
            crate::text::extend_str(&mut m, f.as_str());
            crate::text::extend_str(&mut m, ": ");
            crate::text::extend_str(&mut m, x.as_str());
            error(500, string_of(m.as_slice()).as_str())
        },
        StoreError::Io(x) => {
            crate::text::extend_str(&mut m, "io error: ");
            crate::text::extend_str(&mut m, x.as_str());
            error(500, string_of(m.as_slice()).as_str())
        },
    }
}

/// The request body as JSON.
fn body_json(req: &Request) -> (r: Result<Json, Resp>)
    ensures
        match r {
            Ok(j) => body_json_v(req@.body) == Ok::<JsonV, (u16, JsonV)>(jv(j)),
            Err(x) => body_json_v(req@.body) == Err::<JsonV, (u16, JsonV)>(resp_v(x)),
        },
{
    if req.body.len() == 0 {
        return Ok(empty_object());
    }
    let text = match utf8_text(req.body.as_slice()) {
        Some(t) => t,
        None => {
            return Err(error(400, "body is not valid UTF-8"));
        },
    };
    match Json::parse(text.as_str()) {
        Ok(v) => Ok(v),
        Err(e) => {
            let mut m: Vec<char> = Vec::new();
            crate::text::extend_str(&mut m, "invalid JSON: ");
            crate::text::extend_str(&mut m, e.as_str());
            Err(error(400, string_of(m.as_slice()).as_str()))
        },
    }
}

/// The string items of member `key` when it is an array.
pub(crate) fn str_list(body: &Json, key: &str) -> (r: Option<Vec<String>>)
    ensures
        match r {
            Some(v) => str_list_arg(jv(*body), key@) == Some(views(v@)),
            None => str_list_arg(jv(*body), key@) is None,
        },
{
    match body.get(key) {
        Some(x) => match x.as_arr() {
            Some(a) => Some(crate::storage::strings_in(a)),
            None => None,
        },
        None => None,
    }
}

/// The string members of member `key` when it is an object.
fn str_members_of(body: &Json, key: &str) -> (r: Option<Vec<(String, String)>>)
    ensures
        match r {
            Some(v) => (jget(jv(*body), key@) matches Some(JsonV::Obj(m)) && pairs_v(v@) == str_members(m)),
            None => !(jget(jv(*body), key@) matches Some(JsonV::Obj(_))),
        },
{
    let m = match body.get(key) {
        Some(x) => match x.as_obj() {
            Some(m) => m,
            None => {
                return None;
            },
        },
        None => {
            return None;
        },
    };
    let ghost mm = jv_pairs(m@);
    proof {
        lemma_jv_pairs(m@);
    }
    let mut out: Vec<(String, String)> = Vec::new();
    let n = m.len();
    let mut i: usize = 0;
    while i < n
        invariant
            n == m@.len(),
            i <= n,
            mm == jv_pairs(m@),
            mm.len() == n,
            forall|q: int| 0 <= q < n ==> #[trigger] mm[q] == (m@[q].0@, jv(m@[q].1)),
            pairs_v(out@) == str_members(mm.take(i as int)),
        decreases n - i,
    {
        assert(mm.take(i + 1).drop_last() =~= mm.take(i as int));
        assert(mm.take(i + 1).last() == mm[i as int]);
        match m[i].1.as_str() {
            Some(t) => {
                let ghost before = pairs_v(out@);
                out.push((copy_string(m[i].0.as_str()), copy_string(t)));
                assert(pairs_v(out@) =~= before.push((m@[i as int].0@, t@)));
            },
            None => {},
        }
        i = i + 1;
    }
    assert(mm.take(n as int) =~= mm);
    Some(out)
}


// ---------- path segments ----------

proof fn lemma_first_of(s: Seq<char>, c: char, i: int)
    requires
        0 <= i <= s.len(),
        forall|j: int| 0 <= j < i ==> s[j] != c,
        i == s.len() || s[i] == c,
    ensures
        first_of(s, c) == (if i < s.len() {
            Some(i)
        } else {
            None::<int>
        }),
    decreases i,
{
    if i > 0 {
        lemma_first_of(s.drop_first(), c, i - 1);
    }
}

proof fn lemma_trim_slash_start(s: Seq<char>, a: int)
    requires
        0 <= a <= s.len(),
        forall|j: int| 0 <= j < a ==> s[j] == '/',
        a == s.len() || s[a] != '/',
    ensures
        trim_slash_start(s) == s.skip(a),
    decreases a,
{
    if a > 0 {
        lemma_trim_slash_start(s.drop_first(), a - 1);
        assert(s.drop_first().skip(a - 1) =~= s.skip(a));
    } else {
        assert(s.skip(0) =~= s);
    }
}

proof fn lemma_trim_slash_end(s: Seq<char>, b: int)
    requires
        0 <= b <= s.len(),
        forall|j: int| b <= j < s.len() ==> s[j] == '/',
        b == 0 || s[b - 1] != '/',
    ensures
        trim_slash_end(s) == s.take(b),
    decreases s.len() - b,
{
    if b < s.len() {
        lemma_trim_slash_end(s.drop_last(), b);
        assert(s.drop_last().take(b) =~= s.take(b));
    } else {
        assert(s.take(b) =~= s);
    }
}

fn segments_exec(path: &str) -> (r: Vec<String>)
    ensures
        views(r@) == segments(path@),
{
    let cs = chars_of(path);
    let n = cs.len();
    let mut end: usize = 0;
    while end < n && cs[end] != '?'
        invariant
            n == cs@.len(),
            end <= n,
            forall|j: int| 0 <= j < end ==> cs@[j] != '?',
        decreases n - end,
    {
        end = end + 1;
    }
    proof {
        lemma_first_of(cs@, '?', end as int);
    }
    let ghost q = before_query(path@);
    assert(q =~= cs@.take(end as int));
    let mut a: usize = 0;
    while a < end && cs[a] == '/'
        invariant
            end <= n,
            n == cs@.len(),
            a <= end,
            forall|j: int| 0 <= j < a ==> cs@[j] == '/',
        decreases end - a,
    {
        a = a + 1;
    }
    proof {
        lemma_trim_slash_start(q, a as int);
    }
    let ghost t1 = q.skip(a as int);
    let mut b: usize = end;
    while b > a && cs[b - 1] == '/'
        invariant
            end <= n,
            n == cs@.len(),
            a <= b <= end,
            forall|j: int| b <= j < end ==> cs@[j] == '/',
        decreases b,
    {
        b = b - 1;
    }
    proof {
        lemma_trim_slash_end(t1, b - a);
    }
    let ghost t = cs@.subrange(a as int, b as int);
    assert(t =~= t1.take(b - a));
    let mut out: Vec<String> = Vec::new();
    let mut cur: Vec<char> = Vec::new();
    let mut i: usize = a;
    assert(t.take(0) =~= seq![]);
    assert(views(out@) =~= split_slash(t.take(0)).drop_last());
    while i < b
        invariant
            a <= i <= b,
            b <= n,
            n == cs@.len(),
            t == cs@.subrange(a as int, b as int),
            split_slash(t.take(i - a)).len() >= 1,
            views(out@) == split_slash(t.take(i - a)).drop_last(),
            cur@ == split_slash(t.take(i - a)).last(),
        decreases b - i,
    {
        let ghost pre = split_slash(t.take(i - a));
        assert(t.take(i + 1 - a).drop_last() =~= t.take(i - a));
        assert(t.take(i + 1 - a).last() == cs@[i as int]);
        if cs[i] == '/' {
            let ghost before = views(out@);
            out.push(string_of(cur.as_slice()));
            cur = Vec::new();
            assert(views(out@) =~= before.push(pre.last()));
            assert(pre.push(seq![]).drop_last() =~= pre);
            assert(views(out@) =~= pre.push(seq![]).drop_last());
        } else {
            cur.push(cs[i]);
            let ghost post = pre.update(pre.len() - 1, pre.last().push(cs@[i as int]));
            assert(post.drop_last() =~= pre.drop_last());
        }
        i = i + 1;
    }
    assert(t.take(b - a) =~= t);
    let ghost fin = split_slash(t);
    let ghost before = views(out@);
    out.push(string_of(cur.as_slice()));
    assert(views(out@) =~= before.push(fin.last()));
    assert(fin =~= fin.drop_last().push(fin.last()));
    out
}


// ---------- handler implementations ----------

fn h_list_prompts(lib: &Library) -> (r: Resp)
    ensures
        resp_v(r) == list_prompts_v(lib@),
{
    match lib.list_prompts() {
        Ok(ps) => {
            ok(prompts_to_json(&ps))
        },
        Err(e) => store_err(e),
    }
}

fn h_get_prompt(lib: &Library, id: &str) -> (r: Resp)
    ensures
        resp_v(r) == get_prompt_v(id@, lib@),
{
    match lib.get_prompt(id) {
        Ok(p) => {
            ok(p.to_json())
        },
        Err(e) => store_err(e),
    }
}

fn h_create_prompt(lib: &mut Library, req: &Request, stamp: &str, now: &str) -> (r: Resp)
    ensures
        (resp_v(r), final(lib)@) == create_prompt_v(req@, old(lib)@, stamp@, now@),
{
    let b = body_json(req);
    let body = match b {
        Ok(x) => x,
        Err(resp) => {
            return resp;
        },
    };
    let title = match body.get_str("title") {
        Some(t) => trim_str(t),
        None => trim_str(""),
    };
    proof {
        reveal_strlit("");
        assert(""@ =~= seq![]);
    }
    if chars_of(title.as_str()).len() == 0 {
        return error(400, "title is required");
    }
    let content = match body.get_str("content") {
        Some(c) => copy_string(c),
        None => String::new(),
    };
    let id = prefixed("p", stamp);
    let p = match lib.create_prompt(id.as_str(), now, title.as_str(), content.as_str()) {
        Ok(p) => p,
        Err(e) => {
            return store_err(e);
        },
    };
    let rs = str_list(&body, "recipes");
    let sel = match body.get_str("selected_recipe") {
        Some(x) => Some(copy_string(x)),
        None => None,
    };
    if rs.is_none() && sel.is_none() {
        return Resp { status: 201, body: p.to_json() };
    }
    let mut p2 = crate::storage::copy_prompt(&p);
    match rs {
        Some(v) => {
            p2.recipes = v;
        },
        None => {},
    }
    match sel {
        Some(x) => {
            p2.selected_recipe = Some(x);
        },
        None => {},
    }
    match lib.save_prompt(now, &p2) {
        Ok(q) => Resp { status: 201, body: q.to_json() },
        Err(e) => store_err(e),
    }
}

fn h_update_prompt(lib: &mut Library, id: &str, req: &Request, now: &str) -> (r: Resp)
    ensures
        (resp_v(r), final(lib)@) == update_prompt_v(id@, req@, old(lib)@, now@),
{
    let b = body_json(req);
    let body = match b {
        Ok(x) => x,
        Err(resp) => {
            return resp;
        },
    };
    let mut p = match lib.get_prompt(id) {
        Ok(p) => p,
        Err(e) => {
            return store_err(e);
        },
    };
    match body.get_str("title") {
        Some(t) => {
            let tt = trim_str(t);
            if chars_of(tt.as_str()).len() == 0 {
                return error(400, "title must not be empty");
            }
            p.title = copy_string(t);
        },
        None => {},
    }
    match body.get_str("content") {
        Some(c) => {
            p.content = copy_string(c);
        },
        None => {},
    }
    match str_list(&body, "recipes") {
        Some(v) => {
            p.recipes = v;
        },
        None => {},
    }
    match body.get("selected_recipe") {
        Some(v) => {
            p.selected_recipe = match v.as_str() {
                Some(x) => Some(copy_string(x)),
                None => None,
            };
        },
        None => {},
    }
    match lib.save_prompt(now, &p) {
        Ok(q) => ok(q.to_json()),
        Err(e) => store_err(e),
    }
}

fn h_delete_prompt(lib: &mut Library, id: &str) -> (r: Resp)
    ensures
        (resp_v(r), final(lib)@) == delete_prompt_v(id@, old(lib)@),
{
    match lib.delete_prompt(id) {
        Ok(_) => {
            ok(empty_object())
        },
        Err(e) => store_err(e),
    }
}

fn h_set_order(lib: &mut Library, req: &Request) -> (r: Resp)
    ensures
        (resp_v(r), final(lib)@) == set_order_v(req@, old(lib)@),
{
    let b = body_json(req);
    let body = match b {
        Ok(x) => x,
        Err(resp) => {
            return resp;
        },
    };
    let ids = match str_list(&body, "prompts") {
        Some(v) => v,
        None => {
            let v: Vec<String> = Vec::new();
            assert(views(v@) =~= seq![]);
            v
        },
    };
    match lib.reorder_prompts(&ids) {
        Ok(order) => {
            let m = vec![pair("prompts", strs_to_json(&order))];
            proof {
                lemma_jv_pairs(m@);
                assert(jv_pairs(m@) =~= seq![("prompts"@, JsonV::Arr(strs_json(views(order@))))]);
            }
            ok(members(m))
        },
        Err(e) => store_err(e),
    }
}

fn h_render(lib: &Library, id: &str, req: &Request) -> (r: Resp)
    ensures
        resp_v(r) == render_v(id@, req@, lib@),
{
    let b = body_json(req);
    let body = match b {
        Ok(x) => x,
        Err(resp) => {
            return resp;
        },
    };
    let rid = match body.get("recipe_id") {
        Some(v) => match v.as_str() {
            Some(x) => Some(copy_string(x)),
            None => None,
        },
        None => None,
    };
    let ov = match str_members_of(&body, "overrides") {
        Some(v) => v,
        None => {
            let v: Vec<(String, String)> = Vec::new();
            assert(pairs_v(v@) =~= seq![]);
            v
        },
    };
    let out = match &rid {
        Some(x) => lib.render_prompt(id, Some(x.as_str()), &ov),
        None => lib.render_prompt(id, None, &ov),
    };
    match out {
        Ok(o) => ok(rendered(o.text.as_str(), &o.missing)),
        Err(e) => store_err(e),
    }
}

fn h_get_recipe(lib: &Library, id: &str) -> (r: Resp)
    ensures
        resp_v(r) == get_recipe_v(id@, lib@),
{
    match lib.get_recipe(id) {
        Ok(x) => {
            ok(x.to_json())
        },
        Err(e) => store_err(e),
    }
}

fn h_create_recipe(lib: &mut Library, req: &Request, stamp: &str, now: &str) -> (r: Resp)
    ensures
        (resp_v(r), final(lib)@) == create_recipe_v(req@, old(lib)@, stamp@, now@),
{
    let b = body_json(req);
    let body = match b {
        Ok(x) => x,
        Err(resp) => {
            return resp;
        },
    };
    let name = match body.get_str("name") {
        Some(t) => trim_str(t),
        None => trim_str(""),
    };
    proof {
        reveal_strlit("");
        assert(""@ =~= seq![]);
    }
    if chars_of(name.as_str()).len() == 0 {
        return error(400, "name is required");
    }
    let id = prefixed("r", stamp);
    let r = match lib.create_recipe(id.as_str(), now, name.as_str()) {
        Ok(x) => x,
        Err(e) => {
            return store_err(e);
        },
    };
    match str_members_of(&body, "values") {
        None => Resp { status: 201, body: r.to_json() },
        Some(vals) => {
            let r2 = Recipe {
                id: copy_string(r.id.as_str()),
                name: copy_string(r.name.as_str()),
                updated: copy_string(r.updated.as_str()),
                values: vals,
                file_name: copy_string(r.file_name.as_str()),
            };
            match lib.save_recipe(now, &r2) {
                Ok(x) => Resp { status: 201, body: x.to_json() },
                Err(e) => {
                    let _ = lib.delete_recipe(r.id.as_str());
                    store_err(e)
                },
            }
        },
    }
}

fn h_update_recipe(lib: &mut Library, id: &str, req: &Request, now: &str) -> (r: Resp)
    ensures
        (resp_v(r), final(lib)@) == update_recipe_v(id@, req@, old(lib)@, now@),
{
    let b = body_json(req);
    let body = match b {
        Ok(x) => x,
        Err(resp) => {
            return resp;
        },
    };
    let mut r = match lib.get_recipe(id) {
        Ok(x) => x,
        Err(e) => {
            return store_err(e);
        },
    };
    match body.get_str("name") {
        Some(n) => {
            let t = trim_str(n);
            if chars_of(t.as_str()).len() == 0 {
                return error(400, "name must not be empty");
            }
            r.name = copy_string(n);
        },
        None => {},
    }
    match str_members_of(&body, "values") {
        Some(v) => {
            r.values = v;
        },
        None => {},
    }
    match lib.save_recipe(now, &r) {
        Ok(x) => ok(x.to_json()),
        Err(e) => store_err(e),
    }
}

fn h_delete_recipe(lib: &mut Library, id: &str) -> (r: Resp)
    ensures
        (resp_v(r), final(lib)@) == delete_recipe_v(id@, old(lib)@),
{
    match lib.delete_recipe(id) {
        Ok(affected) => {
            let m = vec![pair("removed_from_prompts", strs_to_json(&affected))];
            proof {
                lemma_jv_pairs(m@);
                assert(jv_pairs(m@) =~= seq![("removed_from_prompts"@, JsonV::Arr(strs_json(views(affected@))))]);
            }
            ok(members(m))
        },
        Err(e) => store_err(e),
    }
}

fn h_list_variables(lib: &Library) -> (r: Resp)
    ensures
        resp_v(r) == list_variables_v(lib@),
{
    let t = match lib.variables() {
        Ok(t) => t,
        Err(e) => {
            return store_err(e);
        },
    };
    ok(variables_json(&t))
}


// ---------- routing ----------

fn rest_is1(segs: &Vec<String>, a: &str) -> (r: bool)
    requires
        segs@.len() >= 2,
    ensures
        r == (views(segs@).skip(2) == seq![a@]),
{
    let ghost rest = views(segs@).skip(2);
    if segs.len() == 3 && str_eq(segs[2].as_str(), a) {
        assert(rest =~= seq![a@]);
        true
    } else {
        proof {
            if rest == seq![a@] {
                assert(rest.len() == 1);
                assert(rest[0] == segs@[2]@);
            }
        }
        false
    }
}

fn rest_is2(segs: &Vec<String>, a: &str, b: &str) -> (r: bool)
    requires
        segs@.len() >= 2,
    ensures
        r == (views(segs@).skip(2) == seq![a@, b@]),
{
    let ghost rest = views(segs@).skip(2);
    if segs.len() == 4 && str_eq(segs[2].as_str(), a) && str_eq(segs[3].as_str(), b) {
        assert(rest =~= seq![a@, b@]);
        true
    } else {
        proof {
            if rest == seq![a@, b@] {
                assert(rest.len() == 2);
                assert(rest[0] == segs@[2]@);
                assert(rest[1] == segs@[3]@);
            }
        }
        false
    }
}

fn bearer_matches(v: &str, key: &str) -> (r: bool)
    ensures
        r == (v@.len() >= 7 && v@.take(7) == "Bearer "@ && trim(v@.skip(7)) == key@),
{
    let cs = chars_of(v);
    let pre = chars_of("Bearer ");
    let n = cs.len();
    if n < 7 {
        return false;
    }
    if !crate::text::chars_eq_range(pre.as_slice(), cs.as_slice(), 0, 7) {
        assert(cs@.subrange(0, 7) =~= v@.take(7));
        return false;
    }
    assert(cs@.subrange(0, 7) =~= v@.take(7));
    let rest = crate::text::string_of_range(cs.as_slice(), 7, n);
    assert(rest@ =~= v@.skip(7));
    let t = trim_str(rest.as_str());
    constant_time_eq(t.as_str(), key)
}

/// Routes a request: `OPTIONS` is answered at once, anything else needs
/// the API key. A prompt it creates gets the id `p-<stamp>`, a recipe
/// `r-<stamp>`; `now` is their time stamp.
pub fn route(req: &Request, cfg: &ApiConfig, lib: &mut Library, stamp: &str, now: &str) -> (r: Resp)
    ensures
        route_v(req@, cfg.api_key@, old(lib)@, stamp@, now@) == (resp_v(r), final(lib)@),
{
    let ghost l0 = lib@;
    if str_eq(req.method.as_str(), "OPTIONS") {
        let r = Resp { status: 204, body: empty_object() };
        assert(route_v(req@, cfg.api_key@, l0, stamp@, now@) == (resp_v(r), lib@));
        return r;
    }
    let authorized = match req.header("authorization") {
        Some(v) => bearer_matches(v.as_str(), cfg.api_key.as_str()),
        None => false,
    };
    if !authorized {
        let r = error(401, "missing or invalid API key");
        assert(route_v(req@, cfg.api_key@, l0, stamp@, now@) == (resp_v(r), lib@));
        return r;
    }
    match lib.open_error() {
        Some(m) => {
            let r = store_err(StoreError::Io(m));
            assert(route_v(req@, cfg.api_key@, l0, stamp@, now@) == (resp_v(r), lib@));
            return r;
        },
        None => {},
    }
    let segs = segments_exec(req.path.as_str());
    if segs.len() < 3 || !str_eq(segs[0].as_str(), "api") || !str_eq(segs[1].as_str(), "v1") {
        let r = error(404, "unknown path");
        assert(route_v(req@, cfg.api_key@, l0, stamp@, now@) == (resp_v(r), lib@));
        return r;
    }
    let ghost rest = views(segs@).skip(2);
    let m = req.method.as_str();
    let n = segs.len();
    let r = if str_eq(m, "GET") && rest_is1(&segs, "prompts") {
        h_list_prompts(lib)
    } else if str_eq(m, "POST") && rest_is1(&segs, "prompts") {
        h_create_prompt(lib, req, stamp, now)
    } else if str_eq(m, "PUT") && rest_is2(&segs, "prompts", "order") {
        h_set_order(lib, req)
    } else if str_eq(m, "GET") && n == 4 && str_eq(segs[2].as_str(), "prompts") {
        h_get_prompt(lib, segs[3].as_str())
    } else if str_eq(m, "PUT") && n == 4 && str_eq(segs[2].as_str(), "prompts") {
        h_update_prompt(lib, segs[3].as_str(), req, now)
    } else if str_eq(m, "DELETE") && n == 4 && str_eq(segs[2].as_str(), "prompts") {
        h_delete_prompt(lib, segs[3].as_str())
    } else if str_eq(m, "POST") && n == 5 && str_eq(segs[2].as_str(), "prompts") && str_eq(segs[4].as_str(), "render") {
        h_render(lib, segs[3].as_str(), req)
    } else if str_eq(m, "GET") && rest_is1(&segs, "recipes") {
        match lib.list_recipes() {
            Ok(rs) => {
                ok(recipes_to_json(&rs))
            },
            Err(e) => store_err(e),
        }
    } else if str_eq(m, "POST") && rest_is1(&segs, "recipes") {
        h_create_recipe(lib, req, stamp, now)
    } else if str_eq(m, "GET") && n == 4 && str_eq(segs[2].as_str(), "recipes") {
        h_get_recipe(lib, segs[3].as_str())
    } else if str_eq(m, "PUT") && n == 4 && str_eq(segs[2].as_str(), "recipes") {
        h_update_recipe(lib, segs[3].as_str(), req, now)
    } else if str_eq(m, "DELETE") && n == 4 && str_eq(segs[2].as_str(), "recipes") {
        h_delete_recipe(lib, segs[3].as_str())
    } else if str_eq(m, "GET") && rest_is1(&segs, "variables") {
        h_list_variables(lib)
    } else if str_eq(m, "GET") || str_eq(m, "POST") || str_eq(m, "PUT") || str_eq(m, "DELETE") {
        error(404, "unknown path")
    } else {
        error(405, "method not allowed")
    };
    assert(route_v(req@, cfg.api_key@, l0, stamp@, now@) == (resp_v(r), lib@));
    r
}

// ---------- laws ----------

/// A preflight `OPTIONS` request is answered 204 with `{}` whatever its
/// headers, and changes nothing.
pub proof fn lemma_options_answered(
    req: RequestV,
    key: Seq<char>,
    l: LibraryV,
    stamp: Seq<char>,
    now: Seq<char>,
)
    requires
        req.method == "OPTIONS"@,
    ensures
        route_v(req, key, l, stamp, now) == ((204u16, empty_obj()), l),
{
}

/// Every other request without `Authorization: Bearer <key>` is answered
/// 401 and changes nothing.
pub proof fn lemma_unauthorized_refused(
    req: RequestV,
    key: Seq<char>,
    l: LibraryV,
    stamp: Seq<char>,
    now: Seq<char>,
)
    requires
        req.method != "OPTIONS"@,
        !authorized_v(req, key),
    ensures
        route_v(req, key, l, stamp, now) == (error_resp(401, "missing or invalid API key"@), l),
{
}

/// `GET /prompts/{id}` answers 200 exactly when the prompt is listed, with
/// its stored fields: its id, title, text, creation stamp and last-save
/// stamp as they stand in its file.
pub proof fn lemma_get_prompt_fields(id: Seq<char>, l: LibraryV)
    ensures
        (get_prompt_v(id, l).0 == 200) == (prompt_by_id(l, id) is Ok),
        prompt_by_id(l, id) matches Ok(p) ==> {
            let body = get_prompt_v(id, l).1;
            &&& jget_str(body, "id"@) == Some(p.id)
            &&& jget_str(body, "title"@) == Some(p.title)
            &&& jget_str(body, "content"@) == Some(p.content)
            &&& jget_str(body, "created"@) == Some(p.created)
            &&& jget_str(body, "updated"@) == Some(p.updated)
        },
{
    if let Ok(p) = prompt_by_id(l, id) {
        lemma_prompt_json_fields(p);
    }
}

/// `POST /recipes` answers 201 with the recipe it made and saved: its name
/// is the body's `name` trimmed (shown in the answer), and its values hold
/// each string member of a `values` object in the body under that
/// member's name (shown in the answer's `values`).
pub proof fn lemma_create_recipe_applies(req: RequestV, l: LibraryV, stamp: Seq<char>, now: Seq<char>)
    requires
        create_recipe_v(req, l, stamp, now).0.0 == 201,
    ensures
        body_json_v(req.body) is Ok,
        exists|x: RecipeV|
            #![trigger recipe_json(x)]
            {
                let body = body_json_v(req.body)->Ok_0;
                &&& create_recipe_v(req, l, stamp, now).0 == (201u16, recipe_json(x))
                &&& x.name == trim(or_empty(jget_str(body, "name"@)))
                &&& jget_str(recipe_json(x), "name"@) == Some(x.name)
                &&& (values_arg(body) matches Some(vs) ==> forall|i: int|
                    0 <= i < vs.len() ==> value_of(x.values, (#[trigger] vs[i]).0) == Some(vs[i].1) && jget(
                        recipe_json(x),
                        "values"@,
                    ) == Some(JsonV::Obj(crate::model::values_json(x.values))) && crate::json::members_get(
                        crate::model::values_json(x.values),
                        vs[i].0,
                    ) == Some(JsonV::Str(vs[i].1)))
            },
{
    let body = body_json_v(req.body)->Ok_0;
    let name = trim(or_empty(jget_str(body, "name"@)));
    let id = prefixed_id("r"@, stamp);
    lemma_create_recipe_gives(l, id, now, name);
    let (c, l2) = create_recipe_spec(l, id, now, name);
    let r = c->Ok_0;
    match values_arg(body) {
        None => {
            lemma_recipe_json_fields(r);
        },
        Some(vals) => {
            let u = RecipeV { values: vals, ..r };
            lemma_save_recipe_keeps_given(l2, now, u);
            let x = save_recipe_spec(l2, now, u).0->Ok_0;
            lemma_recipe_json_fields(x);
            assert forall|i: int| 0 <= i < vals.len() implies crate::json::members_get(
                crate::model::values_json(x.values),
                (#[trigger] vals[i]).0,
            ) == Some(JsonV::Str(vals[i].1)) by {
                crate::model::lemma_values_json_get(x.values, vals[i].0);
            }
        },
    }
}

/// `POST /prompts` answers 201 with the prompt it made: its title is the
/// body's `title` trimmed and its text the body's `content` (empty when
/// none is given), each shown in the answer beside its creation stamp.
pub proof fn lemma_create_prompt_applies(req: RequestV, l: LibraryV, stamp: Seq<char>, now: Seq<char>)
    requires
        create_prompt_v(req, l, stamp, now).0.0 == 201,
    ensures
        body_json_v(req.body) is Ok,
        exists|x: PromptV|
            #![trigger prompt_json(x)]
            {
                let body = body_json_v(req.body)->Ok_0;
                &&& create_prompt_v(req, l, stamp, now).0 == (201u16, prompt_json(x))
                &&& x.title == trim(or_empty(jget_str(body, "title"@)))
                &&& x.content == or_empty(jget_str(body, "content"@))
                &&& jget_str(prompt_json(x), "title"@) == Some(x.title)
                &&& jget_str(prompt_json(x), "content"@) == Some(x.content)
                &&& jget_str(prompt_json(x), "created"@) == Some(x.created)
            },
{
    let body = body_json_v(req.body)->Ok_0;
    let title = trim(or_empty(jget_str(body, "title"@)));
    let content = or_empty(jget_str(body, "content"@));
    let id = prefixed_id("p"@, stamp);
    lemma_create_prompt_gives(l, id, now, title, content);
    let (c, l2) = create_prompt_spec(l, id, now, title, content);
    let p = c->Ok_0;
    let rs = str_list_arg(body, "recipes"@);
    let sel = jget_str(body, "selected_recipe"@);
    if rs is None && sel is None {
        lemma_prompt_json_fields(p);
    } else {
        let u = PromptV {
            recipes: match rs {
                Some(x) => x,
                None => p.recipes,
            },
            selected_recipe: match sel {
                Some(x) => Some(x),
                None => p.selected_recipe,
            },
            ..p
        };
        lemma_save_prompt_keeps_given(l2, now, u);
        let x = save_prompt_spec(l2, now, u).0->Ok_0;
        lemma_prompt_json_fields(x);
    }
}

/// `PUT /recipes/{id}` saves the recipe with the name and values its body
/// gives and answers with what it saved: on a 200 answer the body is JSON,
/// the answer is the JSON form of the recipe that `save_recipe` wrote under
/// `id`, a string `name` member of the body is that recipe's name (and the
/// answer's `name`), and each string member of a `values` object in the
/// body is its value under that member's name (in the saved recipe and in
/// the answer's `values`).
pub proof fn lemma_update_recipe_applies(id: Seq<char>, req: RequestV, l: LibraryV, now: Seq<char>)
    requires
        update_recipe_v(id, req, l, now).0.0 == 200,
    ensures
        body_json_v(req.body) is Ok,
        exists|u: RecipeV, x: RecipeV|
            #![trigger save_recipe_spec(l, now, u), recipe_json(x)]
            {
                let body = body_json_v(req.body)->Ok_0;
                &&& save_recipe_spec(l, now, u) == (Ok::<RecipeV, ErrV>(x), update_recipe_v(id, req, l, now).1)
                &&& update_recipe_v(id, req, l, now).0 == ok_resp(recipe_json(x))
                &&& x.id == id
                &&& (jget_str(body, "name"@) matches Some(n) ==> x.name == n && jget_str(recipe_json(x), "name"@) == Some(n))
                &&& (values_arg(body) matches Some(vs) ==> forall|i: int|
                    0 <= i < vs.len() ==> value_of(x.values, (#[trigger] vs[i]).0) == Some(vs[i].1) && jget(
                        recipe_json(x),
                        "values"@,
                    ) == Some(JsonV::Obj(crate::model::values_json(x.values))) && crate::json::members_get(
                        crate::model::values_json(x.values),
                        vs[i].0,
                    ) == Some(JsonV::Str(vs[i].1)))
            },
{
    let body = body_json_v(req.body)->Ok_0;
    let r = recipe_by_id(l, id)->Ok_0;
    crate::storage::lemma_find_recipe_found(recipes_of(l), id);
    let u = RecipeV {
        name: match jget_str(body, "name"@) {
            Some(n) => n,
            None => r.name,
        },
        values: match values_arg(body) {
            Some(v) => v,
            None => r.values,
        },
        ..r
    };
    lemma_save_recipe_keeps_given(l, now, u);
    let x = save_recipe_spec(l, now, u).0->Ok_0;
    lemma_recipe_json_fields(x);
    if let Some(vs) = values_arg(body) {
        assert forall|i: int| 0 <= i < vs.len() implies crate::json::members_get(
            crate::model::values_json(x.values),
            (#[trigger] vs[i]).0,
        ) == Some(JsonV::Str(vs[i].1)) by {
            crate::model::lemma_values_json_get(x.values, vs[i].0);
        }
    }
    assert(save_recipe_spec(l, now, u) == (Ok::<RecipeV, ErrV>(x), update_recipe_v(id, req, l, now).1));
}

/// `PUT /prompts/{id}` saves the prompt with the title and body text its
/// request body gives and answers with what it saved: on a 200 answer the
/// answer is the JSON form of the prompt that `save_prompt` wrote under
/// `id`, a string `title` or `content` member is that prompt's title or
/// text, and its `created` stamp is the one the prompt had before (or the
/// save's time when it had none).
pub proof fn lemma_update_prompt_applies(id: Seq<char>, req: RequestV, l: LibraryV, now: Seq<char>)
    requires
        update_prompt_v(id, req, l, now).0.0 == 200,
    ensures
        body_json_v(req.body) is Ok,
        exists|u: PromptV, x: PromptV|
            #![trigger save_prompt_spec(l, now, u), prompt_json(x)]
            {
                let body = body_json_v(req.body)->Ok_0;
                &&& save_prompt_spec(l, now, u) == (Ok::<PromptV, ErrV>(x), update_prompt_v(id, req, l, now).1)
                &&& update_prompt_v(id, req, l, now).0 == ok_resp(prompt_json(x))
                &&& (jget_str(body, "title"@) matches Some(t) ==> x.title == t && jget_str(prompt_json(x), "title"@) == Some(t))
                &&& (jget_str(body, "content"@) matches Some(c) ==> x.content == c && jget_str(prompt_json(x), "content"@) == Some(c))
                &&& prompt_by_id(l, u.id) matches Ok(before) && x.created == (if before.created.len() == 0 {
                    now
                } else {
                    before.created
                })
                &&& jget_str(prompt_json(x), "created"@) == Some(x.created)
            },
{
    let body = body_json_v(req.body)->Ok_0;
    let p = prompt_by_id(l, id)->Ok_0;
    let u = PromptV {
        title: match jget_str(body, "title"@) {
            Some(x) => x,
            None => p.title,
        },
        content: match jget_str(body, "content"@) {
            Some(x) => x,
            None => p.content,
        },
        recipes: match str_list_arg(body, "recipes"@) {
            Some(x) => x,
            None => p.recipes,
        },
        selected_recipe: match jget(body, "selected_recipe"@) {
            Some(v) => jstr(v),
            None => p.selected_recipe,
        },
        ..p
    };
    lemma_save_prompt_keeps_given(l, now, u);
    let x = save_prompt_spec(l, now, u).0->Ok_0;
    lemma_prompt_json_fields(x);
    assert(save_prompt_spec(l, now, u) == (Ok::<PromptV, ErrV>(x), update_prompt_v(id, req, l, now).1));
}

/// A `GET` request never changes the library.
pub proof fn lemma_get_changes_nothing(
    req: RequestV,
    key: Seq<char>,
    l: LibraryV,
    stamp: Seq<char>,
    now: Seq<char>,
)
    requires
        req.method == "GET"@,
    ensures
        route_v(req, key, l, stamp, now).1 == l,
{
    reveal_strlit("GET");
    reveal_strlit("POST");
    reveal_strlit("PUT");
    reveal_strlit("DELETE");
    reveal_strlit("OPTIONS");
    assert("GET"@.len() != "OPTIONS"@.len());
    assert("GET"@.len() != "POST"@.len());
    assert("GET"@[0] != "PUT"@[0]);
    assert("GET"@.len() != "DELETE"@.len());
}

// ---------- the wire: reading a request, writing a response ----------

/// The white-space separated words of a line, as they pile up: the finished
/// words and the word being read.
pub open spec fn words_state(s: Seq<char>) -> (Seq<Seq<char>>, Seq<char>)
    decreases s.len(),
{
    if s.len() == 0 {
        (seq![], seq![])
    } else {
        let (d, c) = words_state(s.drop_last());
        if crate::yamlish::is_ws(s.last()) {
            if c.len() > 0 {
                (d.push(c), seq![])
            } else {
                (d, seq![])
            }
        } else {
            (d, c.push(s.last()))
        }
    }
}

/// The white-space separated words of a line (std's `str::split_whitespace`).
pub open spec fn words(s: Seq<char>) -> Seq<Seq<char>> {
    let (d, c) = words_state(s);
    if c.len() > 0 {
        d.push(c)
    } else {
        d
    }
}

/// Unicode upper case of a text (std's `str::to_uppercase`).
pub uninterp spec fn uppercase(s: Seq<char>) -> Seq<char>;

/// std's `str::to_uppercase`; its result is named `uppercase`.
#[verifier::external_body]
fn to_uppercase(s: &str) -> (r: String)
    ensures
        r@ == uppercase(s@),
{
    s.to_uppercase()
}

fn words_exec(s: &str) -> (r: Vec<String>)
    ensures
        views(r@) == words(s@),
{
    let cs = chars_of(s);
    let n = cs.len();
    let mut done: Vec<String> = Vec::new();
    let mut cur: Vec<char> = Vec::new();
    let mut i: usize = 0;
    while i < n
        invariant
            n == cs@.len(),
            cs@ == s@,
            i <= n,
            (views(done@), cur@) == words_state(cs@.take(i as int)),
        decreases n - i,
    {
        assert(cs@.take(i + 1).drop_last() =~= cs@.take(i as int));
        let c = cs[i];
        if crate::yamlish::is_ws_exec(c) {
            if cur.len() > 0 {
                let ghost before = views(done@);
                done.push(string_of(cur.as_slice()));
                assert(views(done@) =~= before.push(cur@));
                cur = Vec::new();
            } else {
                cur = Vec::new();
            }
            assert(cur@ =~= Seq::<char>::empty());
        } else {
            cur.push(c);
        }
        i = i + 1;
    }
    assert(cs@.take(n as int) =~= cs@);
    if cur.len() > 0 {
        let ghost before = views(done@);
        done.push(string_of(cur.as_slice()));
        assert(views(done@) =~= before.push(cur@));
    }
    done
}

/// What a request line gives: the method (upper-cased) and the path (`/`
/// when absent); nothing when the line has no method.
pub open spec fn request_line_v(line: Seq<char>) -> Option<(Seq<char>, Seq<char>)> {
    let w = words(line);
    if w.len() == 0 {
        None
    } else if uppercase(w[0]).len() == 0 {
        None
    } else {
        Some((uppercase(w[0]), if w.len() > 1 { w[1] } else { "/"@ }))
    }
}

/// Reads the first line of a request: the method (upper-cased) and the
/// path; `None` when the line holds no method.
pub fn request_line(line: &str) -> (r: Option<(String, String)>)
    ensures
        match r {
            Some((m, p)) => request_line_v(line@) == Some((m@, p@)),
            None => request_line_v(line@) is None,
        },
{
    let w = words_exec(line);
    if w.len() == 0 {
        return None;
    }
    let m = to_uppercase(w[0].as_str());
    if m.as_str().unicode_len() == 0 {
        return None;
    }
    let p = if w.len() > 1 {
        copy_string(w[1].as_str())
    } else {
        copy_string("/")
    };
    Some((m, p))
}

/// One line of the header block.
pub enum HeadLine {
    /// The blank line that ends the block.
    End,
    /// `name: value`, both trimmed.
    Field(String, String),
    /// A line without `:`, which is skipped.
    Other,
}

/// What a header line is: the end of the block when it is blank (after
/// trailing white space is dropped), else a field split at the first `:`.
pub open spec fn head_line_v(h: Seq<char>) -> Option<Option<(Seq<char>, Seq<char>)>> {
    let t = crate::yamlish::trim_end(h);
    if t.len() == 0 {
        None
    } else {
        match crate::yamlish::first_colon(t) {
            Some(i) => Some(Some((crate::yamlish::trim(t.take(i)), crate::yamlish::trim(t.skip(i + 1))))),
            None => Some(None),
        }
    }
}

pub open spec fn head_line_of(r: HeadLine) -> Option<Option<(Seq<char>, Seq<char>)>> {
    match r {
        HeadLine::End => None,
        HeadLine::Field(k, v) => Some(Some((k@, v@))),
        HeadLine::Other => Some(None),
    }
}

/// Reads one line of the header block.
pub fn head_line(h: &str) -> (r: HeadLine)
    ensures
        head_line_of(r) == head_line_v(h@),
{
    let cs = chars_of(h);
    let n = cs.len();
    let e = crate::yamlish::trim_end_bound(cs.as_slice(), 0, n);
    let ghost t = cs@.subrange(0, e as int);
    assert(cs@.subrange(0, n as int) =~= cs@);
    if e == 0 {
        return HeadLine::End;
    }
    let mut i: usize = 0;
    while i < e && cs[i] != ':'
        invariant
            e <= n,
            n == cs@.len(),
            i <= e,
            t == cs@.subrange(0, e as int),
            forall|j: int| 0 <= j < i ==> t[j] != ':',
        decreases e - i,
    {
        i = i + 1;
    }
    if i == e {
        proof {
            crate::yamlish::lemma_first_colon(t);
        }
        return HeadLine::Other;
    }
    proof {
        crate::yamlish::lemma_first_colon_at(t, i as int);
    }
    let (ka, kb) = crate::yamlish::trim_bounds(cs.as_slice(), 0, i);
    let (va, vb) = crate::yamlish::trim_bounds(cs.as_slice(), i + 1, e);
    assert(t.take(i as int) =~= cs@.subrange(0, i as int));
    assert(t.skip(i + 1) =~= cs@.subrange(i + 1, e as int));
    HeadLine::Field(
        crate::text::string_of_range(cs.as_slice(), ka, kb),
        crate::text::string_of_range(cs.as_slice(), va, vb),
    )
}

/// std's `usize::from_str`: an optional `+`, then one or more ASCII digits
/// whose value fits.
pub open spec fn parse_usize_v(s: Seq<char>) -> Option<int> {
    let d = unsigned_digits(s);
    if d.len() > 0 && all_digits(d) && crate::util::dec_val(d) <= usize::MAX {
        Some(crate::util::dec_val(d))
    } else {
        None
    }
}

/// The digits of an unsigned number: without one leading `+`.
pub open spec fn unsigned_digits(s: Seq<char>) -> Seq<char> {
    if s.len() > 0 && s[0] == '+' {
        s.drop_first()
    } else {
        s
    }
}

/// Only ASCII digits.
pub open spec fn all_digits(d: Seq<char>) -> bool {
    forall|i: int| 0 <= i < d.len() ==> '0' <= #[trigger] d[i] <= '9'
}

proof fn lemma_dec_val_nonneg(s: Seq<char>)
    requires
        forall|i: int| 0 <= i < s.len() ==> '0' <= #[trigger] s[i] <= '9',
    ensures
        crate::util::dec_val(s) >= 0,
    decreases s.len(),
{
    if s.len() > 0 {
        lemma_dec_val_nonneg(s.drop_last());
    }
}

proof fn lemma_dec_val_grows(s: Seq<char>, k: int)
    requires
        0 <= k <= s.len(),
        forall|i: int| 0 <= i < s.len() ==> '0' <= #[trigger] s[i] <= '9',
    ensures
        crate::util::dec_val(s.take(k)) <= crate::util::dec_val(s),
    decreases s.len() - k,
{
    if k < s.len() {
        lemma_dec_val_grows(s, k + 1);
        assert(s.take(k + 1).drop_last() =~= s.take(k));
        lemma_dec_val_nonneg(s.take(k));
        assert(s.take(k + 1).last() == s[k]);
    } else {
        assert(s.take(k) =~= s);
    }
}

/// Parses a decimal size as std's `usize::from_str` does.
pub fn parse_usize(s: &str) -> (r: Option<usize>)
    ensures
        match r {
            Some(v) => parse_usize_v(s@) == Some(v as int),
            None => parse_usize_v(s@) is None,
        },
{
    let cs = chars_of(s);
    let n = cs.len();
    let start: usize = if n > 0 && cs[0] == '+' { 1 } else { 0 };
    let ghost d = unsigned_digits(s@);
    assert(d =~= cs@.skip(start as int));
    if start == n {
        return None;
    }
    let mut v: usize = 0;
    let mut i: usize = start;
    while i < n
        invariant
            n == cs@.len(),
            start <= i <= n,
            d == cs@.skip(start as int),
            d == unsigned_digits(s@),
            forall|j: int| 0 <= j < i - start ==> '0' <= #[trigger] d[j] <= '9',
            v as int == crate::util::dec_val(d.take(i - start)),
        decreases n - i,
    {
        let c = cs[i];
        if !('0' <= c && c <= '9') {
            proof {
                assert(d[i - start] == c);
                assert(!('0' <= d[i - start] <= '9'));
                assert(!all_digits(d));
            }
            return None;
        }
        let dv = (c as u32 - '0' as u32) as usize;
        assert(d.take(i + 1 - start).drop_last() =~= d.take(i - start));
        assert(d.take(i + 1 - start).last() == c);
        match v.checked_mul(10) {
            Some(x) => match x.checked_add(dv) {
                Some(y) => {
                    v = y;
                },
                None => {
                    proof {
                        assert(crate::util::dec_val(d.take(i + 1 - start)) == v * 10 + dv);
                        if all_digits(d) {
                            lemma_dec_val_grows(d, i + 1 - start);
                        }
                    }
                    return None;
                },
            },
            None => {
                proof {
                    lemma_dec_val_nonneg(d.take(i - start));
                    if all_digits(d) {
                        lemma_dec_val_grows(d, i + 1 - start);
                    }
                }
                return None;
            },
        }
        i = i + 1;
    }
    assert(d.take(n - start) =~= d);
    Some(v)
}

/// The largest body a request may announce (10 MiB).
pub const MAX_BODY: usize = 10485760;

/// The body length a header block announces (`Content-Length`, 0 when
/// absent or not a number); `None` when it is over the limit and the
/// request is refused.
pub open spec fn body_length_v(headers: Seq<(Seq<char>, Seq<char>)>) -> Option<int> {
    let len = match header_v(headers, "content-length"@) {
        Some(v) => match parse_usize_v(v) {
            Some(n) => n,
            None => 0,
        },
        None => 0,
    };
    if len > MAX_BODY {
        None
    } else {
        Some(len)
    }
}

/// How many body bytes to read after these headers; `None` refuses an
/// oversized body.
pub fn body_length(headers: &Vec<(String, String)>) -> (r: Option<usize>)
    ensures
        match r {
            Some(v) => body_length_v(pairs_v(headers@)) == Some(v as int),
            None => body_length_v(pairs_v(headers@)) is None,
        },
{
    let req = Request { method: String::new(), path: String::new(), headers: copy_headers(headers), body: Vec::new() };
    let len: usize = match req.header("content-length") {
        Some(v) => match parse_usize(v.as_str()) {
            Some(n) => n,
            None => 0,
        },
        None => 0,
    };
    if len > MAX_BODY {
        None
    } else {
        Some(len)
    }
}

fn copy_headers(h: &Vec<(String, String)>) -> (r: Vec<(String, String)>)
    ensures
        pairs_v(r@) == pairs_v(h@),
{
    crate::model::copy_pairs(h)
}

/// Whether the connection stays open: unless it says `Connection: close`.
pub open spec fn keep_alive_v(req: RequestV) -> bool {
    match header_v(req.headers, "connection"@) {
        Some(c) => ascii_fold(c) != ascii_fold("close"@),
        None => true,
    }
}

/// Whether to keep the connection open after answering this request.
pub fn keep_alive(req: &Request) -> (r: bool)
    ensures
        r == keep_alive_v(req@),
{
    match req.header("connection") {
        Some(c) => !eq_ignore_ascii_case(c.as_str(), "close"),
        None => true,
    }
}

/// The head of a response: status line, the JSON and CORS headers, the
/// body length and the connection mode, then a blank line.
pub open spec fn response_head_v(status: u16, body_len: nat, keep: bool) -> Seq<char> {
    "HTTP/1.1 "@ + dec(status as nat) + " "@ + status_text_v(status)
        + "\r\nContent-Type: application/json; charset=utf-8\r\nContent-Length: "@ + dec(body_len)
        + "\r\nAccess-Control-Allow-Origin: *\r\nAccess-Control-Allow-Headers: Authorization, Content-Type\r\nAccess-Control-Allow-Methods: GET, POST, PUT, DELETE, OPTIONS\r\nConnection: "@
        + (if keep {
        "keep-alive"@
    } else {
        "close"@
    }) + "\r\n\r\n"@
}

/// Writes the head of a response with a body of `body_len` bytes.
pub fn response_head(status: u16, body_len: usize, keep: bool) -> (r: String)
    ensures
        r@ == response_head_v(status, body_len as nat, keep),
{
    let mut out: Vec<char> = Vec::new();
    crate::text::extend_str(&mut out, "HTTP/1.1 ");
    crate::util::push_dec(&mut out, status as u128);
    crate::text::extend_str(&mut out, " ");
    crate::text::extend_str(&mut out, status_text(status));
    crate::text::extend_str(&mut out, "\r\nContent-Type: application/json; charset=utf-8\r\nContent-Length: ");
    crate::util::push_dec(&mut out, body_len as u128);
    crate::text::extend_str(
        &mut out,
        "\r\nAccess-Control-Allow-Origin: *\r\nAccess-Control-Allow-Headers: Authorization, Content-Type\r\nAccess-Control-Allow-Methods: GET, POST, PUT, DELETE, OPTIONS\r\nConnection: ",
    );
    if keep {
        crate::text::extend_str(&mut out, "keep-alive");
    } else {
        crate::text::extend_str(&mut out, "close");
    }
    crate::text::extend_str(&mut out, "\r\n\r\n");
    assert(out@ =~= response_head_v(status, body_len as nat, keep));
    string_of(out.as_slice())
}

/// The body text of a response: nothing for `HEAD`, else the pretty JSON.
pub fn response_body(method: &str, resp: &Resp) -> (r: String)
    ensures
        r@ == (if method@ == "HEAD"@ {
            Seq::<char>::empty()
        } else {
            crate::json::dump_v(jv(resp.body), Some(2), 0)
        }),
{
    if str_eq(method, "HEAD") {
        String::new()
    } else {
        resp.body.pretty()
    }
}

/// Whether answering the request reads the library: everything but
/// `OPTIONS` and requests without the API key.
pub open spec fn needs_library_v(req: RequestV, key: Seq<char>) -> bool {
    req.method != "OPTIONS"@ && authorized_v(req, key)
}

/// Whether `route` reads the library for this request; when it does not,
/// the caller can route with an empty library and touch no disk.
pub fn needs_library(req: &Request, cfg: &ApiConfig) -> (r: bool)
    ensures
        r == needs_library_v(req@, cfg.api_key@),
{
    if str_eq(req.method.as_str(), "OPTIONS") {
        return false;
    }
    match req.header("authorization") {
        Some(v) => bearer_matches(v.as_str(), cfg.api_key.as_str()),
        None => false,
    }
}

/// A request that does not need the library is answered the same on every
/// library, and changes none.
pub proof fn lemma_answer_without_library(
    req: RequestV,
    key: Seq<char>,
    l1: LibraryV,
    l2: LibraryV,
    stamp: Seq<char>,
    now: Seq<char>,
)
    requires
        !needs_library_v(req, key),
    ensures
        route_v(req, key, l1, stamp, now).0 == route_v(req, key, l2, stamp, now).0,
        route_v(req, key, l1, stamp, now).1 == l1,
{
}

} // verus!
