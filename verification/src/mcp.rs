//! The MCP server's protocol: newline-delimited JSON-RPC 2.0 messages that
//! expose a prompt library as tools.

use vstd::prelude::*;
use crate::json::{Json, JsonV, dump_v, jget, jget_str, jv, jv_pairs, jv_seq, lemma_jv_pairs, lemma_jv_seq, parse_error, parse_spec};
use crate::model::{Prompt, PromptV, Recipe, RecipeV, lemma_prompt_json_fields, lemma_recipe_json_fields, or_empty, prompt_json, recipe_json, strs_json, strs_to_json};
use crate::storage::{ErrV, Library, LibraryV, StoreError, create_prompt_spec, create_recipe_spec, delete_prompt_spec, err_v, find_prompt, find_recipe, prompt_by_id, prompts_of, prompts_v, recipe_by_id, recipes_of, recipes_v, reconciled, lemma_create_prompt_gives, lemma_create_recipe_gives, lemma_save_prompt_keeps_given, lemma_save_recipe_keeps_given, render_prompt_spec, save_prompt_spec, save_recipe_spec, table_v, uses_v, value_of, variable_table};
use crate::text::{copy_string, str_eq, string_of, views};
use crate::util::{prefixed, prefixed_id, push_padded};
use crate::yamlish::{pairs_v, trim, trim_str};

verus! {

pub const PROTOCOL_VERSION: &'static str = "2025-06-18";

pub const SERVER_NAME: &'static str = "prompt-manager";

pub const SERVER_VERSION: &'static str = "0.1.0";

// ---------- JSON building blocks ----------

pub open spec fn jtext(s: Seq<char>) -> JsonV {
    JsonV::Str(s)
}

/// A JSON number for an integer.
pub open spec fn jint(x: int) -> JsonV {
    JsonV::Num(crate::util::padded(x, 0))
}

/// A JSON-RPC error response.
pub open spec fn rpc_error_v(id: JsonV, code: int, message: Seq<char>) -> JsonV {
    JsonV::Obj(
        seq![
            ("error"@, JsonV::Obj(seq![("code"@, jint(code)), ("message"@, jtext(message))])),
            ("id"@, id),
            ("jsonrpc"@, jtext("2.0"@)),
        ],
    )
}

/// A JSON-RPC result response.
pub open spec fn rpc_result_v(id: JsonV, result: JsonV) -> JsonV {
    JsonV::Obj(seq![("id"@, id), ("jsonrpc"@, jtext("2.0"@)), ("result"@, result)])
}

/// The answer to `initialize`: the client's protocol version if it sent
/// one, else ours.
pub open spec fn init_result_v(params: JsonV) -> JsonV {
    JsonV::Obj(
        seq![
            ("capabilities"@, JsonV::Obj(seq![("tools"@, JsonV::Obj(seq![]))])),
            ("protocolVersion"@, jtext(
                match jget_str(params, "protocolVersion"@) {
                    Some(v) => v,
                    None => PROTOCOL_VERSION@,
                },
            )),
            ("serverInfo"@, JsonV::Obj(seq![("name"@, jtext(SERVER_NAME@)), ("version"@, jtext(SERVER_VERSION@))])),
        ],
    )
}

/// A schema property: (name, {description, type}).
pub open spec fn prop_v(name: Seq<char>, ty: Seq<char>, desc: Seq<char>) -> (Seq<char>, JsonV) {
    (name, JsonV::Obj(seq![("description"@, jtext(desc)), ("type"@, jtext(ty))]))
}

/// An object schema with the given properties (in key order) and required
/// names.
pub open spec fn schema_v(props: Seq<(Seq<char>, JsonV)>, required: Seq<Seq<char>>) -> JsonV {
    JsonV::Obj(
        seq![
            ("properties"@, JsonV::Obj(props)),
            ("required"@, JsonV::Arr(strs_json(required))),
            ("type"@, jtext("object"@)),
        ],
    )
}

/// A tool description.
pub open spec fn tool_v(name: Seq<char>, desc: Seq<char>, schema: JsonV) -> JsonV {
    JsonV::Obj(seq![("description"@, jtext(desc)), ("inputSchema"@, schema), ("name"@, jtext(name))])
}

pub open spec fn prompt_id_prop() -> (Seq<char>, JsonV) {
    prop_v("id"@, "string"@, "ID promptu (nebo přesný název)"@)
}

pub open spec fn recipe_id_prop() -> (Seq<char>, JsonV) {
    prop_v("id"@, "string"@, "ID receptu (nebo přesný název)"@)
}

/// The tools this server offers.
pub open spec fn tools_v() -> Seq<JsonV> {
    seq![
        tool_v(
            "list_prompts"@,
            "Vrátí seznam všech promptů (id, název, přiřazené recepty, placeholdery)."@,
            schema_v(seq![], seq![]),
        ),
        tool_v(
            "get_prompt"@,
            "Vrátí celý prompt včetně obsahu (šablony)."@,
            schema_v(seq![prompt_id_prop()], seq!["id"@]),
        ),
        tool_v(
            "render_prompt"@,
            "Vyrenderuje prompt: dosadí hodnoty zvoleného receptu do {{placeholderů}}. Vrací text a seznam nevyplněných placeholderů."@,
            schema_v(
                seq![
                    prompt_id_prop(),
                    prop_v(
                        "recipe"@,
                        "string"@,
                        "ID nebo přesný název receptu; vynecháte-li, vrátí se surová šablona"@,
                    ),
                ],
                seq!["id"@],
            ),
        ),
        tool_v(
            "create_prompt"@,
            "Vytvoří nový prompt."@,
            schema_v(
                seq![
                    prop_v("content"@, "string"@, "Obsah šablony s {{placeholdery}}"@),
                    prop_v("title"@, "string"@, "Název promptu"@),
                ],
                seq!["title"@],
            ),
        ),
        tool_v(
            "update_prompt"@,
            "Upraví existující prompt (název a/nebo obsah)."@,
            schema_v(
                seq![
                    prop_v("content"@, "string"@, "Nový obsah (volitelné)"@),
                    prop_v("id"@, "string"@, "ID promptu"@),
                    prop_v("title"@, "string"@, "Nový název (volitelné)"@),
                ],
                seq!["id"@],
            ),
        ),
        tool_v(
            "delete_prompt"@,
            "Smaže prompt."@,
            schema_v(seq![prop_v("id"@, "string"@, "ID promptu"@)], seq!["id"@]),
        ),
        tool_v(
            "list_recipes"@,
            "Vrátí seznam všech receptů včetně jejich proměnných."@,
            schema_v(seq![], seq![]),
        ),
        tool_v("get_recipe"@, "Vrátí jeden recept."@, schema_v(seq![recipe_id_prop()], seq!["id"@])),
        tool_v(
            "create_recipe"@,
            "Vytvoří nový recept. Hodnoty proměnných lze předat jako objekt values."@,
            schema_v(
                seq![
                    prop_v("name"@, "string"@, "Název receptu"@),
                    prop_v("values"@, "object"@, "Proměnné receptu: {\"nazev_promenne\": \"hodnota\"}"@),
                ],
                seq!["name"@],
            ),
        ),
        tool_v(
            "update_recipe"@,
            "Upraví recept (název a/nebo proměnné)."@,
            schema_v(
                seq![
                    prop_v("id"@, "string"@, "ID receptu"@),
                    prop_v("name"@, "string"@, "Nový název (volitelné)"@),
                    prop_v("values"@, "object"@, "Nové proměnné (volitelné, nahradí stávající)"@),
                ],
                seq!["id"@],
            ),
        ),
        tool_v(
            "list_variables"@,
            "Vrátí sjednocení proměnných definovaných napříč recepty."@,
            schema_v(seq![], seq![]),
        ),
    ]
}

/// The answer to `tools/list`.
pub open spec fn tools_list_v() -> JsonV {
    JsonV::Obj(seq![("tools"@, JsonV::Arr(tools_v()))])
}

fn int_json(x: i64) -> (r: Json)
    ensures
        jv(r) == jint(x as int),
{
    let mut out: Vec<char> = Vec::new();
    push_padded(&mut out, x as i128, 0);
    Json::Num(string_of(out.as_slice()))
}

pub(crate) fn pair(key: &str, value: Json) -> (r: (String, Json))
    ensures
        r.0@ == key@,
        r.1 == value,
{
    (copy_string(key), value)
}

/// An object from members given in key order.
pub(crate) fn members(m: Vec<(String, Json)>) -> (r: Json)
    ensures
        jv(r) == JsonV::Obj(jv_pairs(m@)),
{
    Json::Obj(m)
}

fn rpc_error(id: Json, code: i64, message: &str) -> (r: Json)
    ensures
        jv(r) == rpc_error_v(jv(id), code as int, message@),
{
    let err = vec![pair("code", int_json(code)), pair("message", Json::str(message))];
    proof {
        lemma_jv_pairs(err@);
        assert(jv_pairs(err@) =~= seq![("code"@, jint(code as int)), ("message"@, jtext(message@))]);
    }
    let ghost idv = jv(id);
    let m = vec![pair("error", members(err)), pair("id", id), pair("jsonrpc", Json::str("2.0"))];
    proof {
        lemma_jv_pairs(m@);
        assert(jv_pairs(m@) =~= match rpc_error_v(idv, code as int, message@) {
            JsonV::Obj(x) => x,
            _ => seq![],
        });
    }
    members(m)
}

fn rpc_result(id: Json, result: Json) -> (r: Json)
    ensures
        jv(r) == rpc_result_v(jv(id), jv(result)),
{
    let ghost idv = jv(id);
    let ghost rv = jv(result);
    let m = vec![pair("id", id), pair("jsonrpc", Json::str("2.0")), pair("result", result)];
    proof {
        lemma_jv_pairs(m@);
        assert(jv_pairs(m@) =~= match rpc_result_v(idv, rv) {
            JsonV::Obj(x) => x,
            _ => seq![],
        });
    }
    members(m)
}

fn prop(name: &str, ty: &str, desc: &str) -> (r: (String, Json))
    ensures
        (r.0@, jv(r.1)) == prop_v(name@, ty@, desc@),
{
    let m = vec![pair("description", Json::str(desc)), pair("type", Json::str(ty))];
    proof {
        lemma_jv_pairs(m@);
        assert(jv_pairs(m@) =~= seq![("description"@, jtext(desc@)), ("type"@, jtext(ty@))]);
    }
    (copy_string(name), members(m))
}

fn schema(props: Vec<(String, Json)>, required: Vec<String>) -> (r: Json)
    ensures
        jv(r) == schema_v(jv_pairs(props@), views(required@)),
{
    let ghost pv = jv_pairs(props@);
    let m = vec![
        pair("properties", members(props)),
        pair("required", strs_to_json(&required)),
        pair("type", Json::str("object")),
    ];
    proof {
        lemma_jv_pairs(m@);
        assert(jv_pairs(m@) =~= match schema_v(pv, views(required@)) {
            JsonV::Obj(x) => x,
            _ => seq![],
        });
    }
    members(m)
}

fn tool(name: &str, desc: &str, schema: Json) -> (r: Json)
    ensures
        jv(r) == tool_v(name@, desc@, jv(schema)),
{
    let ghost sv = jv(schema);
    let m = vec![pair("description", Json::str(desc)), pair("inputSchema", schema), pair("name", Json::str(name))];
    proof {
        lemma_jv_pairs(m@);
        assert(jv_pairs(m@) =~= match tool_v(name@, desc@, sv) {
            JsonV::Obj(x) => x,
            _ => seq![],
        });
    }
    members(m)
}

fn no_props() -> (r: Vec<(String, Json)>)
    ensures
        jv_pairs(r@) == Seq::<(Seq<char>, JsonV)>::empty(),
{
    let r: Vec<(String, Json)> = Vec::new();
    assert(jv_pairs(r@) =~= seq![]);
    r
}

fn one_prop(p: (String, Json)) -> (r: Vec<(String, Json)>)
    ensures
        jv_pairs(r@) == seq![(p.0@, jv(p.1))],
{
    let r = vec![p];
    proof {
        lemma_jv_pairs(r@);
    }
    assert(jv_pairs(r@) =~= seq![(p.0@, jv(p.1))]);
    r
}

fn two_props(p: (String, Json), q: (String, Json)) -> (r: Vec<(String, Json)>)
    ensures
        jv_pairs(r@) == seq![(p.0@, jv(p.1)), (q.0@, jv(q.1))],
{
    let r = vec![p, q];
    proof {
        lemma_jv_pairs(r@);
    }
    assert(jv_pairs(r@) =~= seq![(p.0@, jv(p.1)), (q.0@, jv(q.1))]);
    r
}

fn three_props(p: (String, Json), q: (String, Json), t: (String, Json)) -> (r: Vec<(String, Json)>)
    ensures
        jv_pairs(r@) == seq![(p.0@, jv(p.1)), (q.0@, jv(q.1)), (t.0@, jv(t.1))],
{
    let r = vec![p, q, t];
    proof {
        lemma_jv_pairs(r@);
    }
    assert(jv_pairs(r@) =~= seq![(p.0@, jv(p.1)), (q.0@, jv(q.1)), (t.0@, jv(t.1))]);
    r
}

fn names(list: &[&str]) -> (r: Vec<String>)
    ensures
        views(r@) == list@.map_values(|s: &str| s@),
{
    let mut out: Vec<String> = Vec::new();
    let n = list.len();
    let mut i: usize = 0;
    while i < n
        invariant
            n == list@.len(),
            i <= n,
            views(out@) == list@.take(i as int).map_values(|s: &str| s@),
        decreases n - i,
    {
        let ghost before = views(out@);
        out.push(copy_string(list[i]));
        assert(views(out@) =~= before.push(list@[i as int]@));
        assert(list@.take(i + 1).map_values(|s: &str| s@) =~= list@.take(i as int).map_values(|s: &str| s@).push(
            list@[i as int]@,
        ));
        i = i + 1;
    }
    assert(list@.take(n as int) =~= list@);
    out
}

fn required_id() -> (r: Vec<String>)
    ensures
        views(r@) == seq!["id"@],
{
    let r = vec![copy_string("id")];
    assert(views(r@) =~= seq!["id"@]);
    r
}

fn required_one(name: &str) -> (r: Vec<String>)
    ensures
        views(r@) == seq![name@],
{
    let r = vec![copy_string(name)];
    assert(views(r@) =~= seq![name@]);
    r
}

fn required_none() -> (r: Vec<String>)
    ensures
        views(r@) == Seq::<Seq<char>>::empty(),
{
    let r: Vec<String> = Vec::new();
    assert(views(r@) =~= seq![]);
    r
}

/// The description of every tool, as `tools/list` answers it.
pub fn tools_list() -> (r: Json)
    ensures
        jv(r) == tools_list_v(),
{
    let t0 = tool(
        "list_prompts",
        "Vrátí seznam všech promptů (id, název, přiřazené recepty, placeholdery).",
        schema(no_props(), required_none()),
    );
    let t1 = tool(
        "get_prompt",
        "Vrátí celý prompt včetně obsahu (šablony).",
        schema(one_prop(prop("id", "string", "ID promptu (nebo přesný název)")), required_id()),
    );
    let t2 = tool(
        "render_prompt",
        "Vyrenderuje prompt: dosadí hodnoty zvoleného receptu do {{placeholderů}}. Vrací text a seznam nevyplněných placeholderů.",
        schema(
            two_props(
                prop("id", "string", "ID promptu (nebo přesný název)"),
                prop("recipe", "string", "ID nebo přesný název receptu; vynecháte-li, vrátí se surová šablona"),
            ),
            required_id(),
        ),
    );
    let t3 = tool(
        "create_prompt",
        "Vytvoří nový prompt.",
        schema(
            two_props(
                prop("content", "string", "Obsah šablony s {{placeholdery}}"),
                prop("title", "string", "Název promptu"),
            ),
            required_one("title"),
        ),
    );
    let t4 = tool(
        "update_prompt",
        "Upraví existující prompt (název a/nebo obsah).",
        schema(
            three_props(
                prop("content", "string", "Nový obsah (volitelné)"),
                prop("id", "string", "ID promptu"),
                prop("title", "string", "Nový název (volitelné)"),
            ),
            required_id(),
        ),
    );
    let t5 = tool("delete_prompt", "Smaže prompt.", schema(one_prop(prop("id", "string", "ID promptu")), required_id()));
    let t6 = tool(
        "list_recipes",
        "Vrátí seznam všech receptů včetně jejich proměnných.",
        schema(no_props(), required_none()),
    );
    let t7 = tool(
        "get_recipe",
        "Vrátí jeden recept.",
        schema(one_prop(prop("id", "string", "ID receptu (nebo přesný název)")), required_id()),
    );
    let t8 = tool(
        "create_recipe",
        "Vytvoří nový recept. Hodnoty proměnných lze předat jako objekt values.",
        schema(
            two_props(
                prop("name", "string", "Název receptu"),
                prop("values", "object", "Proměnné receptu: {\"nazev_promenne\": \"hodnota\"}"),
            ),
            required_one("name"),
        ),
    );
    let t9 = tool(
        "update_recipe",
        "Upraví recept (název a/nebo proměnné).",
        schema(
            three_props(
                prop("id", "string", "ID receptu"),
                prop("name", "string", "Nový název (volitelné)"),
                prop("values", "object", "Nové proměnné (volitelné, nahradí stávající)"),
            ),
            required_id(),
        ),
    );
    let t10 = tool(
        "list_variables",
        "Vrátí sjednocení proměnných definovaných napříč recepty.",
        schema(no_props(), required_none()),
    );
    let tools = vec![t0, t1, t2, t3, t4, t5, t6, t7, t8, t9, t10];
    proof {
        lemma_jv_seq(tools@);
        assert(jv_seq(tools@) =~= tools_v());
    }
    let m = vec![pair("tools", Json::Arr(tools))];
    proof {
        lemma_jv_pairs(m@);
        assert(jv_pairs(m@) =~= seq![("tools"@, JsonV::Arr(tools_v()))]);
    }
    members(m)
}


// ---------- tools ----------

/// A failed tool call.
pub enum ToolError {
    /// reported inside the tool result (`isError: true`)
    User(String),
    /// a protocol-level error
    Rpc(i64, String),
}

pub enum ToolErrV {
    User(Seq<char>),
    Rpc(int, Seq<char>),
}

pub open spec fn tool_err_v(e: ToolError) -> ToolErrV {
    match e {
        ToolError::User(m) => ToolErrV::User(m@),
        ToolError::Rpc(c, m) => ToolErrV::Rpc(c as int, m@),
    }
}

pub open spec fn tool_res_v(r: Result<Json, ToolError>) -> Result<JsonV, ToolErrV> {
    match r {
        Ok(v) => Ok(jv(v)),
        Err(e) => Err(tool_err_v(e)),
    }
}

/// How a library error reaches the client.
pub open spec fn store_v(e: ErrV) -> ToolErrV {
    match e {
        ErrV::NotFound(id) => ToolErrV::User("Nenalezeno: "@ + id),
        ErrV::Invalid(m) => ToolErrV::User(m),
        ErrV::Io(m) => ToolErrV::User("IO error: "@ + m),
        ErrV::Parse(f, m) => ToolErrV::User("Cannot parse "@ + f + ": "@ + m),
    }
}

fn store(e: StoreError) -> (r: ToolError)
    ensures
        tool_err_v(r) == store_v(err_v(e)),
{
    match e {
        StoreError::NotFound(id) => {
            let mut m: Vec<char> = Vec::new();
            crate::text::extend_str(&mut m, "Nenalezeno: ");
            crate::text::extend_str(&mut m, id.as_str());
            ToolError::User(string_of(m.as_slice()))
        },
        StoreError::Invalid(m) => ToolError::User(m),
        other => ToolError::User(other.message()),
    }
}

pub open spec fn missing_arg(key: Seq<char>) -> ToolErrV {
    ToolErrV::User("Chybí povinný argument '"@ + key + "'."@)
}

/// A required, non-blank string argument.
pub open spec fn req_str_v(args: JsonV, key: Seq<char>) -> Result<Seq<char>, ToolErrV> {
    match jget_str(args, key) {
        Some(s) => if trim(s).len() > 0 {
            Ok(s)
        } else {
            Err(missing_arg(key))
        },
        None => Err(missing_arg(key)),
    }
}

fn req_str(args: &Json, key: &str) -> (r: Result<String, ToolError>)
    ensures
        match r {
            Ok(s) => req_str_v(jv(*args), key@) == Ok::<Seq<char>, ToolErrV>(s@),
            Err(e) => req_str_v(jv(*args), key@) == Err::<Seq<char>, ToolErrV>(tool_err_v(e)),
        },
{
    match args.get_str(key) {
        Some(s) => {
            let t = trim_str(s);
            if crate::text::chars_of(t.as_str()).len() > 0 {
                return Ok(copy_string(s));
            }
        },
        None => {},
    }
    let mut m: Vec<char> = Vec::new();
    crate::text::extend_str(&mut m, "Chybí povinný argument '");
    crate::text::extend_str(&mut m, key);
    crate::text::extend_str(&mut m, "'.");
    Err(ToolError::User(string_of(m.as_slice())))
}

/// The first prompt with this title.
pub open spec fn find_titled(ps: Seq<PromptV>, t: Seq<char>) -> Option<PromptV>
    decreases ps.len(),
{
    if ps.len() == 0 {
        None
    } else if ps[0].title == t {
        Some(ps[0])
    } else {
        find_titled(ps.drop_first(), t)
    }
}

/// The first recipe with this name.
pub open spec fn find_named(rs: Seq<RecipeV>, n: Seq<char>) -> Option<RecipeV>
    decreases rs.len(),
{
    if rs.len() == 0 {
        None
    } else if rs[0].name == n {
        Some(rs[0])
    } else {
        find_named(rs.drop_first(), n)
    }
}

/// The id of the prompt with this id, else of the first with this title.
pub open spec fn find_prompt_id_v(l: LibraryV, key: Seq<char>) -> Result<Seq<char>, ToolErrV> {
    match prompts_of(l) {
        Err(e) => Err(store_v(e)),
        Ok(ps) => match find_prompt(ps, key) {
            Some(p) => Ok(p.id),
            None => match find_titled(ps, key) {
                Some(p) => Ok(p.id),
                None => Err(ToolErrV::User("Prompt '"@ + key + "' nenalezen. Použijte list_prompts."@)),
            },
        },
    }
}

/// The id of the recipe with this id, else of the first with this name.
pub open spec fn find_recipe_id_v(l: LibraryV, key: Seq<char>) -> Result<Seq<char>, ToolErrV> {
    match l.recipes_error {
        Some(m) => Err(store_v(ErrV::Io(m))),
        None => match find_recipe(recipes_of(l), key) {
            Some(r) => Ok(r.id),
            None => match find_named(recipes_of(l), key) {
                Some(r) => Ok(r.id),
                None => Err(ToolErrV::User("Recept '"@ + key + "' nenalezen. Použijte list_recipes."@)),
            },
        },
    }
}

fn title_index(ps: &Vec<Prompt>, t: &str) -> (r: Option<usize>)
    ensures
        r matches Some(i) ==> i < ps@.len() && find_titled(prompts_v(ps@), t@) == Some(ps@[i as int]@),
        r is None ==> find_titled(prompts_v(ps@), t@) is None,
{
    let ghost s = prompts_v(ps@);
    let n = ps.len();
    let mut i: usize = 0;
    assert(s.skip(0) =~= s);
    while i < n
        invariant
            n == ps@.len(),
            i <= n,
            s == prompts_v(ps@),
            find_titled(s, t@) == find_titled(s.skip(i as int), t@),
        decreases n - i,
    {
        assert(s.skip(i as int)[0] == s[i as int]);
        assert(s.skip(i as int).drop_first() =~= s.skip(i + 1));
        assert(s[i as int] == ps@[i as int]@);
        if str_eq(ps[i].title.as_str(), t) {
            return Some(i);
        }
        i = i + 1;
    }
    None
}

fn name_index(rs: &Vec<Recipe>, n: &str) -> (r: Option<usize>)
    ensures
        r matches Some(i) ==> i < rs@.len() && find_named(recipes_v(rs@), n@) == Some(rs@[i as int]@),
        r is None ==> find_named(recipes_v(rs@), n@) is None,
{
    let ghost s = recipes_v(rs@);
    let len = rs.len();
    let mut i: usize = 0;
    assert(s.skip(0) =~= s);
    while i < len
        invariant
            len == rs@.len(),
            i <= len,
            s == recipes_v(rs@),
            find_named(s, n@) == find_named(s.skip(i as int), n@),
        decreases len - i,
    {
        assert(s.skip(i as int)[0] == s[i as int]);
        assert(s.skip(i as int).drop_first() =~= s.skip(i + 1));
        assert(s[i as int] == rs@[i as int]@);
        if str_eq(rs[i].name.as_str(), n) {
            return Some(i);
        }
        i = i + 1;
    }
    None
}

fn find_prompt_id(lib: &Library, key: &str) -> (r: Result<String, ToolError>)
    ensures
        match r {
            Ok(s) => find_prompt_id_v(lib@, key@) == Ok::<Seq<char>, ToolErrV>(s@),
            Err(e) => find_prompt_id_v(lib@, key@) == Err::<Seq<char>, ToolErrV>(tool_err_v(e)),
        },
{
    let ps = match lib.list_prompts() {
        Ok(v) => v,
        Err(e) => {
            return Err(store(e));
        },
    };
    match crate::storage::prompt_index(&ps, key) {
        Some(i) => {
            return Ok(copy_string(ps[i].id.as_str()));
        },
        None => {},
    }
    match title_index(&ps, key) {
        Some(i) => {
            return Ok(copy_string(ps[i].id.as_str()));
        },
        None => {},
    }
    let mut m: Vec<char> = Vec::new();
    crate::text::extend_str(&mut m, "Prompt '");
    crate::text::extend_str(&mut m, key);
    crate::text::extend_str(&mut m, "' nenalezen. Použijte list_prompts.");
    Err(ToolError::User(string_of(m.as_slice())))
}

fn find_recipe_id(lib: &Library, key: &str) -> (r: Result<String, ToolError>)
    ensures
        match r {
            Ok(s) => find_recipe_id_v(lib@, key@) == Ok::<Seq<char>, ToolErrV>(s@),
            Err(e) => find_recipe_id_v(lib@, key@) == Err::<Seq<char>, ToolErrV>(tool_err_v(e)),
        },
{
    let rs = match lib.list_recipes() {
        Ok(v) => v,
        Err(e) => {
            return Err(store(e));
        },
    };
    match crate::storage::recipe_index(&rs, key) {
        Some(i) => {
            return Ok(copy_string(rs[i].id.as_str()));
        },
        None => {},
    }
    match name_index(&rs, key) {
        Some(i) => {
            return Ok(copy_string(rs[i].id.as_str()));
        },
        None => {},
    }
    let mut m: Vec<char> = Vec::new();
    crate::text::extend_str(&mut m, "Recept '");
    crate::text::extend_str(&mut m, key);
    crate::text::extend_str(&mut m, "' nenalezen. Použijte list_recipes.");
    Err(ToolError::User(string_of(m.as_slice())))
}


/// The string-valued members of an object as name/value pairs.
pub open spec fn str_members(m: Seq<(Seq<char>, JsonV)>) -> Seq<(Seq<char>, Seq<char>)>
    decreases m.len(),
{
    if m.len() == 0 {
        seq![]
    } else {
        let r = str_members(m.drop_last());
        match m.last().1 {
            JsonV::Str(s) => r.push((m.last().0, s)),
            _ => r,
        }
    }
}

/// The `values` argument: the string members of an object.
pub open spec fn values_arg(args: JsonV) -> Option<Seq<(Seq<char>, Seq<char>)>> {
    match jget(args, "values"@) {
        Some(JsonV::Obj(m)) => Some(str_members(m)),
        _ => None,
    }
}

pub open spec fn use_json(u: (Seq<char>, Seq<char>, Seq<char>)) -> JsonV {
    JsonV::Obj(seq![("recipe_id"@, jtext(u.0)), ("recipe_name"@, jtext(u.1)), ("value"@, jtext(u.2))])
}

pub open spec fn var_json(e: (Seq<char>, Seq<(Seq<char>, Seq<char>, Seq<char>)>)) -> JsonV {
    JsonV::Obj(seq![("name"@, jtext(e.0)), ("recipes"@, JsonV::Arr(e.1.map_values(|u: (Seq<char>, Seq<char>, Seq<char>)| use_json(u))))])
}

pub open spec fn prompts_json(ps: Seq<PromptV>) -> JsonV {
    JsonV::Arr(ps.map_values(|p: PromptV| prompt_json(p)))
}

pub open spec fn recipes_json(rs: Seq<RecipeV>) -> JsonV {
    JsonV::Arr(rs.map_values(|r: RecipeV| recipe_json(r)))
}

/// The answer to a rendering: missing names and text.
pub open spec fn rendered_json(text: Seq<char>, missing: Seq<Seq<char>>) -> JsonV {
    JsonV::Obj(seq![("missing"@, JsonV::Arr(strs_json(missing))), ("text"@, jtext(text))])
}

pub open spec fn tool_list_prompts_v(l: LibraryV) -> (Result<JsonV, ToolErrV>, LibraryV) {
    match prompts_of(l) {
        Err(e) => (Err(store_v(e)), l),
        Ok(ps) => (Ok(prompts_json(ps)), l),
    }
}

pub open spec fn tool_get_prompt_v(args: JsonV, l: LibraryV) -> (Result<JsonV, ToolErrV>, LibraryV) {
    match req_str_v(args, "id"@) {
        Err(t) => (Err(t), l),
        Ok(key) => match find_prompt_id_v(l, key) {
            Err(t) => (Err(t), l),
            Ok(id) => match prompt_by_id(l, id) {
                Err(e) => (Err(store_v(e)), l),
                Ok(p) => (Ok(prompt_json(p)), l),
            },
        },
    }
}

/// The recipe argument of `render_prompt`: none when missing or blank.
pub open spec fn recipe_arg_v(args: JsonV, l: LibraryV) -> Result<Option<Seq<char>>, ToolErrV> {
    match jget_str(args, "recipe"@) {
        Some(r) => if trim(r).len() > 0 {
            match find_recipe_id_v(l, r) {
                Ok(x) => Ok(Some(x)),
                Err(t) => Err(t),
            }
        } else {
            Ok(None)
        },
        None => Ok(None),
    }
}

pub open spec fn tool_render_v(args: JsonV, l: LibraryV) -> (Result<JsonV, ToolErrV>, LibraryV) {
    match req_str_v(args, "id"@) {
        Err(t) => (Err(t), l),
        Ok(key) => match find_prompt_id_v(l, key) {
            Err(t) => (Err(t), l),
            Ok(id) => match recipe_arg_v(args, l) {
                Err(t) => (Err(t), l),
                Ok(rid) => match render_prompt_spec(l, id, rid, seq![]) {
                    Err(e) => (Err(store_v(e)), l),
                    Ok(out) => (Ok(rendered_json(out.0, out.1)), l),
                },
            },
        },
    }
}

pub open spec fn tool_create_prompt_v(args: JsonV, l: LibraryV, stamp: Seq<char>, now: Seq<char>) -> (
    Result<JsonV, ToolErrV>,
    LibraryV,
) {
    match req_str_v(args, "title"@) {
        Err(t) => (Err(t), l),
        Ok(title) => {
            let (r, l2) = create_prompt_spec(l, prefixed_id("p"@, stamp), now, title, or_empty(jget_str(args, "content"@)));
            match r {
                Err(e) => (Err(store_v(e)), l2),
                Ok(p) => (Ok(prompt_json(p)), l2),
            }
        },
    }
}

pub open spec fn tool_update_prompt_v(args: JsonV, l: LibraryV, now: Seq<char>) -> (
    Result<JsonV, ToolErrV>,
    LibraryV,
) {
    match req_str_v(args, "id"@) {
        Err(t) => (Err(t), l),
        Ok(key) => match find_prompt_id_v(l, key) {
            Err(t) => (Err(t), l),
            Ok(id) => match prompt_by_id(l, id) {
                Err(e) => (Err(store_v(e)), l),
                Ok(p) => {
                    let p2 = PromptV {
                        title: match jget_str(args, "title"@) {
                            Some(t) => t,
                            None => p.title,
                        },
                        content: match jget_str(args, "content"@) {
                            Some(c) => c,
                            None => p.content,
                        },
                        ..p
                    };
                    let (r, l2) = save_prompt_spec(l, now, p2);
                    match r {
                        Err(e) => (Err(store_v(e)), l2),
                        Ok(q) => (Ok(prompt_json(q)), l2),
                    }
                },
            },
        },
    }
}

pub open spec fn tool_delete_prompt_v(args: JsonV, l: LibraryV) -> (Result<JsonV, ToolErrV>, LibraryV) {
    match req_str_v(args, "id"@) {
        Err(t) => (Err(t), l),
        Ok(key) => match find_prompt_id_v(l, key) {
            Err(t) => (Err(t), l),
            Ok(id) => {
                let (r, l2) = delete_prompt_spec(l, id);
                match r {
                    Err(e) => (Err(store_v(e)), l2),
                    Ok(_) => (Ok(JsonV::Obj(seq![("deleted"@, JsonV::Bool(true))])), l2),
                }
            },
        },
    }
}

pub open spec fn tool_get_recipe_v(args: JsonV, l: LibraryV) -> (Result<JsonV, ToolErrV>, LibraryV) {
    match req_str_v(args, "id"@) {
        Err(t) => (Err(t), l),
        Ok(key) => match find_recipe_id_v(l, key) {
            Err(t) => (Err(t), l),
            Ok(id) => match recipe_by_id(l, id) {
                Err(e) => (Err(store_v(e)), l),
                Ok(r) => (Ok(recipe_json(r)), l),
            },
        },
    }
}

pub open spec fn tool_create_recipe_v(args: JsonV, l: LibraryV, stamp: Seq<char>, now: Seq<char>) -> (
    Result<JsonV, ToolErrV>,
    LibraryV,
) {
    match req_str_v(args, "name"@) {
        Err(t) => (Err(t), l),
        Ok(name) => {
            let (c, l2) = create_recipe_spec(l, prefixed_id("r"@, stamp), now, name);
            match c {
                Err(e) => (Err(store_v(e)), l2),
                Ok(r) => match values_arg(args) {
                    None => (Ok(recipe_json(r)), l2),
                    Some(vals) => {
                        let (s2, l3) = save_recipe_spec(l2, now, RecipeV { values: vals, ..r });
                        match s2 {
                            Err(e) => (Err(store_v(e)), l3),
                            Ok(r2) => (Ok(recipe_json(r2)), l3),
                        }
                    },
                },
            }
        },
    }
}

pub open spec fn tool_update_recipe_v(args: JsonV, l: LibraryV, now: Seq<char>) -> (
    Result<JsonV, ToolErrV>,
    LibraryV,
) {
    match req_str_v(args, "id"@) {
        Err(t) => (Err(t), l),
        Ok(key) => match find_recipe_id_v(l, key) {
            Err(t) => (Err(t), l),
            Ok(id) => match recipe_by_id(l, id) {
                Err(e) => (Err(store_v(e)), l),
                Ok(r) => {
                    let r2 = RecipeV {
                        name: match jget_str(args, "name"@) {
                            Some(n) => n,
                            None => r.name,
                        },
                        values: match values_arg(args) {
                            Some(v) => v,
                            None => r.values,
                        },
                        ..r
                    };
                    let (s2, l2) = save_recipe_spec(l, now, r2);
                    match s2 {
                        Err(e) => (Err(store_v(e)), l2),
                        Ok(x) => (Ok(recipe_json(x)), l2),
                    }
                },
            },
        },
    }
}

pub open spec fn tool_list_variables_v(l: LibraryV) -> (Result<JsonV, ToolErrV>, LibraryV) {
    match reconciled(l) {
        Err(e) => (Err(store_v(e)), l),
        Ok(names) => (
            Ok(
                JsonV::Arr(
                    variable_table(names, recipes_of(l)).map_values(
                        |e: (Seq<char>, Seq<(Seq<char>, Seq<char>, Seq<char>)>)| var_json(e),
                    ),
                ),
            ),
            l,
        ),
    }
}

/// What a tool call does: the tool's answer (or failure) and the library
/// after it (what it creates gets the id `p-<stamp>` or `r-<stamp>` and the
/// time `now`).
pub open spec fn run_tool_v(name: Seq<char>, args: JsonV, l: LibraryV, stamp: Seq<char>, now: Seq<char>) -> (
    Result<JsonV, ToolErrV>,
    LibraryV,
) {
    if name == "list_prompts"@ {
        tool_list_prompts_v(l)
    } else if name == "get_prompt"@ {
        tool_get_prompt_v(args, l)
    } else if name == "render_prompt"@ {
        tool_render_v(args, l)
    } else if name == "create_prompt"@ {
        tool_create_prompt_v(args, l, stamp, now)
    } else if name == "update_prompt"@ {
        tool_update_prompt_v(args, l, now)
    } else if name == "delete_prompt"@ {
        tool_delete_prompt_v(args, l)
    } else if name == "list_recipes"@ {
        match l.recipes_error {
            Some(m) => (Err(store_v(ErrV::Io(m))), l),
            None => (Ok(recipes_json(recipes_of(l))), l),
        }
    } else if name == "get_recipe"@ {
        tool_get_recipe_v(args, l)
    } else if name == "create_recipe"@ {
        tool_create_recipe_v(args, l, stamp, now)
    } else if name == "update_recipe"@ {
        tool_update_recipe_v(args, l, now)
    } else if name == "list_variables"@ {
        tool_list_variables_v(l)
    } else {
        (Err(ToolErrV::Rpc(-32602, "unknown tool: "@ + name)), l)
    }
}


// ---------- tool implementations ----------

pub(crate) fn prompts_to_json(ps: &Vec<Prompt>) -> (r: Json)
    ensures
        jv(r) == prompts_json(prompts_v(ps@)),
{
    let ghost target = prompts_v(ps@).map_values(|p: PromptV| prompt_json(p));
    let mut a: Vec<Json> = Vec::new();
    let n = ps.len();
    let mut i: usize = 0;
    while i < n
        invariant
            n == ps@.len(),
            i <= n,
            target == prompts_v(ps@).map_values(|p: PromptV| prompt_json(p)),
            jv_seq(a@) == target.take(i as int),
        decreases n - i,
    {
        let ghost before = a@;
        a.push(ps[i].to_json());
        assert(a@.drop_last() =~= before);
        assert(target.take(i + 1) =~= target.take(i as int).push(target[i as int]));
        i = i + 1;
    }
    assert(target.take(n as int) =~= target);
    Json::Arr(a)
}

pub(crate) fn recipes_to_json(rs: &Vec<Recipe>) -> (r: Json)
    ensures
        jv(r) == recipes_json(recipes_v(rs@)),
{
    let ghost target = recipes_v(rs@).map_values(|r: RecipeV| recipe_json(r));
    let mut a: Vec<Json> = Vec::new();
    let n = rs.len();
    let mut i: usize = 0;
    while i < n
        invariant
            n == rs@.len(),
            i <= n,
            target == recipes_v(rs@).map_values(|r: RecipeV| recipe_json(r)),
            jv_seq(a@) == target.take(i as int),
        decreases n - i,
    {
        let ghost before = a@;
        a.push(rs[i].to_json());
        assert(a@.drop_last() =~= before);
        assert(target.take(i + 1) =~= target.take(i as int).push(target[i as int]));
        i = i + 1;
    }
    assert(target.take(n as int) =~= target);
    Json::Arr(a)
}

pub(crate) fn rendered(text: &str, missing: &Vec<String>) -> (r: Json)
    ensures
        jv(r) == rendered_json(text@, views(missing@)),
{
    let m = vec![pair("missing", strs_to_json(missing)), pair("text", Json::str(text))];
    proof {
        lemma_jv_pairs(m@);
        assert(jv_pairs(m@) =~= match rendered_json(text@, views(missing@)) {
            JsonV::Obj(x) => x,
            _ => seq![],
        });
    }
    members(m)
}

pub(crate) fn values_of_arg(args: &Json) -> (r: Option<Vec<(String, String)>>)
    ensures
        match r {
            Some(v) => values_arg(jv(*args)) == Some(pairs_v(v@)),
            None => values_arg(jv(*args)) is None,
        },
{
    let v = match args.get("values") {
        Some(v) => v,
        None => {
            return None;
        },
    };
    let m = match v.as_obj() {
        Some(m) => m,
        None => {
            return None;
        },
    };
    let ghost mm = jv_pairs(m@);
    proof {
        lemma_jv_pairs(m@);
    }
    let mut out: Vec<(String, String)> = Vec::new();
    let n = m.len();
    let mut i: usize = 0;
    while i < n
        invariant
            n == m@.len(),
            i <= n,
            mm == jv_pairs(m@),
            mm.len() == n,
            forall|q: int| 0 <= q < n ==> #[trigger] mm[q] == (m@[q].0@, jv(m@[q].1)),
            pairs_v(out@) == str_members(mm.take(i as int)),
        decreases n - i,
    {
        assert(mm.take(i + 1).drop_last() =~= mm.take(i as int));
        assert(mm.take(i + 1).last() == mm[i as int]);
        match m[i].1.as_str() {
            Some(t) => {
                let ghost before = pairs_v(out@);
                out.push((copy_string(m[i].0.as_str()), copy_string(t)));
                assert(pairs_v(out@) =~= before.push((m@[i as int].0@, t@)));
            },
            None => {},
        }
        i = i + 1;
    }
    assert(mm.take(n as int) =~= mm);
    Some(out)
}

fn recipe_arg(args: &Json, lib: &Library) -> (r: Result<Option<String>, ToolError>)
    ensures
        match r {
            Ok(o) => recipe_arg_v(jv(*args), lib@) == Ok::<Option<Seq<char>>, ToolErrV>(
                match o {
                    Some(x) => Some(x@),
                    None => None,
                },
            ),
            Err(e) => recipe_arg_v(jv(*args), lib@) == Err::<Option<Seq<char>>, ToolErrV>(tool_err_v(e)),
        },
{
    match args.get_str("recipe") {
        Some(r) => {
            let t = trim_str(r);
            if crate::text::chars_of(t.as_str()).len() > 0 {
                match find_recipe_id(lib, r) {
                    Ok(x) => Ok(Some(x)),
                    Err(e) => Err(e),
                }
            } else {
                Ok(None)
            }
        },
        None => Ok(None),
    }
}

fn tool_list_prompts(lib: &Library) -> (r: Result<Json, ToolError>)
    ensures
        (tool_res_v(r), lib@) == tool_list_prompts_v(lib@),
{
    match lib.list_prompts() {
        Ok(ps) => {
            Ok(prompts_to_json(&ps))
        },
        Err(e) => {
            Err(store(e))
        },
    }
}

fn tool_get_prompt(args: &Json, lib: &Library) -> (r: Result<Json, ToolError>)
    ensures
        (tool_res_v(r), lib@) == tool_get_prompt_v(jv(*args), lib@),
{
    let key = match req_str(args, "id") {
        Ok(k) => k,
        Err(e) => {
            return Err(e);
        },
    };
    let found = find_prompt_id(lib, key.as_str());
    let id = match found {
        Ok(i) => i,
        Err(e) => {
            return Err(e);
        },
    };
    match lib.get_prompt(id.as_str()) {
        Ok(p) => Ok(p.to_json()),
        Err(e) => {
            Err(store(e))
        },
    }
}

fn tool_render(args: &Json, lib: &Library) -> (r: Result<Json, ToolError>)
    ensures
        (tool_res_v(r), lib@) == tool_render_v(jv(*args), lib@),
{
    let key = match req_str(args, "id") {
        Ok(k) => k,
        Err(e) => {
            return Err(e);
        },
    };
    let found = find_prompt_id(lib, key.as_str());
    let id = match found {
        Ok(i) => i,
        Err(e) => {
            return Err(e);
        },
    };
    let rid = match recipe_arg(args, lib) {
        Ok(x) => x,
        Err(e) => {
            return Err(e);
        },
    };
    let none: Vec<(String, String)> = Vec::new();
    assert(pairs_v(none@) =~= seq![]);
    let out = match &rid {
        Some(x) => lib.render_prompt(id.as_str(), Some(x.as_str()), &none),
        None => lib.render_prompt(id.as_str(), None, &none),
    };
    match out {
        Ok(o) => Ok(rendered(o.text.as_str(), &o.missing)),
        Err(e) => {
            Err(store(e))
        },
    }
}

fn tool_create_prompt(args: &Json, lib: &mut Library, stamp: &str, now: &str) -> (r: Result<Json, ToolError>)
    ensures
        (tool_res_v(r), final(lib)@) == tool_create_prompt_v(jv(*args), old(lib)@, stamp@, now@),
{
    let title = match req_str(args, "title") {
        Ok(k) => k,
        Err(e) => {
            return Err(e);
        },
    };
    let content = match args.get_str("content") {
        Some(c) => copy_string(c),
        None => String::new(),
    };
    let id = prefixed("p", stamp);
    match lib.create_prompt(id.as_str(), now, title.as_str(), content.as_str()) {
        Ok(p) => Ok(p.to_json()),
        Err(e) => {
            Err(store(e))
        },
    }
}

fn tool_update_prompt(args: &Json, lib: &mut Library, now: &str) -> (r: Result<Json, ToolError>)
    ensures
        (tool_res_v(r), final(lib)@) == tool_update_prompt_v(jv(*args), old(lib)@, now@),
{
    let key = match req_str(args, "id") {
        Ok(k) => k,
        Err(e) => {
            return Err(e);
        },
    };
    let found = find_prompt_id(lib, key.as_str());
    let id = match found {
        Ok(i) => i,
        Err(e) => {
            return Err(e);
        },
    };
    let mut p = match lib.get_prompt(id.as_str()) {
        Ok(p) => p,
        Err(e) => {
            return Err(store(e));
        },
    };
    match args.get_str("title") {
        Some(t) => {
            p.title = copy_string(t);
        },
        None => {},
    }
    match args.get_str("content") {
        Some(c) => {
            p.content = copy_string(c);
        },
        None => {},
    }
    match lib.save_prompt(now, &p) {
        Ok(q) => Ok(q.to_json()),
        Err(e) => {
            Err(store(e))
        },
    }
}

fn tool_delete_prompt(args: &Json, lib: &mut Library) -> (r: Result<Json, ToolError>)
    ensures
        (tool_res_v(r), final(lib)@) == tool_delete_prompt_v(jv(*args), old(lib)@),
{
    let key = match req_str(args, "id") {
        Ok(k) => k,
        Err(e) => {
            return Err(e);
        },
    };
    let found = find_prompt_id(lib, key.as_str());
    let id = match found {
        Ok(i) => i,
        Err(e) => {
            return Err(e);
        },
    };
    match lib.delete_prompt(id.as_str()) {
        Ok(_) => {
            let m = vec![pair("deleted", Json::Bool(true))];
            proof {
                lemma_jv_pairs(m@);
                assert(jv_pairs(m@) =~= seq![("deleted"@, JsonV::Bool(true))]);
            }
            Ok(members(m))
        },
        Err(e) => {
            Err(store(e))
        },
    }
}

fn tool_get_recipe(args: &Json, lib: &Library) -> (r: Result<Json, ToolError>)
    ensures
        (tool_res_v(r), lib@) == tool_get_recipe_v(jv(*args), lib@),
{
    let key = match req_str(args, "id") {
        Ok(k) => k,
        Err(e) => {
            return Err(e);
        },
    };
    let id = match find_recipe_id(lib, key.as_str()) {
        Ok(i) => i,
        Err(e) => {
            return Err(e);
        },
    };
    match lib.get_recipe(id.as_str()) {
        Ok(r) => Ok(r.to_json()),
        Err(e) => {
            Err(store(e))
        },
    }
}

fn tool_create_recipe(args: &Json, lib: &mut Library, stamp: &str, now: &str) -> (r: Result<Json, ToolError>)
    ensures
        (tool_res_v(r), final(lib)@) == tool_create_recipe_v(jv(*args), old(lib)@, stamp@, now@),
{
    let name = match req_str(args, "name") {
        Ok(k) => k,
        Err(e) => {
            return Err(e);
        },
    };
    let id = prefixed("r", stamp);
    let r = match lib.create_recipe(id.as_str(), now, name.as_str()) {
        Ok(r) => r,
        Err(e) => {
            return Err(store(e));
        },
    };
    match values_of_arg(args) {
        None => Ok(r.to_json()),
        Some(vals) => {
            let r2 = Recipe {
                id: copy_string(r.id.as_str()),
                name: copy_string(r.name.as_str()),
                updated: copy_string(r.updated.as_str()),
                values: vals,
                file_name: copy_string(r.file_name.as_str()),
            };
            match lib.save_recipe(now, &r2) {
                Ok(x) => Ok(x.to_json()),
                Err(e) => {
                    Err(store(e))
                },
            }
        },
    }
}

fn tool_update_recipe(args: &Json, lib: &mut Library, now: &str) -> (r: Result<Json, ToolError>)
    ensures
        (tool_res_v(r), final(lib)@) == tool_update_recipe_v(jv(*args), old(lib)@, now@),
{
    let key = match req_str(args, "id") {
        Ok(k) => k,
        Err(e) => {
            return Err(e);
        },
    };
    let id = match find_recipe_id(lib, key.as_str()) {
        Ok(i) => i,
        Err(e) => {
            return Err(e);
        },
    };
    let mut r = match lib.get_recipe(id.as_str()) {
        Ok(r) => r,
        Err(e) => {
            return Err(store(e));
        },
    };
    match args.get_str("name") {
        Some(n) => {
            r.name = copy_string(n);
        },
        None => {},
    }
    match values_of_arg(args) {
        Some(v) => {
            r.values = v;
        },
        None => {},
    }
    match lib.save_recipe(now, &r) {
        Ok(x) => Ok(x.to_json()),
        Err(e) => {
            Err(store(e))
        },
    }
}

fn use_to_json(u: &(String, String, String)) -> (r: Json)
    ensures
        jv(r) == use_json((u.0@, u.1@, u.2@)),
{
    let m = vec![
        pair("recipe_id", Json::str(u.0.as_str())),
        pair("recipe_name", Json::str(u.1.as_str())),
        pair("value", Json::str(u.2.as_str())),
    ];
    proof {
        lemma_jv_pairs(m@);
        assert(jv_pairs(m@) =~= match use_json((u.0@, u.1@, u.2@)) {
            JsonV::Obj(x) => x,
            _ => seq![],
        });
    }
    members(m)
}

pub(crate) fn var_to_json(e: &(String, Vec<(String, String, String)>)) -> (r: Json)
    ensures
        jv(r) == var_json((e.0@, uses_v(e.1@))),
{
    let ghost target = uses_v(e.1@).map_values(|u: (Seq<char>, Seq<char>, Seq<char>)| use_json(u));
    let mut a: Vec<Json> = Vec::new();
    let n = e.1.len();
    let mut i: usize = 0;
    while i < n
        invariant
            n == e.1@.len(),
            i <= n,
            target == uses_v(e.1@).map_values(|u: (Seq<char>, Seq<char>, Seq<char>)| use_json(u)),
            jv_seq(a@) == target.take(i as int),
        decreases n - i,
    {
        let ghost before = a@;
        a.push(use_to_json(&e.1[i]));
        assert(a@.drop_last() =~= before);
        assert(target.take(i + 1) =~= target.take(i as int).push(target[i as int]));
        i = i + 1;
    }
    assert(target.take(n as int) =~= target);
    let m = vec![pair("name", Json::str(e.0.as_str())), pair("recipes", Json::Arr(a))];
    proof {
        lemma_jv_pairs(m@);
        assert(jv_pairs(m@) =~= match var_json((e.0@, uses_v(e.1@))) {
            JsonV::Obj(x) => x,
            _ => seq![],
        });
    }
    members(m)
}

/// The JSON array of a variable table.
pub(crate) fn variables_json(t: &Vec<(String, Vec<(String, String, String)>)>) -> (r: Json)
    ensures
        jv(r) == JsonV::Arr(
            table_v(t@).map_values(|e: (Seq<char>, Seq<(Seq<char>, Seq<char>, Seq<char>)>)| var_json(e)),
        ),
{
    let ghost target = table_v(t@).map_values(|e: (Seq<char>, Seq<(Seq<char>, Seq<char>, Seq<char>)>)| var_json(e));
    let mut a: Vec<Json> = Vec::new();
    let n = t.len();
    let mut i: usize = 0;
    while i < n
        invariant
            n == t@.len(),
            i <= n,
            target == table_v(t@).map_values(|e: (Seq<char>, Seq<(Seq<char>, Seq<char>, Seq<char>)>)| var_json(e)),
            jv_seq(a@) == target.take(i as int),
        decreases n - i,
    {
        let ghost before = a@;
        a.push(var_to_json(&t[i]));
        assert(a@.drop_last() =~= before);
        assert(target.take(i + 1) =~= target.take(i as int).push(target[i as int]));
        i = i + 1;
    }
    assert(target.take(n as int) =~= target);
    Json::Arr(a)
}

fn tool_list_variables(lib: &Library) -> (r: Result<Json, ToolError>)
    ensures
        (tool_res_v(r), lib@) == tool_list_variables_v(lib@),
{
    let t = match lib.variables() {
        Ok(t) => t,
        Err(e) => {
            return Err(store(e));
        },
    };
    Ok(variables_json(&t))
}


// ---------- dispatch ----------

/// A successful tool result: the answer pretty-printed as text.
pub open spec fn tool_ok_v(v: JsonV) -> JsonV {
    JsonV::Obj(
        seq![
            ("content"@, JsonV::Arr(seq![JsonV::Obj(seq![("text"@, jtext(dump_v(v, Some(2), 0))), ("type"@, jtext("text"@))])])),
            ("isError"@, JsonV::Bool(false)),
        ],
    )
}

/// A failed tool result carrying the message.
pub open spec fn tool_failed_v(m: Seq<char>) -> JsonV {
    JsonV::Obj(
        seq![
            ("content"@, JsonV::Arr(seq![JsonV::Obj(seq![("text"@, jtext(m)), ("type"@, jtext("text"@))])])),
            ("isError"@, JsonV::Bool(true)),
        ],
    )
}

/// `tools/call`: runs the named tool on the library; its own failures are
/// reported inside the result.
pub open spec fn tools_call_v(params: JsonV, l: LibraryV, stamp: Seq<char>, now: Seq<char>) -> (
    Result<JsonV, (int, Seq<char>)>,
    LibraryV,
) {
    match jget_str(params, "name"@) {
        None => (Err((-32602, "missing tool name"@)), l),
        Some(name) => match l.open_error {
            Some(m) => (Err((-32603, "IO error: "@ + m)), l),
            None => {
                let args = match jget(params, "arguments"@) {
                    Some(a) => a,
                    None => JsonV::Null,
                };
                let (r, l2) = run_tool_v(name, args, l, stamp, now);
                match r {
                    Ok(v) => (Ok(tool_ok_v(v)), l2),
                    Err(ToolErrV::User(m)) => (Ok(tool_failed_v(m)), l2),
                    Err(ToolErrV::Rpc(c, m)) => (Err((c, m)), l2),
                }
            },
        },
    }
}

/// The result of a method call.
pub open spec fn method_v(method: Seq<char>, params: JsonV, l: LibraryV, stamp: Seq<char>, now: Seq<char>) -> (
    Result<JsonV, (int, Seq<char>)>,
    LibraryV,
) {
    if method == "initialize"@ {
        (Ok(init_result_v(params)), l)
    } else if method == "ping"@ {
        (Ok(JsonV::Obj(seq![])), l)
    } else if method == "tools/list"@ {
        (Ok(tools_list_v()), l)
    } else if method == "tools/call"@ {
        tools_call_v(params, l, stamp, now)
    } else {
        (Err((-32601, "method not found: "@ + method)), l)
    }
}

/// One JSON-RPC message: the reply (none for a notification) and the
/// library after it.
pub open spec fn handle_v(raw: Seq<char>, l: LibraryV, stamp: Seq<char>, now: Seq<char>) -> (
    Option<Seq<char>>,
    LibraryV,
) {
    match parse_spec(raw) {
        None => (Some(dump_v(rpc_error_v(JsonV::Null, -32700, "parse error: "@ + parse_error(raw)), None, 0)), l),
        Some(msg) => match jget(msg, "id"@) {
            None => (None, l),
            Some(id) => {
                let method = or_empty(jget_str(msg, "method"@));
                let params = match jget(msg, "params"@) {
                    Some(p) => p,
                    None => JsonV::Null,
                };
                let (res, l2) = method_v(method, params, l, stamp, now);
                (
                    Some(
                        dump_v(
                            match res {
                                Ok(r) => rpc_result_v(id, r),
                                Err(e) => rpc_error_v(id, e.0, e.1),
                            },
                            None,
                            0,
                        ),
                    ),
                    l2,
                )
            },
        },
    }
}

fn run_tool(name: &str, args: &Json, lib: &mut Library, stamp: &str, now: &str) -> (r: Result<Json, ToolError>)
    ensures
        (tool_res_v(r), final(lib)@) == run_tool_v(name@, jv(*args), old(lib)@, stamp@, now@),
{
    if str_eq(name, "list_prompts") {
        tool_list_prompts(lib)
    } else if str_eq(name, "get_prompt") {
        tool_get_prompt(args, lib)
    } else if str_eq(name, "render_prompt") {
        tool_render(args, lib)
    } else if str_eq(name, "create_prompt") {
        tool_create_prompt(args, lib, stamp, now)
    } else if str_eq(name, "update_prompt") {
        tool_update_prompt(args, lib, now)
    } else if str_eq(name, "delete_prompt") {
        tool_delete_prompt(args, lib)
    } else if str_eq(name, "list_recipes") {
        match lib.list_recipes() {
            Ok(rs) => Ok(recipes_to_json(&rs)),
            Err(e) => Err(store(e)),
        }
    } else if str_eq(name, "get_recipe") {
        tool_get_recipe(args, lib)
    } else if str_eq(name, "create_recipe") {
        tool_create_recipe(args, lib, stamp, now)
    } else if str_eq(name, "update_recipe") {
        tool_update_recipe(args, lib, now)
    } else if str_eq(name, "list_variables") {
        tool_list_variables(lib)
    } else {
        let mut m: Vec<char> = Vec::new();
        crate::text::extend_str(&mut m, "unknown tool: ");
        crate::text::extend_str(&mut m, name);
        Err(ToolError::Rpc(-32602, string_of(m.as_slice())))
    }
}

fn text_item(text: &str) -> (r: Json)
    ensures
        jv(r) == JsonV::Obj(seq![("text"@, jtext(text@)), ("type"@, jtext("text"@))]),
{
    let m = vec![pair("text", Json::str(text)), pair("type", Json::str("text"))];
    proof {
        lemma_jv_pairs(m@);
        assert(jv_pairs(m@) =~= seq![("text"@, jtext(text@)), ("type"@, jtext("text"@))]);
    }
    members(m)
}

fn tool_result(text: &str, is_error: bool) -> (r: Json)
    ensures
        jv(r) == JsonV::Obj(
            seq![
                ("content"@, JsonV::Arr(seq![JsonV::Obj(seq![("text"@, jtext(text@)), ("type"@, jtext("text"@))])])),
                ("isError"@, JsonV::Bool(is_error)),
            ],
        ),
{
    let items = vec![text_item(text)];
    proof {
        lemma_jv_seq(items@);
        assert(jv_seq(items@) =~= seq![JsonV::Obj(seq![("text"@, jtext(text@)), ("type"@, jtext("text"@))])]);
    }
    let m = vec![pair("content", Json::Arr(items)), pair("isError", Json::Bool(is_error))];
    proof {
        lemma_jv_pairs(m@);
    }
    let ghost expect = seq![
        ("content"@, JsonV::Arr(seq![JsonV::Obj(seq![("text"@, jtext(text@)), ("type"@, jtext("text"@))])])),
        ("isError"@, JsonV::Bool(is_error)),
    ];
    assert(jv_pairs(m@) =~= expect);
    members(m)
}

fn tools_call(params: &Json, lib: &mut Library, stamp: &str, now: &str) -> (r: Result<Json, (i64, String)>)
    ensures
        ((match r {
            Ok(v) => Ok(jv(v)),
            Err(e) => Err((e.0 as int, e.1@)),
        }), final(lib)@) == tools_call_v(jv(*params), old(lib)@, stamp@, now@),
{
    let name = match params.get_str("name") {
        Some(n) => copy_string(n),
        None => {
            return Err((-32602, copy_string("missing tool name")));
        },
    };
    match lib.open_error() {
        Some(m) => {
            let mut t: Vec<char> = Vec::new();
            crate::text::extend_str(&mut t, "IO error: ");
            crate::text::extend_str(&mut t, m.as_str());
            return Err((-32603, string_of(t.as_slice())));
        },
        None => {},
    }
    let args = match params.get("arguments") {
        Some(a) => crate::json::copy_json(a),
        None => Json::Null,
    };
    let res = run_tool(name.as_str(), &args, lib, stamp, now);
    match res {
        Ok(v) => {
            let text = v.pretty();
            Ok(tool_result(text.as_str(), false))
        },
        Err(ToolError::User(m)) => Ok(tool_result(m.as_str(), true)),
        Err(ToolError::Rpc(c, m)) => Err((c, m)),
    }
}

/// Handles one raw JSON-RPC message against the library; answers `None`
/// for a notification. A prompt a tool creates gets the id `p-<stamp>`, a
/// recipe `r-<stamp>`; `now` is their time stamp.
pub fn handle_message(raw: &str, lib: &mut Library, stamp: &str, now: &str) -> (r: Option<String>)
    ensures
        handle_v(raw@, old(lib)@, stamp@, now@) == (
            match r {
                Some(s) => Some(s@),
                None => None,
            },
            final(lib)@,
        ),
{
    let msg = match Json::parse(raw) {
        Ok(m) => m,
        Err(e) => {
            let mut t: Vec<char> = Vec::new();
            crate::text::extend_str(&mut t, "parse error: ");
            crate::text::extend_str(&mut t, e.as_str());
            let out = rpc_error(Json::Null, -32700, string_of(t.as_slice()).as_str()).dump();
            assert(handle_v(raw@, old(lib)@, stamp@, now@) == (Some(out@), lib@));
            return Some(out);
        },
    };
    let id = match msg.get("id") {
        Some(i) => crate::json::copy_json(i),
        None => {
            assert(handle_v(raw@, old(lib)@, stamp@, now@) == (None::<Seq<char>>, lib@));
            return None;
        },
    };
    let method = match msg.get_str("method") {
        Some(m) => copy_string(m),
        None => String::new(),
    };
    let params = match msg.get("params") {
        Some(p) => crate::json::copy_json(p),
        None => Json::Null,
    };
    let ghost idv = jv(id);
    let res = if str_eq(method.as_str(), "initialize") {
        Ok(initialize_result(&params))
    } else if str_eq(method.as_str(), "ping") {
        let empty: Vec<(String, Json)> = Vec::new();
        assert(jv_pairs(empty@) =~= seq![]);
        Ok(members(empty))
    } else if str_eq(method.as_str(), "tools/list") {
        Ok(tools_list())
    } else if str_eq(method.as_str(), "tools/call") {
        tools_call(&params, lib, stamp, now)
    } else {
        let mut t: Vec<char> = Vec::new();
        crate::text::extend_str(&mut t, "method not found: ");
        crate::text::extend_str(&mut t, method.as_str());
        Err((-32601i64, string_of(t.as_slice())))
    };
    let reply = match res {
        Ok(r) => rpc_result(id, r),
        Err((code, m)) => rpc_error(id, code, m.as_str()),
    };
    let out = reply.dump();
    assert(handle_v(raw@, old(lib)@, stamp@, now@) == (Some(out@), lib@));
    Some(out)
}

/// The reply to a message whose library writes failed: the call's own
/// failure, `IO error: <reason>`, reported inside a tool result (none for
/// a notification or text that is not JSON).
pub open spec fn write_failed_v(raw: Seq<char>, reason: Seq<char>) -> Option<Seq<char>> {
    match parse_spec(raw) {
        Some(msg) => match jget(msg, "id"@) {
            Some(id) => Some(dump_v(rpc_result_v(id, tool_failed_v("IO error: "@ + reason)), None, 0)),
            None => None,
        },
        None => None,
    }
}

/// The reply to a message when writing what it changed failed.
pub fn write_failed_reply(raw: &str, reason: &str) -> (r: Option<String>)
    ensures
        match r {
            Some(s) => write_failed_v(raw@, reason@) == Some(s@),
            None => write_failed_v(raw@, reason@) is None,
        },
{
    let msg = match Json::parse(raw) {
        Ok(m) => m,
        Err(_) => {
            return None;
        },
    };
    let id = match msg.get("id") {
        Some(i) => crate::json::copy_json(i),
        None => {
            return None;
        },
    };
    let mut t: Vec<char> = Vec::new();
    crate::text::extend_str(&mut t, "IO error: ");
    crate::text::extend_str(&mut t, reason);
    let text = string_of(t.as_slice());
    Some(rpc_result(id, tool_result(text.as_str(), true)).dump())
}

fn initialize_result(params: &Json) -> (r: Json)
    ensures
        jv(r) == init_result_v(jv(*params)),
{
    let v = match params.get_str("protocolVersion") {
        Some(v) => copy_string(v),
        None => copy_string(PROTOCOL_VERSION),
    };
    let tools: Vec<(String, Json)> = Vec::new();
    assert(jv_pairs(tools@) =~= seq![]);
    let caps = vec![pair("tools", members(tools))];
    proof {
        lemma_jv_pairs(caps@);
        assert(jv_pairs(caps@) =~= seq![("tools"@, JsonV::Obj(seq![]))]);
    }
    let info = vec![pair("name", Json::str(SERVER_NAME)), pair("version", Json::str(SERVER_VERSION))];
    proof {
        lemma_jv_pairs(info@);
        assert(jv_pairs(info@) =~= seq![("name"@, jtext(SERVER_NAME@)), ("version"@, jtext(SERVER_VERSION@))]);
    }
    let m = vec![pair("capabilities", members(caps)), pair("protocolVersion", Json::Str(v)), pair("serverInfo", members(info))];
    proof {
        lemma_jv_pairs(m@);
        assert(jv_pairs(m@) =~= match init_result_v(jv(*params)) {
            JsonV::Obj(x) => x,
            _ => seq![],
        });
    }
    members(m)
}

// ---------- laws ----------

/// A notification (a message without `id`) gets no reply and changes nothing.
pub proof fn lemma_notification_silent(
    raw: Seq<char>,
    l: LibraryV,
    stamp: Seq<char>,
    now: Seq<char>,
)
    requires
        parse_spec(raw) matches Some(msg) && jget(msg, "id"@) is None,
    ensures
        handle_v(raw, l, stamp, now) == (None::<Seq<char>>, l),
{
}

/// Text that is not JSON is answered with a parse error (code -32700, id
/// `null`) and changes nothing.
pub proof fn lemma_parse_error_answered(
    raw: Seq<char>,
    l: LibraryV,
    stamp: Seq<char>,
    now: Seq<char>,
)
    requires
        parse_spec(raw) is None,
    ensures
        handle_v(raw, l, stamp, now) == (
            Some(dump_v(rpc_error_v(JsonV::Null, -32700, "parse error: "@ + parse_error(raw)), None, 0)),
            l,
        ),
{
}

/// The reading tools (`list_prompts`, `get_prompt`, `render_prompt`,
/// `list_recipes`, `get_recipe`, `list_variables`) never change the library.
pub proof fn lemma_read_tools_change_nothing(
    name: Seq<char>,
    args: JsonV,
    l: LibraryV,
    stamp: Seq<char>,
    now: Seq<char>,
)
    requires
        name == "list_prompts"@ || name == "get_prompt"@ || name == "render_prompt"@ || name
            == "list_recipes"@ || name == "get_recipe"@ || name == "list_variables"@,
    ensures
        run_tool_v(name, args, l, stamp, now).1 == l,
{
    reveal_strlit("list_prompts");
    reveal_strlit("get_prompt");
    reveal_strlit("render_prompt");
    reveal_strlit("create_prompt");
    reveal_strlit("update_prompt");
    reveal_strlit("delete_prompt");
    reveal_strlit("list_recipes");
    reveal_strlit("get_recipe");
    reveal_strlit("create_recipe");
    reveal_strlit("update_recipe");
    reveal_strlit("list_variables");
}

/// `get_prompt` answers with the prompt it finds, with its stored fields:
/// its id, title, text, creation stamp and last-save stamp as they stand in
/// its file.
pub proof fn lemma_get_prompt_fields(args: JsonV, l: LibraryV)
    requires
        tool_get_prompt_v(args, l).0 is Ok,
    ensures
        exists|p: PromptV|
            #![trigger prompt_json(p)]
            {
                let body = tool_get_prompt_v(args, l).0->Ok_0;
                &&& prompt_by_id(l, p.id) == Ok::<PromptV, ErrV>(p)
                &&& body == prompt_json(p)
                &&& jget_str(body, "id"@) == Some(p.id)
                &&& jget_str(body, "title"@) == Some(p.title)
                &&& jget_str(body, "content"@) == Some(p.content)
                &&& jget_str(body, "created"@) == Some(p.created)
                &&& jget_str(body, "updated"@) == Some(p.updated)
            },
{
    let key = req_str_v(args, "id"@)->Ok_0;
    let id = find_prompt_id_v(l, key)->Ok_0;
    let p = prompt_by_id(l, id)->Ok_0;
    crate::storage::lemma_find_prompt_found(prompts_of(l)->Ok_0, id);
    lemma_prompt_json_fields(p);
}

/// `create_recipe` answers with the recipe it made and saved: on success
/// the answer is the JSON form of a recipe with the given `name` (shown in
/// the answer) whose values hold each string member of a `values` object
/// argument under that member's name (shown in the answer's `values`).
pub proof fn lemma_create_recipe_applies(args: JsonV, l: LibraryV, stamp: Seq<char>, now: Seq<char>)
    requires
        tool_create_recipe_v(args, l, stamp, now).0 is Ok,
    ensures
        exists|x: RecipeV|
            #![trigger recipe_json(x)]
            {
                &&& tool_create_recipe_v(args, l, stamp, now).0 == Ok::<JsonV, ToolErrV>(recipe_json(x))
                &&& jget_str(args, "name"@) == Some(x.name)
                &&& jget_str(recipe_json(x), "name"@) == Some(x.name)
                &&& (values_arg(args) matches Some(vs) ==> forall|i: int|
                    0 <= i < vs.len() ==> value_of(x.values, (#[trigger] vs[i]).0) == Some(vs[i].1) && jget(
                        recipe_json(x),
                        "values"@,
                    ) == Some(JsonV::Obj(crate::model::values_json(x.values))) && crate::json::members_get(
                        crate::model::values_json(x.values),
                        vs[i].0,
                    ) == Some(JsonV::Str(vs[i].1)))
            },
{
    let name = req_str_v(args, "name"@)->Ok_0;
    let id = prefixed_id("r"@, stamp);
    lemma_create_recipe_gives(l, id, now, name);
    let (c, l2) = create_recipe_spec(l, id, now, name);
    let r = c->Ok_0;
    match values_arg(args) {
        None => {
            lemma_recipe_json_fields(r);
        },
        Some(vals) => {
            let u = RecipeV { values: vals, ..r };
            lemma_save_recipe_keeps_given(l2, now, u);
            let x = save_recipe_spec(l2, now, u).0->Ok_0;
            lemma_recipe_json_fields(x);
            assert forall|i: int| 0 <= i < vals.len() implies crate::json::members_get(
                crate::model::values_json(x.values),
                (#[trigger] vals[i]).0,
            ) == Some(JsonV::Str(vals[i].1)) by {
                crate::model::lemma_values_json_get(x.values, vals[i].0);
            }
        },
    }
}

/// `create_prompt` answers with the prompt it made: on success the answer
/// is the JSON form of a prompt with the given `title` and `content` (an
/// empty body when none is given), created and last saved at `now`.
pub proof fn lemma_create_prompt_applies(args: JsonV, l: LibraryV, stamp: Seq<char>, now: Seq<char>)
    requires
        tool_create_prompt_v(args, l, stamp, now).0 is Ok,
    ensures
        exists|x: PromptV|
            #![trigger prompt_json(x)]
            {
                &&& tool_create_prompt_v(args, l, stamp, now).0 == Ok::<JsonV, ToolErrV>(prompt_json(x))
                &&& jget_str(args, "title"@) == Some(x.title)
                &&& x.content == or_empty(jget_str(args, "content"@))
                &&& x.created == now
                &&& x.updated == now
                &&& jget_str(prompt_json(x), "title"@) == Some(x.title)
                &&& jget_str(prompt_json(x), "content"@) == Some(x.content)
                &&& jget_str(prompt_json(x), "created"@) == Some(now)
            },
{
    let title = req_str_v(args, "title"@)->Ok_0;
    let id = prefixed_id("p"@, stamp);
    let content = or_empty(jget_str(args, "content"@));
    lemma_create_prompt_gives(l, id, now, title, content);
    let x = create_prompt_spec(l, id, now, title, content).0->Ok_0;
    lemma_prompt_json_fields(x);
}

/// `update_recipe` saves the recipe with the name and values it is given
/// and answers with what it saved: on success the answer is the JSON form
/// of the recipe that `save_recipe` wrote, a string `name` argument is that
/// recipe's name (and the answer's `name`), and each string member of a
/// `values` object argument is its value under that member's name (in the
/// saved recipe and in the answer's `values`).
pub proof fn lemma_update_recipe_applies(args: JsonV, l: LibraryV, now: Seq<char>)
    requires
        tool_update_recipe_v(args, l, now).0 is Ok,
    ensures
        exists|u: RecipeV, x: RecipeV|
            #![trigger save_recipe_spec(l, now, u), recipe_json(x)]
            {
                &&& save_recipe_spec(l, now, u) == (Ok::<RecipeV, ErrV>(x), tool_update_recipe_v(args, l, now).1)
                &&& tool_update_recipe_v(args, l, now).0 == Ok::<JsonV, ToolErrV>(recipe_json(x))
                &&& (jget_str(args, "name"@) matches Some(n) ==> x.name == n && jget_str(recipe_json(x), "name"@) == Some(n))
                &&& (values_arg(args) matches Some(vs) ==> forall|i: int|
                    0 <= i < vs.len() ==> value_of(x.values, (#[trigger] vs[i]).0) == Some(vs[i].1) && jget(
                        recipe_json(x),
                        "values"@,
                    ) == Some(JsonV::Obj(crate::model::values_json(x.values))) && crate::json::members_get(
                        crate::model::values_json(x.values),
                        vs[i].0,
                    ) == Some(JsonV::Str(vs[i].1)))
            },
{
    let key = req_str_v(args, "id"@)->Ok_0;
    let id = find_recipe_id_v(l, key)->Ok_0;
    let r = recipe_by_id(l, id)->Ok_0;
    let u = RecipeV {
        name: match jget_str(args, "name"@) {
            Some(n) => n,
            None => r.name,
        },
        values: match values_arg(args) {
            Some(v) => v,
            None => r.values,
        },
        ..r
    };
    lemma_save_recipe_keeps_given(l, now, u);
    let x = save_recipe_spec(l, now, u).0->Ok_0;
    lemma_recipe_json_fields(x);
    if let Some(vs) = values_arg(args) {
        assert forall|i: int| 0 <= i < vs.len() implies crate::json::members_get(
            crate::model::values_json(x.values),
            (#[trigger] vs[i]).0,
        ) == Some(JsonV::Str(vs[i].1)) by {
            crate::model::lemma_values_json_get(x.values, vs[i].0);
        }
    }
    assert(save_recipe_spec(l, now, u) == (Ok::<RecipeV, ErrV>(x), tool_update_recipe_v(args, l, now).1));
}

/// `update_prompt` saves the prompt with the title and body it is given and
/// answers with what it saved: on success the answer is the JSON form of
/// the prompt that `save_prompt` wrote, a string `title` or `content`
/// argument is that prompt's title or body, and its `created` stamp is the
/// one the prompt had before (or the save's time when it had none).
pub proof fn lemma_update_prompt_applies(args: JsonV, l: LibraryV, now: Seq<char>)
    requires
        tool_update_prompt_v(args, l, now).0 is Ok,
    ensures
        exists|u: PromptV, x: PromptV|
            #![trigger save_prompt_spec(l, now, u), prompt_json(x)]
            {
                &&& save_prompt_spec(l, now, u) == (Ok::<PromptV, ErrV>(x), tool_update_prompt_v(args, l, now).1)
                &&& tool_update_prompt_v(args, l, now).0 == Ok::<JsonV, ToolErrV>(prompt_json(x))
                &&& (jget_str(args, "title"@) matches Some(t) ==> x.title == t && jget_str(prompt_json(x), "title"@) == Some(t))
                &&& (jget_str(args, "content"@) matches Some(c) ==> x.content == c && jget_str(prompt_json(x), "content"@) == Some(c))
                &&& prompt_by_id(l, u.id) matches Ok(before) && x.created == (if before.created.len() == 0 {
                    now
                } else {
                    before.created
                })
                &&& jget_str(prompt_json(x), "created"@) == Some(x.created)
            },
{
    let key = req_str_v(args, "id"@)->Ok_0;
    let id = find_prompt_id_v(l, key)->Ok_0;
    let p = prompt_by_id(l, id)->Ok_0;
    let u = PromptV {
        title: match jget_str(args, "title"@) {
            Some(t) => t,
            None => p.title,
        },
        content: match jget_str(args, "content"@) {
            Some(c) => c,
            None => p.content,
        },
        ..p
    };
    lemma_save_prompt_keeps_given(l, now, u);
    let x = save_prompt_spec(l, now, u).0->Ok_0;
    lemma_prompt_json_fields(x);
    assert(save_prompt_spec(l, now, u) == (Ok::<PromptV, ErrV>(x), tool_update_prompt_v(args, l, now).1));
}

/// Prompts can be addressed by title: a key that is no prompt's id names
/// the first prompt with that title.
pub proof fn lemma_prompt_addressed_by_title(l: LibraryV, key: Seq<char>)
    requires
        prompts_of(l) matches Ok(ps) && find_prompt(ps, key) is None && find_titled(ps, key) is Some,
    ensures
        find_prompt_id_v(l, key) == Ok::<Seq<char>, ToolErrV>(find_titled(prompts_of(l)->Ok_0, key)->Some_0.id),
{
}

/// Recipes can be addressed by name: a key that is no recipe's id names the
/// first recipe with that name.
pub proof fn lemma_recipe_addressed_by_name(l: LibraryV, key: Seq<char>)
    requires
        l.recipes_error is None,
        find_recipe(recipes_of(l), key) is None,
        find_named(recipes_of(l), key) is Some,
    ensures
        find_recipe_id_v(l, key) == Ok::<Seq<char>, ToolErrV>(find_named(recipes_of(l), key)->Some_0.id),
{
}

/// A reply: `jsonrpc` "2.0", the request's `id`, and exactly one of
/// `result` and `error`.
pub open spec fn reply_shape(v: JsonV, id: JsonV) -> bool {
    &&& jget(v, "jsonrpc"@) == Some(jtext("2.0"@))
    &&& jget(v, "id"@) == Some(id)
    &&& (jget(v, "result"@) is Some) != (jget(v, "error"@) is Some)
}

proof fn lemma_reply_members(id: JsonV, r: JsonV, code: int, m: Seq<char>)
    ensures
        reply_shape(rpc_result_v(id, r), id),
        reply_shape(rpc_error_v(id, code, m), id),
        jget(rpc_error_v(id, code, m), "error"@) == Some(JsonV::Obj(seq![("code"@, jint(code)), ("message"@, jtext(m))])),
{
    reveal_strlit("error");
    reveal_strlit("id");
    reveal_strlit("jsonrpc");
    reveal_strlit("result");
    let (ke, ki, kj, kr) = ("error"@, "id"@, "jsonrpc"@, "result"@);
    assert(ke.len() == 5 && ki.len() == 2 && kj.len() == 7 && kr.len() == 6);
    assert(ke != kr && ke[0] != kr[0]);
    let a = seq![(ki, id), (kj, jtext("2.0"@)), (kr, r)];
    let a1 = a.drop_first();
    let a2 = a1.drop_first();
    assert(a1[0] == (kj, jtext("2.0"@)) && a2[0] == (kr, r));
    assert(a2.drop_first() =~= seq![]);
    assert(crate::json::members_get(a2.drop_first(), ke) == None::<JsonV>);
    assert(crate::json::members_get(a2, ke) == None::<JsonV>);
    assert(crate::json::members_get(a1, ke) == None::<JsonV>);
    assert(crate::json::members_get(a, ke) == None::<JsonV>);
    assert(crate::json::members_get(a1, kj) == Some(jtext("2.0"@)));
    assert(crate::json::members_get(a2, kr) == Some(r));
    assert(crate::json::members_get(a1, kr) == Some(r));
    assert(crate::json::members_get(a, kr) == Some(r));
    let ev = JsonV::Obj(seq![("code"@, jint(code)), ("message"@, jtext(m))]);
    let b = seq![(ke, ev), (ki, id), (kj, jtext("2.0"@))];
    let b1 = b.drop_first();
    let b2 = b1.drop_first();
    assert(b1[0] == (ki, id) && b2[0] == (kj, jtext("2.0"@)));
    assert(b2.drop_first() =~= seq![]);
    assert(crate::json::members_get(b2.drop_first(), kr) == None::<JsonV>);
    assert(b2[0].0 != kr);
    assert(crate::json::members_get(b2, kr) == None::<JsonV>);
    assert(crate::json::members_get(b1, kr) == None::<JsonV>);
    assert(crate::json::members_get(b, kr) == None::<JsonV>);
    assert(crate::json::members_get(b2, kj) == Some(jtext("2.0"@)));
    assert(crate::json::members_get(b1, kj) == Some(jtext("2.0"@)));
    assert(crate::json::members_get(b, kj) == Some(jtext("2.0"@)));
    assert(crate::json::members_get(b1, ki) == Some(id));
    assert(crate::json::members_get(b, ki) == Some(id));
}

/// Every message with an `id` gets one reply: an object with `jsonrpc`
/// "2.0", the same `id`, and exactly one of `result` and `error`; a method
/// the server does not know is answered with error -32601.
pub proof fn lemma_reply_shape(raw: Seq<char>, l: LibraryV, stamp: Seq<char>, now: Seq<char>)
    requires
        parse_spec(raw) matches Some(msg) && jget(msg, "id"@) is Some,
    ensures
        ({
            let msg = parse_spec(raw)->Some_0;
            let id = jget(msg, "id"@)->Some_0;
            let method = or_empty(jget_str(msg, "method"@));
            exists|v: JsonV|
                handle_v(raw, l, stamp, now).0 == Some(dump_v(v, None, 0)) && #[trigger] reply_shape(v, id) && (!(method
                    == "initialize"@ || method == "ping"@ || method == "tools/list"@ || method == "tools/call"@)
                    ==> jget(v, "error"@) == Some(JsonV::Obj(seq![("code"@, jint(-32601)), ("message"@, jtext("method not found: "@ + method))])))
        }),
{
    let msg = parse_spec(raw)->Some_0;
    let id = jget(msg, "id"@)->Some_0;
    let method = or_empty(jget_str(msg, "method"@));
    let params = match jget(msg, "params"@) {
        Some(p) => p,
        None => JsonV::Null,
    };
    let res = method_v(method, params, l, stamp, now).0;
    let v = match res {
        Ok(r) => rpc_result_v(id, r),
        Err(e) => rpc_error_v(id, e.0, e.1),
    };
    match res {
        Ok(r) => lemma_reply_members(id, r, 0, seq![]),
        Err(e) => lemma_reply_members(id, JsonV::Null, e.0, e.1),
    }
    assert(handle_v(raw, l, stamp, now).0 == Some(dump_v(v, None, 0)));
    assert(reply_shape(v, id));
}

/// The tools by name.
pub open spec fn is_tool(name: Seq<char>) -> bool {
    name == "list_prompts"@ || name == "get_prompt"@ || name == "render_prompt"@ || name == "create_prompt"@
        || name == "update_prompt"@ || name == "delete_prompt"@ || name == "list_recipes"@ || name
        == "get_recipe"@ || name == "create_recipe"@ || name == "update_recipe"@ || name == "list_variables"@
}

/// Tool errors are soft: a call of a tool that exists, on a library that
/// opened, is always answered with a result; the tool's own failures come
/// inside it (`isError: true`), never as a protocol error.
pub proof fn lemma_tool_errors_are_soft(params: JsonV, l: LibraryV, stamp: Seq<char>, now: Seq<char>)
    requires
        jget_str(params, "name"@) matches Some(name) && is_tool(name),
        l.open_error is None,
    ensures
        tools_call_v(params, l, stamp, now).0 is Ok,
{
    reveal_strlit("list_prompts");
    reveal_strlit("get_prompt");
    reveal_strlit("render_prompt");
    reveal_strlit("create_prompt");
    reveal_strlit("update_prompt");
    reveal_strlit("delete_prompt");
    reveal_strlit("list_recipes");
    reveal_strlit("get_recipe");
    reveal_strlit("create_recipe");
    reveal_strlit("update_recipe");
    reveal_strlit("list_variables");
}

/// The protocol methods other than `tools/call` never change the library.
pub proof fn lemma_protocol_changes_nothing(
    method: Seq<char>,
    params: JsonV,
    l: LibraryV,
    stamp: Seq<char>,
    now: Seq<char>,
)
    requires
        method != "tools/call"@,
    ensures
        method_v(method, params, l, stamp, now).1 == l,
{
}

/// Whether answering the message reads the library: a call of a named tool.
pub open spec fn needs_library_v(raw: Seq<char>) -> bool {
    match parse_spec(raw) {
        Some(msg) => {
            &&& jget(msg, "id"@) is Some
            &&& jget_str(msg, "method"@) == Some("tools/call"@)
            &&& jget(msg, "params"@) matches Some(p) && jget_str(p, "name"@) is Some
        },
        None => false,
    }
}

/// Whether `handle_message` reads the library for this message; when it
/// does not, the caller can answer with an empty library and touch no disk.
pub fn needs_library(raw: &str) -> (r: bool)
    ensures
        r == needs_library_v(raw@),
{
    let msg = match Json::parse(raw) {
        Ok(m) => m,
        Err(_) => {
            return false;
        },
    };
    if msg.get("id").is_none() {
        return false;
    }
    match msg.get_str("method") {
        Some(m) => if !str_eq(m, "tools/call") {
            return false;
        },
        None => {
            return false;
        },
    }
    match msg.get("params") {
        Some(p) => p.get_str("name").is_some(),
        None => false,
    }
}

/// A message that does not need the library is answered the same on every
/// library, and changes none.
pub proof fn lemma_answer_without_library(
    raw: Seq<char>,
    l1: LibraryV,
    l2: LibraryV,
    stamp: Seq<char>,
    now: Seq<char>,
)
    requires
        !needs_library_v(raw),
    ensures
        handle_v(raw, l1, stamp, now).0 == handle_v(raw, l2, stamp, now).0,
        handle_v(raw, l1, stamp, now).1 == l1,
{
    if let Some(msg) = parse_spec(raw) {
        if let Some(id) = jget(msg, "id"@) {
            let method = or_empty(jget_str(msg, "method"@));
            let params = match jget(msg, "params"@) {
                Some(p) => p,
                None => JsonV::Null,
            };
            if method == "tools/call"@ {
                reveal_strlit("tools/call");
                assert(jget_str(msg, "method"@) == Some("tools/call"@));
                assert(jget_str(params, "name"@) is None);
                assert(tools_call_v(params, l1, stamp, now) == (
                    Err::<JsonV, (int, Seq<char>)>((-32602, "missing tool name"@)),
                    l1,
                ));
                assert(tools_call_v(params, l2, stamp, now) == (
                    Err::<JsonV, (int, Seq<char>)>((-32602, "missing tool name"@)),
                    l2,
                ));
            }
            assert(method_v(method, params, l1, stamp, now).0 == method_v(method, params, l2, stamp, now).0);
            assert(method_v(method, params, l1, stamp, now).1 == l1);
        }
    }
}

} // verus!
