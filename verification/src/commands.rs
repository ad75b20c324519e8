//! The desktop app's commands: library operations that take and give JSON
//! text, as the app's frontend exchanges them. The app opens the library,
//! runs a command and writes back what it changed; the clock, the id stamp
//! and the UI language come in as arguments.

use vstd::prelude::*;
use crate::json::{Json, JsonV, dump_v, jget, jget_str, jstr, jv, jv_pairs, jv_seq, lemma_jv_pairs, parse_error, parse_spec};
use crate::mcp::{values_arg, members, pair, prompts_json, prompts_to_json, recipes_json, recipes_to_json, rendered, rendered_json, str_members, values_of_arg, var_json, variables_json};
use crate::model::{Prompt, PromptV, Recipe, RecipeV, prompt_json, recipe_json, strs_json, strs_to_json};
use crate::storage::{ErrV, Library, LibraryV, StoreError, add_variable_spec, error_message, create_prompt_spec, create_recipe_spec, delete_recipe_spec, delete_variable_spec, recipe_by_id, rename_variable_spec, save_recipe_spec, delete_prompt_spec, duplicate_prompt_spec, err_v, prompt_by_id, prompts_of, prompts_v, reorder_spec, save_prompt_spec, recipes_of, reconciled, render_prompt_spec, str_values, titles_using_recipe, titles_using_variable, variable_table};
use crate::text::{chars_of, copy_string, string_of, views};
use crate::util::{prefixed, prefixed_id};
use crate::yamlish::pairs_v;

verus! {

/// Compact JSON text of a value.
pub open spec fn compact(v: JsonV) -> Seq<char> {
    dump_v(v, None, 0)
}

/// A command's outcome as text.
pub open spec fn out_v(r: Result<String, String>) -> Result<Seq<char>, Seq<char>> {
    match r {
        Ok(s) => Ok(s@),
        Err(m) => Err(m@),
    }
}

/// A command's outcome when it answers nothing.
pub open spec fn done_v(r: Result<(), String>) -> Result<(), Seq<char>> {
    match r {
        Ok(_) => Ok(()),
        Err(m) => Err(m@),
    }
}

/// An optional text.
pub open spec fn str_opt(o: Option<&str>) -> Option<Seq<char>> {
    match o {
        Some(x) => Some(x@),
        None => None,
    }
}

/// A JSON array of names, as text.
pub open spec fn names_text(names: Seq<Seq<char>>) -> Seq<char> {
    compact(JsonV::Arr(strs_json(names)))
}

/// The outcome of a library operation that answers names.
pub open spec fn names_out(r: Result<Seq<Seq<char>>, ErrV>) -> Result<Seq<char>, Seq<char>> {
    match r {
        Ok(names) => Ok(names_text(names)),
        Err(e) => Err(error_message(e)),
    }
}

fn fail(e: StoreError) -> (r: String)
    ensures
        r@ == error_message(err_v(e)),
{
    e.message()
}

fn names_json(names: &Vec<String>) -> (r: String)
    ensures
        r@ == names_text(views(names@)),
{
    strs_to_json(names).dump()
}

fn names_result(r: Result<Vec<String>, StoreError>) -> (out: Result<String, String>)
    ensures
        out_v(out) == names_out(
            match r {
                Ok(v) => Ok(views(v@)),
                Err(e) => Err(err_v(e)),
            },
        ),
{
    match r {
        Ok(v) => Ok(names_json(&v)),
        Err(e) => Err(fail(e)),
    }
}

// ---------- reading ----------

/// Everything the frontend shows: prompts in listing order, recipes,
/// the variable table and the app's settings.
pub open spec fn snapshot_v(l: LibraryV, settings: JsonV) -> Result<Seq<char>, Seq<char>> {
    match prompts_of(l) {
        Err(e) => Err(error_message(e)),
        Ok(ps) => match l.recipes_error {
            Some(m) => Err(error_message(ErrV::Io(m))),
            None => match reconciled(l) {
                Err(e) => Err(error_message(e)),
                Ok(names) => Ok(
                    compact(
                        JsonV::Obj(
                            seq![
                                ("prompts"@, prompts_json(ps)),
                                ("recipes"@, recipes_json(recipes_of(l))),
                                ("settings"@, settings),
                                ("variables"@, JsonV::Arr(
                                    variable_table(names, recipes_of(l)).map_values(
                                        |e: (Seq<char>, Seq<(Seq<char>, Seq<char>, Seq<char>)>)| var_json(e),
                                    ),
                                )),
                            ],
                        ),
                    ),
                ),
            },
        },
    }
}

/// Everything the frontend needs in one call, as compact JSON.
#[verifier::rlimit(40)]
pub fn state_snapshot(lib: &Library, settings: &Json) -> (r: Result<String, String>)
    ensures
        out_v(r) == snapshot_v(lib@, jv(*settings)),
{
    let ps = match lib.list_prompts() {
        Ok(ps) => ps,
        Err(e) => {
            return Err(fail(e));
        },
    };
    let rs = match lib.list_recipes() {
        Ok(rs) => rs,
        Err(e) => {
            return Err(fail(e));
        },
    };
    let t = match lib.variables() {
        Ok(t) => t,
        Err(e) => {
            return Err(fail(e));
        },
    };
    let m = vec![
        pair("prompts", prompts_to_json(&ps)),
        pair("recipes", recipes_to_json(&rs)),
        pair("settings", crate::json::copy_json(settings)),
        pair("variables", variables_json(&t)),
    ];
    proof {
        lemma_jv_pairs(m@);
    }
    let j = members(m);
    let ghost target = JsonV::Obj(
        seq![
            ("prompts"@, prompts_json(prompts_v(ps@))),
            ("recipes"@, recipes_json(recipes_of(lib@))),
            ("settings"@, jv(*settings)),
            ("variables"@, JsonV::Arr(
                variable_table(reconciled(lib@)->Ok_0, recipes_of(lib@)).map_values(
                    |e: (Seq<char>, Seq<(Seq<char>, Seq<char>, Seq<char>)>)| var_json(e),
                ),
            )),
        ],
    );
    assert(jv(j) == target) by {
        assert(jv_pairs(m@) =~= target->Obj_0);
    }
    Ok(j.dump())
}

/// Titles of the prompts that have a recipe assigned.
pub open spec fn recipe_usage_v(l: LibraryV, id: Seq<char>) -> Result<Seq<Seq<char>>, ErrV> {
    match prompts_of(l) {
        Err(e) => Err(e),
        Ok(ps) => Ok(titles_using_recipe(ps, id)),
    }
}

/// Titles of the prompts whose body uses a variable.
pub open spec fn variable_usage_v(l: LibraryV, name: Seq<char>) -> Result<Seq<Seq<char>>, ErrV> {
    match prompts_of(l) {
        Err(e) => Err(e),
        Ok(ps) => Ok(titles_using_variable(ps, name)),
    }
}

/// Titles of the prompts that use a recipe.
pub fn recipe_usage(lib: &Library, id: &str) -> (r: Result<String, String>)
    ensures
        out_v(r) == names_out(recipe_usage_v(lib@, id@)),
{
    names_result(lib.recipe_usage(id))
}

/// Titles of the prompts whose body still uses a variable.
pub fn variable_usage(lib: &Library, name: &str) -> (r: Result<String, String>)
    ensures
        out_v(r) == names_out(variable_usage_v(lib@, name@)),
{
    names_result(lib.variable_usage(name))
}

/// The text of a prompt rendered with a recipe (or none), and the names
/// left without a value, as compact JSON.
pub open spec fn render_v(l: LibraryV, pid: Seq<char>, rid: Option<Seq<char>>) -> Result<Seq<char>, Seq<char>> {
    match render_prompt_spec(l, pid, rid, seq![]) {
        Err(e) => Err(error_message(e)),
        Ok(out) => Ok(compact(rendered_json(out.0, out.1))),
    }
}

/// Renders a prompt with a recipe, or raw.
pub fn render_prompt(lib: &Library, prompt_id: &str, recipe_id: Option<&str>) -> (r: Result<String, String>)
    ensures
        out_v(r) == render_v(lib@, prompt_id@, str_opt(recipe_id)),
{
    let ghost rid = str_opt(recipe_id);
    let none: Vec<(String, String)> = Vec::new();
    assert(crate::yamlish::pairs_v(none@) =~= seq![]);
    match lib.render_prompt(prompt_id, recipe_id, &none) {
        Ok(out) => Ok(rendered(out.text.as_str(), &out.missing).dump()),
        Err(e) => Err(fail(e)),
    }
}


// ---------- outcomes ----------

/// The outcome of a library operation that answers a prompt.
pub open spec fn prompt_out(r: Result<PromptV, ErrV>) -> Result<Seq<char>, Seq<char>> {
    match r {
        Ok(p) => Ok(compact(prompt_json(p))),
        Err(e) => Err(error_message(e)),
    }
}

/// The outcome of a library operation that answers a recipe.
pub open spec fn recipe_out(r: Result<RecipeV, ErrV>) -> Result<Seq<char>, Seq<char>> {
    match r {
        Ok(x) => Ok(compact(recipe_json(x))),
        Err(e) => Err(error_message(e)),
    }
}

/// The outcome of a library operation whose answer the command drops.
pub open spec fn done_out<T>(r: Result<T, ErrV>) -> Result<(), Seq<char>> {
    match r {
        Ok(_) => Ok(()),
        Err(e) => Err(error_message(e)),
    }
}

// ---------- prompts ----------

/// `create_prompt`: a new prompt with id `p-<stamp>`.
pub open spec fn create_prompt_cmd(
    l: LibraryV,
    stamp: Seq<char>,
    now: Seq<char>,
    title: Seq<char>,
    content: Seq<char>,
) -> (Result<Seq<char>, Seq<char>>, LibraryV) {
    let (r, l2) = create_prompt_spec(l, prefixed_id("p"@, stamp), now, title, content);
    (prompt_out(r), l2)
}

/// Creates a prompt and answers it as compact JSON.
pub fn create_prompt(lib: &mut Library, stamp: &str, now: &str, title: &str, content: &str) -> (r: Result<String, String>)
    ensures
        (out_v(r), final(lib)@) == create_prompt_cmd(old(lib)@, stamp@, now@, title@, content@),
{
    let id = prefixed("p", stamp);
    match lib.create_prompt(id.as_str(), now, title, content) {
        Ok(p) => Ok(p.to_json().dump()),
        Err(e) => Err(fail(e)),
    }
}

/// A prompt with the fields that a JSON object gives replaced: `title` and
/// `content` when they are strings, `recipes` (its string items) when it
/// is an array, and `selected_recipe` when present (cleared unless a
/// string).
pub open spec fn patched_prompt(p: PromptV, v: JsonV) -> PromptV {
    PromptV {
        title: match jget_str(v, "title"@) {
            Some(t) => t,
            None => p.title,
        },
        content: match jget_str(v, "content"@) {
            Some(c) => c,
            None => p.content,
        },
        recipes: match jget(v, "recipes"@) {
            Some(JsonV::Arr(a)) => str_values(a),
            _ => p.recipes,
        },
        selected_recipe: match jget(v, "selected_recipe"@) {
            Some(x) => jstr(x),
            None => p.selected_recipe,
        },
        ..p
    }
}

/// `save_prompt`: the prompt that member `id` names, patched and saved.
pub open spec fn save_prompt_cmd(text: Seq<char>, l: LibraryV, now: Seq<char>) -> (
    Result<Seq<char>, Seq<char>>,
    LibraryV,
) {
    match parse_spec(text) {
        None => (Err(parse_error(text)), l),
        Some(v) => match jget_str(v, "id"@) {
            None => (Err("missing id"@), l),
            Some(id) => match prompt_by_id(l, id) {
                Err(e) => (Err(error_message(e)), l),
                Ok(p) => {
                    let (r, l2) = save_prompt_spec(l, now, patched_prompt(p, v));
                    (prompt_out(r), l2)
                },
            },
        },
    }
}

/// Saves the fields that a JSON object gives onto the stored prompt.
pub fn save_prompt(lib: &mut Library, now: &str, prompt_json: &str) -> (r: Result<String, String>)
    ensures
        (out_v(r), final(lib)@) == save_prompt_cmd(prompt_json@, old(lib)@, now@),
{
    let v = match Json::parse(prompt_json) {
        Ok(v) => v,
        Err(m) => {
            return Err(m);
        },
    };
    let id = match v.get_str("id") {
        Some(id) => id,
        None => {
            return Err(copy_string("missing id"));
        },
    };
    let mut p = match lib.get_prompt(id) {
        Ok(p) => p,
        Err(e) => {
            return Err(fail(e));
        },
    };
    let ghost p0 = p@;
    match v.get_str("title") {
        Some(t) => {
            p.title = copy_string(t);
        },
        None => {},
    }
    match v.get_str("content") {
        Some(c) => {
            p.content = copy_string(c);
        },
        None => {},
    }
    match crate::api::str_list(&v, "recipes") {
        Some(rs) => {
            p.recipes = rs;
        },
        None => {},
    }
    match v.get("selected_recipe") {
        Some(x) => {
            p.selected_recipe = match x.as_str() {
                Some(s) => Some(copy_string(s)),
                None => None,
            };
        },
        None => {},
    }
    assert(p@ == patched_prompt(p0, jv(v)));
    match lib.save_prompt(now, &p) {
        Ok(q) => Ok(q.to_json().dump()),
        Err(e) => Err(fail(e)),
    }
}

/// `delete_prompt`.
pub open spec fn delete_prompt_cmd(l: LibraryV, id: Seq<char>) -> (Result<(), Seq<char>>, LibraryV) {
    let (r, l2) = delete_prompt_spec(l, id);
    (done_out(r), l2)
}

/// Deletes a prompt.
pub fn delete_prompt(lib: &mut Library, id: &str) -> (r: Result<(), String>)
    ensures
        (done_v(r), final(lib)@) == delete_prompt_cmd(old(lib)@, id@),
{
    match lib.delete_prompt(id) {
        Ok(_) => Ok(()),
        Err(e) => Err(fail(e)),
    }
}

/// The copy mark that the library gives a duplicate's title.
pub open spec fn copy_mark() -> Seq<char> {
    " (kopie)"@
}

/// The copy mark in the UI language: the library's own in Czech.
pub open spec fn copy_suffix(language: Seq<char>) -> Option<Seq<char>> {
    if language == "cs"@ {
        None
    } else if language == "de"@ {
        Some(" (Kopie)"@)
    } else {
        Some(" (copy)"@)
    }
}

/// Whether `s` ends with `suffix`.
pub open spec fn ends_with(s: Seq<char>, suffix: Seq<char>) -> bool {
    s.len() >= suffix.len() && s.subrange(s.len() - suffix.len(), s.len() as int) == suffix
}

/// `duplicate_prompt` (copy id `p-<stamp>`): the library's copy, its title
/// mark then put into the UI language.
pub open spec fn duplicate_prompt_cmd(
    l: LibraryV,
    stamp: Seq<char>,
    now: Seq<char>,
    id: Seq<char>,
    language: Seq<char>,
) -> (Result<Seq<char>, Seq<char>>, LibraryV) {
    let (r, l2) = duplicate_prompt_spec(l, prefixed_id("p"@, stamp), now, id);
    match r {
        Err(e) => (Err(error_message(e)), l2),
        Ok(p) => match copy_suffix(language) {
            Some(suf) => if ends_with(p.title, copy_mark()) {
                let t = p.title.subrange(0, p.title.len() - copy_mark().len()) + suf;
                let (r2, l3) = save_prompt_spec(l2, now, PromptV { title: t, ..p });
                (prompt_out(r2), l3)
            } else {
                (Ok(compact(prompt_json(p))), l2)
            },
            None => (Ok(compact(prompt_json(p))), l2),
        },
    }
}

/// `s` without `suffix` at its end, if it ends so.
fn strip_end(s: &str, suffix: &str) -> (r: Option<String>)
    ensures
        r matches Some(b) ==> ends_with(s@, suffix@) && b@ == s@.subrange(0, s@.len() - suffix@.len()),
        r is None ==> !ends_with(s@, suffix@),
{
    let t = chars_of(s);
    let x = chars_of(suffix);
    if x.len() > t.len() {
        return None;
    }
    let from = t.len() - x.len();
    if crate::text::chars_eq_range(x.as_slice(), t.as_slice(), from, t.len()) {
        Some(crate::text::string_of_range(t.as_slice(), 0, from))
    } else {
        None
    }
}

fn localized_mark(language: &str) -> (r: Option<&'static str>)
    ensures
        copy_suffix(language@) == (match r {
            Some(x) => Some(x@),
            None => None,
        }),
{
    if crate::text::str_eq(language, "cs") {
        None
    } else if crate::text::str_eq(language, "de") {
        Some(" (Kopie)")
    } else {
        Some(" (copy)")
    }
}

/// Duplicates a prompt and names the copy in the UI language.
pub fn duplicate_prompt(lib: &mut Library, stamp: &str, now: &str, id: &str, language: &str) -> (r: Result<String, String>)
    ensures
        (out_v(r), final(lib)@) == duplicate_prompt_cmd(old(lib)@, stamp@, now@, id@, language@),
{
    let new_id = prefixed("p", stamp);
    let mut p = match lib.duplicate_prompt(new_id.as_str(), now, id) {
        Ok(p) => p,
        Err(e) => {
            return Err(fail(e));
        },
    };
    let ghost l2 = lib@;
    let ghost p0 = p@;
    let suf = match localized_mark(language) {
        Some(x) => x,
        None => {
            return Ok(p.to_json().dump());
        },
    };
    let base = match strip_end(p.title.as_str(), " (kopie)") {
        Some(b) => b,
        None => {
            return Ok(p.to_json().dump());
        },
    };
    let mut t = chars_of(base.as_str());
    crate::text::extend_str(&mut t, suf);
    p.title = string_of(t.as_slice());
    assert(p@ == PromptV { title: p0.title.subrange(0, p0.title.len() - copy_mark().len()) + suf@, ..p0 });
    match lib.save_prompt(now, &p) {
        Ok(q) => Ok(q.to_json().dump()),
        Err(e) => Err(fail(e)),
    }
}

/// `reorder_prompts`: a JSON array of ids (its string items) sets the
/// listing order.
pub open spec fn reorder_prompts_cmd(text: Seq<char>, l: LibraryV) -> (Result<(), Seq<char>>, LibraryV) {
    match parse_spec(text) {
        None => (Err(parse_error(text)), l),
        Some(JsonV::Arr(a)) => {
            let (r, l2) = reorder_spec(l, str_values(a));
            (done_out(r), l2)
        },
        Some(_) => (Err("expected array of ids"@), l),
    }
}

/// Sets the listing order from a JSON array of ids.
pub fn reorder_prompts(lib: &mut Library, ids_json: &str) -> (r: Result<(), String>)
    ensures
        (done_v(r), final(lib)@) == reorder_prompts_cmd(ids_json@, old(lib)@),
{
    let v = match Json::parse(ids_json) {
        Ok(v) => v,
        Err(m) => {
            return Err(m);
        },
    };
    let ids = match v.as_arr() {
        Some(a) => crate::storage::strings_in(a),
        None => {
            return Err(copy_string("expected array of ids"));
        },
    };
    match lib.reorder_prompts(&ids) {
        Ok(_) => Ok(()),
        Err(e) => Err(fail(e)),
    }
}

/// `set_selected_recipe`: the prompt saved with this preselection.
pub open spec fn set_selected_cmd(l: LibraryV, now: Seq<char>, pid: Seq<char>, rid: Option<Seq<char>>) -> (
    Result<(), Seq<char>>,
    LibraryV,
) {
    match prompt_by_id(l, pid) {
        Err(e) => (Err(error_message(e)), l),
        Ok(p) => {
            let (r, l2) = save_prompt_spec(l, now, PromptV { selected_recipe: rid, ..p });
            (done_out(r), l2)
        },
    }
}

/// Sets (or clears) the recipe preselected for a prompt.
pub fn set_selected_recipe(lib: &mut Library, now: &str, prompt_id: &str, recipe_id: Option<&str>) -> (r: Result<(), String>)
    ensures
        (done_v(r), final(lib)@) == set_selected_cmd(old(lib)@, now@, prompt_id@, str_opt(recipe_id)),
{
    let mut p = match lib.get_prompt(prompt_id) {
        Ok(p) => p,
        Err(e) => {
            return Err(fail(e));
        },
    };
    p.selected_recipe = match recipe_id {
        Some(x) => Some(copy_string(x)),
        None => None,
    };
    match lib.save_prompt(now, &p) {
        Ok(_) => Ok(()),
        Err(e) => Err(fail(e)),
    }
}


// ---------- recipes ----------

/// `create_recipe`: a new recipe with id `r-<stamp>`.
pub open spec fn create_recipe_cmd(l: LibraryV, stamp: Seq<char>, now: Seq<char>, name: Seq<char>) -> (
    Result<Seq<char>, Seq<char>>,
    LibraryV,
) {
    let (r, l2) = create_recipe_spec(l, prefixed_id("r"@, stamp), now, name);
    (recipe_out(r), l2)
}

/// Creates a recipe and answers it as compact JSON.
pub fn create_recipe(lib: &mut Library, stamp: &str, now: &str, name: &str) -> (r: Result<String, String>)
    ensures
        (out_v(r), final(lib)@) == create_recipe_cmd(old(lib)@, stamp@, now@, name@),
{
    let id = prefixed("r", stamp);
    match lib.create_recipe(id.as_str(), now, name) {
        Ok(x) => Ok(x.to_json().dump()),
        Err(e) => Err(fail(e)),
    }
}

/// Position of the first pair with key `k`.
pub open spec fn key_index(vals: Seq<(Seq<char>, Seq<char>)>, k: Seq<char>) -> Option<int>
    decreases vals.len(),
{
    if vals.len() == 0 {
        None
    } else if vals[0].0 == k {
        Some(0)
    } else {
        match key_index(vals.drop_first(), k) {
            Some(i) => Some(i + 1),
            None => None,
        }
    }
}

/// The pairs that `order` names first, in its order (each key's first pair
/// still left), then the rest in their order.
pub open spec fn in_order(vals: Seq<(Seq<char>, Seq<char>)>, order: Seq<Seq<char>>) -> Seq<(Seq<char>, Seq<char>)>
    decreases order.len(),
{
    if order.len() == 0 {
        vals
    } else {
        match key_index(vals, order[0]) {
            Some(i) => seq![vals[i]] + in_order(vals.remove(i), order.drop_first()),
            None => in_order(vals, order.drop_first()),
        }
    }
}

proof fn lemma_key_index(vals: Seq<(Seq<char>, Seq<char>)>, k: Seq<char>, i: int)
    requires
        0 <= i <= vals.len(),
        forall|q: int| 0 <= q < i ==> #[trigger] vals[q].0 != k,
        i < vals.len() ==> vals[i].0 == k,
    ensures
        key_index(vals, k) == (if i < vals.len() {
            Some(i)
        } else {
            None::<int>
        }),
    decreases vals.len(),
{
    if vals.len() > 0 && i > 0 {
        assert forall|q: int| 0 <= q < i - 1 implies #[trigger] vals.drop_first()[q].0 != k by {
            assert(vals.drop_first()[q] == vals[q + 1]);
        }
        lemma_key_index(vals.drop_first(), k, i - 1);
    }
}

/// A recipe with the fields that a JSON object gives replaced: `name` when
/// a string, `values` (its string members) when an object, then the
/// values put in the order that `values_order` (its string items) gives.
pub open spec fn patched_recipe(r: RecipeV, v: JsonV) -> RecipeV {
    let vals = match values_arg(v) {
        Some(x) => x,
        None => r.values,
    };
    RecipeV {
        name: match jget_str(v, "name"@) {
            Some(n) => n,
            None => r.name,
        },
        values: match jget(v, "values_order"@) {
            Some(JsonV::Arr(a)) => in_order(vals, str_values(a)),
            _ => vals,
        },
        ..r
    }
}

/// Puts the pairs in the order that `order` gives.
fn order_values(vals: Vec<(String, String)>, order: &Vec<String>) -> (r: Vec<(String, String)>)
    ensures
        pairs_v(r@) == in_order(pairs_v(vals@), views(order@)),
{
    let ghost all = views(order@);
    let mut ordered: Vec<(String, String)> = Vec::new();
    let mut rest = vals;
    let n = order.len();
    let mut j: usize = 0;
    assert(all.skip(0) =~= all);
    assert(pairs_v(ordered@) + in_order(pairs_v(rest@), all.skip(0)) =~= in_order(pairs_v(vals@), all));
    while j < n
        invariant
            n == order@.len(),
            j <= n,
            all == views(order@),
            pairs_v(ordered@) + in_order(pairs_v(rest@), all.skip(j as int)) == in_order(pairs_v(vals@), all),
        decreases n - j,
    {
        let key = order[j].as_str();
        let ghost rv = pairs_v(rest@);
        assert(all.skip(j as int)[0] == key@);
        assert(all.skip(j as int).drop_first() =~= all.skip(j + 1));
        let m = rest.len();
        let mut i: usize = 0;
        while i < m && !crate::text::str_eq(rest[i].0.as_str(), key)
            invariant
                m == rest@.len(),
                i <= m,
                rv == pairs_v(rest@),
                forall|q: int| 0 <= q < i ==> #[trigger] rv[q].0 != key@,
            decreases m - i,
        {
            i = i + 1;
        }
        proof {
            lemma_key_index(rv, key@, i as int);
        }
        if i < m {
            let x = rest.remove(i);
            let ghost before = pairs_v(ordered@);
            ordered.push(x);
            assert(pairs_v(rest@) =~= rv.remove(i as int));
            assert(pairs_v(ordered@) =~= before.push(rv[i as int]));
            assert(pairs_v(ordered@) + in_order(pairs_v(rest@), all.skip(j + 1)) =~= before + (seq![rv[i as int]]
                + in_order(rv.remove(i as int), all.skip(j + 1))));
        }
        j = j + 1;
    }
    let ghost before = pairs_v(ordered@);
    let ghost tail = pairs_v(rest@);
    assert(all.skip(n as int) =~= seq![]);
    ordered.append(&mut rest);
    assert(pairs_v(ordered@) =~= before + tail);
    ordered
}

/// `save_recipe`: the recipe that member `id` names, patched and saved.
pub open spec fn save_recipe_cmd(text: Seq<char>, l: LibraryV, now: Seq<char>) -> (
    Result<Seq<char>, Seq<char>>,
    LibraryV,
) {
    match parse_spec(text) {
        None => (Err(parse_error(text)), l),
        Some(v) => match jget_str(v, "id"@) {
            None => (Err("missing id"@), l),
            Some(id) => match recipe_by_id(l, id) {
                Err(e) => (Err(error_message(e)), l),
                Ok(x) => {
                    let (r, l2) = save_recipe_spec(l, now, patched_recipe(x, v));
                    (recipe_out(r), l2)
                },
            },
        },
    }
}

/// Saves the fields that a JSON object gives onto the stored recipe.
pub fn save_recipe(lib: &mut Library, now: &str, recipe_json: &str) -> (r: Result<String, String>)
    ensures
        (out_v(r), final(lib)@) == save_recipe_cmd(recipe_json@, old(lib)@, now@),
{
    let v = match Json::parse(recipe_json) {
        Ok(v) => v,
        Err(m) => {
            return Err(m);
        },
    };
    let id = match v.get_str("id") {
        Some(id) => id,
        None => {
            return Err(copy_string("missing id"));
        },
    };
    let mut x = match lib.get_recipe(id) {
        Ok(x) => x,
        Err(e) => {
            return Err(fail(e));
        },
    };
    let ghost x0 = x@;
    match v.get_str("name") {
        Some(n) => {
            x.name = copy_string(n);
        },
        None => {},
    }
    match values_of_arg(&v) {
        Some(vals) => {
            x.values = vals;
        },
        None => {},
    }
    match crate::api::str_list(&v, "values_order") {
        Some(order) => {
            let mut vals: Vec<(String, String)> = Vec::new();
            core::mem::swap(&mut vals, &mut x.values);
            x.values = order_values(vals, &order);
        },
        None => {},
    }
    assert(x@ == patched_recipe(x0, jv(v)));
    match lib.save_recipe(now, &x) {
        Ok(y) => Ok(y.to_json().dump()),
        Err(e) => Err(fail(e)),
    }
}

/// `delete_recipe`: answers the titles of the prompts it was taken from.
pub open spec fn delete_recipe_cmd(l: LibraryV, id: Seq<char>) -> (Result<Seq<char>, Seq<char>>, LibraryV) {
    let (r, l2) = delete_recipe_spec(l, id);
    (names_out(r), l2)
}

/// Deletes a recipe; answers the titles of the prompts that had it, as a
/// JSON array.
pub fn delete_recipe(lib: &mut Library, id: &str) -> (r: Result<String, String>)
    ensures
        (out_v(r), final(lib)@) == delete_recipe_cmd(old(lib)@, id@),
{
    names_result(lib.delete_recipe(id))
}

// ---------- global variables ----------

/// `add_variable`: answers the variable list.
pub open spec fn add_variable_cmd(l: LibraryV, name: Seq<char>) -> (Result<Seq<char>, Seq<char>>, LibraryV) {
    let (r, l2) = add_variable_spec(l, name);
    (names_out(r), l2)
}

/// Adds a variable; answers the variable list as a JSON array.
pub fn add_variable(lib: &mut Library, name: &str) -> (r: Result<String, String>)
    ensures
        (out_v(r), final(lib)@) == add_variable_cmd(old(lib)@, name@),
{
    names_result(lib.add_variable(name))
}

/// `rename_variable`: answers the variable list.
pub open spec fn rename_variable_cmd(l: LibraryV, now: Seq<char>, old_name: Seq<char>, new_name: Seq<char>) -> (
    Result<Seq<char>, Seq<char>>,
    LibraryV,
) {
    let (r, l2) = rename_variable_spec(l, now, old_name, new_name);
    (names_out(r), l2)
}

/// Renames a variable everywhere; answers the variable list as a JSON
/// array.
pub fn rename_variable(lib: &mut Library, now: &str, old_name: &str, new_name: &str) -> (r: Result<String, String>)
    ensures
        (out_v(r), final(lib)@) == rename_variable_cmd(old(lib)@, now@, old_name@, new_name@),
{
    names_result(lib.rename_variable(now, old_name, new_name))
}

/// `delete_variable`: answers the variable list.
pub open spec fn delete_variable_cmd(l: LibraryV, name: Seq<char>) -> (Result<Seq<char>, Seq<char>>, LibraryV) {
    let (r, l2) = delete_variable_spec(l, name);
    (names_out(r), l2)
}

/// Deletes a variable from the list and every recipe; answers the
/// variable list as a JSON array.
pub fn delete_variable(lib: &mut Library, name: &str) -> (r: Result<String, String>)
    ensures
        (out_v(r), final(lib)@) == delete_variable_cmd(old(lib)@, name@),
{
    names_result(lib.delete_variable(name))
}

// ---------- the MCP client configuration ----------

/// The configuration that registers the MCP server with a client: the
/// server program and the library it serves.
pub open spec fn mcp_config_v(exe: Seq<char>, library_dir: Seq<char>) -> JsonV {
    JsonV::Obj(
        seq![
            ("mcpServers"@, JsonV::Obj(
                seq![
                    ("prompt-manager"@, JsonV::Obj(
                        seq![
                            ("args"@, JsonV::Arr(seq![JsonV::Str("--library"@), JsonV::Str(library_dir)])),
                            ("command"@, JsonV::Str(exe)),
                        ],
                    )),
                ],
            )),
        ],
    )
}

/// A ready-to-paste MCP client configuration, pretty-printed.
pub fn mcp_config_snippet(exe: &str, library_dir: &str) -> (r: String)
    ensures
        r@ == dump_v(mcp_config_v(exe@, library_dir@), Some(2), 0),
{
    let items = vec![Json::str("--library"), Json::str(library_dir)];
    proof {
        crate::json::lemma_jv_seq(items@);
        assert(jv_seq(items@) =~= seq![JsonV::Str("--library"@), JsonV::Str(library_dir@)]);
    }
    let inner = vec![pair("args", Json::Arr(items)), pair("command", Json::str(exe))];
    let ghost inner_v = seq![
        ("args"@, JsonV::Arr(seq![JsonV::Str("--library"@), JsonV::Str(library_dir@)])),
        ("command"@, JsonV::Str(exe@)),
    ];
    proof {
        lemma_jv_pairs(inner@);
        assert(jv_pairs(inner@) =~= inner_v);
    }
    let server = vec![pair("prompt-manager", members(inner))];
    proof {
        lemma_jv_pairs(server@);
        assert(jv_pairs(server@) =~= seq![("prompt-manager"@, JsonV::Obj(inner_v))]);
    }
    let top = vec![pair("mcpServers", members(server))];
    proof {
        lemma_jv_pairs(top@);
        assert(jv_pairs(top@) =~= seq![("mcpServers"@, JsonV::Obj(seq![("prompt-manager"@, JsonV::Obj(inner_v))]))]);
    }
    let j = members(top);
    assert(jv(j) == mcp_config_v(exe@, library_dir@));
    j.pretty()
}

} // verus!
