//! Data model: Prompt, Recipe and (de)serialization to the on-disk formats.

use vstd::prelude::*;
use crate::json::{Json, JsonV, jget, jget_str, jv, jv_seq, jv_pairs, members_get, obj_insert, obj_insert_exec};
use crate::render::{hole_names, is_name, is_valid_name, placeholders, tokens, ValueMap};
use crate::text::{chars_of, copy_string, extend_range, string_of, string_of_range, views};
use crate::yamlish::{YamlDoc, YamlDocV, dump_doc, empty_doc, lookup, pairs_v, parse_doc, yaml_error};

verus! {

/// A prompt: a titled template with its assigned recipes.
#[derive(Debug, Clone, PartialEq)]
pub struct Prompt {
    pub id: String,
    pub title: String,
    pub created: String,
    pub updated: String,
    /// ids of assigned recipes (order = assignment order)
    pub recipes: Vec<String>,
    /// recipe id preselected in the sidebar; None = raw
    pub selected_recipe: Option<String>,
    pub tags: Vec<String>,
    /// template body with {{placeholders}}
    pub content: String,
    /// file name (without directory), filled by storage
    pub file_name: String,
}

/// A recipe: a named set of variable values.
#[derive(Debug, Clone, PartialEq)]
pub struct Recipe {
    pub id: String,
    pub name: String,
    pub updated: String,
    pub values: Vec<(String, String)>,
    pub file_name: String,
}

pub struct PromptV {
    pub id: Seq<char>,
    pub title: Seq<char>,
    pub created: Seq<char>,
    pub updated: Seq<char>,
    pub recipes: Seq<Seq<char>>,
    pub selected_recipe: Option<Seq<char>>,
    pub tags: Seq<Seq<char>>,
    pub content: Seq<char>,
    pub file_name: Seq<char>,
}

pub struct RecipeV {
    pub id: Seq<char>,
    pub name: Seq<char>,
    pub updated: Seq<char>,
    pub values: Seq<(Seq<char>, Seq<char>)>,
    pub file_name: Seq<char>,
}

pub open spec fn opt_v(o: Option<String>) -> Option<Seq<char>> {
    match o {
        Some(s) => Some(s@),
        None => None,
    }
}

impl View for Prompt {
    type V = PromptV;

    open spec fn view(&self) -> PromptV {
        PromptV {
            id: self.id@,
            title: self.title@,
            created: self.created@,
            updated: self.updated@,
            recipes: views(self.recipes@),
            selected_recipe: opt_v(self.selected_recipe),
            tags: views(self.tags@),
            content: self.content@,
            file_name: self.file_name@,
        }
    }
}

impl View for Recipe {
    type V = RecipeV;

    open spec fn view(&self) -> RecipeV {
        RecipeV {
            id: self.id@,
            name: self.name@,
            updated: self.updated@,
            values: pairs_v(self.values@),
            file_name: self.file_name@,
        }
    }
}

pub const FRONTMATTER_DELIM: &'static str = "---";

/// Validates a variable name: [a-z0-9_]+ (lowercase by convention).
pub fn valid_var_name(name: &str) -> (r: bool)
    ensures
        r == is_name(name@),
{
    is_valid_name(name)
}

/// Copies a list of strings.
pub fn copy_strings(v: &Vec<String>) -> (r: Vec<String>)
    ensures
        views(r@) == views(v@),
{
    let mut r: Vec<String> = Vec::new();
    let n = v.len();
    let mut i: usize = 0;
    while i < n
        invariant
            n == v@.len(),
            i <= n,
            views(r@) == views(v@).take(i as int),
        decreases n - i,
    {
        let ghost before = views(r@);
        r.push(copy_string(v[i].as_str()));
        assert(views(r@) =~= before.push(v@[i as int]@));
        assert(views(v@).take(i + 1) =~= views(v@).take(i as int).push(v@[i as int]@));
        i = i + 1;
    }
    assert(views(v@).take(n as int) =~= views(v@));
    r
}

/// Copies a list of string pairs.
pub fn copy_pairs(v: &Vec<(String, String)>) -> (r: Vec<(String, String)>)
    ensures
        pairs_v(r@) == pairs_v(v@),
{
    let mut r: Vec<(String, String)> = Vec::new();
    let n = v.len();
    let mut i: usize = 0;
    while i < n
        invariant
            n == v@.len(),
            i <= n,
            pairs_v(r@) == pairs_v(v@).take(i as int),
        decreases n - i,
    {
        let ghost before = pairs_v(r@);
        r.push((copy_string(v[i].0.as_str()), copy_string(v[i].1.as_str())));
        assert(pairs_v(r@) =~= before.push((v@[i as int].0@, v@[i as int].1@)));
        assert(pairs_v(v@).take(i + 1) =~= pairs_v(v@).take(i as int).push((v@[i as int].0@, v@[i as int].1@)));
        i = i + 1;
    }
    assert(pairs_v(v@).take(n as int) =~= pairs_v(v@));
    r
}

// ---------- text transforms shared by the readers ----------

/// `s` without a leading byte-order mark.
pub open spec fn strip_bom(s: Seq<char>) -> Seq<char> {
    if s.len() > 0 && s[0] == '\u{feff}' {
        s.drop_first()
    } else {
        s
    }
}

/// Every `\r\n` replaced by `\n` (left to right).
pub open spec fn crlf_to_lf(s: Seq<char>) -> Seq<char>
    decreases s.len(),
{
    if s.len() == 0 {
        seq![]
    } else if s.len() >= 2 && s[0] == '\r' && s[1] == '\n' {
        seq!['\n'] + crlf_to_lf(s.skip(2))
    } else {
        seq![s[0]] + crlf_to_lf(s.skip(1))
    }
}

/// The chars of `text` without a BOM and with `\r\n` turned into `\n`.
fn normalized_chars(text: &str) -> (r: Vec<char>)
    ensures
        r@ == crlf_to_lf(strip_bom(text@)),
{
    let cs = chars_of(text);
    let n = cs.len();
    let start: usize = if n > 0 && cs[0] == '\u{feff}' { 1 } else { 0 };
    let ghost t = strip_bom(text@);
    assert(t =~= cs@.skip(start as int));
    let mut out: Vec<char> = Vec::new();
    let mut i = start;
    assert(cs@.skip(i as int) =~= t);
    while i < n
        invariant
            n == cs@.len(),
            start <= i <= n,
            crlf_to_lf(t) == out@ + crlf_to_lf(cs@.skip(i as int)),
        decreases n - i,
    {
        if n - i >= 2 && cs[i] == '\r' && cs[i + 1] == '\n' {
            out.push('\n');
            assert(cs@.skip(i as int).skip(2) =~= cs@.skip(i + 2));
            i = i + 2;
        } else {
            out.push(cs[i]);
            assert(cs@.skip(i as int).skip(1) =~= cs@.skip(i + 1));
            i = i + 1;
        }
    }
    assert(cs@.skip(n as int) =~= seq![]);
    assert(out@ =~= crlf_to_lf(t));
    out
}

/// `\n---\n`
pub open spec fn close_delim() -> Seq<char> {
    seq!['\n', '-', '-', '-', '\n']
}

/// First index at or after `i` where `\n---\n` starts.
pub open spec fn find_close_delim(s: Seq<char>, i: int) -> Option<int>
    decreases s.len() - i,
{
    if i < 0 || i + 5 > s.len() {
        None
    } else if s.subrange(i, i + 5) == close_delim() {
        Some(i)
    } else {
        find_close_delim(s, i + 1)
    }
}


// ---------- prompt file ----------

/// Empty text for `None`.
pub open spec fn or_empty(o: Option<Seq<char>>) -> Seq<char> {
    match o {
        Some(s) => s,
        None => seq![],
    }
}

/// The frontmatter document of a prompt.
pub open spec fn prompt_fm(p: PromptV) -> YamlDocV {
    YamlDocV {
        scalars: seq![
            ("id"@, p.id),
            ("title"@, p.title),
            ("created"@, p.created),
            ("updated"@, p.updated),
            ("selected_recipe"@, or_empty(p.selected_recipe)),
        ],
        arrays: seq![("recipes"@, p.recipes), ("tags"@, p.tags)],
        maps: seq![],
    }
}

/// `---` and a line break.
pub open spec fn delim_line() -> Seq<char> {
    seq!['-', '-', '-', '\n']
}

/// The Markdown file of a prompt: frontmatter between `---` lines, then the body.
pub open spec fn markdown_of(p: PromptV) -> Seq<char> {
    delim_line() + dump_doc(prompt_fm(p)) + delim_line() + p.content
}

/// The prompt a Markdown file holds (file name given), if it is well formed.
pub open spec fn parse_markdown(text: Seq<char>, file_name: Seq<char>) -> Option<PromptV> {
    let n = crlf_to_lf(strip_bom(text));
    if !(n.len() >= 4 && n.take(4) == delim_line()) {
        None
    } else {
        let rest = n.skip(4);
        match find_close_delim(rest, 0) {
            None => None,
            Some(idx) => match parse_doc(rest.take(idx + 1)) {
                None => None,
                Some(d) => match (lookup(d.scalars, "id"@), lookup(d.scalars, "title"@)) {
                    (Some(id), Some(title)) => {
                        let sel = or_empty(lookup(d.scalars, "selected_recipe"@));
                        Some(
                            PromptV {
                                id,
                                title,
                                created: or_empty(lookup(d.scalars, "created"@)),
                                updated: or_empty(lookup(d.scalars, "updated"@)),
                                recipes: match lookup(d.arrays, "recipes"@) {
                                    Some(a) => a,
                                    None => seq![],
                                },
                                selected_recipe: if sel.len() == 0 {
                                    None
                                } else {
                                    Some(sel)
                                },
                                tags: match lookup(d.arrays, "tags"@) {
                                    Some(a) => a,
                                    None => seq![],
                                },
                                content: rest.skip(idx + 5),
                                file_name,
                            },
                        )
                    },
                    _ => None,
                },
            },
        }
    }
}

/// The recipe file document.
pub open spec fn recipe_doc(r: RecipeV) -> YamlDocV {
    YamlDocV {
        scalars: seq![("id"@, r.id), ("name"@, r.name), ("updated"@, r.updated)],
        arrays: seq![],
        maps: seq![("values"@, r.values)],
    }
}

/// What a prompt file that does not read reports.
pub open spec fn markdown_error(text: Seq<char>) -> Seq<char> {
    let n = crlf_to_lf(strip_bom(text));
    if !(n.len() >= 3 && n[0] == '-' && n[1] == '-' && n[2] == '-') {
        "missing frontmatter open"@
    } else if !(n.len() >= 4 && n[3] == '\n') {
        "missing newline after ---"@
    } else {
        let rest = n.skip(4);
        match find_close_delim(rest, 0) {
            None => "missing frontmatter close"@,
            Some(idx) => match parse_doc(rest.take(idx + 1)) {
                None => yaml_error(rest.take(idx + 1)),
                Some(d) => if lookup(d.scalars, "id"@) is None {
                    "missing id"@
                } else {
                    "missing title"@
                },
            },
        }
    }
}

/// What a recipe file that does not read reports.
pub open spec fn recipe_error(text: Seq<char>) -> Seq<char> {
    let n = crlf_to_lf(strip_bom(text));
    match parse_doc(n) {
        None => yaml_error(n),
        Some(d) => if lookup(d.scalars, "id"@) is None {
            "missing id"@
        } else {
            "missing name"@
        },
    }
}

/// The recipe a YAML file holds (file name given), if it is well formed.
pub open spec fn parse_recipe(text: Seq<char>, file_name: Seq<char>) -> Option<RecipeV> {
    match parse_doc(crlf_to_lf(strip_bom(text))) {
        None => None,
        Some(d) => match (lookup(d.scalars, "id"@), lookup(d.scalars, "name"@)) {
            (Some(id), Some(name)) => Some(
                RecipeV {
                    id,
                    name,
                    updated: or_empty(lookup(d.scalars, "updated"@)),
                    values: match lookup(d.maps, "values"@) {
                        Some(m) => m,
                        None => seq![],
                    },
                    file_name,
                },
            ),
            _ => None,
        },
    }
}

fn find_close_delim_exec(s: &Vec<char>, from: usize) -> (r: Option<usize>)
    requires
        from <= s@.len(),
    ensures
        r matches Some(i) ==> find_close_delim(s@, from as int) == Some(i as int) && i + 5 <= s@.len(),
        r is None ==> find_close_delim(s@, from as int) is None,
{
    let n = s.len();
    let mut i = from;
    while i < n && n - i >= 5
        invariant
            n == s@.len(),
            from <= i <= n,
            find_close_delim(s@, from as int) == find_close_delim(s@, i as int),
        decreases n - i,
    {
        if s[i] == '\n' && s[i + 1] == '-' && s[i + 2] == '-' && s[i + 3] == '-' && s[i + 4] == '\n' {
            assert(s@.subrange(i as int, i + 5) =~= close_delim());
            return Some(i);
        }
        proof {
            assert(s@.subrange(i as int, i + 5)[0] == s@[i as int]);
            assert(s@.subrange(i as int, i + 5)[1] == s@[i + 1]);
            assert(s@.subrange(i as int, i + 5)[2] == s@[i + 2]);
            assert(s@.subrange(i as int, i + 5)[3] == s@[i + 3]);
            assert(s@.subrange(i as int, i + 5)[4] == s@[i + 4]);
        }
        i = i + 1;
    }
    None
}

/// The text for a scalar that may be absent.
fn text_or_empty(o: Option<&str>) -> (r: String)
    ensures
        r@ == or_empty(match o {
            Some(t) => Some(t@),
            None => None,
        }),
{
    match o {
        Some(t) => copy_string(t),
        None => String::new(),
    }
}

impl Prompt {
    pub fn to_markdown(&self) -> (r: String)
        ensures
            r@ == markdown_of(self@),
    {
        let sel = match &self.selected_recipe {
            Some(s) => copy_string(s.as_str()),
            None => String::new(),
        };
        let fm = YamlDoc {
            scalars: vec![
                (copy_string("id"), copy_string(self.id.as_str())),
                (copy_string("title"), copy_string(self.title.as_str())),
                (copy_string("created"), copy_string(self.created.as_str())),
                (copy_string("updated"), copy_string(self.updated.as_str())),
                (copy_string("selected_recipe"), sel),
            ],
            arrays: vec![
                (copy_string("recipes"), copy_strings(&self.recipes)),
                (copy_string("tags"), copy_strings(&self.tags)),
            ],
            maps: Vec::new(),
        };
        assert(fm@.scalars =~= prompt_fm(self@).scalars);
        assert(fm@.arrays =~= prompt_fm(self@).arrays);
        assert(fm@.maps =~= prompt_fm(self@).maps);
        let body = fm.dump();
        let mut out: Vec<char> = vec!['-', '-', '-', '\n'];
        crate::text::extend_str(&mut out, body.as_str());
        out.push('-');
        out.push('-');
        out.push('-');
        out.push('\n');
        crate::text::extend_str(&mut out, self.content.as_str());
        assert(out@ =~= markdown_of(self@));
        string_of(out.as_slice())
    }

    pub fn from_markdown(text: &str, file_name: &str) -> (r: Result<Prompt, String>)
        ensures
            r matches Ok(p) ==> parse_markdown(text@, file_name@) == Some(p@),
            r is Err <==> parse_markdown(text@, file_name@) is None,
            r matches Err(m) ==> m@ == markdown_error(text@),
    {
        let n = normalized_chars(text);
        let len = n.len();
        if !(len >= 3 && n[0] == '-' && n[1] == '-' && n[2] == '-') {
            proof {
                if len >= 4 {
                    assert(n@.take(4)[0] == n@[0]);
                    assert(n@.take(4)[1] == n@[1]);
                    assert(n@.take(4)[2] == n@[2]);
                }
            }
            return Err(copy_string("missing frontmatter open"));
        }
        if !(len >= 4 && n[3] == '\n') {
            proof {
                if len >= 4 {
                    assert(n@.take(4)[3] == n@[3]);
                }
            }
            return Err(copy_string("missing newline after ---"));
        }
        assert(n@.take(4) =~= delim_line());
        let mut rest: Vec<char> = Vec::new();
        extend_range(&mut rest, n.as_slice(), 4, len);
        assert(rest@ =~= n@.skip(4));
        let idx = match find_close_delim_exec(&rest, 0) {
            Some(i) => i,
            None => {
                return Err(copy_string("missing frontmatter close"));
            },
        };
        let fm_text = string_of_range(rest.as_slice(), 0, idx + 1);
        assert(fm_text@ =~= rest@.take(idx + 1));
        let content = string_of_range(rest.as_slice(), idx + 5, rest.len());
        assert(content@ =~= rest@.skip(idx + 5));
        let fm = match YamlDoc::parse(fm_text.as_str()) {
            Ok(d) => d,
            Err(e) => {
                return Err(e);
            },
        };
        let sel = text_or_empty(fm.get("selected_recipe"));
        let id = match fm.get("id") {
            Some(v) => copy_string(v),
            None => {
                return Err(copy_string("missing id"));
            },
        };
        let title = match fm.get("title") {
            Some(v) => copy_string(v),
            None => {
                return Err(copy_string("missing title"));
            },
        };
        let created = text_or_empty(fm.get("created"));
        let updated = text_or_empty(fm.get("updated"));
        let recipes = match fm.get_arr("recipes") {
            Some(a) => copy_strings(a),
            None => Vec::new(),
        };
        let tags = match fm.get_arr("tags") {
            Some(a) => copy_strings(a),
            None => Vec::new(),
        };
        let selected_recipe = if sel.as_str().is_empty() {
            None
        } else {
            Some(sel)
        };
        let p = Prompt {
            id,
            title,
            created,
            updated,
            recipes,
            selected_recipe,
            tags,
            content,
            file_name: copy_string(file_name),
        };
        proof {
            assert(views(p.recipes@) =~= match lookup(fm@.arrays, "recipes"@) {
                Some(a) => a,
                None => seq![],
            });
            assert(views(p.tags@) =~= match lookup(fm@.arrays, "tags"@) {
                Some(a) => a,
                None => seq![],
            });
        }
        Ok(p)
    }
}


/// The map of a list of name/value pairs; a later pair wins.
pub open spec fn vals_map(v: Seq<(Seq<char>, Seq<char>)>) -> Map<Seq<char>, Seq<char>>
    decreases v.len(),
{
    if v.len() == 0 {
        Map::empty()
    } else {
        vals_map(v.drop_last()).insert(v.last().0, v.last().1)
    }
}

/// JSON strings of a list of texts.
pub open spec fn strs_json(v: Seq<Seq<char>>) -> Seq<JsonV> {
    v.map_values(|s: Seq<char>| JsonV::Str(s))
}

/// The members of a values object: ordered-map inserts of the pairs in order.
pub open spec fn values_json(v: Seq<(Seq<char>, Seq<char>)>) -> Seq<(Seq<char>, JsonV)>
    decreases v.len(),
{
    if v.len() == 0 {
        seq![]
    } else {
        obj_insert(values_json(v.drop_last()), v.last().0, JsonV::Str(v.last().1))
    }
}

/// The JSON form of a prompt (members in key order; `placeholders` derived
/// from the body).
pub open spec fn prompt_json(p: PromptV) -> JsonV {
    JsonV::Obj(
        seq![
            ("content"@, JsonV::Str(p.content)),
            ("created"@, JsonV::Str(p.created)),
            ("id"@, JsonV::Str(p.id)),
            ("placeholders"@, JsonV::Arr(strs_json(hole_names(tokens(p.content))))),
            ("recipes"@, JsonV::Arr(strs_json(p.recipes))),
            ("selected_recipe"@, match p.selected_recipe {
                Some(s) => JsonV::Str(s),
                None => JsonV::Null,
            }),
            ("tags"@, JsonV::Arr(strs_json(p.tags))),
            ("title"@, JsonV::Str(p.title)),
            ("updated"@, JsonV::Str(p.updated)),
        ],
    )
}

/// The JSON form of a recipe (members in key order).
pub open spec fn recipe_json(r: RecipeV) -> JsonV {
    JsonV::Obj(
        seq![
            ("id"@, JsonV::Str(r.id)),
            ("name"@, JsonV::Str(r.name)),
            ("updated"@, JsonV::Str(r.updated)),
            ("values"@, JsonV::Obj(values_json(r.values))),
        ],
    )
}

/// The member at `i` answers a lookup of its key when no member before it
/// has that key.
proof fn lemma_members_get_at(m: Seq<(Seq<char>, JsonV)>, i: int)
    requires
        0 <= i < m.len(),
        forall|j: int| 0 <= j < i ==> (#[trigger] m[j]).0 != m[i].0,
    ensures
        members_get(m, m[i].0) == Some(m[i].1),
    decreases i,
{
    if i > 0 {
        let t = m.drop_first();
        assert forall|j: int| 0 <= j < i - 1 implies (#[trigger] t[j]).0 != t[i - 1].0 by {
            assert(t[j] == m[j + 1]);
        }
        assert(m[0].0 != m[i].0);
        lemma_members_get_at(t, i - 1);
    }
}

/// The JSON form of a prompt gives each stored field under its own name:
/// `id`, `title`, `content`, the creation stamp `created` and the last-save
/// stamp `updated` as the prompt's own texts, `recipes` and `tags` as its
/// lists, `selected_recipe` as its selection (`null` when none).
pub proof fn lemma_prompt_json_fields(p: PromptV)
    ensures
        jget_str(prompt_json(p), "id"@) == Some(p.id),
        jget_str(prompt_json(p), "title"@) == Some(p.title),
        jget_str(prompt_json(p), "content"@) == Some(p.content),
        jget_str(prompt_json(p), "created"@) == Some(p.created),
        jget_str(prompt_json(p), "updated"@) == Some(p.updated),
        jget(prompt_json(p), "recipes"@) == Some(JsonV::Arr(strs_json(p.recipes))),
        jget(prompt_json(p), "tags"@) == Some(JsonV::Arr(strs_json(p.tags))),
        jget(prompt_json(p), "selected_recipe"@) == Some(
            match p.selected_recipe {
                Some(s) => JsonV::Str(s),
                None => JsonV::Null,
            },
        ),
{
    reveal_strlit("content");
    reveal_strlit("created");
    reveal_strlit("id");
    reveal_strlit("placeholders");
    reveal_strlit("recipes");
    reveal_strlit("selected_recipe");
    reveal_strlit("tags");
    reveal_strlit("title");
    reveal_strlit("updated");
    let m = prompt_json(p)->Obj_0;
    assert(m.len() == 9);
    assert("content"@[1] != "created"@[1]);
    assert("title"@[1] != "tags"@[1]);
    assert forall|i: int, j: int| 0 <= j < i < 9 implies (#[trigger] m[j]).0 != (#[trigger] m[i]).0 by {
        if m[j].0 == m[i].0 {
            assert(m[j].0[0] == m[i].0[0]);
            assert(m[j].0[1] == m[i].0[1]);
        }
    }
    lemma_members_get_at(m, 0);
    lemma_members_get_at(m, 1);
    lemma_members_get_at(m, 2);
    lemma_members_get_at(m, 4);
    lemma_members_get_at(m, 5);
    lemma_members_get_at(m, 6);
    lemma_members_get_at(m, 7);
    lemma_members_get_at(m, 8);
}

/// The JSON form of a recipe gives its `id`, `name` and `updated` stamp as
/// the recipe's own texts and its values under `values`.
pub proof fn lemma_recipe_json_fields(r: RecipeV)
    ensures
        jget_str(recipe_json(r), "id"@) == Some(r.id),
        jget_str(recipe_json(r), "name"@) == Some(r.name),
        jget_str(recipe_json(r), "updated"@) == Some(r.updated),
        jget(recipe_json(r), "values"@) == Some(JsonV::Obj(values_json(r.values))),
{
    reveal_strlit("id");
    reveal_strlit("name");
    reveal_strlit("updated");
    reveal_strlit("values");
    let m = recipe_json(r)->Obj_0;
    assert(m.len() == 4);
    assert forall|i: int, j: int| 0 <= j < i < 4 implies (#[trigger] m[j]).0 != (#[trigger] m[i]).0 by {
        if m[j].0 == m[i].0 {
            assert(m[j].0[0] == m[i].0[0]);
        }
    }
    lemma_members_get_at(m, 0);
    lemma_members_get_at(m, 1);
    lemma_members_get_at(m, 2);
    lemma_members_get_at(m, 3);
}

/// The `values` object in a recipe's JSON form gives each name the value
/// of its last pair, and nothing for a name no pair has; its keys ascend.
pub proof fn lemma_values_json_get(v: Seq<(Seq<char>, Seq<char>)>, k: Seq<char>)
    ensures
        crate::json::keys_sorted(values_json(v)),
        members_get(values_json(v), k) == (if vals_map(v).contains_key(k) {
            Some(JsonV::Str(vals_map(v)[k]))
        } else {
            None
        }),
    decreases v.len(),
{
    if v.len() > 0 {
        let pre = values_json(v.drop_last());
        lemma_values_json_get(v.drop_last(), k);
        crate::json::lemma_obj_insert_sorted(pre, v.last().0, JsonV::Str(v.last().1));
        crate::json::lemma_obj_insert_get(pre, v.last().0, JsonV::Str(v.last().1), k);
    }
}

/// A JSON array of strings.
pub fn strs_to_json(v: &Vec<String>) -> (r: Json)
    ensures
        jv(r) == JsonV::Arr(strs_json(views(v@))),
{
    let mut a: Vec<Json> = Vec::new();
    let n = v.len();
    let mut i: usize = 0;
    while i < n
        invariant
            n == v@.len(),
            i <= n,
            jv_seq(a@) == strs_json(views(v@)).take(i as int),
        decreases n - i,
    {
        let ghost before = a@;
        a.push(Json::str(v[i].as_str()));
        assert(a@.drop_last() =~= before);
        assert(jv_seq(a@) =~= strs_json(views(v@)).take(i + 1));
        i = i + 1;
    }
    assert(strs_json(views(v@)).take(n as int) =~= strs_json(views(v@)));
    Json::Arr(a)
}

impl Recipe {
    pub fn to_yaml(&self) -> (r: String)
        ensures
            r@ == dump_doc(recipe_doc(self@)),
    {
        let d = YamlDoc {
            scalars: vec![
                (copy_string("id"), copy_string(self.id.as_str())),
                (copy_string("name"), copy_string(self.name.as_str())),
                (copy_string("updated"), copy_string(self.updated.as_str())),
            ],
            arrays: Vec::new(),
            maps: vec![(copy_string("values"), copy_pairs(&self.values))],
        };
        assert(d@.scalars =~= recipe_doc(self@).scalars);
        assert(d@.arrays =~= recipe_doc(self@).arrays);
        assert(d@.maps =~= recipe_doc(self@).maps);
        d.dump()
    }

    pub fn from_yaml(text: &str, file_name: &str) -> (r: Result<Recipe, String>)
        ensures
            r matches Ok(x) ==> parse_recipe(text@, file_name@) == Some(x@),
            r is Err <==> parse_recipe(text@, file_name@) is None,
            r matches Err(m) ==> m@ == recipe_error(text@),
    {
        let n = normalized_chars(text);
        let t = string_of(n.as_slice());
        let d = match YamlDoc::parse(t.as_str()) {
            Ok(d) => d,
            Err(e) => {
                return Err(e);
            },
        };
        let id = match d.get("id") {
            Some(v) => copy_string(v),
            None => {
                return Err(copy_string("missing id"));
            },
        };
        let name = match d.get("name") {
            Some(v) => copy_string(v),
            None => {
                return Err(copy_string("missing name"));
            },
        };
        let updated = text_or_empty(d.get("updated"));
        let values = match d.get_map("values") {
            Some(m) => copy_pairs(m),
            None => Vec::new(),
        };
        let r = Recipe { id, name, updated, values, file_name: copy_string(file_name) };
        proof {
            assert(pairs_v(r.values@) =~= match lookup(d@.maps, "values"@) {
                Some(m) => m,
                None => seq![],
            });
        }
        Ok(r)
    }

    /// The values as a map (a later duplicate name wins).
    pub fn values_map(&self) -> (r: ValueMap)
        ensures
            r@ == vals_map(self@.values),
    {
        let mut m = ValueMap::new();
        let n = self.values.len();
        let mut i: usize = 0;
        while i < n
            invariant
                n == self.values@.len(),
                i <= n,
                m@ == vals_map(pairs_v(self.values@).take(i as int)),
            decreases n - i,
        {
            m.insert(self.values[i].0.as_str(), self.values[i].1.as_str());
            assert(pairs_v(self.values@).take(i + 1).drop_last() =~= pairs_v(self.values@).take(i as int));
            i = i + 1;
        }
        assert(pairs_v(self.values@).take(n as int) =~= pairs_v(self.values@));
        m
    }

    pub fn to_json(&self) -> (r: Json)
        ensures
            jv(r) == recipe_json(self@),
    {
        let mut vals: Vec<(String, Json)> = Vec::new();
        let n = self.values.len();
        let mut i: usize = 0;
        assert(jv_pairs(vals@) =~= seq![]);
        while i < n
            invariant
                n == self.values@.len(),
                i <= n,
                jv_pairs(vals@) == values_json(pairs_v(self.values@).take(i as int)),
            decreases n - i,
        {
            obj_insert_exec(&mut vals, copy_string(self.values[i].0.as_str()), Json::str(self.values[i].1.as_str()));
            assert(pairs_v(self.values@).take(i + 1).drop_last() =~= pairs_v(self.values@).take(i as int));
            i = i + 1;
        }
        assert(pairs_v(self.values@).take(n as int) =~= pairs_v(self.values@));
        let m: Vec<(String, Json)> = vec![
            (copy_string("id"), Json::str(self.id.as_str())),
            (copy_string("name"), Json::str(self.name.as_str())),
            (copy_string("updated"), Json::str(self.updated.as_str())),
            (copy_string("values"), Json::Obj(vals)),
        ];
        proof {
            crate::json::lemma_jv_pairs(m@);
            assert(jv_pairs(m@) =~= match recipe_json(self@) {
                JsonV::Obj(x) => x,
                _ => seq![],
            });
        }
        Json::Obj(m)
    }
}

impl Prompt {
    pub fn to_json(&self) -> (r: Json)
        ensures
            jv(r) == prompt_json(self@),
    {
        let names = placeholders(self.content.as_str());
        let sel = match &self.selected_recipe {
            Some(s) => Json::str(s.as_str()),
            None => Json::Null,
        };
        let m: Vec<(String, Json)> = vec![
            (copy_string("content"), Json::str(self.content.as_str())),
            (copy_string("created"), Json::str(self.created.as_str())),
            (copy_string("id"), Json::str(self.id.as_str())),
            (copy_string("placeholders"), strs_to_json(&names)),
            (copy_string("recipes"), strs_to_json(&self.recipes)),
            (copy_string("selected_recipe"), sel),
            (copy_string("tags"), strs_to_json(&self.tags)),
            (copy_string("title"), Json::str(self.title.as_str())),
            (copy_string("updated"), Json::str(self.updated.as_str())),
        ];
        proof {
            crate::json::lemma_jv_pairs(m@);
            assert(jv_pairs(m@) =~= match prompt_json(self@) {
                JsonV::Obj(x) => x,
                _ => seq![],
            });
        }
        Json::Obj(m)
    }
}

// ---------- a written file reads back ----------

/// No `\r` directly followed by `\n`.
pub open spec fn no_crlf(s: Seq<char>) -> bool {
    forall|i: int| 0 <= i && i + 1 < s.len() ==> !(#[trigger] s[i] == '\r' && s[i + 1] == '\n')
}

proof fn lemma_crlf_id(s: Seq<char>)
    requires
        no_crlf(s),
    ensures
        crlf_to_lf(s) == s,
    decreases s.len(),
{
    if s.len() > 0 {
        if s.len() >= 2 {
            assert(!(s[0] == '\r' && s[1] == '\n'));
        }
        let t = s.skip(1);
        assert forall|i: int| 0 <= i && i + 1 < t.len() implies !(#[trigger] t[i] == '\r' && t[i + 1]
            == '\n') by {
            assert(t[i] == s[i + 1]);
            assert(t[i + 1] == s[i + 2]);
        }
        lemma_crlf_id(t);
        assert(seq![s[0]] + t =~= s);
    }
}

proof fn lemma_no_crlf_concat(a: Seq<char>, b: Seq<char>)
    requires
        !a.contains('\r'),
        no_crlf(b),
    ensures
        no_crlf(a + b),
{
    let ab = a + b;
    assert forall|i: int| 0 <= i && i + 1 < ab.len() implies !(#[trigger] ab[i] == '\r' && ab[i + 1]
        == '\n') by {
        if i < a.len() {
            assert(ab[i] == a[i]);
            if a[i] == '\r' {
                assert(a.contains('\r'));
            }
        } else {
            assert(ab[i] == b[i - a.len()]);
            assert(ab[i + 1] == b[i + 1 - a.len()]);
        }
    }
}

proof fn lemma_no_cr_no_crlf(s: Seq<char>)
    requires
        !s.contains('\r'),
    ensures
        no_crlf(s),
{
    assert forall|i: int| 0 <= i && i + 1 < s.len() implies !(#[trigger] s[i] == '\r' && s[i + 1]
        == '\n') by {
        if s[i] == '\r' {
            assert(s.contains('\r'));
        }
    }
}

proof fn lemma_find_close_at(s: Seq<char>, i: int, j: int)
    requires
        0 <= i <= j,
        j + 5 <= s.len(),
        s.subrange(j, j + 5) == close_delim(),
        forall|t: int| i <= t < j ==> #[trigger] s.subrange(t, t + 5) != close_delim(),
    ensures
        find_close_delim(s, i) == Some(j),
    decreases j - i,
{
    if i < j {
        assert(s.subrange(i, i + 5) != close_delim());
        lemma_find_close_at(s, i + 1, j);
    }
}

proof fn lemma_fm_keys()
    ensures
        crate::yamlish::is_key("id"@),
        crate::yamlish::is_key("title"@),
        crate::yamlish::is_key("created"@),
        crate::yamlish::is_key("updated"@),
        crate::yamlish::is_key("selected_recipe"@),
        crate::yamlish::is_key("recipes"@),
        crate::yamlish::is_key("tags"@),
        crate::yamlish::is_key("name"@),
        crate::yamlish::is_key("values"@),
        "id"@[0] == 'i',
        "title"@[0] == 't',
        "created"@[0] == 'c',
        "updated"@[0] == 'u',
        "selected_recipe"@[0] == 's',
        "recipes"@[0] == 'r',
        "tags"@[0] == 't',
        "name"@[0] == 'n',
        "id"@ != "title"@,
        "id"@ != "created"@,
        "id"@ != "updated"@,
        "id"@ != "selected_recipe"@,
        "title"@ != "created"@,
        "title"@ != "updated"@,
        "title"@ != "selected_recipe"@,
        "created"@ != "updated"@,
        "created"@ != "selected_recipe"@,
        "updated"@ != "selected_recipe"@,
        "recipes"@ != "tags"@,
        "id"@ != "name"@,
        "name"@ != "updated"@,
{
    reveal_strlit("id");
    reveal_strlit("title");
    reveal_strlit("created");
    reveal_strlit("updated");
    reveal_strlit("selected_recipe");
    reveal_strlit("recipes");
    reveal_strlit("tags");
    reveal_strlit("name");
    reveal_strlit("values");
    assert("title"@[0] != "created"@[0]);
    assert("updated"@.len() != "selected_recipe"@.len());
    assert("created"@[0] != "updated"@[0]);
}

/// A recipe file reads back as the recipe:
/// `parse_recipe(to_yaml(r), r.file_name) == r`, for every recipe whose
/// value names are keys and whose texts keep their ends when written bare.
pub proof fn lemma_recipe_file_reads_back(r: RecipeV)
    requires
        crate::yamlish::safe_scalar(r.id),
        crate::yamlish::safe_scalar(r.name),
        crate::yamlish::safe_scalar(r.updated),
        crate::yamlish::entries_ok(r.values),
    ensures
        parse_recipe(dump_doc(recipe_doc(r)), r.file_name) == Some(r),
{
    let d = recipe_doc(r);
    lemma_fm_keys();
    assert(crate::yamlish::doc_ok(d)) by {
        assert(d.maps[0] == ("values"@, r.values));
    }
    crate::yamlish::lemma_doc_reads_back(d);
    crate::yamlish::lemma_doc_lines_shape(d);
    let ls = crate::yamlish::doc_lines(d);
    crate::yamlish::lemma_joined_plain(ls);
    let t = dump_doc(d);
    assert(t[0] == 'i');
    assert(strip_bom(t) == t);
    lemma_no_cr_no_crlf(t);
    lemma_crlf_id(t);
    crate::yamlish::lemma_key_pos_found(d.scalars, "id"@, 0);
    crate::yamlish::lemma_key_pos_found(d.scalars, "name"@, 1);
    crate::yamlish::lemma_key_pos_found(d.scalars, "updated"@, 2);
    assert(lookup(d.maps, "values"@) == Some(r.values));
}

/// The frontmatter text of a prompt: it reads back, has no `\r`, ends with
/// a line break, and none of its lines starts with `-`.
proof fn lemma_fm_text(p: PromptV)
    requires
        crate::yamlish::safe_scalar(p.id),
        crate::yamlish::safe_scalar(p.title),
        crate::yamlish::safe_scalar(p.created),
        crate::yamlish::safe_scalar(p.updated),
        crate::yamlish::safe_scalar(or_empty(p.selected_recipe)),
    ensures
        parse_doc(dump_doc(prompt_fm(p))) == Some(prompt_fm(p)),
        dump_doc(prompt_fm(p)).len() > 0,
        dump_doc(prompt_fm(p)).last() == '\n',
        !dump_doc(prompt_fm(p)).contains('\r'),
        forall|i: int|
            0 <= i && i + 1 < dump_doc(prompt_fm(p)).len() && #[trigger] dump_doc(prompt_fm(p))[i]
                == '\n' ==> dump_doc(prompt_fm(p))[i + 1] != '-',
{
    let fm = prompt_fm(p);
    lemma_fm_keys();
    assert(crate::yamlish::doc_ok(fm)) by {
        assert(fm.scalars[0].0 == "id"@);
        assert(fm.scalars[1].0 == "title"@);
        assert(fm.scalars[2].0 == "created"@);
        assert(fm.scalars[3].0 == "updated"@);
        assert(fm.scalars[4].0 == "selected_recipe"@);
        assert(fm.arrays[0].0 == "recipes"@);
        assert(fm.arrays[1].0 == "tags"@);
    }
    crate::yamlish::lemma_doc_reads_back(fm);
    crate::yamlish::lemma_doc_lines_shape(fm);
    let ls = crate::yamlish::doc_lines(fm);
    assert(crate::yamlish::map_lines(fm.maps) =~= Seq::<Seq<char>>::empty());
    assert(ls.len() == 7);
    assert forall|k: int| 0 <= k < ls.len() implies (#[trigger] ls[k]).len() > 0 && !ls[k].contains('\n')
        && !ls[k].contains('\r') && ls[k][0] != '-' by {
        if k < 5 {
            assert(ls[k][0] == fm.scalars[k].0[0]);
        } else {
            assert(ls[5 + (k - 5)][0] == fm.arrays[k - 5].0[0]);
        }
    }
    crate::yamlish::lemma_joined_starts(ls, '-');
}

/// In `d`, `---` and a body, the first `\n---\n` is the one after `d`.
proof fn lemma_fm_close(d: Seq<char>, body: Seq<char>)
    requires
        d.len() > 0,
        d.last() == '\n',
        forall|i: int| 0 <= i && i + 1 < d.len() && #[trigger] d[i] == '\n' ==> d[i + 1] != '-',
    ensures
        find_close_delim(d + delim_line() + body, 0) == Some(d.len() - 1),
{
    let rest = d + delim_line() + body;
    let idx = d.len() - 1;
    assert(rest.subrange(idx, idx + 5) =~= close_delim()) by {
        assert(rest[idx] == d.last());
        assert(rest[idx + 1] == '-');
        assert(rest[idx + 2] == '-');
        assert(rest[idx + 3] == '-');
        assert(rest[idx + 4] == '\n');
    }
    assert forall|t: int| 0 <= t < idx implies #[trigger] rest.subrange(t, t + 5) != close_delim() by {
        let w = rest.subrange(t, t + 5);
        assert(w[0] == rest[t]);
        assert(w[1] == rest[t + 1]);
        assert(rest[t] == d[t]);
        assert(rest[t + 1] == d[t + 1]);
        if d[t] == '\n' {
            assert(d[t + 1] != '-');
        }
        assert(close_delim()[0] == '\n' && close_delim()[1] == '-');
    }
    lemma_find_close_at(rest, 0, idx);
}

/// A prompt file reads back as the prompt:
/// `parse_markdown(to_markdown(p), p.file_name) == p`, for every prompt
/// whose header texts keep their ends when written bare, whose selected
/// recipe is not the empty text, and whose body has no `\r\n` (the reader
/// turns `\r\n` into `\n`).
#[verifier::spinoff_prover]
pub proof fn lemma_prompt_file_reads_back(p: PromptV)
    requires
        crate::yamlish::safe_scalar(p.id),
        crate::yamlish::safe_scalar(p.title),
        crate::yamlish::safe_scalar(p.created),
        crate::yamlish::safe_scalar(p.updated),
        crate::yamlish::safe_scalar(or_empty(p.selected_recipe)),
        p.selected_recipe != Some(Seq::<char>::empty()),
        no_crlf(p.content),
    ensures
        parse_markdown(markdown_of(p), p.file_name) == Some(p),
{
    let fm = prompt_fm(p);
    lemma_fm_text(p);
    let d = dump_doc(fm);
    let dl = delim_line();
    let m = markdown_of(p);
    assert(!dl.contains('\r')) by {
        assert(dl[0] == '-' && dl[1] == '-' && dl[2] == '-' && dl[3] == '\n');
    }
    crate::yamlish::lemma_concat_lacks(dl, d, '\r');
    crate::yamlish::lemma_concat_lacks(dl + d, dl, '\r');
    lemma_no_crlf_concat(dl + d + dl, p.content);
    assert(m == dl + d + dl + p.content);
    lemma_crlf_id(m);
    assert(strip_bom(m) == m);
    let n = crlf_to_lf(strip_bom(m));
    assert(n.take(4) =~= dl);
    let rest = n.skip(4);
    assert(rest =~= d + dl + p.content);
    lemma_fm_close(d, p.content);
    let idx = d.len() - 1;
    assert(rest.take(idx + 1) =~= d);
    assert(rest.skip(idx + 5) =~= p.content);
    lemma_fm_keys();
    crate::yamlish::lemma_key_pos_found(fm.scalars, "id"@, 0);
    crate::yamlish::lemma_key_pos_found(fm.scalars, "title"@, 1);
    crate::yamlish::lemma_key_pos_found(fm.scalars, "created"@, 2);
    crate::yamlish::lemma_key_pos_found(fm.scalars, "updated"@, 3);
    crate::yamlish::lemma_key_pos_found(fm.scalars, "selected_recipe"@, 4);
    crate::yamlish::lemma_key_pos_found(fm.arrays, "recipes"@, 0);
    crate::yamlish::lemma_key_pos_found(fm.arrays, "tags"@, 1);
    assert(n == m);
    assert(n.len() >= 4 && n.take(4) == delim_line());
    assert(find_close_delim(rest, 0) == Some(idx));
    assert(parse_doc(rest.take(idx + 1)) == Some(fm));
    let sel = or_empty(lookup(fm.scalars, "selected_recipe"@));
    assert(sel == or_empty(p.selected_recipe));
    assert((if sel.len() == 0 {
        None
    } else {
        Some(sel)
    }) == p.selected_recipe) by {
        if p.selected_recipe is None {
            assert(sel.len() == 0);
        } else if sel.len() == 0 {
            assert(sel =~= Seq::<char>::empty());
        }
    }
}

/// The lines of a recipe file: the three header lines, `values:`, then
/// one line per value; the text needs no line-ending or byte-order fix.
proof fn lemma_recipe_text(r: RecipeV)
    requires
        forall|j: int| 0 <= j < r.values.len() ==> crate::yamlish::is_key((#[trigger] r.values[j]).0),
    ensures
        ({
            let t = dump_doc(recipe_doc(r));
            let ls = crate::yamlish::doc_lines(recipe_doc(r));
            &&& crlf_to_lf(strip_bom(t)) == t
            &&& crate::yamlish::lines(t) == ls
            &&& ls.len() == 4 + r.values.len()
            &&& ls[0] == "id"@ + crate::yamlish::colon_sp() + crate::yamlish::scalar_out(r.id)
            &&& ls[1] == "name"@ + crate::yamlish::colon_sp() + crate::yamlish::scalar_out(r.name)
            &&& ls[2] == "updated"@ + crate::yamlish::colon_sp() + crate::yamlish::scalar_out(r.updated)
            &&& ls[3] == "values"@ + seq![':']
            &&& forall|u: int| 0 <= u < r.values.len() ==> ls[4 + u] == #[trigger] crate::yamlish::entry_line(r.values[u])
        }),
{
    let d = recipe_doc(r);
    lemma_fm_keys();
    assert(crate::yamlish::keys_ok(d)) by {
        assert(d.maps[0] == ("values"@, r.values));
    }
    crate::yamlish::lemma_doc_lines_plain(d);
    let t = dump_doc(d);
    let ls = crate::yamlish::doc_lines(d);
    let vals = r.values;
    let ml = crate::yamlish::map_lines(d.maps);
    assert(d.maps.drop_last() =~= Seq::<(Seq<char>, Seq<(Seq<char>, Seq<char>)>)>::empty());
    assert(ml == seq![crate::yamlish::header_line("values"@)] + crate::yamlish::entry_lines(vals)) by {
        assert(crate::yamlish::map_lines(d.maps.drop_last()) =~= Seq::<Seq<char>>::empty());
        assert(Seq::<Seq<char>>::empty() + seq![crate::yamlish::header_line("values"@)] =~= seq![
            crate::yamlish::header_line("values"@),
        ]);
    }
    assert(crate::yamlish::array_lines(d.arrays) =~= Seq::<Seq<char>>::empty());
    let sl = crate::yamlish::scalar_lines(d.scalars);
    assert(ls[0] == sl[0] && ls[1] == sl[1] && ls[2] == sl[2]);
    assert(ls[3] == ml[0]);
    assert forall|u: int| 0 <= u < vals.len() implies ls[4 + u] == #[trigger] crate::yamlish::entry_line(vals[u]) by {
        assert(ls[4 + u] == ml[1 + u]);
    }
    assert(t.len() > 0 && t[0] == 'i') by {
        assert(ls[0][0] == "id"@[0]);
        crate::yamlish::lemma_joined_plain(ls);
    }
    lemma_no_cr_no_crlf(t);
    lemma_crlf_id(t);
}

/// The value names of a recipe survive writing and reading back, whatever
/// its texts: the file fails to read, or it reads with the same names in
/// the same order.
#[verifier::spinoff_prover]
pub proof fn lemma_recipe_file_keys(r: RecipeV, f: Seq<char>)
    requires
        forall|j: int| 0 <= j < r.values.len() ==> crate::yamlish::is_key((#[trigger] r.values[j]).0),
    ensures
        parse_recipe(dump_doc(recipe_doc(r)), f) matches Some(r2) ==> crate::yamlish::pair_keys(r2.values)
            == crate::yamlish::pair_keys(r.values),
{
    lemma_recipe_text(r);
    lemma_fm_keys();
    let ls = crate::yamlish::doc_lines(recipe_doc(r));
    let vals = r.values;
    let e0 = empty_doc();
    let o0 = crate::yamlish::scalar_out(r.id);
    let o1 = crate::yamlish::scalar_out(r.name);
    let o2 = crate::yamlish::scalar_out(r.updated);
    assert(ls[1][0] == "name"@[0]);
    assert(ls[2][0] == "updated"@[0]);
    assert(ls[3][0] == "values"@[0]);
    reveal_strlit("values");
    crate::yamlish::lemma_step_scalar_lossy(ls, 0, e0, "id"@, o0);
    if crate::yamlish::p_lines(ls, 0, e0) is Some {
        let d1 = choose|d1: YamlDocV| crate::yamlish::p_lines(ls, 0, e0) == crate::yamlish::p_lines(ls, 1, d1) && (d1.maps
            == e0.maps || d1.maps == e0.maps.push(("id"@, Seq::<(Seq<char>, Seq<char>)>::empty())));
        crate::yamlish::lemma_step_scalar_lossy(ls, 1, d1, "name"@, o1);
        if crate::yamlish::p_lines(ls, 1, d1) is Some {
            let d2 = choose|d2: YamlDocV| crate::yamlish::p_lines(ls, 1, d1) == crate::yamlish::p_lines(ls, 2, d2) && (
            d2.maps == d1.maps || d2.maps == d1.maps.push(("name"@, Seq::<(Seq<char>, Seq<char>)>::empty())));
            crate::yamlish::lemma_step_scalar_lossy(ls, 2, d2, "updated"@, o2);
            if crate::yamlish::p_lines(ls, 2, d2) is Some {
                let d3 = choose|d3: YamlDocV| crate::yamlish::p_lines(ls, 2, d2) == crate::yamlish::p_lines(ls, 3, d3)
                    && (d3.maps == d2.maps || d3.maps == d2.maps.push(
                    ("updated"@, Seq::<(Seq<char>, Seq<char>)>::empty()),
                ));
                recipe_tail(ls, vals, d3);
            }
        }
    }
}

/// After the three header lines (which add at most empty blocks under
/// other names), `values:` and its lines read with the names of the values.
proof fn recipe_tail(ls: Seq<Seq<char>>, vals: Seq<(Seq<char>, Seq<char>)>, d3: YamlDocV)
    requires
        ls.len() == 4 + vals.len(),
        ls[3] == "values"@ + seq![':'],
        forall|j: int| 0 <= j < vals.len() ==> crate::yamlish::is_key((#[trigger] vals[j]).0),
        forall|u: int| 0 <= u < vals.len() ==> ls[4 + u] == #[trigger] crate::yamlish::entry_line(vals[u]),
        d3.maps.len() <= 3,
        forall|i: int| 0 <= i < d3.maps.len() ==> (#[trigger] d3.maps[i]).0 != "values"@,
    ensures
        crate::yamlish::p_lines(ls, 3, d3) matches Some(d) ==> lookup(d.maps, "values"@) matches Some(es)
            && crate::yamlish::pair_keys(es) == crate::yamlish::pair_keys(vals),
{
    lemma_fm_keys();
    crate::yamlish::lemma_line_start("values"@, Seq::<char>::empty());
    assert("values"@ + seq![':'] + Seq::<char>::empty() =~= ls[3]);
    assert(vals.take(0) =~= Seq::<(Seq<char>, Seq<char>)>::empty());
    assert(crate::yamlish::pair_keys(Seq::<(Seq<char>, Seq<char>)>::empty()) =~= crate::yamlish::pair_keys(vals.take(0)));
    crate::yamlish::lemma_block_lossy(ls, 4, vals, 0, Seq::<(Seq<char>, Seq<char>)>::empty());
    match crate::yamlish::p_block(ls, 4, Seq::<(Seq<char>, Seq<char>)>::empty()) {
        Some((es2, e)) => {
            let d4 = YamlDocV { maps: d3.maps.push(("values"@, es2)), ..d3 };
            assert(crate::yamlish::p_lines(ls, 3, d3) == crate::yamlish::p_lines(ls, e, d4));
            assert(crate::yamlish::p_lines(ls, e, d4) == Some(d4));
            crate::yamlish::lemma_key_pos_found(d4.maps, "values"@, d3.maps.len() as int);
        },
        None => {},
    }
}

/// Every value name of a recipe read from a file is a key.
pub proof fn lemma_parsed_recipe_keys(text: Seq<char>, f: Seq<char>)
    ensures
        parse_recipe(text, f) matches Some(r) ==> forall|j: int|
            0 <= j < r.values.len() ==> crate::yamlish::is_key((#[trigger] r.values[j]).0),
{
    let n = crlf_to_lf(strip_bom(text));
    let e0 = empty_doc();
    crate::yamlish::lemma_p_lines_keys(crate::yamlish::lines(n), 0, e0);
    if let Some(d) = parse_doc(n) {
        crate::yamlish::lemma_key_pos(d.maps, "values"@);
        if let Some(i) = crate::yamlish::key_pos(d.maps, "values"@) {
            assert forall|j: int| 0 <= j < d.maps[i].1.len() implies crate::yamlish::is_key((#[trigger] d.maps[i].1[j]).0) by {}
        }
    }
}


// ---------- reader laws ----------

/// Every `\n` written as `\r\n`.
pub open spec fn lf_to_crlf(s: Seq<char>) -> Seq<char>
    decreases s.len(),
{
    if s.len() == 0 {
        seq![]
    } else if s[0] == '\n' {
        seq!['\r', '\n'] + lf_to_crlf(s.skip(1))
    } else {
        seq![s[0]] + lf_to_crlf(s.skip(1))
    }
}

proof fn lemma_crlf_undone(s: Seq<char>)
    requires
        !s.contains('\r'),
    ensures
        crlf_to_lf(lf_to_crlf(s)) == s,
        lf_to_crlf(s).len() > 0 ==> lf_to_crlf(s)[0] == (if s[0] == '\n' { '\r' } else { s[0] }),
        lf_to_crlf(s).len() == 0 ==> s.len() == 0,
    decreases s.len(),
{
    if s.len() > 0 {
        let t = s.skip(1);
        if t.contains('\r') {
            let j = choose|j: int| 0 <= j < t.len() && t[j] == '\r';
            assert(s[j + 1] == '\r');
        }
        lemma_crlf_undone(t);
        let u = lf_to_crlf(s);
        let w = lf_to_crlf(t);
        if s[0] == '\n' {
            assert(u.skip(2) =~= w);
        } else {
            assert(s[0] != '\r');
            assert(u.skip(1) =~= w);
        }
        assert(seq![s[0]] + t =~= s);
    }
}

/// A byte-order mark and `\r\n` line ends change nothing: a prompt or
/// recipe file written with them reads as the same file without them, or
/// fails with the same reason.
pub proof fn lemma_bom_and_crlf_ignored(text: Seq<char>, f: Seq<char>)
    requires
        !text.contains('\r'),
        !(text.len() > 0 && text[0] == '\u{feff}'),
    ensures
        parse_markdown(seq!['\u{feff}'] + lf_to_crlf(text), f) == parse_markdown(text, f),
        markdown_error(seq!['\u{feff}'] + lf_to_crlf(text)) == markdown_error(text),
        parse_recipe(seq!['\u{feff}'] + lf_to_crlf(text), f) == parse_recipe(text, f),
        recipe_error(seq!['\u{feff}'] + lf_to_crlf(text)) == recipe_error(text),
{
    let u = lf_to_crlf(text);
    lemma_crlf_undone(text);
    lemma_no_cr_no_crlf(text);
    lemma_crlf_id(text);
    assert((seq!['\u{feff}'] + u).drop_first() =~= u);
    assert(strip_bom(seq!['\u{feff}'] + u) == u);
    if text.len() > 0 {
        assert(text[0] != '\u{feff}');
    }
    assert(strip_bom(text) == text);
}

/// A prompt file fails to read exactly when, after dropping a byte-order
/// mark and turning `\r\n` into `\n`, it does not start with `---\n`, has
/// no closing `\n---\n`, its front matter does not read, or the front
/// matter lacks `id` or `title`; a prompt read carries the file name given.
pub proof fn lemma_markdown_fails_exactly(text: Seq<char>, f: Seq<char>)
    ensures
        ({
            let n = crlf_to_lf(strip_bom(text));
            let rest = n.skip(4);
            parse_markdown(text, f) is None <==> (!(n.len() >= 4 && n.take(4) == seq!['-', '-', '-', '\n']) || find_close_delim(
                rest,
                0,
            ) is None || parse_doc(rest.take(find_close_delim(rest, 0)->0 + 1)) is None || lookup(
                parse_doc(rest.take(find_close_delim(rest, 0)->0 + 1))->0.scalars,
                "id"@,
            ) is None || lookup(parse_doc(rest.take(find_close_delim(rest, 0)->0 + 1))->0.scalars, "title"@) is None)
        }),
        parse_markdown(text, f) matches Some(p) ==> p.file_name == f,
{
}

/// `values_map` holds exactly the names that the pairs give.
pub proof fn lemma_values_map_keys(v: Seq<(Seq<char>, Seq<char>)>, k: Seq<char>)
    ensures
        vals_map(v).contains_key(k) <==> exists|i: int| 0 <= i < v.len() && (#[trigger] v[i]).0 == k,
    decreases v.len(),
{
    if v.len() > 0 {
        lemma_values_map_keys(v.drop_last(), k);
        if exists|i: int| 0 <= i < v.drop_last().len() && (#[trigger] v.drop_last()[i]).0 == k {
            let i = choose|i: int| 0 <= i < v.drop_last().len() && (#[trigger] v.drop_last()[i]).0 == k;
            assert(v[i] == v.drop_last()[i]);
        }
        if exists|i: int| 0 <= i < v.len() && (#[trigger] v[i]).0 == k {
            let i = choose|i: int| 0 <= i < v.len() && (#[trigger] v[i]).0 == k;
            if i < v.len() - 1 {
                assert(v.drop_last()[i] == v[i]);
            }
        }
    }
}

/// `values_map` gives each name the value of its last pair.
pub proof fn lemma_values_map_last(v: Seq<(Seq<char>, Seq<char>)>, i: int)
    requires
        0 <= i < v.len(),
        forall|j: int| i < j < v.len() ==> (#[trigger] v[j]).0 != v[i].0,
    ensures
        vals_map(v).contains_key(v[i].0),
        vals_map(v)[v[i].0] == v[i].1,
    decreases v.len(),
{
    if i < v.len() - 1 {
        assert forall|j: int| i < j < v.drop_last().len() implies (#[trigger] v.drop_last()[j]).0 != v.drop_last()[i].0 by {
            assert(v.drop_last()[j] == v[j]);
        }
        lemma_values_map_last(v.drop_last(), i);
        assert(v[v.len() - 1].0 != v[i].0);
    }
}
#[verifier::spinoff_prover]
proof fn lemma_prompt_fm_keys_no_cr(p: PromptV)
    ensures
        forall|i: int| 0 <= i < prompt_fm(p).scalars.len() ==> crate::yamlish::no_cr((#[trigger] prompt_fm(p).scalars[i]).0),
        forall|i: int| 0 <= i < prompt_fm(p).arrays.len() ==> crate::yamlish::no_cr((#[trigger] prompt_fm(p).arrays[i]).0),
        prompt_fm(p).maps.len() == 0,
{
    let fm = prompt_fm(p);
    reveal_strlit("id");
    reveal_strlit("title");
    reveal_strlit("created");
    reveal_strlit("updated");
    reveal_strlit("selected_recipe");
    reveal_strlit("recipes");
    reveal_strlit("tags");
    assert forall|i: int| 0 <= i < fm.scalars.len() implies crate::yamlish::no_cr((#[trigger] fm.scalars[i]).0) by {
        let k = fm.scalars[i].0;
        if k.contains('\r') {
            let j = choose|j: int| 0 <= j < k.len() && k[j] == '\r';
        }
    }
    assert forall|i: int| 0 <= i < fm.arrays.len() implies crate::yamlish::no_cr((#[trigger] fm.arrays[i]).0) by {
        let k = fm.arrays[i].0;
        if k.contains('\r') {
            let j = choose|j: int| 0 <= j < k.len() && k[j] == '\r';
        }
    }
}

/// A prompt file read back with a byte-order mark in front and CRLF line
/// ends gives the prompt, as the plain file does (for a prompt whose file
/// reads back and whose body holds no carriage return).
#[verifier::spinoff_prover]
#[verifier::rlimit(60)]
pub proof fn lemma_prompt_file_crlf_bom(p: PromptV)
    requires
        crate::yamlish::safe_scalar(p.id),
        crate::yamlish::safe_scalar(p.title),
        crate::yamlish::safe_scalar(p.created),
        crate::yamlish::safe_scalar(p.updated),
        crate::yamlish::safe_scalar(or_empty(p.selected_recipe)),
        p.selected_recipe != Some(Seq::<char>::empty()),
        !p.content.contains('\r'),
    ensures
        parse_markdown(seq!['\u{feff}'] + lf_to_crlf(markdown_of(p)), p.file_name) == Some(p),
{
    assert(no_crlf(p.content)) by {
        assert forall|i: int| 0 <= i && i + 1 < p.content.len() implies !(#[trigger] p.content[i] == '\r'
            && p.content[i + 1] == '\n') by {
            if p.content[i] == '\r' {
                assert(p.content.contains('\r'));
            }
        }
    }
    lemma_prompt_file_reads_back(p);
    let fm = prompt_fm(p);
    lemma_prompt_fm_keys_no_cr(p);
    crate::yamlish::lemma_dump_doc_no_cr(fm);
    let dl = delim_line();
    assert(crate::yamlish::no_cr(dl)) by {
        if dl.contains('\r') {
            let j = choose|j: int| 0 <= j < dl.len() && dl[j] == '\r';
        }
    }
    crate::yamlish::lemma_no_cr_concat(dl, dump_doc(fm));
    crate::yamlish::lemma_no_cr_concat(dl + dump_doc(fm), dl);
    crate::yamlish::lemma_no_cr_concat(dl + dump_doc(fm) + dl, p.content);
    let t = markdown_of(p);
    assert(t[0] == '-');
    lemma_bom_and_crlf_ignored(t, p.file_name);
}

} // verus!
