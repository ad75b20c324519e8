//! The prompt library: `prompts/*.md`, `recipes/*.yaml`, `order.json` and
//! `variables.json` under one root.
//!
//! A `Library` holds what those files contained when it was loaded and keeps
//! it up to date as operations write; every write is also queued as an
//! [`Effect`] for the caller to carry out on disk, in order.

use vstd::prelude::*;
use crate::json::{Json, JsonV, dump_v, jv, jv_pairs, jv_seq, jget, key_lt, key_lt_exec, lemma_key_lt_total, lemma_jv_seq, parse_error, parse_spec};
use crate::model::{Prompt, PromptV, Recipe, RecipeV, copy_strings, markdown_of, opt_v, or_empty, vals_map, valid_var_name, parse_markdown, parse_recipe, recipe_doc, strs_json, strs_to_json};
use crate::yamlish::{dump_doc, pairs_v};
use crate::render::{RenderResult, hole_names, is_name, missing_names, placeholders, render, render_text, renamed_text, rename_placeholder, tokens};
use crate::text::{chars_of, contains_string, copy_string, str_eq, string_of, views};
use crate::util::{dec, push_dec, slug, slugify};

verus! {

/// What a library file held when read.
#[derive(Debug)]
pub enum Stored {
    /// the file does not exist
    Absent,
    /// the file exists but could not be read as text (the reason)
    Unreadable(String),
    Text(String),
}

pub enum StoredV {
    Absent,
    Unreadable(Seq<char>),
    Text(Seq<char>),
}

pub open spec fn stored_v(s: Stored) -> StoredV {
    match s {
        Stored::Absent => StoredV::Absent,
        Stored::Unreadable(m) => StoredV::Unreadable(m@),
        Stored::Text(t) => StoredV::Text(t@),
    }
}

/// A write the caller has to carry out on disk (file names are relative to
/// the prompts or recipes directory).
#[derive(Debug)]
pub enum Effect {
    WritePrompt(String, String),
    RemovePrompt(String),
    WriteRecipe(String, String),
    RemoveRecipe(String),
    WriteOrder(String),
    WriteVariables(String),
}

pub enum EffectV {
    WritePrompt(Seq<char>, Seq<char>),
    RemovePrompt(Seq<char>),
    WriteRecipe(Seq<char>, Seq<char>),
    RemoveRecipe(Seq<char>),
    WriteOrder(Seq<char>),
    WriteVariables(Seq<char>),
}

pub open spec fn effect_v(e: Effect) -> EffectV {
    match e {
        Effect::WritePrompt(n, t) => EffectV::WritePrompt(n@, t@),
        Effect::RemovePrompt(n) => EffectV::RemovePrompt(n@),
        Effect::WriteRecipe(n, t) => EffectV::WriteRecipe(n@, t@),
        Effect::RemoveRecipe(n) => EffectV::RemoveRecipe(n@),
        Effect::WriteOrder(t) => EffectV::WriteOrder(t@),
        Effect::WriteVariables(t) => EffectV::WriteVariables(t@),
    }
}

/// A directory listing: each entry's name and its text when readable.
pub open spec fn dir_v(d: Seq<(String, Option<String>)>) -> Seq<(Seq<char>, Option<Seq<char>>)> {
    d.map_values(|e: (String, Option<String>)| (e.0@, crate::model::opt_v(e.1)))
}

pub struct Library {
    pub root: String,
    prompt_files: Vec<(String, Option<String>)>,
    recipe_files: Vec<(String, Option<String>)>,
    order_text: Stored,
    variables_text: Stored,
    effects: Vec<Effect>,
    open_error: Option<String>,
    prompts_error: Option<String>,
    recipes_error: Option<String>,
}

pub struct LibraryV {
    pub root: Seq<char>,
    pub prompts: Seq<(Seq<char>, Option<Seq<char>>)>,
    pub recipes: Seq<(Seq<char>, Option<Seq<char>>)>,
    pub order: StoredV,
    pub variables: StoredV,
    pub effects: Seq<EffectV>,
    /// why the library directory could not be opened, if it could not
    pub open_error: Option<Seq<char>>,
    /// why the `prompts` folder could not be listed, if it could not
    pub prompts_error: Option<Seq<char>>,
    /// why the `recipes` folder could not be listed, if it could not
    pub recipes_error: Option<Seq<char>>,
}

impl View for Library {
    type V = LibraryV;

    closed spec fn view(&self) -> LibraryV {
        LibraryV {
            root: self.root@,
            prompts: dir_v(self.prompt_files@),
            recipes: dir_v(self.recipe_files@),
            order: stored_v(self.order_text),
            variables: stored_v(self.variables_text),
            effects: self.effects@.map_values(|e: Effect| effect_v(e)),
            open_error: opt_v(self.open_error),
            prompts_error: opt_v(self.prompts_error),
            recipes_error: opt_v(self.recipes_error),
        }
    }
}

/// Errors of library operations.
#[derive(Debug)]
pub enum StoreError {
    Io(String),
    /// (file, message)
    Parse(String, String),
    NotFound(String),
    Invalid(String),
}

pub enum ErrV {
    Io(Seq<char>),
    /// (file, reason)
    Parse(Seq<char>, Seq<char>),
    NotFound(Seq<char>),
    Invalid(Seq<char>),
}

pub open spec fn err_v(e: StoreError) -> ErrV {
    match e {
        StoreError::Io(m) => ErrV::Io(m@),
        StoreError::Parse(f, m) => ErrV::Parse(f@, m@),
        StoreError::NotFound(id) => ErrV::NotFound(id@),
        StoreError::Invalid(m) => ErrV::Invalid(m@),
    }
}

/// The sentence for an error.
pub open spec fn error_message(e: ErrV) -> Seq<char> {
    match e {
        ErrV::Io(m) => "IO error: "@ + m,
        ErrV::Parse(f, m) => "Cannot parse "@ + f + ": "@ + m,
        ErrV::NotFound(id) => "Not found: "@ + id,
        ErrV::Invalid(m) => "Invalid: "@ + m,
    }
}

impl StoreError {
    /// The error as a sentence.
    pub fn message(&self) -> (r: String)
        ensures
            r@ == error_message(err_v(*self)),
    {
        let mut out: Vec<char> = Vec::new();
        match self {
            StoreError::Io(e) => {
                crate::text::extend_str(&mut out, "IO error: ");
                crate::text::extend_str(&mut out, e.as_str());
            },
            StoreError::Parse(f, m) => {
                crate::text::extend_str(&mut out, "Cannot parse ");
                crate::text::extend_str(&mut out, f.as_str());
                crate::text::extend_str(&mut out, ": ");
                crate::text::extend_str(&mut out, m.as_str());
            },
            StoreError::NotFound(id) => {
                crate::text::extend_str(&mut out, "Not found: ");
                crate::text::extend_str(&mut out, id.as_str());
            },
            StoreError::Invalid(m) => {
                crate::text::extend_str(&mut out, "Invalid: ");
                crate::text::extend_str(&mut out, m.as_str());
            },
        }
        assert(out@ =~= error_message(err_v(*self)));
        string_of(out.as_slice())
    }
}

// ---------- names and paths ----------

/// The extension of a file name (std's `Path::extension`): the text after
/// the last `.`, unless that `.` is the first char.
pub open spec fn last_dot(n: Seq<char>, i: int) -> Option<int>
    decreases i,
{
    if i <= 0 {
        None
    } else if n[i - 1] == '.' {
        Some(i - 1)
    } else {
        last_dot(n, i - 1)
    }
}

pub open spec fn extension(n: Seq<char>) -> Option<Seq<char>> {
    match last_dot(n, n.len() as int) {
        Some(d) => if d == 0 {
            None
        } else {
            Some(n.skip(d + 1))
        },
        None => None,
    }
}

/// A prompt file: extension `md`.
pub open spec fn is_md(n: Seq<char>) -> bool {
    extension(n) == Some(seq!['m', 'd'])
}

/// A recipe file: extension `yaml` or `yml`.
pub open spec fn is_yaml(n: Seq<char>) -> bool {
    extension(n) == Some(seq!['y', 'a', 'm', 'l']) || extension(n) == Some(seq!['y', 'm', 'l'])
}

fn extension_exec(n: &Vec<char>) -> (r: Option<Vec<char>>)
    ensures
        r matches Some(e) ==> extension(n@) == Some(e@),
        r is None ==> extension(n@) is None,
{
    let len = n.len();
    let mut i = len;
    while i > 0 && n[i - 1] != '.'
        invariant
            i <= len,
            len == n@.len(),
            last_dot(n@, len as int) == last_dot(n@, i as int),
        decreases i,
    {
        i = i - 1;
    }
    if i <= 1 {
        return None;
    }
    let mut e: Vec<char> = Vec::new();
    crate::text::extend_range(&mut e, n.as_slice(), i, len);
    assert(e@ =~= n@.skip(i as int));
    Some(e)
}

fn is_md_exec(name: &str) -> (r: bool)
    ensures
        r == is_md(name@),
{
    let n = chars_of(name);
    match extension_exec(&n) {
        Some(e) => {
            let md: Vec<char> = vec!['m', 'd'];
            assert(md@ =~= seq!['m', 'd']);
            crate::text::chars_eq(e.as_slice(), md.as_slice())
        },
        None => false,
    }
}

fn is_yaml_exec(name: &str) -> (r: bool)
    ensures
        r == is_yaml(name@),
{
    let n = chars_of(name);
    match extension_exec(&n) {
        Some(e) => {
            let a: Vec<char> = vec!['y', 'a', 'm', 'l'];
            let b: Vec<char> = vec!['y', 'm', 'l'];
            assert(a@ =~= seq!['y', 'a', 'm', 'l']);
            assert(b@ =~= seq!['y', 'm', 'l']);
            crate::text::chars_eq(e.as_slice(), a.as_slice()) || crate::text::chars_eq(
                e.as_slice(),
                b.as_slice(),
            )
        },
        None => false,
    }
}

/// The path separator of this platform (std's `MAIN_SEPARATOR`). Nothing
/// is stated of which char it is: the paths built with it are stated for
/// some separator.
#[verifier::external_body]
pub(crate) fn main_separator() -> char {
    std::path::MAIN_SEPARATOR
}

/// `root` joined with a relative name.
pub open spec fn joined(root: Seq<char>, sep: char, name: Seq<char>) -> Seq<char> {
    if root.len() == 0 || root.last() == '/' || root.last() == sep {
        root + name
    } else {
        root + seq![sep] + name
    }
}

pub(crate) fn join(root: &str, sep: char, name: &str) -> (r: String)
    ensures
        r@ == joined(root@, sep, name@),
{
    let mut out = chars_of(root);
    let n = out.len();
    if !(n == 0 || out[n - 1] == '/' || out[n - 1] == sep) {
        out.push(sep);
    }
    crate::text::extend_str(&mut out, name);
    assert(out@ =~= joined(root@, sep, name@));
    string_of(out.as_slice())
}

/// Unicode lower case of a text (std's `str::to_lowercase`).
pub uninterp spec fn lowercase(s: Seq<char>) -> Seq<char>;

/// std's `str::to_lowercase`; its result is named `lowercase`.
#[verifier::external_body]
fn to_lowercase(s: &str) -> (r: String)
    ensures
        r@ == lowercase(s@),
{
    s.to_lowercase()
}

// ---------- sorting ----------

/// Recipes are listed by lower-cased name, then id.
pub open spec fn recipe_lt(a: RecipeV, b: RecipeV) -> bool {
    key_lt(lowercase(a.name), lowercase(b.name)) || (lowercase(a.name) == lowercase(b.name)
        && key_lt(a.id, b.id))
}

/// Index of the first element that `x` sorts before.
pub open spec fn first_after<T>(s: Seq<T>, x: T, lt: spec_fn(T, T) -> bool) -> int
    decreases s.len(),
{
    if s.len() == 0 {
        0
    } else if lt(x, s[0]) {
        0
    } else {
        1 + first_after(s.drop_first(), x, lt)
    }
}

/// Stable insertion sort: each element goes after every element it does
/// not sort before.
pub open spec fn isort<T>(s: Seq<T>, lt: spec_fn(T, T) -> bool) -> Seq<T>
    decreases s.len(),
{
    if s.len() == 0 {
        seq![]
    } else {
        let t = isort(s.drop_last(), lt);
        t.insert(first_after(t, s.last(), lt), s.last())
    }
}

pub proof fn lemma_first_after_bounds<T>(s: Seq<T>, x: T, lt: spec_fn(T, T) -> bool)
    ensures
        0 <= first_after(s, x, lt) <= s.len(),
    decreases s.len(),
{
    if s.len() > 0 && !lt(x, s[0]) {
        lemma_first_after_bounds(s.drop_first(), x, lt);
    }
}

pub proof fn lemma_isort_len<T>(s: Seq<T>, lt: spec_fn(T, T) -> bool)
    ensures
        isort(s, lt).len() == s.len(),
    decreases s.len(),
{
    if s.len() > 0 {
        lemma_isort_len(s.drop_last(), lt);
        lemma_first_after_bounds(isort(s.drop_last(), lt), s.last(), lt);
    }
}

/// The readable, well-formed recipe files, in directory order.
pub open spec fn loaded_recipes(files: Seq<(Seq<char>, Option<Seq<char>>)>) -> Seq<RecipeV>
    decreases files.len(),
{
    if files.len() == 0 {
        seq![]
    } else {
        let rest = loaded_recipes(files.drop_last());
        let (name, text) = files.last();
        if is_yaml(name) && text is Some && parse_recipe(text->0, name) is Some {
            rest.push(parse_recipe(text->0, name)->0)
        } else {
            rest
        }
    }
}

/// The recipes as listing the `recipes` folder gives them: an I/O error
/// when the folder could not be listed.
pub open spec fn recipes_listed(l: LibraryV) -> Result<Seq<RecipeV>, ErrV> {
    match l.recipes_error {
        Some(m) => Err(ErrV::Io(m)),
        None => Ok(recipes_of(l)),
    }
}

/// All recipes sorted by name (case-insensitive), then id.
pub open spec fn recipes_of(l: LibraryV) -> Seq<RecipeV> {
    isort(loaded_recipes(l.recipes), |a: RecipeV, b: RecipeV| recipe_lt(a, b))
}

fn recipe_lt_exec(a: &Recipe, b: &Recipe) -> (r: bool)
    ensures
        r == recipe_lt(a@, b@),
{
    let la = to_lowercase(a.name.as_str());
    let lb = to_lowercase(b.name.as_str());
    if key_lt_exec(la.as_str(), lb.as_str()) {
        return true;
    }
    str_eq(la.as_str(), lb.as_str()) && key_lt_exec(a.id.as_str(), b.id.as_str())
}

pub open spec fn recipes_v(v: Seq<Recipe>) -> Seq<RecipeV> {
    v.map_values(|r: Recipe| r@)
}

/// Inserts `x` after every element it does not sort before.
fn insert_recipe(out: &mut Vec<Recipe>, x: Recipe)
    ensures
        recipes_v(final(out)@) == recipes_v(old(out)@).insert(
            first_after(recipes_v(old(out)@), x@, |a: RecipeV, b: RecipeV| recipe_lt(a, b)),
            x@,
        ),
{
    let ghost lt = |a: RecipeV, b: RecipeV| recipe_lt(a, b);
    let ghost s = recipes_v(out@);
    let n = out.len();
    let mut p: usize = 0;
    assert(s.skip(0) =~= s);
    while p < n && !recipe_lt_exec(&x, &out[p])
        invariant
            n == out@.len(),
            p <= n,
            s == recipes_v(out@),
            lt == (|a: RecipeV, b: RecipeV| recipe_lt(a, b)),
            first_after(s, x@, lt) == p + first_after(s.skip(p as int), x@, lt),
        decreases n - p,
    {
        assert(s[p as int] == out@[p as int]@);
        assert(s.skip(p as int)[0] == s[p as int]);
        assert(s.skip(p as int).drop_first() =~= s.skip(p + 1));
        p = p + 1;
    }
    proof {
        if p < n {
            assert(s[p as int] == out@[p as int]@);
            assert(s.skip(p as int)[0] == s[p as int]);
        }
    }
    let ghost xv = x@;
    out.insert(p, x);
    assert(recipes_v(out@) =~= s.insert(p as int, xv));
}

impl Library {
    /// An empty library snapshot rooted at `root`.
    pub fn new(root: &str) -> (r: Library)
        ensures
            r@ == (LibraryV {
                root: root@,
                prompts: seq![],
                recipes: seq![],
                order: StoredV::Absent,
                variables: StoredV::Absent,
                effects: seq![],
                open_error: None,
                prompts_error: None,
                recipes_error: None,
            }),
    {
        let r = Library {
            root: copy_string(root),
            prompt_files: Vec::new(),
            recipe_files: Vec::new(),
            order_text: Stored::Absent,
            variables_text: Stored::Absent,
            effects: Vec::new(),
            open_error: None,
            prompts_error: None,
            recipes_error: None,
        };
        assert(r@.prompts =~= seq![]);
        assert(r@.recipes =~= seq![]);
        assert(r@.effects =~= seq![]);
        r
    }

    pub fn prompts_dir(&self) -> (r: String)
        ensures
            exists|sep: char| r@ == joined(self@.root, sep, "prompts"@),
    {
        let sep = main_separator();
        let r = join(self.root.as_str(), sep, "prompts");
        assert(r@ == joined(self@.root, sep, "prompts"@));
        r
    }

    pub fn recipes_dir(&self) -> (r: String)
        ensures
            exists|sep: char| r@ == joined(self@.root, sep, "recipes"@),
    {
        let sep = main_separator();
        let r = join(self.root.as_str(), sep, "recipes");
        assert(r@ == joined(self@.root, sep, "recipes"@));
        r
    }

    pub fn order_file(&self) -> (r: String)
        ensures
            exists|sep: char| r@ == joined(self@.root, sep, "order.json"@),
    {
        let sep = main_separator();
        let r = join(self.root.as_str(), sep, "order.json");
        assert(r@ == joined(self@.root, sep, "order.json"@));
        r
    }

    pub fn variables_file(&self) -> (r: String)
        ensures
            exists|sep: char| r@ == joined(self@.root, sep, "variables.json"@),
    {
        let sep = main_separator();
        let r = join(self.root.as_str(), sep, "variables.json");
        assert(r@ == joined(self@.root, sep, "variables.json"@));
        r
    }

    /// Records an entry of the prompts directory as read.
    pub fn add_prompt_file(&mut self, name: String, text: Option<String>)
        ensures
            final(self)@ == (LibraryV {
                prompts: old(self)@.prompts.push((name@, crate::model::opt_v(text))),
                ..old(self)@
            }),
    {
        let ghost e = (name@, crate::model::opt_v(text));
        self.prompt_files.push((name, text));
        assert(self@.prompts =~= old(self)@.prompts.push(e));
        assert(self@.effects =~= old(self)@.effects);
    }

    /// Records an entry of the recipes directory as read.
    pub fn add_recipe_file(&mut self, name: String, text: Option<String>)
        ensures
            final(self)@ == (LibraryV {
                recipes: old(self)@.recipes.push((name@, crate::model::opt_v(text))),
                ..old(self)@
            }),
    {
        let ghost e = (name@, crate::model::opt_v(text));
        self.recipe_files.push((name, text));
        assert(self@.recipes =~= old(self)@.recipes.push(e));
        assert(self@.effects =~= old(self)@.effects);
    }

    /// Records what `order.json` held.
    pub fn set_order_stored(&mut self, s: Stored)
        ensures
            final(self)@ == (LibraryV { order: stored_v(s), ..old(self)@ }),
    {
        self.order_text = s;
        assert(self@.prompts =~= old(self)@.prompts);
        assert(self@.recipes =~= old(self)@.recipes);
        assert(self@.effects =~= old(self)@.effects);
    }

    /// Records what `variables.json` held.
    pub fn set_variables_stored(&mut self, s: Stored)
        ensures
            final(self)@ == (LibraryV { variables: stored_v(s), ..old(self)@ }),
    {
        self.variables_text = s;
        assert(self@.prompts =~= old(self)@.prompts);
        assert(self@.recipes =~= old(self)@.recipes);
        assert(self@.effects =~= old(self)@.effects);
    }

    /// Records that the library directory could not be opened.
    pub fn set_open_error(&mut self, message: String)
        ensures
            final(self)@ == (LibraryV { open_error: Some(message@), ..old(self)@ }),
    {
        self.open_error = Some(message);
        assert(self@.prompts =~= old(self)@.prompts);
        assert(self@.recipes =~= old(self)@.recipes);
        assert(self@.effects =~= old(self)@.effects);
    }

    /// Records that the `prompts` folder could not be listed.
    pub fn set_prompts_error(&mut self, message: String)
        ensures
            final(self)@ == (LibraryV { prompts_error: Some(message@), ..old(self)@ }),
    {
        self.prompts_error = Some(message);
        assert(self@.prompts =~= old(self)@.prompts);
        assert(self@.recipes =~= old(self)@.recipes);
        assert(self@.effects =~= old(self)@.effects);
    }

    /// Records that the `recipes` folder could not be listed.
    pub fn set_recipes_error(&mut self, message: String)
        ensures
            final(self)@ == (LibraryV { recipes_error: Some(message@), ..old(self)@ }),
    {
        self.recipes_error = Some(message);
        assert(self@.prompts =~= old(self)@.prompts);
        assert(self@.recipes =~= old(self)@.recipes);
        assert(self@.effects =~= old(self)@.effects);
    }

    fn recipe_error_text(&self) -> (r: Option<String>)
        ensures
            opt_v(r) == self@.recipes_error,
    {
        match &self.recipes_error {
            Some(m) => Some(copy_string(m.as_str())),
            None => None,
        }
    }

    /// Why the library directory could not be opened, if it could not.
    pub fn open_error(&self) -> (r: Option<String>)
        ensures
            opt_v(r) == self@.open_error,
    {
        match &self.open_error {
            Some(m) => Some(copy_string(m.as_str())),
            None => None,
        }
    }

    /// Hands over the queued writes, oldest first.
    pub fn take_effects(&mut self) -> (r: Vec<Effect>)
        ensures
            r@.map_values(|e: Effect| effect_v(e)) == old(self)@.effects,
            final(self)@ == (LibraryV { effects: seq![], ..old(self)@ }),
    {
        let mut r: Vec<Effect> = Vec::new();
        std::mem::swap(&mut r, &mut self.effects);
        assert(self@.prompts =~= old(self)@.prompts);
        assert(self@.recipes =~= old(self)@.recipes);
        assert(self@.effects =~= seq![]);
        r
    }

    /// All readable, well-formed recipes, sorted by name (case-insensitive)
    /// then id. Unreadable or corrupt files are skipped.
    pub fn list_recipes(&self) -> (r: Result<Vec<Recipe>, StoreError>)
        ensures
            r matches Ok(v) ==> recipes_listed(self@) == Ok::<Seq<RecipeV>, ErrV>(recipes_v(v@)),
            r matches Err(e) ==> recipes_listed(self@) == Err::<Seq<RecipeV>, ErrV>(err_v(e)),
    {
        if let Some(m) = &self.recipe_error_text() {
            return Err(StoreError::Io(copy_string(m.as_str())));
        }
        let mut loaded: Vec<Recipe> = Vec::new();
        let n = self.recipe_files.len();
        let mut i: usize = 0;
        let ghost files = dir_v(self.recipe_files@);
        assert(recipes_v(loaded@) =~= seq![]);
        while i < n
            invariant
                n == self.recipe_files@.len(),
                i <= n,
                files == dir_v(self.recipe_files@),
                files == self@.recipes,
                recipes_v(loaded@) == loaded_recipes(files.take(i as int)),
            decreases n - i,
        {
            let ghost t = files.take(i + 1);
            assert(t.drop_last() =~= files.take(i as int));
            assert(t.last() == files[i as int]);
            let name = &self.recipe_files[i].0;
            if is_yaml_exec(name.as_str()) {
                match &self.recipe_files[i].1 {
                    Some(text) => {
                        match Recipe::from_yaml(text.as_str(), name.as_str()) {
                            Ok(r) => {
                                let ghost before = recipes_v(loaded@);
                                let ghost rv = r@;
                                loaded.push(r);
                                assert(recipes_v(loaded@) =~= before.push(rv));
                            },
                            Err(_) => {},
                        }
                    },
                    None => {},
                }
            }
            i = i + 1;
        }
        assert(files.take(n as int) =~= files);
        let mut out: Vec<Recipe> = Vec::new();
        let m = loaded.len();
        let ghost lv = recipes_v(loaded@);
        let ghost lt = |a: RecipeV, b: RecipeV| recipe_lt(a, b);
        let mut src = loaded;
        let mut k: usize = 0;
        assert(recipes_v(out@) =~= isort(lv.take(0), lt));
        assert(recipes_v(src@) =~= lv.skip(0));
        while k < m
            invariant
                lv.len() == m,
                k <= m,
                src@.len() == m - k,
                recipes_v(src@) == lv.skip(k as int),
                lt == (|a: RecipeV, b: RecipeV| recipe_lt(a, b)),
                recipes_v(out@) == isort(lv.take(k as int), lt),
            decreases m - k,
        {
            let ghost before = src@;
            let x = src.remove(0);
            assert(x@ == lv[k as int]) by {
                assert(recipes_v(before)[0] == before[0]@);
            }
            assert(src@ =~= before.subrange(1, before.len() as int));
            assert forall|q: int| 0 <= q < src@.len() implies #[trigger] recipes_v(src@)[q] == lv.skip(k + 1)[q] by {
                assert(recipes_v(src@)[q] == src@[q]@);
                assert(src@[q] == before[q + 1]);
                assert(recipes_v(before)[q + 1] == before[q + 1]@);
            }
            assert(recipes_v(src@) =~= lv.skip(k + 1));
            insert_recipe(&mut out, x);
            assert(lv.take(k + 1).drop_last() =~= lv.take(k as int));
            k = k + 1;
        }
        assert(lv.take(m as int) =~= lv);
        Ok(out)
    }
}


// ---------- order.json / variables.json ----------

/// The texts of the string items of a JSON array.
pub open spec fn str_values(a: Seq<JsonV>) -> Seq<Seq<char>>
    decreases a.len(),
{
    if a.len() == 0 {
        seq![]
    } else {
        let rest = str_values(a.drop_last());
        match a.last() {
            JsonV::Str(s) => rest.push(s),
            _ => rest,
        }
    }
}

/// The string items of array `key` in a JSON document; empty when the key is
/// missing or not an array; `None` when the text is not JSON.
pub open spec fn id_list(text: Seq<char>, key: Seq<char>) -> Option<Seq<Seq<char>>> {
    match parse_spec(text) {
        None => None,
        Some(v) => match jget(v, key) {
            Some(JsonV::Arr(a)) => Some(str_values(a)),
            _ => Some(seq![]),
        },
    }
}

/// The ids `order.json` lists.
pub open spec fn order_of(l: LibraryV) -> Result<Seq<Seq<char>>, ErrV> {
    match l.order {
        StoredV::Absent => Ok(seq![]),
        StoredV::Unreadable(m) => Err(ErrV::Io(m)),
        StoredV::Text(t) => match id_list(t, "prompts"@) {
            None => Err(ErrV::Parse("order.json"@, parse_error(t))),
            Some(ids) => Ok(ids),
        },
    }
}

/// The string items of a JSON array, in order.
pub(crate) fn strings_in(a: &Vec<Json>) -> (r: Vec<String>)
    ensures
        views(r@) == str_values(jv_seq(a@)),
{
    proof {
        lemma_jv_seq(a@);
    }
    let mut out: Vec<String> = Vec::new();
    let n = a.len();
    let mut i: usize = 0;
    assert(views(out@) =~= str_values(jv_seq(a@).take(0)));
    while i < n
        invariant
            n == a@.len(),
            i <= n,
            jv_seq(a@).len() == n,
            forall|q: int| 0 <= q < n ==> #[trigger] jv_seq(a@)[q] == jv(a@[q]),
            views(out@) == str_values(jv_seq(a@).take(i as int)),
        decreases n - i,
    {
        assert(jv_seq(a@).take(i + 1).drop_last() =~= jv_seq(a@).take(i as int));
        match a[i].as_str() {
            Some(t) => {
                let ghost before = views(out@);
                out.push(copy_string(t));
                assert(views(out@) =~= before.push(t@));
            },
            None => {},
        }
        i = i + 1;
    }
    assert(jv_seq(a@).take(n as int) =~= jv_seq(a@));
    out
}

/// Reads the string items of array `key` of a JSON text.
fn read_id_list(text: &str, key: &str) -> (r: Result<Vec<String>, String>)
    ensures
        r matches Ok(v) ==> id_list(text@, key@) == Some(views(v@)),
        r is Err ==> id_list(text@, key@) is None,
        r matches Err(m) ==> m@ == parse_error(text@),
{
    let v = match Json::parse(text) {
        Ok(v) => v,
        Err(e) => {
            return Err(e);
        },
    };
    match v.get(key) {
        Some(x) => match x.as_arr() {
            Some(a) => Ok(strings_in(a)),
            None => {
                let out: Vec<String> = Vec::new();
                assert(views(out@) =~= seq![]);
                Ok(out)
            },
        },
        None => {
            let out: Vec<String> = Vec::new();
            assert(views(out@) =~= seq![]);
            Ok(out)
        },
    }
}

// ---------- prompts ----------

/// The readable, well-formed prompt files, in directory order.
pub open spec fn loaded_prompts(files: Seq<(Seq<char>, Option<Seq<char>>)>) -> Seq<PromptV>
    decreases files.len(),
{
    if files.len() == 0 {
        seq![]
    } else {
        let rest = loaded_prompts(files.drop_last());
        let (name, text) = files.last();
        if is_md(name) && text is Some && parse_markdown(text->0, name) is Some {
            rest.push(parse_markdown(text->0, name)->0)
        } else {
            rest
        }
    }
}

/// The last position of `id` in `order`.
pub open spec fn pos_in(order: Seq<Seq<char>>, id: Seq<char>) -> Option<int>
    decreases order.len(),
{
    if order.len() == 0 {
        None
    } else if order.last() == id {
        Some(order.len() - 1)
    } else {
        pos_in(order.drop_last(), id)
    }
}

/// Prompts are listed in `order.json` order; unlisted ones follow, by
/// lower-cased title, then id.
pub open spec fn prompt_lt(order: Seq<Seq<char>>, a: PromptV, b: PromptV) -> bool {
    match (pos_in(order, a.id), pos_in(order, b.id)) {
        (Some(x), Some(y)) => x < y,
        (Some(_), None) => true,
        (None, Some(_)) => false,
        (None, None) => key_lt(lowercase(a.title), lowercase(b.title)) || (lowercase(a.title)
            == lowercase(b.title) && key_lt(a.id, b.id)),
    }
}

pub open spec fn prompts_v(v: Seq<Prompt>) -> Seq<PromptV> {
    v.map_values(|p: Prompt| p@)
}

/// All readable, well-formed prompts in listing order.
pub open spec fn prompts_of(l: LibraryV) -> Result<Seq<PromptV>, ErrV> {
    match l.prompts_error {
        Some(m) => Err(ErrV::Io(m)),
        None => match order_of(l) {
            Err(e) => Err(e),
            Ok(o) => Ok(isort(loaded_prompts(l.prompts), |a: PromptV, b: PromptV| prompt_lt(o, a, b))),
        },
    }
}

fn pos_in_exec(order: &Vec<String>, id: &str) -> (r: Option<usize>)
    ensures
        r matches Some(i) ==> pos_in(views(order@), id@) == Some(i as int),
        r is None ==> pos_in(views(order@), id@) is None,
{
    let ghost o = views(order@);
    let mut i = order.len();
    assert(o.take(i as int) =~= o);
    while i > 0
        invariant
            i <= order@.len(),
            o == views(order@),
            pos_in(o, id@) == pos_in(o.take(i as int), id@),
        decreases i,
    {
        let ghost t = o.take(i as int);
        assert(t.drop_last() =~= o.take(i - 1));
        assert(t.last() == order@[i - 1]@);
        if str_eq(order[i - 1].as_str(), id) {
            return Some(i - 1);
        }
        i = i - 1;
    }
    None
}

fn prompt_lt_exec(order: &Vec<String>, a: &Prompt, b: &Prompt) -> (r: bool)
    ensures
        r == prompt_lt(views(order@), a@, b@),
{
    let pa = pos_in_exec(order, a.id.as_str());
    let pb = pos_in_exec(order, b.id.as_str());
    match (pa, pb) {
        (Some(x), Some(y)) => x < y,
        (Some(_), None) => true,
        (None, Some(_)) => false,
        (None, None) => {
            let la = to_lowercase(a.title.as_str());
            let lb = to_lowercase(b.title.as_str());
            if key_lt_exec(la.as_str(), lb.as_str()) {
                return true;
            }
            str_eq(la.as_str(), lb.as_str()) && key_lt_exec(a.id.as_str(), b.id.as_str())
        },
    }
}

/// Inserts `x` after every prompt it does not sort before.
fn insert_prompt(out: &mut Vec<Prompt>, order: &Vec<String>, x: Prompt)
    ensures
        prompts_v(final(out)@) == prompts_v(old(out)@).insert(
            first_after(
                prompts_v(old(out)@),
                x@,
                |a: PromptV, b: PromptV| prompt_lt(views(order@), a, b),
            ),
            x@,
        ),
{
    let ghost lt = |a: PromptV, b: PromptV| prompt_lt(views(order@), a, b);
    let ghost s = prompts_v(out@);
    let n = out.len();
    let mut p: usize = 0;
    assert(s.skip(0) =~= s);
    while p < n && !prompt_lt_exec(order, &x, &out[p])
        invariant
            n == out@.len(),
            p <= n,
            s == prompts_v(out@),
            lt == (|a: PromptV, b: PromptV| prompt_lt(views(order@), a, b)),
            first_after(s, x@, lt) == p + first_after(s.skip(p as int), x@, lt),
        decreases n - p,
    {
        assert(s[p as int] == out@[p as int]@);
        assert(s.skip(p as int)[0] == s[p as int]);
        assert(s.skip(p as int).drop_first() =~= s.skip(p + 1));
        p = p + 1;
    }
    proof {
        if p < n {
            assert(s[p as int] == out@[p as int]@);
            assert(s.skip(p as int)[0] == s[p as int]);
        }
    }
    let ghost xv = x@;
    out.insert(p, x);
    assert(prompts_v(out@) =~= s.insert(p as int, xv));
}

impl Library {
    /// The prompt ids `order.json` lists (none when it does not exist).
    pub fn load_order(&self) -> (r: Result<Vec<String>, StoreError>)
        ensures
            r matches Ok(v) ==> order_of(self@) == Ok::<Seq<Seq<char>>, ErrV>(views(v@)),
            r matches Err(e) ==> order_of(self@) == Err::<Seq<Seq<char>>, ErrV>(err_v(e)),
    {
        match &self.order_text {
            Stored::Absent => {
                let v: Vec<String> = Vec::new();
                assert(views(v@) =~= seq![]);
                Ok(v)
            },
            Stored::Unreadable(m) => Err(StoreError::Io(copy_string(m.as_str()))),
            Stored::Text(t) => match read_id_list(t.as_str(), "prompts") {
                Ok(v) => Ok(v),
                Err(e) => Err(StoreError::Parse(copy_string("order.json"), e)),
            },
        }
    }

    /// All readable, well-formed prompts: in `order.json` order, then the
    /// unlisted ones by title (case-insensitive) and id. Unreadable or
    /// corrupt files are skipped.
    pub fn list_prompts(&self) -> (r: Result<Vec<Prompt>, StoreError>)
        ensures
            r matches Ok(v) ==> prompts_of(self@) == Ok::<Seq<PromptV>, ErrV>(prompts_v(v@)),
            r matches Err(e) ==> prompts_of(self@) == Err::<Seq<PromptV>, ErrV>(err_v(e)),
    {
        if let Some(m) = &self.prompts_error {
            return Err(StoreError::Io(copy_string(m.as_str())));
        }
        let mut loaded: Vec<Prompt> = Vec::new();
        let n = self.prompt_files.len();
        let mut i: usize = 0;
        let ghost files = dir_v(self.prompt_files@);
        assert(prompts_v(loaded@) =~= seq![]);
        while i < n
            invariant
                n == self.prompt_files@.len(),
                i <= n,
                files == dir_v(self.prompt_files@),
                files == self@.prompts,
                prompts_v(loaded@) == loaded_prompts(files.take(i as int)),
            decreases n - i,
        {
            let ghost t = files.take(i + 1);
            assert(t.drop_last() =~= files.take(i as int));
            assert(t.last() == files[i as int]);
            let name = &self.prompt_files[i].0;
            if is_md_exec(name.as_str()) {
                match &self.prompt_files[i].1 {
                    Some(text) => {
                        match Prompt::from_markdown(text.as_str(), name.as_str()) {
                            Ok(p) => {
                                let ghost before = prompts_v(loaded@);
                                let ghost pv = p@;
                                loaded.push(p);
                                assert(prompts_v(loaded@) =~= before.push(pv));
                            },
                            Err(_) => {},
                        }
                    },
                    None => {},
                }
            }
            i = i + 1;
        }
        assert(files.take(n as int) =~= files);
        let order = match self.load_order() {
            Ok(o) => o,
            Err(e) => {
                return Err(e);
            },
        };
        let mut out: Vec<Prompt> = Vec::new();
        let m = loaded.len();
        let ghost lv = prompts_v(loaded@);
        let ghost lt = |a: PromptV, b: PromptV| prompt_lt(views(order@), a, b);
        let mut src = loaded;
        let mut k: usize = 0;
        assert(prompts_v(out@) =~= isort(lv.take(0), lt));
        assert(prompts_v(src@) =~= lv.skip(0));
        while k < m
            invariant
                lv.len() == m,
                k <= m,
                src@.len() == m - k,
                prompts_v(src@) == lv.skip(k as int),
                lt == (|a: PromptV, b: PromptV| prompt_lt(views(order@), a, b)),
                prompts_v(out@) == isort(lv.take(k as int), lt),
            decreases m - k,
        {
            let ghost before = src@;
            let x = src.remove(0);
            assert(x@ == lv[k as int]) by {
                assert(prompts_v(before)[0] == before[0]@);
            }
            assert(src@ =~= before.subrange(1, before.len() as int));
            assert forall|q: int| 0 <= q < src@.len() implies #[trigger] prompts_v(src@)[q] == lv.skip(k + 1)[q] by {
                assert(prompts_v(src@)[q] == src@[q]@);
                assert(src@[q] == before[q + 1]);
                assert(prompts_v(before)[q + 1] == before[q + 1]@);
            }
            assert(prompts_v(src@) =~= lv.skip(k + 1));
            insert_prompt(&mut out, &order, x);
            assert(lv.take(k + 1).drop_last() =~= lv.take(k as int));
            k = k + 1;
        }
        assert(lv.take(m as int) =~= lv);
        Ok(out)
    }
}


// ---------- writes ----------

/// Index of the first entry named `name` in a directory listing.
pub open spec fn file_pos(d: Seq<(Seq<char>, Option<Seq<char>>)>, name: Seq<char>) -> Option<int>
    decreases d.len(),
{
    if d.len() == 0 {
        None
    } else if d[0].0 == name {
        Some(0)
    } else {
        match file_pos(d.drop_first(), name) {
            Some(i) => Some(i + 1),
            None => None,
        }
    }
}

pub proof fn lemma_file_pos(d: Seq<(Seq<char>, Option<Seq<char>>)>, name: Seq<char>)
    ensures
        file_pos(d, name) matches Some(i) ==> 0 <= i < d.len() && d[i].0 == name,
        file_pos(d, name) is None ==> forall|j: int| 0 <= j < d.len() ==> #[trigger] d[j].0 != name,
    decreases d.len(),
{
    if d.len() > 0 && d[0].0 != name {
        lemma_file_pos(d.drop_first(), name);
        if file_pos(d, name) is None {
            assert forall|j: int| 0 <= j < d.len() implies #[trigger] d[j].0 != name by {
                if j > 0 {
                    assert(d[j] == d.drop_first()[j - 1]);
                }
            }
        }
    }
}

/// The listing after writing `text` to `name` (the entry is replaced, or
/// added at the end).
pub open spec fn put_file(d: Seq<(Seq<char>, Option<Seq<char>>)>, name: Seq<char>, text: Seq<char>) -> Seq<
    (Seq<char>, Option<Seq<char>>),
> {
    match file_pos(d, name) {
        Some(i) => d.update(i, (name, Some(text))),
        None => d.push((name, Some(text))),
    }
}

/// The listing after removing the file `name`.
pub open spec fn drop_file(d: Seq<(Seq<char>, Option<Seq<char>>)>, name: Seq<char>) -> Seq<
    (Seq<char>, Option<Seq<char>>),
> {
    match file_pos(d, name) {
        Some(i) => d.remove(i),
        None => d,
    }
}

fn file_pos_exec(d: &Vec<(String, Option<String>)>, name: &str) -> (r: Option<usize>)
    ensures
        r matches Some(i) ==> file_pos(dir_v(d@), name@) == Some(i as int) && i < d@.len(),
        r is None ==> file_pos(dir_v(d@), name@) is None,
{
    let ghost s = dir_v(d@);
    let n = d.len();
    let mut i: usize = 0;
    assert(s.skip(0) =~= s);
    while i < n
        invariant
            n == d@.len(),
            i <= n,
            s == dir_v(d@),
            file_pos(s, name@) == (match file_pos(s.skip(i as int), name@) {
                Some(j) => Some(j + i),
                None => None,
            }),
        decreases n - i,
    {
        assert(s.skip(i as int)[0] == s[i as int]);
        assert(s.skip(i as int).drop_first() =~= s.skip(i + 1));
        if str_eq(d[i].0.as_str(), name) {
            return Some(i);
        }
        i = i + 1;
    }
    assert(s.skip(n as int).len() == 0);
    None
}

fn put_file_exec(d: &mut Vec<(String, Option<String>)>, name: &str, text: &str)
    ensures
        dir_v(final(d)@) == put_file(dir_v(old(d)@), name@, text@),
{
    let e = (copy_string(name), Some(copy_string(text)));
    let ghost ev = (name@, Some(text@));
    match file_pos_exec(d, name) {
        Some(i) => {
            d.set(i, e);
            assert(dir_v(d@) =~= dir_v(old(d)@).update(i as int, ev));
        },
        None => {
            d.push(e);
            assert(dir_v(d@) =~= dir_v(old(d)@).push(ev));
        },
    }
}

fn drop_file_exec(d: &mut Vec<(String, Option<String>)>, name: &str)
    ensures
        dir_v(final(d)@) == drop_file(dir_v(old(d)@), name@),
{
    match file_pos_exec(d, name) {
        Some(i) => {
            d.remove(i);
            assert(dir_v(d@) =~= dir_v(old(d)@).remove(i as int));
        },
        None => {},
    }
}

/// The library after writing prompt `p` to its file.
pub open spec fn wrote_prompt(l: LibraryV, p: PromptV) -> LibraryV {
    LibraryV {
        prompts: put_file(l.prompts, p.file_name, markdown_of(p)),
        effects: l.effects.push(EffectV::WritePrompt(p.file_name, markdown_of(p))),
        ..l
    }
}

/// The library after removing the prompt file `name`.
pub open spec fn removed_prompt(l: LibraryV, name: Seq<char>) -> LibraryV {
    LibraryV {
        prompts: drop_file(l.prompts, name),
        effects: l.effects.push(EffectV::RemovePrompt(name)),
        ..l
    }
}

/// The library after writing recipe `r` to its file.
pub open spec fn wrote_recipe(l: LibraryV, r: RecipeV) -> LibraryV {
    LibraryV {
        recipes: put_file(l.recipes, r.file_name, dump_doc(recipe_doc(r))),
        effects: l.effects.push(EffectV::WriteRecipe(r.file_name, dump_doc(recipe_doc(r)))),
        ..l
    }
}

/// The library after removing the recipe file `name`.
pub open spec fn removed_recipe(l: LibraryV, name: Seq<char>) -> LibraryV {
    LibraryV {
        recipes: drop_file(l.recipes, name),
        effects: l.effects.push(EffectV::RemoveRecipe(name)),
        ..l
    }
}

/// A JSON file holding one array of strings under `key`, pretty-printed.
pub open spec fn list_file(key: Seq<char>, items: Seq<Seq<char>>) -> Seq<char> {
    dump_v(JsonV::Obj(seq![(key, JsonV::Arr(strs_json(items)))]), Some(2), 0)
}

/// The library after writing `order.json`.
pub open spec fn wrote_order(l: LibraryV, ids: Seq<Seq<char>>) -> LibraryV {
    LibraryV {
        order: StoredV::Text(list_file("prompts"@, ids)),
        effects: l.effects.push(EffectV::WriteOrder(list_file("prompts"@, ids))),
        ..l
    }
}

/// The library after writing `variables.json`.
pub open spec fn wrote_variables(l: LibraryV, names: Seq<Seq<char>>) -> LibraryV {
    LibraryV {
        variables: StoredV::Text(list_file("variables"@, names)),
        effects: l.effects.push(EffectV::WriteVariables(list_file("variables"@, names))),
        ..l
    }
}

fn list_file_exec(key: &str, items: &Vec<String>) -> (r: String)
    ensures
        r@ == list_file(key@, views(items@)),
{
    let m: Vec<(String, Json)> = vec![(copy_string(key), strs_to_json(items))];
    proof {
        crate::json::lemma_jv_pairs(m@);
        assert(jv_pairs(m@) =~= seq![(key@, JsonV::Arr(strs_json(views(items@))))]);
    }
    Json::Obj(m).pretty()
}

impl Library {
    fn write_prompt(&mut self, p: &Prompt)
        ensures
            final(self)@ == wrote_prompt(old(self)@, p@),
    {
        let text = p.to_markdown();
        put_file_exec(&mut self.prompt_files, p.file_name.as_str(), text.as_str());
        let ghost ev = EffectV::WritePrompt(p@.file_name, text@);
        self.effects.push(Effect::WritePrompt(copy_string(p.file_name.as_str()), text));
        assert(self@.effects =~= old(self)@.effects.push(ev));
        assert(self@.recipes =~= old(self)@.recipes);
    }

    fn remove_prompt_file(&mut self, name: &str)
        ensures
            final(self)@ == removed_prompt(old(self)@, name@),
    {
        drop_file_exec(&mut self.prompt_files, name);
        let ghost ev = EffectV::RemovePrompt(name@);
        self.effects.push(Effect::RemovePrompt(copy_string(name)));
        assert(self@.effects =~= old(self)@.effects.push(ev));
        assert(self@.recipes =~= old(self)@.recipes);
    }

    fn write_recipe(&mut self, r: &Recipe)
        ensures
            final(self)@ == wrote_recipe(old(self)@, r@),
    {
        let text = r.to_yaml();
        put_file_exec(&mut self.recipe_files, r.file_name.as_str(), text.as_str());
        let ghost ev = EffectV::WriteRecipe(r@.file_name, text@);
        self.effects.push(Effect::WriteRecipe(copy_string(r.file_name.as_str()), text));
        assert(self@.effects =~= old(self)@.effects.push(ev));
        assert(self@.prompts =~= old(self)@.prompts);
    }

    fn remove_recipe_file(&mut self, name: &str)
        ensures
            final(self)@ == removed_recipe(old(self)@, name@),
    {
        drop_file_exec(&mut self.recipe_files, name);
        let ghost ev = EffectV::RemoveRecipe(name@);
        self.effects.push(Effect::RemoveRecipe(copy_string(name)));
        assert(self@.effects =~= old(self)@.effects.push(ev));
        assert(self@.prompts =~= old(self)@.prompts);
    }

    /// Writes `order.json` with the given prompt ids.
    pub fn save_order(&mut self, ids: &Vec<String>)
        ensures
            final(self)@ == wrote_order(old(self)@, views(ids@)),
    {
        let text = list_file_exec("prompts", ids);
        let ghost ev = EffectV::WriteOrder(text@);
        self.order_text = Stored::Text(copy_string(text.as_str()));
        self.effects.push(Effect::WriteOrder(text));
        assert(self@.effects =~= old(self)@.effects.push(ev));
        assert(self@.prompts =~= old(self)@.prompts);
        assert(self@.recipes =~= old(self)@.recipes);
    }

    fn save_variables(&mut self, names: &Vec<String>)
        ensures
            final(self)@ == wrote_variables(old(self)@, views(names@)),
    {
        let text = list_file_exec("variables", names);
        let ghost ev = EffectV::WriteVariables(text@);
        self.variables_text = Stored::Text(copy_string(text.as_str()));
        self.effects.push(Effect::WriteVariables(text));
        assert(self@.effects =~= old(self)@.effects.push(ev));
        assert(self@.prompts =~= old(self)@.prompts);
        assert(self@.recipes =~= old(self)@.recipes);
    }
}


// ---------- results ----------

pub open spec fn res_view<T: View>(r: Result<T, StoreError>) -> Result<T::V, ErrV> {
    match r {
        Ok(x) => Ok(x@),
        Err(e) => Err(err_v(e)),
    }
}

pub open spec fn res_names(r: Result<Vec<String>, StoreError>) -> Result<Seq<Seq<char>>, ErrV> {
    match r {
        Ok(v) => Ok(views(v@)),
        Err(e) => Err(err_v(e)),
    }
}

pub open spec fn res_unit(r: Result<(), StoreError>) -> Result<(), ErrV> {
    match r {
        Ok(_) => Ok(()),
        Err(e) => Err(err_v(e)),
    }
}

// ---------- file names ----------

/// The `n`th candidate file name: `slug.ext`, then `slug-2.ext`,
/// `slug-3.ext`, ...
pub open spec fn candidate(slug: Seq<char>, n: int, ext: Seq<char>) -> Seq<char> {
    if n <= 1 {
        slug + seq!['.'] + ext
    } else {
        slug + seq!['-'] + dec(n as nat) + seq!['.'] + ext
    }
}

/// The first candidate number from `n` on whose name is not taken (a
/// listing of `k` entries cannot take all of the first `k + 1`).
pub open spec fn free_from(d: Seq<(Seq<char>, Option<Seq<char>>)>, slug: Seq<char>, ext: Seq<char>, n: int) -> int
    decreases d.len() + 1 - n,
{
    if n > d.len() || file_pos(d, candidate(slug, n, ext)) is None {
        n
    } else {
        free_from(d, slug, ext, n + 1)
    }
}

/// The file name a new item with this slug gets in the listing.
pub open spec fn free_name(d: Seq<(Seq<char>, Option<Seq<char>>)>, slug: Seq<char>, ext: Seq<char>) -> Seq<char> {
    candidate(slug, free_from(d, slug, ext, 1), ext)
}

fn candidate_exec(slug: &str, n: u128, ext: &str) -> (r: String)
    ensures
        r@ == candidate(slug@, n as int, ext@),
{
    let mut out = chars_of(slug);
    if n > 1 {
        out.push('-');
        push_dec(&mut out, n);
    }
    out.push('.');
    crate::text::extend_str(&mut out, ext);
    assert(out@ =~= candidate(slug@, n as int, ext@));
    string_of(out.as_slice())
}

fn free_file_name(d: &Vec<(String, Option<String>)>, slug: &str, ext: &str) -> (r: String)
    ensures
        r@ == free_name(dir_v(d@), slug@, ext@),
{
    let ghost s = dir_v(d@);
    let len = d.len() as u128;
    let mut n: u128 = 1;
    let mut name = candidate_exec(slug, 1, ext);
    while n <= len
        invariant
            1 <= n <= d@.len() + 1,
            len == d@.len(),
            len <= usize::MAX,
            s == dir_v(d@),
            s.len() == d@.len(),
            name@ == candidate(slug@, n as int, ext@),
            free_from(s, slug@, ext@, 1) == free_from(s, slug@, ext@, n as int),
        ensures
            n > d@.len() || file_pos(s, name@) is None,
            1 <= n <= d@.len() + 1,
            name@ == candidate(slug@, n as int, ext@),
            free_from(s, slug@, ext@, 1) == free_from(s, slug@, ext@, n as int),
        decreases d@.len() + 1 - n,
    {
        if file_pos_exec(d, name.as_str()).is_none() {
            break;
        }
        n = n + 1;
        name = candidate_exec(slug, n, ext);
    }
    name
}

// ---------- lookups ----------

/// The first prompt with this id.
pub open spec fn find_prompt(ps: Seq<PromptV>, id: Seq<char>) -> Option<PromptV>
    decreases ps.len(),
{
    if ps.len() == 0 {
        None
    } else if ps[0].id == id {
        Some(ps[0])
    } else {
        find_prompt(ps.drop_first(), id)
    }
}

/// The first recipe with this id.
pub open spec fn find_recipe(rs: Seq<RecipeV>, id: Seq<char>) -> Option<RecipeV>
    decreases rs.len(),
{
    if rs.len() == 0 {
        None
    } else if rs[0].id == id {
        Some(rs[0])
    } else {
        find_recipe(rs.drop_first(), id)
    }
}

/// The listed prompt with this id.
pub open spec fn prompt_by_id(l: LibraryV, id: Seq<char>) -> Result<PromptV, ErrV> {
    match prompts_of(l) {
        Err(e) => Err(e),
        Ok(ps) => match find_prompt(ps, id) {
            Some(p) => Ok(p),
            None => Err(ErrV::NotFound(id)),
        },
    }
}

/// The listed recipe with this id.
pub open spec fn recipe_by_id(l: LibraryV, id: Seq<char>) -> Result<RecipeV, ErrV> {
    match l.recipes_error {
        Some(m) => Err(ErrV::Io(m)),
        None => match find_recipe(recipes_of(l), id) {
            Some(r) => Ok(r),
            None => Err(ErrV::NotFound(id)),
        },
    }
}

pub open spec fn prompt_ids(ps: Seq<PromptV>) -> Seq<Seq<char>> {
    ps.map_values(|p: PromptV| p.id)
}

pub open spec fn recipe_ids(rs: Seq<RecipeV>) -> Seq<Seq<char>> {
    rs.map_values(|r: RecipeV| r.id)
}

pub(crate) fn prompt_index(ps: &Vec<Prompt>, id: &str) -> (r: Option<usize>)
    ensures
        r matches Some(i) ==> i < ps@.len() && find_prompt(prompts_v(ps@), id@) == Some(ps@[i as int]@),
        r is None ==> find_prompt(prompts_v(ps@), id@) is None,
{
    let ghost s = prompts_v(ps@);
    let n = ps.len();
    let mut i: usize = 0;
    assert(s.skip(0) =~= s);
    while i < n
        invariant
            n == ps@.len(),
            i <= n,
            s == prompts_v(ps@),
            find_prompt(s, id@) == find_prompt(s.skip(i as int), id@),
        decreases n - i,
    {
        assert(s.skip(i as int)[0] == s[i as int]);
        assert(s.skip(i as int).drop_first() =~= s.skip(i + 1));
        assert(s[i as int] == ps@[i as int]@);
        if str_eq(ps[i].id.as_str(), id) {
            return Some(i);
        }
        i = i + 1;
    }
    None
}

pub(crate) fn recipe_index(rs: &Vec<Recipe>, id: &str) -> (r: Option<usize>)
    ensures
        r matches Some(i) ==> i < rs@.len() && find_recipe(recipes_v(rs@), id@) == Some(rs@[i as int]@),
        r is None ==> find_recipe(recipes_v(rs@), id@) is None,
{
    let ghost s = recipes_v(rs@);
    let n = rs.len();
    let mut i: usize = 0;
    assert(s.skip(0) =~= s);
    while i < n
        invariant
            n == rs@.len(),
            i <= n,
            s == recipes_v(rs@),
            find_recipe(s, id@) == find_recipe(s.skip(i as int), id@),
        decreases n - i,
    {
        assert(s.skip(i as int)[0] == s[i as int]);
        assert(s.skip(i as int).drop_first() =~= s.skip(i + 1));
        assert(s[i as int] == rs@[i as int]@);
        if str_eq(rs[i].id.as_str(), id) {
            return Some(i);
        }
        i = i + 1;
    }
    None
}

fn ids_of_prompts(ps: &Vec<Prompt>) -> (r: Vec<String>)
    ensures
        views(r@) == prompt_ids(prompts_v(ps@)),
{
    let mut out: Vec<String> = Vec::new();
    let n = ps.len();
    let mut i: usize = 0;
    while i < n
        invariant
            n == ps@.len(),
            i <= n,
            views(out@) == prompt_ids(prompts_v(ps@)).take(i as int),
        decreases n - i,
    {
        let ghost before = views(out@);
        out.push(copy_string(ps[i].id.as_str()));
        assert(views(out@) =~= before.push(ps@[i as int]@.id));
        assert(prompt_ids(prompts_v(ps@)).take(i + 1) =~= prompt_ids(prompts_v(ps@)).take(i as int).push(ps@[i as int]@.id));
        i = i + 1;
    }
    assert(prompt_ids(prompts_v(ps@)).take(n as int) =~= prompt_ids(prompts_v(ps@)));
    out
}

fn ids_of_recipes(rs: &Vec<Recipe>) -> (r: Vec<String>)
    ensures
        views(r@) == recipe_ids(recipes_v(rs@)),
{
    let mut out: Vec<String> = Vec::new();
    let n = rs.len();
    let mut i: usize = 0;
    while i < n
        invariant
            n == rs@.len(),
            i <= n,
            views(out@) == recipe_ids(recipes_v(rs@)).take(i as int),
        decreases n - i,
    {
        let ghost before = views(out@);
        out.push(copy_string(rs[i].id.as_str()));
        assert(views(out@) =~= before.push(rs@[i as int]@.id));
        assert(recipe_ids(recipes_v(rs@)).take(i + 1) =~= recipe_ids(recipes_v(rs@)).take(i as int).push(rs@[i as int]@.id));
        i = i + 1;
    }
    assert(recipe_ids(recipes_v(rs@)).take(n as int) =~= recipe_ids(recipes_v(rs@)));
    out
}

// ---------- id lists ----------

/// The ids of `ids` that occur in `known`, in order.
pub open spec fn keep_known(ids: Seq<Seq<char>>, known: Seq<Seq<char>>) -> Seq<Seq<char>>
    decreases ids.len(),
{
    if ids.len() == 0 {
        seq![]
    } else {
        let k = keep_known(ids.drop_last(), known);
        if known.contains(ids.last()) {
            k.push(ids.last())
        } else {
            k
        }
    }
}

/// `ids` without any occurrence of `x`.
pub open spec fn without(ids: Seq<Seq<char>>, x: Seq<char>) -> Seq<Seq<char>>
    decreases ids.len(),
{
    if ids.len() == 0 {
        seq![]
    } else {
        let k = without(ids.drop_last(), x);
        if ids.last() == x {
            k
        } else {
            k.push(ids.last())
        }
    }
}

/// `o` followed by the ids of `cur` it lacks, in `cur` order.
pub open spec fn append_missing(o: Seq<Seq<char>>, cur: Seq<Seq<char>>) -> Seq<Seq<char>>
    decreases cur.len(),
{
    if cur.len() == 0 {
        o
    } else {
        let a = append_missing(o, cur.drop_last());
        if a.contains(cur.last()) {
            a
        } else {
            a.push(cur.last())
        }
    }
}

fn keep_known_exec(ids: &Vec<String>, known: &Vec<String>) -> (r: Vec<String>)
    ensures
        views(r@) == keep_known(views(ids@), views(known@)),
{
    let mut out: Vec<String> = Vec::new();
    let n = ids.len();
    let mut i: usize = 0;
    while i < n
        invariant
            n == ids@.len(),
            i <= n,
            views(out@) == keep_known(views(ids@).take(i as int), views(known@)),
        decreases n - i,
    {
        assert(views(ids@).take(i + 1).drop_last() =~= views(ids@).take(i as int));
        if contains_string(known, ids[i].as_str()) {
            let ghost before = views(out@);
            out.push(copy_string(ids[i].as_str()));
            assert(views(out@) =~= before.push(ids@[i as int]@));
        }
        i = i + 1;
    }
    assert(views(ids@).take(n as int) =~= views(ids@));
    out
}

fn without_exec(ids: &Vec<String>, x: &str) -> (r: Vec<String>)
    ensures
        views(r@) == without(views(ids@), x@),
{
    let mut out: Vec<String> = Vec::new();
    let n = ids.len();
    let mut i: usize = 0;
    while i < n
        invariant
            n == ids@.len(),
            i <= n,
            views(out@) == without(views(ids@).take(i as int), x@),
        decreases n - i,
    {
        assert(views(ids@).take(i + 1).drop_last() =~= views(ids@).take(i as int));
        if !str_eq(ids[i].as_str(), x) {
            let ghost before = views(out@);
            out.push(copy_string(ids[i].as_str()));
            assert(views(out@) =~= before.push(ids@[i as int]@));
        }
        i = i + 1;
    }
    assert(views(ids@).take(n as int) =~= views(ids@));
    out
}

fn append_missing_exec(o: &mut Vec<String>, cur: &Vec<String>)
    ensures
        views(final(o)@) == append_missing(views(old(o)@), views(cur@)),
{
    let n = cur.len();
    let mut i: usize = 0;
    let ghost o0 = views(o@);
    while i < n
        invariant
            n == cur@.len(),
            i <= n,
            views(o@) == append_missing(o0, views(cur@).take(i as int)),
        decreases n - i,
    {
        assert(views(cur@).take(i + 1).drop_last() =~= views(cur@).take(i as int));
        if !contains_string(o, cur[i].as_str()) {
            let ghost before = views(o@);
            o.push(copy_string(cur[i].as_str()));
            assert(views(o@) =~= before.push(cur@[i as int]@));
        }
        i = i + 1;
    }
    assert(views(cur@).take(n as int) =~= views(cur@));
}

/// The selection after the assigned recipes changed: kept when still
/// assigned, else the first assigned recipe, else none.
pub open spec fn fix_selected(sel: Option<Seq<char>>, recipes: Seq<Seq<char>>) -> Option<Seq<char>> {
    match sel {
        Some(s) => if recipes.contains(s) {
            Some(s)
        } else if recipes.len() > 0 {
            Some(recipes[0])
        } else {
            None
        },
        None => None,
    }
}

fn fix_selected_exec(sel: &Option<String>, recipes: &Vec<String>) -> (r: Option<String>)
    ensures
        opt_v(r) == fix_selected(opt_v(*sel), views(recipes@)),
{
    match sel {
        Some(s) => {
            if contains_string(recipes, s.as_str()) {
                Some(copy_string(s.as_str()))
            } else if recipes.len() > 0 {
                Some(copy_string(recipes[0].as_str()))
            } else {
                None
            }
        },
        None => None,
    }
}

// ---------- prompt operations ----------

/// A new prompt as created (file name still to be chosen).
pub open spec fn new_prompt(id: Seq<char>, now: Seq<char>, title: Seq<char>, content: Seq<char>, file_name: Seq<char>) -> PromptV {
    PromptV {
        id,
        title,
        created: now,
        updated: now,
        recipes: seq![],
        selected_recipe: None,
        tags: seq![],
        content,
        file_name,
    }
}

/// `create_prompt`: writes the new prompt under a free file name derived
/// from its title, then appends its id to `order.json`.
#[verifier::opaque]
pub open spec fn create_prompt_spec(l: LibraryV, id: Seq<char>, now: Seq<char>, title: Seq<char>, content: Seq<char>) -> (
    Result<PromptV, ErrV>,
    LibraryV,
) {
    let p = new_prompt(id, now, title, content, free_name(l.prompts, slug(title), "md"@));
    let l2 = wrote_prompt(l, p);
    match order_of(l2) {
        Err(e) => (Err(e), l2),
        Ok(o) => (Ok(p), wrote_order(l2, o.push(id))),
    }
}

/// The prompt `save_prompt` writes: the caller's fields, with the stored
/// file name and creation time, the new update time, and only the recipes
/// that exist.
pub open spec fn saved_prompt(l: LibraryV, now: Seq<char>, u: PromptV, existing: PromptV) -> PromptV {
    let rs = keep_known(u.recipes, recipe_ids(recipes_of(l)));
    PromptV {
        file_name: existing.file_name,
        created: if existing.created.len() == 0 {
            now
        } else {
            existing.created
        },
        updated: now,
        recipes: rs,
        selected_recipe: fix_selected(u.selected_recipe, rs),
        ..u
    }
}

/// `save_prompt`: updates an existing prompt (matched by id).
#[verifier::opaque]
pub open spec fn save_prompt_spec(l: LibraryV, now: Seq<char>, u: PromptV) -> (Result<PromptV, ErrV>, LibraryV) {
    match prompt_by_id(l, u.id) {
        Err(e) => (Err(e), l),
        Ok(existing) => match l.recipes_error {
            Some(m) => (Err(ErrV::Io(m)), l),
            None => {
                let p = saved_prompt(l, now, u, existing);
                (Ok(p), wrote_prompt(l, p))
            },
        },
    }
}

/// `delete_prompt`: removes the prompt's file and its id from the order.
pub open spec fn delete_prompt_spec(l: LibraryV, id: Seq<char>) -> (Result<(), ErrV>, LibraryV) {
    match prompt_by_id(l, id) {
        Err(e) => (Err(e), l),
        Ok(p) => {
            let l2 = removed_prompt(l, p.file_name);
            match order_of(l2) {
                Err(e) => (Err(e), l2),
                Ok(o) => (Ok(()), wrote_order(l2, without(o, id))),
            }
        },
    }
}

/// The title of a copy.
pub open spec fn copy_title(t: Seq<char>) -> Seq<char> {
    t + " (kopie)"@
}

/// `duplicate_prompt`: a new prompt with the source's title (marked as a
/// copy), content and recipe assignment.
pub open spec fn duplicate_prompt_spec(l: LibraryV, new_id: Seq<char>, now: Seq<char>, id: Seq<char>) -> (
    Result<PromptV, ErrV>,
    LibraryV,
) {
    match prompt_by_id(l, id) {
        Err(e) => (Err(e), l),
        Ok(src) => {
            let (c, l2) = create_prompt_spec(l, new_id, now, copy_title(src.title), src.content);
            match c {
                Err(e) => (Err(e), l2),
                Ok(cp) => save_prompt_spec(
                    l2,
                    now,
                    PromptV { recipes: src.recipes, selected_recipe: src.selected_recipe, ..cp },
                ),
            }
        },
    }
}

/// `reorder_prompts`: the given ids that are listed prompts, then the
/// listed prompts not given, in listing order.
pub open spec fn reorder_spec(l: LibraryV, ids: Seq<Seq<char>>) -> (Result<Seq<Seq<char>>, ErrV>, LibraryV) {
    match prompts_of(l) {
        Err(e) => (Err(e), l),
        Ok(ps) => {
            let cur = prompt_ids(ps);
            let o = append_missing(keep_known(ids, cur), cur);
            (Ok(o), wrote_order(l, o))
        },
    }
}

pub(crate) fn copy_prompt(p: &Prompt) -> (r: Prompt)
    ensures
        r@ == p@,
{
    Prompt {
        id: copy_string(p.id.as_str()),
        title: copy_string(p.title.as_str()),
        created: copy_string(p.created.as_str()),
        updated: copy_string(p.updated.as_str()),
        recipes: copy_strings(&p.recipes),
        selected_recipe: match &p.selected_recipe {
            Some(s) => Some(copy_string(s.as_str())),
            None => None,
        },
        tags: copy_strings(&p.tags),
        content: copy_string(p.content.as_str()),
        file_name: copy_string(p.file_name.as_str()),
    }
}

impl Library {
    /// The listed prompt with this id.
    pub fn get_prompt(&self, id: &str) -> (r: Result<Prompt, StoreError>)
        ensures
            res_view(r) == prompt_by_id(self@, id@),
    {
        let ps = match self.list_prompts() {
            Ok(ps) => ps,
            Err(e) => {
                return Err(e);
            },
        };
        match prompt_index(&ps, id) {
            Some(i) => {
                let mut ps = ps;
                Ok(ps.remove(i))
            },
            None => Err(StoreError::NotFound(copy_string(id))),
        }
    }

    /// The listed recipe with this id.
    pub fn get_recipe(&self, id: &str) -> (r: Result<Recipe, StoreError>)
        ensures
            res_view(r) == recipe_by_id(self@, id@),
    {
        let rs = match self.list_recipes() {
            Ok(rs) => rs,
            Err(e) => {
                return Err(e);
            },
        };
        match recipe_index(&rs, id) {
            Some(i) => {
                let mut rs = rs;
                Ok(rs.remove(i))
            },
            None => Err(StoreError::NotFound(copy_string(id))),
        }
    }

    /// Creates a prompt with the given id and creation time, under a free
    /// file name derived from the title, and appends it to the order.
    pub fn create_prompt(&mut self, id: &str, now: &str, title: &str, content: &str) -> (r: Result<Prompt, StoreError>)
        ensures
            (res_view(r), final(self)@) == create_prompt_spec(old(self)@, id@, now@, title@, content@),
    {
        proof {
            reveal(create_prompt_spec);
        }
        let sl = slugify(title);
        let name = free_file_name(&self.prompt_files, sl.as_str(), "md");
        let p = Prompt {
            id: copy_string(id),
            title: copy_string(title),
            created: copy_string(now),
            updated: copy_string(now),
            recipes: Vec::new(),
            selected_recipe: None,
            tags: Vec::new(),
            content: copy_string(content),
            file_name: name,
        };
        assert(views(p.recipes@) =~= seq![]);
        assert(views(p.tags@) =~= seq![]);
        self.write_prompt(&p);
        let mut order = match self.load_order() {
            Ok(o) => o,
            Err(e) => {
                return Err(e);
            },
        };
        let ghost o0 = views(order@);
        order.push(copy_string(id));
        assert(views(order@) =~= o0.push(id@));
        self.save_order(&order);
        Ok(p)
    }

    /// Updates an existing prompt (matched by id). The file name and the
    /// creation time stay; references to recipes that no longer exist are
    /// dropped.
    pub fn save_prompt(&mut self, now: &str, updated: &Prompt) -> (r: Result<Prompt, StoreError>)
        ensures
            (res_view(r), final(self)@) == save_prompt_spec(old(self)@, now@, updated@),
    {
        proof {
            reveal(save_prompt_spec);
        }
        let existing = match self.get_prompt(updated.id.as_str()) {
            Ok(p) => p,
            Err(e) => {
                return Err(e);
            },
        };
        let recipes = match self.list_recipes() {
            Ok(v) => v,
            Err(e) => {
                return Err(e);
            },
        };
        let known = ids_of_recipes(&recipes);
        let kept = keep_known_exec(&updated.recipes, &known);
        let sel = fix_selected_exec(&updated.selected_recipe, &kept);
        let created = if chars_of(existing.created.as_str()).len() == 0 {
            copy_string(now)
        } else {
            existing.created
        };
        let p = Prompt {
            id: copy_string(updated.id.as_str()),
            title: copy_string(updated.title.as_str()),
            created,
            updated: copy_string(now),
            recipes: kept,
            selected_recipe: sel,
            tags: copy_strings(&updated.tags),
            content: copy_string(updated.content.as_str()),
            file_name: existing.file_name,
        };
        self.write_prompt(&p);
        Ok(p)
    }

    /// Deletes a prompt's file and removes it from the order.
    pub fn delete_prompt(&mut self, id: &str) -> (r: Result<(), StoreError>)
        ensures
            (res_unit(r), final(self)@) == delete_prompt_spec(old(self)@, id@),
    {
        let p = match self.get_prompt(id) {
            Ok(p) => p,
            Err(e) => {
                return Err(e);
            },
        };
        self.remove_prompt_file(p.file_name.as_str());
        let order = match self.load_order() {
            Ok(o) => o,
            Err(e) => {
                return Err(e);
            },
        };
        let kept = without_exec(&order, id);
        self.save_order(&kept);
        Ok(())
    }

    /// Copies a prompt under a new id: title marked as a copy, same content
    /// and recipe assignment.
    pub fn duplicate_prompt(&mut self, new_id: &str, now: &str, id: &str) -> (r: Result<Prompt, StoreError>)
        ensures
            (res_view(r), final(self)@) == duplicate_prompt_spec(old(self)@, new_id@, now@, id@),
    {
        let src = match self.get_prompt(id) {
            Ok(p) => p,
            Err(e) => {
                return Err(e);
            },
        };
        let mut t = chars_of(src.title.as_str());
        crate::text::extend_str(&mut t, " (kopie)");
        let title = string_of(t.as_slice());
        let copy = match self.create_prompt(new_id, now, title.as_str(), src.content.as_str()) {
            Ok(c) => c,
            Err(e) => {
                return Err(e);
            },
        };
        let mut copy2 = copy_prompt(&copy);
        copy2.recipes = copy_strings(&src.recipes);
        copy2.selected_recipe = match &src.selected_recipe {
            Some(s) => Some(copy_string(s.as_str())),
            None => None,
        };
        self.save_prompt(now, &copy2)
    }

    /// Replaces the order with the given ids: ids of unknown prompts are
    /// dropped, prompts not given are appended in their current order.
    pub fn reorder_prompts(&mut self, ids: &Vec<String>) -> (r: Result<Vec<String>, StoreError>)
        ensures
            (res_names(r), final(self)@) == reorder_spec(old(self)@, views(ids@)),
    {
        let ps = match self.list_prompts() {
            Ok(ps) => ps,
            Err(e) => {
                return Err(e);
            },
        };
        let cur = ids_of_prompts(&ps);
        let mut order = keep_known_exec(ids, &cur);
        append_missing_exec(&mut order, &cur);
        self.save_order(&order);
        Ok(order)
    }
}


// ---------- recipe values ----------

/// The value of the first pair named `name`.
pub open spec fn value_of(vals: Seq<(Seq<char>, Seq<char>)>, name: Seq<char>) -> Option<Seq<char>>
    decreases vals.len(),
{
    if vals.len() == 0 {
        None
    } else if vals[0].0 == name {
        Some(vals[0].1)
    } else {
        value_of(vals.drop_first(), name)
    }
}

/// The names of a list of pairs.
pub open spec fn keys(vals: Seq<(Seq<char>, Seq<char>)>) -> Seq<Seq<char>> {
    vals.map_values(|kv: (Seq<char>, Seq<char>)| kv.0)
}

/// The pairs whose name is not in `list`, in order.
pub open spec fn extra_pairs(vals: Seq<(Seq<char>, Seq<char>)>, list: Seq<Seq<char>>) -> Seq<(Seq<char>, Seq<char>)>
    decreases vals.len(),
{
    if vals.len() == 0 {
        seq![]
    } else {
        let e = extra_pairs(vals.drop_last(), list);
        if list.contains(vals.last().0) {
            e
        } else {
            e.push(vals.last())
        }
    }
}

/// A recipe's values re-stated in the order of `list`, every name present
/// (empty when the recipe lacks it), followed by the pairs whose name the
/// list does not know.
pub open spec fn normalized(vals: Seq<(Seq<char>, Seq<char>)>, list: Seq<Seq<char>>) -> Seq<(Seq<char>, Seq<char>)> {
    list.map_values(|n: Seq<char>| (n, or_empty(value_of(vals, n)))) + extra_pairs(vals, list)
}

fn value_index(vals: &Vec<(String, String)>, name: &str) -> (r: Option<usize>)
    ensures
        r matches Some(i) ==> i < vals@.len() && value_of(pairs_v(vals@), name@) == Some(vals@[i as int].1@),
        r is None ==> value_of(pairs_v(vals@), name@) is None,
{
    let ghost s = pairs_v(vals@);
    let n = vals.len();
    let mut i: usize = 0;
    assert(s.skip(0) =~= s);
    while i < n
        invariant
            n == vals@.len(),
            i <= n,
            s == pairs_v(vals@),
            value_of(s, name@) == value_of(s.skip(i as int), name@),
        decreases n - i,
    {
        assert(s.skip(i as int)[0] == s[i as int]);
        assert(s.skip(i as int).drop_first() =~= s.skip(i + 1));
        if str_eq(vals[i].0.as_str(), name) {
            return Some(i);
        }
        i = i + 1;
    }
    None
}

fn value_text(vals: &Vec<(String, String)>, name: &str) -> (r: String)
    ensures
        r@ == or_empty(value_of(pairs_v(vals@), name@)),
{
    match value_index(vals, name) {
        Some(i) => copy_string(vals[i].1.as_str()),
        None => String::new(),
    }
}

fn normalized_exec(vals: &Vec<(String, String)>, list: &Vec<String>) -> (r: Vec<(String, String)>)
    ensures
        pairs_v(r@) == normalized(pairs_v(vals@), views(list@)),
{
    let ghost head = views(list@).map_values(|n: Seq<char>| (n, or_empty(value_of(pairs_v(vals@), n))));
    let mut out: Vec<(String, String)> = Vec::new();
    let n = list.len();
    let mut i: usize = 0;
    while i < n
        invariant
            n == list@.len(),
            i <= n,
            head == views(list@).map_values(|n: Seq<char>| (n, or_empty(value_of(pairs_v(vals@), n)))),
            pairs_v(out@) == head.take(i as int),
        decreases n - i,
    {
        let ghost before = pairs_v(out@);
        let v = value_text(vals, list[i].as_str());
        out.push((copy_string(list[i].as_str()), v));
        assert(pairs_v(out@) =~= before.push(head[i as int]));
        assert(head.take(i + 1) =~= head.take(i as int).push(head[i as int]));
        i = i + 1;
    }
    assert(head.take(n as int) =~= head);
    let m = vals.len();
    let mut j: usize = 0;
    assert(pairs_v(vals@).take(0) =~= seq![]);
    assert(head + extra_pairs(pairs_v(vals@).take(0), views(list@)) =~= head);
    while j < m
        invariant
            m == vals@.len(),
            j <= m,
            pairs_v(out@) == head + extra_pairs(pairs_v(vals@).take(j as int), views(list@)),
        decreases m - j,
    {
        assert(pairs_v(vals@).take(j + 1).drop_last() =~= pairs_v(vals@).take(j as int));
        if !contains_string(list, vals[j].0.as_str()) {
            let ghost before = pairs_v(out@);
            out.push((copy_string(vals[j].0.as_str()), copy_string(vals[j].1.as_str())));
            assert(pairs_v(out@) =~= before.push((vals@[j as int].0@, vals@[j as int].1@)));
        }
        j = j + 1;
    }
    assert(pairs_v(vals@).take(m as int) =~= pairs_v(vals@));
    out
}

fn pairs_eq(a: &Vec<(String, String)>, b: &Vec<(String, String)>) -> (r: bool)
    ensures
        r == (pairs_v(a@) == pairs_v(b@)),
{
    if a.len() != b.len() {
        proof {
            if pairs_v(a@) == pairs_v(b@) {
                assert(pairs_v(a@).len() == pairs_v(b@).len());
            }
        }
        return false;
    }
    let n = a.len();
    let mut i: usize = 0;
    while i < n
        invariant
            n == a@.len(),
            n == b@.len(),
            i <= n,
            forall|j: int| 0 <= j < i ==> #[trigger] pairs_v(a@)[j] == pairs_v(b@)[j],
        decreases n - i,
    {
        if !str_eq(a[i].0.as_str(), b[i].0.as_str()) || !str_eq(a[i].1.as_str(), b[i].1.as_str()) {
            proof {
                assert(pairs_v(a@)[i as int] != pairs_v(b@)[i as int]);
            }
            return false;
        }
        i = i + 1;
    }
    assert(pairs_v(a@) =~= pairs_v(b@));
    true
}

fn with_values(r: &Recipe, values: Vec<(String, String)>) -> (x: Recipe)
    ensures
        x@ == (RecipeV { values: pairs_v(values@), ..r@ }),
{
    Recipe {
        id: copy_string(r.id.as_str()),
        name: copy_string(r.name.as_str()),
        updated: copy_string(r.updated.as_str()),
        values,
        file_name: copy_string(r.file_name.as_str()),
    }
}

// ---------- the global variable list ----------

/// What `variables.json` lists (`None` when the file does not exist).
pub open spec fn variables_raw(l: LibraryV) -> Result<Option<Seq<Seq<char>>>, ErrV> {
    match l.variables {
        StoredV::Absent => Ok(None),
        StoredV::Unreadable(m) => Err(ErrV::Io(m)),
        StoredV::Text(t) => match id_list(t, "variables"@) {
            None => Err(ErrV::Parse("variables.json"@, parse_error(t))),
            Some(v) => Ok(Some(v)),
        },
    }
}

/// `list` extended by each valid name of `names` it lacks, in order.
pub open spec fn add_names(list: Seq<Seq<char>>, names: Seq<Seq<char>>) -> Seq<Seq<char>>
    decreases names.len(),
{
    if names.len() == 0 {
        list
    } else {
        let a = add_names(list, names.drop_last());
        if is_name(names.last()) && !a.contains(names.last()) {
            a.push(names.last())
        } else {
            a
        }
    }
}

/// `list` extended by the valid names of every recipe, recipe by recipe.
pub open spec fn add_recipe_keys(list: Seq<Seq<char>>, rs: Seq<RecipeV>) -> Seq<Seq<char>>
    decreases rs.len(),
{
    if rs.len() == 0 {
        list
    } else {
        add_names(add_recipe_keys(list, rs.drop_last()), keys(rs.last().values))
    }
}

/// The global variable names: order from `variables.json`, membership the
/// union of that file and every recipe's names (valid names only, each once).
pub open spec fn reconciled(l: LibraryV) -> Result<Seq<Seq<char>>, ErrV> {
    match variables_raw(l) {
        Err(e) => Err(e),
        Ok(f) => match l.recipes_error {
            Some(m) => Err(ErrV::Io(m)),
            None => Ok(
                add_recipe_keys(
                    add_names(
                        seq![],
                        match f {
                            Some(v) => v,
                            None => seq![],
                        },
                    ),
                    recipes_of(l),
                ),
            ),
        },
    }
}

fn add_name_exec(list: &mut Vec<String>, name: &str)
    ensures
        views(final(list)@) == (if is_name(name@) && !views(old(list)@).contains(name@) {
            views(old(list)@).push(name@)
        } else {
            views(old(list)@)
        }),
{
    if valid_var_name(name) && !contains_string(list, name) {
        list.push(copy_string(name));
        assert(views(list@) =~= views(old(list)@).push(name@));
    }
}

impl Library {
    fn load_variables_raw(&self) -> (r: Result<Option<Vec<String>>, StoreError>)
        ensures
            r matches Ok(o) ==> variables_raw(self@) == Ok::<Option<Seq<Seq<char>>>, ErrV>(
                match o {
                    Some(v) => Some(views(v@)),
                    None => None,
                },
            ),
            r matches Err(e) ==> variables_raw(self@) == Err::<Option<Seq<Seq<char>>>, ErrV>(err_v(e)),
    {
        match &self.variables_text {
            Stored::Absent => Ok(None),
            Stored::Unreadable(m) => Err(StoreError::Io(copy_string(m.as_str()))),
            Stored::Text(t) => match read_id_list(t.as_str(), "variables") {
                Ok(v) => Ok(Some(v)),
                Err(e) => Err(StoreError::Parse(copy_string("variables.json"), e)),
            },
        }
    }

    fn reconcile(&self) -> (r: Result<Vec<String>, StoreError>)
        ensures
            res_names(r) == reconciled(self@),
    {
        let file = match self.load_variables_raw() {
            Ok(f) => f,
            Err(e) => {
                return Err(e);
            },
        };
        let mut list: Vec<String> = Vec::new();
        let ghost fv: Seq<Seq<char>> = match &file {
            Some(v) => views(v@),
            None => seq![],
        };
        match &file {
            Some(f) => {
                let n = f.len();
                let mut i: usize = 0;
                assert(views(list@) =~= add_names(seq![], views(f@).take(0)));
                while i < n
                    invariant
                        n == f@.len(),
                        i <= n,
                        views(list@) == add_names(seq![], views(f@).take(i as int)),
                    decreases n - i,
                {
                    assert(views(f@).take(i + 1).drop_last() =~= views(f@).take(i as int));
                    add_name_exec(&mut list, f[i].as_str());
                    i = i + 1;
                }
                assert(views(f@).take(n as int) =~= views(f@));
            },
            None => {
                assert(views(list@) =~= add_names(seq![], seq![]));
            },
        }
        let ghost base = views(list@);
        assert(base == add_names(seq![], fv));
        let rs = match self.list_recipes() {
            Ok(v) => v,
            Err(e) => {
                return Err(e);
            },
        };
        let m = rs.len();
        let mut k: usize = 0;
        assert(recipes_v(rs@).take(0) =~= seq![]);
        while k < m
            invariant
                m == rs@.len(),
                k <= m,
                views(list@) == add_recipe_keys(base, recipes_v(rs@).take(k as int)),
            decreases m - k,
        {
            let ghost start = views(list@);
            let ghost ks = keys(recipes_v(rs@)[k as int].values);
            let vals = &rs[k].values;
            let c = vals.len();
            let mut j: usize = 0;
            assert(ks.take(0) =~= seq![]);
            while j < c
                invariant
                    c == vals@.len(),
                    j <= c,
                    ks == keys(pairs_v(vals@)),
                    views(list@) == add_names(start, ks.take(j as int)),
                decreases c - j,
            {
                assert(ks.take(j + 1).drop_last() =~= ks.take(j as int));
                assert(ks[j as int] == vals@[j as int].0@);
                add_name_exec(&mut list, vals[j].0.as_str());
                j = j + 1;
            }
            assert(ks.take(c as int) =~= ks);
            assert(recipes_v(rs@).take(k + 1).drop_last() =~= recipes_v(rs@).take(k as int));
            k = k + 1;
        }
        assert(recipes_v(rs@).take(m as int) =~= recipes_v(rs@));
        Ok(list)
    }

    /// The ordered global variable names.
    pub fn list_variables(&self) -> (r: Result<Vec<String>, StoreError>)
        ensures
            res_names(r) == reconciled(self@),
    {
        self.reconcile()
    }
}


// ---------- recipe operations ----------

/// Each name with an empty value.
pub open spec fn blank_values(names: Seq<Seq<char>>) -> Seq<(Seq<char>, Seq<char>)> {
    names.map_values(|n: Seq<char>| (n, Seq::<char>::empty()))
}

/// `create_recipe`: a new recipe holding every global variable (empty),
/// under a free file name derived from its name.
#[verifier::opaque]
pub open spec fn create_recipe_spec(l: LibraryV, id: Seq<char>, now: Seq<char>, name: Seq<char>) -> (
    Result<RecipeV, ErrV>,
    LibraryV,
) {
    match reconciled(l) {
        Err(e) => (Err(e), l),
        Ok(list) => {
            let r = RecipeV {
                id,
                name,
                updated: now,
                values: blank_values(list),
                file_name: free_name(l.recipes, slug(name), "yaml"@),
            };
            (Ok(r), wrote_recipe(l, r))
        },
    }
}

/// The first name that is not a valid variable name.
pub open spec fn first_invalid_key(vals: Seq<(Seq<char>, Seq<char>)>) -> Option<Seq<char>>
    decreases vals.len(),
{
    if vals.len() == 0 {
        None
    } else if !is_name(vals[0].0) {
        Some(vals[0].0)
    } else {
        first_invalid_key(vals.drop_first())
    }
}

/// The first name that repeats an earlier one.
pub open spec fn first_dup(vals: Seq<(Seq<char>, Seq<char>)>) -> Option<Seq<char>>
    decreases vals.len(),
{
    if vals.len() == 0 {
        None
    } else {
        match first_dup(vals.drop_last()) {
            Some(k) => Some(k),
            None => if keys(vals.drop_last()).contains(vals.last().0) {
                Some(vals.last().0)
            } else {
                None
            },
        }
    }
}

pub open spec fn invalid_name_msg(k: Seq<char>) -> Seq<char> {
    "invalid variable name '"@ + k + "' (allowed: a-z, 0-9, _)"@
}

pub open spec fn dup_msg(k: Seq<char>) -> Seq<char> {
    "duplicate variable '"@ + k + "'"@
}

pub open spec fn exists_msg(k: Seq<char>) -> Seq<char> {
    "variable '"@ + k + "' already exists"@
}

/// `list` extended by each name of `names` it lacks, in order.
pub open spec fn add_all(list: Seq<Seq<char>>, names: Seq<Seq<char>>) -> Seq<Seq<char>>
    decreases names.len(),
{
    if names.len() == 0 {
        list
    } else {
        let a = add_all(list, names.drop_last());
        if a.contains(names.last()) {
            a
        } else {
            a.push(names.last())
        }
    }
}

/// Re-writes, in order, each recipe of `rs` (but the one with id `skip`)
/// whose values are not yet normalized to `list`.
pub open spec fn backfill(l: LibraryV, rs: Seq<RecipeV>, list: Seq<Seq<char>>, skip: Option<Seq<char>>) -> LibraryV
    decreases rs.len(),
{
    if rs.len() == 0 {
        l
    } else {
        let l2 = backfill(l, rs.drop_last(), list, skip);
        let r = rs.last();
        if skip == Some(r.id) || normalized(r.values, list) == r.values {
            l2
        } else {
            wrote_recipe(l2, RecipeV { values: normalized(r.values, list), ..r })
        }
    }
}

/// `save_recipe`: validates the names (valid, no repeats), normalizes the
/// values to the global list extended by the recipe's new names, writes
/// the recipe and, when the list grew, the list and every other recipe
/// that lacks a new name.
#[verifier::opaque]
pub open spec fn save_recipe_spec(l: LibraryV, now: Seq<char>, u: RecipeV) -> (Result<RecipeV, ErrV>, LibraryV) {
    match recipe_by_id(l, u.id) {
        Err(e) => (Err(e), l),
        Ok(existing) => match first_invalid_key(u.values) {
            Some(k) => (Err(ErrV::Invalid(invalid_name_msg(k))), l),
            None => match first_dup(u.values) {
                Some(k) => (Err(ErrV::Invalid(dup_msg(k))), l),
                None => match reconciled(l) {
                    Err(e) => (Err(e), l),
                    Ok(list0) => {
                        let list = add_all(list0, keys(u.values));
                        let r = RecipeV {
                            file_name: existing.file_name,
                            updated: now,
                            values: normalized(u.values, list),
                            ..u
                        };
                        let l2 = wrote_recipe(l, r);
                        if list.len() > list0.len() {
                            let l3 = wrote_variables(l2, list);
                            (Ok(r), backfill(l3, recipes_of(l3), list, Some(r.id)))
                        } else {
                            (Ok(r), l2)
                        }
                    },
                },
            },
        },
    }
}

/// `migrate`: normalizes every recipe to the global list, then writes the
/// list unless `variables.json` already holds exactly it.
pub open spec fn migrate_spec(l: LibraryV) -> (Result<Seq<Seq<char>>, ErrV>, LibraryV) {
    match variables_raw(l) {
        Err(e) => (Err(e), l),
        Ok(file) => match reconciled(l) {
            Err(e) => (Err(e), l),
            Ok(list) => {
                let l2 = backfill(l, recipes_of(l), list, None);
                if file == Some(list) {
                    (Ok(list), l2)
                } else {
                    (Ok(list), wrote_variables(l2, list))
                }
            },
        },
    }
}

fn first_invalid_index(vals: &Vec<(String, String)>) -> (r: Option<usize>)
    ensures
        r matches Some(i) ==> i < vals@.len() && first_invalid_key(pairs_v(vals@)) == Some(vals@[i as int].0@),
        r is None ==> first_invalid_key(pairs_v(vals@)) is None,
{
    let ghost s = pairs_v(vals@);
    let n = vals.len();
    let mut i: usize = 0;
    assert(s.skip(0) =~= s);
    while i < n
        invariant
            n == vals@.len(),
            i <= n,
            s == pairs_v(vals@),
            first_invalid_key(s) == first_invalid_key(s.skip(i as int)),
        decreases n - i,
    {
        assert(s.skip(i as int)[0] == s[i as int]);
        assert(s.skip(i as int).drop_first() =~= s.skip(i + 1));
        if !valid_var_name(vals[i].0.as_str()) {
            return Some(i);
        }
        i = i + 1;
    }
    None
}

proof fn lemma_first_dup_extends(s: Seq<(Seq<char>, Seq<char>)>, k: int, m: int)
    requires
        0 <= k <= m <= s.len(),
        first_dup(s.take(k)) is Some,
    ensures
        first_dup(s.take(m)) == first_dup(s.take(k)),
    decreases m - k,
{
    if m > k {
        lemma_first_dup_extends(s, k, m - 1);
        assert(s.take(m).drop_last() =~= s.take(m - 1));
    }
}

fn first_dup_index(vals: &Vec<(String, String)>) -> (r: Option<usize>)
    ensures
        r matches Some(i) ==> i < vals@.len() && first_dup(pairs_v(vals@)) == Some(vals@[i as int].0@),
        r is None ==> first_dup(pairs_v(vals@)) is None,
{
    let ghost s = pairs_v(vals@);
    let n = vals.len();
    let mut seen: Vec<String> = Vec::new();
    let mut i: usize = 0;
    assert(s.take(0) =~= seq![]);
    assert(keys(s.take(0)) =~= seq![]);
    while i < n
        invariant
            n == vals@.len(),
            i <= n,
            s == pairs_v(vals@),
            first_dup(s.take(i as int)) is None,
            views(seen@) == keys(s.take(i as int)),
        decreases n - i,
    {
        assert(s.take(i + 1).drop_last() =~= s.take(i as int));
        assert(s.take(i + 1).last() == s[i as int]);
        if contains_string(&seen, vals[i].0.as_str()) {
            proof {
                assert(first_dup(s.take(i + 1)) == Some(s[i as int].0));
                lemma_first_dup_extends(s, i + 1, n as int);
                assert(s.take(n as int) =~= s);
            }
            return Some(i);
        }
        let ghost before = views(seen@);
        seen.push(copy_string(vals[i].0.as_str()));
        assert(views(seen@) =~= before.push(vals@[i as int].0@));
        assert(keys(s.take(i + 1)) =~= keys(s.take(i as int)).push(s[i as int].0));
        i = i + 1;
    }
    assert(s.take(n as int) =~= s);
    None
}

impl Library {
    /// Creates a recipe with the given id and update time, holding every
    /// global variable with an empty value.
    pub fn create_recipe(&mut self, id: &str, now: &str, name: &str) -> (r: Result<Recipe, StoreError>)
        ensures
            (res_view(r), final(self)@) == create_recipe_spec(old(self)@, id@, now@, name@),
    {
        proof {
            reveal(create_recipe_spec);
        }
        let list = match self.reconcile() {
            Ok(l) => l,
            Err(e) => {
                return Err(e);
            },
        };
        let mut values: Vec<(String, String)> = Vec::new();
        let n = list.len();
        let mut i: usize = 0;
        while i < n
            invariant
                n == list@.len(),
                i <= n,
                pairs_v(values@) == blank_values(views(list@)).take(i as int),
            decreases n - i,
        {
            let ghost before = pairs_v(values@);
            values.push((copy_string(list[i].as_str()), String::new()));
            assert(pairs_v(values@) =~= before.push((list@[i as int]@, Seq::<char>::empty())));
            assert(blank_values(views(list@)).take(i + 1) =~= blank_values(views(list@)).take(i as int).push(
                (list@[i as int]@, Seq::<char>::empty()),
            ));
            i = i + 1;
        }
        assert(blank_values(views(list@)).take(n as int) =~= blank_values(views(list@)));
        let sl = slugify(name);
        let file_name = free_file_name(&self.recipe_files, sl.as_str(), "yaml");
        let r = Recipe {
            id: copy_string(id),
            name: copy_string(name),
            updated: copy_string(now),
            values,
            file_name,
        };
        self.write_recipe(&r);
        Ok(r)
    }

    fn backfill_recipes(&mut self, rs: &Vec<Recipe>, list: &Vec<String>, skip: Option<&str>)
        ensures
            final(self)@ == backfill(
                old(self)@,
                recipes_v(rs@),
                views(list@),
                match skip {
                    Some(x) => Some(x@),
                    None => None,
                },
            ),
    {
        let ghost sk: Option<Seq<char>> = match skip {
            Some(x) => Some(x@),
            None => None,
        };
        let ghost l0 = self@;
        let n = rs.len();
        let mut i: usize = 0;
        assert(recipes_v(rs@).take(0) =~= seq![]);
        while i < n
            invariant
                n == rs@.len(),
                i <= n,
                sk == (match skip {
                    Some(x) => Some(x@),
                    None => None,
                }),
                self@ == backfill(l0, recipes_v(rs@).take(i as int), views(list@), sk),
            decreases n - i,
        {
            let ghost t = recipes_v(rs@).take(i + 1);
            assert(t.drop_last() =~= recipes_v(rs@).take(i as int));
            assert(t.last() == rs@[i as int]@);
            let r = &rs[i];
            let skipped = match skip {
                Some(x) => str_eq(r.id.as_str(), x),
                None => false,
            };
            if !skipped {
                let desired = normalized_exec(&r.values, list);
                if !pairs_eq(&desired, &r.values) {
                    let r2 = with_values(r, desired);
                    self.write_recipe(&r2);
                }
            }
            i = i + 1;
        }
        assert(recipes_v(rs@).take(n as int) =~= recipes_v(rs@));
    }

    /// Updates an existing recipe (matched by id): its names must be valid
    /// and distinct; the values are normalized to the global variable list,
    /// which grows by the recipe's new names (they then reach every other
    /// recipe, empty).
    pub fn save_recipe(&mut self, now: &str, updated: &Recipe) -> (r: Result<Recipe, StoreError>)
        ensures
            (res_view(r), final(self)@) == save_recipe_spec(old(self)@, now@, updated@),
    {
        proof {
            reveal(save_recipe_spec);
        }
        let existing = match self.get_recipe(updated.id.as_str()) {
            Ok(x) => x,
            Err(e) => {
                return Err(e);
            },
        };
        match first_invalid_index(&updated.values) {
            Some(i) => {
                let mut m: Vec<char> = Vec::new();
                crate::text::extend_str(&mut m, "invalid variable name '");
                crate::text::extend_str(&mut m, updated.values[i].0.as_str());
                crate::text::extend_str(&mut m, "' (allowed: a-z, 0-9, _)");
                return Err(StoreError::Invalid(string_of(m.as_slice())));
            },
            None => {},
        }
        match first_dup_index(&updated.values) {
            Some(i) => {
                let mut m: Vec<char> = Vec::new();
                crate::text::extend_str(&mut m, "duplicate variable '");
                crate::text::extend_str(&mut m, updated.values[i].0.as_str());
                crate::text::extend_str(&mut m, "'");
                return Err(StoreError::Invalid(string_of(m.as_slice())));
            },
            None => {},
        }
        let mut list = match self.reconcile() {
            Ok(l) => l,
            Err(e) => {
                return Err(e);
            },
        };
        let ghost list0 = views(list@);
        let ghost ks = keys(pairs_v(updated.values@));
        let n = updated.values.len();
        let mut i: usize = 0;
        let mut grew = false;
        assert(ks.take(0) =~= seq![]);
        while i < n
            invariant
                n == updated.values@.len(),
                i <= n,
                ks == keys(pairs_v(updated.values@)),
                views(list@) == add_all(list0, ks.take(i as int)),
                grew == (views(list@).len() > list0.len()),
                views(list@).len() >= list0.len(),
            decreases n - i,
        {
            assert(ks.take(i + 1).drop_last() =~= ks.take(i as int));
            assert(ks[i as int] == updated.values@[i as int].0@);
            if !contains_string(&list, updated.values[i].0.as_str()) {
                let ghost before = views(list@);
                list.push(copy_string(updated.values[i].0.as_str()));
                assert(views(list@) =~= before.push(ks[i as int]));
                grew = true;
            }
            i = i + 1;
        }
        assert(ks.take(n as int) =~= ks);
        let values = normalized_exec(&updated.values, &list);
        let r = Recipe {
            id: copy_string(updated.id.as_str()),
            name: copy_string(updated.name.as_str()),
            updated: copy_string(now),
            values,
            file_name: existing.file_name,
        };
        self.write_recipe(&r);
        if grew {
            self.save_variables(&list);
            let others = match self.list_recipes() {
                Ok(v) => v,
                Err(e) => {
                    return Err(e);
                },
            };
            self.backfill_recipes(&others, &list, Some(r.id.as_str()));
        }
        Ok(r)
    }

    /// Brings `variables.json` and the recipes in line with each other;
    /// writes nothing that would not change.
    pub fn migrate(&mut self) -> (r: Result<Vec<String>, StoreError>)
        ensures
            (res_names(r), final(self)@) == migrate_spec(old(self)@),
    {
        let file = match self.load_variables_raw() {
            Ok(f) => f,
            Err(e) => {
                return Err(e);
            },
        };
        let list = match self.reconcile() {
            Ok(l) => l,
            Err(e) => {
                return Err(e);
            },
        };
        let rs = match self.list_recipes() {
            Ok(v) => v,
            Err(e) => {
                return Err(e);
            },
        };
        self.backfill_recipes(&rs, &list, None);
        let same = match &file {
            Some(f) => strings_eq(f, &list),
            None => false,
        };
        if !same {
            self.save_variables(&list);
        }
        Ok(list)
    }
}

fn strings_eq(a: &Vec<String>, b: &Vec<String>) -> (r: bool)
    ensures
        r == (views(a@) == views(b@)),
{
    if a.len() != b.len() {
        proof {
            if views(a@) == views(b@) {
                assert(views(a@).len() == views(b@).len());
            }
        }
        return false;
    }
    let n = a.len();
    let mut i: usize = 0;
    while i < n
        invariant
            n == a@.len(),
            n == b@.len(),
            i <= n,
            forall|j: int| 0 <= j < i ==> #[trigger] views(a@)[j] == views(b@)[j],
        decreases n - i,
    {
        if !str_eq(a[i].as_str(), b[i].as_str()) {
            proof {
                assert(views(a@)[i as int] != views(b@)[i as int]);
            }
            return false;
        }
        i = i + 1;
    }
    assert(views(a@) =~= views(b@));
    true
}


// ---------- variable operations ----------

/// Adds `name` (empty) to each recipe of `rs` that lacks it.
pub open spec fn add_to_recipes(l: LibraryV, rs: Seq<RecipeV>, name: Seq<char>) -> LibraryV
    decreases rs.len(),
{
    if rs.len() == 0 {
        l
    } else {
        let l2 = add_to_recipes(l, rs.drop_last(), name);
        let r = rs.last();
        if value_of(r.values, name) is None {
            wrote_recipe(l2, RecipeV { values: r.values.push((name, Seq::<char>::empty())), ..r })
        } else {
            l2
        }
    }
}

/// `add_variable`: a new valid name goes to the end of the global list and
/// into every recipe that lacks it.
pub open spec fn add_variable_spec(l: LibraryV, name: Seq<char>) -> (Result<Seq<Seq<char>>, ErrV>, LibraryV) {
    if !is_name(name) {
        (Err(ErrV::Invalid(invalid_name_msg(name))), l)
    } else {
        match reconciled(l) {
            Err(e) => (Err(e), l),
            Ok(list) => if list.contains(name) {
                (Err(ErrV::Invalid(exists_msg(name))), l)
            } else {
                let l2 = add_to_recipes(l, recipes_of(l), name);
                (Ok(list.push(name)), wrote_variables(l2, list.push(name)))
            },
        }
    }
}

/// The pairs with every name `old` changed to `new`.
pub open spec fn rename_keys(vals: Seq<(Seq<char>, Seq<char>)>, old: Seq<char>, new: Seq<char>) -> Seq<
    (Seq<char>, Seq<char>),
> {
    vals.map_values(
        |kv: (Seq<char>, Seq<char>)|
            if kv.0 == old {
                (new, kv.1)
            } else {
                kv
            },
    )
}

/// The names with every `old` changed to `new`.
pub open spec fn rename_names(list: Seq<Seq<char>>, old: Seq<char>, new: Seq<char>) -> Seq<Seq<char>> {
    list.map_values(|n: Seq<char>| if n == old { new } else { n })
}

/// Renames the key in each recipe of `rs` that has it.
pub open spec fn rename_in_recipes(l: LibraryV, rs: Seq<RecipeV>, old: Seq<char>, new: Seq<char>) -> LibraryV
    decreases rs.len(),
{
    if rs.len() == 0 {
        l
    } else {
        let l2 = rename_in_recipes(l, rs.drop_last(), old, new);
        let r = rs.last();
        if value_of(r.values, old) is Some {
            wrote_recipe(l2, RecipeV { values: rename_keys(r.values, old, new), ..r })
        } else {
            l2
        }
    }
}

/// What `rename_placeholder` makes of a body.
pub open spec fn renamed_body(content: Seq<char>, old: Seq<char>, new: Seq<char>) -> Seq<char> {
    if old == new || !is_name(old) || !is_name(new) {
        content
    } else {
        renamed_text(tokens(content), old, new)
    }
}

/// Rewrites `{{old}}` to `{{new}}` in each prompt of `ps` whose body
/// changes, stamping it with `now`.
pub open spec fn rename_in_prompts(l: LibraryV, ps: Seq<PromptV>, old: Seq<char>, new: Seq<char>, now: Seq<char>) -> LibraryV
    decreases ps.len(),
{
    if ps.len() == 0 {
        l
    } else {
        let l2 = rename_in_prompts(l, ps.drop_last(), old, new, now);
        let p = ps.last();
        let c = renamed_body(p.content, old, new);
        if c != p.content {
            wrote_prompt(l2, PromptV { content: c, updated: now, ..p })
        } else {
            l2
        }
    }
}

/// `rename_variable`: the key in every recipe (value kept), `{{old}}` in
/// every prompt body, and the name in the global list.
pub open spec fn rename_variable_spec(l: LibraryV, now: Seq<char>, old: Seq<char>, new: Seq<char>) -> (
    Result<Seq<Seq<char>>, ErrV>,
    LibraryV,
) {
    if old == new {
        (reconciled(l), l)
    } else if !is_name(new) {
        (Err(ErrV::Invalid(invalid_name_msg(new))), l)
    } else {
        match reconciled(l) {
            Err(e) => (Err(e), l),
            Ok(list) => if !list.contains(old) {
                (Err(ErrV::NotFound(old)), l)
            } else if list.contains(new) {
                (Err(ErrV::Invalid(exists_msg(new))), l)
            } else {
                let l2 = rename_in_recipes(l, recipes_of(l), old, new);
                match prompts_of(l2) {
                    Err(e) => (Err(e), l2),
                    Ok(ps) => {
                        let l3 = rename_in_prompts(l2, ps, old, new, now);
                        let nl = rename_names(list, old, new);
                        (Ok(nl), wrote_variables(l3, nl))
                    },
                }
            },
        }
    }
}

/// The pairs without any named `name`.
pub open spec fn drop_key(vals: Seq<(Seq<char>, Seq<char>)>, name: Seq<char>) -> Seq<(Seq<char>, Seq<char>)>
    decreases vals.len(),
{
    if vals.len() == 0 {
        seq![]
    } else {
        let d = drop_key(vals.drop_last(), name);
        if vals.last().0 == name {
            d
        } else {
            d.push(vals.last())
        }
    }
}

/// Removes the name from each recipe of `rs` that has it.
pub open spec fn strip_from_recipes(l: LibraryV, rs: Seq<RecipeV>, name: Seq<char>) -> LibraryV
    decreases rs.len(),
{
    if rs.len() == 0 {
        l
    } else {
        let l2 = strip_from_recipes(l, rs.drop_last(), name);
        let r = rs.last();
        if value_of(r.values, name) is Some {
            wrote_recipe(l2, RecipeV { values: drop_key(r.values, name), ..r })
        } else {
            l2
        }
    }
}

/// `delete_variable`: the name leaves every recipe, then the global list;
/// prompt bodies stay as they are.
pub open spec fn delete_variable_spec(l: LibraryV, name: Seq<char>) -> (Result<Seq<Seq<char>>, ErrV>, LibraryV) {
    match reconciled(l) {
        Err(e) => (Err(e), l),
        Ok(list) => if !list.contains(name) {
            (Err(ErrV::NotFound(name)), l)
        } else {
            let l2 = strip_from_recipes(l, recipes_of(l), name);
            (Ok(without(list, name)), wrote_variables(l2, without(list, name)))
        },
    }
}

impl Library {
    /// Adds a variable to the global list and to every recipe (empty value).
    pub fn add_variable(&mut self, name: &str) -> (r: Result<Vec<String>, StoreError>)
        ensures
            (res_names(r), final(self)@) == add_variable_spec(old(self)@, name@),
    {
        if !valid_var_name(name) {
            let mut m: Vec<char> = Vec::new();
            crate::text::extend_str(&mut m, "invalid variable name '");
            crate::text::extend_str(&mut m, name);
            crate::text::extend_str(&mut m, "' (allowed: a-z, 0-9, _)");
            return Err(StoreError::Invalid(string_of(m.as_slice())));
        }
        let mut list = match self.reconcile() {
            Ok(l) => l,
            Err(e) => {
                return Err(e);
            },
        };
        if contains_string(&list, name) {
            let mut m: Vec<char> = Vec::new();
            crate::text::extend_str(&mut m, "variable '");
            crate::text::extend_str(&mut m, name);
            crate::text::extend_str(&mut m, "' already exists");
            return Err(StoreError::Invalid(string_of(m.as_slice())));
        }
        let ghost list0 = views(list@);
        list.push(copy_string(name));
        assert(views(list@) =~= list0.push(name@));
        let rs = match self.list_recipes() {
            Ok(v) => v,
            Err(e) => {
                return Err(e);
            },
        };
        let ghost l0 = self@;
        let n = rs.len();
        let mut i: usize = 0;
        assert(recipes_v(rs@).take(0) =~= seq![]);
        while i < n
            invariant
                n == rs@.len(),
                i <= n,
                self@ == add_to_recipes(l0, recipes_v(rs@).take(i as int), name@),
            decreases n - i,
        {
            let ghost t = recipes_v(rs@).take(i + 1);
            assert(t.drop_last() =~= recipes_v(rs@).take(i as int));
            assert(t.last() == rs@[i as int]@);
            let r = &rs[i];
            if value_index(&r.values, name).is_none() {
                let mut vals = crate::model::copy_pairs(&r.values);
                let ghost before = pairs_v(vals@);
                vals.push((copy_string(name), String::new()));
                assert(pairs_v(vals@) =~= before.push((name@, Seq::<char>::empty())));
                let r2 = with_values(r, vals);
                self.write_recipe(&r2);
            }
            i = i + 1;
        }
        assert(recipes_v(rs@).take(n as int) =~= recipes_v(rs@));
        self.save_variables(&list);
        Ok(list)
    }

    /// Renames a variable everywhere: the key in every recipe (value kept),
    /// `{{old}}` in every prompt body, and the global list.
    pub fn rename_variable(&mut self, now: &str, old_name: &str, new_name: &str) -> (r: Result<Vec<String>, StoreError>)
        ensures
            (res_names(r), final(self)@) == rename_variable_spec(old(self)@, now@, old_name@, new_name@),
    {
        if str_eq(old_name, new_name) {
            return self.list_variables();
        }
        if !valid_var_name(new_name) {
            let mut m: Vec<char> = Vec::new();
            crate::text::extend_str(&mut m, "invalid variable name '");
            crate::text::extend_str(&mut m, new_name);
            crate::text::extend_str(&mut m, "' (allowed: a-z, 0-9, _)");
            return Err(StoreError::Invalid(string_of(m.as_slice())));
        }
        let list = match self.reconcile() {
            Ok(l) => l,
            Err(e) => {
                return Err(e);
            },
        };
        if !contains_string(&list, old_name) {
            return Err(StoreError::NotFound(copy_string(old_name)));
        }
        if contains_string(&list, new_name) {
            let mut m: Vec<char> = Vec::new();
            crate::text::extend_str(&mut m, "variable '");
            crate::text::extend_str(&mut m, new_name);
            crate::text::extend_str(&mut m, "' already exists");
            return Err(StoreError::Invalid(string_of(m.as_slice())));
        }
        let rs = match self.list_recipes() {
            Ok(v) => v,
            Err(e) => {
                return Err(e);
            },
        };
        let ghost l0 = self@;
        let n = rs.len();
        let mut i: usize = 0;
        assert(recipes_v(rs@).take(0) =~= seq![]);
        while i < n
            invariant
                n == rs@.len(),
                i <= n,
                self@ == rename_in_recipes(l0, recipes_v(rs@).take(i as int), old_name@, new_name@),
            decreases n - i,
        {
            let ghost t = recipes_v(rs@).take(i + 1);
            assert(t.drop_last() =~= recipes_v(rs@).take(i as int));
            assert(t.last() == rs@[i as int]@);
            let r = &rs[i];
            if value_index(&r.values, old_name).is_some() {
                let vals = rename_keys_exec(&r.values, old_name, new_name);
                let r2 = with_values(r, vals);
                self.write_recipe(&r2);
            }
            i = i + 1;
        }
        assert(recipes_v(rs@).take(n as int) =~= recipes_v(rs@));
        let ps = match self.list_prompts() {
            Ok(v) => v,
            Err(e) => {
                return Err(e);
            },
        };
        let ghost l1 = self@;
        let m = ps.len();
        let mut j: usize = 0;
        assert(prompts_v(ps@).take(0) =~= seq![]);
        while j < m
            invariant
                m == ps@.len(),
                j <= m,
                self@ == rename_in_prompts(l1, prompts_v(ps@).take(j as int), old_name@, new_name@, now@),
            decreases m - j,
        {
            let ghost t = prompts_v(ps@).take(j + 1);
            assert(t.drop_last() =~= prompts_v(ps@).take(j as int));
            assert(t.last() == ps@[j as int]@);
            let p = &ps[j];
            let content = rename_placeholder(p.content.as_str(), old_name, new_name);
            if !str_eq(content.as_str(), p.content.as_str()) {
                let mut q = copy_prompt(p);
                q.content = content;
                q.updated = copy_string(now);
                self.write_prompt(&q);
            }
            j = j + 1;
        }
        assert(prompts_v(ps@).take(m as int) =~= prompts_v(ps@));
        let nl = rename_names_exec(&list, old_name, new_name);
        self.save_variables(&nl);
        Ok(nl)
    }

    /// Removes a variable from every recipe and from the global list;
    /// prompt bodies are left alone.
    pub fn delete_variable(&mut self, name: &str) -> (r: Result<Vec<String>, StoreError>)
        ensures
            (res_names(r), final(self)@) == delete_variable_spec(old(self)@, name@),
    {
        let list = match self.reconcile() {
            Ok(l) => l,
            Err(e) => {
                return Err(e);
            },
        };
        if !contains_string(&list, name) {
            return Err(StoreError::NotFound(copy_string(name)));
        }
        let rs = match self.list_recipes() {
            Ok(v) => v,
            Err(e) => {
                return Err(e);
            },
        };
        let ghost l0 = self@;
        let n = rs.len();
        let mut i: usize = 0;
        assert(recipes_v(rs@).take(0) =~= seq![]);
        while i < n
            invariant
                n == rs@.len(),
                i <= n,
                self@ == strip_from_recipes(l0, recipes_v(rs@).take(i as int), name@),
            decreases n - i,
        {
            let ghost t = recipes_v(rs@).take(i + 1);
            assert(t.drop_last() =~= recipes_v(rs@).take(i as int));
            assert(t.last() == rs@[i as int]@);
            let r = &rs[i];
            if value_index(&r.values, name).is_some() {
                let vals = drop_key_exec(&r.values, name);
                let r2 = with_values(r, vals);
                self.write_recipe(&r2);
            }
            i = i + 1;
        }
        assert(recipes_v(rs@).take(n as int) =~= recipes_v(rs@));
        let nl = without_exec(&list, name);
        self.save_variables(&nl);
        Ok(nl)
    }
}

fn rename_keys_exec(vals: &Vec<(String, String)>, old: &str, new: &str) -> (r: Vec<(String, String)>)
    ensures
        pairs_v(r@) == rename_keys(pairs_v(vals@), old@, new@),
{
    let ghost target = rename_keys(pairs_v(vals@), old@, new@);
    let mut out: Vec<(String, String)> = Vec::new();
    let n = vals.len();
    let mut i: usize = 0;
    while i < n
        invariant
            n == vals@.len(),
            i <= n,
            target == rename_keys(pairs_v(vals@), old@, new@),
            pairs_v(out@) == target.take(i as int),
        decreases n - i,
    {
        let ghost before = pairs_v(out@);
        let k = if str_eq(vals[i].0.as_str(), old) {
            copy_string(new)
        } else {
            copy_string(vals[i].0.as_str())
        };
        out.push((k, copy_string(vals[i].1.as_str())));
        assert(pairs_v(out@) =~= before.push(target[i as int]));
        assert(target.take(i + 1) =~= target.take(i as int).push(target[i as int]));
        i = i + 1;
    }
    assert(target.take(n as int) =~= target);
    out
}

fn rename_names_exec(list: &Vec<String>, old: &str, new: &str) -> (r: Vec<String>)
    ensures
        views(r@) == rename_names(views(list@), old@, new@),
{
    let ghost target = rename_names(views(list@), old@, new@);
    let mut out: Vec<String> = Vec::new();
    let n = list.len();
    let mut i: usize = 0;
    while i < n
        invariant
            n == list@.len(),
            i <= n,
            target == rename_names(views(list@), old@, new@),
            views(out@) == target.take(i as int),
        decreases n - i,
    {
        let ghost before = views(out@);
        let k = if str_eq(list[i].as_str(), old) {
            copy_string(new)
        } else {
            copy_string(list[i].as_str())
        };
        out.push(k);
        assert(views(out@) =~= before.push(target[i as int]));
        assert(target.take(i + 1) =~= target.take(i as int).push(target[i as int]));
        i = i + 1;
    }
    assert(target.take(n as int) =~= target);
    out
}

fn drop_key_exec(vals: &Vec<(String, String)>, name: &str) -> (r: Vec<(String, String)>)
    ensures
        pairs_v(r@) == drop_key(pairs_v(vals@), name@),
{
    let mut out: Vec<(String, String)> = Vec::new();
    let n = vals.len();
    let mut i: usize = 0;
    while i < n
        invariant
            n == vals@.len(),
            i <= n,
            pairs_v(out@) == drop_key(pairs_v(vals@).take(i as int), name@),
        decreases n - i,
    {
        assert(pairs_v(vals@).take(i + 1).drop_last() =~= pairs_v(vals@).take(i as int));
        if !str_eq(vals[i].0.as_str(), name) {
            let ghost before = pairs_v(out@);
            out.push((copy_string(vals[i].0.as_str()), copy_string(vals[i].1.as_str())));
            assert(pairs_v(out@) =~= before.push((vals@[i as int].0@, vals@[i as int].1@)));
        }
        i = i + 1;
    }
    assert(pairs_v(vals@).take(n as int) =~= pairs_v(vals@));
    out
}


// ---------- usage, deletion of recipes, rendering ----------

/// Titles of the prompts that have recipe `id` assigned.
pub open spec fn titles_using_recipe(ps: Seq<PromptV>, id: Seq<char>) -> Seq<Seq<char>>
    decreases ps.len(),
{
    if ps.len() == 0 {
        seq![]
    } else {
        let t = titles_using_recipe(ps.drop_last(), id);
        if ps.last().recipes.contains(id) {
            t.push(ps.last().title)
        } else {
            t
        }
    }
}

/// Titles of the prompts whose body has a `{{name}}` placeholder.
pub open spec fn titles_using_variable(ps: Seq<PromptV>, name: Seq<char>) -> Seq<Seq<char>>
    decreases ps.len(),
{
    if ps.len() == 0 {
        seq![]
    } else {
        let t = titles_using_variable(ps.drop_last(), name);
        if hole_names(tokens(ps.last().content)).contains(name) {
            t.push(ps.last().title)
        } else {
            t
        }
    }
}

/// A prompt without recipe `id`; a selection of it moves to the first
/// remaining recipe.
pub open spec fn unlinked(p: PromptV, id: Seq<char>) -> PromptV {
    let rs = without(p.recipes, id);
    PromptV {
        recipes: rs,
        selected_recipe: if p.selected_recipe == Some(id) {
            if rs.len() > 0 {
                Some(rs[0])
            } else {
                None
            }
        } else {
            p.selected_recipe
        },
        ..p
    }
}

/// Re-writes each prompt of `ps` that has recipe `id` assigned, without it.
pub open spec fn unlink_recipe(l: LibraryV, ps: Seq<PromptV>, id: Seq<char>) -> LibraryV
    decreases ps.len(),
{
    if ps.len() == 0 {
        l
    } else {
        let l2 = unlink_recipe(l, ps.drop_last(), id);
        if ps.last().recipes.contains(id) {
            wrote_prompt(l2, unlinked(ps.last(), id))
        } else {
            l2
        }
    }
}

/// `delete_recipe`: removes every reference to the recipe from the prompts,
/// then its file; answers the titles of the prompts that referenced it.
pub open spec fn delete_recipe_spec(l: LibraryV, id: Seq<char>) -> (Result<Seq<Seq<char>>, ErrV>, LibraryV) {
    match recipe_by_id(l, id) {
        Err(e) => (Err(e), l),
        Ok(r) => match prompts_of(l) {
            Err(e) => (Err(e), l),
            Ok(ps) => (Ok(titles_using_recipe(ps, id)), removed_recipe(unlink_recipe(l, ps, id), r.file_name)),
        },
    }
}

/// Every recipe's (id, name, value of variable `n`).
pub open spec fn use_row(rs: Seq<RecipeV>, n: Seq<char>) -> Seq<(Seq<char>, Seq<char>, Seq<char>)> {
    rs.map_values(|r: RecipeV| (r.id, r.name, or_empty(value_of(r.values, n))))
}

/// For each name, every recipe's (id, name, value of that variable).
pub open spec fn variable_table(names: Seq<Seq<char>>, rs: Seq<RecipeV>) -> Seq<(Seq<char>, Seq<(Seq<char>, Seq<char>, Seq<char>)>)> {
    names.map_values(|n: Seq<char>| (n, use_row(rs, n)))
}

pub open spec fn uses_v(u: Seq<(String, String, String)>) -> Seq<(Seq<char>, Seq<char>, Seq<char>)> {
    u.map_values(|x: (String, String, String)| (x.0@, x.1@, x.2@))
}

pub open spec fn table_v(t: Seq<(String, Vec<(String, String, String)>)>) -> Seq<(Seq<char>, Seq<(Seq<char>, Seq<char>, Seq<char>)>)> {
    t.map_values(|e: (String, Vec<(String, String, String)>)| (e.0@, uses_v(e.1@)))
}

/// The values a rendering uses: the recipe's (if any), then the overrides,
/// a later name winning.
pub open spec fn render_values(recipe: Option<RecipeV>, overrides: Seq<(Seq<char>, Seq<char>)>) -> Map<Seq<char>, Seq<char>> {
    vals_map(
        match recipe {
            Some(r) => r.values,
            None => seq![],
        } + overrides,
    )
}

proof fn lemma_vals_map_concat(a: Seq<(Seq<char>, Seq<char>)>, b: Seq<(Seq<char>, Seq<char>)>, k: Seq<char>)
    ensures
        vals_map(b).dom().contains(k) ==> vals_map(a + b).dom().contains(k) && vals_map(a + b)[k] == vals_map(b)[k],
        !vals_map(b).dom().contains(k) ==> vals_map(a + b).dom().contains(k) == vals_map(a).dom().contains(k)
            && (vals_map(a).dom().contains(k) ==> vals_map(a + b)[k] == vals_map(a)[k]),
    decreases b.len(),
{
    if b.len() == 0 {
        assert(a + b =~= a);
    } else {
        assert((a + b).drop_last() =~= a + b.drop_last());
        assert((a + b).last() == b.last());
        lemma_vals_map_concat(a, b.drop_last(), k);
    }
}

/// In a rendering an override wins over the recipe: a name the overrides
/// give takes their value (the last one given for it), any other name keeps
/// the recipe's value, if it has one.
pub proof fn lemma_overrides_win(recipe: Option<RecipeV>, overrides: Seq<(Seq<char>, Seq<char>)>, k: Seq<char>)
    ensures
        vals_map(overrides).dom().contains(k) ==> render_values(recipe, overrides).dom().contains(k)
            && render_values(recipe, overrides)[k] == vals_map(overrides)[k],
        recipe matches Some(r) ==> (!vals_map(overrides).dom().contains(k) ==> render_values(recipe, overrides).dom().contains(k)
            == vals_map(r.values).dom().contains(k) && (vals_map(r.values).dom().contains(k) ==> render_values(
            recipe,
            overrides,
        )[k] == vals_map(r.values)[k])),
{
    let base = match recipe {
        Some(r) => r.values,
        None => seq![],
    };
    lemma_vals_map_concat(base, overrides, k);
}

/// `render_prompt`: with neither a recipe nor overrides the raw body;
/// otherwise the body rendered with the recipe's values and the overrides.
pub open spec fn render_prompt_spec(l: LibraryV, pid: Seq<char>, rid: Option<Seq<char>>, overrides: Seq<(Seq<char>, Seq<char>)>) -> Result<
    (Seq<char>, Seq<Seq<char>>),
    ErrV,
> {
    match prompt_by_id(l, pid) {
        Err(e) => Err(e),
        Ok(p) => {
            let rec: Result<Option<RecipeV>, ErrV> = match rid {
                Some(r) => match recipe_by_id(l, r) {
                    Ok(x) => Ok(Some(x)),
                    Err(e) => Err(e),
                },
                None => Ok(None),
            };
            match rec {
                Err(e) => Err(e),
                Ok(rec) => if rec is None && overrides.len() == 0 {
                    Ok((p.content, seq![]))
                } else {
                    let vals = render_values(rec, overrides);
                    Ok((render_text(tokens(p.content), vals), missing_names(tokens(p.content), vals)))
                },
            }
        },
    }
}

pub open spec fn res_render(r: Result<RenderResult, StoreError>) -> Result<(Seq<char>, Seq<Seq<char>>), ErrV> {
    match r {
        Ok(x) => Ok((x.text@, views(x.missing@))),
        Err(e) => Err(err_v(e)),
    }
}

fn titles_using_recipe_exec(ps: &Vec<Prompt>, id: &str) -> (r: Vec<String>)
    ensures
        views(r@) == titles_using_recipe(prompts_v(ps@), id@),
{
    let mut out: Vec<String> = Vec::new();
    let n = ps.len();
    let mut i: usize = 0;
    assert(prompts_v(ps@).take(0) =~= seq![]);
    while i < n
        invariant
            n == ps@.len(),
            i <= n,
            views(out@) == titles_using_recipe(prompts_v(ps@).take(i as int), id@),
        decreases n - i,
    {
        let ghost t = prompts_v(ps@).take(i + 1);
        assert(t.drop_last() =~= prompts_v(ps@).take(i as int));
        assert(t.last() == ps@[i as int]@);
        if contains_string(&ps[i].recipes, id) {
            let ghost before = views(out@);
            out.push(copy_string(ps[i].title.as_str()));
            assert(views(out@) =~= before.push(ps@[i as int]@.title));
        }
        i = i + 1;
    }
    assert(prompts_v(ps@).take(n as int) =~= prompts_v(ps@));
    out
}

impl Library {
    /// Titles of the prompts that have the recipe assigned.
    pub fn recipe_usage(&self, id: &str) -> (r: Result<Vec<String>, StoreError>)
        ensures
            res_names(r) == (match prompts_of(self@) {
                Err(e) => Err(e),
                Ok(ps) => Ok(titles_using_recipe(ps, id@)),
            }),
    {
        let ps = match self.list_prompts() {
            Ok(v) => v,
            Err(e) => {
                return Err(e);
            },
        };
        Ok(titles_using_recipe_exec(&ps, id))
    }

    /// Titles of the prompts whose body still uses `{{name}}`.
    pub fn variable_usage(&self, name: &str) -> (r: Result<Vec<String>, StoreError>)
        ensures
            res_names(r) == (match prompts_of(self@) {
                Err(e) => Err(e),
                Ok(ps) => Ok(titles_using_variable(ps, name@)),
            }),
    {
        let ps = match self.list_prompts() {
            Ok(v) => v,
            Err(e) => {
                return Err(e);
            },
        };
        let mut out: Vec<String> = Vec::new();
        let n = ps.len();
        let mut i: usize = 0;
        assert(prompts_v(ps@).take(0) =~= seq![]);
        while i < n
            invariant
                n == ps@.len(),
                i <= n,
                views(out@) == titles_using_variable(prompts_v(ps@).take(i as int), name@),
            decreases n - i,
        {
            let ghost t = prompts_v(ps@).take(i + 1);
            assert(t.drop_last() =~= prompts_v(ps@).take(i as int));
            assert(t.last() == ps@[i as int]@);
            let names = placeholders(ps[i].content.as_str());
            if contains_string(&names, name) {
                let ghost before = views(out@);
                out.push(copy_string(ps[i].title.as_str()));
                assert(views(out@) =~= before.push(ps@[i as int]@.title));
            }
            i = i + 1;
        }
        assert(prompts_v(ps@).take(n as int) =~= prompts_v(ps@));
        Ok(out)
    }

    /// Deletes a recipe and removes references to it from the prompts;
    /// returns the titles of the prompts that referenced it.
    pub fn delete_recipe(&mut self, id: &str) -> (r: Result<Vec<String>, StoreError>)
        ensures
            (res_names(r), final(self)@) == delete_recipe_spec(old(self)@, id@),
    {
        let r = match self.get_recipe(id) {
            Ok(x) => x,
            Err(e) => {
                return Err(e);
            },
        };
        let ps = match self.list_prompts() {
            Ok(v) => v,
            Err(e) => {
                return Err(e);
            },
        };
        let affected = titles_using_recipe_exec(&ps, id);
        let ghost l0 = self@;
        let n = ps.len();
        let mut i: usize = 0;
        assert(prompts_v(ps@).take(0) =~= seq![]);
        while i < n
            invariant
                n == ps@.len(),
                i <= n,
                self@ == unlink_recipe(l0, prompts_v(ps@).take(i as int), id@),
            decreases n - i,
        {
            let ghost t = prompts_v(ps@).take(i + 1);
            assert(t.drop_last() =~= prompts_v(ps@).take(i as int));
            assert(t.last() == ps@[i as int]@);
            let p = &ps[i];
            if contains_string(&p.recipes, id) {
                let mut q = copy_prompt(p);
                q.recipes = without_exec(&p.recipes, id);
                let sel_is_id = match &p.selected_recipe {
                    Some(s) => str_eq(s.as_str(), id),
                    None => false,
                };
                if sel_is_id {
                    q.selected_recipe = if q.recipes.len() > 0 {
                        Some(copy_string(q.recipes[0].as_str()))
                    } else {
                        None
                    };
                }
                assert(q@ == unlinked(p@, id@));
                self.write_prompt(&q);
            }
            i = i + 1;
        }
        assert(prompts_v(ps@).take(n as int) =~= prompts_v(ps@));
        self.remove_recipe_file(r.file_name.as_str());
        Ok(affected)
    }

    /// The global variables in order, each with every recipe's id, name and
    /// value of it.
    pub fn variables(&self) -> (r: Result<Vec<(String, Vec<(String, String, String)>)>, StoreError>)
        ensures
            match r {
                Ok(t) => reconciled(self@) matches Ok(names) && table_v(t@) == variable_table(names, recipes_of(self@)),
                Err(e) => reconciled(self@) == Err::<Seq<Seq<char>>, ErrV>(err_v(e)),
            },
    {
        let names = match self.reconcile() {
            Ok(v) => v,
            Err(e) => {
                return Err(e);
            },
        };
        let rs = match self.list_recipes() {
            Ok(v) => v,
            Err(e) => {
                return Err(e);
            },
        };
        let ghost rv = recipes_v(rs@);
        let ghost target = variable_table(views(names@), rv);
        let mut out: Vec<(String, Vec<(String, String, String)>)> = Vec::new();
        let n = names.len();
        let mut i: usize = 0;
        while i < n
            invariant
                n == names@.len(),
                i <= n,
                rv == recipes_v(rs@),
                target == variable_table(views(names@), rv),
                table_v(out@) == target.take(i as int),
            decreases n - i,
        {
            let nm = names[i].as_str();
            let ghost urow = use_row(rv, nm@);
            let mut uses: Vec<(String, String, String)> = Vec::new();
            let m = rs.len();
            let mut j: usize = 0;
            while j < m
                invariant
                    m == rs@.len(),
                    j <= m,
                    rv == recipes_v(rs@),
                    urow == use_row(rv, nm@),
                    uses_v(uses@) == urow.take(j as int),
                decreases m - j,
            {
                let ghost before = uses@;
                let r = &rs[j];
                let u = (copy_string(r.id.as_str()), copy_string(r.name.as_str()), value_text(&r.values, nm));
                assert(rv[j as int] == rs@[j as int]@);
                assert((u.0@, u.1@, u.2@) == urow[j as int]);
                uses.push(u);
                assert(uses@.drop_last() =~= before);
                assert(uses_v(uses@) =~= uses_v(before).push(urow[j as int]));
                assert(urow.take(j + 1) =~= urow.take(j as int).push(urow[j as int]));
                j = j + 1;
            }
            assert(urow.take(m as int) =~= urow);
            let ghost before = out@;
            let e = (copy_string(nm), uses);
            assert(target[i as int] == (names@[i as int]@, urow));
            assert((e.0@, uses_v(e.1@)) == target[i as int]);
            out.push(e);
            assert(out@.drop_last() =~= before);
            assert(table_v(out@) =~= table_v(before).push(target[i as int]));
            assert(target.take(i + 1) =~= target.take(i as int).push(target[i as int]));
            i = i + 1;
        }
        assert(target.take(n as int) =~= target);
        Ok(out)
    }

    /// Renders a prompt with a recipe's values and overrides (a later
    /// override of a name wins). With neither, the body comes back raw.
    pub fn render_prompt(&self, prompt_id: &str, recipe_id: Option<&str>, overrides: &Vec<(String, String)>) -> (r: Result<RenderResult, StoreError>)
        ensures
            res_render(r) == render_prompt_spec(
                self@,
                prompt_id@,
                match recipe_id {
                    Some(x) => Some(x@),
                    None => None,
                },
                pairs_v(overrides@),
            ),
    {
        let p = match self.get_prompt(prompt_id) {
            Ok(p) => p,
            Err(e) => {
                return Err(e);
            },
        };
        let recipe = match recipe_id {
            Some(rid) => match self.get_recipe(rid) {
                Ok(x) => Some(x),
                Err(e) => {
                    return Err(e);
                },
            },
            None => None,
        };
        if recipe.is_none() && overrides.len() == 0 {
            let out = RenderResult { text: copy_string(p.content.as_str()), missing: Vec::new() };
            assert(views(out.missing@) =~= seq![]);
            return Ok(out);
        }
        let mut all: Vec<(String, String)> = match &recipe {
            Some(x) => crate::model::copy_pairs(&x.values),
            None => Vec::new(),
        };
        let ghost base = pairs_v(all@);
        let n = overrides.len();
        let mut i: usize = 0;
        while i < n
            invariant
                n == overrides@.len(),
                i <= n,
                pairs_v(all@) == base + pairs_v(overrides@).take(i as int),
            decreases n - i,
        {
            let ghost before = pairs_v(all@);
            all.push((copy_string(overrides[i].0.as_str()), copy_string(overrides[i].1.as_str())));
            assert(pairs_v(all@) =~= before.push((overrides@[i as int].0@, overrides@[i as int].1@)));
            assert(pairs_v(overrides@).take(i + 1) =~= pairs_v(overrides@).take(i as int).push(
                (overrides@[i as int].0@, overrides@[i as int].1@),
            ));
            i = i + 1;
        }
        assert(pairs_v(overrides@).take(n as int) =~= pairs_v(overrides@));
        let tmp = Recipe {
            id: String::new(),
            name: String::new(),
            updated: String::new(),
            values: all,
            file_name: String::new(),
        };
        let vals = tmp.values_map();
        Ok(render(p.content.as_str(), &vals))
    }
}


// ---------- first run ----------

pub const SEED_RECIPE_A: &'static str = "Ukázkový projekt";

pub const SEED_RECIPE_B: &'static str = "Obecný";

pub const SEED_PROMPT_A: &'static str = "Code review";

pub const SEED_BODY_A: &'static str = "Proveď důkladné code review projektu ve složce {{projekt_cesta}}.\nJazyk projektu: {{jazyk}}.\nZaměř se na bezpečnost, čitelnost a výkon. Shrň 5 hlavních nálezů.";

pub const SEED_PROMPT_B: &'static str = "Sumarizace textu";

pub const SEED_BODY_B: &'static str = "Shrň následující text do pěti odrážek a jedné věty závěru:\n\n";

/// The values of the first sample recipe.
pub open spec fn seed_values_a() -> Seq<(Seq<char>, Seq<char>)> {
    seq![
        ("projekt_cesta"@, "C:\\Projekty\\MujProjekt"@),
        ("projekt_nazev"@, "MujProjekt"@),
        ("jazyk"@, "rust"@),
    ]
}

/// The values of the second sample recipe.
pub open spec fn seed_values_b() -> Seq<(Seq<char>, Seq<char>)> {
    seq![("projekt_cesta"@, "C:\\tmp"@), ("projekt_nazev"@, "Projekt"@), ("jazyk"@, "python"@)]
}

/// A sample recipe: created, then saved with the given values.
#[verifier::opaque]
pub open spec fn sample_recipe_spec(
    l: LibraryV,
    now: Seq<char>,
    id: Seq<char>,
    name: Seq<char>,
    vals: Seq<(Seq<char>, Seq<char>)>,
) -> (Result<RecipeV, ErrV>, LibraryV) {
    let (c, l1) = create_recipe_spec(l, id, now, name);
    match c {
        Err(e) => (Err(e), l1),
        Ok(r) => save_recipe_spec(l1, now, RecipeV { values: vals, ..r }),
    }
}

/// The sample prompts: the first one with both sample recipes assigned
/// (the first selected), then the second one.
#[verifier::opaque]
pub open spec fn sample_prompts_spec(
    l: LibraryV,
    now: Seq<char>,
    p1: Seq<char>,
    p2: Seq<char>,
    r1: Seq<char>,
    r2: Seq<char>,
) -> (Result<(), ErrV>, LibraryV) {
    let (c1, l1) = create_prompt_spec(l, p1, now, SEED_PROMPT_A@, SEED_BODY_A@);
    match c1 {
        Err(e) => (Err(e), l1),
        Ok(p) => {
            let (s1, l2) = save_prompt_spec(
                l1,
                now,
                PromptV { recipes: seq![r1, r2], selected_recipe: Some(r1), ..p },
            );
            match s1 {
                Err(e) => (Err(e), l2),
                Ok(_) => {
                    let (c2, l3) = create_prompt_spec(l2, p2, now, SEED_PROMPT_B@, SEED_BODY_B@);
                    match c2 {
                        Err(e) => (Err(e), l3),
                        Ok(_) => (Ok(()), l3),
                    }
                },
            }
        },
    }
}

/// `seed_if_empty`: on a library without prompts and recipes, two sample
/// recipes, a sample prompt using both, and a second sample prompt.
pub open spec fn seed_spec(l: LibraryV, now: Seq<char>, ids: (Seq<char>, Seq<char>, Seq<char>, Seq<char>)) -> (
    Result<bool, ErrV>,
    LibraryV,
) {
    match prompts_of(l) {
        Err(e) => (Err(e), l),
        Ok(ps) => if ps.len() > 0 {
            (Ok(false), l)
        } else if l.recipes_error is Some {
            (Err(ErrV::Io(l.recipes_error->0)), l)
        } else if recipes_of(l).len() > 0 {
            (Ok(false), l)
        } else {
            let (a, l2) = sample_recipe_spec(l, now, ids.0, SEED_RECIPE_A@, seed_values_a());
            match a {
                Err(e) => (Err(e), l2),
                Ok(r1) => {
                    let (b, l4) = sample_recipe_spec(l2, now, ids.1, SEED_RECIPE_B@, seed_values_b());
                    match b {
                        Err(e) => (Err(e), l4),
                        Ok(r2) => {
                            let (c, l7) = sample_prompts_spec(l4, now, ids.2, ids.3, r1.id, r2.id);
                            match c {
                                Err(e) => (Err(e), l7),
                                Ok(_) => (Ok(true), l7),
                            }
                        },
                    }
                },
            }
        },
    }
}

fn sample_values_a() -> (r: Vec<(String, String)>)
    ensures
        pairs_v(r@) == seed_values_a(),
{
    let v: Vec<(String, String)> = vec![
        (copy_string("projekt_cesta"), copy_string("C:\\Projekty\\MujProjekt")),
        (copy_string("projekt_nazev"), copy_string("MujProjekt")),
        (copy_string("jazyk"), copy_string("rust")),
    ];
    assert(pairs_v(v@) =~= seed_values_a());
    v
}

fn sample_values_b() -> (r: Vec<(String, String)>)
    ensures
        pairs_v(r@) == seed_values_b(),
{
    let v: Vec<(String, String)> = vec![
        (copy_string("projekt_cesta"), copy_string("C:\\tmp")),
        (copy_string("projekt_nazev"), copy_string("Projekt")),
        (copy_string("jazyk"), copy_string("python")),
    ];
    assert(pairs_v(v@) =~= seed_values_b());
    v
}

impl Library {
    fn sample_recipe(&mut self, now: &str, id: &str, name: &str, vals: Vec<(String, String)>) -> (r: Result<Recipe, StoreError>)
        ensures
            (res_view(r), final(self)@) == sample_recipe_spec(old(self)@, now@, id@, name@, pairs_v(vals@)),
    {
        proof {
            reveal(sample_recipe_spec);
        }
        let r = match self.create_recipe(id, now, name) {
            Ok(x) => x,
            Err(e) => {
                return Err(e);
            },
        };
        let r2 = with_values(&r, vals);
        self.save_recipe(now, &r2)
    }

    fn sample_prompts(&mut self, now: &str, p1: &str, p2: &str, r1: &str, r2: &str) -> (r: Result<(), StoreError>)
        ensures
            (res_unit(r), final(self)@) == sample_prompts_spec(old(self)@, now@, p1@, p2@, r1@, r2@),
    {
        proof {
            reveal(sample_prompts_spec);
        }
        let p = match self.create_prompt(p1, now, SEED_PROMPT_A, SEED_BODY_A) {
            Ok(x) => x,
            Err(e) => {
                return Err(e);
            },
        };
        let mut q = copy_prompt(&p);
        q.recipes = vec![copy_string(r1), copy_string(r2)];
        q.selected_recipe = Some(copy_string(r1));
        assert(views(q.recipes@) =~= seq![r1@, r2@]);
        match self.save_prompt(now, &q) {
            Ok(_) => {},
            Err(e) => {
                return Err(e);
            },
        }
        match self.create_prompt(p2, now, SEED_PROMPT_B, SEED_BODY_B) {
            Ok(_) => Ok(()),
            Err(e) => Err(e),
        }
    }

    /// On a library without prompts and recipes, creates sample recipes and
    /// prompts (with the given ids and time) and answers `true`.
    #[verifier::spinoff_prover]
    pub fn seed_if_empty(
        &mut self,
        now: &str,
        recipe_a: &str,
        recipe_b: &str,
        prompt_a: &str,
        prompt_b: &str,
    ) -> (r: Result<bool, StoreError>)
        ensures
            ((match r {
                Ok(b) => Ok(b),
                Err(e) => Err(err_v(e)),
            }), final(self)@) == seed_spec(old(self)@, now@, (recipe_a@, recipe_b@, prompt_a@, prompt_b@)),
    {
        let ps = match self.list_prompts() {
            Ok(v) => v,
            Err(e) => {
                return Err(e);
            },
        };
        if ps.len() > 0 {
            return Ok(false);
        }
        let rs = match self.list_recipes() {
            Ok(v) => v,
            Err(e) => {
                return Err(e);
            },
        };
        if rs.len() > 0 {
            return Ok(false);
        }
        let va = sample_values_a();
        let r1 = match self.sample_recipe(now, recipe_a, SEED_RECIPE_A, va) {
            Ok(x) => x,
            Err(e) => {
                return Err(e);
            },
        };
        let vb = sample_values_b();
        let r2 = match self.sample_recipe(now, recipe_b, SEED_RECIPE_B, vb) {
            Ok(x) => x,
            Err(e) => {
                return Err(e);
            },
        };
        match self.sample_prompts(now, prompt_a, prompt_b, r1.id.as_str(), r2.id.as_str()) {
            Ok(_) => Ok(true),
            Err(e) => Err(e),
        }
    }
}


// ---------- laws ----------

proof fn lemma_strs_json_wf(items: Seq<Seq<char>>)
    ensures
        crate::json::wf_items(strs_json(items)),
        str_values(strs_json(items)) == items,
    decreases items.len(),
{
    if items.len() > 0 {
        assert(strs_json(items).drop_last() =~= strs_json(items.drop_last()));
        lemma_strs_json_wf(items.drop_last());
        assert(strs_json(items).last() == JsonV::Str(items.last()));
        assert(crate::json::well_formed(JsonV::Str(items.last())));
        assert(items.drop_last().push(items.last()) =~= items);
    } else {
        assert(strs_json(items) =~= seq![]);
    }
}

/// A list file reads back as the list it was written with.
pub proof fn lemma_list_file_reads_back(key: Seq<char>, items: Seq<Seq<char>>)
    ensures
        id_list(list_file(key, items), key) == Some(items),
{
    let m = seq![(key, JsonV::Arr(strs_json(items)))];
    lemma_strs_json_wf(items);
    assert(m.drop_last() =~= seq![]);
    assert(crate::json::wf_members(m.drop_last()));
    assert(crate::json::well_formed(m.last().1));
    assert(crate::json::wf_members(m));
    assert(crate::json::keys_sorted(m));
    assert(crate::json::well_formed(JsonV::Obj(m)));
    crate::json::lemma_dump_parses_back(JsonV::Obj(m), Some(2));
    assert(crate::json::members_get(m, key) == Some(JsonV::Arr(strs_json(items))));
}

/// What `save_order` writes, `load_order` reads back.
pub proof fn lemma_order_reads_back(l: LibraryV, ids: Seq<Seq<char>>)
    ensures
        order_of(wrote_order(l, ids)) == Ok::<Seq<Seq<char>>, ErrV>(ids),
{
    lemma_list_file_reads_back("prompts"@, ids);
}

/// What the library writes to `variables.json`, it reads back.
pub proof fn lemma_variables_read_back(l: LibraryV, names: Seq<Seq<char>>)
    ensures
        variables_raw(wrote_variables(l, names)) == Ok::<Option<Seq<Seq<char>>>, ErrV>(Some(names)),
{
    lemma_list_file_reads_back("variables"@, names);
}

// ---------- laws of the id lists ----------

/// `keep_known` keeps the ids of `ids` that are known, in order, each as
/// often as given.
pub proof fn lemma_keep_known(ids: Seq<Seq<char>>, known: Seq<Seq<char>>)
    ensures
        forall|x: Seq<char>|
            #[trigger] keep_known(ids, known).contains(x) <==> ids.contains(x) && known.contains(x),
        ids.no_duplicates() ==> keep_known(ids, known).no_duplicates(),
    decreases ids.len(),
{
    if ids.len() > 0 {
        let pre = ids.drop_last();
        lemma_keep_known(pre, known);
        let k = keep_known(pre, known);
        assert forall|x: Seq<char>| #[trigger] keep_known(ids, known).contains(x) <==> ids.contains(x)
            && known.contains(x) by {
            if ids.contains(x) && !pre.contains(x) {
                let j = choose|j: int| 0 <= j < ids.len() && ids[j] == x;
                if j < pre.len() {
                    assert(pre[j] == x);
                }
                assert(x == ids.last());
            }
            if pre.contains(x) {
                let j = choose|j: int| 0 <= j < pre.len() && pre[j] == x;
                assert(ids[j] == x);
            }
            if known.contains(ids.last()) {
                assert(k.push(ids.last()).last() == ids.last());
                if k.contains(x) {
                    let j = choose|j: int| 0 <= j < k.len() && k[j] == x;
                    assert(k.push(ids.last())[j] == x);
                }
                if k.push(ids.last()).contains(x) && x != ids.last() {
                    let j = choose|j: int| 0 <= j < k.len() + 1 && k.push(ids.last())[j] == x;
                    assert(k[j] == x);
                }
            }
        }
        if ids.no_duplicates() {
            assert(pre.no_duplicates()) by {
                assert forall|i: int, j: int| 0 <= i < pre.len() && 0 <= j < pre.len() && i != j implies pre[i]
                    != pre[j] by {
                    assert(pre[i] == ids[i] && pre[j] == ids[j]);
                }
            }
            if known.contains(ids.last()) {
                assert(!pre.contains(ids.last())) by {
                    if pre.contains(ids.last()) {
                        let j = choose|j: int| 0 <= j < pre.len() && pre[j] == ids.last();
                        assert(ids[j] == ids[ids.len() - 1]);
                    }
                }
                assert(!k.contains(ids.last()));
            }
        }
    }
}

/// `append_missing(o, cur)` starts with `o`, holds exactly the ids of `o`
/// and `cur`, and repeats none that `o` does not repeat.
pub proof fn lemma_append_missing(o: Seq<Seq<char>>, cur: Seq<Seq<char>>)
    ensures
        append_missing(o, cur).len() >= o.len(),
        append_missing(o, cur).take(o.len() as int) == o,
        forall|x: Seq<char>|
            #[trigger] append_missing(o, cur).contains(x) <==> o.contains(x) || cur.contains(x),
        o.no_duplicates() ==> append_missing(o, cur).no_duplicates(),
    decreases cur.len(),
{
    if cur.len() == 0 {
        assert(o.take(o.len() as int) =~= o);
    } else {
        let pre = cur.drop_last();
        lemma_append_missing(o, pre);
        let a = append_missing(o, pre);
        let y = cur.last();
        if !a.contains(y) {
            assert(a.push(y).take(o.len() as int) =~= a.take(o.len() as int));
        }
        assert forall|x: Seq<char>| #[trigger] append_missing(o, cur).contains(x) <==> o.contains(x)
            || cur.contains(x) by {
            if cur.contains(x) && !pre.contains(x) {
                let j = choose|j: int| 0 <= j < cur.len() && cur[j] == x;
                if j < pre.len() {
                    assert(pre[j] == x);
                }
            }
            if pre.contains(x) {
                let j = choose|j: int| 0 <= j < pre.len() && pre[j] == x;
                assert(cur[j] == x);
            }
            if !a.contains(y) {
                if a.contains(x) {
                    let j = choose|j: int| 0 <= j < a.len() && a[j] == x;
                    assert(a.push(y)[j] == x);
                }
                if a.push(y).contains(x) && x != y {
                    let j = choose|j: int| 0 <= j < a.len() + 1 && a.push(y)[j] == x;
                    assert(a[j] == x);
                }
                assert(a.push(y)[a.len() as int] == y);
            }
        }
    }
}

/// `reorder_prompts` answers, and writes, an order that holds exactly the
/// listed prompts: the given ids that are listed, in the given order, then
/// the others in listing order. Given each id once, each id occurs once.
pub proof fn lemma_reorder_result(l: LibraryV, ids: Seq<Seq<char>>)
    requires
        prompts_of(l) is Ok,
    ensures
        ({
            let cur = prompt_ids(prompts_of(l)->Ok_0);
            let o = reorder_spec(l, ids).0->Ok_0;
            &&& reorder_spec(l, ids).0 is Ok
            &&& forall|x: Seq<char>| #[trigger] o.contains(x) <==> cur.contains(x)
            &&& o.take(keep_known(ids, cur).len() as int) == keep_known(ids, cur)
            &&& ids.no_duplicates() ==> o.no_duplicates()
            &&& order_of(reorder_spec(l, ids).1) == Ok::<Seq<Seq<char>>, ErrV>(o)
        }),
{
    let cur = prompt_ids(prompts_of(l)->Ok_0);
    let k = keep_known(ids, cur);
    lemma_keep_known(ids, cur);
    lemma_append_missing(k, cur);
    lemma_order_reads_back(l, append_missing(k, cur));
}

/// After `without(ids, x)`, `x` is gone and every other id stays.
pub proof fn lemma_without(ids: Seq<Seq<char>>, x: Seq<char>)
    ensures
        forall|y: Seq<char>| #[trigger] without(ids, x).contains(y) <==> ids.contains(y) && y != x,
    decreases ids.len(),
{
    if ids.len() > 0 {
        let pre = ids.drop_last();
        lemma_without(pre, x);
        let w = without(pre, x);
        assert forall|y: Seq<char>| #[trigger] without(ids, x).contains(y) <==> ids.contains(y) && y != x by {
            if ids.contains(y) && !pre.contains(y) {
                let j = choose|j: int| 0 <= j < ids.len() && ids[j] == y;
                if j < pre.len() {
                    assert(pre[j] == y);
                }
            }
            if pre.contains(y) {
                let j = choose|j: int| 0 <= j < pre.len() && pre[j] == y;
                assert(ids[j] == y);
            }
            if ids.last() != x {
                if w.contains(y) {
                    let j = choose|j: int| 0 <= j < w.len() && w[j] == y;
                    assert(w.push(ids.last())[j] == y);
                }
                if w.push(ids.last()).contains(y) && y != ids.last() {
                    let j = choose|j: int| 0 <= j < w.len() + 1 && w.push(ids.last())[j] == y;
                    assert(w[j] == y);
                }
                assert(w.push(ids.last())[w.len() as int] == ids.last());
            }
        }
    }
}

/// `delete_prompt` takes the prompt's id out of the order it writes and
/// keeps every other id.
pub proof fn lemma_delete_prompt_order(l: LibraryV, id: Seq<char>)
    requires
        delete_prompt_spec(l, id).0 is Ok,
    ensures
        order_of(delete_prompt_spec(l, id).1) matches Ok(o) && !o.contains(id) && (
        forall|y: Seq<char>|
            y != id ==> (#[trigger] o.contains(y) <==> order_of(
                removed_prompt(l, (prompt_by_id(l, id)->Ok_0).file_name),
            )->Ok_0.contains(y))),
{
    let p = prompt_by_id(l, id)->Ok_0;
    let l2 = removed_prompt(l, p.file_name);
    let o = order_of(l2)->Ok_0;
    lemma_without(o, id);
    lemma_order_reads_back(l2, without(o, id));
}

/// A prompt unlinked from a recipe refers to it no more, keeps its other
/// recipes, and still selects one of its recipes (or none) if it did.
pub proof fn lemma_unlinked(p: PromptV, id: Seq<char>)
    ensures
        !unlinked(p, id).recipes.contains(id),
        unlinked(p, id).selected_recipe != Some(id),
        forall|y: Seq<char>| y != id ==> (#[trigger] unlinked(p, id).recipes.contains(y) <==> p.recipes.contains(y)),
        (p.selected_recipe matches Some(s) ==> p.recipes.contains(s)) ==> (unlinked(p, id).selected_recipe matches Some(s)
            ==> unlinked(p, id).recipes.contains(s)),
{
    lemma_without(p.recipes, id);
    let rs = without(p.recipes, id);
    if rs.len() > 0 {
        assert(rs.contains(rs[0]));
    }
}

/// A saved prompt refers only to recipes of the library, and selects one
/// of its own recipes or none.
pub proof fn lemma_saved_prompt_refs(l: LibraryV, now: Seq<char>, u: PromptV, existing: PromptV)
    ensures
        forall|x: Seq<char>|
            #[trigger] saved_prompt(l, now, u, existing).recipes.contains(x) ==> recipe_ids(recipes_of(l)).contains(x)
                && u.recipes.contains(x),
        saved_prompt(l, now, u, existing).selected_recipe matches Some(s) ==> saved_prompt(
            l,
            now,
            u,
            existing,
        ).recipes.contains(s),
{
    let rs = keep_known(u.recipes, recipe_ids(recipes_of(l)));
    lemma_keep_known(u.recipes, recipe_ids(recipes_of(l)));
    if rs.len() > 0 {
        assert(rs.contains(rs[0]));
    }
}

// ---------- laws of the variable operations ----------

proof fn lemma_value_of_push(vals: Seq<(Seq<char>, Seq<char>)>, kv: (Seq<char>, Seq<char>), m: Seq<char>)
    ensures
        value_of(vals.push(kv), m) == (if value_of(vals, m) is Some {
            value_of(vals, m)
        } else if kv.0 == m {
            Some(kv.1)
        } else {
            None
        }),
    decreases vals.len(),
{
    let v2 = vals.push(kv);
    assert(v2[0] == if vals.len() > 0 { vals[0] } else { kv });
    if vals.len() > 0 {
        assert(v2.drop_first() =~= vals.drop_first().push(kv));
        lemma_value_of_push(vals.drop_first(), kv, m);
        if vals[0].0 != m {
            assert(value_of(v2, m) == value_of(v2.drop_first(), m));
            assert(value_of(vals, m) == value_of(vals.drop_first(), m));
        }
    } else {
        assert(v2.drop_first() =~= Seq::<(Seq<char>, Seq<char>)>::empty());
        assert(value_of(vals, m) is None);
    }
}

/// `add_variable` gives a recipe that lacks the name that name with an
/// empty value and keeps every other value.
pub proof fn lemma_add_value(vals: Seq<(Seq<char>, Seq<char>)>, name: Seq<char>, m: Seq<char>)
    requires
        value_of(vals, name) is None,
    ensures
        value_of(vals.push((name, Seq::<char>::empty())), name) == Some(Seq::<char>::empty()),
        m != name ==> value_of(vals.push((name, Seq::<char>::empty())), m) == value_of(vals, m),
{
    lemma_value_of_push(vals, (name, Seq::<char>::empty()), name);
    lemma_value_of_push(vals, (name, Seq::<char>::empty()), m);
}

/// Renaming a key moves its value to the new name, leaves no value under
/// the old one, and keeps every other value (when the new name was free).
pub proof fn lemma_rename_value(
    vals: Seq<(Seq<char>, Seq<char>)>,
    old: Seq<char>,
    new: Seq<char>,
    m: Seq<char>,
)
    requires
        old != new,
        value_of(vals, new) is None,
    ensures
        value_of(rename_keys(vals, old, new), new) == value_of(vals, old),
        value_of(rename_keys(vals, old, new), old) is None,
        m != old && m != new ==> value_of(rename_keys(vals, old, new), m) == value_of(vals, m),
    decreases vals.len(),
{
    if vals.len() > 0 {
        assert(rename_keys(vals, old, new).drop_first() =~= rename_keys(vals.drop_first(), old, new));
        lemma_rename_value(vals.drop_first(), old, new, m);
    }
}

/// Dropping a key leaves no value under it and keeps every other value.
pub proof fn lemma_drop_value(vals: Seq<(Seq<char>, Seq<char>)>, name: Seq<char>, m: Seq<char>)
    ensures
        value_of(drop_key(vals, name), name) is None,
        m != name ==> value_of(drop_key(vals, name), m) == value_of(vals, m),
    decreases vals.len(),
{
    if vals.len() > 0 {
        lemma_drop_value(vals.drop_last(), name, m);
        let d = drop_key(vals.drop_last(), name);
        lemma_value_of_drop_last(vals, name);
        lemma_value_of_drop_last(vals, m);
        lemma_value_of_push(vals.drop_last(), vals.last(), name);
        lemma_value_of_push(vals.drop_last(), vals.last(), m);
        if vals.last().0 != name {
            lemma_value_of_push(d, vals.last(), name);
            lemma_value_of_push(d, vals.last(), m);
        }
    }
}

proof fn lemma_value_of_drop_last(vals: Seq<(Seq<char>, Seq<char>)>, m: Seq<char>)
    requires
        vals.len() > 0,
    ensures
        value_of(vals, m) == value_of(vals.drop_last().push(vals.last()), m),
{
    assert(vals.drop_last().push(vals.last()) =~= vals);
}

proof fn lemma_value_of_keys(vals: Seq<(Seq<char>, Seq<char>)>, m: Seq<char>)
    ensures
        value_of(vals, m) is Some <==> keys(vals).contains(m),
    decreases vals.len(),
{
    if vals.len() > 0 {
        lemma_value_of_keys(vals.drop_first(), m);
        assert(keys(vals.drop_first()) =~= keys(vals).drop_first());
        if keys(vals).contains(m) && vals[0].0 != m {
            let j = choose|j: int| 0 <= j < keys(vals).len() && keys(vals)[j] == m;
            assert(keys(vals).drop_first()[j - 1] == m);
        }
        if keys(vals.drop_first()).contains(m) {
            let j = choose|j: int| 0 <= j < keys(vals.drop_first()).len() && keys(vals.drop_first())[j] == m;
            assert(keys(vals)[j + 1] == m);
        }
        assert(keys(vals)[0] == vals[0].0);
    }
}

/// `add_names` only adds, and adds every valid name it is given.
proof fn lemma_add_names(list: Seq<Seq<char>>, names: Seq<Seq<char>>)
    ensures
        forall|x: Seq<char>| list.contains(x) ==> #[trigger] add_names(list, names).contains(x),
        forall|x: Seq<char>| names.contains(x) && is_name(x) ==> #[trigger] add_names(list, names).contains(x),
    decreases names.len(),
{
    if names.len() > 0 {
        let pre = names.drop_last();
        lemma_add_names(list, pre);
        let a = add_names(list, pre);
        let y = names.last();
        assert forall|x: Seq<char>| a.contains(x) implies #[trigger] add_names(list, names).contains(x) by {
            if is_name(y) && !a.contains(y) {
                let j = choose|j: int| 0 <= j < a.len() && a[j] == x;
                assert(a.push(y)[j] == x);
            }
        }
        assert forall|x: Seq<char>| names.contains(x) && is_name(x) implies #[trigger] add_names(
            list,
            names,
        ).contains(x) by {
            let j = choose|j: int| 0 <= j < names.len() && names[j] == x;
            if j < pre.len() {
                assert(pre[j] == x);
                assert(a.contains(x));
            } else if !a.contains(y) {
                assert(a.push(y)[a.len() as int] == y);
            }
        }
    }
}

proof fn lemma_add_recipe_keys(list: Seq<Seq<char>>, rs: Seq<RecipeV>)
    ensures
        forall|x: Seq<char>| list.contains(x) ==> #[trigger] add_recipe_keys(list, rs).contains(x),
        forall|i: int, x: Seq<char>|
            0 <= i < rs.len() && is_name(x) && #[trigger] keys(rs[i].values).contains(x) ==> add_recipe_keys(
                list,
                rs,
            ).contains(x),
    decreases rs.len(),
{
    if rs.len() > 0 {
        let pre = rs.drop_last();
        lemma_add_recipe_keys(list, pre);
        let a = add_recipe_keys(list, pre);
        lemma_add_names(a, keys(rs.last().values));
        assert forall|i: int, x: Seq<char>|
            0 <= i < rs.len() && is_name(x) && #[trigger] keys(rs[i].values).contains(x) implies add_recipe_keys(
            list,
            rs,
        ).contains(x) by {
            if i < pre.len() {
                assert(pre[i] == rs[i]);
                assert(a.contains(x));
            }
        }
    }
}

/// The global list holds every valid name that any recipe has.
pub proof fn lemma_reconciled_covers(l: LibraryV)
    requires
        reconciled(l) is Ok,
    ensures
        forall|i: int, x: Seq<char>|
            0 <= i < recipes_of(l).len() && is_name(x) && #[trigger] value_of(recipes_of(l)[i].values, x)
                is Some ==> (reconciled(l)->Ok_0).contains(x),
{
    let base = add_names(
        seq![],
        match variables_raw(l)->Ok_0 {
            Some(v) => v,
            None => seq![],
        },
    );
    lemma_add_recipe_keys(base, recipes_of(l));
    assert forall|i: int, x: Seq<char>|
        0 <= i < recipes_of(l).len() && is_name(x) && #[trigger] value_of(recipes_of(l)[i].values, x)
            is Some implies (reconciled(l)->Ok_0).contains(x) by {
        lemma_value_of_keys(recipes_of(l)[i].values, x);
    }
}

/// `rename_variable` moves each recipe's value from the old name to the new
/// one: the new name is free in every recipe, so no value is lost.
pub proof fn lemma_rename_keeps_values(l: LibraryV, now: Seq<char>, old: Seq<char>, new: Seq<char>, i: int)
    requires
        old != new,
        rename_variable_spec(l, now, old, new).0 is Ok,
        0 <= i < recipes_of(l).len(),
    ensures
        value_of(rename_keys(recipes_of(l)[i].values, old, new), new) == value_of(
            recipes_of(l)[i].values,
            old,
        ),
        value_of(rename_keys(recipes_of(l)[i].values, old, new), old) is None,
        (rename_variable_spec(l, now, old, new).0->Ok_0).contains(new),
        !(rename_variable_spec(l, now, old, new).0->Ok_0).contains(old),
{
    lemma_reconciled_covers(l);
    let list = reconciled(l)->Ok_0;
    let vals = recipes_of(l)[i].values;
    assert(value_of(vals, new) is None);
    lemma_rename_value(vals, old, new, new);
    let nl = rename_names(list, old, new);
    let j = choose|j: int| 0 <= j < list.len() && list[j] == old;
    assert(nl[j] == new);
    if nl.contains(old) {
        let k = choose|k: int| 0 <= k < nl.len() && nl[k] == old;
        assert(list[k] != old);
    }
}

/// `add_variable` puts the name at the end of the global list; every
/// recipe that lacked it gets it with an empty value.
pub proof fn lemma_add_variable_result(l: LibraryV, name: Seq<char>, i: int)
    requires
        add_variable_spec(l, name).0 is Ok,
        0 <= i < recipes_of(l).len(),
        value_of(recipes_of(l)[i].values, name) is None,
    ensures
        add_variable_spec(l, name).0->Ok_0 == (reconciled(l)->Ok_0).push(name),
        value_of(recipes_of(l)[i].values.push((name, Seq::<char>::empty())), name) == Some(
            Seq::<char>::empty(),
        ),
{
    lemma_add_value(recipes_of(l)[i].values, name, name);
}

/// `delete_variable` takes the name out of the global list and out of
/// every recipe.
pub proof fn lemma_delete_variable_result(l: LibraryV, name: Seq<char>, i: int)
    requires
        delete_variable_spec(l, name).0 is Ok,
        0 <= i < recipes_of(l).len(),
    ensures
        !(delete_variable_spec(l, name).0->Ok_0).contains(name),
        value_of(drop_key(recipes_of(l)[i].values, name), name) is None,
{
    lemma_without(reconciled(l)->Ok_0, name);
    lemma_drop_value(recipes_of(l)[i].values, name, name);
}

// ---------- a new file never replaces one ----------

/// Different candidate numbers give different file names.
proof fn lemma_candidate_distinct(slug: Seq<char>, ext: Seq<char>, n: int, m: int)
    requires
        1 <= n < m,
    ensures
        candidate(slug, n, ext) != candidate(slug, m, ext),
{
    let cn = candidate(slug, n, ext);
    let cm = candidate(slug, m, ext);
    let l = slug.len() as int;
    crate::util::lemma_dec(m as nat);
    let b = dec(m as nat);
    assert(cm =~= slug + (seq!['-'] + b + seq!['.'] + ext));
    assert(cm[l] == '-');
    if n == 1 {
        assert(cn =~= slug + (seq!['.'] + ext));
        assert(cn[l] == '.');
    } else {
        crate::util::lemma_dec(n as nat);
        let a = dec(n as nat);
        assert(cn =~= slug + (seq!['-'] + a + seq!['.'] + ext));
        if cn == cm {
            if a.len() == b.len() {
                assert forall|i: int| 0 <= i < a.len() implies a[i] == b[i] by {
                    assert(cn[l + 1 + i] == a[i]);
                    assert(cm[l + 1 + i] == b[i]);
                }
                assert(a =~= b);
                crate::util::lemma_dec_injective(n as nat, m as nat);
            } else if a.len() < b.len() {
                assert(cn[l + 1 + a.len()] == '.');
                assert(cm[l + 1 + a.len()] == b[a.len() as int]);
            } else {
                assert(cm[l + 1 + b.len()] == '.');
                assert(cn[l + 1 + b.len()] == a[b.len() as int]);
            }
        }
    }
}

proof fn lemma_free_from(d: Seq<(Seq<char>, Option<Seq<char>>)>, slug: Seq<char>, ext: Seq<char>, n: int)
    requires
        1 <= n,
    ensures
        n <= free_from(d, slug, ext, n),
        n <= d.len() + 1 ==> free_from(d, slug, ext, n) <= d.len() + 1,
        forall|k: int|
            n <= k < free_from(d, slug, ext, n) ==> k <= d.len() && #[trigger] file_pos(
                d,
                candidate(slug, k, ext),
            ) is Some,
        free_from(d, slug, ext, n) > d.len() || file_pos(
            d,
            candidate(slug, free_from(d, slug, ext, n), ext),
        ) is None,
    decreases d.len() + 1 - n,
{
    if !(n > d.len() || file_pos(d, candidate(slug, n, ext)) is None) {
        lemma_free_from(d, slug, ext, n + 1);
    }
}

/// The file name a new prompt or recipe gets is not taken in the listing,
/// so creating one never replaces an existing file.
pub proof fn lemma_free_name_free(d: Seq<(Seq<char>, Option<Seq<char>>)>, slug: Seq<char>, ext: Seq<char>)
    ensures
        file_pos(d, free_name(d, slug, ext)) is None,
{
    let nn = free_from(d, slug, ext, 1);
    lemma_free_from(d, slug, ext, 1);
    if file_pos(d, candidate(slug, nn, ext)) is Some {
        assert(nn == d.len() + 1);
        let f = |k: int| file_pos(d, candidate(slug, k, ext))->Some_0;
        let x = vstd::set_lib::set_int_range(1, nn + 1);
        let y = x.map(f);
        let z = vstd::set_lib::set_int_range(0, d.len() as int);
        vstd::set_lib::lemma_int_range(1, nn + 1);
        vstd::set_lib::lemma_int_range(0, d.len() as int);
        assert forall|k: int| #[trigger] x.contains(k) implies file_pos(d, candidate(slug, k, ext)) is Some by {
        }
        assert(vstd::relations::injective_on(f, x)) by {
            assert forall|k1: int, k2: int|
                x.contains(k1) && x.contains(k2) && #[trigger] f(k1) == #[trigger] f(k2) implies k1 == k2 by {
                lemma_file_pos(d, candidate(slug, k1, ext));
                lemma_file_pos(d, candidate(slug, k2, ext));
                if k1 < k2 {
                    lemma_candidate_distinct(slug, ext, k1, k2);
                } else if k2 < k1 {
                    lemma_candidate_distinct(slug, ext, k2, k1);
                }
            }
        }
        vstd::set_lib::lemma_map_size(x, y, f);
        assert(y.subset_of(z)) by {
            assert forall|p: int| #[trigger] y.contains(p) implies z.contains(p) by {
                let k = choose|k: int| x.contains(k) && f(k) == p;
                lemma_file_pos(d, candidate(slug, k, ext));
            }
        }
        vstd::set_lib::lemma_len_subset(y, z);
        assert(false);
    }
}

/// `create_prompt` writes the new prompt to a file name that was free.
pub proof fn lemma_create_prompt_fresh_file(
    l: LibraryV,
    id: Seq<char>,
    now: Seq<char>,
    title: Seq<char>,
    content: Seq<char>,
)
    requires
        create_prompt_spec(l, id, now, title, content).0 is Ok,
    ensures
        file_pos(l.prompts, (create_prompt_spec(l, id, now, title, content).0->Ok_0).file_name) is None,
{
    reveal(create_prompt_spec);
    lemma_free_name_free(l.prompts, slug(title), "md"@);
}

/// `create_recipe` writes the new recipe to a file name that was free, and
/// gives it every global variable with an empty value.
pub proof fn lemma_create_recipe_result(l: LibraryV, id: Seq<char>, now: Seq<char>, name: Seq<char>, n: Seq<char>)
    requires
        create_recipe_spec(l, id, now, name).0 is Ok,
        (reconciled(l)->Ok_0).contains(n),
    ensures
        file_pos(l.recipes, (create_recipe_spec(l, id, now, name).0->Ok_0).file_name) is None,
        value_of((create_recipe_spec(l, id, now, name).0->Ok_0).values, n) == Some(Seq::<char>::empty()),
{
    reveal(create_recipe_spec);
    lemma_free_name_free(l.recipes, slug(name), "yaml"@);
    lemma_blank_values(reconciled(l)->Ok_0, n);
}

proof fn lemma_blank_values(list: Seq<Seq<char>>, n: Seq<char>)
    requires
        list.contains(n),
    ensures
        value_of(blank_values(list), n) == Some(Seq::<char>::empty()),
    decreases list.len(),
{
    assert(blank_values(list)[0] == (list[0], Seq::<char>::empty()));
    if list[0] != n {
        let j = choose|j: int| 0 <= j < list.len() && list[j] == n;
        assert(list.drop_first()[j - 1] == n);
        assert(blank_values(list).drop_first() =~= blank_values(list.drop_first()));
        lemma_blank_values(list.drop_first(), n);
    }
}

// ---------- the watcher's fingerprint ----------

/// A directory entry as the watcher sees it: its name and, when its
/// metadata can be read, its size and (when known) its modification time in
/// nanoseconds since the epoch.
pub open spec fn entries_v(es: Seq<(String, Option<(u64, Option<u128>)>)>) -> Seq<(Seq<char>, Option<(u64, Option<u128>)>)> {
    es.map_values(|e: (String, Option<(u64, Option<u128>)>)| (e.0@, e.1))
}

/// Entries are hashed in the order of their names.
pub open spec fn entry_lt(a: (Seq<char>, Option<(u64, Option<u128>)>), b: (Seq<char>, Option<(u64, Option<u128>)>)) -> bool {
    key_lt(a.0, b.0)
}

/// The bytes a file's metadata contributes: its size, then its
/// modification time, each little-endian, as far as they are known.
pub open spec fn stamp_bytes(st: Option<(u64, Option<u128>)>) -> Seq<u8> {
    match st {
        None => seq![],
        Some((len, m)) => crate::util::le64(len) + match m {
            Some(t) => crate::util::le128(t),
            None => seq![],
        },
    }
}

/// The bytes an entry contributes: its name in UTF-8, then its metadata.
pub open spec fn entry_bytes(e: (Seq<char>, Option<(u64, Option<u128>)>)) -> Seq<u8> {
    vstd::utf8::encode_utf8(e.0) + stamp_bytes(e.1)
}

/// FNV-1a over the entries in turn.
pub open spec fn entries_hash(h: u64, es: Seq<(Seq<char>, Option<(u64, Option<u128>)>)>) -> u64
    decreases es.len(),
{
    if es.len() == 0 {
        h
    } else {
        crate::util::fnv_bytes(entries_hash(h, es.drop_last()), entry_bytes(es.last()))
    }
}

/// The fingerprint of a library: the prompt entries, then the recipe
/// entries (each by name), then the metadata of `order.json` and of
/// `variables.json`, all through one FNV-1a state.
pub open spec fn fingerprint_v(
    prompts: Seq<(Seq<char>, Option<(u64, Option<u128>)>)>,
    recipes: Seq<(Seq<char>, Option<(u64, Option<u128>)>)>,
    order: Option<(u64, Option<u128>)>,
    variables: Option<(u64, Option<u128>)>,
) -> u64 {
    let lt = |a: (Seq<char>, Option<(u64, Option<u128>)>), b: (Seq<char>, Option<(u64, Option<u128>)>)| entry_lt(a, b);
    let h1 = entries_hash(crate::util::FNV_OFFSET, isort(prompts, lt));
    let h2 = entries_hash(h1, isort(recipes, lt));
    crate::util::fnv_bytes(crate::util::fnv_bytes(h2, stamp_bytes(order)), stamp_bytes(variables))
}

/// A folder listing names each entry once.
pub open spec fn names_once(es: Seq<(Seq<char>, Option<(u64, Option<u128>)>)>) -> bool {
    forall|i: int, j: int| 0 <= i < j < es.len() ==> #[trigger] es[i].0 != #[trigger] es[j].0
}

proof fn lemma_sorted_listing(a: Seq<(Seq<char>, Option<(u64, Option<u128>)>)>, b: Seq<(Seq<char>, Option<(u64, Option<u128>)>)>)
    requires
        names_once(a),
        a.to_multiset() == b.to_multiset(),
    ensures
        isort(a, |x: (Seq<char>, Option<(u64, Option<u128>)>), y: (Seq<char>, Option<(u64, Option<u128>)>)| entry_lt(x, y))
            == isort(b, |x: (Seq<char>, Option<(u64, Option<u128>)>), y: (Seq<char>, Option<(u64, Option<u128>)>)| entry_lt(x, y)),
{
    broadcast use vstd::seq_lib::group_to_multiset_ensures;

    let lt = |x: (Seq<char>, Option<(u64, Option<u128>)>), y: (Seq<char>, Option<(u64, Option<u128>)>)| entry_lt(x, y);
    assert forall|x: (Seq<char>, Option<(u64, Option<u128>)>)| !#[trigger] lt(x, x) by {
        crate::json::lemma_key_lt_irrefl(x.0);
    }
    assert forall|x: (Seq<char>, Option<(u64, Option<u128>)>), y: (Seq<char>, Option<(u64, Option<u128>)>), z: (Seq<char>, Option<(u64, Option<u128>)>)|
        #[trigger] lt(x, y) && #[trigger] lt(y, z) implies lt(x, z) by {
        crate::json::lemma_key_lt_trans(x.0, y.0, z.0);
    }
    lemma_isort_sorted(a, lt);
    lemma_isort_sorted(b, lt);
    lemma_isort_perm(a, lt);
    lemma_isort_perm(b, lt);
    let sa = isort(a, lt);
    assert forall|x: (Seq<char>, Option<(u64, Option<u128>)>), y: (Seq<char>, Option<(u64, Option<u128>)>)|
        sa.contains(x) && sa.contains(y) && x != y implies #[trigger] lt(x, y) || #[trigger] lt(y, x) by {
        lemma_isort_contains(a, lt, x);
        lemma_isort_contains(a, lt, y);
        let i = choose|i: int| 0 <= i < a.len() && a[i] == x;
        let j = choose|j: int| 0 <= j < a.len() && a[j] == y;
        if i < j {
            assert(a[i].0 != a[j].0);
        } else if j < i {
            assert(a[j].0 != a[i].0);
        }
        lemma_key_lt_total(x.0, y.0);
    }
    lemma_sorted_unique(sa, isort(b, lt), lt);
}

/// The fingerprint does not depend on the order in which the folders are
/// listed: listings that hold the same entries give the same fingerprint
/// (a folder lists each name once).
pub proof fn lemma_fingerprint_listing_order(
    p1: Seq<(Seq<char>, Option<(u64, Option<u128>)>)>,
    p2: Seq<(Seq<char>, Option<(u64, Option<u128>)>)>,
    r1: Seq<(Seq<char>, Option<(u64, Option<u128>)>)>,
    r2: Seq<(Seq<char>, Option<(u64, Option<u128>)>)>,
    order: Option<(u64, Option<u128>)>,
    variables: Option<(u64, Option<u128>)>,
)
    requires
        names_once(p1),
        names_once(r1),
        p1.to_multiset() == p2.to_multiset(),
        r1.to_multiset() == r2.to_multiset(),
    ensures
        fingerprint_v(p1, r1, order, variables) == fingerprint_v(p2, r2, order, variables),
{
    lemma_sorted_listing(p1, p2);
    lemma_sorted_listing(r1, r2);
}

fn stamp_mix(h: u64, st: Option<(u64, Option<u128>)>) -> (r: u64)
    ensures
        r == crate::util::fnv_bytes(h, stamp_bytes(st)),
{
    match st {
        None => {
            assert(stamp_bytes(st) =~= Seq::<u8>::empty());
            h
        },
        Some((len, m)) => {
            let b = crate::util::le_bytes64(len);
            let h1 = crate::util::fnv_mix(h, b.as_slice());
            match m {
                Some(t) => {
                    let b2 = crate::util::le_bytes128(t);
                    proof {
                        crate::util::lemma_fnv_concat(h, b@, b2@);
                    }
                    crate::util::fnv_mix(h1, b2.as_slice())
                },
                None => {
                    assert(stamp_bytes(st) =~= b@);
                    h1
                },
            }
        },
    }
}

fn insert_entry(out: &mut Vec<(String, Option<(u64, Option<u128>)>)>, x: (String, Option<(u64, Option<u128>)>))
    ensures
        entries_v(final(out)@) == entries_v(old(out)@).insert(
            first_after(
                entries_v(old(out)@),
                (x.0@, x.1),
                |a: (Seq<char>, Option<(u64, Option<u128>)>), b: (Seq<char>, Option<(u64, Option<u128>)>)| entry_lt(a, b),
            ),
            (x.0@, x.1),
        ),
{
    let ghost lt = |a: (Seq<char>, Option<(u64, Option<u128>)>), b: (Seq<char>, Option<(u64, Option<u128>)>)| entry_lt(a, b);
    let ghost s = entries_v(out@);
    let ghost xv = (x.0@, x.1);
    let n = out.len();
    let mut p: usize = 0;
    assert(s.skip(0) =~= s);
    while p < n && !key_lt_exec(x.0.as_str(), out[p].0.as_str())
        invariant
            n == out@.len(),
            p <= n,
            s == entries_v(out@),
            xv == (x.0@, x.1),
            lt == (|a: (Seq<char>, Option<(u64, Option<u128>)>), b: (Seq<char>, Option<(u64, Option<u128>)>)| entry_lt(a, b)),
            first_after(s, xv, lt) == p + first_after(s.skip(p as int), xv, lt),
        decreases n - p,
    {
        assert(s[p as int] == (out@[p as int].0@, out@[p as int].1));
        assert(s.skip(p as int)[0] == s[p as int]);
        assert(s.skip(p as int).drop_first() =~= s.skip(p + 1));
        p = p + 1;
    }
    proof {
        if p < n {
            assert(s[p as int] == (out@[p as int].0@, out@[p as int].1));
            assert(s.skip(p as int)[0] == s[p as int]);
        }
    }
    out.insert(p, x);
    assert(entries_v(out@) =~= s.insert(p as int, xv));
}

fn entries_mix(h: u64, es: &Vec<(String, Option<(u64, Option<u128>)>)>) -> (r: u64)
    ensures
        r == entries_hash(
            h,
            isort(
                entries_v(es@),
                |a: (Seq<char>, Option<(u64, Option<u128>)>), b: (Seq<char>, Option<(u64, Option<u128>)>)| entry_lt(a, b),
            ),
        ),
{
    let ghost lt = |a: (Seq<char>, Option<(u64, Option<u128>)>), b: (Seq<char>, Option<(u64, Option<u128>)>)| entry_lt(a, b);
    let ghost ev = entries_v(es@);
    let mut sorted: Vec<(String, Option<(u64, Option<u128>)>)> = Vec::new();
    let n = es.len();
    let mut k: usize = 0;
    assert(entries_v(sorted@) =~= isort(ev.take(0), lt));
    while k < n
        invariant
            n == es@.len(),
            ev == entries_v(es@),
            k <= n,
            lt == (|a: (Seq<char>, Option<(u64, Option<u128>)>), b: (Seq<char>, Option<(u64, Option<u128>)>)| entry_lt(a, b)),
            entries_v(sorted@) == isort(ev.take(k as int), lt),
        decreases n - k,
    {
        let x = (copy_string(es[k].0.as_str()), es[k].1);
        assert((x.0@, x.1) == ev[k as int]);
        insert_entry(&mut sorted, x);
        assert(ev.take(k + 1).drop_last() =~= ev.take(k as int));
        k = k + 1;
    }
    assert(ev.take(n as int) =~= ev);
    let ghost sv = entries_v(sorted@);
    let m = sorted.len();
    let mut x = h;
    let mut i: usize = 0;
    while i < m
        invariant
            m == sorted@.len(),
            sv == entries_v(sorted@),
            i <= m,
            x == entries_hash(h, sv.take(i as int)),
        decreases m - i,
    {
        assert(sv.take(i + 1).drop_last() =~= sv.take(i as int));
        assert(sv[i as int] == (sorted@[i as int].0@, sorted@[i as int].1));
        let name_bytes = sorted[i].0.as_str().as_bytes();
        let x1 = crate::util::fnv_mix(x, name_bytes);
        let x2 = stamp_mix(x1, sorted[i].1);
        proof {
            crate::util::lemma_fnv_concat(x, name_bytes@, stamp_bytes(sorted@[i as int].1));
        }
        x = x2;
        i = i + 1;
    }
    assert(sv.take(m as int) =~= sv);
    x
}

impl Library {
    /// Cheap fingerprint of the library for the polling watcher: hashes
    /// the entries of the prompt and recipe folders (names, sizes and
    /// modification times, by name) and the metadata of `order.json` and
    /// `variables.json`. The caller reads the folders; a folder that cannot
    /// be read has no entries and a file whose metadata cannot be read adds
    /// nothing.
    pub fn fingerprint(
        prompts: &Vec<(String, Option<(u64, Option<u128>)>)>,
        recipes: &Vec<(String, Option<(u64, Option<u128>)>)>,
        order: Option<(u64, Option<u128>)>,
        variables: Option<(u64, Option<u128>)>,
    ) -> (r: u64)
        ensures
            r == fingerprint_v(entries_v(prompts@), entries_v(recipes@), order, variables),
    {
        let h1 = entries_mix(crate::util::FNV_OFFSET, prompts);
        let h2 = entries_mix(h1, recipes);
        let h3 = stamp_mix(h2, order);
        stamp_mix(h3, variables)
    }
}

// ---------- migrate writes nothing the second time ----------

proof fn lemma_value_of_listed(l: Seq<Seq<char>>, vals: Seq<(Seq<char>, Seq<char>)>, e: Seq<(Seq<char>, Seq<char>)>, n: Seq<char>)
    requires
        l.contains(n),
    ensures
        value_of(
            l.map_values(|m: Seq<char>| (m, or_empty(value_of(vals, m)))) + e,
            n,
        ) == Some(or_empty(value_of(vals, n))),
    decreases l.len(),
{
    let f = |m: Seq<char>| (m, or_empty(value_of(vals, m)));
    let s = l.map_values(f) + e;
    assert(s[0] == f(l[0]));
    if l[0] != n {
        let j = choose|j: int| 0 <= j < l.len() && l[j] == n;
        assert(l.drop_first()[j - 1] == n);
        assert(s.drop_first() =~= l.drop_first().map_values(f) + e);
        lemma_value_of_listed(l.drop_first(), vals, e, n);
    }
}

proof fn lemma_extra_concat(a: Seq<(Seq<char>, Seq<char>)>, b: Seq<(Seq<char>, Seq<char>)>, l: Seq<Seq<char>>)
    ensures
        extra_pairs(a + b, l) == extra_pairs(a, l) + extra_pairs(b, l),
    decreases b.len(),
{
    if b.len() == 0 {
        assert(a + b =~= a);
        assert(extra_pairs(a, l) + extra_pairs(b, l) =~= extra_pairs(a, l));
    } else {
        assert((a + b).drop_last() =~= a + b.drop_last());
        lemma_extra_concat(a, b.drop_last(), l);
        assert(extra_pairs(a + b, l) =~= extra_pairs(a, l) + extra_pairs(b, l));
    }
}

proof fn lemma_extra_listed(l: Seq<Seq<char>>, vals: Seq<(Seq<char>, Seq<char>)>)
    ensures
        extra_pairs(l.map_values(|m: Seq<char>| (m, or_empty(value_of(vals, m)))), l) == Seq::<
            (Seq<char>, Seq<char>),
        >::empty(),
{
    let f = |m: Seq<char>| (m, or_empty(value_of(vals, m)));
    lemma_extra_of_known(l.map_values(f), l);
}

proof fn lemma_extra_of_known(a: Seq<(Seq<char>, Seq<char>)>, l: Seq<Seq<char>>)
    requires
        forall|i: int| 0 <= i < a.len() ==> l.contains(#[trigger] a[i].0),
    ensures
        extra_pairs(a, l) == Seq::<(Seq<char>, Seq<char>)>::empty(),
    decreases a.len(),
{
    if a.len() > 0 {
        assert(l.contains(a[a.len() - 1].0));
        lemma_extra_of_known(a.drop_last(), l);
    }
}

proof fn lemma_extra_idem(vals: Seq<(Seq<char>, Seq<char>)>, l: Seq<Seq<char>>)
    ensures
        extra_pairs(extra_pairs(vals, l), l) == extra_pairs(vals, l),
        forall|i: int| 0 <= i < extra_pairs(vals, l).len() ==> !l.contains(#[trigger] extra_pairs(vals, l)[i].0),
    decreases vals.len(),
{
    if vals.len() > 0 {
        lemma_extra_idem(vals.drop_last(), l);
        let e = extra_pairs(vals.drop_last(), l);
        if !l.contains(vals.last().0) {
            assert(e.push(vals.last()).drop_last() =~= e);
        }
    }
}

/// Normalizing twice to the same list changes nothing the second time.
pub proof fn lemma_normalized_idem(vals: Seq<(Seq<char>, Seq<char>)>, l: Seq<Seq<char>>)
    ensures
        normalized(normalized(vals, l), l) == normalized(vals, l),
{
    let f = |m: Seq<char>| (m, or_empty(value_of(vals, m)));
    let nv = normalized(vals, l);
    let e = extra_pairs(vals, l);
    assert(nv == l.map_values(f) + e);
    let g = |m: Seq<char>| (m, or_empty(value_of(nv, m)));
    assert(l.map_values(g) =~= l.map_values(f)) by {
        assert forall|j: int| 0 <= j < l.len() implies l.map_values(g)[j] == l.map_values(f)[j] by {
            assert(l.contains(l[j]));
            lemma_value_of_listed(l, vals, e, l[j]);
        }
    }
    lemma_extra_concat(l.map_values(f), e, l);
    lemma_extra_listed(l, vals);
    lemma_extra_idem(vals, l);
    assert(extra_pairs(nv, l) =~= e);
}

/// The names of a normalized recipe: the list, then its own names the
/// list does not hold.
proof fn lemma_normalized_keys(vals: Seq<(Seq<char>, Seq<char>)>, l: Seq<Seq<char>>)
    ensures
        forall|i: int|
            0 <= i < normalized(vals, l).len() ==> (l.contains(#[trigger] normalized(vals, l)[i].0) && (
            normalized(vals, l)[i].1 == Seq::<char>::empty() || exists|j: int|
                0 <= j < vals.len() && vals[j].1 == normalized(vals, l)[i].1)) || (exists|j: int|
                0 <= j < vals.len() && vals[j] == normalized(vals, l)[i]),
{
    let f = |m: Seq<char>| (m, or_empty(value_of(vals, m)));
    let nv = normalized(vals, l);
    let lm = l.map_values(f);
    let e = extra_pairs(vals, l);
    lemma_extra_sub(vals, l);
    assert forall|i: int| 0 <= i < nv.len() implies (l.contains(#[trigger] nv[i].0) && (nv[i].1 == Seq::<
        char,
    >::empty() || exists|j: int| 0 <= j < vals.len() && vals[j].1 == nv[i].1)) || (exists|j: int|
        0 <= j < vals.len() && vals[j] == nv[i]) by {
        if i < lm.len() {
            assert(nv[i] == f(l[i]));
            assert(l.contains(l[i]));
            lemma_value_of_in(vals, l[i]);
        } else {
            assert(nv[i] == e[i - lm.len()]);
        }
    }
}

proof fn lemma_extra_sub(vals: Seq<(Seq<char>, Seq<char>)>, l: Seq<Seq<char>>)
    ensures
        forall|i: int|
            0 <= i < extra_pairs(vals, l).len() ==> exists|j: int|
                0 <= j < vals.len() && vals[j] == #[trigger] extra_pairs(vals, l)[i],
    decreases vals.len(),
{
    if vals.len() > 0 {
        lemma_extra_sub(vals.drop_last(), l);
        let e = extra_pairs(vals.drop_last(), l);
        assert forall|i: int| 0 <= i < extra_pairs(vals, l).len() implies exists|j: int|
            0 <= j < vals.len() && vals[j] == #[trigger] extra_pairs(vals, l)[i] by {
            if i < e.len() {
                let j = choose|j: int| 0 <= j < vals.drop_last().len() && vals.drop_last()[j] == e[i];
                assert(vals[j] == e[i]);
            } else {
                assert(vals[vals.len() - 1] == extra_pairs(vals, l)[i]);
            }
        }
    }
}

proof fn lemma_value_of_in(vals: Seq<(Seq<char>, Seq<char>)>, n: Seq<char>)
    ensures
        value_of(vals, n) matches Some(v) ==> exists|j: int| 0 <= j < vals.len() && vals[j].1 == v,
    decreases vals.len(),
{
    if vals.len() > 0 && vals[0].0 != n {
        lemma_value_of_in(vals.drop_first(), n);
        if let Some(v) = value_of(vals, n) {
            let j = choose|j: int| 0 <= j < vals.drop_first().len() && vals.drop_first()[j].1 == v;
            assert(vals[j + 1].1 == v);
        }
    }
}

proof fn lemma_add_names_id(list: Seq<Seq<char>>, names: Seq<Seq<char>>)
    requires
        forall|k: int| 0 <= k < names.len() && is_name(#[trigger] names[k]) ==> list.contains(names[k]),
    ensures
        add_names(list, names) == list,
    decreases names.len(),
{
    if names.len() > 0 {
        lemma_add_names_id(list, names.drop_last());
        assert(is_name(names[names.len() - 1]) ==> list.contains(names[names.len() - 1]));
    }
}

proof fn lemma_add_recipe_keys_id(list: Seq<Seq<char>>, rs: Seq<RecipeV>)
    requires
        forall|i: int, x: Seq<char>|
            0 <= i < rs.len() && is_name(x) && #[trigger] value_of(rs[i].values, x) is Some ==> list.contains(x),
    ensures
        add_recipe_keys(list, rs) == list,
    decreases rs.len(),
{
    if rs.len() > 0 {
        lemma_add_recipe_keys_id(list, rs.drop_last());
        let ks = keys(rs.last().values);
        assert forall|k: int| 0 <= k < ks.len() && is_name(#[trigger] ks[k]) implies list.contains(ks[k]) by {
            assert(ks.contains(ks[k]));
            lemma_value_of_keys(rs.last().values, ks[k]);
            assert(value_of(rs[rs.len() - 1].values, ks[k]) is Some);
        }
        lemma_add_names_id(list, ks);
    }
}

/// The names of a list: each valid, none twice.
pub open spec fn names_ok(list: Seq<Seq<char>>) -> bool {
    list.no_duplicates() && forall|k: int| 0 <= k < list.len() ==> is_name(#[trigger] list[k])
}

proof fn lemma_add_names_ok(list: Seq<Seq<char>>, names: Seq<Seq<char>>)
    requires
        names_ok(list),
    ensures
        names_ok(add_names(list, names)),
    decreases names.len(),
{
    if names.len() > 0 {
        lemma_add_names_ok(list, names.drop_last());
    }
}

proof fn lemma_add_recipe_keys_ok(list: Seq<Seq<char>>, rs: Seq<RecipeV>)
    requires
        names_ok(list),
    ensures
        names_ok(add_recipe_keys(list, rs)),
    decreases rs.len(),
{
    if rs.len() > 0 {
        lemma_add_recipe_keys_ok(list, rs.drop_last());
        lemma_add_names_ok(add_recipe_keys(list, rs.drop_last()), keys(rs.last().values));
    }
}

proof fn lemma_add_names_self(list: Seq<Seq<char>>)
    requires
        names_ok(list),
    ensures
        add_names(seq![], list) == list,
    decreases list.len(),
{
    if list.len() > 0 {
        let pre = list.drop_last();
        assert(names_ok(pre)) by {
            assert forall|i: int, j: int| 0 <= i < pre.len() && 0 <= j < pre.len() && i != j implies pre[i]
                != pre[j] by {
                assert(pre[i] == list[i] && pre[j] == list[j]);
            }
            assert forall|k: int| 0 <= k < pre.len() implies is_name(#[trigger] pre[k]) by {
                assert(pre[k] == list[k]);
            }
        }
        lemma_add_names_self(pre);
        assert(is_name(list[list.len() - 1]));
        assert(!pre.contains(list.last())) by {
            if pre.contains(list.last()) {
                let j = choose|j: int| 0 <= j < pre.len() && pre[j] == list.last();
                assert(list[j] == list[list.len() - 1]);
            }
        }
        assert(pre.push(list.last()) =~= list);
    }
}

/// The global list names each valid variable once.
pub proof fn lemma_reconciled_ok(l: LibraryV)
    requires
        reconciled(l) is Ok,
    ensures
        names_ok(reconciled(l)->Ok_0),
{
    let e: Seq<Seq<char>> = seq![];
    assert(names_ok(e));
    let f = match variables_raw(l)->Ok_0 {
        Some(v) => v,
        None => seq![],
    };
    lemma_add_names_ok(e, f);
    lemma_add_recipe_keys_ok(add_names(e, f), recipes_of(l));
}



/// Sorting keeps the elements, each as often.
proof fn lemma_isort_perm<T>(s: Seq<T>, lt: spec_fn(T, T) -> bool)
    ensures
        isort(s, lt).to_multiset() == s.to_multiset(),
    decreases s.len(),
{
    broadcast use vstd::seq_lib::group_to_multiset_ensures;

    if s.len() > 0 {
        lemma_isort_perm(s.drop_last(), lt);
        let t = isort(s.drop_last(), lt);
        lemma_first_after_bounds(t, s.last(), lt);
        assert(s =~= s.drop_last().push(s.last()));
    }
}

/// Two sequences, each sorted by a strict order that orders any two of
/// their different elements, that hold the same elements are equal.
proof fn lemma_sorted_unique<T>(a: Seq<T>, b: Seq<T>, lt: spec_fn(T, T) -> bool)
    requires
        forall|x: T| !#[trigger] lt(x, x),
        forall|x: T, y: T, z: T| #[trigger] lt(x, y) && #[trigger] lt(y, z) ==> lt(x, z),
        forall|x: T, y: T| a.contains(x) && a.contains(y) && x != y ==> #[trigger] lt(x, y) || #[trigger] lt(y, x),
        forall|i: int, j: int| 0 <= i < j < a.len() ==> !lt(#[trigger] a[j], #[trigger] a[i]),
        forall|i: int, j: int| 0 <= i < j < b.len() ==> !lt(#[trigger] b[j], #[trigger] b[i]),
        a.to_multiset() == b.to_multiset(),
    ensures
        a == b,
    decreases a.len(),
{
    broadcast use vstd::seq_lib::group_to_multiset_ensures;

    if a.len() == 0 {
        assert(b.to_multiset().len() == 0);
        assert(b =~= a);
    } else {
        assert(a.to_multiset().len() == a.len() && b.to_multiset().len() == b.len());
        assert(b.len() == a.len());
        let x = a[0];
        let y = b[0];
        assert(a.contains(x));
        assert(b.to_multiset().count(x) > 0);
        assert(a.to_multiset().count(y) > 0);
        if x != y {
            let k = choose|k: int| 0 <= k < b.len() && b[k] == x;
            let m = choose|m: int| 0 <= m < a.len() && a[m] == y;
            assert(k > 0 && m > 0);
            assert(!lt(b[k], b[0]));
            assert(!lt(a[m], a[0]));
            assert(lt(x, y) || lt(y, x));
        }
        assert(a.remove(0) =~= a.drop_first());
        assert(b.remove(0) =~= b.drop_first());
        assert(a.drop_first().to_multiset() == b.drop_first().to_multiset());
        assert forall|u: T, v: T| a.drop_first().contains(u) && a.drop_first().contains(v) && u != v implies #[trigger] lt(u, v) || #[trigger] lt(v, u) by {
            let i = choose|i: int| 0 <= i < a.drop_first().len() && a.drop_first()[i] == u;
            let j = choose|j: int| 0 <= j < a.drop_first().len() && a.drop_first()[j] == v;
            assert(a[i + 1] == u && a[j + 1] == v);
            assert(a.contains(u) && a.contains(v));
        }
        assert forall|i: int, j: int| 0 <= i < j < a.drop_first().len() implies !lt(#[trigger] a.drop_first()[j], #[trigger] a.drop_first()[i]) by {
            assert(a.drop_first()[j] == a[j + 1] && a.drop_first()[i] == a[i + 1]);
        }
        assert forall|i: int, j: int| 0 <= i < j < b.drop_first().len() implies !lt(#[trigger] b.drop_first()[j], #[trigger] b.drop_first()[i]) by {
            assert(b.drop_first()[j] == b[j + 1] && b.drop_first()[i] == b[i + 1]);
        }
        lemma_sorted_unique(a.drop_first(), b.drop_first(), lt);
        assert(a =~= seq![x] + a.drop_first());
        assert(b =~= seq![y] + b.drop_first());
    }
}

/// Sorting keeps the elements.
proof fn lemma_isort_contains<T>(s: Seq<T>, lt: spec_fn(T, T) -> bool, x: T)
    ensures
        isort(s, lt).contains(x) <==> s.contains(x),
    decreases s.len(),
{
    if s.len() > 0 {
        lemma_isort_contains(s.drop_last(), lt, x);
        let t = isort(s.drop_last(), lt);
        lemma_first_after_bounds(t, s.last(), lt);
        let p = first_after(t, s.last(), lt);
        let u = t.insert(p, s.last());
        if u.contains(x) {
            let j = choose|j: int| 0 <= j < u.len() && u[j] == x;
            if j < p {
                assert(t[j] == x);
            } else if j > p {
                assert(t[j - 1] == x);
            }
            if t.contains(x) {
                let k = choose|k: int| 0 <= k < s.drop_last().len() && s.drop_last()[k] == x;
                assert(s[k] == x);
            } else {
                assert(x == s.last());
                assert(s[s.len() - 1] == x);
            }
        }
        if s.contains(x) {
            let j = choose|j: int| 0 <= j < s.len() && s[j] == x;
            if j < s.len() - 1 {
                assert(s.drop_last()[j] == x);
                let k = choose|k: int| 0 <= k < t.len() && t[k] == x;
                if k < p {
                    assert(u[k] == x);
                } else {
                    assert(u[k + 1] == x);
                }
            } else {
                assert(u[p] == x);
            }
        }
    }
}

/// `backfill` writes nothing when every recipe is already normalized.
proof fn lemma_backfill_none(l: LibraryV, rs: Seq<RecipeV>, list: Seq<Seq<char>>)
    requires
        forall|i: int| 0 <= i < rs.len() ==> normalized((#[trigger] rs[i]).values, list) == rs[i].values,
    ensures
        backfill(l, rs, list, None) == l,
    decreases rs.len(),
{
    if rs.len() > 0 {
        assert(normalized(rs[rs.len() - 1].values, list) == rs[rs.len() - 1].values);
        lemma_backfill_none(l, rs.drop_last(), list);
    }
}

/// The recipe a folder entry holds, if it holds one.
pub open spec fn entry_recipe(e: (Seq<char>, Option<Seq<char>>)) -> Option<RecipeV> {
    if is_yaml(e.0) && e.1 is Some && parse_recipe(e.1->0, e.0) is Some {
        parse_recipe(e.1->0, e.0)
    } else {
        None
    }
}

/// No two entries of a listing share a name.
pub open spec fn names_distinct(d: Seq<(Seq<char>, Option<Seq<char>>)>) -> bool {
    forall|i: int, j: int| 0 <= i < d.len() && 0 <= j < d.len() && i != j ==> (#[trigger] d[i]).0 != (#[trigger] d[j]).0
}

/// A recipe normalized to `list`.
pub open spec fn norm_recipe(r: RecipeV, list: Seq<Seq<char>>) -> RecipeV {
    RecipeV { values: normalized(r.values, list), ..r }
}

/// A folder entry as `migrate` leaves it: a recipe that is not yet
/// normalized is written normalized.
pub open spec fn fixed_entry(e: (Seq<char>, Option<Seq<char>>), list: Seq<Seq<char>>) -> (Seq<char>, Option<Seq<char>>) {
    match entry_recipe(e) {
        Some(r) => if normalized(r.values, list) != r.values {
            (e.0, Some(dump_doc(recipe_doc(norm_recipe(r, list)))))
        } else {
            e
        },
        None => e,
    }
}

/// The listing with the entries named in `done` fixed.
pub open spec fn fixed_listing(d: Seq<(Seq<char>, Option<Seq<char>>)>, list: Seq<Seq<char>>, done: Set<Seq<char>>) -> Seq<
    (Seq<char>, Option<Seq<char>>),
> {
    d.map_values(|e: (Seq<char>, Option<Seq<char>>)| if done.contains(e.0) { fixed_entry(e, list) } else { e })
}

/// The file names of recipes.
pub open spec fn file_names(rs: Seq<RecipeV>) -> Set<Seq<char>>
    decreases rs.len(),
{
    if rs.len() == 0 {
        Set::empty()
    } else {
        file_names(rs.drop_last()).insert(rs.last().file_name)
    }
}


proof fn lemma_loaded_entry(d: Seq<(Seq<char>, Option<Seq<char>>)>, r: RecipeV)
    requires
        loaded_recipes(d).contains(r),
    ensures
        exists|i: int| 0 <= i < d.len() && entry_recipe(#[trigger] d[i]) == Some(r) && d[i].0 == r.file_name,
    decreases d.len(),
{
    let pre = d.drop_last();
    let rest = loaded_recipes(pre);
    if rest.contains(r) {
        lemma_loaded_entry(pre, r);
        let i = choose|i: int| 0 <= i < pre.len() && entry_recipe(#[trigger] pre[i]) == Some(r) && pre[i].0 == r.file_name;
        assert(d[i] == pre[i]);
    } else {
        let k = choose|k: int| 0 <= k < loaded_recipes(d).len() && loaded_recipes(d)[k] == r;
        assert(entry_recipe(d.last()) is Some);
        assert(r == entry_recipe(d[d.len() - 1])->0);
    }
}

proof fn lemma_loaded_has(d: Seq<(Seq<char>, Option<Seq<char>>)>, i: int)
    requires
        0 <= i < d.len(),
        entry_recipe(d[i]) is Some,
    ensures
        loaded_recipes(d).contains(entry_recipe(d[i])->0),
    decreases d.len(),
{
    let pre = d.drop_last();
    if i < d.len() - 1 {
        assert(pre[i] == d[i]);
        lemma_loaded_has(pre, i);
        let rest = loaded_recipes(pre);
        let x = entry_recipe(d[i])->0;
        let k = choose|k: int| 0 <= k < rest.len() && rest[k] == x;
        if entry_recipe(d.last()) is Some {
            assert(loaded_recipes(d)[k] == x);
        } else {
            assert(loaded_recipes(d)[k] == x);
        }
    } else {
        let rest = loaded_recipes(pre);
        assert(loaded_recipes(d)[rest.len() as int] == entry_recipe(d[i])->0);
    }
}

proof fn lemma_file_names_has(rs: Seq<RecipeV>, r: RecipeV)
    requires
        rs.contains(r),
    ensures
        file_names(rs).contains(r.file_name),
    decreases rs.len(),
{
    if rs.len() > 0 && rs.last() != r {
        let j = choose|j: int| 0 <= j < rs.len() && rs[j] == r;
        assert(rs.drop_last()[j] == r);
        lemma_file_names_has(rs.drop_last(), r);
    }
}



/// `backfill` over recipes of the listing fixes exactly their entries and
/// touches nothing but the recipes folder and the queued writes.
proof fn lemma_backfill_listing(l: LibraryV, rs: Seq<RecipeV>, list: Seq<Seq<char>>)
    requires
        names_distinct(l.recipes),
        forall|k: int| 0 <= k < rs.len() ==> loaded_recipes(l.recipes).contains(#[trigger] rs[k]),
    ensures
        backfill(l, rs, list, None).recipes == fixed_listing(l.recipes, list, file_names(rs)),
        backfill(l, rs, list, None).root == l.root,
        backfill(l, rs, list, None).prompts == l.prompts,
        backfill(l, rs, list, None).order == l.order,
        backfill(l, rs, list, None).variables == l.variables,
        backfill(l, rs, list, None).open_error == l.open_error,
    decreases rs.len(),
{
    let d = l.recipes;
    if rs.len() == 0 {
        assert(fixed_listing(d, list, Set::empty()) =~= d);
    } else {
        let pre = rs.drop_last();
        assert forall|k: int| 0 <= k < pre.len() implies loaded_recipes(l.recipes).contains(#[trigger] pre[k]) by {
            assert(pre[k] == rs[k]);
        }
        lemma_backfill_listing(l, pre, list);
        let l2 = backfill(l, pre, list, None);
        let done = file_names(pre);
        let g = fixed_listing(d, list, done);
        let r = rs.last();
        let n = r.file_name;
        assert(loaded_recipes(d).contains(rs[rs.len() - 1]));
        lemma_loaded_entry(d, r);
        let i = choose|i: int| 0 <= i < d.len() && entry_recipe(#[trigger] d[i]) == Some(r) && d[i].0 == r.file_name;
        let g2 = fixed_listing(d, list, done.insert(n));
        assert(file_names(rs) == done.insert(n));
        if normalized(r.values, list) == r.values {
            assert(g2 =~= g) by {
                assert forall|j: int| 0 <= j < d.len() implies g2[j] == g[j] by {
                    if d[j].0 == n {
                        assert(j == i);
                    }
                }
            }
        } else {
            let nr = norm_recipe(r, list);
            let text = dump_doc(recipe_doc(nr));
            assert forall|j: int| 0 <= j < g.len() implies (#[trigger] g[j]).0 == d[j].0 by {}
            lemma_file_pos(g, n);
            match file_pos(g, n) {
                Some(p) => {
                    assert(g[p].0 == d[p].0);
                    assert(p == i);
                    assert(put_file(g, n, text) =~= g2) by {
                        assert forall|j: int| 0 <= j < d.len() implies put_file(g, n, text)[j] == g2[j] by {
                            if d[j].0 == n {
                                assert(j == i);
                            }
                        }
                    }
                },
                None => {
                    assert(g[i].0 != n);
                },
            }
        }
    }
}

/// The listing with every recipe entry fixed, once every recipe has been
/// through `backfill`.
proof fn lemma_fixed_all(d: Seq<(Seq<char>, Option<Seq<char>>)>, list: Seq<Seq<char>>, rs: Seq<RecipeV>)
    requires
        forall|r: RecipeV| #[trigger] loaded_recipes(d).contains(r) ==> rs.contains(r),
    ensures
        fixed_listing(d, list, file_names(rs)) == d.map_values(
            |e: (Seq<char>, Option<Seq<char>>)| fixed_entry(e, list),
        ),
{
    let fe = |e: (Seq<char>, Option<Seq<char>>)| fixed_entry(e, list);
    assert forall|j: int| 0 <= j < d.len() implies fixed_listing(d, list, file_names(rs))[j] == d.map_values(fe)[j] by {
        if let Some(r) = entry_recipe(d[j]) {
            lemma_loaded_has(d, j);
            lemma_file_names_has(rs, r);
        }
    }
    assert(fixed_listing(d, list, file_names(rs)) =~= d.map_values(fe));
}

/// After `migrate`, every recipe of the library is normalized to the list
/// and the list holds each of its valid names.
proof fn lemma_migrated_recipes(l: LibraryV)
    requires
        migrate_spec(l).0 is Ok,
        names_distinct(l.recipes),
    ensures
        ({
            let list = reconciled(l)->Ok_0;
            let l1 = migrate_spec(l).1;
            &&& l1.recipes == l.recipes.map_values(|e: (Seq<char>, Option<Seq<char>>)| fixed_entry(e, list))
            &&& forall|i: int|
                0 <= i < recipes_of(l1).len() ==> normalized((#[trigger] recipes_of(l1)[i]).values, list)
                    == recipes_of(l1)[i].values
            &&& forall|i: int, x: Seq<char>|
                0 <= i < recipes_of(l1).len() && is_name(x) && #[trigger] value_of(recipes_of(l1)[i].values, x)
                    is Some ==> list.contains(x)
        }),
{
    let list = reconciled(l)->Ok_0;
    let d = l.recipes;
    let lt = |a: RecipeV, b: RecipeV| recipe_lt(a, b);
    let rs = recipes_of(l);
    let fe = |e: (Seq<char>, Option<Seq<char>>)| fixed_entry(e, list);
    lemma_reconciled_ok(l);
    lemma_reconciled_covers(l);
    assert forall|r: RecipeV| #[trigger] loaded_recipes(d).contains(r) implies rs.contains(r) by {
        lemma_isort_contains(loaded_recipes(d), lt, r);
    }
    assert forall|k: int| 0 <= k < rs.len() implies loaded_recipes(d).contains(#[trigger] rs[k]) by {
        assert(rs.contains(rs[k]));
        lemma_isort_contains(loaded_recipes(d), lt, rs[k]);
    }
    lemma_backfill_listing(l, rs, list);
    lemma_fixed_all(d, list, rs);
    let l1 = migrate_spec(l).1;
    let f = d.map_values(fe);
    assert(l1.recipes == f);
    let r1 = recipes_of(l1);
    assert forall|i: int| 0 <= i < r1.len() implies normalized((#[trigger] r1[i]).values, list) == r1[i].values
        && forall|x: Seq<char>| is_name(x) && #[trigger] value_of(r1[i].values, x) is Some ==> list.contains(x) by {
        let r2 = r1[i];
        assert(r1.contains(r2));
        lemma_isort_contains(loaded_recipes(f), lt, r2);
        lemma_loaded_entry(f, r2);
        let j = choose|j: int| 0 <= j < f.len() && entry_recipe(#[trigger] f[j]) == Some(r2) && f[j].0 == r2.file_name;
        assert(f[j] == fixed_entry(d[j], list));
        match entry_recipe(d[j]) {
            Some(r) => {
                lemma_loaded_has(d, j);
                assert(rs.contains(r));
                crate::model::lemma_parsed_recipe_keys(d[j].1->0, d[j].0);
                if normalized(r.values, list) != r.values {
                    assert(entry_recipe(f[j]) == parse_recipe(dump_doc(recipe_doc(norm_recipe(r, list))), d[j].0));
                    lemma_fixed_reads_normalized(l, list, r, r2, d[j].0);
                } else {
                    assert(r2 == r);
                    let q = choose|q: int| 0 <= q < rs.len() && rs[q] == r;
                    assert forall|x: Seq<char>| is_name(x) && #[trigger] value_of(r2.values, x) is Some implies list.contains(x) by {
                        assert(value_of(recipes_of(l)[q].values, x) is Some);
                    }
                }
            },
            None => {
                assert(false);
            },
        }
    }
}

/// `migrate` is idempotent: on the library it leaves behind, a second
/// `migrate` answers the same list and writes nothing (for every library
/// whose folder lists each name once).
pub proof fn lemma_migrate_idempotent(l: LibraryV)
    requires
        migrate_spec(l).0 is Ok,
        names_distinct(l.recipes),
    ensures
        migrate_spec(migrate_spec(l).1) == migrate_spec(l),
{
    let list = reconciled(l)->Ok_0;
    let file = variables_raw(l)->Ok_0;
    let rs = recipes_of(l);
    lemma_reconciled_ok(l);
    lemma_migrated_recipes(l);
    assert forall|k: int| 0 <= k < rs.len() implies loaded_recipes(l.recipes).contains(#[trigger] rs[k]) by {
        assert(rs.contains(rs[k]));
        lemma_isort_contains(loaded_recipes(l.recipes), |a: RecipeV, b: RecipeV| recipe_lt(a, b), rs[k]);
    }
    lemma_backfill_listing(l, rs, list);
    lemma_backfill_keeps_errors(l, rs, list, None);
    let l2 = backfill(l, rs, list, None);
    let l1 = migrate_spec(l).1;
    assert(l1.recipes_error is None);
    // the list file reads back as the list
    if file == Some(list) {
        assert(l1 == l2);
        assert(variables_raw(l1) == variables_raw(l));
    } else {
        lemma_variables_read_back(l2, list);
    }
    assert(variables_raw(l1) == Ok::<Option<Seq<Seq<char>>>, ErrV>(Some(list)));
    // no recipe adds a name to the list
    lemma_add_names_self(list);
    lemma_add_recipe_keys_id(list, recipes_of(l1));
    assert(reconciled(l1) == Ok::<Seq<Seq<char>>, ErrV>(list));
    // every recipe is already normalized
    lemma_backfill_none(l1, recipes_of(l1), list);
}

// ---------- the listings are sorted ----------

proof fn lemma_first_after_props<T>(t: Seq<T>, x: T, lt: spec_fn(T, T) -> bool)
    ensures
        forall|k: int| 0 <= k < first_after(t, x, lt) ==> !lt(x, #[trigger] t[k]),
        first_after(t, x, lt) < t.len() ==> lt(x, t[first_after(t, x, lt)]),
    decreases t.len(),
{
    lemma_first_after_bounds(t, x, lt);
    if t.len() > 0 && !lt(x, t[0]) {
        lemma_first_after_props(t.drop_first(), x, lt);
        let p2 = first_after(t.drop_first(), x, lt);
        lemma_first_after_bounds(t.drop_first(), x, lt);
        if p2 < t.drop_first().len() {
            assert(t[p2 + 1] == t.drop_first()[p2]);
        }
        assert forall|k: int| 0 <= k < first_after(t, x, lt) implies !lt(x, #[trigger] t[k]) by {
            if k > 0 {
                assert(t[k] == t.drop_first()[k - 1]);
            }
        }
    }
}

/// Insertion sort with a strict order gives a sorted sequence: no element
/// sorts before one in front of it.
pub proof fn lemma_isort_sorted<T>(s: Seq<T>, lt: spec_fn(T, T) -> bool)
    requires
        forall|x: T| !#[trigger] lt(x, x),
        forall|x: T, y: T, z: T| #[trigger] lt(x, y) && #[trigger] lt(y, z) ==> lt(x, z),
    ensures
        forall|i: int, j: int| 0 <= i < j < isort(s, lt).len() ==> !lt(#[trigger] isort(s, lt)[j], #[trigger] isort(s, lt)[i]),
    decreases s.len(),
{
    if s.len() > 0 {
        lemma_isort_sorted(s.drop_last(), lt);
        let t = isort(s.drop_last(), lt);
        let x = s.last();
        lemma_first_after_props(t, x, lt);
        lemma_first_after_bounds(t, x, lt);
        let p = first_after(t, x, lt);
        let u = t.insert(p, x);
        assert(isort(s, lt) == u);
        assert forall|i: int, j: int| 0 <= i < j < u.len() implies !lt(#[trigger] u[j], #[trigger] u[i]) by {
            if i != p && j != p {
                let i2 = if i < p { i } else { i - 1 };
                let j2 = if j < p { j } else { j - 1 };
                assert(u[i] == t[i2] && u[j] == t[j2]);
            } else if i == p {
                assert(u[j] == t[j - 1]);
                if lt(t[j - 1], x) {
                    assert(lt(x, t[p]));
                    if j - 1 > p {
                        assert(!lt(t[j - 1], t[p]));
                    }
                }
            } else {
                assert(u[i] == t[i]);
                assert(!lt(x, t[i]));
            }
        }
    }
}

proof fn lemma_recipe_lt_order()
    ensures
        forall|x: RecipeV| !#[trigger] recipe_lt(x, x),
        forall|x: RecipeV, y: RecipeV, z: RecipeV|
            #[trigger] recipe_lt(x, y) && #[trigger] recipe_lt(y, z) ==> recipe_lt(x, z),
{
    assert forall|x: RecipeV| !#[trigger] recipe_lt(x, x) by {
        crate::json::lemma_key_lt_irrefl(lowercase(x.name));
        crate::json::lemma_key_lt_irrefl(x.id);
    }
    assert forall|x: RecipeV, y: RecipeV, z: RecipeV|
        #[trigger] recipe_lt(x, y) && #[trigger] recipe_lt(y, z) implies recipe_lt(x, z) by {
        let (a, b, c) = (lowercase(x.name), lowercase(y.name), lowercase(z.name));
        if key_lt(a, b) && key_lt(b, c) {
            crate::json::lemma_key_lt_trans(a, b, c);
        } else if !key_lt(a, b) && !key_lt(b, c) {
            crate::json::lemma_key_lt_trans(x.id, y.id, z.id);
        }
    }
}

proof fn lemma_prompt_lt_order(o: Seq<Seq<char>>)
    ensures
        forall|x: PromptV| !#[trigger] prompt_lt(o, x, x),
        forall|x: PromptV, y: PromptV, z: PromptV|
            #[trigger] prompt_lt(o, x, y) && #[trigger] prompt_lt(o, y, z) ==> prompt_lt(o, x, z),
{
    assert forall|x: PromptV| !#[trigger] prompt_lt(o, x, x) by {
        crate::json::lemma_key_lt_irrefl(lowercase(x.title));
        crate::json::lemma_key_lt_irrefl(x.id);
    }
    assert forall|x: PromptV, y: PromptV, z: PromptV|
        #[trigger] prompt_lt(o, x, y) && #[trigger] prompt_lt(o, y, z) implies prompt_lt(o, x, z) by {
        if pos_in(o, x.id) is None && pos_in(o, y.id) is None && pos_in(o, z.id) is None {
            let (a, b, c) = (lowercase(x.title), lowercase(y.title), lowercase(z.title));
            if key_lt(a, b) && key_lt(b, c) {
                crate::json::lemma_key_lt_trans(a, b, c);
            } else if !key_lt(a, b) && !key_lt(b, c) {
                crate::json::lemma_key_lt_trans(x.id, y.id, z.id);
            }
        }
    }
}

/// `list_recipes` lists the recipes by lower-cased name, then id: no
/// recipe sorts before one listed in front of it.
pub proof fn lemma_recipes_sorted(l: LibraryV)
    ensures
        forall|i: int, j: int|
            0 <= i < j < recipes_of(l).len() ==> !recipe_lt(#[trigger] recipes_of(l)[j], #[trigger] recipes_of(l)[i]),
{
    lemma_recipe_lt_order();
    let lt = |a: RecipeV, b: RecipeV| recipe_lt(a, b);
    lemma_isort_sorted(loaded_recipes(l.recipes), lt);
}

/// `list_prompts` lists the prompts in `order.json` order, the prompts it
/// does not list after them by lower-cased title, then id.
pub proof fn lemma_prompts_sorted(l: LibraryV)
    requires
        prompts_of(l) is Ok,
    ensures
        forall|i: int, j: int|
            0 <= i < j < (prompts_of(l)->Ok_0).len() ==> !prompt_lt(
                order_of(l)->Ok_0,
                #[trigger] (prompts_of(l)->Ok_0)[j],
                #[trigger] (prompts_of(l)->Ok_0)[i],
            ),
        forall|i: int, j: int|
            0 <= i < j < (prompts_of(l)->Ok_0).len() && pos_in(order_of(l)->Ok_0, #[trigger] (prompts_of(l)->Ok_0)[j].id)
                is Some ==> pos_in(order_of(l)->Ok_0, #[trigger] (prompts_of(l)->Ok_0)[i].id) is Some,
{
    let o = order_of(l)->Ok_0;
    lemma_prompt_lt_order(o);
    let lt = |a: PromptV, b: PromptV| prompt_lt(o, a, b);
    lemma_isort_sorted(loaded_prompts(l.prompts), lt);
    let ps = prompts_of(l)->Ok_0;
    assert forall|i: int, j: int|
        0 <= i < j < ps.len() && pos_in(o, #[trigger] ps[j].id) is Some implies pos_in(o, #[trigger] ps[i].id) is Some by {
        assert(!lt(ps[j], ps[i]));
    }
}

proof fn lemma_value_of_first(v: Seq<(Seq<char>, Seq<char>)>, j: int)
    requires
        0 <= j < v.len(),
        forall|k: int| 0 <= k < j ==> (#[trigger] v[k]).0 != v[j].0,
    ensures
        value_of(v, v[j].0) == Some(v[j].1),
    decreases j,
{
    if j > 0 {
        assert forall|k: int| 0 <= k < j - 1 implies (#[trigger] v.drop_first()[k]).0 != v.drop_first()[j - 1].0 by {
            assert(v.drop_first()[k] == v[k + 1]);
        }
        lemma_value_of_first(v.drop_first(), j - 1);
        assert(v.drop_first()[j - 1] == v[j]);
        assert(v[0].0 != v[j].0);
    }
}

proof fn lemma_extra_split(v: Seq<(Seq<char>, Seq<char>)>, l: Seq<Seq<char>>, n: int)
    requires
        0 <= n <= v.len(),
        forall|k: int| 0 <= k < n ==> l.contains(#[trigger] v[k].0),
        forall|k: int| n <= k < v.len() ==> !l.contains(#[trigger] v[k].0),
    ensures
        extra_pairs(v, l) == v.skip(n),
    decreases v.len(),
{
    if v.len() == n {
        lemma_extra_of_known(v, l);
        assert(v.skip(n) =~= Seq::<(Seq<char>, Seq<char>)>::empty());
    } else {
        let pre = v.drop_last();
        assert(!l.contains(v[v.len() - 1].0));
        lemma_extra_split(pre, l, n);
        assert(pre.skip(n).push(v.last()) =~= v.skip(n));
    }
}

/// Which values a recipe's normalization keeps depends on its names
/// alone: names that are the list, then names the list does not hold, make
/// the values normalized already.
proof fn lemma_normalized_by_keys(v: Seq<(Seq<char>, Seq<char>)>, l: Seq<Seq<char>>)
    requires
        l.no_duplicates(),
        l.len() <= v.len(),
        forall|k: int| 0 <= k < l.len() ==> (#[trigger] v[k]).0 == l[k],
        forall|k: int| l.len() <= k < v.len() ==> !l.contains(#[trigger] v[k].0),
    ensures
        normalized(v, l) == v,
{
    let f = |m: Seq<char>| (m, or_empty(value_of(v, m)));
    let n = l.len() as int;
    assert forall|j: int| 0 <= j < n implies l.map_values(f)[j] == v[j] by {
        assert(v[j].0 == l[j]);
        assert forall|k: int| 0 <= k < j implies (#[trigger] v[k]).0 != v[j].0 by {
            assert(v[k].0 == l[k]);
        }
        lemma_value_of_first(v, j);
    }
    assert forall|k: int| 0 <= k < n implies l.contains(#[trigger] v[k].0) by {
        assert(v[k].0 == l[k]);
    }
    lemma_extra_split(v, l, n);
    assert(l.map_values(f) + v.skip(n) =~= v);
}

/// The names of a normalized recipe: the list, then names it does not hold.
proof fn lemma_normalized_names(vals: Seq<(Seq<char>, Seq<char>)>, l: Seq<Seq<char>>)
    ensures
        normalized(vals, l).len() >= l.len(),
        forall|k: int| 0 <= k < l.len() ==> (#[trigger] normalized(vals, l)[k]).0 == l[k],
        forall|k: int| l.len() <= k < normalized(vals, l).len() ==> !l.contains(#[trigger] normalized(vals, l)[k].0),
{
    lemma_extra_idem(vals, l);
    let e = extra_pairs(vals, l);
    let nv = normalized(vals, l);
    assert forall|k: int| l.len() <= k < nv.len() implies !l.contains(#[trigger] nv[k].0) by {
        assert(nv[k] == e[k - l.len()]);
    }
}

/// What a recipe that `migrate` wrote reads back as: nothing, or a recipe
/// that is normalized to the list and whose valid names the list holds.
proof fn lemma_fixed_reads_normalized(l: LibraryV, list: Seq<Seq<char>>, r: RecipeV, r2: RecipeV, name: Seq<char>)
    requires
        reconciled(l) == Ok::<Seq<Seq<char>>, ErrV>(list),
        recipes_of(l).contains(r),
        parse_recipe(dump_doc(recipe_doc(norm_recipe(r, list))), name) == Some(r2),
        forall|j: int| 0 <= j < r.values.len() ==> crate::yamlish::is_key((#[trigger] r.values[j]).0),
    ensures
        normalized(r2.values, list) == r2.values,
        forall|x: Seq<char>| is_name(x) && #[trigger] value_of(r2.values, x) is Some ==> list.contains(x),
{
    lemma_reconciled_ok(l);
    lemma_reconciled_covers(l);
    let nv = normalized(r.values, list);
    lemma_normalized_names(r.values, list);
    lemma_normalized_keys(r.values, list);
    assert forall|j: int| 0 <= j < nv.len() implies crate::yamlish::is_key((#[trigger] nv[j]).0) by {
        if j < list.len() {
            assert(is_name(list[j]));
            assert forall|t: int| 0 <= t < nv[j].0.len() implies #[trigger] crate::yamlish::is_key_char(nv[j].0[t]) by {
                assert(crate::render::is_name_char(list[j][t]));
            }
        } else {
            lemma_extra_sub(r.values, list);
            let k = choose|k: int| 0 <= k < r.values.len() && r.values[k] == extra_pairs(r.values, list)[j - list.len()];
            assert(nv[j] == extra_pairs(r.values, list)[j - list.len()]);
            assert(crate::yamlish::is_key(r.values[k].0));
        }
    }
    crate::model::lemma_recipe_file_keys(norm_recipe(r, list), name);
    let v2 = r2.values;
    assert(crate::yamlish::pair_keys(v2) == crate::yamlish::pair_keys(nv));
    assert(v2.len() == nv.len()) by {
        assert(crate::yamlish::pair_keys(v2).len() == v2.len());
    }
    assert forall|k: int| 0 <= k < v2.len() implies (#[trigger] v2[k]).0 == nv[k].0 by {
        assert(crate::yamlish::pair_keys(v2)[k] == v2[k].0);
        assert(crate::yamlish::pair_keys(nv)[k] == nv[k].0);
    }
    assert forall|k: int| list.len() <= k < v2.len() implies !list.contains(#[trigger] v2[k].0) by {
        assert(v2[k].0 == nv[k].0);
    }
    assert(list.no_duplicates());
    lemma_normalized_by_keys(v2, list);
    assert forall|x: Seq<char>| is_name(x) && #[trigger] value_of(v2, x) is Some implies list.contains(x) by {
        lemma_value_of_keys(v2, x);
        let j = choose|j: int| 0 <= j < keys(v2).len() && keys(v2)[j] == x;
        assert(v2[j].0 == x);
        if !list.contains(x) {
            assert(j >= list.len()) by {
                if j < list.len() {
                    assert(list[j] == x);
                }
            }
            assert(nv[j].0 == x);
            lemma_extra_sub(r.values, list);
            let k = choose|k: int| 0 <= k < r.values.len() && r.values[k] == extra_pairs(r.values, list)[j - list.len()];
            assert(nv[j] == extra_pairs(r.values, list)[j - list.len()]);
            assert(keys(r.values)[k] == x);
            lemma_value_of_keys(r.values, x);
            let i = choose|i: int| 0 <= i < recipes_of(l).len() && recipes_of(l)[i] == r;
            assert(value_of(recipes_of(l)[i].values, x) is Some);
        }
    }
}

/// After `migrate` every recipe holds every global variable (an empty
/// value where it had none), which is why an empty value counts as missing.
pub proof fn lemma_migrate_fills_recipes(l: LibraryV, i: int, n: Seq<char>)
    requires
        migrate_spec(l).0 is Ok,
        names_distinct(l.recipes),
        0 <= i < recipes_of(migrate_spec(l).1).len(),
        (migrate_spec(l).0->Ok_0).contains(n),
    ensures
        value_of(recipes_of(migrate_spec(l).1)[i].values, n) is Some,
{
    let list = reconciled(l)->Ok_0;
    lemma_migrated_recipes(l);
    let v = recipes_of(migrate_spec(l).1)[i].values;
    assert(normalized(v, list) == v);
    lemma_value_of_listed(list, v, extra_pairs(v, list), n);
}


// ---------- reading back a saved prompt ----------

/// The prompt a folder entry holds, if it is a readable prompt file.
pub open spec fn entry_prompt(e: (Seq<char>, Option<Seq<char>>)) -> Option<PromptV> {
    if is_md(e.0) && e.1 is Some && parse_markdown(e.1->0, e.0) is Some {
        parse_markdown(e.1->0, e.0)
    } else {
        None
    }
}

/// No two prompt files of a listing hold the same id.
pub open spec fn ids_once(d: Seq<(Seq<char>, Option<Seq<char>>)>) -> bool {
    forall|i: int, j: int|
        0 <= i < d.len() && 0 <= j < d.len() && i != j && (#[trigger] entry_prompt(d[i])) is Some && (
        #[trigger] entry_prompt(d[j])) is Some ==> entry_prompt(d[i])->0.id != entry_prompt(d[j])->0.id
}

/// A prompt whose file reads back as itself.
pub open spec fn prompt_reads_back(p: PromptV) -> bool {
    &&& crate::yamlish::safe_scalar(p.id)
    &&& crate::yamlish::safe_scalar(p.title)
    &&& crate::yamlish::safe_scalar(p.created)
    &&& crate::yamlish::safe_scalar(p.updated)
    &&& crate::yamlish::safe_scalar(or_empty(p.selected_recipe))
    &&& p.selected_recipe != Some(Seq::<char>::empty())
    &&& crate::model::no_crlf(p.content)
}

proof fn lemma_loaded_prompt_entry(d: Seq<(Seq<char>, Option<Seq<char>>)>, p: PromptV)
    requires
        loaded_prompts(d).contains(p),
    ensures
        exists|i: int| 0 <= i < d.len() && entry_prompt(#[trigger] d[i]) == Some(p) && d[i].0 == p.file_name,
    decreases d.len(),
{
    let pre = d.drop_last();
    let rest = loaded_prompts(pre);
    if rest.contains(p) {
        lemma_loaded_prompt_entry(pre, p);
        let i = choose|i: int| 0 <= i < pre.len() && entry_prompt(#[trigger] pre[i]) == Some(p) && pre[i].0 == p.file_name;
        assert(d[i] == pre[i]);
    } else {
        let k = choose|k: int| 0 <= k < loaded_prompts(d).len() && loaded_prompts(d)[k] == p;
        assert(entry_prompt(d.last()) is Some);
        assert(p == entry_prompt(d[d.len() - 1])->0);
    }
}

proof fn lemma_loaded_prompt_has(d: Seq<(Seq<char>, Option<Seq<char>>)>, i: int)
    requires
        0 <= i < d.len(),
        entry_prompt(d[i]) is Some,
    ensures
        loaded_prompts(d).contains(entry_prompt(d[i])->0),
    decreases d.len(),
{
    let pre = d.drop_last();
    if i < d.len() - 1 {
        assert(pre[i] == d[i]);
        lemma_loaded_prompt_has(pre, i);
        let rest = loaded_prompts(pre);
        let x = entry_prompt(d[i])->0;
        let k = choose|k: int| 0 <= k < rest.len() && rest[k] == x;
        assert(loaded_prompts(d)[k] == x);
    } else {
        let rest = loaded_prompts(pre);
        assert(loaded_prompts(d)[rest.len() as int] == entry_prompt(d[i])->0);
    }
}

pub(crate) proof fn lemma_find_prompt_found(ps: Seq<PromptV>, id: Seq<char>)
    ensures
        find_prompt(ps, id) matches Some(p) ==> ps.contains(p) && p.id == id,
    decreases ps.len(),
{
    if ps.len() > 0 && ps[0].id != id {
        lemma_find_prompt_found(ps.drop_first(), id);
        if let Some(p) = find_prompt(ps, id) {
            let k = choose|k: int| 0 <= k < ps.drop_first().len() && ps.drop_first()[k] == p;
            assert(ps[k + 1] == p);
        }
    }
}

proof fn lemma_find_prompt_only(ps: Seq<PromptV>, q: PromptV)
    requires
        ps.contains(q),
        forall|x: PromptV| ps.contains(x) && x.id == q.id ==> x == q,
    ensures
        find_prompt(ps, q.id) == Some(q),
    decreases ps.len(),
{
    if ps[0].id != q.id {
        let k = choose|k: int| 0 <= k < ps.len() && ps[k] == q;
        assert(k > 0);
        assert(ps.drop_first()[k - 1] == q);
        assert forall|x: PromptV| ps.drop_first().contains(x) && x.id == q.id implies x == q by {
            let j = choose|j: int| 0 <= j < ps.drop_first().len() && ps.drop_first()[j] == x;
            assert(ps[j + 1] == x);
            assert(ps.contains(x));
        }
        lemma_find_prompt_only(ps.drop_first(), q);
    } else {
        assert(ps.contains(ps[0]));
    }
}

/// What `save_prompt` writes, `get_prompt` reads back: after a successful
/// save the prompt under its id is the saved prompt (in a folder that names
/// each file once and holds each prompt id once, for a prompt whose file
/// reads back as itself).
pub proof fn lemma_save_then_get(l: LibraryV, now: Seq<char>, u: PromptV)
    requires
        names_distinct(l.prompts),
        ids_once(l.prompts),
        save_prompt_spec(l, now, u).0 matches Ok(q) && prompt_reads_back(q),
    ensures
        prompt_by_id(save_prompt_spec(l, now, u).1, u.id) == save_prompt_spec(l, now, u).0,
{
    reveal(save_prompt_spec);
    let existing = prompt_by_id(l, u.id)->Ok_0;
    let q = saved_prompt(l, now, u, existing);
    let d = l.prompts;
    let o = order_of(l)->Ok_0;
    let lt = |a: PromptV, b: PromptV| prompt_lt(o, a, b);
    let ps = prompts_of(l)->Ok_0;
    lemma_find_prompt_found(ps, u.id);
    lemma_isort_contains(loaded_prompts(d), lt, existing);
    lemma_loaded_prompt_entry(d, existing);
    let m = choose|m: int| 0 <= m < d.len() && entry_prompt(#[trigger] d[m]) == Some(existing) && d[m].0 == existing.file_name;
    let name = q.file_name;
    lemma_file_pos(d, name);
    let i = file_pos(d, name)->0;
    assert(i == m);
    crate::model::lemma_prompt_file_reads_back(q);
    let d2 = put_file(d, name, markdown_of(q));
    assert(d2 == d.update(i, (name, Some(markdown_of(q)))));
    assert(entry_prompt(d2[i]) == Some(q));
    let l2 = wrote_prompt(l, q);
    assert(order_of(l2) == order_of(l));
    assert forall|k: int| 0 <= k < d2.len() && k != i && (#[trigger] entry_prompt(d2[k])) is Some implies entry_prompt(d2[k])->0.id != q.id by {
        assert(d2[k] == d[k]);
        assert(entry_prompt(d[i]) is Some);
    }
    lemma_only_prompt_found(d2, o, q, i);
}


proof fn lemma_last_dot_at(n: Seq<char>, i: int, p: int)
    requires
        0 <= p < i <= n.len(),
        n[p] == '.',
        forall|j: int| p < j < i ==> n[j] != '.',
    ensures
        last_dot(n, i) == Some(p),
    decreases i,
{
    if n[i - 1] != '.' {
        lemma_last_dot_at(n, i - 1, p);
    }
}

/// A new file's name carries the extension asked for.
proof fn lemma_candidate_ext(slug: Seq<char>, k: int, ext: Seq<char>)
    requires
        slug.len() > 0,
        forall|j: int| 0 <= j < ext.len() ==> ext[j] != '.',
    ensures
        extension(candidate(slug, k, ext)) == Some(ext),
{
    let c = candidate(slug, k, ext);
    let p = c.len() - ext.len() - 1;
    assert(c[p] == '.');
    assert forall|j: int| p < j < c.len() implies c[j] != '.' by {
        assert(c[j] == ext[j - p - 1]);
    }
    lemma_last_dot_at(c, c.len() as int, p);
    assert(p > 0);
    assert(c.skip(p + 1) =~= ext);
}

/// In a listing where only entry `i` holds a prompt with `p`'s id, the
/// listed prompt with that id is `p`, whatever the order.
proof fn lemma_only_prompt_found(d: Seq<(Seq<char>, Option<Seq<char>>)>, o: Seq<Seq<char>>, p: PromptV, i: int)
    requires
        0 <= i < d.len(),
        entry_prompt(d[i]) == Some(p),
        forall|k: int| 0 <= k < d.len() && k != i && (#[trigger] entry_prompt(d[k])) is Some ==> entry_prompt(d[k])->0.id != p.id,
    ensures
        find_prompt(isort(loaded_prompts(d), |a: PromptV, b: PromptV| prompt_lt(o, a, b)), p.id) == Some(p),
{
    let lt = |a: PromptV, b: PromptV| prompt_lt(o, a, b);
    lemma_loaded_prompt_has(d, i);
    let s2 = isort(loaded_prompts(d), lt);
    lemma_isort_contains(loaded_prompts(d), lt, p);
    assert forall|x: PromptV| s2.contains(x) && x.id == p.id implies x == p by {
        lemma_isort_contains(loaded_prompts(d), lt, x);
        lemma_loaded_prompt_entry(d, x);
        let k = choose|k: int| 0 <= k < d.len() && entry_prompt(#[trigger] d[k]) == Some(x) && d[k].0 == x.file_name;
    }
    lemma_find_prompt_only(s2, p);
}

/// The file name a new prompt gets: a free name with extension `md`.
proof fn lemma_new_prompt_name(d: Seq<(Seq<char>, Option<Seq<char>>)>, title: Seq<char>)
    ensures
        is_md(free_name(d, slug(title), "md"@)),
        file_pos(d, free_name(d, slug(title), "md"@)) is None,
{
    lemma_free_name_free(d, slug(title), "md"@);
    crate::util::lemma_slug_shape(title);
    reveal_strlit("md");
    lemma_candidate_ext(slug(title), free_from(d, slug(title), "md"@, 1), "md"@);
    assert("md"@ =~= seq!['m', 'd']);
}

/// What `create_prompt` writes: the new prompt file at the end of the
/// listing, and its id at the end of the order.
#[verifier::spinoff_prover]
proof fn lemma_created_listing(l: LibraryV, id: Seq<char>, now: Seq<char>, title: Seq<char>, content: Seq<char>)
    requires
        create_prompt_spec(l, id, now, title, content).0 is Ok,
    ensures
        is_md((create_prompt_spec(l, id, now, title, content).0->Ok_0).file_name),
        create_prompt_spec(l, id, now, title, content).1.prompts == l.prompts.push(
            (
                (create_prompt_spec(l, id, now, title, content).0->Ok_0).file_name,
                Some(markdown_of(create_prompt_spec(l, id, now, title, content).0->Ok_0)),
            ),
        ),
        order_of(create_prompt_spec(l, id, now, title, content).1) is Ok,
        (create_prompt_spec(l, id, now, title, content).0->Ok_0).id == id,
        create_prompt_spec(l, id, now, title, content).1.prompts_error == l.prompts_error,
{
    reveal(create_prompt_spec);
    let name = free_name(l.prompts, slug(title), "md"@);
    lemma_new_prompt_name(l.prompts, title);
    let p = new_prompt(id, now, title, content, name);
    let l2 = wrote_prompt(l, p);
    assert(l2.prompts == l.prompts.push((name, Some(markdown_of(p)))));
    let o = order_of(l2)->Ok_0;
    lemma_order_reads_back(l2, o.push(id));
}

/// What `create_prompt` writes, `get_prompt` reads back: after a
/// successful create the prompt under the new id is the created prompt
/// (when no prompt file holds that id yet, for a prompt whose file reads
/// back as itself).
pub proof fn lemma_create_then_get(l: LibraryV, id: Seq<char>, now: Seq<char>, title: Seq<char>, content: Seq<char>)
    requires
        l.prompts_error is None,
        forall|k: int| 0 <= k < l.prompts.len() && (#[trigger] entry_prompt(l.prompts[k])) is Some ==> entry_prompt(l.prompts[k])->0.id != id,
        create_prompt_spec(l, id, now, title, content).0 matches Ok(p) && prompt_reads_back(p),
    ensures
        prompt_by_id(create_prompt_spec(l, id, now, title, content).1, id) == create_prompt_spec(l, id, now, title, content).0,
{
    lemma_created_listing(l, id, now, title, content);
    let p = create_prompt_spec(l, id, now, title, content).0->Ok_0;
    let l3 = create_prompt_spec(l, id, now, title, content).1;
    let d = l.prompts;
    let d2 = l3.prompts;
    let i = d.len() as int;
    crate::model::lemma_prompt_file_reads_back(p);
    assert(entry_prompt(d2[i]) == Some(p));
    assert forall|k: int| 0 <= k < d2.len() && k != i && (#[trigger] entry_prompt(d2[k])) is Some implies entry_prompt(d2[k])->0.id != p.id by {
        assert(d2[k] == d[k]);
    }
    let o = order_of(l3)->Ok_0;
    lemma_only_prompt_found(d2, o, p, i);
}

// ---------- reading back a saved recipe ----------

/// No two recipe files of a listing hold the same id.
pub open spec fn recipe_ids_once(d: Seq<(Seq<char>, Option<Seq<char>>)>) -> bool {
    forall|i: int, j: int|
        0 <= i < d.len() && 0 <= j < d.len() && i != j && (#[trigger] entry_recipe(d[i])) is Some && (
        #[trigger] entry_recipe(d[j])) is Some ==> entry_recipe(d[i])->0.id != entry_recipe(d[j])->0.id
}

/// A recipe whose file reads back as itself.
pub open spec fn recipe_reads_back(r: RecipeV) -> bool {
    &&& crate::yamlish::safe_scalar(r.id)
    &&& crate::yamlish::safe_scalar(r.name)
    &&& crate::yamlish::safe_scalar(r.updated)
    &&& crate::yamlish::entries_ok(r.values)
}

proof fn lemma_add_all_known(list: Seq<Seq<char>>, names: Seq<Seq<char>>)
    requires
        forall|k: int| 0 <= k < names.len() ==> list.contains(#[trigger] names[k]),
    ensures
        add_all(list, names) == list,
    decreases names.len(),
{
    if names.len() > 0 {
        assert forall|k: int| 0 <= k < names.drop_last().len() implies list.contains(#[trigger] names.drop_last()[k]) by {
            assert(names.drop_last()[k] == names[k]);
        }
        lemma_add_all_known(list, names.drop_last());
        assert(list.contains(names[names.len() - 1]));
    }
}

pub(crate) proof fn lemma_find_recipe_found(rs: Seq<RecipeV>, id: Seq<char>)
    ensures
        find_recipe(rs, id) matches Some(r) ==> rs.contains(r) && r.id == id,
    decreases rs.len(),
{
    if rs.len() > 0 && rs[0].id != id {
        lemma_find_recipe_found(rs.drop_first(), id);
        if let Some(r) = find_recipe(rs, id) {
            let k = choose|k: int| 0 <= k < rs.drop_first().len() && rs.drop_first()[k] == r;
            assert(rs[k + 1] == r);
        }
    }
}

proof fn lemma_find_recipe_only(rs: Seq<RecipeV>, q: RecipeV)
    requires
        rs.contains(q),
        forall|x: RecipeV| rs.contains(x) && x.id == q.id ==> x == q,
    ensures
        find_recipe(rs, q.id) == Some(q),
    decreases rs.len(),
{
    if rs[0].id != q.id {
        let k = choose|k: int| 0 <= k < rs.len() && rs[k] == q;
        assert(k > 0);
        assert(rs.drop_first()[k - 1] == q);
        assert forall|x: RecipeV| rs.drop_first().contains(x) && x.id == q.id implies x == q by {
            let j = choose|j: int| 0 <= j < rs.drop_first().len() && rs.drop_first()[j] == x;
            assert(rs[j + 1] == x);
            assert(rs.contains(x));
        }
        lemma_find_recipe_only(rs.drop_first(), q);
    } else {
        assert(rs.contains(rs[0]));
    }
}

/// The listing names each file once, holds `r` in its own file, and no
/// other recipe file holds its id.
pub open spec fn holds_only(d: Seq<(Seq<char>, Option<Seq<char>>)>, r: RecipeV) -> bool {
    &&& names_distinct(d)
    &&& exists|i: int| 0 <= i < d.len() && d[i].0 == r.file_name && #[trigger] entry_recipe(d[i]) == Some(r)
    &&& forall|j: int|
        0 <= j < d.len() && (#[trigger] entry_recipe(d[j])) is Some && entry_recipe(d[j])->0.id == r.id
            ==> entry_recipe(d[j]) == Some(r)
}

proof fn lemma_holds_only_found(d: Seq<(Seq<char>, Option<Seq<char>>)>, r: RecipeV)
    requires
        holds_only(d, r),
    ensures
        find_recipe(isort(loaded_recipes(d), |a: RecipeV, b: RecipeV| recipe_lt(a, b)), r.id) == Some(r),
{
    let lt = |a: RecipeV, b: RecipeV| recipe_lt(a, b);
    let i = choose|i: int| 0 <= i < d.len() && d[i].0 == r.file_name && #[trigger] entry_recipe(d[i]) == Some(r);
    lemma_loaded_has(d, i);
    let s2 = isort(loaded_recipes(d), lt);
    lemma_isort_contains(loaded_recipes(d), lt, r);
    assert forall|x: RecipeV| s2.contains(x) && x.id == r.id implies x == r by {
        lemma_isort_contains(loaded_recipes(d), lt, x);
        lemma_loaded_entry(d, x);
        let k = choose|k: int| 0 <= k < d.len() && entry_recipe(#[trigger] d[k]) == Some(x) && d[k].0 == x.file_name;
        assert(entry_recipe(d[k]) is Some);
    }
    lemma_find_recipe_only(s2, r);
}

/// Writing another recipe, one whose file reads back, to another file keeps
/// `r` the only recipe with its id.
proof fn lemma_put_keeps(d: Seq<(Seq<char>, Option<Seq<char>>)>, r: RecipeV, x: RecipeV)
    requires
        holds_only(d, r),
        x.file_name != r.file_name,
        x.id != r.id,
        recipe_reads_back(x),
    ensures
        holds_only(put_file(d, x.file_name, dump_doc(recipe_doc(x))), r),
{
    let name = x.file_name;
    let text = dump_doc(recipe_doc(x));
    let d2 = put_file(d, name, text);
    lemma_file_pos(d, name);
    crate::model::lemma_recipe_file_reads_back(x);
    let i = choose|i: int| 0 <= i < d.len() && d[i].0 == r.file_name && #[trigger] entry_recipe(d[i]) == Some(r);
    match file_pos(d, name) {
        Some(q) => {
            assert(q != i);
            assert(d2[i] == d[i]);
            assert(entry_recipe(d2[i]) == Some(r));
            assert forall|a: int, b: int| 0 <= a < d2.len() && 0 <= b < d2.len() && a != b implies (#[trigger] d2[a]).0
                != (#[trigger] d2[b]).0 by {
                assert(d2[a].0 == d[a].0 && d2[b].0 == d[b].0);
            }
            assert forall|j: int|
                0 <= j < d2.len() && (#[trigger] entry_recipe(d2[j])) is Some && entry_recipe(d2[j])->0.id == r.id implies
                entry_recipe(d2[j]) == Some(r) by {
                if j == q {
                    assert(d2[j] == (name, Some(text)));
                    assert(entry_recipe(d2[j]) == Some(x));
                } else {
                    assert(d2[j] == d[j]);
                }
            }
        },
        None => {
            assert(d2 == d.push((name, Some(text))));
            assert(d2[i] == d[i]);
            assert(entry_recipe(d2[i]) == Some(r));
            assert forall|a: int, b: int| 0 <= a < d2.len() && 0 <= b < d2.len() && a != b implies (#[trigger] d2[a]).0
                != (#[trigger] d2[b]).0 by {
                if a < d.len() && b < d.len() {
                    assert(d2[a] == d[a] && d2[b] == d[b]);
                } else if a < d.len() {
                    assert(d2[a] == d[a]);
                } else {
                    assert(d2[b] == d[b]);
                }
            }
            assert forall|j: int|
                0 <= j < d2.len() && (#[trigger] entry_recipe(d2[j])) is Some && entry_recipe(d2[j])->0.id == r.id implies
                entry_recipe(d2[j]) == Some(r) by {
                if j == d.len() {
                    assert(entry_recipe(d2[j]) == Some(x));
                } else {
                    assert(d2[j] == d[j]);
                }
            }
        },
    }
}

/// Bringing other recipes up to the global list keeps `r` the only recipe
/// with its id, when each rewritten recipe lives in another file and reads
/// back as itself.
proof fn lemma_backfill_keeps(l: LibraryV, rs: Seq<RecipeV>, list: Seq<Seq<char>>, r: RecipeV)
    requires
        holds_only(l.recipes, r),
        forall|k: int|
            0 <= k < rs.len() && (#[trigger] rs[k]).id != r.id ==> rs[k].file_name != r.file_name && recipe_reads_back(
                norm_recipe(rs[k], list),
            ),
    ensures
        holds_only(backfill(l, rs, list, Some(r.id)).recipes, r),
    decreases rs.len(),
{
    if rs.len() > 0 {
        let pre = rs.drop_last();
        assert forall|k: int| 0 <= k < pre.len() && (#[trigger] pre[k]).id != r.id implies pre[k].file_name
            != r.file_name && recipe_reads_back(norm_recipe(pre[k], list)) by {
            assert(pre[k] == rs[k]);
        }
        lemma_backfill_keeps(l, pre, list, r);
        let x = rs.last();
        assert(x == rs[rs.len() - 1]);
        let l2 = backfill(l, pre, list, Some(r.id));
        if !(Some(r.id) == Some(x.id) || normalized(x.values, list) == x.values) {
            lemma_put_keeps(l2.recipes, r, norm_recipe(x, list));
        }
    }
}

/// What `save_recipe` writes, `get_recipe` reads back: the recipe under its
/// id is then the saved recipe (in a folder that names each file once and
/// holds each recipe id once, for a recipe whose file reads back as itself,
/// and where each other recipe that the save brings up to the grown
/// variable list reads back as itself too).
pub proof fn lemma_save_recipe_then_get(l: LibraryV, now: Seq<char>, u: RecipeV)
    requires
        names_distinct(l.recipes),
        recipe_ids_once(l.recipes),
        save_recipe_spec(l, now, u).0 matches Ok(r) && recipe_reads_back(r),
        forall|j: int|
            0 <= j < l.recipes.len() && (#[trigger] entry_recipe(l.recipes[j])) is Some && entry_recipe(
                l.recipes[j],
            )->0.id != u.id ==> recipe_reads_back(
                norm_recipe(entry_recipe(l.recipes[j])->0, add_all(reconciled(l)->Ok_0, keys(u.values))),
            ),
    ensures
        recipe_by_id(save_recipe_spec(l, now, u).1, u.id) == save_recipe_spec(l, now, u).0,
{
    lemma_recipe_ops_keep_errors(l, now, u, u.id, u.name);
    reveal(save_recipe_spec);
    let list0 = reconciled(l)->Ok_0;
    let list = add_all(list0, keys(u.values));
    let existing = recipe_by_id(l, u.id)->Ok_0;
    let r = save_recipe_spec(l, now, u).0->Ok_0;
    let d = l.recipes;
    let lt = |a: RecipeV, b: RecipeV| recipe_lt(a, b);
    lemma_find_recipe_found(recipes_of(l), u.id);
    lemma_isort_contains(loaded_recipes(d), lt, existing);
    lemma_loaded_entry(d, existing);
    let m = choose|m: int| 0 <= m < d.len() && entry_recipe(#[trigger] d[m]) == Some(existing) && d[m].0 == existing.file_name;
    let name = r.file_name;
    lemma_file_pos(d, name);
    let i = file_pos(d, name)->0;
    assert(i == m);
    crate::model::lemma_recipe_file_reads_back(r);
    let d2 = put_file(d, name, dump_doc(recipe_doc(r)));
    assert(d2 == d.update(i, (name, Some(dump_doc(recipe_doc(r))))));
    assert(entry_recipe(d2[i]) == Some(r));
    let l2 = wrote_recipe(l, r);
    assert forall|a: int, b: int| 0 <= a < d2.len() && 0 <= b < d2.len() && a != b implies (#[trigger] d2[a]).0
        != (#[trigger] d2[b]).0 by {
        assert(d2[a].0 == d[a].0 && d2[b].0 == d[b].0);
    }
    assert forall|j: int|
        0 <= j < d2.len() && (#[trigger] entry_recipe(d2[j])) is Some && entry_recipe(d2[j])->0.id == r.id implies
        entry_recipe(d2[j]) == Some(r) by {
        if j != i {
            assert(d2[j] == d[j]);
            assert(entry_recipe(d[j]) is Some && entry_recipe(d[i]) is Some);
        }
    }
    assert(holds_only(d2, r));
    if list.len() > list0.len() {
        let l3 = wrote_variables(l2, list);
        let rs = recipes_of(l3);
        assert forall|k: int| 0 <= k < rs.len() && (#[trigger] rs[k]).id != r.id implies rs[k].file_name != r.file_name
            && recipe_reads_back(norm_recipe(rs[k], list)) by {
            let x = rs[k];
            assert(rs.contains(x));
            lemma_isort_contains(loaded_recipes(d2), lt, x);
            lemma_loaded_entry(d2, x);
            let q = choose|q: int| 0 <= q < d2.len() && entry_recipe(#[trigger] d2[q]) == Some(x) && d2[q].0 == x.file_name;
            assert(q != i);
            assert(d2[q] == d[q]);
            assert(entry_recipe(d[q]) is Some);
        }
        lemma_backfill_keeps(l3, rs, list, r);
        let l4 = backfill(l3, rs, list, Some(r.id));
        assert(save_recipe_spec(l, now, u).1 == l4);
        lemma_holds_only_found(l4.recipes, r);
    } else {
        assert(save_recipe_spec(l, now, u).1 == l2);
        lemma_holds_only_found(d2, r);
    }
}


/// Every valid name of every recipe file of the listing is in `list`.
pub open spec fn keys_within(d: Seq<(Seq<char>, Option<Seq<char>>)>, list: Seq<Seq<char>>) -> bool {
    forall|j: int, k: Seq<char>|
        0 <= j < d.len() && (#[trigger] entry_recipe(d[j])) is Some && is_name(k) && #[trigger] value_of(
            entry_recipe(d[j])->0.values,
            k,
        ) is Some ==> list.contains(k)
}

proof fn lemma_extra_from(vals: Seq<(Seq<char>, Seq<char>)>, list: Seq<Seq<char>>)
    ensures
        forall|j: int|
            0 <= j < extra_pairs(vals, list).len() ==> vals.contains(#[trigger] extra_pairs(vals, list)[j]),
    decreases vals.len(),
{
    if vals.len() > 0 {
        let pre = vals.drop_last();
        lemma_extra_from(pre, list);
        let e = extra_pairs(pre, list);
        assert forall|j: int| 0 <= j < extra_pairs(vals, list).len() implies vals.contains(#[trigger] extra_pairs(vals, list)[j]) by {
            if j < e.len() {
                assert(extra_pairs(vals, list)[j] == e[j]);
                let q = choose|q: int| 0 <= q < pre.len() && pre[q] == e[j];
                assert(vals[q] == pre[q]);
            } else {
                assert(extra_pairs(vals, list)[j] == vals[vals.len() - 1]);
            }
        }
    }
}

/// A name of a normalized recipe is in the list or was a name of the recipe.
proof fn lemma_normalized_name_from(vals: Seq<(Seq<char>, Seq<char>)>, list: Seq<Seq<char>>, k: Seq<char>)
    requires
        value_of(normalized(vals, list), k) is Some,
    ensures
        list.contains(k) || value_of(vals, k) is Some,
{
    let f = |n: Seq<char>| (n, or_empty(value_of(vals, n)));
    let a = list.map_values(f);
    let e = extra_pairs(vals, list);
    let nv = normalized(vals, list);
    lemma_value_of_keys(nv, k);
    let j = choose|j: int| 0 <= j < keys(nv).len() && keys(nv)[j] == k;
    if j < a.len() {
        assert(nv[j] == a[j]);
        assert(list[j] == k);
    } else {
        assert(nv[j] == e[j - a.len()]);
        lemma_extra_from(vals, list);
        assert(vals.contains(e[j - a.len()]));
        let q = choose|q: int| 0 <= q < vals.len() && vals[q] == e[j - a.len()];
        assert(keys(vals)[q] == k);
        lemma_value_of_keys(vals, k);
    }
}

proof fn lemma_put_keeps_keys(d: Seq<(Seq<char>, Option<Seq<char>>)>, list: Seq<Seq<char>>, x: RecipeV)
    requires
        keys_within(d, list),
        recipe_reads_back(x),
        forall|k: Seq<char>| is_name(k) && #[trigger] value_of(x.values, k) is Some ==> list.contains(k),
    ensures
        keys_within(put_file(d, x.file_name, dump_doc(recipe_doc(x))), list),
{
    let name = x.file_name;
    let d2 = put_file(d, name, dump_doc(recipe_doc(x)));
    lemma_file_pos(d, name);
    crate::model::lemma_recipe_file_reads_back(x);
    assert forall|j: int, k: Seq<char>|
        0 <= j < d2.len() && (#[trigger] entry_recipe(d2[j])) is Some && is_name(k) && #[trigger] value_of(
            entry_recipe(d2[j])->0.values,
            k,
        ) is Some implies list.contains(k) by {
        match file_pos(d, name) {
            Some(q) => {
                if j == q {
                    assert(entry_recipe(d2[j]) == Some(x));
                } else {
                    assert(d2[j] == d[j]);
                }
            },
            None => {
                if j == d.len() {
                    assert(entry_recipe(d2[j]) == Some(x));
                } else {
                    assert(d2[j] == d[j]);
                }
            },
        }
    }
}

proof fn lemma_backfill_keeps_keys(l: LibraryV, rs: Seq<RecipeV>, list: Seq<Seq<char>>, skip: Option<Seq<char>>)
    requires
        keys_within(l.recipes, list),
        forall|i: int, k: Seq<char>|
            0 <= i < rs.len() && is_name(k) && #[trigger] value_of(rs[i].values, k) is Some ==> list.contains(k),
        forall|i: int|
            0 <= i < rs.len() && skip != Some((#[trigger] rs[i]).id) ==> recipe_reads_back(norm_recipe(rs[i], list)),
    ensures
        keys_within(backfill(l, rs, list, skip).recipes, list),
        backfill(l, rs, list, skip).variables == l.variables,
    decreases rs.len(),
{
    if rs.len() > 0 {
        let pre = rs.drop_last();
        assert forall|i: int, k: Seq<char>|
            0 <= i < pre.len() && is_name(k) && #[trigger] value_of(pre[i].values, k) is Some implies list.contains(k) by {
            assert(pre[i] == rs[i]);
        }
        assert forall|i: int| 0 <= i < pre.len() && skip != Some((#[trigger] pre[i]).id) implies recipe_reads_back(
            norm_recipe(pre[i], list),
        ) by {
            assert(pre[i] == rs[i]);
        }
        lemma_backfill_keeps_keys(l, pre, list, skip);
        let x = rs.last();
        assert(x == rs[rs.len() - 1]);
        let l2 = backfill(l, pre, list, skip);
        if !(skip == Some(x.id) || normalized(x.values, list) == x.values) {
            let nx = norm_recipe(x, list);
            assert forall|k: Seq<char>| is_name(k) && #[trigger] value_of(nx.values, k) is Some implies list.contains(k) by {
                lemma_normalized_name_from(x.values, list, k);
            }
            lemma_put_keeps_keys(l2.recipes, list, nx);
        }
    }
}

/// The recipes of a listing, sorted as the library lists them.
spec fn listed_recipes(d: Seq<(Seq<char>, Option<Seq<char>>)>) -> Seq<RecipeV> {
    isort(loaded_recipes(d), |a: RecipeV, b: RecipeV| recipe_lt(a, b))
}

proof fn lemma_keys_within_listed(d: Seq<(Seq<char>, Option<Seq<char>>)>, list: Seq<Seq<char>>)
    requires
        keys_within(d, list),
    ensures
        add_recipe_keys(list, listed_recipes(d)) == list,
{
    let lt = |a: RecipeV, b: RecipeV| recipe_lt(a, b);
    let rs = listed_recipes(d);
    assert forall|i: int, k: Seq<char>|
        0 <= i < rs.len() && is_name(k) && #[trigger] value_of(rs[i].values, k) is Some implies list.contains(k) by {
        let x = rs[i];
        assert(rs.contains(x));
        lemma_isort_contains(loaded_recipes(d), lt, x);
        lemma_loaded_entry(d, x);
        let q = choose|q: int| 0 <= q < d.len() && entry_recipe(#[trigger] d[q]) == Some(x) && d[q].0 == x.file_name;
        assert(entry_recipe(d[q]) is Some);
        assert(value_of(entry_recipe(d[q])->0.values, k) is Some);
    }
    lemma_add_recipe_keys_id(list, rs);
}

proof fn lemma_add_all_grows(list: Seq<Seq<char>>, names: Seq<Seq<char>>)
    requires
        names_ok(list),
        forall|k: int| 0 <= k < names.len() ==> is_name(#[trigger] names[k]),
    ensures
        names_ok(add_all(list, names)),
        add_all(list, names).len() >= list.len(),
        add_all(list, names).take(list.len() as int) == list,
        forall|x: Seq<char>| list.contains(x) ==> #[trigger] add_all(list, names).contains(x),
        forall|k: int| 0 <= k < names.len() ==> add_all(list, names).contains(#[trigger] names[k]),
    decreases names.len(),
{
    if names.len() > 0 {
        let pre = names.drop_last();
        assert forall|k: int| 0 <= k < pre.len() implies is_name(#[trigger] pre[k]) by {
            assert(pre[k] == names[k]);
        }
        lemma_add_all_grows(list, pre);
        let a = add_all(list, pre);
        let y = names.last();
        assert(y == names[names.len() - 1]);
        if !a.contains(y) {
            let b = a.push(y);
            assert(b.take(list.len() as int) =~= a.take(list.len() as int));
            assert forall|x: Seq<char>| a.contains(x) implies #[trigger] b.contains(x) by {
                let q = choose|q: int| 0 <= q < a.len() && a[q] == x;
                assert(b[q] == x);
            }
            assert(b[a.len() as int] == y);
            assert forall|k: int| 0 <= k < b.len() implies is_name(#[trigger] b[k]) by {
                if k < a.len() {
                    assert(b[k] == a[k]);
                }
            }
        }
        assert forall|k: int| 0 <= k < names.len() implies add_all(list, names).contains(#[trigger] names[k]) by {
            if k < names.len() - 1 {
                assert(pre[k] == names[k]);
                assert(a.contains(pre[k]));
                if !a.contains(y) {
                    let q = choose|q: int| 0 <= q < a.len() && a[q] == names[k];
                    assert(a.push(y)[q] == names[k]);
                }
            } else if !a.contains(y) {
                assert(a.push(y)[a.len() as int] == y);
            }
        }
    }
}

proof fn lemma_first_invalid_none(vals: Seq<(Seq<char>, Seq<char>)>)
    requires
        first_invalid_key(vals) is None,
    ensures
        forall|k: int| 0 <= k < keys(vals).len() ==> is_name(#[trigger] keys(vals)[k]),
    decreases vals.len(),
{
    if vals.len() > 0 {
        lemma_first_invalid_none(vals.drop_first());
        assert forall|k: int| 0 <= k < keys(vals).len() implies is_name(#[trigger] keys(vals)[k]) by {
            if k > 0 {
                assert(keys(vals)[k] == keys(vals.drop_first())[k - 1]);
            }
        }
    }
}

/// The saved recipe's file and every other recipe file have their names in
/// the grown list, and the list keeps the old one as its start.
#[verifier::spinoff_prover]
#[verifier::rlimit(60)]
proof fn lemma_saved_keys(l: LibraryV, now: Seq<char>, u: RecipeV)
    requires
        save_recipe_spec(l, now, u).0 matches Ok(r) && recipe_reads_back(r),
    ensures
        ({
            let list0 = reconciled(l)->Ok_0;
            let list = add_all(list0, keys(u.values));
            let r = save_recipe_spec(l, now, u).0->Ok_0;
            &&& reconciled(l) is Ok
            &&& names_ok(list0) && names_ok(list)
            &&& list.len() >= list0.len() && list.take(list0.len() as int) == list0
            &&& keys_within(l.recipes, list)
            &&& recipe_by_id(l, u.id) is Ok
            &&& r == (RecipeV {
                file_name: (recipe_by_id(l, u.id)->Ok_0).file_name,
                updated: now,
                values: normalized(u.values, list),
                ..u
            })
            &&& keys_within(wrote_recipe(l, r).recipes, list)
            &&& r.id == u.id
            &&& exists|i: int|
                0 <= i < l.recipes.len() && l.recipes[i].0 == r.file_name && (#[trigger] entry_recipe(l.recipes[i])) is Some
            &&& save_recipe_spec(l, now, u).1 == (if list.len() > list0.len() {
                backfill(
                    wrote_variables(wrote_recipe(l, r), list),
                    recipes_of(wrote_variables(wrote_recipe(l, r), list)),
                    list,
                    Some(r.id),
                )
            } else {
                wrote_recipe(l, r)
            })
        }),
{
    reveal(save_recipe_spec);
    let existing = recipe_by_id(l, u.id)->Ok_0;
    lemma_find_recipe_found(recipes_of(l), u.id);
    lemma_isort_contains(loaded_recipes(l.recipes), |a: RecipeV, b: RecipeV| recipe_lt(a, b), existing);
    lemma_loaded_entry(l.recipes, existing);
    let list0 = reconciled(l)->Ok_0;
    let list = add_all(list0, keys(u.values));
    let r = save_recipe_spec(l, now, u).0->Ok_0;
    let d = l.recipes;
    let lt = |a: RecipeV, b: RecipeV| recipe_lt(a, b);
    lemma_reconciled_ok(l);
    lemma_first_invalid_none(u.values);
    lemma_add_all_grows(list0, keys(u.values));
    lemma_reconciled_covers(l);
    assert forall|j: int, k: Seq<char>|
        0 <= j < d.len() && (#[trigger] entry_recipe(d[j])) is Some && is_name(k) && #[trigger] value_of(
            entry_recipe(d[j])->0.values,
            k,
        ) is Some implies list.contains(k) by {
        let x = entry_recipe(d[j])->0;
        lemma_loaded_has(d, j);
        lemma_isort_contains(loaded_recipes(d), lt, x);
        let i = choose|i: int| 0 <= i < recipes_of(l).len() && recipes_of(l)[i] == x;
        assert(value_of(recipes_of(l)[i].values, k) is Some);
        assert(list0.contains(k));
    }
    assert forall|k: Seq<char>| is_name(k) && #[trigger] value_of(r.values, k) is Some implies list.contains(k) by {
        lemma_normalized_name_from(u.values, list, k);
        if value_of(u.values, k) is Some {
            lemma_value_of_keys(u.values, k);
            let q = choose|q: int| 0 <= q < keys(u.values).len() && keys(u.values)[q] == k;
        }
    }
    lemma_put_keeps_keys(d, list, r);
}

/// After `save_recipe`, the global variable list is the list before it
/// with the recipe's new names added at the end, in the recipe's order
/// (in a folder that names each file once, where the saved recipe and each
/// recipe brought up to a grown list read back as themselves, and where
/// `variables.json` is in step with the recipes unless the list grows).
#[verifier::spinoff_prover]
#[verifier::rlimit(60)]
pub proof fn lemma_save_recipe_variables(l: LibraryV, now: Seq<char>, u: RecipeV)
    requires
        names_distinct(l.recipes),
        save_recipe_spec(l, now, u).0 matches Ok(r) && recipe_reads_back(r),
        forall|j: int|
            0 <= j < l.recipes.len() && (#[trigger] entry_recipe(l.recipes[j])) is Some && entry_recipe(
                l.recipes[j],
            )->0.id != u.id ==> recipe_reads_back(
                norm_recipe(entry_recipe(l.recipes[j])->0, add_all(reconciled(l)->Ok_0, keys(u.values))),
            ),
        add_all(reconciled(l)->Ok_0, keys(u.values)).len() > (reconciled(l)->Ok_0).len() || variables_raw(l) == Ok::<
            Option<Seq<Seq<char>>>,
            ErrV,
        >(Some(reconciled(l)->Ok_0)),
    ensures
        reconciled(save_recipe_spec(l, now, u).1) == Ok::<Seq<Seq<char>>, ErrV>(
            add_all(reconciled(l)->Ok_0, keys(u.values)),
        ),
{
    lemma_recipe_ops_keep_errors(l, now, u, u.id, u.name);
    lemma_saved_keys(l, now, u);
    let list0 = reconciled(l)->Ok_0;
    let list = add_all(list0, keys(u.values));
    let r = save_recipe_spec(l, now, u).0->Ok_0;
    let d = l.recipes;
    let lt = |a: RecipeV, b: RecipeV| recipe_lt(a, b);
    let l2 = wrote_recipe(l, r);
    let d2 = l2.recipes;
    if list.len() > list0.len() {
        let l3 = wrote_variables(l2, list);
        let rs = recipes_of(l3);
        lemma_saved_others(l, r, list);
        lemma_backfill_keeps_keys(l3, rs, list, Some(r.id));
        let l4 = backfill(l3, rs, list, Some(r.id));
        assert(save_recipe_spec(l, now, u).1 == l4);
        lemma_variables_read_back(l2, list);
        assert(variables_raw(l4) == variables_raw(l3));
        lemma_add_names_self(list);
        lemma_keys_within_listed(l4.recipes, list);
        assert(recipes_of(l4) == listed_recipes(l4.recipes));
    } else {
        assert(list =~= list0) by {
            assert(list.take(list0.len() as int) == list0);
        }
        assert(save_recipe_spec(l, now, u).1 == l2);
        assert(variables_raw(l2) == variables_raw(l));
        lemma_add_names_self(list0);
        lemma_keys_within_listed(d2, list0);
        assert(recipes_of(l2) == listed_recipes(d2));
    }
}

/// The recipes listed after writing `r` over its own file: their names are
/// in the list, and each but `r` reads back once brought up to the list.
#[verifier::spinoff_prover]
proof fn lemma_saved_others(l: LibraryV, r: RecipeV, list: Seq<Seq<char>>)
    requires
        names_distinct(l.recipes),
        keys_within(wrote_recipe(l, r).recipes, list),
        recipe_reads_back(r),
        exists|i: int| 0 <= i < l.recipes.len() && l.recipes[i].0 == r.file_name && (#[trigger] entry_recipe(l.recipes[i])) is Some,
        forall|j: int|
            0 <= j < l.recipes.len() && (#[trigger] entry_recipe(l.recipes[j])) is Some && entry_recipe(
                l.recipes[j],
            )->0.id != r.id ==> recipe_reads_back(norm_recipe(entry_recipe(l.recipes[j])->0, list)),
    ensures
        forall|i: int, k: Seq<char>|
            0 <= i < recipes_of(wrote_recipe(l, r)).len() && is_name(k) && #[trigger] value_of(
                recipes_of(wrote_recipe(l, r))[i].values,
                k,
            ) is Some ==> list.contains(k),
        forall|i: int|
            0 <= i < recipes_of(wrote_recipe(l, r)).len() && Some(r.id) != Some(
                (#[trigger] recipes_of(wrote_recipe(l, r))[i]).id,
            ) ==> recipe_reads_back(norm_recipe(recipes_of(wrote_recipe(l, r))[i], list)),
{
    let d = l.recipes;
    let d2 = wrote_recipe(l, r).recipes;
    let rs = recipes_of(wrote_recipe(l, r));
    let lt = |a: RecipeV, b: RecipeV| recipe_lt(a, b);
    lemma_file_pos(d, r.file_name);
    let i0 = file_pos(d, r.file_name)->0;
    crate::model::lemma_recipe_file_reads_back(r);
    assert(d2 == d.update(i0, (r.file_name, Some(dump_doc(recipe_doc(r))))));
    assert forall|i: int, k: Seq<char>|
        0 <= i < rs.len() && is_name(k) && #[trigger] value_of(rs[i].values, k) is Some implies list.contains(k) by {
        let x = rs[i];
        assert(rs.contains(x));
        lemma_isort_contains(loaded_recipes(d2), lt, x);
        lemma_loaded_entry(d2, x);
        let q = choose|q: int| 0 <= q < d2.len() && entry_recipe(#[trigger] d2[q]) == Some(x) && d2[q].0 == x.file_name;
        assert(entry_recipe(d2[q]) is Some);
        assert(value_of(entry_recipe(d2[q])->0.values, k) is Some);
    }
    assert forall|i: int| 0 <= i < rs.len() && Some(r.id) != Some((#[trigger] rs[i]).id) implies recipe_reads_back(
        norm_recipe(rs[i], list),
    ) by {
        let x = rs[i];
        assert(rs.contains(x));
        lemma_isort_contains(loaded_recipes(d2), lt, x);
        lemma_loaded_entry(d2, x);
        let q = choose|q: int| 0 <= q < d2.len() && entry_recipe(#[trigger] d2[q]) == Some(x) && d2[q].0 == x.file_name;
        if q == i0 {
            assert(entry_recipe(d2[q]) == Some(r));
            assert(x == r);
        }
        assert(d2[q] == d[q]);
        assert(entry_recipe(d[q]) is Some);
    }
}


/// A prompt as `rename_variable` leaves it: a body that changes is renamed
/// and stamped with `now`.
pub open spec fn renamed_prompt(x: PromptV, old: Seq<char>, new: Seq<char>, now: Seq<char>) -> PromptV {
    if renamed_body(x.content, old, new) != x.content {
        PromptV { content: renamed_body(x.content, old, new), updated: now, ..x }
    } else {
        x
    }
}

proof fn lemma_rename_in_recipes_keeps_prompts(l: LibraryV, rs: Seq<RecipeV>, old: Seq<char>, new: Seq<char>)
    ensures
        rename_in_recipes(l, rs, old, new).prompts == l.prompts,
        rename_in_recipes(l, rs, old, new).order == l.order,
        rename_in_recipes(l, rs, old, new).prompts_error == l.prompts_error,
    decreases rs.len(),
{
    if rs.len() > 0 {
        lemma_rename_in_recipes_keeps_prompts(l, rs.drop_last(), old, new);
    }
}

/// The prompt files after renaming in the prompts of `ps`, each of which a
/// file of the folder holds: the file of each of them holds it renamed.
proof fn lemma_rename_prompts_listing(l: LibraryV, ps: Seq<PromptV>, old: Seq<char>, new: Seq<char>, now: Seq<char>)
    requires
        names_distinct(l.prompts),
        forall|k: int|
            0 <= k < ps.len() ==> exists|j: int|
                0 <= j < l.prompts.len() && l.prompts[j].0 == (#[trigger] ps[k]).file_name && entry_prompt(l.prompts[j])
                    == Some(ps[k]),
        forall|k: int|
            0 <= k < ps.len() && renamed_body((#[trigger] ps[k]).content, old, new) != ps[k].content
                ==> prompt_reads_back(renamed_prompt(ps[k], old, new, now)),
    ensures
        rename_in_prompts(l, ps, old, new, now).order == l.order,
        rename_in_prompts(l, ps, old, new, now).prompts_error == l.prompts_error,
        rename_in_prompts(l, ps, old, new, now).prompts.len() == l.prompts.len(),
        forall|j: int| 0 <= j < l.prompts.len() ==> #[trigger] rename_in_prompts(l, ps, old, new, now).prompts[j].0 == l.prompts[j].0,
        forall|j: int|
            0 <= j < l.prompts.len() ==> #[trigger] entry_prompt(rename_in_prompts(l, ps, old, new, now).prompts[j]) == (
            match entry_prompt(l.prompts[j]) {
                Some(x) => if ps.contains(x) {
                    Some(renamed_prompt(x, old, new, now))
                } else {
                    Some(x)
                },
                None => None::<PromptV>,
            }),
    decreases ps.len(),
{
    if ps.len() == 0 {
        assert forall|j: int| 0 <= j < l.prompts.len() implies #[trigger] entry_prompt(rename_in_prompts(l, ps, old, new, now).prompts[j]) == (
            match entry_prompt(l.prompts[j]) {
                Some(x) => if ps.contains(x) {
                    Some(renamed_prompt(x, old, new, now))
                } else {
                    Some(x)
                },
                None => None::<PromptV>,
            }) by {
            if let Some(x) = entry_prompt(l.prompts[j]) {
                assert(!ps.contains(x));
            }
        }
    } else {
        let pre = ps.drop_last();
        assert forall|k: int| 0 <= k < pre.len() implies exists|j: int|
            0 <= j < l.prompts.len() && l.prompts[j].0 == (#[trigger] pre[k]).file_name && entry_prompt(l.prompts[j])
                == Some(pre[k]) by {
            assert(pre[k] == ps[k]);
        }
        assert forall|k: int|
            0 <= k < pre.len() && renamed_body((#[trigger] pre[k]).content, old, new) != pre[k].content implies prompt_reads_back(
                renamed_prompt(pre[k], old, new, now),
            ) by {
            assert(pre[k] == ps[k]);
        }
        lemma_rename_prompts_listing(l, pre, old, new, now);
        let l2 = rename_in_prompts(l, pre, old, new, now);
        let d = l.prompts;
        let d2 = l2.prompts;
        let x = ps.last();
        assert(x == ps[ps.len() - 1]);
        let j0 = choose|j: int| 0 <= j < d.len() && d[j].0 == x.file_name && entry_prompt(d[j]) == Some(x);
        let t = renamed_prompt(x, old, new, now);
        let l3 = rename_in_prompts(l, ps, old, new, now);
        assert forall|a: int| 0 <= a < ps.len() implies (#[trigger] ps[a]) == x || pre.contains(ps[a]) by {
            if a < ps.len() - 1 {
                assert(pre[a] == ps[a]);
            }
        }
        assert(ps =~= pre.push(x));
        if renamed_body(x.content, old, new) != x.content {
            assert(l3 == wrote_prompt(l2, t));
            lemma_file_pos(d2, x.file_name);
            let q = file_pos(d2, x.file_name)->0;
            assert(d2[j0].0 == x.file_name);
            assert(q == j0) by {
                if q != j0 {
                    assert(d[q].0 == d2[q].0);
                }
            }
            crate::model::lemma_prompt_file_reads_back(t);
            assert(l3.prompts == d2.update(j0, (x.file_name, Some(markdown_of(t)))));
            assert(entry_prompt(l3.prompts[j0]) == Some(t));
        } else {
            assert(l3 == l2);
            assert(t == x);
        }
        assert forall|j: int| 0 <= j < d.len() implies #[trigger] entry_prompt(l3.prompts[j]) == (
            match entry_prompt(d[j]) {
                Some(y) => if ps.contains(y) {
                    Some(renamed_prompt(y, old, new, now))
                } else {
                    Some(y)
                },
                None => None::<PromptV>,
            }) by {
            if j != j0 {
                assert(l3.prompts[j] == d2[j]);
                if let Some(y) = entry_prompt(d[j]) {
                    if y == x {
                        assert(d[j].0 == y.file_name) by {
                            lemma_entry_prompt_name(d[j]);
                        }
                        assert(false);
                    }
                    if ps.contains(y) {
                        let a = choose|a: int| 0 <= a < ps.len() && ps[a] == y;
                        assert(pre.contains(y));
                    } else {
                        assert(!pre.contains(y)) by {
                            if pre.contains(y) {
                                let a = choose|a: int| 0 <= a < pre.len() && pre[a] == y;
                                assert(ps[a] == y);
                            }
                        }
                    }
                }
            } else {
                assert(ps.contains(x)) by {
                    assert(ps[ps.len() - 1] == x);
                }
            }
        }
        assert forall|j: int| 0 <= j < d.len() implies #[trigger] l3.prompts[j].0 == d[j].0 by {
            if j != j0 {
                assert(l3.prompts[j] == d2[j]);
            }
        }
    }
}

proof fn lemma_entry_prompt_name(e: (Seq<char>, Option<Seq<char>>))
    requires
        entry_prompt(e) is Some,
    ensures
        (entry_prompt(e)->0).file_name == e.0,
{
}

/// The prompt with `p`'s id, among the prompts of a listing whose files hold
/// ids once, is the one the file of `p` holds.
proof fn lemma_prompt_by_entry(d: Seq<(Seq<char>, Option<Seq<char>>)>, o: Seq<Seq<char>>, jp: int, t: PromptV)
    requires
        ids_once(d),
        0 <= jp < d.len(),
        entry_prompt(d[jp]) == Some(t),
    ensures
        find_prompt(isort(loaded_prompts(d), |a: PromptV, b: PromptV| prompt_lt(o, a, b)), t.id) == Some(t),
{
    let lt = |a: PromptV, b: PromptV| prompt_lt(o, a, b);
    let s2 = isort(loaded_prompts(d), lt);
    lemma_loaded_prompt_has(d, jp);
    lemma_isort_contains(loaded_prompts(d), lt, t);
    assert forall|z: PromptV| s2.contains(z) && z.id == t.id implies z == t by {
        lemma_isort_contains(loaded_prompts(d), lt, z);
        lemma_loaded_prompt_entry(d, z);
        let k = choose|k: int| 0 <= k < d.len() && entry_prompt(#[trigger] d[k]) == Some(z) && d[k].0 == z.file_name;
        assert(entry_prompt(d[k]) is Some && entry_prompt(d[jp]) is Some);
    }
    lemma_find_prompt_only(s2, t);
}

/// `rename_variable` renames `{{old}}` to `{{new}}` in the body of every
/// prompt, and stamps each prompt whose body changes: the prompt read back
/// under a listed prompt's id is that prompt renamed (in a folder that
/// names each file once and holds each prompt id once, where each prompt
/// whose body changes reads back as itself).
#[verifier::spinoff_prover]
#[verifier::rlimit(60)]
pub proof fn lemma_rename_variable_bodies(l: LibraryV, now: Seq<char>, old: Seq<char>, new: Seq<char>, p: PromptV)
    requires
        names_distinct(l.prompts),
        ids_once(l.prompts),
        rename_variable_spec(l, now, old, new).0 is Ok,
        prompts_of(l) matches Ok(ps) && ps.contains(p),
        forall|j: int|
            0 <= j < l.prompts.len() && (#[trigger] entry_prompt(l.prompts[j])) is Some && renamed_body(
                entry_prompt(l.prompts[j])->0.content,
                old,
                new,
            ) != entry_prompt(l.prompts[j])->0.content ==> prompt_reads_back(
                renamed_prompt(entry_prompt(l.prompts[j])->0, old, new, now),
            ),
    ensures
        prompt_by_id(rename_variable_spec(l, now, old, new).1, p.id) == Ok::<PromptV, ErrV>(
            renamed_prompt(p, old, new, now),
        ),
{
    let d = l.prompts;
    let o = order_of(l)->Ok_0;
    let lt = |a: PromptV, b: PromptV| prompt_lt(o, a, b);
    let ps = prompts_of(l)->Ok_0;
    lemma_isort_contains(loaded_prompts(d), lt, p);
    lemma_loaded_prompt_entry(d, p);
    let jp = choose|j: int| 0 <= j < d.len() && entry_prompt(#[trigger] d[j]) == Some(p) && d[j].0 == p.file_name;
    if old == new {
        assert(renamed_prompt(p, old, new, now) == p);
        lemma_prompt_by_entry(d, o, jp, p);
    } else {
        let list = reconciled(l)->Ok_0;
        let l2 = rename_in_recipes(l, recipes_of(l), old, new);
        lemma_rename_in_recipes_keeps_prompts(l, recipes_of(l), old, new);
        assert(prompts_of(l2) == prompts_of(l));
        assert forall|k: int| 0 <= k < ps.len() implies exists|j: int|
            0 <= j < l2.prompts.len() && l2.prompts[j].0 == (#[trigger] ps[k]).file_name && entry_prompt(l2.prompts[j])
                == Some(ps[k]) by {
            assert(ps.contains(ps[k]));
            lemma_isort_contains(loaded_prompts(d), lt, ps[k]);
            lemma_loaded_prompt_entry(d, ps[k]);
        }
        assert forall|k: int|
            0 <= k < ps.len() && renamed_body((#[trigger] ps[k]).content, old, new) != ps[k].content implies prompt_reads_back(
                renamed_prompt(ps[k], old, new, now),
            ) by {
            assert(ps.contains(ps[k]));
            lemma_isort_contains(loaded_prompts(d), lt, ps[k]);
            lemma_loaded_prompt_entry(d, ps[k]);
            let j = choose|j: int| 0 <= j < d.len() && entry_prompt(#[trigger] d[j]) == Some(ps[k]) && d[j].0 == ps[k].file_name;
            assert(entry_prompt(d[j]) is Some);
        }
        lemma_rename_prompts_listing(l2, ps, old, new, now);
        let l3 = rename_in_prompts(l2, ps, old, new, now);
        let nl = rename_names(list, old, new);
        let fin = wrote_variables(l3, nl);
        assert(rename_variable_spec(l, now, old, new).1 == fin);
        let d3 = l3.prompts;
        let t = renamed_prompt(p, old, new, now);
        assert(entry_prompt(d3[jp]) == Some(t));
        assert(ids_once(d3)) by {
            assert forall|a: int, b: int|
                0 <= a < d3.len() && 0 <= b < d3.len() && a != b && (#[trigger] entry_prompt(d3[a])) is Some && (
                #[trigger] entry_prompt(d3[b])) is Some implies entry_prompt(d3[a])->0.id != entry_prompt(d3[b])->0.id by {
                assert(entry_prompt(d[a]) is Some && entry_prompt(d[b]) is Some);
            }
        }
        assert(t.id == p.id);
        lemma_prompt_by_entry(d3, o, jp, t);
        assert(order_of(fin) == order_of(l));
    }
}

/// A prompt `create_prompt` writes is listed afterwards, when its file reads
/// back as itself.
pub proof fn lemma_created_is_listed(l: LibraryV, id: Seq<char>, now: Seq<char>, title: Seq<char>, content: Seq<char>)
    requires
        l.prompts_error is None,
        create_prompt_spec(l, id, now, title, content).0 matches Ok(p) && prompt_reads_back(p),
    ensures
        prompts_of(create_prompt_spec(l, id, now, title, content).1) matches Ok(ps) && ps.contains(
            create_prompt_spec(l, id, now, title, content).0->Ok_0,
        ),
{
    lemma_created_listing(l, id, now, title, content);
    let p = create_prompt_spec(l, id, now, title, content).0->Ok_0;
    let l3 = create_prompt_spec(l, id, now, title, content).1;
    let d2 = l3.prompts;
    crate::model::lemma_prompt_file_reads_back(p);
    let i = d2.len() - 1;
    assert(d2[i] == (p.file_name, Some(markdown_of(p))));
    assert(entry_prompt(d2[i]) == Some(p));
    lemma_loaded_prompt_has(d2, i);
    let o = order_of(l3)->Ok_0;
    lemma_isort_contains(loaded_prompts(d2), |a: PromptV, b: PromptV| prompt_lt(o, a, b), p);
}

proof fn lemma_seed_b_reads_back(id: Seq<char>, now: Seq<char>, f: Seq<char>)
    requires
        crate::yamlish::safe_scalar(id),
        crate::yamlish::safe_scalar(now),
    ensures
        prompt_reads_back(new_prompt(id, now, SEED_PROMPT_B@, SEED_BODY_B@, f)),
{
    reveal_strlit("Sumarizace textu");
    reveal_strlit("Shrň následující text do pěti odrážek a jedné věty závěru:\n\n");
    let t = SEED_PROMPT_B@;
    assert(t.len() > 0 && !crate::yamlish::is_ws(t[0]));
    assert(crate::yamlish::trim_start(t) == t);
    assert(!crate::yamlish::is_ws(t.last()));
    assert(crate::yamlish::trim_end(t) == t);
    let e = Seq::<char>::empty();
    assert(crate::yamlish::trim_start(e) == e);
    assert(crate::yamlish::trim_end(e) == e);
    let b = SEED_BODY_B@;
    assert forall|i: int| 0 <= i && i + 1 < b.len() implies !(#[trigger] b[i] == '\r' && b[i + 1] == '\n') by {
        assert(b[i] != '\r');
    }
}

proof fn lemma_created_shape(l: LibraryV, id: Seq<char>, now: Seq<char>, t: Seq<char>, c: Seq<char>)
    requires
        create_prompt_spec(l, id, now, t, c).0 is Ok,
    ensures
        create_prompt_spec(l, id, now, t, c).0->Ok_0 == new_prompt(id, now, t, c, free_name(l.prompts, slug(t), "md"@)),
{
    reveal(create_prompt_spec);
}

/// The library before the last step of a seeding that succeeded: the
/// seeding ends by creating the second sample prompt on it.
#[verifier::spinoff_prover]
#[verifier::rlimit(80)]
proof fn lemma_seed_last(l: LibraryV, now: Seq<char>, ids: (Seq<char>, Seq<char>, Seq<char>, Seq<char>)) -> (m2: LibraryV)
    requires
        seed_spec(l, now, ids).0 == Ok::<bool, ErrV>(true),
    ensures
        m2.prompts_error is None,
        create_prompt_spec(m2, ids.3, now, SEED_PROMPT_B@, SEED_BODY_B@).0 is Ok,
        seed_spec(l, now, ids).1 == create_prompt_spec(m2, ids.3, now, SEED_PROMPT_B@, SEED_BODY_B@).1,
{
    reveal(sample_recipe_spec);
    reveal(sample_prompts_spec);
    let (a, l2) = sample_recipe_spec(l, now, ids.0, SEED_RECIPE_A@, seed_values_a());
    let r1 = a->Ok_0;
    let (b, l4) = sample_recipe_spec(l2, now, ids.1, SEED_RECIPE_B@, seed_values_b());
    let r2 = b->Ok_0;
    let (c1, m1) = create_prompt_spec(l4, ids.2, now, SEED_PROMPT_A@, SEED_BODY_A@);
    let p = c1->Ok_0;
    let pu = PromptV { recipes: seq![r1.id, r2.id], selected_recipe: Some(r1.id), ..p };
    let (s1, m2) = save_prompt_spec(m1, now, pu);
    let (ca, la1) = create_recipe_spec(l, ids.0, now, SEED_RECIPE_A@);
    let ra = ca->Ok_0;
    let (cb, lb1) = create_recipe_spec(l2, ids.1, now, SEED_RECIPE_B@);
    let rb = cb->Ok_0;
    lemma_recipe_ops_keep_errors(l, now, ra, ids.0, SEED_RECIPE_A@);
    lemma_recipe_ops_keep_errors(la1, now, RecipeV { values: seed_values_a(), ..ra }, ids.0, SEED_RECIPE_A@);
    lemma_recipe_ops_keep_errors(l2, now, rb, ids.1, SEED_RECIPE_B@);
    lemma_recipe_ops_keep_errors(lb1, now, RecipeV { values: seed_values_b(), ..rb }, ids.1, SEED_RECIPE_B@);
    lemma_prompt_ops_keep_errors(l4, now, pu, ids.2, SEED_PROMPT_A@, SEED_BODY_A@);
    lemma_prompt_ops_keep_errors(m1, now, pu, ids.2, SEED_PROMPT_A@, SEED_BODY_A@);
    assert(l.prompts_error is None);
    assert(la1.prompts_error is None);
    assert(a is Ok);
    assert(ca is Ok);
    assert(l2 == save_recipe_spec(la1, now, RecipeV { values: seed_values_a(), ..ra }).1);
    assert(l2.prompts_error is None);
    assert(b is Ok);
    assert(cb is Ok);
    assert(l4 == save_recipe_spec(lb1, now, RecipeV { values: seed_values_b(), ..rb }).1);
    assert(l4.prompts_error is None);
    assert(m1.prompts_error is None);
    m2
}

/// Seeding happens once: after `seed_if_empty` has filled a library, a
/// second call answers false and changes nothing (when the id of the last
/// sample prompt and the time stamp are plain YAML scalars, so that the last
/// sample prompt reads back).
pub proof fn lemma_seed_once(
    l: LibraryV,
    now: Seq<char>,
    ids: (Seq<char>, Seq<char>, Seq<char>, Seq<char>),
    now2: Seq<char>,
    ids2: (Seq<char>, Seq<char>, Seq<char>, Seq<char>),
)
    requires
        seed_spec(l, now, ids).0 == Ok::<bool, ErrV>(true),
        crate::yamlish::safe_scalar(ids.3),
        crate::yamlish::safe_scalar(now),
    ensures
        seed_spec(seed_spec(l, now, ids).1, now2, ids2) == (Ok::<bool, ErrV>(false), seed_spec(l, now, ids).1),
{
    let m2 = lemma_seed_last(l, now, ids);
    let m3 = seed_spec(l, now, ids).1;
    lemma_created_shape(m2, ids.3, now, SEED_PROMPT_B@, SEED_BODY_B@);
    let f = free_name(m2.prompts, slug(SEED_PROMPT_B@), "md"@);
    lemma_seed_b_reads_back(ids.3, now, f);
    lemma_created_is_listed(m2, ids.3, now, SEED_PROMPT_B@, SEED_BODY_B@);
    let c2 = create_prompt_spec(m2, ids.3, now, SEED_PROMPT_B@, SEED_BODY_B@).0;
    let ps = prompts_of(m3)->Ok_0;
    assert(ps.contains(c2->Ok_0));
    assert(ps.len() > 0);
}

proof fn lemma_first_dup_none(vals: Seq<(Seq<char>, Seq<char>)>)
    requires
        first_dup(vals) is None,
    ensures
        keys(vals).no_duplicates(),
    decreases vals.len(),
{
    if vals.len() > 0 {
        let pre = vals.drop_last();
        lemma_first_dup_none(pre);
        assert(keys(vals) =~= keys(pre).push(vals.last().0));
        assert(!keys(pre).contains(vals.last().0));
        let ks = keys(vals);
        assert forall|a: int, b: int| 0 <= a < ks.len() && 0 <= b < ks.len() && a != b implies ks[a] != ks[b] by {
            if a < ks.len() - 1 && b < ks.len() - 1 {
                assert(ks[a] == keys(pre)[a] && ks[b] == keys(pre)[b]);
            } else if a < ks.len() - 1 {
                assert(ks[a] == keys(pre)[a]);
            } else {
                assert(ks[b] == keys(pre)[b]);
            }
        }
    }
}

/// `save_recipe` refuses a recipe with a name that is not a valid variable
/// name, or with a name twice, as an invalid request, and writes nothing:
/// no recipe file, no `variables.json`.
pub proof fn lemma_save_recipe_rejects(l: LibraryV, now: Seq<char>, u: RecipeV)
    requires
        recipe_by_id(l, u.id) is Ok,
        (exists|k: int| 0 <= k < keys(u.values).len() && !is_name(#[trigger] keys(u.values)[k]))
            || !keys(u.values).no_duplicates(),
    ensures
        save_recipe_spec(l, now, u).0 matches Err(e) && e is Invalid,
        save_recipe_spec(l, now, u).1 == l,
{
    reveal(save_recipe_spec);
    if first_invalid_key(u.values) is None {
        lemma_first_invalid_none(u.values);
        if first_dup(u.values) is None {
            lemma_first_dup_none(u.values);
        }
    }
}

/// A prompt that `save_prompt` accepts is saved with the id, title and body
/// it was given, stamped `now` as its last save, and keeps the creation
/// stamp the stored prompt had (`now` only when it had none).
pub proof fn lemma_save_prompt_keeps_given(l: LibraryV, now: Seq<char>, u: PromptV)
    requires
        save_prompt_spec(l, now, u).0 is Ok,
    ensures
        ({
            let x = save_prompt_spec(l, now, u).0->Ok_0;
            let before = prompt_by_id(l, u.id)->Ok_0;
            &&& prompt_by_id(l, u.id) is Ok
            &&& x.id == u.id
            &&& x.title == u.title
            &&& x.content == u.content
            &&& x.updated == now
            &&& x.created == (if before.created.len() == 0 { now } else { before.created })
        }),
{
    reveal(save_prompt_spec);
}

/// A recipe that `create_recipe` makes has the id and name it is given and
/// is stamped `now`.
pub proof fn lemma_create_recipe_gives(l: LibraryV, id: Seq<char>, now: Seq<char>, name: Seq<char>)
    requires
        create_recipe_spec(l, id, now, name).0 is Ok,
    ensures
        (create_recipe_spec(l, id, now, name).0->Ok_0).id == id,
        (create_recipe_spec(l, id, now, name).0->Ok_0).name == name,
        (create_recipe_spec(l, id, now, name).0->Ok_0).updated == now,
{
    reveal(create_recipe_spec);
}

/// A prompt that `create_prompt` makes has the id, title and body it is
/// given, no recipes and no selection, and is created and stamped `now`.
pub proof fn lemma_create_prompt_gives(l: LibraryV, id: Seq<char>, now: Seq<char>, title: Seq<char>, content: Seq<char>)
    requires
        create_prompt_spec(l, id, now, title, content).0 is Ok,
    ensures
        ({
            let p = create_prompt_spec(l, id, now, title, content).0->Ok_0;
            p == new_prompt(id, now, title, content, p.file_name)
        }),
{
    reveal(create_prompt_spec);
}

/// `duplicate_prompt` makes a copy under the new id: its title is the
/// source's title marked as a copy, its text the source's text, and it is
/// stamped `now`.
pub proof fn lemma_duplicate_prompt_copies(l: LibraryV, new_id: Seq<char>, now: Seq<char>, id: Seq<char>)
    requires
        duplicate_prompt_spec(l, new_id, now, id).0 is Ok,
    ensures
        prompt_by_id(l, id) is Ok,
        ({
            let src = prompt_by_id(l, id)->Ok_0;
            let x = duplicate_prompt_spec(l, new_id, now, id).0->Ok_0;
            &&& x.id == new_id
            &&& x.title == copy_title(src.title)
            &&& x.content == src.content
            &&& x.updated == now
        }),
{
    let src = prompt_by_id(l, id)->Ok_0;
    let (c, l2) = create_prompt_spec(l, new_id, now, copy_title(src.title), src.content);
    lemma_create_prompt_gives(l, new_id, now, copy_title(src.title), src.content);
    let cp = c->Ok_0;
    lemma_save_prompt_keeps_given(l2, now, PromptV { recipes: src.recipes, selected_recipe: src.selected_recipe, ..cp });
}

proof fn lemma_titles_using(ps: Seq<PromptV>, id: Seq<char>, x: Seq<char>)
    ensures
        titles_using_recipe(ps, id).contains(x) <==> exists|j: int|
            0 <= j < ps.len() && (#[trigger] ps[j]).recipes.contains(id) && ps[j].title == x,
    decreases ps.len(),
{
    if ps.len() > 0 {
        let pre = ps.drop_last();
        let t = titles_using_recipe(pre, id);
        lemma_titles_using(pre, id, x);
        if exists|j: int| 0 <= j < pre.len() && (#[trigger] pre[j]).recipes.contains(id) && pre[j].title == x {
            let j = choose|j: int| 0 <= j < pre.len() && (#[trigger] pre[j]).recipes.contains(id) && pre[j].title == x;
            assert(ps[j] == pre[j]);
            if ps.last().recipes.contains(id) {
                let q = choose|q: int| 0 <= q < t.len() && t[q] == x;
                assert(t.push(ps.last().title)[q] == x);
            }
        }
        if exists|j: int| 0 <= j < ps.len() && (#[trigger] ps[j]).recipes.contains(id) && ps[j].title == x {
            let j = choose|j: int| 0 <= j < ps.len() && (#[trigger] ps[j]).recipes.contains(id) && ps[j].title == x;
            if j < ps.len() - 1 {
                assert(pre[j] == ps[j]);
                if ps.last().recipes.contains(id) {
                    let q = choose|q: int| 0 <= q < t.len() && t[q] == x;
                    assert(t.push(ps.last().title)[q] == x);
                }
            } else {
                assert(t.push(ps.last().title)[t.len() as int] == x);
            }
        }
        if ps.last().recipes.contains(id) && t.push(ps.last().title).contains(x) && !t.contains(x) {
            let q = choose|q: int| 0 <= q < t.len() + 1 && t.push(ps.last().title)[q] == x;
            if q < t.len() {
                assert(t[q] == x);
            }
            assert(ps[ps.len() - 1] == ps.last());
        }
    }
}

/// `delete_recipe` answers with the titles of exactly the prompts that
/// referred to the recipe.
pub proof fn lemma_delete_recipe_reports(l: LibraryV, id: Seq<char>, x: Seq<char>)
    requires
        delete_recipe_spec(l, id).0 is Ok,
    ensures
        prompts_of(l) is Ok,
        (delete_recipe_spec(l, id).0->Ok_0).contains(x) <==> exists|j: int|
            0 <= j < (prompts_of(l)->Ok_0).len() && (#[trigger] (prompts_of(l)->Ok_0)[j]).recipes.contains(id)
                && (prompts_of(l)->Ok_0)[j].title == x,
{
    lemma_titles_using(prompts_of(l)->Ok_0, id, x);
}

/// With names that do not repeat, each pair's name looks up its own value.
proof fn lemma_value_of_distinct(vals: Seq<(Seq<char>, Seq<char>)>, i: int)
    requires
        keys(vals).no_duplicates(),
        0 <= i < vals.len(),
    ensures
        value_of(vals, vals[i].0) == Some(vals[i].1),
    decreases i,
{
    if i > 0 {
        let t = vals.drop_first();
        assert(keys(vals)[0] == vals[0].0 && keys(vals)[i] == vals[i].0);
        assert(keys(t) =~= keys(vals).drop_first());
        assert forall|a: int, b: int| 0 <= a < keys(t).len() && 0 <= b < keys(t).len() && a != b implies keys(t)[a]
            != keys(t)[b] by {
            assert(keys(t)[a] == keys(vals)[a + 1] && keys(t)[b] == keys(vals)[b + 1]);
        }
        assert(t[i - 1] == vals[i]);
        lemma_value_of_distinct(t, i - 1);
    }
}

/// `add_all` ends up holding every name it is given.
proof fn lemma_add_all_has(list: Seq<Seq<char>>, names: Seq<Seq<char>>, k: int)
    requires
        0 <= k < names.len(),
    ensures
        add_all(list, names).contains(names[k]),
    decreases names.len(),
{
    let a = add_all(list, names.drop_last());
    if k < names.len() - 1 {
        lemma_add_all_has(list, names.drop_last(), k);
        assert(names.drop_last()[k] == names[k]);
        if !a.contains(names.last()) {
            let q = choose|q: int| 0 <= q < a.len() && a[q] == names[k];
            assert(a.push(names.last())[q] == names[k]);
        }
    } else if !a.contains(names.last()) {
        assert(a.push(names.last())[a.len() as int] == names.last());
    }
}

/// No pair is left over when the list knows every name.
proof fn lemma_extra_none(vals: Seq<(Seq<char>, Seq<char>)>, list: Seq<Seq<char>>)
    requires
        forall|i: int| 0 <= i < vals.len() ==> list.contains((#[trigger] vals[i]).0),
    ensures
        extra_pairs(vals, list) == Seq::<(Seq<char>, Seq<char>)>::empty(),
    decreases vals.len(),
{
    if vals.len() > 0 {
        let pre = vals.drop_last();
        assert forall|i: int| 0 <= i < pre.len() implies list.contains((#[trigger] pre[i]).0) by {
            assert(pre[i] == vals[i]);
        }
        lemma_extra_none(pre, list);
        assert(vals.last() == vals[vals.len() - 1]);
    }
}

/// A name's looked-up value stands in a pair with that name.
proof fn lemma_value_of_at(vals: Seq<(Seq<char>, Seq<char>)>, k: Seq<char>)
    requires
        value_of(vals, k) is Some,
    ensures
        exists|i: int| 0 <= i < vals.len() && vals[i] == (k, value_of(vals, k)->Some_0),
    decreases vals.len(),
{
    if vals[0].0 != k {
        lemma_value_of_at(vals.drop_first(), k);
        let i = choose|i: int| 0 <= i < vals.drop_first().len() && vals.drop_first()[i] == (k, value_of(vals, k)->Some_0);
        assert(vals[i + 1] == vals.drop_first()[i]);
    } else {
        assert(vals[0] == (k, value_of(vals, k)->Some_0));
    }
}

/// With names that do not repeat, the map of the pairs agrees with the
/// lookup of the first pair.
proof fn lemma_value_of_map(vals: Seq<(Seq<char>, Seq<char>)>, k: Seq<char>)
    requires
        keys(vals).no_duplicates(),
        value_of(vals, k) is Some,
    ensures
        vals_map(vals).contains_key(k),
        vals_map(vals)[k] == value_of(vals, k)->Some_0,
{
    lemma_value_of_at(vals, k);
    let i = choose|i: int| 0 <= i < vals.len() && vals[i] == (k, value_of(vals, k)->Some_0);
    assert forall|j: int| i < j < vals.len() implies (#[trigger] vals[j]).0 != vals[i].0 by {
        assert(keys(vals)[j] == vals[j].0 && keys(vals)[i] == vals[i].0);
    }
    crate::model::lemma_values_map_last(vals, i);
}

/// A recipe that `save_recipe` accepts is saved with the id, name and
/// values it was given, stamped `now`: each given name holds the value it
/// was given (the names the global list adds beside them hold none), and
/// no name stands twice in the saved values.
pub proof fn lemma_save_recipe_keeps_given(l: LibraryV, now: Seq<char>, u: RecipeV)
    requires
        save_recipe_spec(l, now, u).0 is Ok,
    ensures
        ({
            let x = save_recipe_spec(l, now, u).0->Ok_0;
            &&& x.id == u.id
            &&& x.name == u.name
            &&& x.updated == now
            &&& keys(x.values).no_duplicates()
            &&& forall|i: int| 0 <= i < u.values.len() ==> value_of(x.values, (#[trigger] u.values[i]).0) == Some(u.values[i].1)
            &&& forall|i: int| 0 <= i < u.values.len() ==> vals_map(x.values).contains_key((#[trigger] u.values[i]).0)
                && vals_map(x.values)[u.values[i].0] == u.values[i].1
        }),
{
    reveal(save_recipe_spec);
    let x = save_recipe_spec(l, now, u).0->Ok_0;
    let list0 = reconciled(l)->Ok_0;
    let list = add_all(list0, keys(u.values));
    lemma_first_dup_none(u.values);
    lemma_first_invalid_none(u.values);
    lemma_reconciled_ok(l);
    lemma_add_all_grows(list0, keys(u.values));
    assert forall|i: int| 0 <= i < u.values.len() implies list.contains((#[trigger] u.values[i]).0) by {
        assert(keys(u.values)[i] == u.values[i].0);
    }
    lemma_extra_none(u.values, list);
    let f = |m: Seq<char>| (m, or_empty(value_of(u.values, m)));
    assert(x.values =~= list.map_values(f));
    assert(keys(x.values) =~= list);
    assert forall|i: int| 0 <= i < u.values.len() implies value_of(x.values, (#[trigger] u.values[i]).0) == Some(
        u.values[i].1,
    ) && vals_map(x.values).contains_key(u.values[i].0) && vals_map(x.values)[u.values[i].0] == u.values[i].1 by {
        lemma_value_of_listed(list, u.values, extra_pairs(u.values, list), u.values[i].0);
        lemma_value_of_distinct(u.values, i);
        lemma_value_of_map(x.values, u.values[i].0);
    }
}

proof fn lemma_pos_in(o: Seq<Seq<char>>, x: Seq<char>)
    ensures
        pos_in(o, x) matches Some(k) ==> 0 <= k < o.len() && o[k] == x,
        o.contains(x) ==> pos_in(o, x) is Some,
    decreases o.len(),
{
    if o.len() > 0 && o.last() != x {
        lemma_pos_in(o.drop_last(), x);
        if o.contains(x) {
            let j = choose|j: int| 0 <= j < o.len() && o[j] == x;
            assert(j < o.len() - 1);
            assert(o.drop_last()[j] == x);
        }
    }
}

/// The ids of the prompts a listing holds are distinct when its files hold
/// each id once.
#[verifier::spinoff_prover]
#[verifier::rlimit(60)]
proof fn lemma_loaded_ids_distinct(d: Seq<(Seq<char>, Option<Seq<char>>)>)
    requires
        ids_once(d),
    ensures
        forall|a: int, b: int|
            0 <= a < b < loaded_prompts(d).len() ==> (#[trigger] loaded_prompts(d)[a]).id != (
            #[trigger] loaded_prompts(d)[b]).id,
    decreases d.len(),
{
    if d.len() > 0 {
        let pre = d.drop_last();
        assert(ids_once(pre)) by {
            assert forall|i: int, j: int|
                0 <= i < pre.len() && 0 <= j < pre.len() && i != j && (#[trigger] entry_prompt(pre[i])) is Some && (
                #[trigger] entry_prompt(pre[j])) is Some implies entry_prompt(pre[i])->0.id != entry_prompt(pre[j])->0.id by {
                assert(pre[i] == d[i] && pre[j] == d[j]);
            }
        }
        lemma_loaded_ids_distinct(pre);
        let lp = loaded_prompts(pre);
        let ld = loaded_prompts(d);
        if entry_prompt(d.last()) is Some {
            let x = entry_prompt(d.last())->0;
            assert(ld == lp.push(x));
            assert forall|a: int, b: int| 0 <= a < b < ld.len() implies (#[trigger] ld[a]).id != (#[trigger] ld[b]).id by {
                if b < lp.len() {
                    assert(ld[a] == lp[a] && ld[b] == lp[b]);
                } else {
                    assert(ld[a] == lp[a]);
                    assert(lp.contains(lp[a]));
                    lemma_loaded_prompt_entry(pre, lp[a]);
                    let k = choose|k: int| 0 <= k < pre.len() && entry_prompt(#[trigger] pre[k]) == Some(lp[a]) && pre[k].0 == lp[a].file_name;
                    assert(d[k] == pre[k]);
                    assert(entry_prompt(d[k]) is Some && entry_prompt(d[d.len() - 1]) is Some);
                }
            }
        } else {
            assert(ld == lp);
        }
    }
}

#[verifier::spinoff_prover]
#[verifier::rlimit(60)]
proof fn lemma_isort_ids_distinct(s: Seq<PromptV>, lt: spec_fn(PromptV, PromptV) -> bool)
    requires
        forall|a: int, b: int| 0 <= a < b < s.len() ==> (#[trigger] s[a]).id != (#[trigger] s[b]).id,
    ensures
        forall|a: int, b: int|
            0 <= a < b < isort(s, lt).len() ==> (#[trigger] isort(s, lt)[a]).id != (#[trigger] isort(s, lt)[b]).id,
    decreases s.len(),
{
    if s.len() > 0 {
        let pre = s.drop_last();
        assert forall|a: int, b: int| 0 <= a < b < pre.len() implies (#[trigger] pre[a]).id != (#[trigger] pre[b]).id by {
            assert(pre[a] == s[a] && pre[b] == s[b]);
        }
        lemma_isort_ids_distinct(pre, lt);
        let t = isort(pre, lt);
        let x = s.last();
        lemma_first_after_bounds(t, x, lt);
        let p = first_after(t, x, lt);
        let u = t.insert(p, x);
        assert(isort(s, lt) == u);
        assert forall|q: int| 0 <= q < t.len() implies (#[trigger] t[q]).id != x.id by {
            assert(t.contains(t[q]));
            lemma_isort_contains(pre, lt, t[q]);
            let w = choose|w: int| 0 <= w < pre.len() && pre[w] == t[q];
            assert(s[w] == pre[w]);
            assert(x == s[s.len() - 1]);
        }
        assert forall|a: int, b: int| 0 <= a < b < u.len() implies (#[trigger] u[a]).id != (#[trigger] u[b]).id by {
            if b < p {
                assert(u[a] == t[a] && u[b] == t[b]);
            } else if b == p {
                assert(u[a] == t[a]);
            } else if a < p {
                assert(u[a] == t[a] && u[b] == t[b - 1]);
            } else if a == p {
                assert(u[b] == t[b - 1]);
            } else {
                assert(u[a] == t[a - 1] && u[b] == t[b - 1]);
            }
        }
    }
}

/// Strictly rising positions below `n`, `n` of them, are `0, 1, ..., n - 1`.
proof fn lemma_rising_positions(p: Seq<int>)
    requires
        forall|i: int, j: int| 0 <= i < j < p.len() ==> #[trigger] p[i] < #[trigger] p[j],
        forall|i: int| 0 <= i < p.len() ==> 0 <= #[trigger] p[i] < p.len(),
    ensures
        forall|i: int| 0 <= i < p.len() ==> #[trigger] p[i] == i,
{
    assert forall|i: int| 0 <= i < p.len() implies #[trigger] p[i] >= i by {
        lemma_rising_low(p, i);
    }
    assert forall|i: int| 0 <= i < p.len() implies #[trigger] p[i] <= i by {
        lemma_rising_high(p, i);
    }
}

proof fn lemma_rising_low(p: Seq<int>, i: int)
    requires
        forall|a: int, b: int| 0 <= a < b < p.len() ==> #[trigger] p[a] < #[trigger] p[b],
        forall|a: int| 0 <= a < p.len() ==> 0 <= #[trigger] p[a] < p.len(),
        0 <= i < p.len(),
    ensures
        p[i] >= i,
    decreases i,
{
    if i > 0 {
        lemma_rising_low(p, i - 1);
        assert(p[i - 1] < p[i]);
    }
}

proof fn lemma_rising_high(p: Seq<int>, i: int)
    requires
        forall|a: int, b: int| 0 <= a < b < p.len() ==> #[trigger] p[a] < #[trigger] p[b],
        forall|a: int| 0 <= a < p.len() ==> 0 <= #[trigger] p[a] < p.len(),
        0 <= i < p.len(),
    ensures
        p[i] <= i,
    decreases p.len() - i,
{
    if i < p.len() - 1 {
        lemma_rising_high(p, i + 1);
        assert(p[i] < p[i + 1]);
    }
}

/// After `reorder_prompts`, the prompts are listed in the new order (in a
/// folder whose prompt files hold each id once, for a request that names
/// each id once).
#[verifier::spinoff_prover]
#[verifier::rlimit(60)]
pub proof fn lemma_reorder_lists(l: LibraryV, ids: Seq<Seq<char>>)
    requires
        prompts_of(l) is Ok,
        ids.no_duplicates(),
        ids_once(l.prompts),
    ensures
        prompts_of(reorder_spec(l, ids).1) matches Ok(ps) && prompt_ids(ps) == reorder_spec(l, ids).0->Ok_0,
{
    lemma_reorder_result(l, ids);
    let d = l.prompts;
    let ps = prompts_of(l)->Ok_0;
    let cur = prompt_ids(ps);
    let o = reorder_spec(l, ids).0->Ok_0;
    let l2 = reorder_spec(l, ids).1;
    assert(l2.prompts == d);
    let ps2 = prompts_of(l2)->Ok_0;
    let lt0 = |a: PromptV, b: PromptV| prompt_lt(order_of(l)->Ok_0, a, b);
    let lt = |a: PromptV, b: PromptV| prompt_lt(o, a, b);
    assert(ps == isort(loaded_prompts(d), lt0));
    assert(ps2 == isort(loaded_prompts(d), lt));
    lemma_loaded_ids_distinct(d);
    lemma_isort_ids_distinct(loaded_prompts(d), lt);
    lemma_isort_ids_distinct(loaded_prompts(d), lt0);
    lemma_prompts_sorted(l2);
    let ids2 = prompt_ids(ps2);
    // every listed id has a place in the new order, and the places rise
    assert forall|i: int| 0 <= i < ps2.len() implies o.contains(#[trigger] ps2[i].id) by {
        assert(ps2.contains(ps2[i]));
        lemma_isort_contains(loaded_prompts(d), lt, ps2[i]);
        lemma_isort_contains(loaded_prompts(d), lt0, ps2[i]);
        let k = choose|k: int| 0 <= k < ps.len() && ps[k] == ps2[i];
        assert(cur[k] == ps2[i].id);
        assert(cur.contains(ps2[i].id));
    }
    // the listed ids are the ids of the new order, each once
    assert(ids2.no_duplicates()) by {
        assert forall|a: int, b: int| 0 <= a < ids2.len() && 0 <= b < ids2.len() && a != b implies ids2[a] != ids2[b] by {
            if a < b {
                assert(ps2[a].id != ps2[b].id);
            } else {
                assert(ps2[b].id != ps2[a].id);
            }
        }
    }
    assert(ids2.to_set() =~= o.to_set()) by {
        assert forall|x: Seq<char>| ids2.to_set().contains(x) <==> o.to_set().contains(x) by {
            if ids2.contains(x) {
                let i = choose|i: int| 0 <= i < ids2.len() && ids2[i] == x;
                assert(o.contains(ps2[i].id));
            }
            if o.contains(x) {
                assert(cur.contains(x));
                let k = choose|k: int| 0 <= k < cur.len() && cur[k] == x;
                assert(ps.contains(ps[k]));
                lemma_isort_contains(loaded_prompts(d), lt0, ps[k]);
                lemma_isort_contains(loaded_prompts(d), lt, ps[k]);
                let i = choose|i: int| 0 <= i < ps2.len() && ps2[i] == ps[k];
                assert(ids2[i] == x);
            }
        }
    }
    ids2.unique_seq_to_set();
    o.unique_seq_to_set();
    assert(ids2.len() == o.len());
    let pos = Seq::new(ps2.len(), |i: int| pos_in(o, ps2[i].id)->0);
    assert forall|i: int| 0 <= i < pos.len() implies 0 <= #[trigger] pos[i] < pos.len() && o[pos[i]] == ps2[i].id && pos_in(
        o,
        ps2[i].id,
    ) == Some(pos[i]) by {
        lemma_pos_in(o, ps2[i].id);
        assert(o.contains(ps2[i].id));
    }
    assert forall|i: int, j: int| 0 <= i < j < pos.len() implies #[trigger] pos[i] < #[trigger] pos[j] by {
        assert(!prompt_lt(o, ps2[j], ps2[i]));
        assert(ps2[i].id != ps2[j].id);
    }
    lemma_rising_positions(pos);
    assert(ids2 =~= o) by {
        assert forall|i: int| 0 <= i < ids2.len() implies ids2[i] == o[i] by {
            assert(pos[i] == i);
        }
    }
}

/// Writing files keeps what is known of the folders that could not be
/// listed.
proof fn lemma_backfill_keeps_errors(l: LibraryV, rs: Seq<RecipeV>, list: Seq<Seq<char>>, skip: Option<Seq<char>>)
    ensures
        backfill(l, rs, list, skip).prompts_error == l.prompts_error,
        backfill(l, rs, list, skip).recipes_error == l.recipes_error,
        backfill(l, rs, list, skip).open_error == l.open_error,
    decreases rs.len(),
{
    if rs.len() > 0 {
        lemma_backfill_keeps_errors(l, rs.drop_last(), list, skip);
    }
}

proof fn lemma_prompt_ops_keep_errors(l: LibraryV, now: Seq<char>, u: PromptV, id: Seq<char>, t: Seq<char>, c: Seq<char>)
    ensures
        create_prompt_spec(l, id, now, t, c).1.prompts_error == l.prompts_error,
        create_prompt_spec(l, id, now, t, c).1.recipes_error == l.recipes_error,
        save_prompt_spec(l, now, u).1.prompts_error == l.prompts_error,
        save_prompt_spec(l, now, u).1.recipes_error == l.recipes_error,
{
    reveal(create_prompt_spec);
    reveal(save_prompt_spec);
}

proof fn lemma_recipe_ops_keep_errors(l: LibraryV, now: Seq<char>, v: RecipeV, id: Seq<char>, t: Seq<char>)
    ensures
        create_recipe_spec(l, id, now, t).1.prompts_error == l.prompts_error,
        create_recipe_spec(l, id, now, t).1.recipes_error == l.recipes_error,
        save_recipe_spec(l, now, v).1.prompts_error == l.prompts_error,
        save_recipe_spec(l, now, v).1.recipes_error == l.recipes_error,
{
    reveal(create_recipe_spec);
    reveal(save_recipe_spec);
    if let Ok(list0) = reconciled(l) {
        let list = add_all(list0, keys(v.values));
        if let Ok(existing) = recipe_by_id(l, v.id) {
            let r = RecipeV { file_name: existing.file_name, updated: now, values: normalized(v.values, list), ..v };
            let l3 = wrote_variables(wrote_recipe(l, r), list);
            lemma_backfill_keeps_errors(l3, recipes_of(l3), list, Some(r.id));
        }
    }
}

// ---------- the listings ----------

/// `list_prompts` holds exactly the prompts of the folder's readable,
/// well-formed `.md` files, each once per file; an unreadable or corrupt
/// file is skipped and fails nothing.
pub proof fn lemma_prompt_listing(l: LibraryV, p: PromptV)
    requires
        l.prompts_error is None,
        order_of(l) is Ok,
    ensures
        prompts_of(l) is Ok,
        (prompts_of(l)->Ok_0).to_multiset() == loaded_prompts(l.prompts).to_multiset(),
        (prompts_of(l)->Ok_0).contains(p) <==> exists|i: int| 0 <= i < l.prompts.len() && entry_prompt(#[trigger] l.prompts[i]) == Some(p),
{
    let o = order_of(l)->Ok_0;
    let lt = |a: PromptV, b: PromptV| prompt_lt(o, a, b);
    lemma_isort_perm(loaded_prompts(l.prompts), lt);
    lemma_isort_contains(loaded_prompts(l.prompts), lt, p);
    if loaded_prompts(l.prompts).contains(p) {
        lemma_loaded_prompt_entry(l.prompts, p);
    }
    if exists|i: int| 0 <= i < l.prompts.len() && entry_prompt(#[trigger] l.prompts[i]) == Some(p) {
        let i = choose|i: int| 0 <= i < l.prompts.len() && entry_prompt(#[trigger] l.prompts[i]) == Some(p);
        lemma_loaded_prompt_has(l.prompts, i);
    }
}

/// `list_recipes` holds exactly the recipes of the folder's readable,
/// well-formed `.yaml`/`.yml` files, each once per file; an unreadable or
/// corrupt file is skipped and fails nothing.
pub proof fn lemma_recipe_listing(l: LibraryV, r: RecipeV)
    ensures
        recipes_of(l).to_multiset() == loaded_recipes(l.recipes).to_multiset(),
        recipes_of(l).contains(r) <==> exists|i: int| 0 <= i < l.recipes.len() && entry_recipe(#[trigger] l.recipes[i]) == Some(r),
{
    let lt = |a: RecipeV, b: RecipeV| recipe_lt(a, b);
    lemma_isort_perm(loaded_recipes(l.recipes), lt);
    lemma_isort_contains(loaded_recipes(l.recipes), lt, r);
    if loaded_recipes(l.recipes).contains(r) {
        lemma_loaded_entry(l.recipes, r);
    }
    if exists|i: int| 0 <= i < l.recipes.len() && entry_recipe(#[trigger] l.recipes[i]) == Some(r) {
        let i = choose|i: int| 0 <= i < l.recipes.len() && entry_recipe(#[trigger] l.recipes[i]) == Some(r);
        lemma_loaded_has(l.recipes, i);
    }
}

} // verus!
