use prompt_manager::model::{Prompt, Recipe};
use prompt_manager::storage::{Effect, Library, Stored, StoreError};

const NOW: &str = "2026-07-23T10:00:00Z";
const LATER: &str = "2026-07-23T11:00:00Z";

fn tmp_lib() -> Library {
    Library::new("/tmp/pm-test")
}

fn value_of(r: &Recipe, name: &str) -> Option<String> {
    r.values.iter().find(|(k, _)| k == name).map(|(_, v)| v.clone())
}

fn no_overrides() -> Vec<(String, String)> {
    vec![]
}

#[test]
fn crud_prompt_and_order() {
    let mut lib = tmp_lib();
    let a = lib.create_prompt("p-a", NOW, "Beta", "obsah B {{x}}").unwrap();
    let b = lib.create_prompt("p-b", NOW, "Alfa", "obsah A").unwrap();
    // creation order preserved via order.json
    let list = lib.list_prompts().unwrap();
    assert_eq!(list[0].id, a.id);
    assert_eq!(list[1].id, b.id);
    // reorder
    lib.reorder_prompts(&vec![b.id.clone(), a.id.clone()]).unwrap();
    let list = lib.list_prompts().unwrap();
    assert_eq!(list[0].id, b.id);
    // update
    let mut e = list[1].clone();
    e.title = "Beta 2".into();
    e.content = "nový obsah".into();
    let saved = lib.save_prompt(LATER, &e).unwrap();
    assert_eq!(saved.title, "Beta 2");
    assert_eq!(saved.file_name, a.file_name, "file name must be stable");
    assert!(!saved.updated.is_empty());
    // delete
    lib.delete_prompt(&a.id).unwrap();
    assert_eq!(lib.list_prompts().unwrap().len(), 1);
    assert_eq!(lib.load_order().unwrap(), vec![b.id.clone()]);
}

#[test]
fn slug_collisions() {
    let mut lib = tmp_lib();
    let a = lib.create_prompt("p-1", NOW, "Stejný název", "1").unwrap();
    let b = lib.create_prompt("p-2", NOW, "Stejný název", "2").unwrap();
    assert_eq!(a.file_name, "stejny-nazev.md");
    assert_eq!(b.file_name, "stejny-nazev-2.md");
}

#[test]
fn recipes_crud_and_refs() {
    let mut lib = tmp_lib();
    let r = lib.create_recipe("r-a", NOW, "Recept A").unwrap();
    let mut r2 = r.clone();
    r2.values = vec![("cesta".into(), "C:\\X".into())];
    lib.save_recipe(NOW, &r2).unwrap();

    let p = lib.create_prompt("p-1", NOW, "P", "{{cesta}} a {{jine}}").unwrap();
    let mut p2 = p.clone();
    p2.recipes = vec![r.id.clone()];
    p2.selected_recipe = Some(r.id.clone());
    lib.save_prompt(NOW, &p2).unwrap();

    assert_eq!(lib.recipe_usage(&r.id).unwrap(), vec!["P".to_string()]);

    // delete recipe -> reference and selection cleaned
    let affected = lib.delete_recipe(&r.id).unwrap();
    assert_eq!(affected, vec!["P".to_string()]);
    let p3 = lib.get_prompt(&p.id).unwrap();
    assert!(p3.recipes.is_empty());
    assert_eq!(p3.selected_recipe, None);
}

#[test]
fn save_prompt_drops_dead_recipe_refs() {
    let mut lib = tmp_lib();
    let p = lib.create_prompt("p-1", NOW, "P", "x").unwrap();
    let mut p2 = p.clone();
    p2.recipes = vec!["r-neexistuje".into()];
    p2.selected_recipe = Some("r-neexistuje".into());
    let saved = lib.save_prompt(NOW, &p2).unwrap();
    assert!(saved.recipes.is_empty());
    assert_eq!(saved.selected_recipe, None);
}

#[test]
fn variables_are_global_and_ordered() {
    let mut lib = tmp_lib();
    let mut a = lib.create_recipe("r-a", NOW, "A").unwrap();
    a.values = vec![("x".into(), "1".into()), ("y".into(), "2".into())];
    lib.save_recipe(NOW, &a).unwrap();
    let mut b = lib.create_recipe("r-b", NOW, "B").unwrap();
    b.values = vec![("x".into(), "9".into())]; // y omitted on purpose
    lib.save_recipe(NOW, &b).unwrap();

    assert_eq!(lib.list_variables().unwrap(), vec!["x", "y"]);
    let vars = lib.variables().unwrap();
    assert_eq!(vars.len(), 2);
    assert_eq!(vars[0].0, "x", "order comes from variables.json, not the alphabet");
    // every variable now lists EVERY recipe
    assert_eq!(vars[0].1.len(), 2);
    assert_eq!(vars[1].1.len(), 2);
    // the omitted key was backfilled as empty rather than lost
    assert_eq!(value_of(&lib.get_recipe(&b.id).unwrap(), "y"), Some(String::new()));
}

#[test]
fn variables_survive_zero_recipes() {
    let mut lib = tmp_lib();
    lib.add_variable("foo").unwrap();
    assert_eq!(lib.list_variables().unwrap(), vec!["foo"]);
}

#[test]
fn new_recipe_gets_all_variables() {
    let mut lib = tmp_lib();
    lib.add_variable("a").unwrap();
    lib.add_variable("b").unwrap();
    let r = lib.create_recipe("r-1", NOW, "R").unwrap();
    let keys: Vec<String> = r.values.iter().map(|(k, _)| k.clone()).collect();
    assert_eq!(keys, vec!["a", "b"]);
}

#[test]
fn save_recipe_extends_global_list_and_backfills_others() {
    let mut lib = tmp_lib();
    let a = lib.create_recipe("r-a", NOW, "A").unwrap();
    let b = lib.create_recipe("r-b", NOW, "B").unwrap();
    let mut a2 = a.clone();
    a2.values = vec![("nova".into(), "1".into())];
    lib.save_recipe(NOW, &a2).unwrap();

    assert_eq!(lib.list_variables().unwrap(), vec!["nova"]);
    assert_eq!(
        value_of(&lib.get_recipe(&b.id).unwrap(), "nova"),
        Some(String::new()),
        "a variable introduced through one recipe must reach the others"
    );
}

#[test]
fn migrate_backfills_recipes_and_is_idempotent() {
    let mut lib = tmp_lib();
    // a library of an earlier version: recipes with different key subsets,
    // no variables.json
    let r1 = Recipe {
        id: "r-1".into(),
        name: "A".into(),
        updated: "t".into(),
        values: vec![("x".into(), "1".into()), ("y".into(), "2".into())],
        file_name: "a.yaml".into(),
    };
    let r2 = Recipe {
        id: "r-2".into(),
        name: "B".into(),
        updated: "t".into(),
        values: vec![("z".into(), "3".into())],
        file_name: "b.yaml".into(),
    };
    lib.add_recipe_file("a.yaml".into(), Some(r1.to_yaml()));
    lib.add_recipe_file("b.yaml".into(), Some(r2.to_yaml()));

    let list = lib.migrate().unwrap();
    assert_eq!(list, vec!["x", "y", "z"]);
    for r in lib.list_recipes().unwrap() {
        assert_eq!(r.values.len(), 3, "every recipe must carry every variable");
    }
    let b = lib.get_recipe("r-2").unwrap();
    assert_eq!(value_of(&b, "x"), Some(String::new()));
    assert_eq!(value_of(&b, "z"), Some("3".to_string()), "values are kept");

    // a second migrate must not write anything
    let first = lib.take_effects();
    assert!(!first.is_empty());
    assert_eq!(lib.migrate().unwrap(), list);
    assert!(lib.take_effects().is_empty(), "migrate must not rewrite anything");
}

#[test]
fn rename_variable_rewrites_recipes_and_prompts() {
    let mut lib = tmp_lib();
    let mut r = lib.create_recipe("r-1", NOW, "R").unwrap();
    r.values = vec![("stary".into(), "hodnota".into())];
    let r = lib.save_recipe(NOW, &r).unwrap();
    let p = lib.create_prompt("p-1", NOW, "P", "A {{stary}} B \\{{stary}}").unwrap();

    lib.rename_variable(LATER, "stary", "novy").unwrap();

    assert_eq!(lib.list_variables().unwrap(), vec!["novy"]);
    assert_eq!(
        value_of(&lib.get_recipe(&r.id).unwrap(), "novy"),
        Some("hodnota".to_string()),
        "the value must survive the rename"
    );
    assert_eq!(
        lib.get_prompt(&p.id).unwrap().content,
        "A {{novy}} B \\{{stary}}",
        "the escaped form must stay untouched"
    );
    assert!(matches!(
        lib.rename_variable(LATER, "neexistuje", "x"),
        Err(StoreError::NotFound(_))
    ));
}

#[test]
fn delete_variable_keeps_prompt_bodies() {
    let mut lib = tmp_lib();
    let mut r = lib.create_recipe("r-1", NOW, "R").unwrap();
    r.values = vec![("a".into(), "A".into()), ("b".into(), "B".into())];
    let r = lib.save_recipe(NOW, &r).unwrap();
    let p = lib.create_prompt("p-1", NOW, "P", "{{a}} {{b}}").unwrap();
    assert_eq!(lib.variable_usage("a").unwrap(), vec!["P".to_string()]);

    lib.delete_variable("a").unwrap();

    assert_eq!(lib.list_variables().unwrap(), vec!["b"]);
    assert!(value_of(&lib.get_recipe(&r.id).unwrap(), "a").is_none());
    assert_eq!(
        lib.get_prompt(&p.id).unwrap().content,
        "{{a}} {{b}}",
        "prompt bodies are deliberately left alone"
    );
    // the orphaned placeholder simply reports as missing
    let out = lib.render_prompt(&p.id, Some(&r.id), &no_overrides()).unwrap();
    assert_eq!(out.text, "{{a}} B");
    assert_eq!(out.missing, vec!["a"]);
}

#[test]
fn empty_recipe_value_renders_as_missing() {
    let mut lib = tmp_lib();
    let mut r = lib.create_recipe("r-1", NOW, "R").unwrap();
    r.values = vec![("a".into(), "".into()), ("b".into(), "B".into())];
    let r = lib.save_recipe(NOW, &r).unwrap();
    let p = lib.create_prompt("p-1", NOW, "P", "{{a}}/{{b}}").unwrap();
    let out = lib.render_prompt(&p.id, Some(&r.id), &no_overrides()).unwrap();
    assert_eq!(out.text, "{{a}}/B");
    assert_eq!(out.missing, vec!["a"]);
}

#[test]
fn render_with_recipe_and_overrides() {
    let mut lib = tmp_lib();
    let mut r = lib.create_recipe("r-1", NOW, "R").unwrap();
    r.values = vec![("a".into(), "AAA".into())];
    let r = lib.save_recipe(NOW, &r).unwrap();
    let p = lib.create_prompt("p-1", NOW, "P", "{{a}} {{b}}").unwrap();

    let out = lib.render_prompt(&p.id, Some(&r.id), &no_overrides()).unwrap();
    assert_eq!(out.text, "AAA {{b}}");
    assert_eq!(out.missing, vec!["b"]);

    let ov = vec![("b".to_string(), "BBB".to_string())];
    let out = lib.render_prompt(&p.id, Some(&r.id), &ov).unwrap();
    assert_eq!(out.text, "AAA BBB");
    assert!(out.missing.is_empty());

    // raw
    let out = lib.render_prompt(&p.id, None, &no_overrides()).unwrap();
    assert_eq!(out.text, "{{a}} {{b}}");
}

#[test]
fn invalid_recipe_values_rejected() {
    let mut lib = tmp_lib();
    let r = lib.create_recipe("r-1", NOW, "R").unwrap();
    let mut bad = r.clone();
    bad.values = vec![("Špatný Klíč".into(), "x".into())];
    assert!(matches!(
        lib.save_recipe(NOW, &bad),
        Err(StoreError::Invalid(_))
    ));
    let mut dup = r.clone();
    dup.values = vec![("a".into(), "1".into()), ("a".into(), "2".into())];
    assert!(matches!(lib.save_recipe(NOW, &dup), Err(StoreError::Invalid(_))));
}

#[test]
fn seed_only_once() {
    let mut lib = tmp_lib();
    assert!(lib.seed_if_empty(NOW, "r-1", "r-2", "p-1", "p-2").unwrap());
    assert!(!lib.seed_if_empty(NOW, "r-3", "r-4", "p-3", "p-4").unwrap());
    let prompts = lib.list_prompts().unwrap();
    assert_eq!(prompts.len(), 2);
    assert_eq!(prompts[0].title, "Code review");
    assert_eq!(prompts[0].recipes.len(), 2);
    assert_eq!(prompts[0].selected_recipe.as_deref(), Some("r-1"));
    assert_eq!(lib.list_recipes().unwrap().len(), 2);
    assert_eq!(lib.list_variables().unwrap(), vec!["projekt_cesta", "projekt_nazev", "jazyk"]);
}

#[test]
fn corrupt_file_does_not_blank_the_library() {
    let mut lib = tmp_lib();
    lib.create_prompt("p-1", NOW, "Dobrý", "obsah").unwrap();
    let r = lib.create_recipe("r-1", NOW, "Recept").unwrap();
    // a torn/garbage file next to the healthy ones
    lib.add_prompt_file("torn.md".into(), Some("---\nid: bez konce".into()));
    lib.add_recipe_file("torn.yaml".into(), Some("\u{0}\u{0}\u{0}".into()));
    lib.add_prompt_file("unreadable.md".into(), None);
    let prompts = lib.list_prompts().unwrap();
    assert_eq!(prompts.len(), 1);
    assert_eq!(prompts[0].title, "Dobrý");
    let recipes = lib.list_recipes().unwrap();
    assert_eq!(recipes.len(), 1);
    assert_eq!(recipes[0].id, r.id);
}

/// Loads the files a sequence of writes leaves behind into a fresh library.
fn replay(effects: &[Effect]) -> Library {
    let mut prompts: Vec<(String, String)> = vec![];
    let mut recipes: Vec<(String, String)> = vec![];
    let mut order = None;
    let mut variables = None;
    for e in effects {
        match e {
            Effect::WritePrompt(n, t) => {
                prompts.retain(|(k, _)| k != n);
                prompts.push((n.clone(), t.clone()));
            }
            Effect::RemovePrompt(n) => prompts.retain(|(k, _)| k != n),
            Effect::WriteRecipe(n, t) => {
                recipes.retain(|(k, _)| k != n);
                recipes.push((n.clone(), t.clone()));
            }
            Effect::RemoveRecipe(n) => recipes.retain(|(k, _)| k != n),
            Effect::WriteOrder(t) => order = Some(t.clone()),
            Effect::WriteVariables(t) => variables = Some(t.clone()),
        }
    }
    let mut lib = Library::new("/tmp/pm-copy");
    for (n, t) in prompts {
        lib.add_prompt_file(n, Some(t));
    }
    for (n, t) in recipes {
        lib.add_recipe_file(n, Some(t));
    }
    if let Some(t) = order {
        lib.set_order_stored(Stored::Text(t));
    }
    if let Some(t) = variables {
        lib.set_variables_stored(Stored::Text(t));
    }
    lib
}

#[test]
fn portable_copy_of_library() {
    let mut lib = tmp_lib();
    lib.seed_if_empty(NOW, "r-1", "r-2", "p-1", "p-2").unwrap();
    let order = lib.load_order().unwrap();
    let effects = lib.take_effects();
    // the files written, read back on another machine
    let lib2 = replay(&effects);
    assert_eq!(lib.list_prompts().unwrap().len(), lib2.list_prompts().unwrap().len());
    assert_eq!(lib2.load_order().unwrap(), order);
    assert_eq!(lib.list_recipes().unwrap().len(), lib2.list_recipes().unwrap().len());
    assert_eq!(lib2.list_variables().unwrap(), lib.list_variables().unwrap());
}

#[test]
fn writes_are_queued_in_order() {
    let mut lib = tmp_lib();
    lib.create_prompt("p-1", NOW, "Ahoj světe", "x").unwrap();
    let effects = lib.take_effects();
    assert_eq!(effects.len(), 2);
    match &effects[0] {
        Effect::WritePrompt(name, text) => {
            assert_eq!(name, "ahoj-svete.md");
            assert!(text.starts_with("---\nid: p-1\ntitle: Ahoj světe\n"));
            assert!(text.ends_with("---\nx"));
        }
        _ => panic!("expected the prompt file first"),
    }
    match &effects[1] {
        Effect::WriteOrder(text) => assert_eq!(text, "{\n  \"prompts\": [\n    \"p-1\"\n  ]\n}"),
        _ => panic!("expected order.json second"),
    }
    assert!(lib.take_effects().is_empty());
}

#[test]
fn unreadable_order_file_is_an_error() {
    let mut lib = tmp_lib();
    lib.set_order_stored(Stored::Unreadable("Permission denied (os error 13)".into()));
    match lib.list_prompts() {
        Err(e) => assert_eq!(e.message(), "IO error: Permission denied (os error 13)"),
        Ok(_) => panic!("expected an IO error"),
    }
    lib.set_order_stored(Stored::Text("not json".into()));
    match lib.load_order() {
        Err(StoreError::Parse(f, _)) => assert_eq!(f, "order.json"),
        _ => panic!("expected a parse error"),
    }
    lib.set_order_stored(Stored::Text("{\"prompts\": [\"a\", 1, \"b\"]}".into()));
    assert_eq!(lib.load_order().unwrap(), vec!["a", "b"]);
}

#[test]
fn unknown_ids_are_not_found() {
    let mut lib = tmp_lib();
    assert!(matches!(lib.get_prompt("nope"), Err(StoreError::NotFound(id)) if id == "nope"));
    assert!(matches!(lib.get_recipe("nope"), Err(StoreError::NotFound(_))));
    assert!(matches!(lib.delete_prompt("nope"), Err(StoreError::NotFound(_))));
    assert!(matches!(lib.delete_variable("nope"), Err(StoreError::NotFound(_))));
    assert!(matches!(lib.add_variable("Bad Name"), Err(StoreError::Invalid(m)) if m == "invalid variable name 'Bad Name' (allowed: a-z, 0-9, _)"));
    lib.add_variable("a").unwrap();
    assert!(matches!(lib.add_variable("a"), Err(StoreError::Invalid(m)) if m == "variable 'a' already exists"));
    assert_eq!(StoreError::NotFound("x".into()).message(), "Not found: x");
}

#[test]
fn duplicate_prompt_copies_assignment() {
    let mut lib = tmp_lib();
    let r = lib.create_recipe("r-1", NOW, "R").unwrap();
    let mut p = lib.create_prompt("p-1", NOW, "Původní", "obsah").unwrap();
    p.recipes = vec![r.id.clone()];
    p.selected_recipe = Some(r.id.clone());
    lib.save_prompt(NOW, &p).unwrap();
    let c = lib.duplicate_prompt("p-2", LATER, "p-1").unwrap();
    assert_eq!(c.id, "p-2");
    assert_eq!(c.title, "Původní (kopie)");
    assert_eq!(c.content, "obsah");
    assert_eq!(c.recipes, vec![r.id.clone()]);
    assert_eq!(c.selected_recipe, Some(r.id.clone()));
    assert_eq!(c.file_name, "puvodni-kopie.md");
    assert_eq!(lib.load_order().unwrap(), vec!["p-1", "p-2"]);
}

#[test]
fn reorder_drops_unknown_and_appends_missing() {
    let mut lib = tmp_lib();
    for (id, t) in [("p-1", "A"), ("p-2", "B"), ("p-3", "C")] {
        lib.create_prompt(id, NOW, t, "").unwrap();
    }
    let order = lib
        .reorder_prompts(&vec!["p-3".into(), "ghost".into(), "p-1".into()])
        .unwrap();
    assert_eq!(order, vec!["p-3", "p-1", "p-2"]);
    let ids: Vec<String> = lib.list_prompts().unwrap().into_iter().map(|p: Prompt| p.id).collect();
    assert_eq!(ids, order);
}

#[test]
fn library_paths() {
    let lib = tmp_lib();
    let sep = std::path::MAIN_SEPARATOR;
    assert_eq!(lib.prompts_dir(), format!("/tmp/pm-test{}prompts", sep));
    assert_eq!(lib.order_file(), format!("/tmp/pm-test{}order.json", sep));
    let lib2 = Library::new("/tmp/x/");
    assert_eq!(lib2.recipes_dir(), "/tmp/x/recipes");
}

/// The listing the watcher would see after these writes: each file with
/// its size and a modification time that grows with every write.
fn listing(effects: &[Effect]) -> (Vec<(String, Option<(u64, Option<u128>)>)>, Vec<(String, Option<(u64, Option<u128>)>)>, Option<(u64, Option<u128>)>) {
    let mut prompts: Vec<(String, Option<(u64, Option<u128>)>)> = vec![];
    let mut recipes: Vec<(String, Option<(u64, Option<u128>)>)> = vec![];
    let mut order = None;
    for (t, e) in effects.iter().enumerate() {
        let t = t as u128;
        match e {
            Effect::WritePrompt(n, x) => {
                prompts.retain(|(k, _)| k != n);
                prompts.push((n.clone(), Some((x.len() as u64, Some(t)))));
            }
            Effect::RemovePrompt(n) => prompts.retain(|(k, _)| k != n),
            Effect::WriteRecipe(n, x) => {
                recipes.retain(|(k, _)| k != n);
                recipes.push((n.clone(), Some((x.len() as u64, Some(t)))));
            }
            Effect::RemoveRecipe(n) => recipes.retain(|(k, _)| k != n),
            Effect::WriteOrder(x) => order = Some((x.len() as u64, Some(t))),
            Effect::WriteVariables(_) => {}
        }
    }
    (prompts, recipes, order)
}

#[test]
fn seed_and_fingerprint() {
    let mut lib = tmp_lib();
    assert!(lib.seed_if_empty(NOW, "r-1", "r-2", "p-1", "p-2").unwrap());
    assert!(!lib.seed_if_empty(NOW, "r-3", "r-4", "p-3", "p-4").unwrap());
    let mut effects = lib.take_effects();
    let (p, r, o) = listing(&effects);
    let f1 = Library::fingerprint(&p, &r, o, None);
    let mut p2 = lib.list_prompts().unwrap()[0].clone();
    p2.content.push_str("\nzměna");
    lib.save_prompt(LATER, &p2).unwrap();
    effects.extend(lib.take_effects());
    let (p, r, o) = listing(&effects);
    assert_ne!(f1, Library::fingerprint(&p, &r, o, None));
}

#[test]
fn fingerprint_of_nothing_is_the_offset_basis() {
    assert_eq!(Library::fingerprint(&vec![], &vec![], None, None), 0xcbf29ce484222325);
}

#[test]
fn fingerprint_goes_by_name_not_listing_order() {
    let a = ("a.md".to_string(), Some((10u64, Some(5u128))));
    let b = ("b.md".to_string(), Some((20u64, None)));
    let f1 = Library::fingerprint(&vec![a.clone(), b.clone()], &vec![], Some((3, Some(1))), None);
    let f2 = Library::fingerprint(&vec![b.clone(), a.clone()], &vec![], Some((3, Some(1))), None);
    assert_eq!(f1, f2);
    let c = ("b.md".to_string(), Some((21u64, None)));
    assert_ne!(f1, Library::fingerprint(&vec![a, c], &vec![], Some((3, Some(1))), None));
}

#[test]
fn reorder_holds_exactly_the_listed_prompts() {
    let mut lib = tmp_lib();
    let a = lib.create_prompt("p-a", NOW, "A", "").unwrap();
    let b = lib.create_prompt("p-b", NOW, "B", "").unwrap();
    let c = lib.create_prompt("p-c", NOW, "C", "").unwrap();
    let o = lib.reorder_prompts(&vec![c.id.clone(), "p-zz".into(), a.id.clone()]).unwrap();
    assert_eq!(o, vec![c.id.clone(), a.id.clone(), b.id.clone()]);
    assert_eq!(lib.load_order().unwrap(), o);
}

#[test]
fn delete_prompt_takes_its_id_out_of_the_order() {
    let mut lib = tmp_lib();
    let a = lib.create_prompt("p-a", NOW, "A", "").unwrap();
    let b = lib.create_prompt("p-b", NOW, "B", "").unwrap();
    lib.delete_prompt(&a.id).unwrap();
    assert_eq!(lib.load_order().unwrap(), vec![b.id]);
}

#[test]
fn a_new_file_never_replaces_one() {
    let mut lib = tmp_lib();
    lib.add_prompt_file("x.md".into(), Some("not a prompt".into()));
    lib.add_prompt_file("x-2.md".into(), None);
    let p = lib.create_prompt("p-1", NOW, "X", "").unwrap();
    assert_eq!(p.file_name, "x-3.md");
    lib.add_recipe_file("r.yaml".into(), Some("garbage".into()));
    let r = lib.create_recipe("r-1", NOW, "R").unwrap();
    assert_eq!(r.file_name, "r-2.yaml");
}

#[test]
fn variable_operations_keep_values() {
    let mut lib = tmp_lib();
    let r = lib.create_recipe("r-1", NOW, "R").unwrap();
    let mut r2 = r.clone();
    r2.values = vec![("a".into(), "1".into()), ("b".into(), "2".into())];
    lib.save_recipe(NOW, &r2).unwrap();
    lib.add_variable("c").unwrap();
    let got = lib.get_recipe(&r.id).unwrap();
    assert_eq!(value_of(&got, "c"), Some(String::new()));
    assert_eq!(value_of(&got, "a"), Some("1".into()));
    let list = lib.rename_variable(LATER, "a", "z").unwrap();
    assert!(list.contains(&"z".to_string()) && !list.contains(&"a".to_string()));
    let got = lib.get_recipe(&r.id).unwrap();
    assert_eq!(value_of(&got, "z"), Some("1".into()));
    assert_eq!(value_of(&got, "a"), None);
    let list = lib.delete_variable("b").unwrap();
    assert!(!list.contains(&"b".to_string()));
    assert_eq!(value_of(&lib.get_recipe(&r.id).unwrap(), "b"), None);
}

#[test]
fn unlisted_prompts_follow_by_title() {
    let mut lib = tmp_lib();
    let a = lib.create_prompt("p-a", NOW, "Beta", "").unwrap();
    let b = lib.create_prompt("p-b", NOW, "Alfa", "").unwrap();
    lib.add_prompt_file("z.md".into(), Some("---\nid: p-z\ntitle: zeta\n---\n".into()));
    lib.add_prompt_file("y.md".into(), Some("---\nid: p-y\ntitle: Gama\n---\n".into()));
    let ids: Vec<String> = lib.list_prompts().unwrap().into_iter().map(|p| p.id).collect();
    assert_eq!(ids, vec![a.id, b.id, "p-y".to_string(), "p-z".to_string()]);
}

#[test]
fn recipes_listed_by_name_ignoring_case() {
    let mut lib = tmp_lib();
    lib.create_recipe("r-1", NOW, "beta").unwrap();
    lib.create_recipe("r-2", NOW, "Alfa").unwrap();
    lib.create_recipe("r-0", NOW, "alfa").unwrap();
    let ids: Vec<String> = lib.list_recipes().unwrap().into_iter().map(|r| r.id).collect();
    assert_eq!(ids, vec!["r-0".to_string(), "r-2".to_string(), "r-1".to_string()]);
}

#[test]
fn what_is_saved_is_read_back_by_id() {
    let mut lib = tmp_lib();
    let created = lib.create_prompt("p-1", NOW, "Title", "Body {{x}}").unwrap();
    assert_eq!(lib.get_prompt("p-1").unwrap(), created);
    let mut e = created.clone();
    e.title = "Other".into();
    e.content = "new body".into();
    let saved = lib.save_prompt(LATER, &e).unwrap();
    assert_eq!(lib.get_prompt("p-1").unwrap(), saved);
    let r = lib.create_recipe("r-1", NOW, "R").unwrap();
    assert_eq!(lib.get_recipe("r-1").unwrap(), r);
    let mut r2 = r.clone();
    r2.name = "R2".into();
    let saved_r = lib.save_recipe(LATER, &r2).unwrap();
    assert_eq!(lib.get_recipe("r-1").unwrap(), saved_r);
}

#[test]
fn a_recipe_that_grows_the_variable_list_is_read_back_by_id() {
    let mut lib = tmp_lib();
    let a = lib.create_recipe("r-a", NOW, "A").unwrap();
    let b = lib.create_recipe("r-b", NOW, "B").unwrap();
    let mut a2 = a.clone();
    a2.values.push(("tone".into(), "formal".into()));
    let saved = lib.save_recipe(LATER, &a2).unwrap();
    assert_eq!(lib.get_recipe("r-a").unwrap(), saved);
    // the other recipe was brought up to the grown list, and only it
    let b2 = lib.get_recipe("r-b").unwrap();
    assert_eq!(b2.id, b.id);
    assert_eq!(value_of(&b2, "tone"), Some(String::new()));
}

#[test]
fn saved_names_join_the_variable_list_at_its_end_in_recipe_order() {
    let mut lib = tmp_lib();
    let a = lib.create_recipe("r-a", NOW, "A").unwrap();
    let mut a1 = a.clone();
    a1.values = vec![("x".into(), "1".into())];
    let a1 = lib.save_recipe(NOW, &a1).unwrap();
    assert_eq!(lib.list_variables().unwrap(), vec!["x"]);
    let mut a2 = a1.clone();
    a2.values = vec![("y".into(), "2".into()), ("x".into(), "1".into()), ("z".into(), "3".into())];
    lib.save_recipe(LATER, &a2).unwrap();
    assert_eq!(lib.list_variables().unwrap(), vec!["x", "y", "z"]);
}

#[test]
fn renaming_a_variable_stamps_only_the_prompts_it_changes() {
    let mut lib = tmp_lib();
    let mut r = lib.create_recipe("r-1", NOW, "R").unwrap();
    r.values = vec![("a".into(), "1".into())];
    lib.save_recipe(NOW, &r).unwrap();
    let uses = lib.create_prompt("p-1", NOW, "Uses", "x {{a}} y").unwrap();
    let other = lib.create_prompt("p-2", NOW, "Other", "no placeholder").unwrap();
    lib.rename_variable(LATER, "a", "b").unwrap();
    let u = lib.get_prompt(&uses.id).unwrap();
    assert_eq!(u.content, "x {{b}} y");
    assert_eq!(u.updated, LATER);
    assert_eq!(lib.get_prompt(&other.id).unwrap(), other);
}

#[test]
fn a_folder_that_cannot_be_listed_fails_only_what_lists_it() {
    let mut lib = tmp_lib();
    let r = lib.create_recipe("r-1", NOW, "R").unwrap();
    lib.create_prompt("p-1", NOW, "P", "body").unwrap();
    let mut broken = lib;
    broken.set_prompts_error("Permission denied (os error 13)".into());
    match broken.list_prompts() {
        Err(e) => assert_eq!(e.message(), "IO error: Permission denied (os error 13)"),
        Ok(_) => panic!("expected an IO error"),
    }
    assert_eq!(broken.get_recipe("r-1").unwrap(), r);

    let mut lib = tmp_lib();
    let r = lib.create_recipe("r-1", NOW, "R").unwrap();
    let p2 = lib.create_prompt("p-1", NOW, "P", "body").unwrap();
    lib.set_recipes_error("Permission denied (os error 13)".into());
    assert!(matches!(lib.list_recipes(), Err(StoreError::Io(_))));
    assert!(matches!(lib.get_recipe(&r.id), Err(StoreError::Io(_))));
    assert_eq!(lib.get_prompt("p-1").unwrap(), p2);
    // saving a prompt checks its recipe references, so it needs the listing
    assert!(matches!(lib.save_prompt(LATER, &p2), Err(StoreError::Io(_))));
    // seeding stops at the prompts it finds before it lists the recipes
    assert!(!lib.seed_if_empty(NOW, "r-2", "r-3", "p-2", "p-3").unwrap());
}
