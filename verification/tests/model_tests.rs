use prompt_manager::model::{valid_var_name, Prompt, Recipe};

fn sample_prompt() -> Prompt {
    Prompt {
        id: "p-1".into(),
        title: "Code review – Rust".into(),
        created: "2026-07-23T10:00:00Z".into(),
        updated: "2026-07-23T11:00:00Z".into(),
        recipes: vec!["r-1".into(), "r-2".into()],
        selected_recipe: Some("r-1".into()),
        tags: vec![],
        content: "Zkontroluj {{projekt_cesta}}.\nJazyk: {{jazyk}}.".into(),
        file_name: "code-review.md".into(),
    }
}

#[test]
fn prompt_roundtrip() {
    let p = sample_prompt();
    let md = p.to_markdown();
    let q = Prompt::from_markdown(&md, "code-review.md").unwrap();
    assert_eq!(p, q);
}

#[test]
fn prompt_roundtrip_crlf_and_bom() {
    let p = sample_prompt();
    let md = format!("\u{feff}{}", p.to_markdown().replace('\n', "\r\n"));
    let q = Prompt::from_markdown(&md, "code-review.md").unwrap();
    assert_eq!(q.title, p.title);
    assert_eq!(q.content, p.content);
}

#[test]
fn prompt_none_selected() {
    let mut p = sample_prompt();
    p.selected_recipe = None;
    let q = Prompt::from_markdown(&p.to_markdown(), "f.md").unwrap();
    assert_eq!(q.selected_recipe, None);
}

#[test]
fn content_with_dashes_survives() {
    let mut p = sample_prompt();
    p.content = "text\n---\nještě text s --- uvnitř".into();
    let q = Prompt::from_markdown(&p.to_markdown(), "f.md").unwrap();
    assert_eq!(q.content, p.content);
}

#[test]
fn recipe_roundtrip() {
    let r = Recipe {
        id: "r-1".into(),
        name: "Ukázkový projekt".into(),
        updated: "2026-07-23T10:00:00Z".into(),
        values: vec![
            ("projekt_cesta".into(), "C:\\Projekty\\Ukazka".into()),
            ("jazyk".into(), "rust".into()),
        ],
        file_name: "ukazka.yaml".into(),
    };
    let q = Recipe::from_yaml(&r.to_yaml(), "ukazka.yaml").unwrap();
    assert_eq!(r, q);
}

#[test]
fn var_names() {
    assert!(valid_var_name("projekt_cesta"));
    assert!(valid_var_name("a1"));
    assert!(!valid_var_name(""));
    assert!(!valid_var_name("Projekt"));
    assert!(!valid_var_name("a b"));
}

#[test]
fn prompt_file_reads_back_with_tricky_texts() {
    let mut p = sample_prompt();
    p.title = "Title: with colon".into();
    p.tags = vec!["a\"b".into(), "".into()];
    p.selected_recipe = None;
    p.content = "body\n---\nwith a rule\n".into();
    let back = Prompt::from_markdown(&p.to_markdown(), &p.file_name).unwrap();
    assert_eq!(back, p);
}

#[test]
fn recipe_file_reads_back_with_tricky_values() {
    let r = Recipe {
        id: "r-1".into(),
        name: "#1 recipe".into(),
        updated: "".into(),
        values: vec![("cesta".into(), "C:\\X".into()), ("prazdna".into(), "".into()), ("radky".into(), "a\nb".into())],
        file_name: "r.yaml".into(),
    };
    let back = Recipe::from_yaml(&r.to_yaml(), &r.file_name).unwrap();
    assert_eq!(back, r);
}

#[test]
fn unreadable_files_say_why() {
    assert_eq!(Prompt::from_markdown("no", "f.md").unwrap_err(), "missing frontmatter open");
    assert_eq!(Prompt::from_markdown("---x", "f.md").unwrap_err(), "missing newline after ---");
    assert_eq!(Prompt::from_markdown("---\nid: a\n", "f.md").unwrap_err(), "missing frontmatter close");
    assert_eq!(Prompt::from_markdown("---\ntitle: t\n---\nbody", "f.md").unwrap_err(), "missing id");
    assert_eq!(Prompt::from_markdown("---\nid: a\n---\n", "f.md").unwrap_err(), "missing title");
    assert_eq!(
        Prompt::from_markdown("---\nid a\n---\n", "f.md").unwrap_err(),
        "line 1: missing ':'"
    );
    assert_eq!(Recipe::from_yaml("name: x\n", "r.yaml").unwrap_err(), "missing id");
    assert_eq!(Recipe::from_yaml("\u{feff}id: x\r\n", "r.yaml").unwrap_err(), "missing name");
    assert_eq!(Recipe::from_yaml("id x\n", "r.yaml").unwrap_err(), "line 1: missing ':'");
}
