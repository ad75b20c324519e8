use prompt_manager::yamlish::YamlDoc;

#[test]
fn roundtrip_recipe_like() {
    let mut d = YamlDoc::default();
    d.set("id", "r-123");
    d.set("name", "Ukázkový projekt");
    d.set("updated", "2026-07-23T10:00:00Z");
    d.set_map(
        "values",
        vec![
            ("projekt_cesta".into(), "C:\\Projekty\\Ukazka".into()),
            ("poznamka".into(), "obsahuje: dvojtečku".into()),
            ("prazdna".into(), "".into()),
            ("viceradkova".into(), "a\nb".into()),
        ],
    );
    let text = d.dump();
    let parsed = YamlDoc::parse(&text).unwrap();
    assert_eq!(parsed, d);
}

#[test]
fn roundtrip_frontmatter_like() {
    let mut d = YamlDoc::default();
    d.set("id", "p-1");
    d.set("title", "Code review – Rust");
    d.set_arr("recipes", vec!["r-1".into(), "r-2".into()]);
    d.set_arr("tags", vec![]);
    d.set("selected_recipe", "r-1");
    let parsed = YamlDoc::parse(&d.dump()).unwrap();
    assert_eq!(parsed, d);
    assert_eq!(parsed.get_arr("recipes").unwrap().len(), 2);
    assert!(parsed.get_arr("tags").unwrap().is_empty());
}

#[test]
fn parses_hand_written() {
    let src = "# komentář\nid: abc\nname: Bez uvozovek\n\nvalues:\n  a: 1\n  # vnořený komentář\n  b: \"x\\ny\"\n";
    let d = YamlDoc::parse(src).unwrap();
    assert_eq!(d.get("name").unwrap(), "Bez uvozovek");
    let vals = d.get_map("values").unwrap();
    assert_eq!(vals[0], ("a".to_string(), "1".to_string()));
    assert_eq!(vals[1], ("b".to_string(), "x\ny".to_string()));
}

#[test]
fn rejects_bad_keys() {
    assert!(YamlDoc::parse("bad key: 1").is_err());
    assert!(YamlDoc::parse("no-colon-line").is_err());
}

#[test]
fn written_document_reads_back() {
    let mut d = YamlDoc::default();
    d.set("plain", "hello world");
    d.set("colon", "a: b");
    d.set("hash", "#not a comment");
    d.set("bracket", "[not an array]");
    d.set("spaces", " padded ");
    d.set("empty", "");
    d.set("lines", "one\ntwo\r\n\tthree");
    d.set_arr("tags", vec!["x".into(), "y, z".into(), "\"q\"".into()]);
    d.set_arr("none", vec![]);
    d.set_map("values", vec![("k1".into(), "v1".into()), ("k-2".into(), ": tricky".into())]);
    d.set_map("empty_map", vec![]);
    let text = d.dump();
    assert_eq!(YamlDoc::parse(&text).unwrap(), d);
}

#[test]
fn bare_value_loses_unicode_space_at_its_end() {
    let mut d = YamlDoc::default();
    d.set("title", "a\u{a0}");
    let back = YamlDoc::parse(&d.dump()).unwrap();
    assert_eq!(back.get("title"), Some("a"));
}

#[test]
fn parse_errors_name_the_line() {
    let err = |t: &str| YamlDoc::parse(t).unwrap_err();
    assert_eq!(err("a: 1\n  b: 2\n"), "line 2: unexpected indentation");
    assert_eq!(err("# c\nnovalue\n"), "line 2: missing ':'");
    assert_eq!(err("bad key: 1\n"), "line 1: invalid key 'bad key'");
    assert_eq!(err("a: \"x\n"), "line 1: bad string: unterminated string");
    assert_eq!(err("a: \"x\" y\n"), "line 1: bad string: trailing characters at byte 4");
    assert_eq!(err("a: [1]\n"), "line 1: array items must be strings");
    assert_eq!(err("a: [x]\n"), "line 1: bad array: unexpected Some('x') at byte 1");
    assert_eq!(err("m:\n  k v\n"), "line 2: missing ':'");
    assert_eq!(err("m:\n\n  k: \"v\n"), "line 3: bad string: unterminated string");
}
