use prompt_manager::render::{placeholders, render, rename_placeholder, ValueMap};

fn vals(pairs: &[(&str, &str)]) -> ValueMap {
    let mut m = ValueMap::new();
    for (k, v) in pairs {
        m.insert(k, v);
    }
    m
}

#[test]
fn extracts_placeholders() {
    let c = "A {{jedna}} b {{dva}} c {{jedna}} {{Neplatná}} {{bad name}}";
    assert_eq!(placeholders(c), vec!["jedna", "dva"]);
}

#[test]
fn renders_full() {
    let r = render(
        "Cesta: {{cesta}}, jazyk: {{jazyk}}.",
        &vals(&[("cesta", "C:\\X"), ("jazyk", "rust")]),
    );
    assert_eq!(r.text, "Cesta: C:\\X, jazyk: rust.");
    assert!(r.missing.is_empty());
}

#[test]
fn reports_missing() {
    let r = render("{{a}} {{b}} {{a}}", &vals(&[("a", "1")]));
    assert_eq!(r.text, "1 {{b}} 1");
    assert_eq!(r.missing, vec!["b"]);
}

#[test]
fn escape_keeps_literal() {
    let r = render("ukázka \\{{ne_promenna}} a {{x}}", &vals(&[("x", "OK")]));
    assert_eq!(r.text, "ukázka {{ne_promenna}} a OK");
    assert!(r.missing.is_empty());
}

#[test]
fn czech_text_untouched() {
    let r = render("Žluťoučký {{kun}} pěl ďábelské ódy", &vals(&[("kun", "kůň")]));
    assert_eq!(r.text, "Žluťoučký kůň pěl ďábelské ódy");
}

#[test]
fn unclosed_left_alone() {
    let r = render("{{neuzavreno a dál", &vals(&[]));
    assert_eq!(r.text, "{{neuzavreno a dál");
}

#[test]
fn empty_value_is_missing() {
    // every recipe carries every variable, so "not filled in" is an
    // empty value - it must behave exactly like an absent key
    let r = render("{{a}}/{{b}}", &vals(&[("a", ""), ("b", "B")]));
    assert_eq!(r.text, "{{a}}/B");
    assert_eq!(r.missing, vec!["a"]);
}

#[test]
fn renames_placeholder() {
    let out = rename_placeholder("{{a}} x {{b}} {{a}}", "a", "c");
    assert_eq!(out, "{{c}} x {{b}} {{c}}");
}

#[test]
fn rename_respects_escaped_placeholder() {
    let out = rename_placeholder("\\{{a}} a {{a}}", "a", "c");
    assert_eq!(out, "\\{{a}} a {{c}}", "escaped form must stay untouched");
}

#[test]
fn rename_ignores_invalid_and_noop() {
    assert_eq!(rename_placeholder("{{a}}", "a", "a"), "{{a}}");
    assert_eq!(rename_placeholder("{{a}}", "a", "Špatný"), "{{a}}");
    assert_eq!(rename_placeholder("{{ne platny}}", "a", "c"), "{{ne platny}}");
}

#[test]
fn missing_names_are_placeholders_once() {
    let content = "{{a}} {{b}} {{a}} \\{{c}} {{d}}";
    let r = render(content, &vals(&[("b", "B"), ("d", "")]));
    assert_eq!(r.missing, vec!["a".to_string(), "d".to_string()]);
    let ph = placeholders(content);
    assert_eq!(ph, vec!["a".to_string(), "b".to_string(), "d".to_string()]);
    assert!(r.missing.iter().all(|m| ph.contains(m)));
}

#[test]
fn all_filled_leaves_nothing_missing() {
    let r = render("{{a}}{{b}}{{a}}", &vals(&[("a", "1"), ("b", "2")]));
    assert!(r.missing.is_empty());
    assert_eq!(r.text, "121");
    let r = render("{{a}}{{b}}{{a}}", &vals(&[]));
    assert_eq!(r.missing, placeholders("{{a}}{{b}}{{a}}"));
}

#[test]
fn placeholders_in_order_of_first_appearance_and_absent_renames_change_nothing() {
    let text = "{{b}} then {{a}}, \\{{c}} and {{b}} again {{Bad}}";
    assert_eq!(placeholders(text), vec!["b".to_string(), "a".to_string()]);
    // `c` is escaped and `Bad` is no valid name: renaming them changes nothing
    assert_eq!(rename_placeholder(text, "c", "d"), text);
    assert_eq!(rename_placeholder(text, "zz", "d"), text);
}

#[test]
fn renaming_back_restores_the_text() {
    let text = "Hi {{name}}, {{{name}} \\{{name}} {{name}}{{other}} {{x{{name}}";
    let there = rename_placeholder(text, "name", "who");
    assert_eq!(there, "Hi {{who}}, {{{who}} \\{{name}} {{who}}{{other}} {{x{{who}}");
    assert_eq!(placeholders(&there), vec!["who".to_string(), "other".to_string()]);
    assert_eq!(rename_placeholder(&there, "who", "name"), text);
}
