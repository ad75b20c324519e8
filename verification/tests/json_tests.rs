use prompt_manager::json::Json;

#[test]
fn roundtrip_basic() {
    let src = r#"{"a":[1,2.5,-3],"b":"x\ny","c":true,"d":null,"e":{"nested":"čeština 🙂"}}"#;
    let v = Json::parse(src).unwrap();
    let dumped = v.dump();
    let v2 = Json::parse(&dumped).unwrap();
    assert_eq!(v, v2);
    assert_eq!(v.get("b").unwrap().as_str().unwrap(), "x\ny");
    assert_eq!(
        v.get("e").unwrap().get_str("nested").unwrap(),
        "čeština 🙂"
    );
}

#[test]
fn unicode_escapes() {
    let v = Json::parse(r#""é😀""#).unwrap();
    assert_eq!(v.as_str().unwrap(), "é😀");
}

#[test]
fn escaped_code_points_read_as_their_chars() {
    let v = Json::parse(r#""\u00e9\ud83d\ude00""#).unwrap();
    assert_eq!(v.as_str().unwrap(), "é😀");
}

#[test]
fn escapes_out() {
    let v = Json::Str("a\"b\\c\nd\tctrl:\u{1}".into());
    // exact form checked via roundtrip; control chars must escape
    assert_eq!(Json::parse(&v.dump()).unwrap(), v);
}

#[test]
fn rejects_garbage() {
    assert!(Json::parse("{").is_err());
    assert!(Json::parse("[1,]").is_err());
    assert!(Json::parse("{}x").is_err());
    assert!(Json::parse("'single'").is_err());
}

#[test]
fn pretty_parses_back() {
    let v = Json::parse(r#"{"prompts":["a","b"],"n":3}"#).unwrap();
    assert_eq!(Json::parse(&v.pretty()).unwrap(), v);
}

#[test]
fn parse_errors_name_the_place() {
    let err = |t: &str| Json::parse(t).unwrap_err();
    assert_eq!(err(""), "unexpected None at byte 0");
    assert_eq!(err("[1,]"), "unexpected Some(']') at byte 3");
    assert_eq!(err("[1 2]"), "expected ',' or ']' at byte 3, found Some('2')");
    assert_eq!(err("{\"a\" 1}"), "expected ':' at byte 5, found Some('1')");
    assert_eq!(err("{\"a\":1"), "expected ',' or '}' at byte 6, found None");
    assert_eq!(err("{1:2}"), "expected '\"' at byte 1, found Some('1')");
    assert_eq!(err("tru"), "invalid literal at byte 0");
    assert_eq!(err("-"), "invalid number '-'");
    assert_eq!(err("1 x"), "trailing characters at byte 2");
    assert_eq!(err("\"ab"), "unterminated string");
    assert_eq!(err("\"\\q\""), "invalid escape '\\q'");
    assert_eq!(err("\"\\u12zz\""), "invalid hex");
    assert_eq!(err("\"\\u12"), "truncated \\u escape");
    // the escape is cut short only when fewer than four bytes are left
    assert_eq!(err("\"\\u1é\""), "invalid hex");
    assert_eq!(err("\"\\u1é"), "truncated \\u escape");
    assert_eq!(err("\"\\u1"), "truncated \\u escape");
    assert_eq!(err("\"\\ud800x\""), "lone high surrogate");
    assert_eq!(err("\"\\udc00\""), "invalid codepoint");
}

#[test]
fn parse_errors_count_bytes_and_show_bytes() {
    let err = |t: &str| Json::parse(t).unwrap_err();
    // 'é' takes two bytes
    assert_eq!(err("[\"é\" x]"), "expected ',' or ']' at byte 6, found Some('x')");
    // the first byte of a multi-byte char, read as a char
    assert_eq!(err("é"), "unexpected Some('Ã') at byte 0");
    assert_eq!(err("[1\u{1}]"), "expected ',' or ']' at byte 2, found Some('\\u{1}')");
    assert_eq!(err("[1\n'"), "expected ',' or ']' at byte 3, found Some('\\'')");
}

#[test]
fn whatever_is_read_is_written_back_readably() {
    let src = r#" {"b": 1, "a": [1.5e3, {"z": null, "y": true}], "a": 2, "c": "x"} "#;
    let v = Json::parse(src).unwrap();
    // keys come out ascending, the later of two equal keys wins
    assert_eq!(v.dump(), r#"{"a":2,"b":1,"c":"x"}"#);
    assert_eq!(Json::parse(&v.dump()).unwrap(), v);
    assert_eq!(Json::parse(&v.pretty()).unwrap(), v);
    let w = Json::parse(r#"[-0.5E-2, {"k": [{}, []]}]"#).unwrap();
    assert_eq!(Json::parse(&w.dump()).unwrap(), w);
    assert_eq!(Json::parse(&w.pretty()).unwrap(), w);
}
