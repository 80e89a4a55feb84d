use fmt_rs::json::{encode_string, parse};

#[test]
fn parses_nested_object() {
    let v = parse(r#"{"tool_name":"Bash","tool_input":{"command":"ls -la"}}"#).unwrap();
    assert_eq!(v.get("tool_name").and_then(|x| x.as_str()), Some("Bash"));
    assert_eq!(
        v.get("tool_input").and_then(|t| t.get("command")).and_then(|c| c.as_str()),
        Some("ls -la")
    );
}

#[test]
fn decodes_string_escapes() {
    let v = parse(r#"{"c":"a\"b\\c\nd\tе"}"#).unwrap();
    assert_eq!(v.get("c").and_then(|x| x.as_str()), Some("a\"b\\c\nd\tе"));
}

#[test]
fn decodes_unicode_and_surrogates() {
    let v = parse(r#"{"a":"é","b":"😀"}"#).unwrap();
    assert_eq!(v.get("a").and_then(|x| x.as_str()), Some("é"));
    assert_eq!(v.get("b").and_then(|x| x.as_str()), Some("😀"));
}

#[test]
fn rejects_malformed() {
    assert!(parse("{").is_err());
    assert!(parse(r#"{"a":}"#).is_err());
    assert!(parse(r#"{"a":1} junk"#).is_err());
    assert!(parse(r#""\uD83D""#).is_err()); // lone surrogate
}

#[test]
fn ignores_extra_fields_and_whitespace() {
    let v = parse("{ \"tool_name\" : \"Bash\" , \"n\": 5, \"ok\": true }").unwrap();
    assert_eq!(v.get("tool_name").and_then(|x| x.as_str()), Some("Bash"));
}

#[test]
fn round_trip_encode() {
    let s = "echo \"hi\"\n\tx=1";
    let json = format!(r#"{{"c":{}}}"#, encode_string(s));
    let v = parse(&json).unwrap();
    assert_eq!(v.get("c").and_then(|x| x.as_str()), Some(s));
}
