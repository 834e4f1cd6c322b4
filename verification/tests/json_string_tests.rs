use projecta::json_string::parse_json_string;

#[test]
fn reads_plain_and_escaped_text() {
    assert_eq!(parse_json_string("\"hello\"", 0).unwrap(), ("hello".to_string(), 7));
    assert_eq!(parse_json_string(r#""hello\nworld""#, 0).unwrap().0, "hello\nworld");
    assert_eq!(parse_json_string(r#""quote: \"test\"""#, 0).unwrap().0, r#"quote: "test""#);
    assert_eq!(parse_json_string(r#""slash: \/""#, 0).unwrap().0, "slash: /");
    assert_eq!(parse_json_string(r#""backsl: \\""#, 0).unwrap().0, "backsl: \\");
    assert_eq!(parse_json_string(r#""unicode: \u0041""#, 0).unwrap().0, "unicode: A");
    assert_eq!(parse_json_string(r#"x: "ab" rest"#, 3).unwrap(), ("ab".to_string(), 7));
}

#[test]
fn reports_each_error_with_its_byte_offset() {
    let e = parse_json_string("\"unclosed", 0).unwrap_err();
    assert_eq!((e.message.as_str(), e.position), ("Unterminated string", 1));
    let e = parse_json_string(r#""bad \q""#, 0).unwrap_err();
    assert_eq!((e.message.as_str(), e.position), ("Invalid escape sequence", 6));
    let e = parse_json_string(r#""\u12x4""#, 0).unwrap_err();
    assert_eq!((e.message.as_str(), e.position), ("Invalid hex digits for Unicode escape", 3));
    let e = parse_json_string(r#""\u12""#, 0).unwrap_err();
    assert_eq!((e.message.as_str(), e.position), ("Incomplete Unicode escape sequence", 3));
    let e = parse_json_string(r#""\u12"#, 0).unwrap_err();
    assert_eq!((e.message.as_str(), e.position), ("Incomplete Unicode escape sequence", 3));
    let e = parse_json_string(r#""\uD800""#, 0).unwrap_err();
    assert_eq!((e.message.as_str(), e.position), ("Invalid Unicode code point", 3));
    let e = parse_json_string("abc", 0).unwrap_err();
    assert_eq!((e.message.as_str(), e.position), ("Expected '\"'", 0));
    let e = parse_json_string("\"é\\", 0).unwrap_err();
    assert_eq!((e.message.as_str(), e.position), ("Invalid escape sequence", 4));
}
