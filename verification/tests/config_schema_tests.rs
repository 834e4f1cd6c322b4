use projecta::config_check::{ConfigError, Location};
use projecta::config_schema::{ConfigParser, ErrorFormatter, JsonValue, Schema, SchemaBuilder};

type Check = Box<dyn Fn(&JsonValue) -> Result<(), String>>;

fn must_be_string() -> Check {
    Box::new(|v: &JsonValue| {
        v.as_str().ok_or("must be string")?;
        Ok(())
    })
}

fn must_be_integer() -> Check {
    Box::new(|v: &JsonValue| {
        v.as_i64().ok_or("must be integer")?;
        Ok(())
    })
}

#[test]
fn test_complete_validation_pipeline() {
    let config = r#"{"database": {"host": "localhost", "port": 5432}}"#;

    let schema = SchemaBuilder::new()
        .required_field("database.host", must_be_string())
        .required_field("database.port", must_be_integer())
        .build();

    let parsed = ConfigParser::parse_json(config).unwrap();
    let result = schema.validate(&parsed);

    assert!(result.is_ok());
}

#[test]
fn parse_json_keeps_numbers_as_text() {
    let v = ConfigParser::parse_json(r#"{"a": [1, -2, 3.5, true, null, "x\ny"]}"#).unwrap();
    let a = v.get("a").unwrap();
    match a {
        JsonValue::Array(xs) => {
            assert_eq!(xs.len(), 6);
            assert_eq!(xs[0], JsonValue::Number("1".to_string()));
            assert_eq!(xs[1].as_i64(), Some(-2));
            assert_eq!(xs[2].as_i64(), None);
            assert_eq!(xs[3], JsonValue::Bool(true));
            assert_eq!(xs[4], JsonValue::Null);
            assert_eq!(xs[5].as_str(), Some("x\ny"));
        }
        _ => panic!("not an array"),
    }
    assert_eq!(a.to_text(), "[1,-2,3.5,true,null,\"x\\ny\"]");
}

#[test]
fn parse_json_reports_line_and_column() {
    match ConfigParser::parse_json("{\n  \"a\": }") {
        Err(ConfigError::ParseError { line, col, .. }) => {
            assert_eq!(line, 2);
            assert!(col > 0);
        }
        _ => panic!("expected a parse error"),
    }
}

#[test]
fn nested_lookup_follows_each_key() {
    let v = ConfigParser::parse_json(r#"{"db": {"inner": {"x": 7}}, "y": 1}"#).unwrap();
    let x = Schema::<Check>::get_nested_value(&v, "db.inner.x").unwrap();
    assert_eq!(x.as_i64(), Some(7));
    assert!(Schema::<Check>::get_nested_value(&v, "db.missing").is_none());
    assert!(Schema::<Check>::get_nested_value(&v, "y.z").is_none());
}

#[test]
fn validate_reports_missing_and_refused_fields() {
    let config = r#"{"database": {"port": "invalid", "max_connections": 1000}}"#;
    let limit: Check = Box::new(|v: &JsonValue| {
        let n = v.as_i64().ok_or("must be integer")?;
        if n > 500 {
            return Err("must be <= 500".to_string());
        }
        Ok(())
    });
    let schema = SchemaBuilder::new()
        .required_field("database.host", must_be_string())
        .required_field("database.port", must_be_integer())
        .required_field("database.max_connections", limit)
        .build();
    let parsed = ConfigParser::parse_json(config).unwrap();
    let errors = schema.validate(&parsed).unwrap_err();
    assert_eq!(errors.len(), 3);
    let mut texts: Vec<String> = errors.iter().map(|e| e.to_text()).collect();
    texts.sort();
    assert_eq!(
        texts,
        vec![
            "Invalid value for 'database.max_connections': must be <= 500".to_string(),
            "Invalid value for 'database.port': must be integer".to_string(),
            "Missing required field 'database.host' in section [database]".to_string(),
        ]
    );
    for e in &errors {
        match e {
            ConfigError::InvalidValue { field, value, location, .. } => {
                assert_eq!(*location, Location { line: 0, column: 0 });
                if field == "database.port" {
                    assert_eq!(value, "\"invalid\"");
                } else {
                    assert_eq!(value, "1000");
                }
            }
            ConfigError::MissingField { suggestion, .. } => assert!(suggestion.is_none()),
            _ => panic!("unexpected error"),
        }
    }
}

#[test]
fn later_field_replaces_earlier_path() {
    let refuse: Check = Box::new(|_v: &JsonValue| Err("no".to_string()));
    let schema = SchemaBuilder::new()
        .required_field("a", refuse)
        .required_field("a", must_be_integer())
        .build();
    let parsed = ConfigParser::parse_json(r#"{"a": 3}"#).unwrap();
    assert!(schema.validate(&parsed).is_ok());
}

#[test]
fn report_lists_each_error_and_counts_them() {
    let errors = vec![
        ConfigError::MissingField { section: "db".to_string(), field: "db.host".to_string(), suggestion: None },
        ConfigError::OutOfRange { field: "port".to_string(), value: -5, min: 1, max: 65535 },
    ];
    let r = ErrorFormatter::render_report(&errors, "H", "S:");
    let expected = format!(
        "\nH\n{}\n\n1. Missing required field 'db.host' in section [db]\n\n2. Value -5 for 'port' out of range (1..65535)\n\nS: 2 errors\n",
        "=".repeat(60)
    );
    assert_eq!(r, expected);
    let formatted = ErrorFormatter::format_errors(&errors, "{}");
    assert!(formatted.contains("Configuration Validation Errors:"));
    assert!(formatted.contains("1. Missing required field 'db.host' in section [db]"));
    assert!(formatted.ends_with(" 2 errors\n"));
}

#[test]
fn error_texts_follow_their_kind() {
    let e = ConfigError::ParseError { line: 3, col: 9, message: "oops".to_string() };
    assert_eq!(e.to_text(), "Parse error at line 3, column 9: oops");
    let e = ConfigError::InvalidType {
        field: "f".to_string(),
        expected: "int".to_string(),
        actual: "str".to_string(),
        location: Location { line: 1, column: 2 },
    };
    assert_eq!(e.to_text(), "Invalid type for 'f': expected int, got str");
}
