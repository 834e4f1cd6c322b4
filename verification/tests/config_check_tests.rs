use projecta::config_check::{
    find_similar_field, levenshtein_distance, ConfigError, Location, ValidationErrors,
};

#[test]
fn test_levenshtein_distance() {
    assert_eq!(levenshtein_distance("kitten", "sitting"), 3);
    assert_eq!(levenshtein_distance("saturday", "sunday"), 3);
}

#[test]
fn test_find_similar_field() {
    let fields = &["timeout", "retries", "max_connections"];
    assert_eq!(find_similar_field("timout", fields), Some("timeout".to_string()));
}

#[test]
fn distance_edge_cases() {
    assert_eq!(levenshtein_distance("", "abc"), 3);
    assert_eq!(levenshtein_distance("abc", ""), 3);
    assert_eq!(levenshtein_distance("same", "same"), 0);
    assert_eq!(levenshtein_distance("ab", "ba"), 2);
    assert_eq!(levenshtein_distance("héllo", "hello"), 1);
}

#[test]
fn suggestion_needs_distance_at_most_two_and_prefers_first() {
    let fields = &["port", "host", "hosts"];
    assert_eq!(find_similar_field("xyzzy", fields), None);
    // "hast" is one edit from "host" and two from "hosts": the closer one wins
    assert_eq!(find_similar_field("hast", fields), Some("host".to_string()));
    // equal distances keep the first
    assert_eq!(find_similar_field("pot", &["pit", "pat"]), Some("pit".to_string()));
    assert_eq!(find_similar_field("a", &[]), None);
}

#[test]
fn validation_errors_collect_in_order() {
    let mut errors = ValidationErrors::new();
    assert!(!errors.has_errors());
    errors.add(ConfigError::MissingField {
        section: "database".to_string(),
        field: "database.host".to_string(),
        suggestion: None,
    });
    errors.add(ConfigError::InvalidValue {
        field: "database.port".to_string(),
        value: "\"invalid\"".to_string(),
        reason: "must be integer".to_string(),
        location: Location { line: 0, column: 0 },
    });
    assert!(errors.has_errors());
    match errors.into_result(()) {
        Err(es) => {
            assert_eq!(es.len(), 2);
            assert!(matches!(es[0], ConfigError::MissingField { .. }));
        }
        Ok(()) => panic!("expected errors"),
    }
    assert_eq!(ValidationErrors::default().into_result(7).ok(), Some(7));
}
