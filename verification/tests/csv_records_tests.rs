use projecta::csv_records::{
    find_chunk_boundaries, ConversionError, CsvRecord, Error, LineTracker, ParseError,
};

#[test]
fn test_simple_csv_parsing() {
    let record = CsvRecord::parse_csv_line("foo,bar,baz", ',').unwrap();
    assert_eq!(record.field_count(), 3);
    assert_eq!(record.get_field(0), Some("foo"));
    assert_eq!(record.get_field(1), Some("bar"));
    assert_eq!(record.get_field(2), Some("baz"));
}

#[test]
fn test_quoted_fields() {
    let record = CsvRecord::parse_csv_line(r#"foo,"bar,baz",qux"#, ',').unwrap();
    assert_eq!(record.field_count(), 3);
    assert_eq!(record.get_field(1), Some("bar,baz"));
}

#[test]
fn test_escaped_quotes() {
    let record = CsvRecord::parse_csv_line(r#""foo ""bar"" baz""#, ',').unwrap();
    assert_eq!(record.get_field(0), Some(r#"foo "bar" baz"#));
}

#[test]
fn test_empty_fields() {
    let record = CsvRecord::parse_csv_line("foo,,bar", ',').unwrap();
    assert_eq!(record.field_count(), 3);
    assert_eq!(record.get_field(1), Some(""));
}

#[test]
fn test_custom_delimiter() {
    let record = CsvRecord::parse_csv_line("foo|bar|baz", '|').unwrap();
    assert_eq!(record.field_count(), 3);
}

#[test]
fn test_extract_integers() {
    let record = CsvRecord::parse_csv_line("100,200,300", ',').unwrap();
    assert_eq!(record.get_typed::<i64>(0).unwrap(), 100);
    assert_eq!(record.get_typed::<i64>(1).unwrap(), 200);
}

#[test]
fn test_extract_booleans() {
    let record = CsvRecord::parse_csv_line("true,false,yes,no,1,0", ',').unwrap();
    assert_eq!(record.get_typed::<bool>(0).unwrap(), true);
    assert_eq!(record.get_typed::<bool>(1).unwrap(), false);
    assert_eq!(record.get_typed::<bool>(2).unwrap(), true);
    assert_eq!(record.get_typed::<bool>(3).unwrap(), false);
    assert_eq!(record.get_typed::<bool>(4).unwrap(), true);
    assert_eq!(record.get_typed::<bool>(5).unwrap(), false);
}

#[test]
fn test_conversion_errors() {
    let record = CsvRecord::parse_csv_line("not_a_number,42", ',').unwrap();
    assert!(record.get_typed::<i64>(0).is_err());
    assert!(record.get_typed::<i64>(1).is_ok());
}

#[test]
fn test_missing_field_error() {
    let record = CsvRecord::parse_csv_line("a,b", ',').unwrap();
    assert!(matches!(
        record.get_typed::<String>(5),
        Err(ConversionError::MissingField)
    ));
}

#[test]
fn parse_errors_and_line_ends() {
    assert_eq!(
        CsvRecord::parse_csv_line("\"open,field", ','),
        Err(ParseError::UnterminatedQuote)
    );
    assert_eq!(
        CsvRecord::parse_csv_line("ab\"c,d", ','),
        Err(ParseError::InvalidEscape)
    );
    assert_eq!(CsvRecord::parse_csv_line("  \t\r\n", ','), Err(ParseError::EmptyLine));
    assert_eq!(CsvRecord::parse_csv_line("", ','), Err(ParseError::EmptyLine));
    let record = CsvRecord::parse_csv_line("x,y\r\n", ',').unwrap();
    assert_eq!(record.field_count(), 2);
    assert_eq!(record.get_field(1), Some("y"));
    assert_eq!(record.get_field(2), None);
    // a closed quoted section followed by more text in the same field
    let record = CsvRecord::parse_csv_line("\"a\"b,c", ',').unwrap();
    assert_eq!(record.get_field(0), Some("ab"));
    // a trailing delimiter ends with an empty field
    let record = CsvRecord::parse_csv_line("a,", ',').unwrap();
    assert_eq!(record.field_count(), 2);
    assert_eq!(record.get_field(1), Some(""));
}

#[test]
fn typed_fields_trim_and_fold_case() {
    let record = CsvRecord::parse_csv_line(" -17 , +5 ,YES, False ,maybe,99999999999999999999", ',').unwrap();
    assert_eq!(record.get_typed::<i64>(0).unwrap(), -17);
    assert_eq!(record.get_typed::<i64>(1).unwrap(), 5);
    assert_eq!(record.get_typed::<bool>(2).unwrap(), true);
    assert_eq!(record.get_typed::<bool>(3).unwrap(), false);
    assert_eq!(
        record.get_typed::<bool>(4),
        Err(ConversionError::InvalidValue("maybe".to_string()))
    );
    assert!(matches!(record.get_typed::<i64>(5), Err(ConversionError::ParseInt(_))));
    assert_eq!(record.get_typed::<String>(0).unwrap(), " -17 ");
}

#[test]
fn map_field_replaces_one_field() {
    let mut record = CsvRecord::parse_csv_line("alice,30", ',').unwrap();
    record.map_field(0, |name| name.to_uppercase());
    assert_eq!(record.get_field(0), Some("ALICE"));
    assert_eq!(record.get_field(1), Some("30"));
    record.map_field(7, |_| String::from("never"));
    assert_eq!(record.field_count(), 2);
}

#[test]
fn line_tracker_numbers_lines_and_skips_blank_ones() {
    let mut tracker = LineTracker::new(',');
    let first = tracker.accept_line("a,b\n").unwrap().unwrap();
    assert_eq!(first.get_field(0), Some("a"));
    assert!(tracker.accept_line("\n").is_none());
    match tracker.accept_line("\"unterminated\n") {
        Some(Err(Error::Parse(ParseError::UnterminatedQuote, line))) => assert_eq!(line, 3),
        _ => panic!("expected a parse error"),
    }
    assert_eq!(tracker.line_number(), 3);
}

#[test]
fn chunk_boundaries_fall_on_line_starts() {
    assert_eq!(find_chunk_boundaries(b"", 4), vec![0, 0]);
    let data = b"aa\nbb\ncc\ndd\n";
    assert_eq!(find_chunk_boundaries(data, 1), vec![0, 12]);
    assert_eq!(find_chunk_boundaries(data, 0), vec![0, 12]);
    assert_eq!(find_chunk_boundaries(data, 4), vec![0, 6, 12]);
    assert_eq!(find_chunk_boundaries(data, 12), vec![0, 3, 6, 9, 12]);
    assert_eq!(find_chunk_boundaries(b"abc", 3), vec![0, 3]);
}
