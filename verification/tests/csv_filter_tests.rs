use projecta::csv_records::{filter_by_column, filter_valid, map_column, parse_chunk, CsvRecord, Error, ParseError};

#[test]
fn filter_valid_keeps_records_in_order() {
    let a = CsvRecord::parse_csv_line("a,1", ',').unwrap();
    let b = CsvRecord::parse_csv_line("b,2", ',').unwrap();
    let input = vec![Ok(a), Err(Error::Parse(ParseError::UnterminatedQuote, 2)), Ok(b)];
    let kept = filter_valid(input);
    assert_eq!(kept.len(), 2);
    assert_eq!(kept[0].get_field(0), Some("a"));
    assert_eq!(kept[1].get_field(0), Some("b"));
    assert!(filter_valid(vec![Err(Error::Parse(ParseError::EmptyLine, 1))]).is_empty());
}

#[test]
fn filter_by_column_keeps_passing_records_and_errors() {
    let a = CsvRecord::parse_csv_line("a,10", ',').unwrap();
    let b = CsvRecord::parse_csv_line("b,3", ',').unwrap();
    let c = CsvRecord::parse_csv_line("c", ',').unwrap();
    let input = vec![Ok(a), Err(Error::Parse(ParseError::EmptyLine, 2)), Ok(b), Ok(c)];
    let kept = filter_by_column(input, 1, |v: &str| v.len() > 1);
    assert_eq!(kept.len(), 2);
    match &kept[0] {
        Ok(r) => assert_eq!(r.get_field(0), Some("a")),
        Err(_) => panic!("expected a record"),
    }
    assert!(kept[1].is_err());
}

#[test]
fn map_column_rewrites_one_field() {
    let a = CsvRecord::parse_csv_line("x,y", ',').unwrap();
    let b = CsvRecord::parse_csv_line("z", ',').unwrap();
    let out = map_column(vec![a, b], 1, |v: &str| v.to_uppercase());
    assert_eq!(out.len(), 2);
    assert_eq!(out[0].get_field(0), Some("x"));
    assert_eq!(out[0].get_field(1), Some("Y"));
    assert_eq!(out[1].get_field(0), Some("z"));
    assert_eq!(out[1].get_field(1), None);
}

#[test]
fn parse_chunk_skips_blank_lines_and_stops_at_a_bad_one() {
    let lines = vec!["a,1\n".to_string(), "   \r\n".to_string(), "b,2".to_string()];
    let recs = parse_chunk(&lines, ',').unwrap();
    assert_eq!(recs.len(), 2);
    assert_eq!(recs[1].get_field(1), Some("2"));
    let bad = vec!["a,1".to_string(), "\"open".to_string(), "c,3".to_string()];
    match parse_chunk(&bad, ',') {
        Err((k, e)) => {
            assert_eq!(k, 1);
            assert_eq!(e, ParseError::UnterminatedQuote);
        }
        Ok(_) => panic!("expected an error"),
    }
}
