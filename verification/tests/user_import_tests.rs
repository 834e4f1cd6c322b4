use projecta::user_import::{
    deduplicate_chunk, deduplicate_hashset, insert_statement, records_from_rows, transform_record,
    ChunkBuffer, ChunkStats, ImportStats, ParseError, TrackedVec, UserRecord,
};

fn user(id: u64, name: &str, email: &str, age: u32, country: &str) -> UserRecord {
    UserRecord {
        id,
        name: name.into(),
        email: email.into(),
        age,
        country: country.into(),
    }
}

#[test]
fn test_parse_invalid_age() {
    let row = vec!["1", "Alice", "alice@test.com", "invalid", "US"];
    let result = UserRecord::from_csv_row(&row);

    assert!(matches!(
        result.unwrap_err(),
        ParseError::InvalidType { field, .. } if field == "age"
    ));
}

#[test]
fn test_parse_missing_field() {
    let row = vec!["1", "Alice", "alice@test.com"];
    let result = UserRecord::from_csv_row(&row);
    assert!(matches!(result.unwrap_err(), ParseError::InvalidFormat(_)));
}

#[test]
fn test_tracked_vec_no_reallocations() {
    let mut vec = TrackedVec::with_capacity(10);
    for i in 0..10 {
        vec.push(i);
    }
    let stats = vec.stats();
    assert_eq!(stats.allocations, 1);
    assert_eq!(stats.reallocations, 0);
}

#[test]
fn test_tracked_vec_with_reallocations() {
    let mut vec = TrackedVec::with_capacity(4);
    for i in 0..8 {
        vec.push(i);
    }
    let stats = vec.stats();
    assert!(stats.reallocations > 0);
}

#[test]
fn test_dedup_removes_duplicates() {
    let mut records = vec![
        user(1, "A", "a@test.com", 30, "US"),
        user(2, "B", "b@test.com", 25, "UK"),
        user(1, "A2", "a2@test.com", 31, "CA"),
    ];
    deduplicate_chunk(&mut records);
    assert_eq!(records.len(), 2);
}

#[test]
fn test_dedup_ordering() {
    let mut records = vec![
        user(3, "C", "c@test.com", 30, "US"),
        user(1, "A", "a@test.com", 25, "UK"),
        user(2, "B", "b@test.com", 25, "UK"),
    ];
    deduplicate_chunk(&mut records);
    assert_eq!(records.iter().map(|r| r.id).collect::<Vec<_>>(), vec![1, 2, 3]);
}

#[test]
fn test_hashset_dedup_correctness() {
    let mut records = vec![
        user(1, "A", "a@test.com", 30, "US"),
        user(1, "A2", "a2@test.com", 31, "CA"),
        user(2, "B", "b@test.com", 25, "UK"),
    ];
    deduplicate_hashset(&mut records);
    assert_eq!(records.len(), 2);
}

#[test]
fn test_dedup_methods_equivalent() {
    let original = vec![
        user(3, "C", "c@test.com", 30, "US"),
        user(1, "A", "a@test.com", 25, "UK"),
        user(3, "C2", "c2@test.com", 32, "CA"),
    ];

    let mut sort = original.clone();
    let mut hash = original.clone();
    deduplicate_chunk(&mut sort);
    deduplicate_hashset(&mut hash);
    assert_eq!(sort.len(), hash.len());
}

#[test]
fn rows_convert_or_are_skipped() {
    let rows = vec![
        vec!["1", "Alice", "alice@test.com", "30", "US"],
        vec!["2", "Bob", "bob@test.com", "invalid_age", "UK"],
        vec!["x", "Carl", "carl@test.com", "40", "DE"],
        vec!["+3", "Charlie", "charlie@test.com", "35", "CA"],
    ];
    let records = records_from_rows(&rows);
    assert_eq!(records.len(), 2);
    assert_eq!(records[0].id, 1);
    assert_eq!(records[0].name, "Alice");
    assert_eq!(records[0].age, 30);
    assert_eq!(records[1].id, 3);
    assert_eq!(records[1].country, "CA");
    assert!(matches!(
        UserRecord::from_csv_row(&["x", "Carl", "c", "40", "DE"]),
        Err(ParseError::InvalidType { field, .. }) if field == "id"
    ));
    assert!(matches!(
        UserRecord::from_csv_row(&["-1", "Carl", "c", "40", "DE"]),
        Err(ParseError::InvalidType { field, .. }) if field == "id"
    ));
    assert!(matches!(
        UserRecord::from_csv_row(&["1", "Carl", "c", "4294967296", "DE"]),
        Err(ParseError::InvalidType { field, .. }) if field == "age"
    ));
}

#[test]
fn chunk_buffer_hands_out_full_chunks() {
    let mut buffer = ChunkBuffer::new(2);
    assert!(buffer.push(user(1, "A", "a", 1, "US")).is_none());
    let full = buffer.push(user(2, "B", "b", 2, "US")).unwrap();
    assert_eq!(full.iter().map(|r| r.id).collect::<Vec<_>>(), vec![1, 2]);
    assert!(buffer.push(user(3, "C", "c", 3, "US")).is_none());
    let last = buffer.finish().unwrap();
    assert_eq!(last.len(), 1);
    assert!(ChunkBuffer::new(3).finish().is_none());
}

#[test]
fn counters_of_chunks_and_batches() {
    let mut stats = ChunkStats::default();
    stats.record_chunk(10);
    stats.record_chunk(4);
    assert_eq!(stats.total_chunks, 2);
    assert_eq!(stats.total_records, 14);
    assert_eq!(stats.peak_memory_bytes, 10 * std::mem::size_of::<UserRecord>());

    let mut import = ImportStats::default();
    import.record_batch(5, true);
    import.record_batch(3, false);
    assert_eq!(import.records_imported, 5);
    assert_eq!(import.records_failed, 3);
    assert_eq!(import.batches_processed, 1);
}

#[test]
fn insert_statement_has_one_placeholder_row_per_user() {
    assert_eq!(
        insert_statement(2),
        "INSERT INTO users (id, name, email, age, country) VALUES (?, ?, ?, ?, ?), (?, ?, ?, ?, ?)"
    );
    assert_eq!(
        insert_statement(0),
        "INSERT INTO users (id, name, email, age, country) VALUES "
    );
}

#[test]
fn transform_normalises_case() {
    let mut record = user(1, "Alice", "ALICE@TEST.COM", 30, "us");
    transform_record(&mut record);
    assert_eq!(record.email, "alice@test.com");
    assert_eq!(record.country, "US");
    assert_eq!(record.name, "Alice");
}

#[test]
fn hashset_dedup_keeps_first_in_order() {
    let mut records = vec![
        user(3, "C", "c", 1, "US"),
        user(1, "A", "a", 1, "US"),
        user(3, "C2", "c2", 1, "US"),
        user(2, "B", "b", 1, "US"),
    ];
    deduplicate_hashset(&mut records);
    assert_eq!(records.iter().map(|r| r.id).collect::<Vec<_>>(), vec![3, 1, 2]);
    assert_eq!(records[0].name, "C");
}
