use projecta::kway::{merge_k, MergeIterator};
use std::time::Instant;
use projecta::sorted_search::{
    binary_search_exact, binary_search_lower_bound, binary_search_upper_bound, count_in_range,
    is_sorted, merge_two, prefix_search, query_logs_by_time, range_query, recommend_collection,
    AutoComplete, CollectionBenchmark, LogEntry, SortedVec,
};

#[test]
fn test_exact_search_found() {
    let arr = vec![1, 3, 5, 7, 9, 11, 13];
    assert_eq!(binary_search_exact(&arr, &5), Some(2));
    assert_eq!(binary_search_exact(&arr, &1), Some(0));
    assert_eq!(binary_search_exact(&arr, &13), Some(6));
}

#[test]
fn test_exact_search_not_found() {
    let arr = vec![1, 3, 5, 7, 9];
    assert_eq!(binary_search_exact(&arr, &2), None);
    assert_eq!(binary_search_exact(&arr, &0), None);
    assert_eq!(binary_search_exact(&arr, &10), None);
}

#[test]
fn test_lower_upper_bounds() {
    let arr = vec![1, 3, 5, 7, 9];
    assert_eq!(binary_search_lower_bound(&arr, &5), 2);
    assert_eq!(binary_search_lower_bound(&arr, &4), 2);
    assert_eq!(binary_search_upper_bound(&arr, &5), 3);
    assert_eq!(binary_search_upper_bound(&arr, &4), 2);
}

#[test]
fn test_is_sorted() {
    assert!(is_sorted(&[1, 2, 3]));
    assert!(is_sorted(&[1, 1, 2]));
    assert!(!is_sorted(&[2, 1, 3]));
}

#[test]
fn test_range_query_basic() {
    let arr = vec![1, 3, 5, 7, 9, 11, 13];
    let result = range_query(&arr, &5, &11);
    assert_eq!(result, &[5, 7, 9, 11]);
}

#[test]
fn test_range_query_empty() {
    let arr = vec![1, 3, 5, 7, 9];
    let result = range_query(&arr, &20, &30);
    assert!(result.is_empty());
}

#[test]
fn test_count_in_range() {
    let arr = vec![1, 3, 5, 7, 9, 11, 13, 15];
    assert_eq!(count_in_range(&arr, &5, &11), 4);
}

#[test]
fn test_query_logs() {
    let logs = vec![
        LogEntry { timestamp: 100, level: "INFO".into(), message: "Msg1".into() },
        LogEntry { timestamp: 200, level: "INFO".into(), message: "Msg2".into() },
        LogEntry { timestamp: 300, level: "ERROR".into(), message: "Msg3".into() },
    ];
    let result = query_logs_by_time(&logs, 150, 250);
    assert_eq!(result.len(), 1);
    assert_eq!(result[0].timestamp, 200);
}

#[test]
fn test_prefix_search_basic() {
    let words = vec![
        "apple".to_string(),
        "application".to_string(),
        "apply".to_string(),
        "banana".to_string(),
    ];
    let result = prefix_search(&words, "app");
    assert_eq!(result.len(), 3);
}

#[test]
fn test_autocomplete() {
    let words = vec![
        "apple".to_string(),
        "application".to_string(),
        "apply".to_string(),
        "appreciate".to_string(),
        "banana".to_string(),
    ];
    let ac = AutoComplete::new(words);
    let suggestions = ac.suggest("app");
    assert!(suggestions.len() <= 10);
    assert!(suggestions.iter().all(|s| s.starts_with("app")));
}

#[test]
fn test_autocomplete_dedup() {
    let words = vec!["apple".to_string(), "apple".to_string()];
    let ac = AutoComplete::new(words);
    assert_eq!(ac.word_count(), 1);
}

#[test]
fn test_merge_two_basic() {
    let left = vec![1, 3, 5];
    let right = vec![2, 4, 6];
    let result = merge_two(&left, &right);
    assert_eq!(result, vec![1, 2, 3, 4, 5, 6]);
}

#[test]
fn test_merge_k_basic() {
    let seq1 = vec![1, 4, 7];
    let seq2 = vec![2, 5, 8];
    let seq3 = vec![3, 6, 9];
    let sequences = vec![&seq1[..], &seq2[..], &seq3[..]];
    let result = merge_k(&sequences);
    assert_eq!(result, vec![1, 2, 3, 4, 5, 6, 7, 8, 9]);
}

#[test]
fn test_merge_iterator() {
    let seq1 = vec![1, 4, 7];
    let seq2 = vec![2, 5, 8];
    let seq3 = vec![3, 6, 9];
    let sequences = vec![&seq1[..], &seq2[..], &seq3[..]];
    let mut iter = MergeIterator::new(sequences);
    let mut result = Vec::new();
    while let Some(v) = iter.next() {
        result.push(v);
    }
    assert_eq!(result, vec![1, 2, 3, 4, 5, 6, 7, 8, 9]);
}

#[test]
fn test_merge_performance() {
    let sequences: Vec<Vec<i32>> = (0..10).map(|i| (i..1000).step_by(10).collect()).collect();
    let seq_refs: Vec<&[i32]> = sequences.iter().map(|seq| seq.as_slice()).collect();
    let start = Instant::now();
    let _ = merge_k(&seq_refs);
    let k_time = start.elapsed();
    let start = Instant::now();
    let mut merged = sequences[0].clone();
    for seq in &sequences[1..] {
        merged = merge_two(&merged, seq);
    }
    let two_time = start.elapsed();
    println!("K-way: {:?}, two-way: {:?}", k_time, two_time);
}

#[test]
fn test_sorted_vec_insert() {
    let mut sv = SortedVec::new();
    assert!(sv.insert(5));
    assert!(sv.insert(3));
    assert!(sv.insert(7));
    assert_eq!(sv.as_slice(), &[3, 5, 7]);
}

#[test]
fn test_sorted_vec_remove() {
    let mut sv = SortedVec::new();
    sv.insert(1);
    sv.insert(3);
    sv.insert(5);
    assert!(sv.remove(&3));
    assert_eq!(sv.as_slice(), &[1, 5]);
}

#[test]
fn test_sorted_vec_range() {
    let mut sv = SortedVec::new();
    for value in &[1, 3, 5, 7, 9, 11] {
        sv.insert(*value);
    }
    assert_eq!(sv.range(&5, &9), &[5, 7, 9]);
}

#[test]
fn test_sorted_vec_contains() {
    let mut sv = SortedVec::new();
    sv.insert(1);
    sv.insert(3);
    assert!(sv.contains(&3));
    assert!(!sv.contains(&5));
}

#[test]
fn complete_10_vec_binary_search_test_recommendations() {
    assert_eq!(recommend_collection(100, true, true, false), "SortedVec");
    assert_eq!(recommend_collection(10000, true, false, false), "BTreeSet");
    assert_eq!(recommend_collection(1000, false, false, true), "HashSet");
}

#[test]
fn sorted_vec_rejects_duplicates_and_missing_removals() {
    let mut sv = SortedVec::new();
    assert!(sv.insert(4));
    assert!(!sv.insert(4));
    assert!(!sv.remove(&9));
    assert_eq!(sv.len(), 1);
    assert!(!sv.is_empty());
    assert!(sv.remove(&4));
    assert!(sv.is_empty());
}

#[test]
fn range_query_with_inverted_bounds_is_empty() {
    let arr = vec![1, 2, 3];
    assert!(range_query(&arr, &3, &1).is_empty());
    assert_eq!(count_in_range(&arr, &3, &1), 0);
    let empty: Vec<i32> = Vec::new();
    assert!(range_query(&empty, &1, &3).is_empty());
}

#[test]
fn count_matches_range_length() {
    let arr = vec![1, 2, 2, 2, 3, 5, 8];
    for (s, e) in [(2, 2), (0, 10), (4, 7), (2, 5)] {
        assert_eq!(count_in_range(&arr, &s, &e), range_query(&arr, &s, &e).len());
    }
}

#[test]
fn bounds_bracket_duplicates() {
    let arr = vec![1, 2, 2, 2, 3];
    assert_eq!(binary_search_lower_bound(&arr, &2), 1);
    assert_eq!(binary_search_upper_bound(&arr, &2), 4);
    assert_eq!(binary_search_lower_bound(&arr, &0), 0);
    assert_eq!(binary_search_upper_bound(&arr, &9), 5);
}

#[test]
fn prefix_search_edges() {
    let words = vec!["ant".to_string(), "bee".to_string(), "beetle".to_string(), "cat".to_string()];
    assert_eq!(prefix_search(&words, "").len(), 4);
    assert_eq!(prefix_search(&words, "bee"), &words[1..3]);
    assert!(prefix_search(&words, "dog").is_empty());
    assert!(prefix_search(&words, "aa").is_empty());
}

#[test]
fn autocomplete_suggests_in_order_and_caps_at_ten() {
    let words: Vec<String> = (0..15).map(|i| format!("w{:02}", 14 - i)).collect();
    let ac = AutoComplete::new(words);
    let s = ac.suggest("w");
    assert_eq!(s.len(), 10);
    assert_eq!(s[0], "w00");
    assert_eq!(s[9], "w09");
    assert_eq!(ac.suggest_all("w1").len(), 5);
}

#[test]
fn merge_two_prefers_left_and_handles_empty() {
    let empty: Vec<i32> = Vec::new();
    assert_eq!(merge_two(&empty, &[1, 2]), vec![1, 2]);
    assert_eq!(merge_two(&[3], &empty), vec![3]);
    assert_eq!(merge_two(&[1, 1], &[1]), vec![1, 1, 1]);
}

#[test]
fn merge_k_handles_empty_inputs() {
    let none: Vec<&[i32]> = Vec::new();
    assert!(merge_k(&none).is_empty());
    let a: Vec<i32> = vec![];
    let b = vec![2, 3];
    assert_eq!(merge_k(&[&a[..], &b[..]]), vec![2, 3]);
}

#[test]
fn benchmark_keeps_sizes() {
    let b = CollectionBenchmark::new(vec![10, 20]);
    assert_eq!(b.size_list(), &[10, 20]);
}

#[test]
fn recommendation_branches() {
    assert_eq!(recommend_collection(10, true, false, false), "BTreeSet");
    assert_eq!(recommend_collection(10, true, true, true), "BTreeSet");
    assert_eq!(recommend_collection(5000, false, true, false), "BTreeSet");
}

#[test]
fn merge_k_output_is_sorted() {
    let a = [1, 4, 4, 9];
    let b = [0, 4, 5];
    let c: [i32; 0] = [];
    let d = [2, 3, 10, 11];
    let r = merge_k(&[&a[..], &b[..], &c[..], &d[..]]);
    assert_eq!(r, vec![0, 1, 2, 3, 4, 4, 4, 5, 9, 10, 11]);
}
