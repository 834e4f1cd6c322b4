use projecta::streaming::{
    all, count, find, fold, for_each, windows, AllocatingWindows, GroupBy, Iter, StreamingIterator,
    StreamingIteratorExt,
};
use std::mem::{size_of, size_of_val};

// Milestone 1 Tests
#[test]
fn test_streaming_iter_basic() {
    let data = vec![1, 2, 3, 4, 5];
    let mut iter = Iter::new(&data);

    assert_eq!(iter.next(), Some(&1));
    assert_eq!(iter.next(), Some(&2));
    assert_eq!(iter.next(), Some(&3));
    assert_eq!(iter.next(), Some(&4));
    assert_eq!(iter.next(), Some(&5));
    assert_eq!(iter.next(), None);
}

#[test]
fn complete_06_streaming_iterator_test_size_hint() {
    let data = vec![10, 20, 30];
    let mut iter = Iter::new(&data);

    assert_eq!(iter.size_hint(), (3, Some(3)));

    iter.next();
    assert_eq!(iter.size_hint(), (2, Some(2)));

    iter.next();
    assert_eq!(iter.size_hint(), (1, Some(1)));
}

// Milestone 2 Tests
#[test]
fn test_windows_overlapping() {
    let data = vec![1, 2, 3, 4, 5];
    let mut iter = windows(&data, 3);

    assert_eq!(iter.next(), Some(&[1, 2, 3][..]));
    assert_eq!(iter.next(), Some(&[2, 3, 4][..]));
    assert_eq!(iter.next(), Some(&[3, 4, 5][..]));
    assert_eq!(iter.next(), None);
}

#[test]
fn test_windows_size_2() {
    let data = vec!['a', 'b', 'c', 'd'];
    let mut iter = windows(&data, 2);

    assert_eq!(iter.next(), Some(&['a', 'b'][..]));
    assert_eq!(iter.next(), Some(&['b', 'c'][..]));
    assert_eq!(iter.next(), Some(&['c', 'd'][..]));
    assert_eq!(iter.next(), None);
}

#[test]
fn test_windows_exact_size() {
    let data = vec![10, 20, 30];
    let mut iter = windows(&data, 3);

    assert_eq!(iter.next(), Some(&[10, 20, 30][..]));
    assert_eq!(iter.next(), None);
}

#[test]
fn test_windows_too_large() {
    let data = vec![1, 2];
    let mut iter = windows(&data, 5);

    assert_eq!(iter.next(), None);
}

#[test]
fn test_step_by() {
    let data = vec![1, 2, 3, 4, 5, 6];
    let mut iter = windows(&data, 2).step_by(2);

    assert_eq!(iter.next(), Some(&[1, 2][..]));
    assert_eq!(iter.next(), Some(&[3, 4][..]));
    assert_eq!(iter.next(), Some(&[5, 6][..]));
    assert_eq!(iter.next(), None);
}

// Milestone 3 Tests
#[test]
fn test_for_each() {
    let data: &[i32] = &[1, 2, 3, 4, 5];
    let iter = windows(data, 2);

    let mut sum = 0;
    for_each(iter, |window| {
        sum += window[0] + window[1];
    });

    // Windows: [1,2], [2,3], [3,4], [4,5]
    // Sum: 3 + 5 + 7 + 9 = 24
    assert_eq!(sum, 24);
}

#[test]
fn test_all() {
    let data1: &[i32] = &[2, 4, 6, 8];
    let iter = Iter::new(data1);

    let all_even = all(iter, |&x| x % 2 == 0);
    assert!(all_even);

    let data2: &[i32] = &[2, 4, 5, 8];
    let iter = Iter::new(data2);
    let all_even = all(iter, |&x| x % 2 == 0);
    assert!(!all_even);
}

#[test]
fn test_fold() {
    let data: &[i32] = &[1, 2, 3, 4, 5];
    let iter = Iter::new(data);

    let sum = fold(iter, 0, |acc, &x| acc + x);
    assert_eq!(sum, 15);
}

#[test]
fn test_fold_windows() {
    let data: &[i32] = &[1, 2, 3, 4];
    let iter = windows(data, 2);

    // Concatenate all windows
    let result = fold(iter, Vec::new(), |mut acc, window| {
        acc.extend_from_slice(window);
        acc
    });

    // Windows: [1,2], [2,3], [3,4]
    assert_eq!(result, vec![1, 2, 2, 3, 3, 4]);
}

#[test]
fn test_count() {
    let data = vec![10, 20, 30, 40, 50];
    let iter = windows(&data, 3);

    assert_eq!(count(iter), 3); // 3 windows of size 3
}

#[test]
fn test_find() {
    let data: &[i32] = &[1, 2, 3, 4, 5];
    let iter = windows(data, 2);

    // Find window where first element is 3
    let has_window_starting_3 = find(iter, |window| window[0] == 3);
    assert!(has_window_starting_3);
}

// Milestone 4 Tests
#[test]
fn test_group_by_consecutive() {
    let data = vec![1, 1, 1, 2, 2, 3, 3, 3, 3];
    let mut iter = GroupBy::new(&data);

    assert_eq!(iter.next(), Some(&[1, 1, 1][..]));
    assert_eq!(iter.next(), Some(&[2, 2][..]));
    assert_eq!(iter.next(), Some(&[3, 3, 3, 3][..]));
    assert_eq!(iter.next(), None);
}

#[test]
fn test_group_by_single_elements() {
    let data = vec![1, 2, 3, 4];
    let mut iter = GroupBy::new(&data);

    assert_eq!(iter.next(), Some(&[1][..]));
    assert_eq!(iter.next(), Some(&[2][..]));
    assert_eq!(iter.next(), Some(&[3][..]));
    assert_eq!(iter.next(), Some(&[4][..]));
    assert_eq!(iter.next(), None);
}

#[test]
fn test_group_by_all_equal() {
    let data = vec!['a', 'a', 'a', 'a'];
    let mut iter = GroupBy::new(&data);

    assert_eq!(iter.next(), Some(&['a', 'a', 'a', 'a'][..]));
    assert_eq!(iter.next(), None);
}

#[test]
fn test_group_by_strings() {
    let data = vec!["a", "a", "b", "c", "c", "c"];
    let mut iter = GroupBy::new(&data);

    assert_eq!(iter.next(), Some(&["a", "a"][..]));
    assert_eq!(iter.next(), Some(&["b"][..]));
    assert_eq!(iter.next(), Some(&["c", "c", "c"][..]));
    assert_eq!(iter.next(), None);
}

// Milestone 5 Tests
#[test]
fn test_allocating_windows() {
    let data = vec![1, 2, 3, 4, 5];
    let mut iter = AllocatingWindows::new(data, 3);

    assert_eq!(iter.next(), Some(vec![1, 2, 3]));
    assert_eq!(iter.next(), Some(vec![2, 3, 4]));
    assert_eq!(iter.next(), Some(vec![3, 4, 5]));
    assert_eq!(iter.next(), None);
}

#[test]
fn test_allocating_can_collect() {
    let data = vec![1, 2, 3, 4];
    let iter = AllocatingWindows::new(data, 2);

    let mut iter = iter;
    let mut windows: Vec<Vec<i32>> = Vec::new();
    while let Some(w) = iter.next() {
        windows.push(w);
    }
    assert_eq!(windows, vec![vec![1, 2], vec![2, 3], vec![3, 4]]);
}

#[test]
fn test_memory_comparison() {

    let data: Vec<i32> = (0..100).collect();

    // Streaming: just slice metadata (pointer + length)
    let mut streaming = windows(&data, 10);
    let slice_ref_size = if let Some(window) = streaming.next() {
        // This measures the fat pointer (&[i32]) on the stack
        size_of_val(&window) // Size of the reference itself
    } else {
        0
    };

    // Allocating: full Vec (pointer + length + capacity)
    let mut allocating = AllocatingWindows::new(data.clone(), 10);
    let vec_ref_size = if let Some(window) = allocating.next() {
        // This measures Vec<i32> on the stack
        size_of_val(&window)
    } else {
        0
    };

    // Both &[i32] and Vec<i32> are stack structures
    // &[i32] is 16 bytes (ptr + len)
    // Vec<i32> is 24 bytes (ptr + len + cap)
    println!("Slice reference size: {}", slice_ref_size);
    println!("Vec size: {}", vec_ref_size);
    println!("Expected &[T] size: {}", size_of::<&[i32]>());
    println!("Expected Vec<T> size: {}", size_of::<Vec<i32>>());

    // Just verify they have reasonable sizes
    assert!(slice_ref_size > 0 && vec_ref_size > 0);
}

#[test]
fn complete_06_streaming_iterator_test_zero_cost_abstraction() {
    // Streaming iterator is just data pointer + position
    let data = vec![1, 2, 3];
    let iter = Iter::new(&data);

    // Should be small - just a reference and index
    assert!(std::mem::size_of_val(&iter) <= 24);
}

#[test]
fn test_step_by_three_on_elements() {
    let data = vec![1, 2, 3, 4, 5, 6, 7];
    let mut iter = Iter::new(&data).step_by(3);
    assert_eq!(iter.next(), Some(&1));
    assert_eq!(iter.next(), Some(&4));
    assert_eq!(iter.next(), Some(&7));
    assert_eq!(iter.next(), None);
    assert_eq!(iter.next(), None);
}

#[test]
fn test_windows_size_hint_and_find_none() {
    let data = vec![1, 2, 3, 4];
    let iter = windows(&data, 3);
    assert_eq!(iter.size_hint(), (2, Some(2)));
    assert!(!find(windows(&data, 3), |w| w[0] == 9));
    let empty: Vec<i32> = Vec::new();
    assert_eq!(count(GroupBy::new(&empty)), 0);
}
