use projecta::timeseries::SlidingWindow;

#[test]
fn test_create_window() {
    let window: SlidingWindow<f64> = SlidingWindow::new(10);
    assert_eq!(window.len(), 0);
    assert!(!window.is_full());
    assert!(window.is_empty());
}

#[test]
fn test_push_values() {
    let mut window = SlidingWindow::new(3);
    assert_eq!(window.push(1.0), None);
    assert_eq!(window.push(2.0), None);
    assert_eq!(window.push(3.0), None);
    assert!(window.is_full());
}

#[test]
fn test_window_eviction() {
    let mut window = SlidingWindow::new(3);
    window.push(1.0);
    window.push(2.0);
    window.push(3.0);
    assert_eq!(window.push(4.0), Some(1.0));
    assert_eq!(window.push(5.0), Some(2.0));
}

#[test]
fn test_window_fifo_order() {
    let mut window = SlidingWindow::new(3);
    window.push(10.0);
    window.push(20.0);
    window.push(30.0);
    window.push(40.0);
    assert_eq!(window.as_slice(), &[20.0, 30.0, 40.0]);
}

#[test]
fn test_zero_capacity_window_keeps_growing() {
    let mut window = SlidingWindow::new(0);
    assert_eq!(window.push(1), None);
    assert_eq!(window.push(2), None);
    assert_eq!(window.len(), 2);
    assert_eq!(window.as_slice(), &[1, 2]);
}
