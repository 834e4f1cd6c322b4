use projecta::fixed::{
    count_matching, BinaryHeap, Configured, Container, ContainerBuilder, Empty, Ready, RingBuffer,
    Stack,
};
use std::mem::size_of;
use std::sync::Arc;

#[derive(Debug, PartialEq)]
struct Point {
    x: i32,
    y: i32,
}

fn sum_all<T, C>(container: &C) -> T
where
    T: std::ops::Add<Output = T> + Default + Copy,
    C: Container<T>,
{
    container.iter().into_iter().copied().fold(T::default(), |acc, x| acc + x)
}

#[test]
fn test_new_stack_is_empty() {
    let stack: Stack<i32, 10> = Stack::new();
    assert_eq!(stack.len(), 0);
    assert!(stack.is_empty());
    assert_eq!(stack.capacity(), 10);
}

#[test]
fn test_push_and_pop() {
    let mut stack: Stack<i32, 5> = Stack::new();
    assert_eq!(stack.push(1), Ok(()));
    assert_eq!(stack.push(2), Ok(()));
    assert_eq!(stack.push(3), Ok(()));
    assert_eq!(stack.len(), 3);
    assert_eq!(stack.pop(), Some(3));
    assert_eq!(stack.pop(), Some(2));
    assert_eq!(stack.pop(), Some(1));
    assert_eq!(stack.pop(), None);
}

#[test]
fn test_push_when_full() {
    let mut stack: Stack<i32, 3> = Stack::new();
    assert_eq!(stack.push(1), Ok(()));
    assert_eq!(stack.push(2), Ok(()));
    assert_eq!(stack.push(3), Ok(()));
    assert!(stack.is_full());
    assert_eq!(stack.push(4), Err(4));
}

#[test]
fn test_peek() {
    let mut stack: Stack<String, 5> = Stack::new();
    assert_eq!(stack.peek(), None);
    stack.push("hello".to_string()).unwrap();
    stack.push("world".to_string()).unwrap();
    assert_eq!(stack.peek(), Some(&"world".to_string()));
    assert_eq!(stack.len(), 2);
}

#[test]
fn test_drop_calls_destructor() {
    let value = Arc::new(42);
    assert_eq!(Arc::strong_count(&value), 1);
    {
        let mut stack: Stack<Arc<i32>, 5> = Stack::new();
        stack.push(Arc::clone(&value)).unwrap();
        stack.push(Arc::clone(&value)).unwrap();
        assert_eq!(Arc::strong_count(&value), 3);
    }
    assert_eq!(Arc::strong_count(&value), 1);
}

#[test]
fn test_different_types() {
    let mut stack_i32: Stack<i32, 10> = Stack::new();
    stack_i32.push(42).unwrap();
    assert_eq!(stack_i32.pop(), Some(42));

    let mut stack_str: Stack<String, 10> = Stack::new();
    stack_str.push("test".to_string()).unwrap();
    assert_eq!(stack_str.pop(), Some("test".to_string()));

    let mut stack_point: Stack<Point, 10> = Stack::new();
    stack_point.push(Point { x: 1, y: 2 }).unwrap();
    assert_eq!(stack_point.pop(), Some(Point { x: 1, y: 2 }));
}

#[test]
fn test_ring_buffer_push_pop() {
    let mut buf: RingBuffer<i32, 4> = RingBuffer::new();
    buf.push(1).unwrap();
    buf.push(2).unwrap();
    buf.push(3).unwrap();
    assert_eq!(buf.pop(), Some(1));
    assert_eq!(buf.pop(), Some(2));
    buf.push(4).unwrap();
    buf.push(5).unwrap();
    assert_eq!(buf.pop(), Some(3));
    assert_eq!(buf.pop(), Some(4));
    assert_eq!(buf.pop(), Some(5));
    assert_eq!(buf.pop(), None);
}

#[test]
fn test_ring_buffer_wraparound() {
    let mut buf: RingBuffer<i32, 3> = RingBuffer::new();
    buf.push(1).unwrap();
    buf.push(2).unwrap();
    buf.push(3).unwrap();
    buf.push(4).unwrap();
    buf.push(5).unwrap();
    assert_eq!(buf.pop(), Some(3));
    assert_eq!(buf.pop(), Some(4));
    assert_eq!(buf.pop(), Some(5));
    assert_eq!(buf.pop(), None);
}

#[test]
fn test_ring_buffer_iterator() {
    let mut buf: RingBuffer<i32, 5> = RingBuffer::new();
    buf.push(10).unwrap();
    buf.push(20).unwrap();
    buf.push(30).unwrap();
    let mut iter = buf.into_iter();
    let mut collected: Vec<i32> = Vec::new();
    while let Some(v) = iter.next() {
        collected.push(v);
    }
    assert_eq!(collected, vec![10, 20, 30]);
}

#[test]
fn test_ring_buffer_fifo_order() {
    let mut buf: RingBuffer<char, 4> = RingBuffer::new();
    buf.push('a').unwrap();
    buf.push('b').unwrap();
    buf.push('c').unwrap();
    assert_eq!(buf.pop(), Some('a'));
    buf.push('d').unwrap();
    buf.push('e').unwrap();
    assert_eq!(buf.pop(), Some('b'));
    assert_eq!(buf.pop(), Some('c'));
    assert_eq!(buf.pop(), Some('d'));
}

#[test]
fn test_ring_buffer_size_hint() {
    let mut buf: RingBuffer<i32, 5> = RingBuffer::new();
    buf.push(1).unwrap();
    buf.push(2).unwrap();
    buf.push(3).unwrap();
    let iter = buf.into_iter();
    assert_eq!(iter.size_hint(), (3, Some(3)));
}

#[test]
fn test_heap_push_pop_order() {
    let mut heap: BinaryHeap<i32, 10> = BinaryHeap::new();
    heap.push(5).unwrap();
    heap.push(3).unwrap();
    heap.push(7).unwrap();
    heap.push(1).unwrap();
    heap.push(9).unwrap();
    assert_eq!(heap.pop(), Some(9));
    assert_eq!(heap.pop(), Some(7));
    assert_eq!(heap.pop(), Some(5));
    assert_eq!(heap.pop(), Some(3));
    assert_eq!(heap.pop(), Some(1));
    assert_eq!(heap.pop(), None);
}

#[test]
fn test_heap_peek() {
    let mut heap: BinaryHeap<i32, 5> = BinaryHeap::new();
    assert_eq!(heap.peek(), None);
    heap.push(10).unwrap();
    heap.push(20).unwrap();
    heap.push(5).unwrap();
    assert_eq!(heap.peek(), Some(&20));
    assert_eq!(heap.len(), 3);
}

#[test]
fn test_heap_with_strings() {
    let mut heap: BinaryHeap<String, 5> = BinaryHeap::new();
    heap.push("apple".to_string()).unwrap();
    heap.push("zebra".to_string()).unwrap();
    heap.push("banana".to_string()).unwrap();
    assert_eq!(heap.pop(), Some("zebra".to_string()));
    assert_eq!(heap.pop(), Some("banana".to_string()));
    assert_eq!(heap.pop(), Some("apple".to_string()));
}

#[test]
fn test_heap_capacity() {
    let mut heap: BinaryHeap<i32, 3> = BinaryHeap::new();
    assert_eq!(heap.push(1), Ok(()));
    assert_eq!(heap.push(2), Ok(()));
    assert_eq!(heap.push(3), Ok(()));
    assert_eq!(heap.push(4), Err(4));
}

#[test]
fn complete_04_generic_test_heap_property_maintained() {
    let mut heap: BinaryHeap<i32, 10> = BinaryHeap::new();
    for i in 0..10 {
        heap.push(i).unwrap();
    }
    let mut prev = heap.pop().unwrap();
    while let Some(current) = heap.pop() {
        assert!(prev >= current, "Heap property violated");
        prev = current;
    }
}

#[test]
fn test_stack_container_trait() {
    let mut stack: Stack<i32, 10> = Stack::new();
    stack.push(1).unwrap();
    stack.push(2).unwrap();
    stack.push(3).unwrap();
    assert_eq!(stack.len(), 3);
    assert!(!stack.is_empty());
    let collected: Vec<&i32> = stack.iter();
    assert_eq!(collected, vec![&1, &2, &3]);
}

#[test]
fn test_container_clear() {
    let mut stack: Stack<i32, 5> = Stack::new();
    stack.push(1).unwrap();
    stack.push(2).unwrap();
    stack.clear();
    assert_eq!(stack.len(), 0);
    assert!(stack.is_empty());
}

#[test]
fn test_count_matching() {
    let mut stack: Stack<i32, 10> = Stack::new();
    stack.push(1).unwrap();
    stack.push(2).unwrap();
    stack.push(3).unwrap();
    stack.push(4).unwrap();
    stack.push(5).unwrap();
    let even_count = count_matching(&stack, |&x| x % 2 == 0);
    assert_eq!(even_count, 2);
    let greater_than_3 = count_matching(&stack, |&x| x > 3);
    assert_eq!(greater_than_3, 2);
}

#[test]
fn test_container_polymorphism() {
    let mut stack: Stack<i32, 5> = Stack::new();
    stack.push(1).unwrap();
    stack.push(2).unwrap();
    stack.push(3).unwrap();
    assert_eq!(sum_all(&stack), 6);
}

#[test]
fn test_builder_with_default() {
    let stack: Stack<i32, 5> = ContainerBuilder::new().with_default(42).ready().build();
    assert_eq!(stack.len(), 5);
    assert_eq!(stack.peek(), Some(&42));
}

#[test]
fn test_builder_with_defaults() {
    let stack: Stack<i32, 3> = ContainerBuilder::new().with_defaults().build();
    assert_eq!(stack.len(), 0);
}

#[test]
fn test_builder_with_initializer() {
    let mut stack: Stack<i32, 5> =
        ContainerBuilder::new().with_defaults().build_with(|i| (i * 2) as i32);
    assert_eq!(stack.len(), 5);
    assert_eq!(stack.pop(), Some(8));
    assert_eq!(stack.pop(), Some(6));
}

#[test]
fn test_builder_zero_size() {
    assert_eq!(size_of::<ContainerBuilder<i32, 100, Empty>>(), size_of::<Option<i32>>());
    assert_eq!(size_of::<ContainerBuilder<i32, 100, Configured>>(), size_of::<Option<i32>>());
    assert_eq!(size_of::<ContainerBuilder<i32, 100, Ready>>(), size_of::<Option<i32>>());
    assert_eq!(size_of::<Empty>(), 0);
    assert_eq!(size_of::<Configured>(), 0);
    assert_eq!(size_of::<Ready>(), 0);
}

#[test]
fn test_builder_method_chaining() {
    let stack: Stack<String, 5> =
        ContainerBuilder::new().with_default(String::from("test")).ready().build();
    assert_eq!(stack.len(), 5);
}

#[test]
fn peek_mut_changes_the_top() {
    let mut stack: Stack<i32, 3> = Stack::new();
    assert!(stack.peek_mut().is_none());
    stack.push(1).unwrap();
    stack.push(2).unwrap();
    if let Some(top) = stack.peek_mut() {
        *top = 20;
    }
    assert_eq!(stack.pop(), Some(20));
    assert_eq!(stack.pop(), Some(1));
}

#[test]
fn ring_buffer_capacity_and_fullness() {
    let mut buf: RingBuffer<u8, 2> = RingBuffer::new();
    assert!(buf.is_empty());
    assert_eq!(buf.capacity(), 2);
    buf.push(1).unwrap();
    buf.push(2).unwrap();
    assert!(buf.is_full());
    buf.push(3).unwrap();
    assert_eq!(buf.len(), 2);
    assert_eq!(buf.pop(), Some(2));
}

#[test]
fn heap_fullness() {
    let mut heap: BinaryHeap<i32, 2> = BinaryHeap::new();
    assert!(heap.is_empty());
    heap.push(1).unwrap();
    heap.push(1).unwrap();
    assert!(heap.is_full());
    assert_eq!(heap.pop(), Some(1));
    assert_eq!(heap.pop(), Some(1));
    assert!(heap.pop().is_none());
}
