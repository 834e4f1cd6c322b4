//! Containers with a capacity fixed by a const parameter: a stack, a ring buffer that
//! overwrites its oldest item when full, and a max-heap; a container trait; and a
//! type-state builder for stacks.
use vstd::prelude::*;
use std::marker::PhantomData;
use crate::priority_queue::{PriorityQueue, MaxHeap, dominates};
use crate::order::total_order;

verus! {

/// A last-in-first-out stack holding at most `N` items.
pub struct Stack<T, const N: usize> {
    items: Vec<T>,
}

impl<T, const N: usize> View for Stack<T, N> {
    type V = Seq<T>;

    /// The items from bottom to top.
    closed spec fn view(&self) -> Seq<T> {
        self.items@
    }
}

impl<T, const N: usize> Stack<T, N> {
    /// The stack never holds more than `N` items.
    pub closed spec fn wf(&self) -> bool {
        self.items@.len() <= N
    }

    /// An empty stack.
    pub fn new() -> (r: Self)
        ensures
            r.wf(),
            r@ == Seq::<T>::empty(),
    {
        Stack { items: Vec::new() }
    }

    /// Pushes `value` on top, or hands it back when the stack is full.
    pub fn push(&mut self, value: T) -> (r: Result<(), T>)
        requires
            old(self).wf(),
        ensures
            final(self).wf(),
            old(self)@.len() < N ==> r is Ok && final(self)@ == old(self)@.push(value),
            old(self)@.len() >= N ==> r == Err::<(), T>(value) && final(self)@ == old(self)@,
    {
        if self.items.len() >= N {
            return Err(value);
        }
        self.items.push(value);
        Ok(())
    }

    /// Removes and returns the top item.
    pub fn pop(&mut self) -> (r: Option<T>)
        ensures
            old(self).wf() ==> final(self).wf(),
            old(self)@.len() == 0 ==> r is None && final(self)@ == old(self)@,
            old(self)@.len() > 0 ==> r == Some(old(self)@.last()) && final(self)@ == old(self)@.drop_last(),
    {
        self.items.pop()
    }

    /// The top item.
    pub fn peek(&self) -> (r: Option<&T>)
        ensures
            self@.len() == 0 ==> r is None,
            self@.len() > 0 ==> r == Some(&self@.last()),
    {
        if self.items.len() == 0 {
            return None;
        }
        Some(&self.items[self.items.len() - 1])
    }

    /// The top item, for changing in place.
    pub fn peek_mut(&mut self) -> (r: Option<&mut T>)
        requires
            old(self).wf(),
        ensures
            final(self).wf(),
            old(self)@.len() == 0 ==> r is None && final(self)@ == old(self)@,
            old(self)@.len() > 0 ==> (r matches Some(x) && *x == old(self)@.last()
                && final(self)@ == old(self)@.update(old(self)@.len() - 1, *final(x))),
    {
        if self.items.len() == 0 {
            return None;
        }
        let last = self.items.len() - 1;
        Some(&mut self.items[last])
    }

    /// The number of items.
    pub fn len(&self) -> (r: usize)
        ensures
            r == self@.len(),
    {
        self.items.len()
    }

    /// Whether the stack is empty.
    pub fn is_empty(&self) -> (r: bool)
        ensures
            r == (self@.len() == 0),
    {
        self.items.len() == 0
    }

    /// Whether the stack holds `N` items.
    pub fn is_full(&self) -> (r: bool)
        requires
            self.wf(),
        ensures
            r == (self@.len() == N),
    {
        self.items.len() == N
    }

    /// The capacity `N`.
    pub fn capacity(&self) -> (r: usize)
        ensures
            r == N,
    {
        N
    }
}

/// A first-in-first-out queue of at most `N` items in a circular array; pushing onto a
/// full buffer overwrites the oldest item.
pub struct RingBuffer<T, const N: usize> {
    storage: Vec<Option<T>>,
    head: usize,
    tail: usize,
    len: usize,
}

/// The array slot of the `i`-th item of a ring that starts at `head`.
pub open spec fn ring_slot(head: int, i: int, n: int) -> int {
    if head + i < n { head + i } else { head + i - n }
}

impl<T, const N: usize> View for RingBuffer<T, N> {
    type V = Seq<T>;

    /// The items from oldest to newest.
    closed spec fn view(&self) -> Seq<T> {
        Seq::new(self.len as nat, |i: int| self.storage@[ring_slot(self.head as int, i, N as int)]->0)
    }
}

impl<T, const N: usize> RingBuffer<T, N> {
    /// The array has `N` slots, `head` is the oldest item, `tail` the next free slot,
    /// and the `len` slots from `head` on are occupied.
    pub closed spec fn wf(&self) -> bool {
        &&& self.storage@.len() == N
        &&& self.len <= N
        &&& N > 0 ==> self.head < N && self.tail < N && self.tail == ring_slot(self.head as int, self.len as int, N as int)
        &&& N == 0 ==> self.head == 0 && self.tail == 0 && self.len == 0
        &&& forall|i: int| 0 <= i < self.len ==> (#[trigger] self.storage@[ring_slot(self.head as int, i, N as int)]) is Some
    }

    /// An empty buffer.
    pub fn new() -> (r: Self)
        ensures
            r.wf(),
            r@ == Seq::<T>::empty(),
    {
        let mut storage: Vec<Option<T>> = Vec::new();
        let mut k: usize = 0;
        while k < N
            invariant
                k <= N,
                storage@.len() == k,
            decreases N - k,
        {
            storage.push(None);
            k = k + 1;
        }
        let r = RingBuffer { storage, head: 0, tail: 0, len: 0 };
        assert(r@ =~= Seq::<T>::empty());
        r
    }

    /// Appends `value`; when the buffer is full the oldest item is dropped to make room.
    /// Always succeeds.
    pub fn push(&mut self, value: T) -> (r: Result<(), T>)
        requires
            old(self).wf(),
            N > 0,
        ensures
            final(self).wf(),
            r is Ok,
            old(self)@.len() < N ==> final(self)@ == old(self)@.push(value),
            old(self)@.len() == N ==> final(self)@ == old(self)@.drop_first().push(value),
    {
        let ghost before = self@;
        let t = self.tail;
        let next = if t + 1 == N { 0 } else { t + 1 };
        self.storage.set(t, Some(value));
        if self.len == N {
            self.tail = next;
            self.head = if self.head + 1 == N { 0 } else { self.head + 1 };
            proof {
                assert forall|i: int| 0 <= i < self.len implies (#[trigger] self.storage@[ring_slot(self.head as int, i, N as int)]) is Some by {
                    if i < self.len - 1 {
                        assert(ring_slot(self.head as int, i, N as int) == ring_slot(old(self).head as int, i + 1, N as int));
                        assert(old(self).storage@[ring_slot(old(self).head as int, i + 1, N as int)] is Some);
                    } else {
                        assert(ring_slot(self.head as int, i, N as int) == t);
                    }
                }
                assert(self@ =~= before.drop_first().push(value)) by {
                    assert forall|i: int| 0 <= i < self.len implies #[trigger] self@[i] == before.drop_first().push(value)[i] by {
                        if i < self.len - 1 {
                            assert(ring_slot(self.head as int, i, N as int) == ring_slot(old(self).head as int, i + 1, N as int));
                        } else {
                            assert(ring_slot(self.head as int, i, N as int) == t);
                        }
                    }
                }
            }
        } else {
            self.tail = next;
            self.len = self.len + 1;
            proof {
                assert forall|i: int| 0 <= i < self.len implies (#[trigger] self.storage@[ring_slot(self.head as int, i, N as int)]) is Some by {
                    if i < self.len - 1 {
                        assert(old(self).storage@[ring_slot(old(self).head as int, i, N as int)] is Some);
                    }
                }
                assert(self@ =~= before.push(value));
            }
        }
        Ok(())
    }

    /// Removes and returns the oldest item.
    pub fn pop(&mut self) -> (r: Option<T>)
        requires
            old(self).wf(),
        ensures
            final(self).wf(),
            old(self)@.len() == 0 ==> r is None && final(self)@ == old(self)@,
            old(self)@.len() > 0 ==> r == Some(old(self)@[0]) && final(self)@ == old(self)@.drop_first(),
    {
        if self.len == 0 {
            return None;
        }
        let ghost before = self@;
        let h = self.head;
        let mut slot: Option<T> = None;
        std::mem::swap(&mut slot, &mut self.storage[h]);
        self.head = if h + 1 == N { 0 } else { h + 1 };
        self.len = self.len - 1;
        proof {
            assert forall|i: int| 0 <= i < self.len implies (#[trigger] self.storage@[ring_slot(self.head as int, i, N as int)]) is Some by {
                assert(ring_slot(self.head as int, i, N as int) == ring_slot(h as int, i + 1, N as int));
                assert(old(self).storage@[ring_slot(h as int, i + 1, N as int)] is Some);
            }
            assert(self@ =~= before.drop_first()) by {
                assert forall|i: int| 0 <= i < self.len implies #[trigger] self@[i] == before.drop_first()[i] by {
                    assert(ring_slot(self.head as int, i, N as int) == ring_slot(h as int, i + 1, N as int));
                }
            }
        }
        match slot {
            Some(v) => Some(v),
            None => None,
        }
    }

    /// The number of items.
    pub fn len(&self) -> (r: usize)
        ensures
            r == self@.len(),
    {
        self.len
    }

    /// Whether the buffer is empty.
    pub fn is_empty(&self) -> (r: bool)
        ensures
            r == (self@.len() == 0),
    {
        self.len == 0
    }

    /// Whether the buffer holds `N` items.
    pub fn is_full(&self) -> (r: bool)
        ensures
            r == (self@.len() == N),
    {
        self.len == N
    }

    /// The capacity `N`.
    pub fn capacity(&self) -> (r: usize)
        ensures
            r == N,
    {
        N
    }

    /// An iterator that pops the items oldest first.
    pub fn into_iter(self) -> (r: RingBufferIter<T, N>)
        ensures
            r.buffer == self,
    {
        RingBufferIter { buffer: self }
    }
}

/// Drains a ring buffer, oldest item first.
pub struct RingBufferIter<T, const N: usize> {
    pub buffer: RingBuffer<T, N>,
}

impl<T, const N: usize> RingBufferIter<T, N> {
    /// The next (oldest) item.
    pub fn next(&mut self) -> (r: Option<T>)
        requires
            old(self).buffer.wf(),
        ensures
            final(self).buffer.wf(),
            old(self).buffer@.len() == 0 ==> r is None && final(self).buffer@ == old(self).buffer@,
            old(self).buffer@.len() > 0 ==> r == Some(old(self).buffer@[0]) && final(self).buffer@ == old(self).buffer@.drop_first(),
    {
        self.buffer.pop()
    }

    /// Exactly the number of items left, as both bounds.
    pub fn size_hint(&self) -> (r: (usize, Option<usize>))
        ensures
            r.0 == self.buffer@.len(),
            r.1 == Some(self.buffer@.len() as usize),
    {
        let len = self.buffer.len();
        (len, Some(len))
    }
}

/// A max-heap holding at most `N` items.
pub struct BinaryHeap<T: Ord, const N: usize> {
    heap: PriorityQueue<T, MaxHeap>,
}

impl<T: Ord, const N: usize> BinaryHeap<T, N> {
    /// The items in heap order.
    pub closed spec fn items(&self) -> Seq<T> {
        self.heap@
    }

    /// The items with their multiplicities.
    pub open spec fn contents(&self) -> vstd::multiset::Multiset<T> {
        self.items().to_multiset()
    }

    /// At most `N` items, heap-ordered (for a totally ordered item type).
    pub closed spec fn wf(&self) -> bool {
        self.heap.wf() && self.heap@.len() <= N
    }

    /// An empty heap.
    pub fn new() -> (r: Self)
        ensures
            r.wf(),
            r.items().len() == 0,
    {
        BinaryHeap { heap: PriorityQueue::new() }
    }

    /// Adds `value`, or hands it back when the heap is full.
    pub fn push(&mut self, value: T) -> (r: Result<(), T>)
        requires
            old(self).wf(),
        ensures
            final(self).wf(),
            old(self).items().len() < N ==> r is Ok && final(self).contents() == old(self).contents().insert(value)
                && final(self).items().len() == old(self).items().len() + 1,
            old(self).items().len() >= N ==> r == Err::<(), T>(value) && *final(self) == *old(self),
    {
        if self.heap.len() >= N {
            return Err(value);
        }
        self.heap.push(value);
        Ok(())
    }

    /// Removes and returns a largest item.
    pub fn pop(&mut self) -> (r: Option<T>)
        requires
            old(self).wf(),
        ensures
            final(self).wf(),
            old(self).items().len() == 0 ==> r is None && final(self).items() == old(self).items(),
            old(self).items().len() > 0 ==> (r matches Some(x) && {
                &&& old(self).contents() == final(self).contents().insert(x)
                &&& final(self).items().len() == old(self).items().len() - 1
                &&& (total_order::<T>() ==> dominates::<T, MaxHeap>(x, old(self).items()))
            }),
    {
        self.heap.pop()
    }

    /// A largest item.
    pub fn peek(&self) -> (r: Option<&T>)
        requires
            self.wf(),
        ensures
            self.items().len() == 0 ==> r is None,
            r matches Some(x) ==> self.contents().count(*x) > 0,
            total_order::<T>() && r is Some ==> dominates::<T, MaxHeap>(*r->0, self.items()),
    {
        self.heap.peek()
    }

    /// The number of items.
    pub fn len(&self) -> (r: usize)
        ensures
            r == self.items().len(),
    {
        self.heap.len()
    }

    /// Whether the heap is empty.
    pub fn is_empty(&self) -> (r: bool)
        ensures
            r == (self.items().len() == 0),
    {
        self.heap.is_empty()
    }

    /// Whether the heap holds `N` items.
    pub fn is_full(&self) -> (r: bool)
        ensures
            r == (self.items().len() == N),
    {
        self.heap.len() == N
    }
}

/// A collection with a length, in-order access to its items, and emptying.
pub trait Container<T> {
    /// The items, in iteration order.
    spec fn contents(&self) -> Seq<T>;

    /// The number of items.
    fn len(&self) -> (r: usize)
        ensures
            r == self.contents().len();

    /// Whether there are no items.
    fn is_empty(&self) -> (r: bool)
        ensures
            r == (self.contents().len() == 0),
    {
        self.len() == 0
    }

    /// References to the items, in order.
    fn iter(&self) -> (r: Vec<&T>)
        ensures
            r@.len() == self.contents().len(),
            forall|k: int| 0 <= k < r@.len() ==> *(#[trigger] r@[k]) == self.contents()[k];

    /// Removes every item.
    fn clear(&mut self)
        ensures
            final(self).contents().len() == 0;
}

impl<T, const N: usize> Container<T> for Stack<T, N> {
    open spec fn contents(&self) -> Seq<T> {
        self@
    }

    fn len(&self) -> (r: usize) {
        self.items.len()
    }

    fn iter(&self) -> (r: Vec<&T>) {
        let mut out: Vec<&T> = Vec::new();
        let mut i: usize = 0;
        while i < self.items.len()
            invariant
                i <= self.items@.len(),
                out@.len() == i,
                forall|k: int| 0 <= k < i ==> *(#[trigger] out@[k]) == self.items@[k],
            decreases self.items@.len() - i,
        {
            out.push(&self.items[i]);
            i = i + 1;
        }
        out
    }

    fn clear(&mut self) {
        while self.items.len() > 0
            invariant
                true,
            decreases self.items@.len(),
        {
            self.items.pop();
        }
    }
}

/// How many of the booleans are `true`.
pub open spec fn count_true(bs: Seq<bool>) -> nat
    decreases bs.len(),
{
    if bs.len() == 0 {
        0
    } else {
        count_true(bs.drop_last()) + if bs.last() { 1nat } else { 0nat }
    }
}

/// Counts the items of a container for which `predicate` answers `true`.
pub fn count_matching<T, C: Container<T>, F: Fn(&T) -> bool>(container: &C, predicate: F) -> (r: usize)
    requires
        forall|k: int| 0 <= k < container.contents().len() ==> call_requires(predicate, (&#[trigger] container.contents()[k],)),
    ensures
        exists|answers: Seq<bool>| {
            &&& answers.len() == container.contents().len()
            &&& forall|k: int| 0 <= k < answers.len() ==> call_ensures(predicate, (&container.contents()[k],), #[trigger] answers[k])
            &&& r == count_true(answers)
        },
{
    let items = container.iter();
    let mut count: usize = 0;
    let mut i: usize = 0;
    let ghost mut answers: Seq<bool> = Seq::empty();
    while i < items.len()
        invariant
            i <= items@.len(),
            items@.len() == container.contents().len(),
            forall|k: int| 0 <= k < items@.len() ==> *(#[trigger] items@[k]) == container.contents()[k],
            forall|k: int| 0 <= k < container.contents().len() ==> call_requires(predicate, (&#[trigger] container.contents()[k],)),
            answers.len() == i,
            forall|k: int| 0 <= k < i ==> call_ensures(predicate, (&container.contents()[k],), #[trigger] answers[k]),
            count == count_true(answers),
            count <= i,
        decreases items@.len() - i,
    {
        let item = items[i];
        proof {
            assert(*item == container.contents()[i as int]);
        }
        let b = predicate(item);
        proof {
            let old_answers = answers;
            answers = answers.push(b);
            assert(answers.drop_last() =~= old_answers);
        }
        if b {
            count = count + 1;
        }
        i = i + 1;
    }
    count
}

/// Builder state: nothing chosen yet.
pub struct Empty;

/// Builder state: a default value chosen.
pub struct Configured;

/// Builder state: ready to build.
pub struct Ready;

/// Builds a `Stack<T, N>`; the `State` parameter records which steps have been taken.
pub struct ContainerBuilder<T, const N: usize, State> {
    config: Option<T>,
    _state: PhantomData<State>,
}

impl<T, const N: usize, State> ContainerBuilder<T, N, State> {
    /// The default value chosen, if any.
    pub closed spec fn default_value(&self) -> Option<T> {
        self.config
    }
}

impl<T, const N: usize> ContainerBuilder<T, N, Empty> {
    /// A builder with nothing chosen.
    pub fn new() -> (r: Self)
        ensures
            r.default_value() is None,
    {
        ContainerBuilder { config: None, _state: PhantomData }
    }

    /// Chooses the value that fills the stack.
    pub fn with_default(self, value: T) -> (r: ContainerBuilder<T, N, Configured>)
        where
            T: Clone,
        ensures
            r.default_value() == Some(value),
    {
        ContainerBuilder { config: Some(value), _state: PhantomData }
    }

    /// Skips choosing a value: the stack starts empty.
    pub fn with_defaults(self) -> (r: ContainerBuilder<T, N, Ready>)
        where
            T: Default,
        ensures
            r.default_value() is None,
    {
        ContainerBuilder { config: None, _state: PhantomData }
    }
}

impl<T, const N: usize> ContainerBuilder<T, N, Configured> {
    /// Finishes configuration.
    pub fn ready(self) -> (r: ContainerBuilder<T, N, Ready>)
        ensures
            r.default_value() == self.default_value(),
    {
        ContainerBuilder { config: self.config, _state: PhantomData }
    }
}

impl<T, const N: usize> ContainerBuilder<T, N, Ready> {
    /// A stack filled to capacity with clones of the chosen value, or an empty stack
    /// when none was chosen.
    pub fn build(self) -> (r: Stack<T, N>)
        where
            T: Clone,
        ensures
            r.wf(),
            self.default_value() is None ==> r@.len() == 0,
            self.default_value() matches Some(d) ==> r@.len() == N && forall|k: int| 0 <= k < N ==> cloned(d, #[trigger] r@[k]),
    {
        let mut stack: Stack<T, N> = Stack::new();
        match self.config {
            Some(default) => {
                let mut i: usize = 0;
                while i < N
                    invariant
                        stack.wf(),
                        i <= N,
                        stack@.len() == i,
                        forall|k: int| 0 <= k < i ==> cloned(default, #[trigger] stack@[k]),
                    ensures
                        stack.wf(),
                        stack@.len() == N,
                        forall|k: int| 0 <= k < N ==> cloned(default, #[trigger] stack@[k]),
                    decreases N - i,
                {
                    let v = default.clone();
                    let res = stack.push(v);
                    if res.is_err() {
                        break;
                    }
                    i = i + 1;
                }
            },
            None => {},
        }
        stack
    }

    /// A stack filled to capacity with `init(0)`, `init(1)`, ... in order.
    pub fn build_with<F: Fn(usize) -> T>(self, init: F) -> (r: Stack<T, N>)
        requires
            forall|i: usize| i < N ==> call_requires(init, (i,)),
        ensures
            r.wf(),
            r@.len() == N,
            forall|k: int| 0 <= k < N ==> call_ensures(init, (k as usize,), #[trigger] r@[k]),
    {
        let mut stack: Stack<T, N> = Stack::new();
        let mut i: usize = 0;
        while i < N
            invariant
                stack.wf(),
                i <= N,
                stack@.len() == i,
                forall|k: int| 0 <= k < i ==> call_ensures(init, (k as usize,), #[trigger] stack@[k]),
                forall|j: usize| j < N ==> call_requires(init, (j,)),
            ensures
                stack.wf(),
                stack@.len() == N,
                forall|k: int| 0 <= k < N ==> call_ensures(init, (k as usize,), #[trigger] stack@[k]),
            decreases N - i,
        {
            let value = init(i);
            let res = stack.push(value);
            if res.is_err() {
                break;
            }
            i = i + 1;
        }
        stack
    }
}

} // verus!
