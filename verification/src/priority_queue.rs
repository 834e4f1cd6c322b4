//! A binary-heap priority queue whose direction (min or max) is chosen by a marker type.
use vstd::prelude::*;
use vstd::multiset::Multiset;
use std::marker::PhantomData;
use vstd::std_specs::cmp::{PartialEqSpec, PartialOrdSpec, PartialOrdSpecImpl};
use core::cmp::Ordering;
use crate::order::{total_order, less, greater, lemma_trichotomy, lemma_le_trans};

verus! {

broadcast use vstd::seq_lib::group_to_multiset_ensures;

/// Marker: the smallest item comes out first.
pub struct MinHeap;

/// Marker: the largest item comes out first.
pub struct MaxHeap;

/// The direction of a heap: whether the largest or the smallest item is on top.
pub trait HeapOrder: Sized {
    /// Whether the largest item is on top.
    spec fn largest_on_top() -> bool;

    /// Whether `parent` must be swapped with `child` to restore the heap order.
    fn should_swap<T: PartialOrd>(parent: &T, child: &T) -> (r: bool)
        ensures
            T::obeys_partial_cmp_spec() ==> r == (if Self::largest_on_top() {
                less(*parent, *child)
            } else {
                greater(*parent, *child)
            }),
    ;
}

/// Whether `parent` must move below `child`: in a max-heap when it is smaller, in a
/// min-heap when it is larger.
pub open spec fn swaps<T: PartialOrd, Order: HeapOrder>(parent: T, child: T) -> bool {
    if Order::largest_on_top() {
        less(parent, child)
    } else {
        greater(parent, child)
    }
}

impl HeapOrder for MinHeap {
    open spec fn largest_on_top() -> bool {
        false
    }

    fn should_swap<T: PartialOrd>(parent: &T, child: &T) -> (r: bool) {
        *parent > *child
    }
}

impl HeapOrder for MaxHeap {
    open spec fn largest_on_top() -> bool {
        true
    }

    fn should_swap<T: PartialOrd>(parent: &T, child: &T) -> (r: bool) {
        *parent < *child
    }
}

/// If a parent must move below a child, the child may stay above the parent.
proof fn lemma_swaps_converse<T: PartialOrd, Order: HeapOrder>(a: T, b: T)
    requires
        total_order::<T>(),
        swaps::<T, Order>(a, b),
    ensures
        !swaps::<T, Order>(b, a),
{
    lemma_trichotomy(a, b);
    lemma_trichotomy(b, a);
}

/// "May stay above" is transitive.
proof fn lemma_stays_trans<T: PartialOrd, Order: HeapOrder>(a: T, b: T, c: T)
    requires
        total_order::<T>(),
        !swaps::<T, Order>(a, b),
        !swaps::<T, Order>(b, c),
    ensures
        !swaps::<T, Order>(a, c),
{
    lemma_trichotomy(a, b);
    lemma_trichotomy(b, c);
    lemma_trichotomy(a, c);
    lemma_trichotomy(b, a);
    lemma_trichotomy(c, b);
    lemma_trichotomy(c, a);
    if Order::largest_on_top() {
        lemma_le_trans(c, b, a);
    } else {
        lemma_le_trans(a, b, c);
    }
}

/// An item may stay above itself.
proof fn lemma_stays_refl<T: PartialOrd, Order: HeapOrder>(a: T)
    requires
        total_order::<T>(),
    ensures
        !swaps::<T, Order>(a, a),
{
    lemma_trichotomy(a, a);
}

/// The index of the parent of node `i > 0`.
pub open spec fn parent_of(i: int) -> int {
    (i - 1) / 2
}

/// Every node may stay above its children.
pub open spec fn is_heap<T: PartialOrd, Order: HeapOrder>(s: Seq<T>) -> bool {
    forall|k: int| 0 < k < s.len() ==> !swaps::<T, Order>(#[trigger] s[parent_of(k)], s[k])
}

/// The item `x` may stay above every item of `s`.
pub open spec fn dominates<T: PartialOrd, Order: HeapOrder>(x: T, s: Seq<T>) -> bool {
    forall|k: int| 0 <= k < s.len() ==> !swaps::<T, Order>(x, #[trigger] s[k])
}

/// Exchanges two elements of a slice (`slice::swap`).
#[verifier::external_body]
pub(crate) fn slice_swap<T>(s: &mut [T], i: usize, j: usize)
    requires
        i < old(s)@.len(),
        j < old(s)@.len(),
    ensures
        final(s)@ == old(s)@.update(i as int, old(s)@[j as int]).update(j as int, old(s)@[i as int]),
{
    s.swap(i, j);
}

/// The capacity of a vector (`Vec::capacity`): the number of elements it holds without
/// reallocating, so at least its length; the rest depends on the allocator and is not
/// described.
#[verifier::external_body]
pub(crate) fn vec_capacity<T>(v: &Vec<T>) -> (r: usize)
    ensures
        r >= v@.len(),
{
    v.capacity()
}

/// Shrinks a vector's allocation (`Vec::shrink_to_fit`); the elements stay.
#[verifier::external_body]
fn vec_shrink<T>(v: &mut Vec<T>)
    ensures
        final(v)@ == old(v)@,
{
    v.shrink_to_fit();
}

proof fn lemma_swap_multiset<T>(s: Seq<T>, i: int, j: int)
    requires
        0 <= i < s.len(),
        0 <= j < s.len(),
    ensures
        s.update(i, s[j]).update(j, s[i]).to_multiset() == s.to_multiset(),
{
    broadcast use vstd::seq_lib::to_multiset_update;
    broadcast use vstd::multiset::group_multiset_axioms;
    let s1 = s.update(i, s[j]);
    assert(s1.to_multiset() == s.to_multiset().insert(s[j]).remove(s[i]));
    assert(s1[j] == if i == j { s[j] } else { s[j] });
    assert(s1.update(j, s[i]).to_multiset() == s1.to_multiset().insert(s[i]).remove(s1[j]));
    assert(s1.update(j, s[i]).to_multiset() =~= s.to_multiset());
}

/// Moves the item at `i` up until its parent may stay above it.
fn sift_up<T: PartialOrd, Order: HeapOrder>(items: &mut Vec<T>, i: usize)
    requires
        i < old(items)@.len(),
        total_order::<T>() ==> forall|k: int|
            0 < k < old(items)@.len() && k != i ==> !swaps::<T, Order>(#[trigger] old(items)@[parent_of(k)], old(items)@[k]),
        total_order::<T>() && i > 0 ==> forall|c: int|
            0 < c < old(items)@.len() && parent_of(c) == i ==> !swaps::<T, Order>(
                old(items)@[parent_of(i as int)],
                #[trigger] old(items)@[c],
            ),
    ensures
        final(items)@.to_multiset() == old(items)@.to_multiset(),
        final(items)@.len() == old(items)@.len(),
        total_order::<T>() ==> is_heap::<T, Order>(final(items)@),
{
    let mut i = i;
    let ghost orig = items@;
    while i > 0
        invariant
            i < items@.len(),
            items@.len() == orig.len(),
            items@.to_multiset() == orig.to_multiset(),
            total_order::<T>() ==> forall|k: int|
                0 < k < items@.len() && k != i ==> !swaps::<T, Order>(#[trigger] items@[parent_of(k)], items@[k]),
            total_order::<T>() && i > 0 ==> forall|c: int|
                0 < c < items@.len() && parent_of(c) == i ==> !swaps::<T, Order>(
                    items@[parent_of(i as int)],
                    #[trigger] items@[c],
                ),
        ensures
            items@.len() == orig.len(),
            items@.to_multiset() == orig.to_multiset(),
            total_order::<T>() ==> is_heap::<T, Order>(items@),
        decreases i,
    {
        let p = (i - 1) / 2;
        if !Order::should_swap(&items[p], &items[i]) {
            proof {
                if total_order::<T>() {
                    crate::order::lemma_total_order_obeys::<T>();
                    assert(!swaps::<T, Order>(items@[parent_of(i as int)], items@[i as int]));
                }
            }
            break;
        }
        let ghost old_items = items@;
        slice_swap(items.as_mut_slice(), i, p);
        proof {
            lemma_swap_multiset(old_items, i as int, p as int);
            if total_order::<T>() {
                assert(swaps::<T, Order>(old_items[p as int], old_items[i as int]));
                lemma_swaps_converse::<T, Order>(old_items[p as int], old_items[i as int]);
                let s = items@;
                assert forall|k: int| 0 < k < s.len() && k != p implies !swaps::<T, Order>(#[trigger] s[parent_of(k)], s[k]) by {
                    if k == i {
                    } else if parent_of(k) == i {
                        assert(!swaps::<T, Order>(old_items[p as int], old_items[k]));
                    } else if parent_of(k) == p {
                        assert(!swaps::<T, Order>(old_items[p as int], old_items[k]));
                        lemma_stays_trans::<T, Order>(old_items[i as int], old_items[p as int], old_items[k]);
                    } else if k == p {
                    } else {
                        assert(s[k] == old_items[k]);
                        assert(s[parent_of(k)] == old_items[parent_of(k)]);
                    }
                }
                if p > 0 {
                    let pp = parent_of(p as int);
                    assert(!swaps::<T, Order>(old_items[pp], old_items[p as int]));
                    assert forall|c: int| 0 < c < s.len() && parent_of(c) == p implies !swaps::<T, Order>(
                        s[parent_of(p as int)],
                        #[trigger] s[c],
                    ) by {
                        if c == i {
                            assert(s[c] == old_items[p as int]);
                        } else {
                            assert(s[c] == old_items[c]);
                            assert(!swaps::<T, Order>(old_items[p as int], old_items[c]));
                            lemma_stays_trans::<T, Order>(old_items[pp], old_items[p as int], old_items[c]);
                        }
                    }
                }
            }
        }
        i = p;
    }
}

/// Moves the item at `i` down until it may stay above its children. The items before
/// `i` are untouched, and afterwards every node whose parent is at `i` or later is
/// heap-ordered.
fn sift_down_from<T: PartialOrd, Order: HeapOrder>(items: &mut Vec<T>, i: usize)
    requires
        i < old(items)@.len(),
        total_order::<T>() ==> forall|k: int|
            0 < k < old(items)@.len() && parent_of(k) > i ==> !swaps::<T, Order>(#[trigger] old(items)@[parent_of(k)], old(items)@[k]),
    ensures
        final(items)@.to_multiset() == old(items)@.to_multiset(),
        final(items)@.len() == old(items)@.len(),
        forall|k: int| 0 <= k < i ==> final(items)@[k] == old(items)@[k],
        total_order::<T>() ==> forall|k: int|
            0 < k < final(items)@.len() && parent_of(k) >= i ==> !swaps::<T, Order>(#[trigger] final(items)@[parent_of(k)], final(items)@[k]),
{
    let len = items.len();
    let start = i;
    let mut i = i;
    let ghost orig = items@;
    loop
        invariant
            start <= i < len,
            len == items@.len(),
            items@.len() == orig.len(),
            items@.to_multiset() == orig.to_multiset(),
            forall|k: int| 0 <= k < start ==> items@[k] == orig[k],
            total_order::<T>() ==> forall|k: int|
                0 < k < len && parent_of(k) >= start && parent_of(k) != i ==> !swaps::<T, Order>(#[trigger] items@[parent_of(k)], items@[k]),
            total_order::<T>() && i > start ==> forall|c: int|
                0 < c < len && parent_of(c) == i ==> !swaps::<T, Order>(
                    items@[parent_of(i as int)],
                    #[trigger] items@[c],
                ),
        ensures
            items@.len() == orig.len(),
            items@.to_multiset() == orig.to_multiset(),
            forall|k: int| 0 <= k < start ==> items@[k] == orig[k],
            total_order::<T>() ==> forall|k: int|
                0 < k < len && parent_of(k) >= start ==> !swaps::<T, Order>(#[trigger] items@[parent_of(k)], items@[k]),
        decreases len - i,
    {
        let left = if i <= (usize::MAX - 1) / 2 { 2 * i + 1 } else { len };
        let right = if i <= (usize::MAX - 2) / 2 { 2 * i + 2 } else { len };
        let mut swap_with = i;
        if left < len && Order::should_swap(&items[swap_with], &items[left]) {
            swap_with = left;
        }
        if right < len && Order::should_swap(&items[swap_with], &items[right]) {
            swap_with = right;
        }
        if swap_with == i {
            proof {
                if total_order::<T>() {
                    crate::order::lemma_total_order_obeys::<T>();
                    let s = items@;
                    assert forall|k: int| 0 < k < len && parent_of(k) >= start implies !swaps::<T, Order>(#[trigger] s[parent_of(k)], s[k]) by {
                        if parent_of(k) == i {
                            assert(k == left || k == right);
                        }
                    }
                }
            }
            break;
        }
        let ghost old_items = items@;
        slice_swap(items.as_mut_slice(), i, swap_with);
        proof {
            lemma_swap_multiset(old_items, i as int, swap_with as int);
            if total_order::<T>() {
                crate::order::lemma_total_order_obeys::<T>();
                let s = items@;
                let l = left as int;
                let r = right as int;
                let ii = i as int;
                let w = swap_with as int;
                // the chosen child may stay above the node and above its sibling
                assert(!swaps::<T, Order>(old_items[w], old_items[ii])) by {
                    if w == l {
                        lemma_swaps_converse::<T, Order>(old_items[ii], old_items[l]);
                    } else if l < len && swaps::<T, Order>(old_items[ii], old_items[l]) {
                        lemma_swaps_converse::<T, Order>(old_items[ii], old_items[l]);
                        lemma_swaps_converse::<T, Order>(old_items[l], old_items[r]);
                        lemma_stays_trans::<T, Order>(old_items[r], old_items[l], old_items[ii]);
                    } else {
                        lemma_swaps_converse::<T, Order>(old_items[ii], old_items[r]);
                    }
                }
                assert forall|k: int| 0 < k < len && parent_of(k) >= start && parent_of(k) != w implies !swaps::<T, Order>(#[trigger] s[parent_of(k)], s[k]) by {
                    if parent_of(k) == ii {
                        if k == w {
                        } else {
                            // the sibling of the chosen child
                            assert(s[k] == old_items[k]);
                            if w == l {
                                assert(k == r);
                                assert(!swaps::<T, Order>(old_items[l], old_items[r]));
                            } else {
                                assert(k == l);
                                if swaps::<T, Order>(old_items[ii], old_items[l]) {
                                    lemma_swaps_converse::<T, Order>(old_items[l], old_items[r]);
                                } else {
                                    lemma_swaps_converse::<T, Order>(old_items[ii], old_items[r]);
                                    lemma_stays_trans::<T, Order>(old_items[r], old_items[ii], old_items[l]);
                                }
                            }
                        }
                    } else if k == ii {
                        assert(s[k] == old_items[w]);
                        assert(s[parent_of(k)] == old_items[parent_of(k)]);
                    } else {
                        assert(s[k] == old_items[k]);
                        assert(s[parent_of(k)] == old_items[parent_of(k)]);
                    }
                }
                assert forall|c: int| 0 < c < len && parent_of(c) == w implies !swaps::<T, Order>(
                    s[parent_of(w)],
                    #[trigger] s[c],
                ) by {
                    assert(s[c] == old_items[c]);
                    assert(s[parent_of(w)] == old_items[w]);
                }
            }
        }
        i = swap_with;
    }
}

/// A priority queue kept as an array-backed binary heap; `Order` picks whether the
/// smallest (`MinHeap`) or largest (`MaxHeap`) item is at the top.
pub struct PriorityQueue<T, Order = MinHeap> {
    items: Vec<T>,
    _order: PhantomData<Order>,
}

impl<T, Order> View for PriorityQueue<T, Order> {
    type V = Seq<T>;

    /// The heap array, top first.
    closed spec fn view(&self) -> Seq<T> {
        self.items@
    }
}

impl<T: PartialOrd, Order: HeapOrder> PriorityQueue<T, Order> {
    /// The items in the queue, with their multiplicities.
    pub open spec fn contents(&self) -> Multiset<T> {
        self@.to_multiset()
    }

    /// For a well-ordered item type, the array is heap-ordered.
    pub open spec fn wf(&self) -> bool {
        total_order::<T>() ==> is_heap::<T, Order>(self@)
    }

    pub fn new() -> (r: Self)
        ensures
            r@ == Seq::<T>::empty(),
            r.wf(),
    {
        PriorityQueue { items: Vec::new(), _order: PhantomData }
    }

    pub fn len(&self) -> (r: usize)
        ensures
            r == self@.len(),
    {
        self.items.len()
    }

    pub fn is_empty(&self) -> (r: bool)
        ensures
            r == (self@.len() == 0),
    {
        self.items.len() == 0
    }

    /// The top item: for a well-ordered type, one that may stay above every item.
    pub fn peek(&self) -> (r: Option<&T>)
        requires
            self.wf(),
        ensures
            self@.len() == 0 ==> r is None,
            self@.len() > 0 ==> r == Some(&self@[0]),
            r matches Some(x) ==> self.contents().count(*x) > 0,
            total_order::<T>() && r is Some ==> dominates::<T, Order>(*r->0, self@),
    {
        if self.items.len() == 0 {
            return None;
        }
        proof {
            if total_order::<T>() {
                self.lemma_top_dominates();
            }
            assert(self@.contains(self@[0]));
        }
        Some(&self.items[0])
    }

    proof fn lemma_top_dominates(&self)
        requires
            total_order::<T>(),
            is_heap::<T, Order>(self@),
            self@.len() > 0,
        ensures
            dominates::<T, Order>(self@[0], self@),
    {
        lemma_heap_top::<T, Order>(self@);
    }

    /// Adds an item.
    pub fn push(&mut self, item: T)
        requires
            old(self).wf(),
            old(self)@.len() < usize::MAX,
        ensures
            final(self).wf(),
            final(self).contents() == old(self).contents().insert(item),
            final(self)@.len() == old(self)@.len() + 1,
    {
        self.items.push(item);
        let last = self.items.len() - 1;
        proof {
            if total_order::<T>() {
                assert forall|k: int| 0 < k < self.items@.len() && k != last implies !swaps::<T, Order>(#[trigger] self.items@[parent_of(k)], self.items@[k]) by {
                    assert(self.items@[k] == old(self)@[k]);
                    assert(self.items@[parent_of(k)] == old(self)@[parent_of(k)]);
                }
            }
        }
        sift_up::<T, Order>(&mut self.items, last);
    }

    /// Removes and returns the top item, or `None` when the queue is empty. For a
    /// well-ordered item type the returned item may stay above every item that remains.
    pub fn pop(&mut self) -> (r: Option<T>)
        requires
            old(self).wf(),
        ensures
            final(self).wf(),
            old(self)@.len() == 0 ==> r is None && final(self)@ == old(self)@,
            old(self)@.len() > 0 ==> (r matches Some(x) && {
                &&& x == old(self)@[0]
                &&& old(self).contents() == final(self).contents().insert(x)
                &&& final(self)@.len() == old(self)@.len() - 1
                &&& (total_order::<T>() ==> dominates::<T, Order>(x, old(self)@))
            }),
    {
        if self.items.len() == 0 {
            return None;
        }
        proof {
            if total_order::<T>() {
                self.lemma_top_dominates();
            }
        }
        let len = self.items.len();
        let ghost before = self.items@;
        slice_swap(self.items.as_mut_slice(), 0, len - 1);
        proof {
            lemma_swap_multiset(before, 0, len - 1);
        }
        let ghost swapped = self.items@;
        let result = self.items.pop();
        proof {
            assert(swapped =~= self.items@.push(before[0]));
            assert(swapped.to_multiset() == self.items@.to_multiset().insert(before[0]));
        }
        if self.items.len() > 0 {
            proof {
                if total_order::<T>() {
                    let s = self.items@;
                    assert forall|k: int| 0 < k < s.len() && parent_of(k) > 0 implies !swaps::<T, Order>(#[trigger] s[parent_of(k)], s[k]) by {
                        assert(s[k] == before[k]);
                        assert(s[parent_of(k)] == before[parent_of(k)]);
                    }
                }
            }
            sift_down_from::<T, Order>(&mut self.items, 0);
        }
        result
    }
}

/// The top of a heap may stay above every item.
pub proof fn lemma_heap_top<T: PartialOrd, Order: HeapOrder>(s: Seq<T>)
    requires
        total_order::<T>(),
        is_heap::<T, Order>(s),
        s.len() > 0,
    ensures
        dominates::<T, Order>(s[0], s),
{
    assert forall|k: int| 0 <= k < s.len() implies !swaps::<T, Order>(s[0], #[trigger] s[k]) by {
        lemma_root_above::<T, Order>(s, k);
    }
}

proof fn lemma_root_above<T: PartialOrd, Order: HeapOrder>(s: Seq<T>, k: int)
    requires
        total_order::<T>(),
        is_heap::<T, Order>(s),
        0 <= k < s.len(),
    ensures
        !swaps::<T, Order>(s[0], s[k]),
    decreases k,
{
    if k == 0 {
        lemma_stays_refl::<T, Order>(s[0]);
    } else {
        let p = parent_of(k);
        lemma_root_above::<T, Order>(s, p);
        assert(!swaps::<T, Order>(s[parent_of(k)], s[k]));
        lemma_stays_trans::<T, Order>(s[0], s[p], s[k]);
    }
}

impl<T: PartialOrd, Order: HeapOrder> PriorityQueue<T, Order> {
    /// Heap positions: the parent of node `i`.
    pub fn parent(i: usize) -> (r: usize)
        requires
            i > 0,
        ensures
            r == parent_of(i as int),
    {
        (i - 1) / 2
    }

    /// Heap positions: the left child of node `i`.
    pub fn left_child(i: usize) -> (r: usize)
        requires
            2 * i + 1 <= usize::MAX,
        ensures
            r == 2 * i + 1,
    {
        2 * i + 1
    }

    /// Heap positions: the right child of node `i`.
    pub fn right_child(i: usize) -> (r: usize)
        requires
            2 * i + 2 <= usize::MAX,
        ensures
            r == 2 * i + 2,
    {
        2 * i + 2
    }


    /// The heap array, top first.
    pub fn items(&self) -> (r: &[T])
        ensures
            r@ == self@,
    {
        self.items.as_slice()
    }

    /// Builds a heap from the items of `vec` in linear time (bottom-up heapify).
    pub fn from_vec(vec: Vec<T>) -> (r: Self)
        ensures
            r.wf(),
            r.contents() == vec@.to_multiset(),
            r@.len() == vec@.len(),
    {
        let mut vec = vec;
        if vec.len() == 0 {
            return Self::new();
        }
        let len = vec.len();
        let last_parent = if len / 2 >= 1 { len / 2 - 1 } else { 0 };
        let ghost orig = vec@;
        let mut idx = last_parent + 1;
        while idx > 0
            invariant
                0 <= idx <= last_parent + 1,
                last_parent < len,
                last_parent + 1 <= len,
                len >= 2 ==> last_parent == len / 2 - 1,
                len < 2 ==> last_parent == 0,
                vec@.len() == len,
                vec@.to_multiset() == orig.to_multiset(),
                total_order::<T>() ==> forall|k: int|
                    0 < k < len && parent_of(k) >= idx ==> !swaps::<T, Order>(#[trigger] vec@[parent_of(k)], vec@[k]),
            decreases idx,
        {
            idx = idx - 1;
            sift_down_from::<T, Order>(&mut vec, idx);
        }
        PriorityQueue { items: vec, _order: PhantomData }
    }

    /// An empty queue with room for `capacity` items before reallocating.
    pub fn with_capacity(capacity: usize) -> (r: Self)
        ensures
            r@ == Seq::<T>::empty(),
            r.wf(),
    {
        PriorityQueue { items: Vec::with_capacity(capacity), _order: PhantomData }
    }

    /// The number of items the queue can hold without reallocating; it depends on the
    /// allocator and is not described.
    pub fn capacity(&self) -> usize {
        vec_capacity(&self.items)
    }

    /// Reserves room for at least `additional` more items; the items stay.
    pub fn reserve(&mut self, additional: usize)
        ensures
            final(self)@ == old(self)@,
    {
        self.items.reserve(additional);
    }

    /// Releases unused room; the items stay.
    pub fn shrink_to_fit(&mut self)
        ensures
            final(self)@ == old(self)@,
    {
        vec_shrink(&mut self.items);
    }

    /// Removes every item.
    pub fn clear(&mut self)
        ensures
            final(self)@ == Seq::<T>::empty(),
            final(self).wf(),
    {
        self.items.clear();
    }

    /// Pushes every item of `items`, in order.
    pub fn extend(&mut self, items: Vec<T>)
        requires
            old(self).wf(),
            old(self)@.len() + items@.len() <= usize::MAX,
        ensures
            final(self).wf(),
            final(self).contents() == old(self).contents().add(items@.to_multiset()),
            final(self)@.len() == old(self)@.len() + items@.len(),
    {
        let mut items = items;
        let ghost all = items@;
        let mut rest: Vec<T> = Vec::new();
        // move the items into a reversed stack so they can be taken out front first
        while items.len() > 0
            invariant
                rest@.len() + items@.len() == all.len(),
                items@ == all.subrange(0, items@.len() as int),
                rest@ == all.subrange(items@.len() as int, all.len() as int).reverse(),
            decreases items@.len(),
        {
            let x = items.pop().unwrap();
            rest.push(x);
            proof {
                assert(rest@ =~= all.subrange(items@.len() as int, all.len() as int).reverse());
            }
        }
        let ghost rev = rest@;
        proof {
            assert(rev =~= all.reverse());
        }
        while rest.len() > 0
            invariant
                self.wf(),
                rest@.len() <= rev.len(),
                rest@ == rev.subrange(0, rest@.len() as int),
                rev == all.reverse(),
                self@.len() == old(self)@.len() + (all.len() - rest@.len()),
                self@.len() + rest@.len() <= usize::MAX,
                self.contents() == old(self).contents().add(rev.subrange(rest@.len() as int, rev.len() as int).to_multiset()),
            decreases rest@.len(),
        {
            let ghost before = rest@;
            let x = rest.pop().unwrap();
            proof {
                assert(x == before[before.len() - 1]);
                assert(x == rev[rest@.len() as int]);
                assert(rest@ =~= rev.subrange(0, rest@.len() as int));
            }
            self.push(x);
            proof {
                let n = rest@.len() as int;
                let tail_now = rev.subrange(n, rev.len() as int);
                let tail_before = rev.subrange(n + 1, rev.len() as int);
                assert(tail_now =~= tail_before.insert(0, x));
                vstd::seq_lib::to_multiset_insert(tail_before, 0, x);
                broadcast use vstd::multiset::group_multiset_axioms;
                assert(self.contents() =~= old(self).contents().add(tail_now.to_multiset()));
            }
        }
        proof {
            assert(rev.subrange(0, rev.len() as int) =~= rev);
            all.lemma_reverse_to_multiset();
        }
    }

    /// Consumes the queue into an iterator that yields its items in priority order.
    pub fn into_iter(self) -> (r: IntoIter<T, Order>)
        ensures
            r.queue@ == self@,
    {
        IntoIter { queue: self }
    }
}

/// Yields the items of a queue in priority order, popping as it goes.
pub struct IntoIter<T, Order> {
    pub queue: PriorityQueue<T, Order>,
}

impl<T: PartialOrd, Order: HeapOrder> IntoIter<T, Order> {
    /// The next item in priority order, or `None` when the queue is exhausted.
    pub fn next(&mut self) -> (r: Option<T>)
        requires
            old(self).queue.wf(),
        ensures
            final(self).queue.wf(),
            old(self).queue@.len() == 0 ==> r is None,
            old(self).queue@.len() > 0 ==> (r matches Some(x) && {
                &&& x == old(self).queue@[0]
                &&& old(self).queue.contents() == final(self).queue.contents().insert(x)
                &&& final(self).queue@.len() == old(self).queue@.len() - 1
                &&& (total_order::<T>() ==> dominates::<T, Order>(x, old(self).queue@))
            }),
    {
        self.queue.pop()
    }

    /// Exactly the number of items left, as both bounds.
    pub fn size_hint(&self) -> (r: (usize, Option<usize>))
        ensures
            r.0 == self.queue@.len(),
            r.1 == Some(self.queue@.len() as usize),
    {
        let len = self.queue.len();
        (len, Some(len))
    }

    /// The number of items left.
    pub fn len(&self) -> (r: usize)
        ensures
            r == self.queue@.len(),
    {
        self.queue.len()
    }
}

/// Wraps an item so that it orders the other way round: a min-heap of `Reverse` items
/// pops the largest first.
#[derive(Debug, Clone, PartialEq, Eq)]
pub struct Reverse<T>(pub T);

impl<T: PartialOrd> PartialOrd for Reverse<T> {
    fn partial_cmp(&self, other: &Self) -> (r: Option<Ordering>) {
        other.0.partial_cmp(&self.0)
    }
}

impl<T: PartialOrd> PartialOrdSpecImpl for Reverse<T> {
    open spec fn obeys_partial_cmp_spec() -> bool {
        T::obeys_partial_cmp_spec()
    }

    open spec fn partial_cmp_spec(&self, other: &Self) -> Option<Ordering> {
        other.0.partial_cmp_spec(&self.0)
    }
}

/// An item ordered by a key drawn from it when it is wrapped: two wrapped items compare
/// as their keys do.
#[derive(Debug, Clone)]
pub struct ByField<T, K> {
    pub item: T,
    pub key: K,
}

impl<T, K> ByField<T, K> {
    /// Wraps `item`, ordered by `key_fn(&item)`.
    pub fn new<F: Fn(&T) -> K>(item: T, key_fn: F) -> (r: Self)
        requires
            key_fn.requires((&item,)),
        ensures
            r.item == item,
            key_fn.ensures((&item,), r.key),
    {
        let key = key_fn(&item);
        ByField { item, key }
    }
}

impl<T, K: PartialEq> PartialEq for ByField<T, K> {
    fn eq(&self, other: &Self) -> (r: bool) {
        self.key == other.key
    }
}

impl<T, K: PartialEq> vstd::std_specs::cmp::PartialEqSpecImpl for ByField<T, K> {
    open spec fn obeys_eq_spec() -> bool {
        K::obeys_eq_spec()
    }

    open spec fn eq_spec(&self, other: &Self) -> bool {
        self.key.eq_spec(&other.key)
    }
}

impl<T, K: PartialOrd> PartialOrd for ByField<T, K> {
    fn partial_cmp(&self, other: &Self) -> (r: Option<Ordering>) {
        self.key.partial_cmp(&other.key)
    }
}

impl<T, K: PartialOrd> PartialOrdSpecImpl for ByField<T, K> {
    open spec fn obeys_partial_cmp_spec() -> bool {
        K::obeys_partial_cmp_spec()
    }

    open spec fn partial_cmp_spec(&self, other: &Self) -> Option<Ordering> {
        self.key.partial_cmp_spec(&other.key)
    }
}

/// A named job; tasks order by name.
#[derive(Debug, Clone, Eq, PartialEq)]
pub struct Task {
    pub name: String,
    pub priority: u8,
    pub deadline: u64,
}

impl PartialOrd for Task {
    fn partial_cmp(&self, other: &Self) -> (r: Option<Ordering>) {
        crate::order::compare_strings(&self.name, &other.name)
    }
}

impl PartialOrdSpecImpl for Task {
    open spec fn obeys_partial_cmp_spec() -> bool {
        true
    }

    open spec fn partial_cmp_spec(&self, other: &Self) -> Option<Ordering> {
        Some(crate::order::lex_order(self.name@, other.name@))
    }
}

} // verus!
