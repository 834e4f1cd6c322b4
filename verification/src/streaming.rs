//! Streaming iterators over borrowed data: slice elements, overlapping windows,
//! stepping adapters and runs of equal elements, with generic consumers (`for_each`,
//! `all`, `fold`, `count`, `find`) and an allocating windows iterator for comparison.
use vstd::prelude::*;
use vstd::std_specs::cmp::PartialEqSpec;

verus! {

/// An iterator whose items may borrow from the data it walks. Its model is the
/// sequence of what it will still yield; `models` ties an item to its model.
pub trait StreamingIterator {
    type Item;
    type Model;

    /// What the iterator will still yield, in order.
    spec fn rest(&self) -> Seq<Self::Model>;

    /// Whether `item` is the item that `m` describes.
    spec fn models(item: Self::Item, m: Self::Model) -> bool;

    /// The next item; `None` once nothing is left.
    fn next(&mut self) -> (r: Option<Self::Item>)
        ensures
            old(self).rest().len() == 0 ==> r is None && final(self).rest().len() == 0,
            old(self).rest().len() > 0 ==> (r matches Some(x) && Self::models(x, old(self).rest()[0])
                && final(self).rest() == old(self).rest().drop_first()),
    ;

    /// Bounds on the number of items left.
    fn size_hint(&self) -> (r: (usize, Option<usize>))
        ensures
            r.0 <= self.rest().len(),
            r.1 matches Some(u) ==> self.rest().len() <= u,
    {
        (0, None)
    }
}

/// The elements of a slice, one by one.
pub struct Iter<'data, T> {
    data: &'data [T],
    position: usize,
}

impl<'data, T> Iter<'data, T> {
    #[verifier::type_invariant]
    spec fn inside(self) -> bool {
        self.position <= self.data@.len()
    }

    /// An iterator at the first element of `data`.
    pub fn new(data: &'data [T]) -> (r: Self)
        ensures
            r.rest() == data@,
    {
        let r = Iter { data, position: 0 };
        assert(r.rest() =~= data@);
        r
    }
}

impl<'data, T> StreamingIterator for Iter<'data, T> {
    type Item = &'data T;
    type Model = T;

    closed spec fn rest(&self) -> Seq<T> {
        self.data@.subrange(self.position as int, self.data@.len() as int)
    }

    open spec fn models(item: &'data T, m: T) -> bool {
        *item == m
    }

    fn next(&mut self) -> (r: Option<&'data T>) {
        proof {
            use_type_invariant(&*self);
        }
        if self.position < self.data.len() {
            let item = &self.data[self.position];
            self.position = self.position + 1;
            assert(self.rest() =~= old(self).rest().drop_first());
            Some(item)
        } else {
            None
        }
    }

    fn size_hint(&self) -> (r: (usize, Option<usize>))
        ensures
            r == (self.rest().len() as usize, Some(self.rest().len() as usize)),
    {
        proof {
            use_type_invariant(self);
        }
        let remaining = self.data.len() - self.position;
        (remaining, Some(remaining))
    }
}

/// The windows of `w` consecutive elements of `s` that start at `p` or later.
pub open spec fn windows_from<T>(s: Seq<T>, p: int, w: int) -> Seq<Seq<T>> {
    let n = if p + w <= s.len() { s.len() - p - w + 1 } else { 0 };
    Seq::new(n as nat, |i: int| s.subrange(p + i, p + i + w))
}

/// Overlapping windows of a fixed size, each a slice of the data.
pub struct Windows<'data, T> {
    data: &'data [T],
    window_size: usize,
    position: usize,
}

impl<'data, T> Windows<'data, T> {
    #[verifier::type_invariant]
    spec fn sane(self) -> bool {
        &&& self.window_size > 0
        &&& self.position <= self.data@.len()
    }

    /// The windows of `window_size` elements of `data`, from the first on.
    pub fn new(data: &'data [T], window_size: usize) -> (r: Self)
        requires
            window_size > 0,
        ensures
            r.rest() == windows_from(data@, 0, window_size as int),
    {
        Windows { data, window_size, position: 0 }
    }
}

impl<'data, T> StreamingIterator for Windows<'data, T> {
    type Item = &'data [T];
    type Model = Seq<T>;

    closed spec fn rest(&self) -> Seq<Seq<T>> {
        windows_from(self.data@, self.position as int, self.window_size as int)
    }

    open spec fn models(item: &'data [T], m: Seq<T>) -> bool {
        item@ == m
    }

    fn next(&mut self) -> (r: Option<&'data [T]>) {
        proof {
            use_type_invariant(&*self);
        }
        if self.window_size <= self.data.len() - self.position {
            let p = self.position;
            let window = slice_range(self.data, p, p + self.window_size);
            self.position = p + 1;
            assert(self.rest() =~= old(self).rest().drop_first());
            Some(window)
        } else {
            None
        }
    }

    fn size_hint(&self) -> (r: (usize, Option<usize>))
        ensures
            r == (self.rest().len() as usize, Some(self.rest().len() as usize)),
    {
        proof {
            use_type_invariant(self);
        }
        let remaining = if self.window_size <= self.data.len() - self.position {
            self.data.len() - self.position - self.window_size + 1
        } else {
            0
        };
        (remaining, Some(remaining))
    }
}

/// The piece `data[lo..hi]`.
fn slice_range<T>(data: &[T], lo: usize, hi: usize) -> (r: &[T])
    requires
        lo <= hi <= data@.len(),
    ensures
        r@ == data@.subrange(lo as int, hi as int),
{
    let (_, tail) = data.split_at(lo);
    let (mid, _) = tail.split_at(hi - lo);
    assert(mid@ =~= data@.subrange(lo as int, hi as int));
    mid
}

/// The overlapping windows of `size` elements of `data`.
pub fn windows<T>(data: &[T], size: usize) -> (r: Windows<'_, T>)
    requires
        size > 0,
    ensures
        r.rest() == windows_from(data@, 0, size as int),
{
    Windows::new(data, size)
}

/// Every `step`-th element of `s`, starting with the one at `offset`.
pub open spec fn sampled<V>(s: Seq<V>, offset: nat, step: nat) -> Seq<V>
    decreases s.len(),
{
    if s.len() <= offset || step == 0 {
        Seq::empty()
    } else {
        seq![s[offset as int]] + sampled(s.skip(offset + 1int), (step - 1) as nat, step)
    }
}

proof fn lemma_sampled_shift<V>(s: Seq<V>, offset: nat, step: nat)
    requires
        offset > 0,
        s.len() > 0,
        step > 0,
    ensures
        sampled(s, offset, step) == sampled(s.drop_first(), (offset - 1) as nat, step),
{
    if s.len() > offset {
        assert(s.skip(offset + 1int) =~= s.drop_first().skip(offset as int));
    }
}

/// Yields the first item of the inner iterator, then every `step`-th one after it.
pub struct StepBy<I> {
    iter: I,
    step: usize,
    first: bool,
}

impl<I> StepBy<I> {
    /// The index, among the inner items left, of the next item yielded.
    pub closed spec fn offset(&self) -> nat {
        if self.first { 0 } else { (self.step - 1) as nat }
    }
}

impl<I: StreamingIterator> StreamingIterator for StepBy<I> {
    type Item = I::Item;
    type Model = I::Model;

    closed spec fn rest(&self) -> Seq<I::Model> {
        sampled(self.iter.rest(), self.offset(), self.step as nat)
    }

    open spec fn models(item: I::Item, m: I::Model) -> bool {
        I::models(item, m)
    }

    fn next(&mut self) -> (r: Option<I::Item>) {
        if self.step == 0 {
            // `step_by` refuses a step of 0, so this adapter never has one.
            return None;
        }
        if self.first {
            self.first = false;
            let ghost s = self.iter.rest();
            let r = self.iter.next();
            proof {
                if s.len() > 0 {
                    assert(s.skip(1) =~= s.drop_first());
                }
            }
            return r;
        }
        let mut skipped: usize = 0;
        while skipped < self.step - 1
            invariant
                self.step > 0,
                !self.first,
                skipped <= self.step - 1,
                sampled(self.iter.rest(), (self.step - 1 - skipped) as nat, self.step as nat)
                    == old(self).rest(),
            decreases self.step - 1 - skipped,
        {
            let ghost s = self.iter.rest();
            proof {
                if s.len() > 0 {
                    lemma_sampled_shift(s, (self.step - 1 - skipped) as nat, self.step as nat);
                }
            }
            match self.iter.next() {
                Some(_) => {},
                None => {
                    return None;
                },
            }
            skipped = skipped + 1;
        }
        let ghost s = self.iter.rest();
        let r = self.iter.next();
        proof {
            if s.len() > 0 {
                assert(s.skip(1) =~= s.drop_first());
            }
        }
        r
    }
}

/// Adapters available on every streaming iterator.
pub trait StreamingIteratorExt: StreamingIterator {
    /// The first item, then every `step`-th item after it.
    fn step_by(self, step: usize) -> (r: StepBy<Self>)
        where Self: Sized
        requires
            step > 0,
        ensures
            r.rest() == sampled(self.rest(), 0, step as nat),
    {
        StepBy { iter: self, step, first: true }
    }
}

impl<I: StreamingIterator> StreamingIteratorExt for I {}

/// The items `items` are those that `s` describes, one for one.
pub open spec fn items_model<I: StreamingIterator>(items: Seq<I::Item>, s: Seq<I::Model>) -> bool {
    &&& items.len() <= s.len()
    &&& forall|i: int| 0 <= i < items.len() ==> I::models(#[trigger] items[i], s[i])
}

/// `f` was called on each of `items` in turn.
pub open spec fn each_called<I: StreamingIterator, F: FnMut(I::Item)>(items: Seq<I::Item>, s: Seq<I::Model>, f: F) -> bool {
    &&& items_model::<I>(items, s)
    &&& items.len() == s.len()
    &&& forall|i: int| 0 <= i < items.len() ==> call_ensures(f, (#[trigger] items[i],), ())
}

/// Calls `f` on every item, in order.
pub fn for_each<I: StreamingIterator, F: FnMut(I::Item)>(iter: I, f: F)
    requires
        forall|x: I::Item, g: F| call_requires(g, (x,)),
    ensures
        exists|items: Seq<I::Item>| #[trigger] each_called::<I, F>(items, iter.rest(), f),
{
    let ghost s0 = iter.rest();
    let ghost f0 = f;
    let ghost mut items: Seq<I::Item> = Seq::empty();
    let mut it = iter;
    let mut g = f;
    loop
        invariant
            forall|x: I::Item, h: F| call_requires(h, (x,)),
            s0 == iter.rest(),
            f0 == f,
            g == f0,
            items.len() + it.rest().len() == s0.len(),
            it.rest() == s0.skip(items.len() as int),
            items_model::<I>(items, s0),
            forall|i: int| 0 <= i < items.len() ==> call_ensures(f0, (#[trigger] items[i],), ()),
        decreases it.rest().len(),
    {
        match it.next() {
            Some(item) => {
                g(item);
                proof {
                    items = items.push(item);
                }
            },
            None => {
                assert(each_called::<I, F>(items, s0, f0));
                return;
            },
        }
    }
}

/// How `all` ended: `true` after every call of `f` gave `true`; `false` as soon as one
/// gave `false`.
pub open spec fn all_witness<I: StreamingIterator, F: FnMut(I::Item) -> bool>(
    items: Seq<I::Item>,
    s: Seq<I::Model>,
    f: F,
    r: bool,
) -> bool {
    &&& items_model::<I>(items, s)
    &&& forall|i: int| 0 <= i < items.len() - 1 ==> call_ensures(f, (#[trigger] items[i],), true)
    &&& r ==> items.len() == s.len() && (items.len() > 0 ==> call_ensures(f, (items.last(),), true))
    &&& !r ==> items.len() > 0 && call_ensures(f, (items.last(),), false)
}

/// Whether `predicate` holds of every item; stops at the first that fails.
pub fn all<I: StreamingIterator, F: FnMut(I::Item) -> bool>(iter: I, predicate: F) -> (r: bool)
    requires
        forall|x: I::Item, g: F| call_requires(g, (x,)),
    ensures
        exists|items: Seq<I::Item>| #[trigger] all_witness::<I, F>(items, iter.rest(), predicate, r),
{
    let ghost s0 = iter.rest();
    let ghost f0 = predicate;
    let ghost mut items: Seq<I::Item> = Seq::empty();
    let mut it = iter;
    let mut pred = predicate;
    loop
        invariant
            forall|x: I::Item, g: F| call_requires(g, (x,)),
            s0 == iter.rest(),
            f0 == predicate,
            pred == f0,
            items.len() + it.rest().len() == s0.len(),
            it.rest() == s0.skip(items.len() as int),
            items_model::<I>(items, s0),
            forall|i: int| 0 <= i < items.len() ==> call_ensures(f0, (#[trigger] items[i],), true),
        decreases it.rest().len(),
    {
        match it.next() {
            Some(item) => {
                let b = pred(item);
                proof {
                    items = items.push(item);
                }
                if !b {
                    assert(all_witness::<I, F>(items, s0, f0, false));
                    return false;
                }
            },
            None => {
                assert(all_witness::<I, F>(items, s0, f0, true));
                return true;
            },
        }
    }
}

/// How `find` ended: `true` as soon as a call of `f` gave `true`; `false` after every
/// call gave `false`.
pub open spec fn find_witness<I: StreamingIterator, F: FnMut(I::Item) -> bool>(
    items: Seq<I::Item>,
    s: Seq<I::Model>,
    f: F,
    r: bool,
) -> bool {
    &&& items_model::<I>(items, s)
    &&& forall|i: int| 0 <= i < items.len() - 1 ==> call_ensures(f, (#[trigger] items[i],), false)
    &&& !r ==> items.len() == s.len() && (items.len() > 0 ==> call_ensures(f, (items.last(),), false))
    &&& r ==> items.len() > 0 && call_ensures(f, (items.last(),), true)
}

/// Whether `predicate` holds of some item; stops at the first that does.
pub fn find<I: StreamingIterator, F: FnMut(I::Item) -> bool>(iter: I, predicate: F) -> (r: bool)
    requires
        forall|x: I::Item, g: F| call_requires(g, (x,)),
    ensures
        exists|items: Seq<I::Item>| #[trigger] find_witness::<I, F>(items, iter.rest(), predicate, r),
{
    let ghost s0 = iter.rest();
    let ghost f0 = predicate;
    let ghost mut items: Seq<I::Item> = Seq::empty();
    let mut it = iter;
    let mut pred = predicate;
    loop
        invariant
            forall|x: I::Item, g: F| call_requires(g, (x,)),
            s0 == iter.rest(),
            f0 == predicate,
            pred == f0,
            items.len() + it.rest().len() == s0.len(),
            it.rest() == s0.skip(items.len() as int),
            items_model::<I>(items, s0),
            forall|i: int| 0 <= i < items.len() ==> call_ensures(f0, (#[trigger] items[i],), false),
        decreases it.rest().len(),
    {
        match it.next() {
            Some(item) => {
                let b = pred(item);
                proof {
                    items = items.push(item);
                }
                if b {
                    assert(find_witness::<I, F>(items, s0, f0, true));
                    return true;
                }
            },
            None => {
                assert(find_witness::<I, F>(items, s0, f0, false));
                return false;
            },
        }
    }
}

/// `accs` are the accumulators of a fold of `items` with `f` from `init`.
pub open spec fn fold_witness<I: StreamingIterator, B, F: FnMut(B, I::Item) -> B>(
    items: Seq<I::Item>,
    accs: Seq<B>,
    s: Seq<I::Model>,
    init: B,
    f: F,
) -> bool {
    &&& items_model::<I>(items, s)
    &&& items.len() == s.len()
    &&& accs.len() == items.len() + 1
    &&& accs[0] == init
    &&& forall|i: int| 0 <= i < items.len() ==> call_ensures(f, (#[trigger] accs[i], items[i]), accs[i + 1])
}

/// Folds the items into an accumulator, from the first to the last.
pub fn fold<I: StreamingIterator, B, F: FnMut(B, I::Item) -> B>(iter: I, init: B, f: F) -> (r: B)
    requires
        forall|b: B, x: I::Item, g: F| call_requires(g, (b, x)),
    ensures
        exists|items: Seq<I::Item>, accs: Seq<B>| #[trigger] fold_witness::<I, B, F>(items, accs, iter.rest(), init, f)
            && r == accs.last(),
{
    let ghost s0 = iter.rest();
    let ghost f0 = f;
    let ghost mut items: Seq<I::Item> = Seq::empty();
    let ghost mut accs: Seq<B> = seq![init];
    let mut it = iter;
    let mut g = f;
    let mut acc = init;
    loop
        invariant
            forall|b: B, x: I::Item, h: F| call_requires(h, (b, x)),
            s0 == iter.rest(),
            f0 == f,
            g == f0,
            items.len() + it.rest().len() == s0.len(),
            it.rest() == s0.skip(items.len() as int),
            items_model::<I>(items, s0),
            accs.len() == items.len() + 1,
            accs[0] == init,
            accs.last() == acc,
            forall|i: int| 0 <= i < items.len() ==> call_ensures(f0, (#[trigger] accs[i], items[i]), accs[i + 1]),
        decreases it.rest().len(),
    {
        match it.next() {
            Some(item) => {
                let ghost before = acc;
                acc = g(acc, item);
                proof {
                    items = items.push(item);
                    accs = accs.push(acc);
                    assert(accs[items.len() - 1] == before);
                }
            },
            None => {
                assert(fold_witness::<I, B, F>(items, accs, s0, init, f0));
                return acc;
            },
        }
    }
}

/// The number of items.
pub fn count<I: StreamingIterator>(iter: I) -> (r: usize)
    requires
        iter.rest().len() <= usize::MAX,
    ensures
        r == iter.rest().len(),
{
    let ghost n = iter.rest().len();
    let mut it = iter;
    let mut c: usize = 0;
    loop
        invariant
            n == iter.rest().len(),
            n <= usize::MAX,
            c + it.rest().len() == n,
        decreases it.rest().len(),
    {
        match it.next() {
            Some(_) => {
                c = c + 1;
            },
            None => {
                return c;
            },
        }
    }
}

/// The end of the run of elements, from `e` on, that equal `s[start]` (by `==`).
pub open spec fn group_end<T: PartialEq>(s: Seq<T>, start: int, e: int) -> int
    decreases s.len() - e,
{
    if 0 <= e < s.len() && s[e].eq_spec(&s[start]) {
        group_end(s, start, e + 1)
    } else {
        e
    }
}

proof fn lemma_group_end_bounds<T: PartialEq>(s: Seq<T>, start: int, e: int)
    requires
        0 <= e <= s.len(),
    ensures
        e <= group_end(s, start, e) <= s.len(),
    decreases s.len() - e,
{
    if e < s.len() && s[e].eq_spec(&s[start]) {
        lemma_group_end_bounds(s, start, e + 1);
    }
}

/// The runs, from `p` on, of consecutive elements equal to the run's first element.
pub open spec fn groups_from<T: PartialEq>(s: Seq<T>, p: int) -> Seq<Seq<T>>
    decreases s.len() - p,
{
    if p < 0 || p >= s.len() {
        Seq::empty()
    } else {
        let e = group_end(s, p, p + 1);
        if p < e <= s.len() {
            seq![s.subrange(p, e)] + groups_from(s, e)
        } else {
            Seq::empty()
        }
    }
}

/// Runs of consecutive equal elements, each a slice of the data.
pub struct GroupBy<'data, T: PartialEq> {
    data: &'data [T],
    position: usize,
}

impl<'data, T: PartialEq> GroupBy<'data, T> {
    #[verifier::type_invariant]
    spec fn sane(self) -> bool {
        &&& self.position <= self.data@.len()
        &&& T::obeys_eq_spec()
    }

    /// The runs of `data`; `==` on `T` must behave as its specification says.
    pub fn new(data: &'data [T]) -> (r: Self)
        requires
            T::obeys_eq_spec(),
        ensures
            r.rest() == groups_from(data@, 0),
    {
        GroupBy { data, position: 0 }
    }
}

impl<'data, T: PartialEq> StreamingIterator for GroupBy<'data, T> {
    type Item = &'data [T];
    type Model = Seq<T>;

    closed spec fn rest(&self) -> Seq<Seq<T>> {
        groups_from(self.data@, self.position as int)
    }

    open spec fn models(item: &'data [T], m: Seq<T>) -> bool {
        item@ == m
    }

    fn next(&mut self) -> (r: Option<&'data [T]>) {
        proof {
            use_type_invariant(&*self);
        }
        if self.position >= self.data.len() {
            return None;
        }
        let start = self.position;
        let mut end = start + 1;
        let ghost s = self.data@;
        while end < self.data.len() && self.data[end] == self.data[start]
            invariant
                start < end <= s.len(),
                s == self.data@,
                T::obeys_eq_spec(),
                group_end(s, start as int, end as int) == group_end(s, start as int, start + 1),
            decreases s.len() - end,
        {
            end = end + 1;
        }
        proof {
            lemma_group_end_bounds(s, start as int, start + 1);
        }
        self.position = end;
        Some(slice_range(self.data, start, end))
    }
}

/// Overlapping windows copied into fresh vectors.
pub struct AllocatingWindows<T: Clone> {
    data: Vec<T>,
    window_size: usize,
    position: usize,
}

impl<T: Clone> AllocatingWindows<T> {
    /// The elements being windowed.
    pub closed spec fn elements(&self) -> Seq<T> {
        self.data@
    }

    /// The index of the next window's first element.
    pub closed spec fn at(&self) -> int {
        self.position as int
    }

    /// The number of elements per window.
    pub closed spec fn width(&self) -> int {
        self.window_size as int
    }

    /// Windows of `window_size` elements of `data`, from the first on.
    pub fn new(data: Vec<T>, window_size: usize) -> (r: Self)
        ensures
            r.elements() == data@,
            r.at() == 0,
            r.width() == window_size,
    {
        AllocatingWindows { data, window_size, position: 0 }
    }

    /// A copy of the next window, if it fits in the data.
    pub fn next(&mut self) -> (r: Option<Vec<T>>)
        requires
            old(self).at() < usize::MAX,
        ensures
            final(self).elements() == old(self).elements(),
            final(self).width() == old(self).width(),
            old(self).at() + old(self).width() <= old(self).elements().len() ==> (r matches Some(v)
                && v@.len() == old(self).width() && final(self).at() == old(self).at() + 1
                && forall|i: int| 0 <= i < v@.len() ==> cloned::<T>(#[trigger] old(self).elements()[old(self).at() + i], v@[i])),
            old(self).at() + old(self).width() > old(self).elements().len() ==> r is None
                && final(self).at() == old(self).at(),
    {
        if self.position <= self.data.len() && self.window_size <= self.data.len() - self.position {
            let mut v: Vec<T> = Vec::new();
            let mut i: usize = 0;
            let n = self.data.len();
            while i < self.window_size
                invariant
                    n == self.data@.len(),
                    self.position + self.window_size <= n,
                    i <= self.window_size,
                    v@.len() == i,
                    forall|k: int| 0 <= k < i ==> cloned::<T>(#[trigger] self.data@[self.position + k], v@[k]),
                decreases self.window_size - i,
            {
                v.push(self.data[self.position + i].clone());
                i = i + 1;
            }
            self.position = self.position + 1;
            Some(v)
        } else {
            None
        }
    }
}

} // verus!

verus! {

/// The runs cover the data: from a position on, they are nonempty and, joined together,
/// give back the elements from that position on, in order.
pub proof fn lemma_groups_cover<T: PartialEq>(s: Seq<T>, p: int)
    requires
        0 <= p <= s.len(),
    ensures
        groups_from(s, p).flatten() == s.subrange(p, s.len() as int),
        forall|k: int| 0 <= k < groups_from(s, p).len() ==> (#[trigger] groups_from(s, p)[k]).len() > 0,
    decreases s.len() - p,
{
    let gs = groups_from(s, p);
    if p < s.len() {
        let e = group_end(s, p, p + 1);
        lemma_group_end_bounds(s, p, p + 1);
        lemma_groups_cover(s, e);
        assert(gs.drop_first() =~= groups_from(s, e));
        assert(gs[0] == s.subrange(p, e));
        assert(s.subrange(p, s.len() as int) =~= s.subrange(p, e) + s.subrange(e, s.len() as int));
        assert forall|k: int| 0 <= k < gs.len() implies (#[trigger] gs[k]).len() > 0 by {
            if k > 0 {
                assert(gs[k] == groups_from(s, e)[k - 1]);
            }
        }
    } else {
        assert(gs =~= Seq::<Seq<T>>::empty());
        assert(s.subrange(p, s.len() as int) =~= Seq::<T>::empty());
    }
}

/// From `e` on, the run of `s[start]` holds elements equal to it, and the element that
/// ends the run, if any, is not.
proof fn lemma_group_end_run<T: PartialEq>(s: Seq<T>, start: int, e: int)
    requires
        0 <= e <= s.len(),
    ensures
        forall|x: int| e <= x < group_end(s, start, e) ==> (#[trigger] s[x]).eq_spec(&s[start]),
        group_end(s, start, e) < s.len() ==> !s[group_end(s, start, e)].eq_spec(&s[start]),
    decreases s.len() - e,
{
    if e < s.len() && s[e].eq_spec(&s[start]) {
        lemma_group_end_run(s, start, e + 1);
    }
}

/// The runs are maximal: every element of a run after its first equals the first, and
/// the first element of the next run does not.
pub proof fn lemma_groups_maximal<T: PartialEq>(s: Seq<T>, p: int)
    requires
        0 <= p <= s.len(),
    ensures
        forall|k: int, i: int| 0 <= k < groups_from(s, p).len() && 1 <= i < groups_from(s, p)[k].len()
            ==> (#[trigger] groups_from(s, p)[k][i]).eq_spec(&groups_from(s, p)[k][0]),
        forall|k: int| 0 <= k < groups_from(s, p).len() - 1
            ==> !(#[trigger] groups_from(s, p)[k + 1][0]).eq_spec(&groups_from(s, p)[k][0]),
    decreases s.len() - p,
{
    let gs = groups_from(s, p);
    if p < s.len() {
        let e = group_end(s, p, p + 1);
        lemma_group_end_bounds(s, p, p + 1);
        lemma_group_end_run(s, p, p + 1);
        lemma_groups_maximal(s, e);
        lemma_groups_cover(s, e);
        let rest = groups_from(s, e);
        assert(gs.drop_first() =~= rest);
        assert(gs[0] == s.subrange(p, e));
        assert forall|k: int, i: int| 0 <= k < gs.len() && 1 <= i < gs[k].len() implies (#[trigger] gs[k][i]).eq_spec(&gs[k][0]) by {
            if k == 0 {
                assert(gs[0][i] == s[p + i]);
                assert(gs[0][0] == s[p]);
            } else {
                assert(gs[k] == rest[k - 1]);
            }
        }
        assert forall|k: int| 0 <= k < gs.len() - 1 implies !(#[trigger] gs[k + 1][0]).eq_spec(&gs[k][0]) by {
            if k == 0 {
                assert(gs[1] == rest[0]);
                assert(e < s.len());
                assert(rest[0] == s.subrange(e, group_end(s, e, e + 1)));
                assert(rest[0][0] == s[e]);
            } else {
                assert(gs[k] == rest[k - 1]);
                assert(gs[k + 1] == rest[k]);
            }
        }
    }
}

} // verus!
