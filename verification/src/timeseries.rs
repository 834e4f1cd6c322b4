//! A fixed-capacity sliding window over a stream of values: pushing past the capacity
//! evicts the oldest value.
use vstd::prelude::*;
use std::collections::VecDeque;

verus! {

/// `VecDeque::make_contiguous`: lays the deque out as one slice, which is returned;
/// the order of the elements does not change.
#[verifier::external_body]
fn deque_contiguous<T>(d: &mut VecDeque<T>) -> (r: &[T])
    ensures
        final(d)@ == old(d)@,
        r@ == old(d)@,
{
    d.make_contiguous()
}

/// The contents of a window with capacity `cap` holding `w` after `value` is pushed:
/// a full, nonempty window drops its oldest value first.
pub open spec fn pushed<T>(w: Seq<T>, cap: nat, value: T) -> Seq<T> {
    if w.len() == cap && w.len() > 0 {
        w.drop_first().push(value)
    } else {
        w.push(value)
    }
}

/// The contents of an empty window with capacity `cap` after the values of `xs` are
/// pushed one by one.
pub open spec fn window_of<T>(cap: nat, xs: Seq<T>) -> Seq<T>
    decreases xs.len(),
{
    if xs.len() == 0 {
        Seq::empty()
    } else {
        pushed(window_of(cap, xs.drop_last()), cap, xs.last())
    }
}

/// A window of positive capacity holds the last `cap` values pushed into it (all of
/// them while fewer were pushed), oldest first.
pub proof fn lemma_window_keeps_last<T>(cap: nat, xs: Seq<T>)
    requires
        cap > 0,
    ensures
        window_of(cap, xs) == xs.subrange(if xs.len() > cap { xs.len() - cap } else { 0 }, xs.len() as int),
    decreases xs.len(),
{
    if xs.len() > 0 {
        let ys = xs.drop_last();
        lemma_window_keeps_last(cap, ys);
        if ys.len() >= cap {
            assert(window_of(cap, xs) =~= xs.subrange(xs.len() - cap, xs.len() as int));
        } else {
            assert(window_of(cap, xs) =~= xs.subrange(0, xs.len() as int));
        }
    }
}

/// The last `capacity` values pushed (more only when the capacity is 0, see `push`).
#[derive(Debug, Clone)]
pub struct SlidingWindow<T> {
    window: VecDeque<T>,
    capacity: usize,
}

impl<T: Clone> SlidingWindow<T> {
    /// The values in the window, oldest first.
    pub closed spec fn contents(&self) -> Seq<T> {
        self.window@
    }

    /// The capacity the window was made with.
    pub closed spec fn cap(&self) -> nat {
        self.capacity as nat
    }

    /// A window of positive capacity never holds more than its capacity.
    pub open spec fn wf(&self) -> bool {
        self.cap() > 0 ==> self.contents().len() <= self.cap()
    }

    /// An empty window of the given capacity.
    pub fn new(capacity: usize) -> (r: Self)
        ensures
            r.wf(),
            r.contents().len() == 0,
            r.cap() == capacity,
    {
        SlidingWindow { window: VecDeque::with_capacity(capacity), capacity }
    }

    /// Adds `value` as the newest value. When the window holds exactly `capacity`
    /// values, the oldest is evicted first and returned.
    pub fn push(&mut self, value: T) -> (r: Option<T>)
        requires
            old(self).contents().len() < usize::MAX,
        ensures
            final(self).cap() == old(self).cap(),
            old(self).wf() ==> final(self).wf(),
            old(self).contents().len() == old(self).cap() && old(self).contents().len() > 0 ==> r == Some(
                old(self).contents()[0],
            ) && final(self).contents() == old(self).contents().drop_first().push(value),
            !(old(self).contents().len() == old(self).cap() && old(self).contents().len() > 0) ==> r is None
                && final(self).contents() == old(self).contents().push(value),
            final(self).contents() == pushed(old(self).contents(), old(self).cap(), value),
    {
        let mut evicted = None;
        if self.window.len() == self.capacity {
            evicted = self.window.pop_front();
        }
        self.window.push_back(value);
        evicted
    }

    /// The values in the window as one slice, oldest first.
    pub fn as_slice(&mut self) -> (r: &[T])
        ensures
            final(self).contents() == old(self).contents(),
            final(self).cap() == old(self).cap(),
            r@ == old(self).contents(),
    {
        deque_contiguous(&mut self.window)
    }

    /// The number of values in the window.
    pub fn len(&self) -> (r: usize)
        ensures
            r == self.contents().len(),
    {
        self.window.len()
    }

    /// Whether the window holds exactly its capacity.
    pub fn is_full(&self) -> (r: bool)
        ensures
            r == (self.contents().len() == self.cap()),
    {
        self.window.len() == self.capacity
    }

    /// Whether the window holds no value.
    pub fn is_empty(&self) -> (r: bool)
        ensures
            r == (self.contents().len() == 0),
    {
        self.window.len() == 0
    }
}

} // verus!
