//! K-way merging of sorted sequences through a min-heap of the sequences' current heads.
use vstd::prelude::*;
use crate::priority_queue::{PriorityQueue, MinHeap};
use vstd::std_specs::cmp::PartialOrdSpec;
use crate::order::{total_order, at_most, greater, lemma_trichotomy, lemma_le_trans, lemma_le_refl};

verus! {

broadcast use vstd::seq_lib::group_to_multiset_ensures;

/// The total number of items in the sequences.
pub open spec fn total_len<T>(seqs: Seq<&[T]>) -> int
    decreases seqs.len(),
{
    if seqs.len() == 0 {
        0
    } else {
        total_len(seqs.drop_last()) + seqs.last()@.len()
    }
}

/// How many items of the first `n` sequences are still unread, when `idx[s]` items of
/// sequence `s` have been read.
pub open spec fn unread<T>(seqs: Seq<&[T]>, idx: Seq<int>, n: int) -> int
    decreases n,
{
    if n <= 0 {
        0
    } else {
        unread(seqs, idx, n - 1) + (seqs[n - 1]@.len() - idx[n - 1])
    }
}

proof fn lemma_unread_zero<T>(seqs: Seq<&[T]>, idx: Seq<int>, n: int)
    requires
        0 <= n <= seqs.len(),
        idx.len() == seqs.len(),
        forall|s: int| 0 <= s < seqs.len() ==> #[trigger] idx[s] == 0,
    ensures
        unread(seqs, idx, n) == total_len(seqs.subrange(0, n)),
    decreases n,
{
    if n > 0 {
        lemma_unread_zero(seqs, idx, n - 1);
        assert(seqs.subrange(0, n).drop_last() =~= seqs.subrange(0, n - 1));
    }
}

proof fn lemma_unread_bounds<T>(seqs: Seq<&[T]>, idx: Seq<int>, n: int)
    requires
        0 <= n <= seqs.len(),
        idx.len() == seqs.len(),
        forall|s: int| 0 <= s < seqs.len() ==> 0 <= #[trigger] idx[s] <= seqs[s]@.len(),
    ensures
        unread(seqs, idx, n) >= 0,
        unread(seqs, idx, n) == 0 ==> forall|s: int| 0 <= s < n ==> #[trigger] idx[s] == seqs[s]@.len(),
    decreases n,
{
    if n > 0 {
        lemma_unread_bounds(seqs, idx, n - 1);
    }
}

proof fn lemma_unread_full<T>(seqs: Seq<&[T]>, idx: Seq<int>, n: int)
    requires
        0 <= n <= seqs.len(),
        idx.len() == seqs.len(),
        forall|s: int| 0 <= s < n ==> #[trigger] idx[s] == seqs[s]@.len(),
    ensures
        unread(seqs, idx, n) == 0,
    decreases n,
{
    if n > 0 {
        lemma_unread_full(seqs, idx, n - 1);
    }
}

proof fn lemma_unread_step<T>(seqs: Seq<&[T]>, idx: Seq<int>, s: int, n: int)
    requires
        0 <= s < seqs.len(),
        0 <= n <= seqs.len(),
        idx.len() == seqs.len(),
    ensures
        unread(seqs, idx.update(s, idx[s] + 1), n) == unread(seqs, idx, n) - (if s < n { 1int } else { 0int }),
    decreases n,
{
    if n > 0 {
        lemma_unread_step(seqs, idx, s, n - 1);
    }
}

/// Every item of `s` is at most every later one.
pub open spec fn sorted_seq<T: PartialOrd>(s: Seq<T>) -> bool {
    forall|a: int, b: int| 0 <= a < b < s.len() ==> at_most(#[trigger] s[a], #[trigger] s[b])
}

/// Cloning gives back an equal value.
pub open spec fn clone_faithful<T: Clone>() -> bool {
    forall|a: T, b: T| #[trigger] cloned(a, b) ==> a == b
}

/// The item type is totally preordered, its clones are equal to their originals, and
/// every sequence is sorted: what a sorted merge needs.
pub open spec fn merge_ready<T: PartialOrd + Clone>(seqs: Seq<&[T]>) -> bool {
    &&& total_order::<T>()
    &&& clone_faithful::<T>()
    &&& forall|s: int| 0 <= s < seqs.len() ==> sorted_seq(#[trigger] seqs[s]@)
}

/// Heap entries, ordered by value, then sequence, then position, are totally preordered
/// when the values are.
proof fn lemma_entry_order<T: PartialOrd>()
    requires
        total_order::<T>(),
    ensures
        total_order::<(T, usize, usize)>(),
{
    assert forall|a: (T, usize, usize), b: (T, usize, usize)| #[trigger] a.partial_cmp_spec(&b) is Some by {
        lemma_trichotomy(a.0, b.0);
    }
    assert forall|a: (T, usize, usize), b: (T, usize, usize)|
        (#[trigger] a.partial_cmp_spec(&b) == Some(core::cmp::Ordering::Less)) <==> (b.partial_cmp_spec(&a)
            == Some(core::cmp::Ordering::Greater)) by {
        lemma_trichotomy(a.0, b.0);
        lemma_trichotomy(b.0, a.0);
    }
    assert forall|a: (T, usize, usize), b: (T, usize, usize)|
        (#[trigger] a.partial_cmp_spec(&b) == Some(core::cmp::Ordering::Equal)) <==> (b.partial_cmp_spec(&a)
            == Some(core::cmp::Ordering::Equal)) by {
        lemma_trichotomy(a.0, b.0);
        lemma_trichotomy(b.0, a.0);
    }
    assert forall|a: (T, usize, usize), b: (T, usize, usize), c: (T, usize, usize)|
        #![trigger a.partial_cmp_spec(&b), b.partial_cmp_spec(&c)]
        crate::order::le_spec(a, b) && crate::order::le_spec(b, c) implies crate::order::le_spec(a, c) by {
        lemma_trichotomy(a.0, b.0);
        lemma_trichotomy(b.0, c.0);
        lemma_trichotomy(a.0, c.0);
        lemma_trichotomy(b.0, a.0);
        lemma_trichotomy(c.0, b.0);
        lemma_trichotomy(c.0, a.0);
        if at_most(a.0, b.0) && at_most(b.0, c.0) {
            lemma_le_trans(a.0, b.0, c.0);
        }
        if at_most(c.0, b.0) && at_most(b.0, a.0) {
            lemma_le_trans(c.0, b.0, a.0);
        }
        if at_most(b.0, c.0) && at_most(c.0, a.0) {
            lemma_le_trans(b.0, c.0, a.0);
        }
        if at_most(c.0, a.0) && at_most(a.0, b.0) {
            lemma_le_trans(c.0, a.0, b.0);
        }
    }
}

/// A heap entry: the value read from sequence `e.1` at position `e.2`.
pub open spec fn entry_ok<T: Clone>(seqs: Seq<&[T]>, idx: Seq<int>, e: (T, usize, usize)) -> bool {
    &&& e.1 < seqs.len()
    &&& e.2 == idx[e.1 as int]
    &&& e.2 < seqs[e.1 as int]@.len()
    &&& cloned(seqs[e.1 as int]@[e.2 as int], e.0)
}

/// `pos` lists distinct positions of `seqs`, and every position `(s, e)` with `e < idx[s]`
/// occurs in it: the read positions.
pub open spec fn read_positions<T>(seqs: Seq<&[T]>, idx: Seq<int>, pos: Seq<(int, int)>) -> bool {
    &&& forall|k: int| 0 <= k < pos.len() ==> 0 <= (#[trigger] pos[k]).0 < seqs.len() && 0 <= pos[k].1 < idx[pos[k].0]
    &&& forall|k1: int, k2: int| 0 <= k1 < k2 < pos.len() ==> #[trigger] pos[k1] != #[trigger] pos[k2]
    &&& forall|s: int, e: int| 0 <= s < seqs.len() && 0 <= e < idx[s] ==> #[trigger] pos.contains((s, e))
}

/// Merges sorted sequences by repeatedly taking the smallest head from a min-heap. The
/// result holds a clone of every item of every sequence, each exactly once.
pub fn merge_k<T: PartialOrd + Clone>(sequences: &[&[T]]) -> (result: Vec<T>)
    requires
        sequences@.len() < usize::MAX,
    ensures
        result@.len() == total_len(sequences@),
        exists|pos: Seq<(int, int)>| {
            &&& pos.len() == result@.len()
            &&& read_positions(sequences@, Seq::new(sequences@.len(), |s: int| sequences@[s]@.len() as int), pos)
            &&& forall|k: int| 0 <= k < pos.len() ==> cloned(sequences@[(#[trigger] pos[k]).0]@[pos[k].1], result@[k])
        },
        merge_ready::<T>(sequences@) ==> sorted_seq(result@),
{
    let ghost seqs = sequences@;
    let ghost n = seqs.len() as int;
    let mut result: Vec<T> = Vec::new();
    if sequences.len() == 0 {
        proof {
            let full = Seq::new(seqs.len(), |s: int| seqs[s]@.len() as int);
            let pos = Seq::<(int, int)>::empty();
            assert(read_positions(seqs, full, pos));
            assert(pos.len() == result@.len());
        }
        return result;
    }
    let mut heap: PriorityQueue<(T, usize, usize), MinHeap> = PriorityQueue::new();
    let ghost mut idx: Seq<int> = Seq::new(seqs.len(), |s: int| 0int);
    let mut seq_idx: usize = 0;
    proof {
        assert(heap.contents() =~= vstd::multiset::Multiset::empty());
    }
    while seq_idx < sequences.len()
        invariant
            seqs == sequences@,
            n == seqs.len(),
            seq_idx <= n,
            idx.len() == n,
            forall|s: int| 0 <= s < n ==> #[trigger] idx[s] == 0,
            heap.wf(),
            heap@.len() <= seq_idx,
            forall|e: (T, usize, usize)| #[trigger] heap.contents().count(e) > 0 ==> entry_ok(seqs, idx, e) && e.1 < seq_idx && heap.contents().count(e) == 1,
            forall|e1: (T, usize, usize), e2: (T, usize, usize)|
                #[trigger] heap.contents().count(e1) > 0 && #[trigger] heap.contents().count(e2) > 0 && e1.1 == e2.1 ==> e1 == e2,
            forall|s: int| 0 <= s < seq_idx && idx[s] < seqs[s]@.len() ==> exists|v: T| #[trigger] heap.contents().count((v, s as usize, idx[s] as usize)) > 0,
        decreases n - seq_idx,
    {
        let seq = sequences[seq_idx];
        if seq.len() > 0 {
            let first = seq[0].clone();
            let ghost before = heap.contents();
            let entry = (first, seq_idx, 0usize);
            let ghost v = entry.0;
            heap.push(entry);
            proof {
                assert(entry_ok(seqs, idx, entry));
                assert(before.count(entry) == 0);
                assert(heap.contents().count(entry) > 0);
                let t = seq_idx as int;
                assert((v, t as usize, idx[t] as usize) == entry);
                assert forall|s: int| 0 <= s < seq_idx + 1 && idx[s] < seqs[s]@.len() implies exists|w: T| #[trigger] heap.contents().count((w, s as usize, idx[s] as usize)) > 0 by {
                    if s == t {
                        assert(heap.contents().count((v, s as usize, idx[s] as usize)) > 0);
                    } else {
                        let w = choose|w: T| #[trigger] before.count((w, s as usize, idx[s] as usize)) > 0;
                        assert(heap.contents().count((w, s as usize, idx[s] as usize)) > 0);
                    }
                }
            }
        }
        seq_idx = seq_idx + 1;
    }
    proof {
        lemma_unread_zero(seqs, idx, n);
        assert(seqs.subrange(0, n) =~= seqs);
    }
    let ghost mut pos: Seq<(int, int)> = Seq::empty();
    loop
        invariant
            seqs == sequences@,
            n == seqs.len(),
            n < usize::MAX,
            idx.len() == n,
            forall|s: int| 0 <= s < n ==> 0 <= #[trigger] idx[s] <= seqs[s]@.len(),
            heap.wf(),
            heap@.len() <= n,
            result@.len() + unread(seqs, idx, n) == total_len(seqs),
            forall|e: (T, usize, usize)| #[trigger] heap.contents().count(e) > 0 ==> entry_ok(seqs, idx, e) && heap.contents().count(e) == 1,
            forall|e1: (T, usize, usize), e2: (T, usize, usize)|
                #[trigger] heap.contents().count(e1) > 0 && #[trigger] heap.contents().count(e2) > 0 && e1.1 == e2.1 ==> e1 == e2,
            forall|s: int| 0 <= s < n && idx[s] < seqs[s]@.len() ==> exists|v: T| #[trigger] heap.contents().count((v, s as usize, idx[s] as usize)) > 0,
            pos.len() == result@.len(),
            read_positions(seqs, idx, pos),
            forall|k: int| 0 <= k < pos.len() ==> cloned(seqs[(#[trigger] pos[k]).0]@[pos[k].1], result@[k]),
            merge_ready::<T>(seqs) ==> sorted_seq(result@),
            merge_ready::<T>(seqs) ==> forall|k: int, x: (T, usize, usize)|
                0 <= k < result@.len() && #[trigger] heap.contents().count(x) > 0 ==> at_most(#[trigger] result@[k], x.0),
        decreases unread(seqs, idx, n),
    {
        proof {
            lemma_unread_bounds(seqs, idx, n);
        }
        let ghost before = heap.contents();
        let ghost before_seq = heap@;
        let popped = heap.pop();
        match popped {
            None => {
                proof {
                    assert forall|s: int| 0 <= s < n implies #[trigger] idx[s] == seqs[s]@.len() by {
                        if idx[s] < seqs[s]@.len() {
                            let v = choose|v: T| #[trigger] before.count((v, s as usize, idx[s] as usize)) > 0;
                            assert(heap@.len() == 0);
                            assert(heap@.contains((v, s as usize, idx[s] as usize)));
                        }
                    }
                    let full = Seq::new(seqs.len(), |s: int| seqs[s]@.len() as int);
                    assert(idx =~= full);
                    lemma_unread_full(seqs, idx, n);
                    assert(read_positions(seqs, full, pos));
                }
                return result;
            },
            Some(entry) => {
                let (value, s, e) = entry;
                proof {
                    assert(before.count(entry) > 0);
                    assert(entry_ok(seqs, idx, entry));
                }
                let ghost mid = heap.contents();
                let ghost old_result = result@;
                result.push(value);
                proof {
                    if merge_ready::<T>(seqs) {
                        lemma_entry_order::<T>();
                        assert(entry_ok(seqs, idx, entry));
                        assert(value == seqs[s as int]@[e as int]);
                        assert forall|y: (T, usize, usize)| #[trigger] mid.count(y) > 0 implies at_most(value, y.0) by {
                            assert(before.count(y) > 0);
                            assert(before_seq.to_multiset().count(y) > 0);
                            assert(before_seq.contains(y));
                            let k = choose|k: int| 0 <= k < before_seq.len() && before_seq[k] == y;
                            assert(!greater(entry, before_seq[k]));
                            lemma_trichotomy(value, y.0);
                        }
                        assert forall|a: int, b: int| 0 <= a < b < result@.len() implies at_most(#[trigger] result@[a], #[trigger] result@[b]) by {
                            if b == result@.len() - 1 {
                                assert(result@[a] == old_result[a]);
                                assert(before.count(entry) > 0);
                            } else {
                                assert(result@[a] == old_result[a] && result@[b] == old_result[b]);
                            }
                        }
                        assert forall|k: int, y: (T, usize, usize)| 0 <= k < result@.len() && #[trigger] mid.count(y) > 0
                            implies at_most(#[trigger] result@[k], y.0) by {
                            assert(before.count(y) > 0);
                            if k < old_result.len() {
                                assert(result@[k] == old_result[k]);
                            }
                        }
                    }
                }
                let ghost old_idx = idx;
                let ghost old_pos = pos;
                proof {
                    lemma_unread_step(seqs, idx, s as int, n);
                    idx = idx.update(s as int, idx[s as int] + 1);
                    pos = pos.push((s as int, e as int));
                    assert forall|t: int, f: int| 0 <= t < seqs.len() && 0 <= f < idx[t] implies #[trigger] pos.contains((t, f)) by {
                        if t == s && f == e {
                            assert(pos[pos.len() - 1] == (t, f));
                        } else {
                            assert(old_pos.contains((t, f)));
                            let k = choose|k: int| 0 <= k < old_pos.len() && old_pos[k] == (t, f);
                            assert(pos[k] == (t, f));
                        }
                    }
                    assert forall|k1: int, k2: int| 0 <= k1 < k2 < pos.len() implies #[trigger] pos[k1] != #[trigger] pos[k2] by {
                        if k2 == pos.len() - 1 {
                            assert(old_pos[k1].1 < old_idx[old_pos[k1].0]);
                        }
                    }
                    assert forall|k: int| 0 <= k < pos.len() implies cloned(seqs[(#[trigger] pos[k]).0]@[pos[k].1], result@[k]) by {
                        if k < old_pos.len() {
                            assert(pos[k] == old_pos[k]);
                        }
                    }
                    assert forall|x: (T, usize, usize)| #[trigger] mid.count(x) > 0 implies x.1 != s && entry_ok(seqs, idx, x) && mid.count(x) == 1 by {
                        assert(before.count(x) > 0);
                        if x.1 == s {
                            assert(x == entry);
                        }
                    }
                }
                let len_s = sequences[s].len();
                let next_idx = e + 1;
                if next_idx < len_s {
                    let next = sequences[s][next_idx].clone();
                    let item = (next, s, next_idx);
                    heap.push(item);
                    proof {
                        assert(mid.count(item) == 0);
                        assert(entry_ok(seqs, idx, item));
                        assert(heap.contents().count(item) > 0);
                        if merge_ready::<T>(seqs) {
                            assert(item.0 == seqs[s as int]@[next_idx as int]);
                            assert(value == seqs[s as int]@[e as int]);
                            assert(sorted_seq(seqs[s as int]@));
                            assert(at_most(value, item.0));
                            assert forall|k: int, y: (T, usize, usize)| 0 <= k < result@.len() && #[trigger] heap.contents().count(y) > 0
                                implies at_most(#[trigger] result@[k], y.0) by {
                                if y == item {
                                    if k < result@.len() - 1 {
                                        assert(at_most(result@[k], result@[result@.len() - 1]));
                                    } else {
                                        lemma_le_refl(value);
                                    }
                                    lemma_le_trans(result@[k], value, item.0);
                                } else {
                                    assert(mid.count(y) > 0);
                                }
                            }
                        }
                    }
                }
                proof {
                    assert forall|e1: (T, usize, usize), e2: (T, usize, usize)|
                        #[trigger] heap.contents().count(e1) > 0 && #[trigger] heap.contents().count(e2) > 0 && e1.1 == e2.1 implies e1 == e2 by {
                        if mid.count(e1) > 0 && mid.count(e2) > 0 {
                            assert(before.count(e1) > 0 && before.count(e2) > 0);
                        }
                    }
                    assert forall|t: int| 0 <= t < n && idx[t] < seqs[t]@.len() implies exists|v: T| #[trigger] heap.contents().count((v, t as usize, idx[t] as usize)) > 0 by {
                        if t != s {
                            let v = choose|v: T| #[trigger] before.count((v, t as usize, old_idx[t] as usize)) > 0;
                            assert(mid.count((v, t as usize, idx[t] as usize)) > 0);
                            assert(heap.contents().count((v, t as usize, idx[t] as usize)) > 0);
                        }
                    }
                }
            },
        }
    }
}

/// A heap entry of the merging iterator: the head value of sequence `e.1`.
pub open spec fn head_ok<T: Clone>(seqs: Seq<&[T]>, idx: Seq<int>, e: (T, usize)) -> bool {
    &&& e.1 < seqs.len()
    &&& idx[e.1 as int] < seqs[e.1 as int]@.len()
    &&& cloned(seqs[e.1 as int]@[idx[e.1 as int]], e.0)
}

/// Yields the items of sorted sequences in merged order, one at a time.
pub struct MergeIterator<'a, T> {
    sequences: Vec<&'a [T]>,
    indices: Vec<usize>,
    heap: PriorityQueue<(T, usize), MinHeap>,
}

impl<'a, T: PartialOrd + Clone> MergeIterator<'a, T> {
    /// The sequences being merged.
    pub closed spec fn sources(&self) -> Seq<&'a [T]> {
        self.sequences@
    }

    /// How many items of each sequence have been yielded.
    pub closed spec fn consumed(&self) -> Seq<int> {
        self.indices@.map_values(|i: usize| i as int)
    }

    /// How many items are still to come.
    pub open spec fn remaining(&self) -> int {
        unread(self.sources(), self.consumed(), self.sources().len() as int)
    }

    /// Each sequence's count of yielded items is within its length, and the heap holds
    /// exactly one clone of the next item of each sequence that has one left.
    pub closed spec fn wf(&self) -> bool {
        let seqs = self.sequences@;
        let idx = self.consumed();
        &&& seqs.len() < usize::MAX
        &&& idx.len() == seqs.len()
        &&& forall|s: int| 0 <= s < seqs.len() ==> 0 <= #[trigger] idx[s] <= seqs[s]@.len()
        &&& self.heap.wf()
        &&& self.heap@.len() <= seqs.len()
        &&& forall|e: (T, usize)| #[trigger] self.heap.contents().count(e) > 0 ==> head_ok(seqs, idx, e) && self.heap.contents().count(e) == 1
        &&& forall|e1: (T, usize), e2: (T, usize)|
            #[trigger] self.heap.contents().count(e1) > 0 && #[trigger] self.heap.contents().count(e2) > 0 && e1.1 == e2.1 ==> e1 == e2
        &&& forall|s: int| 0 <= s < seqs.len() && idx[s] < seqs[s]@.len() ==> exists|v: T| #[trigger] self.heap.contents().count((v, s as usize)) > 0
    }

    /// Starts merging the given sequences.
    pub fn new(sequences: Vec<&'a [T]>) -> (r: Self)
        requires
            sequences@.len() < usize::MAX,
        ensures
            r.wf(),
            r.sources() == sequences@,
            r.consumed() == Seq::new(sequences@.len(), |s: int| 0int),
            r.remaining() == total_len(sequences@),
    {
        let ghost seqs = sequences@;
        let mut heap: PriorityQueue<(T, usize), MinHeap> = PriorityQueue::new();
        let mut indices: Vec<usize> = Vec::new();
        proof {
            assert(heap.contents() =~= vstd::multiset::Multiset::empty());
        }
        let mut seq_idx: usize = 0;
        while seq_idx < sequences.len()
            invariant
                seqs == sequences@,
                seqs.len() < usize::MAX,
                seq_idx <= seqs.len(),
                indices@.len() == seq_idx,
                forall|s: int| 0 <= s < seq_idx ==> #[trigger] indices@[s] == 0,
                heap.wf(),
                heap@.len() <= seq_idx,
                forall|e: (T, usize)| #[trigger] heap.contents().count(e) > 0 ==> e.1 < seq_idx && seqs[e.1 as int]@.len() > 0
                    && cloned(seqs[e.1 as int]@[0], e.0) && heap.contents().count(e) == 1,
                forall|e1: (T, usize), e2: (T, usize)|
                    #[trigger] heap.contents().count(e1) > 0 && #[trigger] heap.contents().count(e2) > 0 && e1.1 == e2.1 ==> e1 == e2,
                forall|s: int| 0 <= s < seq_idx && 0 < seqs[s]@.len() ==> exists|v: T| #[trigger] heap.contents().count((v, s as usize)) > 0,
            decreases seqs.len() - seq_idx,
        {
            let seq = sequences[seq_idx];
            if seq.len() > 0 {
                let first = seq[0].clone();
                let ghost before = heap.contents();
                let entry = (first, seq_idx);
                let ghost v = entry.0;
                heap.push(entry);
                proof {
                    assert(before.count(entry) == 0);
                    assert(heap.contents().count(entry) > 0);
                    let t = seq_idx as int;
                    assert((v, t as usize) == entry);
                    assert forall|s: int| 0 <= s < seq_idx + 1 && 0 < seqs[s]@.len() implies exists|w: T| #[trigger] heap.contents().count((w, s as usize)) > 0 by {
                        if s == t {
                            assert(heap.contents().count((v, s as usize)) > 0);
                        } else {
                            let w = choose|w: T| #[trigger] before.count((w, s as usize)) > 0;
                            assert(heap.contents().count((w, s as usize)) > 0);
                        }
                    }
                }
            }
            indices.push(0);
            seq_idx = seq_idx + 1;
        }
        let ghost hc = heap.contents();
        proof {
            assert forall|t: int| 0 <= t < seqs.len() && 0 < seqs[t]@.len() implies exists|v: T| #[trigger] hc.count((v, t as usize)) > 0 by {
                assert(0 <= t < seq_idx);
            }
        }
        let r = MergeIterator { sequences, indices, heap };
        proof {
            let idx = r.consumed();
            assert(idx =~= Seq::new(seqs.len(), |s: int| 0int));
            lemma_unread_zero(seqs, idx, seqs.len() as int);
            assert(seqs.subrange(0, seqs.len() as int) =~= seqs);
            assert forall|e: (T, usize)| #[trigger] r.heap.contents().count(e) > 0 implies head_ok(seqs, idx, e) && r.heap.contents().count(e) == 1 by {
                assert(idx[e.1 as int] == 0);
            }
            assert forall|t: int| 0 <= t < seqs.len() && idx[t] < seqs[t]@.len() implies exists|v: T| #[trigger] r.heap.contents().count((v, t as usize)) > 0 by {
                assert(idx[t] == 0);
                assert(0 < seqs[t]@.len());
                let v = choose|v: T| #[trigger] hc.count((v, t as usize)) > 0;
                assert(r.heap.contents().count((v, t as usize)) > 0);
            }
            assert forall|t: int| 0 <= t < seqs.len() implies 0 <= #[trigger] idx[t] <= seqs[t]@.len() by {
                assert(idx[t] == 0);
            }
        }
        r
    }

    /// The next item in merged order: a clone of the next item of one of the sequences,
    /// or `None` once every item has been yielded.
    pub fn next(&mut self) -> (r: Option<T>)
        requires
            old(self).wf(),
        ensures
            final(self).wf(),
            final(self).sources() == old(self).sources(),
            old(self).remaining() == 0 ==> r is None && final(self).consumed() == old(self).consumed(),
            old(self).remaining() > 0 ==> r is Some,
            r matches Some(v) ==> exists|s: int| {
                &&& 0 <= s < old(self).sources().len()
                &&& old(self).consumed()[s] < old(self).sources()[s]@.len()
                &&& cloned(old(self).sources()[s]@[old(self).consumed()[s]], v)
                &&& final(self).consumed() == old(self).consumed().update(s, old(self).consumed()[s] + 1)
                &&& final(self).remaining() == old(self).remaining() - 1
            },
    {
        let ghost seqs = self.sequences@;
        let ghost n = seqs.len() as int;
        let ghost idx = self.consumed();
        let ghost before = self.heap.contents();
        proof {
            lemma_unread_bounds(seqs, idx, n);
        }
        let popped = self.heap.pop();
        match popped {
            None => {
                proof {
                    assert forall|s: int| 0 <= s < n implies #[trigger] idx[s] == seqs[s]@.len() by {
                        if idx[s] < seqs[s]@.len() {
                            let v = choose|v: T| #[trigger] before.count((v, s as usize)) > 0;
                            assert(old(self).heap@.contains((v, s as usize)));
                        }
                    }
                    lemma_unread_full(seqs, idx, n);
                }
                None
            },
            Some(entry) => {
                let (value, s) = entry;
                proof {
                    assert(before.count(entry) > 0);
                    assert(head_ok(seqs, idx, entry));
                }
                let ghost mid = self.heap.contents();
                let len_s = self.sequences[s].len();
                let cur = self.indices[s];
                proof {
                    assert(cur == idx[s as int]);
                }
                let next_idx = cur + 1;
                self.indices.set(s, next_idx);
                let ghost new_idx = self.consumed();
                proof {
                    assert(new_idx =~= idx.update(s as int, idx[s as int] + 1));
                    lemma_unread_step(seqs, idx, s as int, n);
                    assert forall|x: (T, usize)| #[trigger] mid.count(x) > 0 implies x.1 != s && head_ok(seqs, new_idx, x) && mid.count(x) == 1 by {
                        assert(before.count(x) > 0);
                        if x.1 == s {
                            assert(x == entry);
                        }
                    }
                }
                if next_idx < len_s {
                    let nv = self.sequences[s][next_idx].clone();
                    let item = (nv, s);
                    self.heap.push(item);
                    proof {
                        assert(mid.count(item) == 0);
                        assert(self.heap.contents().count(item) > 0);
                    }
                }
                proof {
                    assert forall|e1: (T, usize), e2: (T, usize)|
                        #[trigger] self.heap.contents().count(e1) > 0 && #[trigger] self.heap.contents().count(e2) > 0 && e1.1 == e2.1 implies e1 == e2 by {
                        if mid.count(e1) > 0 && mid.count(e2) > 0 {
                            assert(before.count(e1) > 0 && before.count(e2) > 0);
                        }
                    }
                    assert forall|t: int| 0 <= t < n && new_idx[t] < seqs[t]@.len() implies exists|v: T| #[trigger] self.heap.contents().count((v, t as usize)) > 0 by {
                        if t != s {
                            let v = choose|v: T| #[trigger] before.count((v, t as usize)) > 0;
                            assert(mid.count((v, t as usize)) > 0);
                            assert(self.heap.contents().count((v, t as usize)) > 0);
                        }
                    }
                    assert(cloned(seqs[s as int]@[idx[s as int]], value));
                }
                Some(value)
            },
        }
    }
}

} // verus!
