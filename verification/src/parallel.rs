//! Divide-and-conquer work split over rayon's `join`: evaluating an arithmetic
//! expression tree, Fibonacci numbers, and quicksort with its partition step; and the
//! per-item steps of some data pipelines (pixel enhancement, log parsing and
//! enrichment, a repeated doubling modulo 1000).
use vstd::prelude::*;
use crate::order::{total_order, at_most, less, greater, lemma_trichotomy, lemma_le_trans};
use crate::priority_queue::slice_swap;

verus! {

/// An arithmetic expression over `i32`.
#[derive(Debug)]
pub enum Expr {
    Num(i32),
    Add(Box<Expr>, Box<Expr>),
    Mul(Box<Expr>, Box<Expr>),
    Sub(Box<Expr>, Box<Expr>),
}

/// The value of an expression, in mathematical integers.
pub open spec fn value(e: Expr) -> int
    decreases e,
{
    match e {
        Expr::Num(n) => n as int,
        Expr::Add(l, r) => value(*l) + value(*r),
        Expr::Mul(l, r) => value(*l) * value(*r),
        Expr::Sub(l, r) => value(*l) - value(*r),
    }
}

/// Whether `v` fits in an `i32`.
pub open spec fn in_i32(v: int) -> bool {
    i32::MIN <= v <= i32::MAX
}

/// Whether every intermediate value of the expression fits in an `i32`.
pub open spec fn fits(e: Expr) -> bool
    decreases e,
{
    match e {
        Expr::Num(_) => true,
        Expr::Add(l, r) => fits(*l) && fits(*r) && in_i32(value(*l) + value(*r)),
        Expr::Mul(l, r) => fits(*l) && fits(*r) && in_i32(value(*l) * value(*r)),
        Expr::Sub(l, r) => fits(*l) && fits(*r) && in_i32(value(*l) - value(*r)),
    }
}

/// `rayon::join` on the evaluation of two subexpressions: both closures run (possibly
/// in parallel) and the pair of their results comes back; each closure is the verified
/// `parallel_eval`.
#[verifier::external_body]
fn eval_both(left: &Expr, right: &Expr) -> (r: (i32, i32))
    requires
        fits(*left),
        fits(*right),
    ensures
        r.0 == value(*left),
        r.1 == value(*right),
{
    rayon::join(|| left.parallel_eval(), || right.parallel_eval())
}

impl Expr {
    /// The value of the expression, evaluating the two sides of each operator in
    /// parallel.
    pub fn parallel_eval(&self) -> (r: i32)
        requires
            fits(*self),
        ensures
            r == value(*self),
    {
        match self {
            Expr::Num(n) => *n,
            Expr::Add(left, right) => {
                let (l, r) = eval_both(left, right);
                l + r
            },
            Expr::Mul(left, right) => {
                let (l, r) = eval_both(left, right);
                l * r
            },
            Expr::Sub(left, right) => {
                let (l, r) = eval_both(left, right);
                l - r
            },
        }
    }
}

/// The Fibonacci numbers.
pub open spec fn fib(n: nat) -> nat
    decreases n,
{
    if n <= 1 {
        n
    } else {
        fib((n - 1) as nat) + fib((n - 2) as nat)
    }
}

/// Fibonacci numbers do not decrease.
pub proof fn lemma_fib_monotone(i: nat, j: nat)
    requires
        i <= j,
    ensures
        fib(i) <= fib(j),
    decreases j - i,
{
    if i < j {
        lemma_fib_monotone(i, (j - 1) as nat);
        if j >= 2 {
            assert(fib(j) == fib((j - 1) as nat) + fib((j - 2) as nat));
        }
    }
}

/// The `n`th Fibonacci number, iteratively.
pub fn fib_sequential(n: u32) -> (r: u64)
    requires
        fib(n as nat) <= u64::MAX,
    ensures
        r == fib(n as nat),
{
    if n <= 1 {
        return n as u64;
    }
    let mut a: u64 = 0;
    let mut b: u64 = 1;
    let mut k: u32 = 1;
    while k < n
        invariant
            1 <= k <= n,
            fib(n as nat) <= u64::MAX,
            a == fib((k - 1) as nat),
            b == fib(k as nat),
        decreases n - k,
    {
        proof {
            lemma_fib_monotone((k + 1) as nat, n as nat);
        }
        let c = a + b;
        a = b;
        b = c;
        k = k + 1;
    }
    b
}

/// `rayon::join` on the two smaller Fibonacci numbers: both closures run (possibly in
/// parallel) and the pair of their results comes back; each closure is the verified
/// `parallel_fib`.
#[verifier::external_body]
fn fib_both(n: u32) -> (r: (u64, u64))
    requires
        n >= 2,
        fib((n - 1) as nat) <= u64::MAX,
        fib((n - 2) as nat) <= u64::MAX,
    ensures
        r.0 == fib((n - 1) as nat),
        r.1 == fib((n - 2) as nat),
{
    rayon::join(|| parallel_fib(n - 1), || parallel_fib(n - 2))
}

/// The `n`th Fibonacci number, splitting into parallel halves from 20 on.
pub fn parallel_fib(n: u32) -> (r: u64)
    requires
        fib(n as nat) <= u64::MAX,
    ensures
        r == fib(n as nat),
{
    if n <= 1 {
        return n as u64;
    }
    if n < 20 {
        return fib_sequential(n);
    }
    proof {
        lemma_fib_monotone((n - 1) as nat, n as nat);
        lemma_fib_monotone((n - 2) as nat, n as nat);
    }
    let (a, b) = fib_both(n);
    a + b
}

/// Whether `s` is in order.
pub open spec fn in_order<T: PartialOrd>(s: Seq<T>) -> bool {
    forall|i: int, j: int| 0 <= i < j < s.len() ==> at_most(#[trigger] s[i], #[trigger] s[j])
}

/// Swapping two elements keeps the multiset.
proof fn lemma_swap_multiset<T>(s: Seq<T>, i: int, j: int)
    requires
        0 <= i < s.len(),
        0 <= j < s.len(),
    ensures
        s.update(i, s[j]).update(j, s[i]).to_multiset() == s.to_multiset(),
{
    broadcast use vstd::seq_lib::group_to_multiset_ensures;
    broadcast use vstd::multiset::group_multiset_axioms;

    let s1 = s.update(i, s[j]);
    assert(s1.to_multiset() == s.to_multiset().insert(s[j]).remove(s[i]));
    assert(s1[j] == s[j]);
    assert(s1.update(j, s[i]).to_multiset() == s1.to_multiset().insert(s[i]).remove(s1[j]));
    assert(s1.update(j, s[i]).to_multiset() =~= s.to_multiset());
}

/// Moves the middle element to its sorted place: the elements before it are at most it
/// and those after it are greater; returns its index.
pub fn partition<T: Ord>(arr: &mut [T]) -> (r: usize)
    requires
        old(arr)@.len() >= 1,
        total_order::<T>(),
    ensures
        r < final(arr)@.len(),
        final(arr)@.len() == old(arr)@.len(),
        final(arr)@.to_multiset() == old(arr)@.to_multiset(),
        forall|k: int| 0 <= k < r ==> at_most(#[trigger] final(arr)@[k], final(arr)@[r as int]),
        forall|k: int| r < k < final(arr)@.len() ==> greater(#[trigger] final(arr)@[k], final(arr)@[r as int]),
{
    let len = arr.len();
    let pivot_idx = len / 2;
    proof {
        lemma_swap_multiset(arr@, pivot_idx as int, len - 1);
    }
    slice_swap(arr, pivot_idx, len - 1);
    let ghost orig = old(arr)@;
    let ghost pivot = arr@[len - 1];
    let mut i: usize = 0;
    let mut j: usize = 0;
    while j < len - 1
        invariant
            len == arr@.len(),
            len >= 1,
            total_order::<T>(),
            0 <= i <= j <= len - 1,
            arr@[len - 1] == pivot,
            arr@.to_multiset() == orig.to_multiset(),
            forall|k: int| 0 <= k < i ==> at_most(#[trigger] arr@[k], pivot),
            forall|k: int| i <= k < j ==> greater(#[trigger] arr@[k], pivot),
        decreases len - 1 - j,
    {
        let keep = arr[j] <= arr[len - 1];
        proof {
            lemma_trichotomy(arr@[j as int], pivot);
        }
        if keep {
            let ghost before = arr@;
            proof {
                lemma_swap_multiset(arr@, i as int, j as int);
            }
            slice_swap(arr, i, j);
            assert forall|k: int| 0 <= k < i + 1 implies at_most(#[trigger] arr@[k], pivot) by {
                if k == i {
                    assert(arr@[k] == before[j as int]);
                } else {
                    assert(arr@[k] == before[k]);
                }
            }
            assert forall|k: int| i + 1 <= k < j + 1 implies greater(#[trigger] arr@[k], pivot) by {
                if k == j {
                    assert(arr@[k] == before[i as int]);
                } else {
                    assert(arr@[k] == before[k]);
                }
            }
            i = i + 1;
        }
        j = j + 1;
    }
    let ghost before = arr@;
    proof {
        lemma_swap_multiset(arr@, i as int, len - 1);
    }
    slice_swap(arr, i, len - 1);
    assert(arr@[i as int] == pivot);
    assert forall|k: int| 0 <= k < i implies at_most(#[trigger] arr@[k], arr@[i as int]) by {
        assert(arr@[k] == before[k]);
    }
    assert forall|k: int| i < k < len implies greater(#[trigger] arr@[k], arr@[i as int]) by {
        if k == len - 1 {
            assert(arr@[k] == before[i as int]);
            if i < len - 1 {
                assert(greater(before[i as int], pivot));
            }
        } else {
            assert(arr@[k] == before[k]);
        }
    }
    i
}

/// An element of a sequence with the same multiset as `s` is an element of `s`.
proof fn lemma_same_multiset_member<T>(s: Seq<T>, t: Seq<T>, k: int)
    requires
        s.to_multiset() == t.to_multiset(),
        0 <= k < t.len(),
    ensures
        exists|m: int| 0 <= m < s.len() && s[m] == t[k],
{
    broadcast use vstd::seq_lib::group_to_multiset_ensures;

    assert(t.contains(t[k]));
    assert(t.to_multiset().count(t[k]) > 0);
    assert(s.contains(t[k]));
}

/// Putting sorted sides around a pivot that parts them gives a sorted sequence with the
/// elements of both sides.
proof fn lemma_join_sorted<T: PartialOrd>(l0: Seq<T>, r0: Seq<T>, l1: Seq<T>, r1: Seq<T>)
    requires
        total_order::<T>(),
        r0.len() >= 1,
        l1.to_multiset() == l0.to_multiset(),
        in_order(l1),
        r1.len() == r0.len(),
        r1[0] == r0[0],
        r1.drop_first().to_multiset() == r0.drop_first().to_multiset(),
        in_order(r1.drop_first()),
        forall|k: int| 0 <= k < l0.len() ==> at_most(#[trigger] l0[k], r0[0]),
        forall|k: int| 1 <= k < r0.len() ==> greater(#[trigger] r0[k], r0[0]),
    ensures
        in_order(l1 + r1),
        (l1 + r1).to_multiset() == (l0 + r0).to_multiset(),
{
    broadcast use vstd::seq_lib::group_to_multiset_ensures;
    broadcast use vstd::multiset::group_multiset_axioms;

    let pivot = r0[0];
    let t0 = r0.drop_first();
    let t1 = r1.drop_first();
    assert(r0 =~= seq![pivot] + t0);
    assert(r1 =~= seq![pivot] + t1);
    vstd::seq_lib::lemma_multiset_commutative(l1, r1);
    vstd::seq_lib::lemma_multiset_commutative(l0, r0);
    vstd::seq_lib::lemma_multiset_commutative(seq![pivot], t0);
    vstd::seq_lib::lemma_multiset_commutative(seq![pivot], t1);
    assert((l1 + r1).to_multiset() =~= (l0 + r0).to_multiset());
    // every element of the sorted left side is at most the pivot
    assert forall|a: int| 0 <= a < l1.len() implies at_most(#[trigger] l1[a], pivot) by {
        lemma_same_multiset_member(l0, l1, a);
    }
    // every element of the sorted right tail is greater than the pivot
    assert forall|b: int| 0 <= b < t1.len() implies greater(#[trigger] t1[b], pivot) by {
        lemma_same_multiset_member(t0, t1, b);
        let m = choose|m: int| 0 <= m < t0.len() && t0[m] == t1[b];
        assert(t0[m] == r0[m + 1]);
    }
    let w = l1 + r1;
    let n = l1.len() as int;
    assert forall|i: int, j: int| 0 <= i < j < w.len() implies at_most(#[trigger] w[i], #[trigger] w[j]) by {
        if j < n {
            assert(w[i] == l1[i] && w[j] == l1[j]);
        } else if i < n {
            assert(w[i] == l1[i]);
            assert(at_most(l1[i], pivot));
            if j == n {
                assert(w[j] == pivot);
            } else {
                assert(w[j] == t1[j - n - 1]);
                lemma_trichotomy(t1[j - n - 1], pivot);
                lemma_le_trans(l1[i], pivot, t1[j - n - 1]);
            }
        } else if i == n {
            assert(w[i] == pivot);
            assert(w[j] == t1[j - n - 1]);
            lemma_trichotomy(t1[j - n - 1], pivot);
        } else {
            assert(w[i] == t1[i - n - 1] && w[j] == t1[j - n - 1]);
        }
    }
}

/// `rayon::join` on sorting the two sides of the pivot: both closures run (possibly in
/// parallel); each is the verified `parallel_quicksort`, on the part before the pivot
/// and on the part after it.
#[verifier::external_body]
fn sort_sides<T: Ord + Send>(left: &mut [T], right: &mut [T])
    requires
        total_order::<T>(),
        old(right)@.len() >= 1,
    ensures
        final(left)@.len() == old(left)@.len(),
        final(left)@.to_multiset() == old(left)@.to_multiset(),
        in_order(final(left)@),
        final(right)@.len() == old(right)@.len(),
        final(right)@[0] == old(right)@[0],
        final(right)@.drop_first().to_multiset() == old(right)@.drop_first().to_multiset(),
        in_order(final(right)@.drop_first()),
{
    rayon::join(|| parallel_quicksort(left), || parallel_quicksort(&mut right[1..]));
}

/// Sorts the slice: partitions it around its middle element and sorts the two sides in
/// parallel.
pub fn parallel_quicksort<T: Ord + Send>(arr: &mut [T])
    requires
        total_order::<T>(),
    ensures
        final(arr)@.len() == old(arr)@.len(),
        final(arr)@.to_multiset() == old(arr)@.to_multiset(),
        in_order(final(arr)@),
{
    if arr.len() <= 1 {
        return;
    }
    let pivot_idx = partition(arr);
    let ghost parted = arr@;
    let (left, right) = arr.split_at_mut(pivot_idx);
    let ghost l0 = left@;
    let ghost r0 = right@;
    assert(l0 =~= parted.subrange(0, pivot_idx as int));
    assert(r0 =~= parted.subrange(pivot_idx as int, parted.len() as int));
    assert(parted =~= l0 + r0);
    assert forall|k: int| 0 <= k < l0.len() implies at_most(#[trigger] l0[k], r0[0]) by {
        assert(l0[k] == parted[k]);
    }
    assert forall|k: int| 1 <= k < r0.len() implies greater(#[trigger] r0[k], r0[0]) by {
        assert(r0[k] == parted[pivot_idx + k]);
    }
    sort_sides(left, right);
    proof {
        lemma_join_sorted(l0, r0, left@, right@);
    }
}

} // verus!
