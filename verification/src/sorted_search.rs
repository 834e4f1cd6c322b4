//! Binary search over sorted slices: exact lookup, lower and upper bounds, range queries,
//! prefix search for auto-completion, merging of sorted sequences and a sorted set.
use vstd::prelude::*;
use core::cmp::Ordering;
use vstd::std_specs::cmp::PartialOrdSpecImpl;
use vstd::multiset::Multiset;
use crate::text::{chars_of, is_prefix_of, lex_less, chars_lex_less, chars_start_with};
use crate::order::{
    total_order, less, greater, at_most, eq_in_order, lemma_trichotomy, lemma_le_trans,
    lemma_le_refl, lemma_le_lt_trans, lemma_lt_le_trans, lemma_total_order_obeys, lawful_comparisons,
};

verus! {

/// Every item is at most every later item.
pub open spec fn sorted<T: PartialOrd>(s: Seq<T>) -> bool {
    forall|i: int, j: int| 0 <= i <= j < s.len() ==> at_most(#[trigger] s[i], #[trigger] s[j])
}

/// Every item is at most the next one.
pub open spec fn adjacent_sorted<T: PartialOrd>(s: Seq<T>) -> bool {
    forall|i: int| 0 <= i < s.len() - 1 ==> at_most(#[trigger] s[i], s[i + 1])
}

/// `k` splits `s` into the items below `t` and the items not below `t`.
pub open spec fn splits_below<T: PartialOrd>(s: Seq<T>, t: T, k: int) -> bool {
    &&& 0 <= k <= s.len()
    &&& forall|i: int| 0 <= i < k ==> less(#[trigger] s[i], t)
    &&& forall|i: int| k <= i < s.len() ==> !less(#[trigger] s[i], t)
}

/// `k` splits `s` into the items at most `t` and the items above `t`.
pub open spec fn splits_at_most<T: PartialOrd>(s: Seq<T>, t: T, k: int) -> bool {
    &&& 0 <= k <= s.len()
    &&& forall|i: int| 0 <= i < k ==> at_most(#[trigger] s[i], t)
    &&& forall|i: int| k <= i < s.len() ==> greater(#[trigger] s[i], t)
}

/// In a sorted slice, an item below `t` has only items below `t` before it.
proof fn lemma_below_prefix<T: PartialOrd>(s: Seq<T>, t: T, m: int)
    requires
        total_order::<T>(),
        sorted(s),
        0 <= m < s.len(),
        less(s[m], t),
    ensures
        forall|i: int| 0 <= i <= m ==> less(#[trigger] s[i], t),
{
    assert forall|i: int| 0 <= i <= m implies less(#[trigger] s[i], t) by {
        lemma_le_lt_trans(s[i], s[m], t);
    }
}

/// In a sorted slice, an item not below `t` has only such items after it.
proof fn lemma_not_below_suffix<T: PartialOrd>(s: Seq<T>, t: T, m: int)
    requires
        total_order::<T>(),
        sorted(s),
        0 <= m < s.len(),
        !less(s[m], t),
    ensures
        forall|i: int| m <= i < s.len() ==> !less(#[trigger] s[i], t),
{
    assert forall|i: int| m <= i < s.len() implies !less(#[trigger] s[i], t) by {
        lemma_trichotomy(s[m], t);
        lemma_trichotomy(s[i], t);
        if less(s[i], t) {
            lemma_le_lt_trans(s[m], s[i], t);
        }
    }
}

/// In a sorted slice, an item at most `t` has only such items before it.
proof fn lemma_at_most_prefix<T: PartialOrd>(s: Seq<T>, t: T, m: int)
    requires
        total_order::<T>(),
        sorted(s),
        0 <= m < s.len(),
        at_most(s[m], t),
    ensures
        forall|i: int| 0 <= i <= m ==> at_most(#[trigger] s[i], t),
{
    assert forall|i: int| 0 <= i <= m implies at_most(#[trigger] s[i], t) by {
        lemma_le_trans(s[i], s[m], t);
    }
}

/// In a sorted slice, an item above `t` has only such items after it.
proof fn lemma_above_suffix<T: PartialOrd>(s: Seq<T>, t: T, m: int)
    requires
        total_order::<T>(),
        sorted(s),
        0 <= m < s.len(),
        greater(s[m], t),
    ensures
        forall|i: int| m <= i < s.len() ==> greater(#[trigger] s[i], t),
{
    assert forall|i: int| m <= i < s.len() implies greater(#[trigger] s[i], t) by {
        lemma_trichotomy(s[m], t);
        lemma_trichotomy(s[i], t);
        lemma_lt_le_trans(t, s[m], s[i]);
    }
}

/// Finds an index holding an item equal (in the order) to `target`.
pub fn binary_search_exact<T: PartialOrd>(arr: &[T], target: &T) -> (r: Option<usize>)
    ensures
        match r {
            Some(i) => i < arr@.len() && (total_order::<T>() ==> eq_in_order(arr@[i as int], *target)),
            None => total_order::<T>() && sorted(arr@) ==> forall|i: int|
                0 <= i < arr@.len() ==> !eq_in_order(#[trigger] arr@[i], *target),
        },
{
    let mut left: usize = 0;
    let mut right: usize = arr.len();
    while left < right
        invariant
            left <= right <= arr@.len(),
            total_order::<T>() && sorted(arr@) ==> forall|i: int|
                0 <= i < left ==> less(#[trigger] arr@[i], *target),
            total_order::<T>() && sorted(arr@) ==> forall|i: int|
                right <= i < arr@.len() ==> greater(#[trigger] arr@[i], *target),
        decreases right - left,
    {
        let mid = left + (right - left) / 2;
        if arr[mid] < *target {
            proof {
                if total_order::<T>() && sorted(arr@) {
                    lemma_total_order_obeys::<T>();
                    lemma_below_prefix(arr@, *target, mid as int);
                }
            }
            left = mid + 1;
        } else if arr[mid] > *target {
            proof {
                if total_order::<T>() && sorted(arr@) {
                    lemma_total_order_obeys::<T>();
                    lemma_above_suffix(arr@, *target, mid as int);
                }
            }
            right = mid;
        } else {
            proof {
                if total_order::<T>() {
                    lemma_total_order_obeys::<T>();
                    lemma_trichotomy(arr@[mid as int], *target);
                }
            }
            return Some(mid);
        }
    }
    proof {
        if total_order::<T>() && sorted(arr@) {
            assert forall|i: int| 0 <= i < arr@.len() implies !eq_in_order(
                #[trigger] arr@[i],
                *target,
            ) by {
                lemma_trichotomy(arr@[i], *target);
            }
        }
    }
    None
}

/// The first index whose item is not below `target` (the insertion point before equal
/// items).
pub fn binary_search_lower_bound<T: PartialOrd>(arr: &[T], target: &T) -> (r: usize)
    ensures
        r <= arr@.len(),
        total_order::<T>() && sorted(arr@) ==> splits_below(arr@, *target, r as int),
{
    let mut left: usize = 0;
    let mut right: usize = arr.len();
    while left < right
        invariant
            left <= right <= arr@.len(),
            total_order::<T>() && sorted(arr@) ==> forall|i: int|
                0 <= i < left ==> less(#[trigger] arr@[i], *target),
            total_order::<T>() && sorted(arr@) ==> forall|i: int|
                right <= i < arr@.len() ==> !less(#[trigger] arr@[i], *target),
        decreases right - left,
    {
        let mid = left + (right - left) / 2;
        if arr[mid] < *target {
            proof {
                if total_order::<T>() && sorted(arr@) {
                    lemma_total_order_obeys::<T>();
                    lemma_below_prefix(arr@, *target, mid as int);
                }
            }
            left = mid + 1;
        } else {
            proof {
                if total_order::<T>() && sorted(arr@) {
                    lemma_total_order_obeys::<T>();
                    lemma_not_below_suffix(arr@, *target, mid as int);
                }
            }
            right = mid;
        }
    }
    left
}

/// The first index whose item is above `target` (the insertion point after equal items).
pub fn binary_search_upper_bound<T: PartialOrd>(arr: &[T], target: &T) -> (r: usize)
    ensures
        r <= arr@.len(),
        total_order::<T>() && sorted(arr@) ==> splits_at_most(arr@, *target, r as int),
{
    let mut left: usize = 0;
    let mut right: usize = arr.len();
    while left < right
        invariant
            left <= right <= arr@.len(),
            total_order::<T>() && sorted(arr@) ==> forall|i: int|
                0 <= i < left ==> at_most(#[trigger] arr@[i], *target),
            total_order::<T>() && sorted(arr@) ==> forall|i: int|
                right <= i < arr@.len() ==> greater(#[trigger] arr@[i], *target),
        decreases right - left,
    {
        let mid = left + (right - left) / 2;
        if arr[mid] <= *target {
            proof {
                if total_order::<T>() && sorted(arr@) {
                    lemma_total_order_obeys::<T>();
                    lemma_at_most_prefix(arr@, *target, mid as int);
                }
            }
            left = mid + 1;
        } else {
            proof {
                if total_order::<T>() && sorted(arr@) {
                    lemma_total_order_obeys::<T>();
                    lemma_trichotomy(arr@[mid as int], *target);
                    lemma_above_suffix(arr@, *target, mid as int);
                }
            }
            right = mid;
        }
    }
    left
}

/// Under a total order, neighbouring pairs in order make the whole sequence sorted.
pub proof fn lemma_adjacent_sorted<T: PartialOrd>(s: Seq<T>)
    requires
        total_order::<T>(),
        adjacent_sorted(s),
    ensures
        sorted(s),
{
    assert forall|i: int, j: int| 0 <= i <= j < s.len() implies at_most(
        #[trigger] s[i],
        #[trigger] s[j],
    ) by {
        lemma_adjacent_chain(s, i, j);
    }
}

proof fn lemma_adjacent_chain<T: PartialOrd>(s: Seq<T>, i: int, j: int)
    requires
        total_order::<T>(),
        adjacent_sorted(s),
        0 <= i <= j < s.len(),
    ensures
        at_most(s[i], s[j]),
    decreases j - i,
{
    if i == j {
        lemma_le_refl(s[i]);
    } else {
        lemma_adjacent_chain(s, i, j - 1);
        assert(at_most(s[j - 1], s[j - 1 + 1]));
        lemma_le_trans(s[i], s[j - 1], s[j]);
    }
}

/// Whether every item is at most the next one.
pub fn is_sorted<T: PartialOrd>(arr: &[T]) -> (r: bool)
    ensures
        lawful_comparisons::<T>() ==> r == adjacent_sorted(arr@),
        total_order::<T>() ==> r == sorted(arr@),
{
    let n = arr.len();
    let mut i: usize = 1;
    if n == 0 {
        proof {
            if total_order::<T>() {
                lemma_adjacent_sorted(arr@);
            }
        }
        return true;
    }
    while i < n
        invariant
            n == arr@.len(),
            1 <= i <= n,
            lawful_comparisons::<T>() ==> forall|k: int|
                0 <= k < i - 1 ==> at_most(#[trigger] arr@[k], arr@[k + 1]),
        decreases n - i,
    {
        if !(arr[i - 1] <= arr[i]) {
            proof {
                if total_order::<T>() {
                    lemma_total_order_obeys::<T>();
                    assert(!sorted(arr@)) by {
                        assert(!at_most(arr@[i - 1], arr@[i as int]));
                    }
                }
                if lawful_comparisons::<T>() {
                    assert(!at_most(arr@[i - 1], arr@[i - 1 + 1]));
                }
            }
            return false;
        }
        i = i + 1;
    }
    proof {
        if total_order::<T>() {
            lemma_total_order_obeys::<T>();
            lemma_adjacent_sorted(arr@);
        }
    }
    true
}

/// The items of `s` from index `lo` up to `hi` are exactly those between `start` and
/// `end`: `lo` splits off the items below `start`, `hi` those above `end`.
pub open spec fn range_bounds<T: PartialOrd>(s: Seq<T>, start: T, end: T, lo: int, hi: int) -> bool {
    &&& lo <= hi
    &&& splits_below(s, start, lo)
    &&& splits_at_most(s, end, hi)
}

/// In a sorted slice with `start <= end`, the lower bound of `start` is at most the
/// upper bound of `end`.
proof fn lemma_bounds_ordered<T: PartialOrd>(s: Seq<T>, start: T, end: T, lo: int, hi: int)
    requires
        total_order::<T>(),
        at_most(start, end),
        splits_below(s, start, lo),
        splits_at_most(s, end, hi),
    ensures
        lo <= hi,
{
    if hi < lo {
        assert(less(s[hi], start));
        assert(greater(s[hi], end));
        lemma_trichotomy(s[hi], end);
        lemma_lt_le_trans(end, s[hi], s[hi]);
        lemma_le_refl(s[hi]);
        lemma_le_lt_trans(start, end, s[hi]);
        lemma_trichotomy(start, s[hi]);
    }
}

/// The items between `start` and `end`, inclusive, of a sorted slice; empty when the
/// slice is empty or `start > end`.
pub fn range_query<'a, T: PartialOrd>(arr: &'a [T], start: &T, end: &T) -> (r: &'a [T])
    ensures
        exists|lo: int, hi: int| 0 <= lo <= hi <= arr@.len() && r@ == arr@.subrange(lo, hi),
        total_order::<T>() && (arr@.len() == 0 || greater(*start, *end)) ==> r@.len() == 0,
        total_order::<T>() && sorted(arr@) && arr@.len() > 0 && !greater(*start, *end)
            ==> exists|lo: int, hi: int|
            range_bounds(arr@, *start, *end, lo, hi) && r@ == arr@.subrange(lo, hi),
{
    if arr.len() == 0 || *start > *end {
        proof {
            assert(arr@.subrange(0, 0).len() == 0);
        }
        return &arr[0..0];
    }
    let begin = binary_search_lower_bound(arr, start);
    let end_idx = binary_search_upper_bound(arr, end);
    proof {
        if total_order::<T>() && sorted(arr@) {
            lemma_total_order_obeys::<T>();
            lemma_trichotomy(*start, *end);
            lemma_bounds_ordered(arr@, *start, *end, begin as int, end_idx as int);
        }
    }
    if begin > end_idx {
        return &arr[0..0];
    }
    let r = &arr[begin..end_idx];
    proof {
        if total_order::<T>() && sorted(arr@) {
            lemma_total_order_obeys::<T>();
            assert(range_bounds(arr@, *start, *end, begin as int, end_idx as int));
        }
    }
    r
}

/// How many items of a sorted slice lie between `start` and `end`, inclusive.
pub fn count_in_range<T: PartialOrd>(arr: &[T], start: &T, end: &T) -> (r: usize)
    ensures
        r <= arr@.len(),
        total_order::<T>() && greater(*start, *end) ==> r == 0,
        total_order::<T>() && sorted(arr@) && !greater(*start, *end) ==> exists|lo: int, hi: int|
            range_bounds(arr@, *start, *end, lo, hi) && r == hi - lo,
{
    if *start > *end {
        proof {
            lemma_total_order_obeys_if::<T>();
        }
        return 0;
    }
    let begin = binary_search_lower_bound(arr, start);
    let end_idx = binary_search_upper_bound(arr, end);
    proof {
        if total_order::<T>() && sorted(arr@) {
            lemma_total_order_obeys::<T>();
            lemma_trichotomy(*start, *end);
            lemma_bounds_ordered(arr@, *start, *end, begin as int, end_idx as int);
            assert(range_bounds(arr@, *start, *end, begin as int, end_idx as int));
        }
    }
    end_idx.saturating_sub(begin)
}

/// Under a total order, the comparison operators are lawful.
proof fn lemma_total_order_obeys_if<T: PartialOrd>()
    ensures
        total_order::<T>() ==> lawful_comparisons::<T>(),
{
    if total_order::<T>() {
        lemma_total_order_obeys::<T>();
    }
}

/// A log line; log entries order by timestamp alone.
#[derive(Debug, Clone, PartialEq, Eq)]
pub struct LogEntry {
    pub timestamp: u64,
    pub level: String,
    pub message: String,
}

impl PartialOrd for LogEntry {
    fn partial_cmp(&self, other: &Self) -> (r: Option<Ordering>) {
        if self.timestamp < other.timestamp {
            Some(Ordering::Less)
        } else if self.timestamp == other.timestamp {
            Some(Ordering::Equal)
        } else {
            Some(Ordering::Greater)
        }
    }
}

impl PartialOrdSpecImpl for LogEntry {
    open spec fn obeys_partial_cmp_spec() -> bool {
        true
    }

    open spec fn partial_cmp_spec(&self, other: &Self) -> Option<Ordering> {
        if self.timestamp < other.timestamp {
            Some(Ordering::Less)
        } else if self.timestamp == other.timestamp {
            Some(Ordering::Equal)
        } else {
            Some(Ordering::Greater)
        }
    }
}

/// Log entries are totally preordered by their timestamps.
pub proof fn lemma_log_order()
    ensures
        total_order::<LogEntry>(),
        forall|a: LogEntry, b: LogEntry| less(a, b) <==> a.timestamp < b.timestamp,
        forall|a: LogEntry, b: LogEntry| at_most(a, b) <==> a.timestamp <= b.timestamp,
        forall|a: LogEntry, b: LogEntry| greater(a, b) <==> a.timestamp > b.timestamp,
{
}

/// The timestamps never decrease along the sequence.
pub open spec fn time_sorted(logs: Seq<LogEntry>) -> bool {
    forall|i: int, j: int| 0 <= i <= j < logs.len() ==> #[trigger] logs[i].timestamp <= #[trigger] logs[j].timestamp
}

/// The entries of a log sorted by time whose timestamps lie in `[start_time, end_time]`.
pub fn query_logs_by_time(logs: &[LogEntry], start_time: u64, end_time: u64) -> (r: &[LogEntry])
    ensures
        exists|lo: int, hi: int| 0 <= lo <= hi <= logs@.len() && r@ == logs@.subrange(lo, hi),
        logs@.len() == 0 || start_time > end_time ==> r@.len() == 0,
        time_sorted(logs@) && logs@.len() > 0 && start_time <= end_time ==> exists|lo: int, hi: int|
            {
                &&& 0 <= lo <= hi <= logs@.len()
                &&& r@ == logs@.subrange(lo, hi)
                &&& forall|i: int| 0 <= i < lo ==> #[trigger] logs@[i].timestamp < start_time
                &&& forall|i: int| lo <= i < hi ==> start_time <= #[trigger] logs@[i].timestamp <= end_time
                &&& forall|i: int| hi <= i < logs@.len() ==> #[trigger] logs@[i].timestamp > end_time
            },
{
    let start = LogEntry { timestamp: start_time, level: String::new(), message: String::new() };
    let end = LogEntry { timestamp: end_time, level: String::new(), message: String::new() };
    proof {
        lemma_log_order();
        if time_sorted(logs@) {
            assert forall|i: int, j: int| 0 <= i <= j < logs@.len() implies at_most(
                #[trigger] logs@[i],
                #[trigger] logs@[j],
            ) by {
                assert(logs@[i].timestamp <= logs@[j].timestamp);
            }
        }
    }
    let r = range_query(logs, &start, &end);
    proof {
        if time_sorted(logs@) && logs@.len() > 0 && start_time <= end_time {
            assert(sorted(logs@));
            assert(!greater(start, end));
            let (lo, hi) = choose|lo: int, hi: int|
                range_bounds(logs@, start, end, lo, hi) && r@ == logs@.subrange(lo, hi);
            assert(forall|i: int| 0 <= i < lo ==> #[trigger] logs@[i].timestamp < start_time) by {
                assert forall|i: int| 0 <= i < lo implies #[trigger] logs@[i].timestamp < start_time by {
                    assert(less(logs@[i], start));
                }
            }
            assert(forall|i: int| lo <= i < hi ==> start_time <= #[trigger] logs@[i].timestamp <= end_time) by {
                assert forall|i: int| lo <= i < hi implies start_time <= #[trigger] logs@[i].timestamp <= end_time by {
                    assert(!less(logs@[i], start));
                    assert(at_most(logs@[i], end));
                }
            }
            assert(forall|i: int| hi <= i < logs@.len() ==> #[trigger] logs@[i].timestamp > end_time) by {
                assert forall|i: int| hi <= i < logs@.len() implies #[trigger] logs@[i].timestamp > end_time by {
                    assert(greater(logs@[i], end));
                }
            }
        }
    }
    r
}

/// The words below `p` (lexicographically) all come before the others, as a sorted list
/// has them.
pub open spec fn lex_partitioned(words: Seq<String>, p: Seq<char>) -> bool {
    forall|i: int, j: int|
        0 <= i <= j < words.len() && lex_less(#[trigger] words[j]@, p) ==> lex_less(
            #[trigger] words[i]@,
            p,
        )
}

/// `words[lo..hi]` is the run of words that start with `p`, beginning where the words
/// stop being below `p` (for a list partitioned by `p`) and ending at the first word
/// without the prefix.
pub open spec fn prefix_block(words: Seq<String>, p: Seq<char>, lo: int, hi: int) -> bool {
    &&& 0 <= lo <= hi <= words.len()
    &&& forall|i: int| lo <= i < hi ==> is_prefix_of(p, #[trigger] words[i]@)
    &&& hi < words.len() ==> !is_prefix_of(p, words[hi]@)
    &&& lex_partitioned(words, p) ==> forall|i: int| 0 <= i < lo ==> lex_less(#[trigger] words[i]@, p)
    &&& lex_partitioned(words, p) ==> forall|i: int| lo <= i < words.len() ==> !lex_less(#[trigger] words[i]@, p)
}

/// The words of a sorted word list that start with `prefix` (all of them for an empty
/// prefix).
pub fn prefix_search<'a>(words: &'a [String], prefix: &str) -> (r: &'a [String])
    ensures
        prefix@.len() == 0 ==> r@ == words@,
        prefix@.len() > 0 ==> exists|lo: int, hi: int|
            prefix_block(words@, prefix@, lo, hi) && r@ == words@.subrange(lo, hi),
{
    if prefix.is_empty() {
        return words;
    }
    let p = chars_of(prefix);
    let mut left: usize = 0;
    let mut right: usize = words.len();
    while left < right
        invariant
            left <= right <= words@.len(),
            p@ == prefix@,
            lex_partitioned(words@, p@) ==> forall|i: int| 0 <= i < left ==> lex_less(#[trigger] words@[i]@, p@),
            lex_partitioned(words@, p@) ==> forall|i: int|
                right <= i < words@.len() ==> !lex_less(#[trigger] words@[i]@, p@),
        decreases right - left,
    {
        let mid = left + (right - left) / 2;
        let w = chars_of(words[mid].as_str());
        if chars_lex_less(w.as_slice(), p.as_slice()) {
            left = mid + 1;
        } else {
            right = mid;
        }
    }
    let start = left;
    let mut end = start;
    while end < words.len()
        invariant
            start <= end <= words@.len(),
            p@ == prefix@,
            forall|i: int| start <= i < end ==> is_prefix_of(p@, #[trigger] words@[i]@),
        ensures
            start <= end <= words@.len(),
            forall|i: int| start <= i < end ==> is_prefix_of(p@, #[trigger] words@[i]@),
            end < words@.len() ==> !is_prefix_of(p@, words@[end as int]@),
        decreases words@.len() - end,
    {
        let w = chars_of(words[end].as_str());
        if !chars_start_with(w.as_slice(), p.as_slice()) {
            break;
        }
        end = end + 1;
    }
    let r = &words[start..end];
    assert(prefix_block(words@, prefix@, start as int, end as int));
    r
}

/// No word comes before a smaller one.
pub open spec fn sorted_words(words: Seq<String>) -> bool {
    forall|i: int, j: int| 0 <= i < j < words.len() ==> !lex_less(#[trigger] words[j]@, #[trigger] words[i]@)
}

/// The stored words as character sequences.
pub open spec fn word_views(words: Seq<String>) -> Seq<Seq<char>> {
    words.map_values(|w: String| w@)
}

/// Sorts strings into lexicographic order (`slice::sort`, a stable sort by `String`'s
/// `Ord`, which compares the characters lexicographically): the result is a permutation
/// of the input with no word before a smaller one.
#[verifier::external_body]
fn sort_strings(v: &mut Vec<String>)
    ensures
        final(v)@.len() == old(v)@.len(),
        word_views(final(v)@).to_multiset() == word_views(old(v)@).to_multiset(),
        sorted_words(final(v)@),
{
    v.sort();
}

/// Keeps the first of each run of equal neighbouring words.
fn dedup_sorted(words: &Vec<String>) -> (out: Vec<String>)
    ensures
        out@.len() <= words@.len(),
        forall|i: int| 0 <= i < out@.len() - 1 ==> #[trigger] out@[i]@ != out@[i + 1]@,
        forall|w: Seq<char>| word_views(out@).contains(w) <==> word_views(words@).contains(w),
        sorted_words(words@) ==> sorted_words(out@),
{
    let mut out: Vec<String> = Vec::new();
    let ghost mut origin: Seq<int> = Seq::empty();
    let ghost mut image: Seq<int> = Seq::empty();
    let mut i: usize = 0;
    while i < words.len()
        invariant
            i <= words@.len(),
            out@.len() <= i,
            origin.len() == out@.len(),
            image.len() == i,
            forall|k: int| 0 <= k < out@.len() ==> 0 <= #[trigger] origin[k] < i && out@[k] == words@[origin[k]],
            forall|k: int, l: int| 0 <= k < l < out@.len() ==> #[trigger] origin[k] < #[trigger] origin[l],
            forall|k: int| 0 <= k < out@.len() - 1 ==> #[trigger] out@[k]@ != out@[k + 1]@,
            i > 0 ==> out@.len() > 0 && out@[out@.len() - 1]@ == words@[i - 1]@,
            forall|j: int| 0 <= j < i ==> 0 <= #[trigger] image[j] < out@.len() && words@[j]@ == out@[image[j]]@,
        decreases words@.len() - i,
    {
        let keep = if out.len() == 0 {
            true
        } else {
            let last = out.len() - 1;
            !(out[last] == words[i])
        };
        if keep {
            out.push(words[i].clone());
            proof {
                origin = origin.push(i as int);
            }
        }
        proof {
            image = image.push(out@.len() - 1);
        }
        i = i + 1;
    }
    proof {
        assert forall|w: Seq<char>| word_views(out@).contains(w) <==> word_views(words@).contains(w) by {
            if word_views(out@).contains(w) {
                let k = choose|k: int| 0 <= k < word_views(out@).len() && word_views(out@)[k] == w;
                assert(word_views(words@)[origin[k]] == w);
            }
            if word_views(words@).contains(w) {
                let j = choose|j: int| 0 <= j < word_views(words@).len() && word_views(words@)[j] == w;
                assert(word_views(out@)[image[j]] == w);
            }
        }
        if sorted_words(words@) {
            assert forall|a: int, b: int| 0 <= a < b < out@.len() implies !lex_less(
                #[trigger] out@[b]@,
                #[trigger] out@[a]@,
            ) by {
                assert(origin[a] < origin[b]);
                assert(!lex_less(words@[origin[b]]@, words@[origin[a]]@));
            }
        }
    }
    out
}

/// The first `limit` words of `matches` (all of them when there are fewer), as string
/// slices.
fn first_views<'a>(matches: &'a [String], limit: usize) -> (r: Vec<&'a str>)
    ensures
        r@.len() == if matches@.len() < limit { matches@.len() as int } else { limit as int },
        forall|j: int| 0 <= j < r@.len() ==> (#[trigger] r@[j])@ == matches@[j]@,
{
    let mut out: Vec<&str> = Vec::new();
    let mut k: usize = 0;
    while k < matches.len() && k < limit
        invariant
            k <= matches@.len(),
            k <= limit,
            out@.len() == k,
            forall|j: int| 0 <= j < k ==> (#[trigger] out@[j])@ == matches@[j]@,
        decreases matches@.len() - k,
    {
        out.push(matches[k].as_str());
        k = k + 1;
    }
    out
}

/// A word list for prefix completion, kept sorted and free of duplicates.
#[derive(Debug)]
pub struct AutoComplete {
    words: Vec<String>,
}

impl AutoComplete {
    /// The stored words.
    pub closed spec fn stored(&self) -> Seq<String> {
        self.words@
    }

    /// The stored words, in order, as character sequences.
    pub closed spec fn entries(&self) -> Seq<Seq<char>> {
        word_views(self.words@)
    }

    /// No word comes before a smaller one, and neighbours differ.
    pub closed spec fn wf(&self) -> bool {
        &&& sorted_words(self.words@)
        &&& forall|i: int| 0 <= i < self.words@.len() - 1 ==> #[trigger] self.words@[i]@ != self.words@[i + 1]@
    }

    /// Sorts the words and drops duplicates.
    pub fn new(words: Vec<String>) -> (r: Self)
        ensures
            r.wf(),
            forall|w: Seq<char>| r.entries().contains(w) <==> word_views(words@).contains(w),
    {
        let mut words = words;
        let ghost input = words@;
        sort_strings(&mut words);
        proof {
            assert forall|w: Seq<char>| word_views(words@).contains(w) <==> word_views(input).contains(w) by {
                assert(word_views(words@).to_multiset().count(w) == word_views(input).to_multiset().count(w));
                vstd::seq_lib::to_multiset_contains(word_views(words@), w);
                vstd::seq_lib::to_multiset_contains(word_views(input), w);
            }
        }
        let deduped = dedup_sorted(&words);
        let r = AutoComplete { words: deduped };
        proof {
            assert(forall|i: int| 0 <= i < r.words@.len() - 1 ==> #[trigger] r.words@[i]@ != r.words@[i + 1]@);
        }
        r
    }

    /// Up to ten stored words that start with `prefix`, in order.
    pub fn suggest(&self, prefix: &str) -> (r: Vec<&str>)
        requires
            self.wf(),
        ensures
            prefix@.len() == 0 ==> r@.len() == if self.entries().len() < 10 { self.entries().len() } else { 10 },
            prefix@.len() == 0 ==> forall|k: int| 0 <= k < r@.len() ==> (#[trigger] r@[k])@ == self.entries()[k],
            prefix@.len() > 0 ==> exists|lo: int, hi: int| {
                &&& prefix_block(self.stored(), prefix@, lo, hi)
                &&& r@.len() == if hi - lo < 10 { hi - lo } else { 10 }
                &&& forall|k: int| 0 <= k < r@.len() ==> (#[trigger] r@[k])@ == self.entries()[lo + k]
            },
    {
        let matches = prefix_search(self.words.as_slice(), prefix);
        let out = first_views(matches, 10);
        proof {
            assert(self.entries().len() == self.words@.len());
            if prefix@.len() == 0 {
                assert(forall|j: int| 0 <= j < out@.len() ==> (#[trigger] out@[j])@ == self.entries()[j]);
            } else {
                let (lo, hi) = choose|lo: int, hi: int|
                    prefix_block(self.words@, prefix@, lo, hi) && matches@ == self.words@.subrange(lo, hi);
                assert(forall|j: int| 0 <= j < out@.len() ==> (#[trigger] out@[j])@ == self.entries()[lo + j]);
                assert(prefix_block(self.stored(), prefix@, lo, hi));
            }
        }
        out
    }

    /// Every stored word that starts with `prefix`, in order.
    pub fn suggest_all(&self, prefix: &str) -> (r: Vec<&str>)
        requires
            self.wf(),
        ensures
            prefix@.len() == 0 ==> r@.len() == self.entries().len(),
            prefix@.len() == 0 ==> forall|k: int| 0 <= k < r@.len() ==> (#[trigger] r@[k])@ == self.entries()[k],
            prefix@.len() > 0 ==> exists|lo: int, hi: int| {
                &&& prefix_block(self.stored(), prefix@, lo, hi)
                &&& r@.len() == hi - lo
                &&& forall|k: int| 0 <= k < r@.len() ==> (#[trigger] r@[k])@ == self.entries()[lo + k]
            },
    {
        let matches = prefix_search(self.words.as_slice(), prefix);
        let out = first_views(matches, matches.len());
        proof {
            assert(self.entries().len() == self.words@.len());
            if prefix@.len() == 0 {
                assert(forall|j: int| 0 <= j < out@.len() ==> (#[trigger] out@[j])@ == self.entries()[j]);
            } else {
                let (lo, hi) = choose|lo: int, hi: int|
                    prefix_block(self.words@, prefix@, lo, hi) && matches@ == self.words@.subrange(lo, hi);
                assert(forall|j: int| 0 <= j < out@.len() ==> (#[trigger] out@[j])@ == self.entries()[lo + j]);
                assert(prefix_block(self.stored(), prefix@, lo, hi));
            }
        }
        out
    }

    /// The number of distinct words stored.
    pub fn word_count(&self) -> (r: usize)
        ensures
            r == self.entries().len(),
    {
        self.words.len()
    }
}

/// The stable merge of two sequences: the smaller head goes first, the left one on ties.
pub open spec fn merged<T: PartialOrd>(l: Seq<T>, r: Seq<T>) -> Seq<T>
    decreases l.len() + r.len(),
{
    if l.len() == 0 {
        r
    } else if r.len() == 0 {
        l
    } else if at_most(l[0], r[0]) {
        seq![l[0]] + merged(l.drop_first(), r)
    } else {
        seq![r[0]] + merged(l, r.drop_first())
    }
}

/// `b` holds, position by position, clones of the items of `a`.
pub open spec fn clones_of<T: Clone>(a: Seq<T>, b: Seq<T>) -> bool {
    a.len() == b.len() && forall|k: int| 0 <= k < a.len() ==> cloned(#[trigger] a[k], b[k])
}

/// Merges two sorted slices into one sorted vector; on equal items the left one comes
/// first.
pub fn merge_two<T: PartialOrd + Clone>(left: &[T], right: &[T]) -> (result: Vec<T>)
    ensures
        result@.len() == left@.len() + right@.len(),
        lawful_comparisons::<T>() ==> clones_of(merged(left@, right@), result@),
{
    let mut result: Vec<T> = Vec::new();
    let mut i: usize = 0;
    let mut j: usize = 0;
    let ghost mut done: Seq<T> = Seq::empty();
    assert(left@.skip(0) =~= left@);
    assert(right@.skip(0) =~= right@);
    while i < left.len() && j < right.len()
        invariant
            i <= left@.len(),
            j <= right@.len(),
            result@.len() == i + j,
            done.len() == i + j,
            lawful_comparisons::<T>() ==> merged(left@, right@) == done + merged(left@.skip(i as int), right@.skip(j as int)),
            lawful_comparisons::<T>() ==> clones_of(done, result@),
        decreases left@.len() + right@.len() - i - j,
    {
        let ghost ls = left@.skip(i as int);
        let ghost rs = right@.skip(j as int);
        if left[i] <= right[j] {
            result.push(left[i].clone());
            proof {
                assert(ls.drop_first() =~= left@.skip(i + 1));
                assert(ls[0] == left@[i as int]);
                assert(rs[0] == right@[j as int]);
                let old_done = done;
                done = done.push(left@[i as int]);
                if lawful_comparisons::<T>() {
                    assert(merged(ls, rs) == seq![ls[0]] + merged(ls.drop_first(), rs));
                    assert(old_done + merged(ls, rs) =~= done + merged(left@.skip(i + 1), rs));
                }
            }
            i = i + 1;
        } else {
            result.push(right[j].clone());
            proof {
                assert(rs.drop_first() =~= right@.skip(j + 1));
                assert(ls[0] == left@[i as int]);
                assert(rs[0] == right@[j as int]);
                let old_done = done;
                done = done.push(right@[j as int]);
                if lawful_comparisons::<T>() {
                    assert(merged(ls, rs) == seq![rs[0]] + merged(ls, rs.drop_first()));
                    assert(old_done + merged(ls, rs) =~= done + merged(ls, right@.skip(j + 1)));
                }
            }
            j = j + 1;
        }
    }
    let ghost before = result@;
    if i < left.len() {
        result.extend_from_slice(&left[i..left.len()]);
        proof {
            if lawful_comparisons::<T>() {
                assert(right@.skip(j as int).len() == 0);
                assert(merged(left@.skip(i as int), right@.skip(j as int)) == left@.skip(i as int));
                assert forall|k: int| 0 <= k < merged(left@, right@).len() implies cloned(
                    #[trigger] merged(left@, right@)[k],
                    result@[k],
                ) by {
                    if k >= before.len() {
                        assert(merged(left@, right@)[k] == left@.skip(i as int)[k - before.len()]);
                    } else {
                        assert(merged(left@, right@)[k] == done[k]);
                    }
                }
            }
        }
    } else if j < right.len() {
        result.extend_from_slice(&right[j..right.len()]);
        proof {
            if lawful_comparisons::<T>() {
                assert(left@.skip(i as int).len() == 0);
                assert(merged(left@.skip(i as int), right@.skip(j as int)) == right@.skip(j as int));
                assert forall|k: int| 0 <= k < merged(left@, right@).len() implies cloned(
                    #[trigger] merged(left@, right@)[k],
                    result@[k],
                ) by {
                    if k >= before.len() {
                        assert(merged(left@, right@)[k] == right@.skip(j as int)[k - before.len()]);
                    } else {
                        assert(merged(left@, right@)[k] == done[k]);
                    }
                }
            }
        }
    } else {
        proof {
            if lawful_comparisons::<T>() {
                assert(left@.skip(i as int).len() == 0);
                assert(merged(left@.skip(i as int), right@.skip(j as int)) =~= Seq::<T>::empty());
                assert(merged(left@, right@) =~= done);
            }
        }
    }
    result
}

/// A set kept as a strictly increasing vector.
#[derive(Debug, Clone)]
pub struct SortedVec<T> {
    data: Vec<T>,
}

impl<T: PartialOrd> SortedVec<T> {
    /// The items, in increasing order.
    pub closed spec fn items(&self) -> Seq<T> {
        self.data@
    }

    /// Every item is below the next, so no two are equal.
    pub open spec fn wf(&self) -> bool {
        forall|i: int, j: int| 0 <= i < j < self.items().len() ==> less(#[trigger] self.items()[i], #[trigger] self.items()[j])
    }

    /// An empty set.
    pub fn new() -> (r: Self)
        ensures
            r.items() == Seq::<T>::empty(),
            r.wf(),
    {
        SortedVec { data: Vec::new() }
    }

    /// Inserts `value` at its place unless an equal item is present; reports whether it
    /// was inserted.
    pub fn insert(&mut self, value: T) -> (r: bool)
        ensures
            r ==> final(self).items().len() == old(self).items().len() + 1,
            !r ==> final(self).items() == old(self).items(),
            total_order::<T>() && old(self).wf() ==> {
                &&& final(self).wf()
                &&& r <==> forall|i: int| 0 <= i < old(self).items().len() ==> !eq_in_order(#[trigger] old(self).items()[i], value)
                &&& r ==> exists|k: int| 0 <= k <= old(self).items().len() && final(self).items() == old(self).items().insert(k, value)
                &&& exists|k: int| 0 <= k < final(self).items().len() && eq_in_order(#[trigger] final(self).items()[k], value)
            },
    {
        let idx = binary_search_lower_bound(self.data.as_slice(), &value);
        let found = idx < self.data.len() && !(value < self.data[idx]);
        proof {
            if total_order::<T>() && old(self).wf() {
                lemma_total_order_obeys::<T>();
                lemma_strict_sorted(self.data@);
            }
        }
        if found {
            proof {
                if total_order::<T>() && old(self).wf() {
                    lemma_trichotomy(self.data@[idx as int], value);
                    lemma_trichotomy(value, self.data@[idx as int]);
                }
            }
            false
        } else {
            let ghost before = self.data@;
            self.data.insert(idx, value);
            proof {
                if total_order::<T>() && old(self).wf() {
                    let v = self.data@[idx as int];
                    assert forall|i: int| 0 <= i < before.len() implies !eq_in_order(#[trigger] before[i], v) by {
                        lemma_trichotomy(before[i], v);
                        if i >= idx {
                            lemma_trichotomy(v, before[idx as int]);
                            lemma_le_refl(before[idx as int]);
                            lemma_trichotomy(before[idx as int], before[i]);
                            lemma_lt_le_trans(v, before[idx as int], before[i]);
                            lemma_trichotomy(v, before[i]);
                        }
                    }
                    assert forall|a: int, b: int| 0 <= a < b < self.data@.len() implies less(#[trigger] self.data@[a], #[trigger] self.data@[b]) by {
                        if b == idx {
                            assert(self.data@[a] == before[a]);
                        } else if a == idx {
                            assert(self.data@[b] == before[b - 1]);
                            lemma_trichotomy(v, before[idx as int]);
                            lemma_trichotomy(before[idx as int], v);
                            if b - 1 > idx {
                                assert(less(before[idx as int], before[b - 1]));
                                lemma_trichotomy(before[idx as int], before[b - 1]);
                                lemma_le_lt_trans(v, before[idx as int], before[b - 1]);
                            }
                        } else if a < idx && b > idx {
                            assert(self.data@[a] == before[a]);
                            assert(self.data@[b] == before[b - 1]);
                        } else if b < idx {
                        } else {
                            assert(self.data@[a] == before[a - 1]);
                            assert(self.data@[b] == before[b - 1]);
                        }
                    }
                }
            }
            proof {
                if total_order::<T>() && old(self).wf() {
                    lemma_trichotomy(value, value);
                    assert(self.data@[idx as int] == value);
                    assert(eq_in_order(self.data@[idx as int], value));
                }
            }
            true
        }
    }

    /// Removes the item equal to `value`, if present; reports whether one was removed.
    pub fn remove(&mut self, value: &T) -> (r: bool)
        ensures
            r ==> final(self).items().len() + 1 == old(self).items().len(),
            !r ==> final(self).items() == old(self).items(),
            r ==> exists|k: int| 0 <= k < old(self).items().len() && final(self).items() == old(self).items().remove(k),
            total_order::<T>() && old(self).wf() ==> {
                &&& final(self).wf()
                &&& r <==> exists|i: int| 0 <= i < old(self).items().len() && eq_in_order(#[trigger] old(self).items()[i], *value)
                &&& r ==> exists|k: int| 0 <= k < old(self).items().len() && eq_in_order(old(self).items()[k], *value) && final(self).items() == old(self).items().remove(k)
            },
    {
        let idx = binary_search_lower_bound(self.data.as_slice(), value);
        let found = idx < self.data.len() && !(*value < self.data[idx]);
        proof {
            if total_order::<T>() && old(self).wf() {
                lemma_total_order_obeys::<T>();
                lemma_strict_sorted(self.data@);
            }
        }
        if found {
            let ghost before = self.data@;
            proof {
                if total_order::<T>() && old(self).wf() {
                    lemma_trichotomy(before[idx as int], *value);
                    lemma_trichotomy(*value, before[idx as int]);
                }
            }
            self.data.remove(idx);
            proof {
                assert(self.data@ == before.remove(idx as int));
                if total_order::<T>() && old(self).wf() {
                    assert forall|a: int, b: int| 0 <= a < b < self.data@.len() implies less(#[trigger] self.data@[a], #[trigger] self.data@[b]) by {
                        if a < idx && b >= idx {
                            assert(self.data@[b] == before[b + 1]);
                        } else if a >= idx {
                            assert(self.data@[a] == before[a + 1]);
                            assert(self.data@[b] == before[b + 1]);
                        }
                    }
                }
            }
            true
        } else {
            proof {
                if total_order::<T>() && old(self).wf() {
                    assert forall|i: int| 0 <= i < self.data@.len() implies !eq_in_order(#[trigger] self.data@[i], *value) by {
                        lemma_trichotomy(self.data@[i], *value);
                        if i >= idx {
                            lemma_trichotomy(*value, self.data@[idx as int]);
                            lemma_le_refl(self.data@[idx as int]);
                            lemma_trichotomy(self.data@[idx as int], self.data@[i]);
                            lemma_lt_le_trans(*value, self.data@[idx as int], self.data@[i]);
                            lemma_trichotomy(*value, self.data@[i]);
                        }
                    }
                }
            }
            false
        }
    }

    /// Whether an item equal to `value` is present.
    pub fn contains(&self, value: &T) -> (r: bool)
        ensures
            total_order::<T>() && self.wf() ==> (r <==> exists|i: int| 0 <= i < self.items().len() && eq_in_order(#[trigger] self.items()[i], *value)),
    {
        let idx = binary_search_lower_bound(self.data.as_slice(), value);
        proof {
            if total_order::<T>() && self.wf() {
                lemma_total_order_obeys::<T>();
                lemma_strict_sorted(self.data@);
            }
        }
        let found = idx < self.data.len() && !(*value < self.data[idx]);
        proof {
            if total_order::<T>() && self.wf() {
                if found {
                    lemma_trichotomy(self.data@[idx as int], *value);
                    lemma_trichotomy(*value, self.data@[idx as int]);
                } else {
                    assert forall|i: int| 0 <= i < self.data@.len() implies !eq_in_order(#[trigger] self.data@[i], *value) by {
                        lemma_trichotomy(self.data@[i], *value);
                        if i >= idx {
                            lemma_trichotomy(*value, self.data@[idx as int]);
                            lemma_le_refl(self.data@[idx as int]);
                            lemma_trichotomy(self.data@[idx as int], self.data@[i]);
                            lemma_lt_le_trans(*value, self.data@[idx as int], self.data@[i]);
                            lemma_trichotomy(*value, self.data@[i]);
                        }
                    }
                }
            }
        }
        found
    }

    /// The items between `start` and `end`, inclusive.
    pub fn range(&self, start: &T, end: &T) -> (r: &[T])
        ensures
            exists|lo: int, hi: int| 0 <= lo <= hi <= self.items().len() && r@ == self.items().subrange(lo, hi),
            total_order::<T>() && (self.items().len() == 0 || greater(*start, *end)) ==> r@.len() == 0,
            total_order::<T>() && self.wf() && self.items().len() > 0 && !greater(*start, *end) ==> exists|lo: int, hi: int|
                range_bounds(self.items(), *start, *end, lo, hi) && r@ == self.items().subrange(lo, hi),
    {
        proof {
            if total_order::<T>() && self.wf() {
                lemma_strict_sorted(self.data@);
            }
        }
        let r = range_query(self.data.as_slice(), start, end);
        proof {
            let (lo, hi) = choose|lo: int, hi: int| 0 <= lo <= hi <= self.data@.len() && r@ == self.data@.subrange(lo, hi);
            assert(0 <= lo <= hi <= self.items().len() && r@ == self.items().subrange(lo, hi));
        }
        r
    }

    /// The number of items.
    pub fn len(&self) -> (r: usize)
        ensures
            r == self.items().len(),
    {
        self.data.len()
    }

    /// Whether the set is empty.
    pub fn is_empty(&self) -> (r: bool)
        ensures
            r == (self.items().len() == 0),
    {
        self.data.len() == 0
    }

    /// The items in increasing order.
    pub fn as_slice(&self) -> (r: &[T])
        ensures
            r@ == self.items(),
    {
        self.data.as_slice()
    }
}

/// A strictly increasing sequence is sorted.
proof fn lemma_strict_sorted<T: PartialOrd>(s: Seq<T>)
    requires
        total_order::<T>(),
        forall|i: int, j: int| 0 <= i < j < s.len() ==> less(#[trigger] s[i], #[trigger] s[j]),
    ensures
        sorted(s),
{
    assert forall|i: int, j: int| 0 <= i <= j < s.len() implies at_most(#[trigger] s[i], #[trigger] s[j]) by {
        if i == j {
            lemma_le_refl(s[i]);
        } else {
            lemma_trichotomy(s[i], s[j]);
        }
    }
}

/// The sizes that a collection comparison runs over.
pub struct CollectionBenchmark {
    sizes: Vec<usize>,
}

impl CollectionBenchmark {
    /// A comparison over the given sizes.
    pub fn new(sizes: Vec<usize>) -> (r: Self)
        ensures
            r.sizes() == sizes@,
    {
        CollectionBenchmark { sizes }
    }

    /// The sizes to run.
    pub closed spec fn sizes(&self) -> Seq<usize> {
        self.sizes@
    }

    /// The sizes to run.
    pub fn size_list(&self) -> (r: &[usize])
        ensures
            r@ == self.sizes(),
    {
        self.sizes.as_slice()
    }
}

/// Which collection suits a workload: a hash set when neither order nor ranges matter,
/// a B-tree for large or write-heavy workloads, otherwise a sorted vector for range
/// queries and a B-tree for ordered iteration.
pub open spec fn recommended(size: usize, needs_ordering: bool, needs_ranges: bool, write_heavy: bool) -> Seq<char> {
    if !needs_ordering && !needs_ranges {
        "HashSet"@
    } else if size > 1000 || write_heavy {
        "BTreeSet"@
    } else if needs_ranges {
        "SortedVec"@
    } else {
        "BTreeSet"@
    }
}

/// The collection recommended for a workload (see `recommended`).
pub fn recommend_collection(size: usize, needs_ordering: bool, needs_ranges: bool, write_heavy: bool) -> (r: &'static str)
    ensures
        r@ == recommended(size, needs_ordering, needs_ranges, write_heavy),
{
    if !needs_ordering && !needs_ranges {
        return "HashSet";
    }
    if size > 1000 || write_heavy {
        return "BTreeSet";
    }
    if needs_ranges {
        "SortedVec"
    } else {
        "BTreeSet"
    }
}

} // verus!
