//! A small backtracking regular-expression engine: a parse tree, a recursive-descent
//! parser, structural analyses, a simplifier and a matcher whose answers are proved
//! against a declarative semantics of the tree.
use vstd::prelude::*;
use crate::text::{chars_of, string_from_chars, owned, append_str, decimal, decimal_chars, byte_offset, byte_offset_of, byte_pos, lemma_byte_offset_monotone, is_prefix_of, chars_start_with};

verus! {

/// What an anchor asserts about the position it stands at.
#[derive(Debug, Clone, Copy, PartialEq, Eq)]
pub enum AnchorKind {
    StartOfLine,
    EndOfLine,
    WordBoundary,
}

/// A parsed regular expression.
#[derive(Debug, PartialEq)]
pub enum Regex {
    Empty,
    Literal(String),
    Char(char),
    Wildcard,
    Sequence(Vec<Regex>),
    CharClass { ranges: Vec<(char, char)>, chars: Vec<char>, negated: bool },
    Repeat { expr: Box<Regex>, min: usize, max: Option<usize> },
    Alternation(Vec<Regex>),
    Group { id: usize, expr: Box<Regex> },
    Anchor(AnchorKind),
}

/// The number of capture groups in the tree (each `Group` counts once).
pub open spec fn group_count(r: Regex) -> nat
    decreases r,
{
    match r {
        Regex::Group { expr, .. } => 1 + group_count(*expr),
        Regex::Sequence(xs) => group_count_all(xs@),
        Regex::Alternation(xs) => group_count_all(xs@),
        Regex::Repeat { expr, .. } => group_count(*expr),
        _ => 0,
    }
}

/// The number of capture groups in a list of trees.
pub open spec fn group_count_all(xs: Seq<Regex>) -> nat
    decreases xs,
{
    if xs.len() == 0 {
        0
    } else {
        group_count_all(xs.drop_last()) + group_count(xs.last())
    }
}

/// Counts the capture groups; saturates at `usize::MAX`.
pub fn count_groups(regex: &Regex) -> (r: usize)
    ensures
        r == if group_count(*regex) <= usize::MAX { group_count(*regex) } else { usize::MAX as nat },
    decreases regex,
{
    match regex {
        Regex::Group { expr, .. } => {
            let inner = count_groups(expr);
            inner.saturating_add(1)
        },
        Regex::Sequence(xs) => count_groups_all(xs),
        Regex::Alternation(xs) => count_groups_all(xs),
        Regex::Repeat { expr, .. } => count_groups(expr),
        _ => 0,
    }
}

fn count_groups_all(xs: &Vec<Regex>) -> (r: usize)
    ensures
        r == if group_count_all(xs@) <= usize::MAX { group_count_all(xs@) } else { usize::MAX as nat },
    decreases xs,
{
    let mut total: usize = 0;
    let mut i: usize = 0;
    while i < xs.len()
        invariant
            i <= xs@.len(),
            total == if group_count_all(xs@.subrange(0, i as int)) <= usize::MAX {
                group_count_all(xs@.subrange(0, i as int))
            } else {
                usize::MAX as nat
            },
        decreases xs@.len() - i,
    {
        proof {
            assert(decreases_to!(xs => xs@[i as int]));
        }
        let c = count_groups(&xs[i]);
        proof {
            assert(xs@.subrange(0, i + 1).drop_last() =~= xs@.subrange(0, i as int));
        }
        total = total.saturating_add(c);
        i = i + 1;
    }
    assert(xs@.subrange(0, xs@.len() as int) =~= xs@);
    total
}

/// Whether `c` lies in the inclusive character range `[lo, hi]`.
pub open spec fn in_range(lo: char, hi: char, c: char) -> bool {
    (lo as u32) <= (c as u32) && (c as u32) <= (hi as u32)
}

/// Whether a character class admits `c`: it is listed or lies in a range, flipped for a
/// negated class.
pub open spec fn in_class(ranges: Seq<(char, char)>, chars: Seq<char>, negated: bool, c: char) -> bool {
    (chars.contains(c) || exists|k: int| 0 <= k < ranges.len() && in_range(ranges[k].0, ranges[k].1, c)) != negated
}

/// ASCII letters, digits and underscore.
pub open spec fn is_word(c: char) -> bool {
    ||| in_range('a', 'z', c)
    ||| in_range('A', 'Z', c)
    ||| in_range('0', '9', c)
    ||| c == '_'
}

/// A word boundary: exactly one of the characters around position `p` is a word
/// character.
pub open spec fn at_word_boundary(t: Seq<char>, p: int) -> bool {
    (p > 0 && is_word(t[p - 1])) != (p < t.len() && is_word(t[p]))
}

/// Whether an anchor holds at position `p` of `t`.
pub open spec fn anchor_holds(kind: AnchorKind, t: Seq<char>, p: int) -> bool {
    match kind {
        AnchorKind::StartOfLine => p == 0,
        AnchorKind::EndOfLine => p == t.len(),
        AnchorKind::WordBoundary => at_word_boundary(t, p),
    }
}

/// Whether `r` matches the characters `t[i..j]`. A repeat matches `n` consecutive
/// matches of its body for any `n` from `min` up to `max` (exactly `min` when `max` is
/// below `min`).
pub open spec fn accepts(r: Regex, t: Seq<char>, i: int, j: int) -> bool
    decreases r, 0nat,
{
    match r {
        Regex::Empty => 0 <= i == j <= t.len(),
        Regex::Literal(s) => 0 <= i && j == i + s@.len() && j <= t.len() && t.subrange(i, j) == s@,
        Regex::Char(c) => 0 <= i && j == i + 1 && j <= t.len() && t[i] == c,
        Regex::Wildcard => 0 <= i && j == i + 1 && j <= t.len(),
        Regex::CharClass { ranges, chars, negated } => 0 <= i && j == i + 1 && j <= t.len() && in_class(ranges@, chars@, negated, t[i]),
        Regex::Anchor(kind) => 0 <= i == j <= t.len() && anchor_holds(kind, t, i),
        Regex::Sequence(xs) => accepts_seq(xs@, t, i, j),
        Regex::Alternation(xs) => exists|k: int| 0 <= k < xs@.len() && accepts(xs@[k], t, i, j),
        Regex::Group { expr, .. } => accepts(*expr, t, i, j),
        Regex::Repeat { expr, min, max } => exists|n: nat| #![trigger repeat_count_ok(min, max, n)]
            repeat_count_ok(min, max, n) && accepts_times(*expr, n, t, i, j),
    }
}

/// Whether a repeat with bounds `min` and `max` may run `n` times.
pub open spec fn repeat_count_ok(min: usize, max: Option<usize>, n: nat) -> bool {
    min <= n && match max {
        Some(m) => n <= m || n == min,
        None => true,
    }
}

/// Names a position where a match is split in two; it holds everywhere and serves to
/// find the split point in proofs.
pub open spec fn split_at(m: int) -> bool {
    true
}

/// The expressions of `xs`, one after another, match `t[i..j]`.
pub open spec fn accepts_seq(xs: Seq<Regex>, t: Seq<char>, i: int, j: int) -> bool
    decreases xs, 0nat,
{
    if xs.len() == 0 {
        0 <= i == j <= t.len()
    } else {
        exists|m: int| #![trigger split_at(m)] split_at(m) && accepts_seq(xs.drop_last(), t, i, m) && accepts(xs.last(), t, m, j)
    }
}

/// `n` consecutive matches of `e` cover `t[i..j]`.
pub open spec fn accepts_times(e: Regex, n: nat, t: Seq<char>, i: int, j: int) -> bool
    decreases e, n,
{
    if n == 0 {
        0 <= i == j <= t.len()
    } else {
        exists|m: int| #![trigger split_at(m)] split_at(m) && accepts_times(e, (n - 1) as nat, t, i, m) && accepts(e, t, m, j)
    }
}

/// A matched span: byte offsets into the searched text and the matched text.
#[derive(Debug, Clone, PartialEq)]
pub struct Match {
    pub start: usize,
    pub end: usize,
    pub text: String,
}

/// The whole match and the latest match of each capture group.
#[derive(Debug, Clone, PartialEq)]
pub struct Captures {
    pub full_match: Option<Match>,
    pub groups: Vec<Option<Match>>,
}

impl Captures {
    /// No match yet, with room for `group_count` groups.
    pub fn new(group_count: usize) -> (r: Self)
        ensures
            r.full_match is None,
            r.groups@.len() == group_count,
            forall|k: int| 0 <= k < group_count ==> r.groups@[k] is None,
    {
        let mut groups: Vec<Option<Match>> = Vec::new();
        let mut k: usize = 0;
        while k < group_count
            invariant
                k <= group_count,
                groups@.len() == k,
                forall|j: int| 0 <= j < k ==> groups@[j] is None,
            decreases group_count - k,
        {
            groups.push(None);
            k = k + 1;
        }
        Captures { full_match: None, groups }
    }

    /// Records the span of group `id`; ids past the end are ignored.
    pub fn set_group(&mut self, id: usize, m: Match)
        ensures
            final(self).full_match == old(self).full_match,
            id < old(self).groups@.len() ==> final(self).groups@ == old(self).groups@.update(id as int, Some(m)),
            id >= old(self).groups@.len() ==> final(self).groups@ == old(self).groups@,
    {
        if id < self.groups.len() {
            self.groups.set(id, Some(m));
        }
    }
}

/// A match lies within the text and does not run backwards.
pub proof fn lemma_accepts_bounds(r: Regex, t: Seq<char>, i: int, j: int)
    requires
        accepts(r, t, i, j),
    ensures
        0 <= i <= j <= t.len(),
    decreases r, 0nat,
{
    match r {
        Regex::Sequence(xs) => {
            lemma_seq_bounds(xs@, t, i, j);
        },
        Regex::Alternation(xs) => {
            let k = choose|k: int| 0 <= k < xs@.len() && accepts(xs@[k], t, i, j);
            lemma_accepts_bounds(xs@[k], t, i, j);
        },
        Regex::Group { expr, .. } => {
            lemma_accepts_bounds(*expr, t, i, j);
        },
        Regex::Repeat { expr, min, max } => {
            let n = choose|n: nat| #[trigger] repeat_count_ok(min, max, n) && accepts_times(*expr, n, t, i, j);
            lemma_times_bounds(*expr, n, t, i, j);
        },
        _ => {},
    }
}

/// A match of a list lies within the text and does not run backwards.
pub proof fn lemma_seq_bounds(xs: Seq<Regex>, t: Seq<char>, i: int, j: int)
    requires
        accepts_seq(xs, t, i, j),
    ensures
        0 <= i <= j <= t.len(),
    decreases xs, 0nat,
{
    if xs.len() > 0 {
        let m = choose|m: int| #![trigger split_at(m)] split_at(m) && accepts_seq(xs.drop_last(), t, i, m) && accepts(xs.last(), t, m, j);
        lemma_seq_bounds(xs.drop_last(), t, i, m);
        lemma_accepts_bounds(xs.last(), t, m, j);
    }
}

/// Repeated matches lie within the text and do not run backwards.
pub proof fn lemma_times_bounds(e: Regex, n: nat, t: Seq<char>, i: int, j: int)
    requires
        accepts_times(e, n, t, i, j),
    ensures
        0 <= i <= j <= t.len(),
    decreases e, n,
{
    if n > 0 {
        let m = choose|m: int| #![trigger split_at(m)] split_at(m) && accepts_times(e, (n - 1) as nat, t, i, m) && accepts(e, t, m, j);
        lemma_times_bounds(e, (n - 1) as nat, t, i, m);
        lemma_accepts_bounds(e, t, m, j);
    }
}

/// Two patterns match the same spans of every text.
pub open spec fn equiv(a: Regex, b: Regex) -> bool {
    forall|t: Seq<char>, i: int, j: int|
        #![trigger accepts(a, t, i, j)]
        #![trigger accepts(b, t, i, j)]
        accepts(a, t, i, j) == accepts(b, t, i, j)
}

/// Two lists of patterns match the same spans of every text, one after another.
pub open spec fn seq_equiv(xs: Seq<Regex>, ys: Seq<Regex>) -> bool {
    forall|t: Seq<char>, i: int, j: int|
        #![trigger accepts_seq(xs, t, i, j)]
        #![trigger accepts_seq(ys, t, i, j)]
        accepts_seq(xs, t, i, j) == accepts_seq(ys, t, i, j)
}

/// A list matches where its first part and then its second part match.
pub proof fn lemma_seq_concat(a: Seq<Regex>, b: Seq<Regex>, t: Seq<char>, i: int, j: int)
    ensures
        accepts_seq(a + b, t, i, j) <==> exists|m: int| #![trigger split_at(m)] split_at(m) && accepts_seq(a, t, i, m)
            && accepts_seq(b, t, m, j),
    decreases b.len(),
{
    if b.len() == 0 {
        assert(a + b =~= a);
        if accepts_seq(a, t, i, j) {
            lemma_seq_bounds(a, t, i, j);
            assert(split_at(j) && accepts_seq(a, t, i, j) && accepts_seq(b, t, j, j));
        }
    } else {
        let b1 = b.drop_last();
        assert((a + b).drop_last() =~= a + b1);
        assert((a + b).last() == b.last());
        if accepts_seq(a + b, t, i, j) {
            let m1 = choose|m: int| #![trigger split_at(m)] split_at(m) && accepts_seq(a + b1, t, i, m) && accepts(b.last(), t, m, j);
            lemma_seq_concat(a, b1, t, i, m1);
            let m = choose|m: int| #![trigger split_at(m)] split_at(m) && accepts_seq(a, t, i, m) && accepts_seq(b1, t, m, m1);
            assert(split_at(m1));
            assert(accepts_seq(b, t, m, j));
        }
        if exists|m: int| #![trigger split_at(m)] split_at(m) && accepts_seq(a, t, i, m) && accepts_seq(b, t, m, j) {
            let m = choose|m: int| #![trigger split_at(m)] split_at(m) && accepts_seq(a, t, i, m) && accepts_seq(b, t, m, j);
            let m1 = choose|m1: int| #![trigger split_at(m1)] split_at(m1) && accepts_seq(b1, t, m, m1) && accepts(b.last(), t, m1, j);
            lemma_seq_concat(a, b1, t, i, m1);
            assert(accepts_seq(a + b1, t, i, m1));
            assert(accepts_seq(a + b, t, i, j));
        }
    }
}

/// A one-pattern list matches where the pattern does.
pub proof fn lemma_seq_single(x: Regex, t: Seq<char>, i: int, j: int)
    ensures
        accepts_seq(seq![x], t, i, j) == accepts(x, t, i, j),
{
    assert(seq![x].drop_last() =~= Seq::<Regex>::empty());
    assert(seq![x].last() == x);
    if accepts(x, t, i, j) {
        lemma_accepts_bounds(x, t, i, j);
        assert(split_at(i));
        assert(accepts_seq(seq![x].drop_last(), t, i, i));
        assert(accepts_seq(seq![x], t, i, j));
    }
    if accepts_seq(seq![x], t, i, j) {
        let m = choose|m: int| #![trigger split_at(m)] split_at(m) && accepts_seq(seq![x].drop_last(), t, i, m) && accepts(seq![x].last(), t, m, j);
        assert(accepts_seq(Seq::<Regex>::empty(), t, i, m));
        assert(i == m);
    }
}

/// Lists of pairwise equivalent patterns are equivalent.
pub proof fn lemma_seq_congruent(xs: Seq<Regex>, ys: Seq<Regex>, t: Seq<char>, i: int, j: int)
    requires
        xs.len() == ys.len(),
        forall|k: int| 0 <= k < xs.len() ==> equiv(#[trigger] xs[k], ys[k]),
    ensures
        accepts_seq(xs, t, i, j) == accepts_seq(ys, t, i, j),
    decreases xs.len(),
{
    if xs.len() > 0 {
        assert(equiv(xs[xs.len() - 1], ys[ys.len() - 1]));
        assert forall|k: int| 0 <= k < xs.drop_last().len() implies equiv(#[trigger] xs.drop_last()[k], ys.drop_last()[k]) by {
            assert(equiv(xs[k], ys[k]));
        }
        assert forall|m: int| #[trigger] accepts_seq(xs.drop_last(), t, i, m) == accepts_seq(ys.drop_last(), t, i, m) by {
            lemma_seq_congruent(xs.drop_last(), ys.drop_last(), t, i, m);
        }
        assert forall|m: int| #[trigger] accepts(xs.last(), t, m, j) == accepts(ys.last(), t, m, j) by {
        }
        if accepts_seq(xs, t, i, j) {
            let m = choose|m: int| #![trigger split_at(m)] split_at(m) && accepts_seq(xs.drop_last(), t, i, m) && accepts(xs.last(), t, m, j);
            assert(accepts_seq(ys.drop_last(), t, i, m));
            assert(accepts(ys.last(), t, m, j));
        }
        if accepts_seq(ys, t, i, j) {
            let m = choose|m: int| #![trigger split_at(m)] split_at(m) && accepts_seq(ys.drop_last(), t, i, m) && accepts(ys.last(), t, m, j);
            assert(accepts_seq(xs.drop_last(), t, i, m));
            assert(accepts(xs.last(), t, m, j));
        }
    }
}

/// Repeats of equivalent patterns match alike.
pub proof fn lemma_times_congruent(a: Regex, b: Regex, n: nat, t: Seq<char>, i: int, j: int)
    requires
        equiv(a, b),
    ensures
        accepts_times(a, n, t, i, j) == accepts_times(b, n, t, i, j),
    decreases n,
{
    if n > 0 {
        assert forall|m: int| #[trigger] accepts_times(a, (n - 1) as nat, t, i, m) == accepts_times(b, (n - 1) as nat, t, i, m) by {
            lemma_times_congruent(a, b, (n - 1) as nat, t, i, m);
        }
        assert forall|m: int| #[trigger] accepts(a, t, m, j) == accepts(b, t, m, j) by {
        }
        if accepts_times(a, n, t, i, j) {
            let m = choose|m: int| #![trigger split_at(m)] split_at(m) && accepts_times(a, (n - 1) as nat, t, i, m) && accepts(a, t, m, j);
            assert(accepts_times(b, (n - 1) as nat, t, i, m) && accepts(b, t, m, j));
        }
        if accepts_times(b, n, t, i, j) {
            let m = choose|m: int| #![trigger split_at(m)] split_at(m) && accepts_times(b, (n - 1) as nat, t, i, m) && accepts(b, t, m, j);
            assert(accepts_times(a, (n - 1) as nat, t, i, m) && accepts(a, t, m, j));
        }
    }
}

/// Whether one of the alternatives matches `t[i..j]`.
pub open spec fn alt_accepts(xs: Seq<Regex>, t: Seq<char>, i: int, j: int) -> bool {
    exists|k: int| 0 <= k < xs.len() && #[trigger] accepts(xs[k], t, i, j)
}

/// Whether every alternation in the tree has at least one alternative.
pub open spec fn no_empty_alt(r: Regex) -> bool
    decreases r,
{
    match r {
        Regex::Sequence(xs) => forall|k: int| 0 <= k < xs@.len() ==> no_empty_alt(#[trigger] xs@[k]),
        Regex::Alternation(xs) => xs@.len() > 0 && forall|k: int| 0 <= k < xs@.len() ==> no_empty_alt(#[trigger] xs@[k]),
        Regex::Repeat { expr, .. } => no_empty_alt(*expr),
        Regex::Group { expr, .. } => no_empty_alt(*expr),
        _ => true,
    }
}

/// `t[i..j]` spells `s`.
pub open spec fn spells(s: Seq<char>, t: Seq<char>, i: int, j: int) -> bool {
    0 <= i && j == i + s.len() && j <= t.len() && t.subrange(i, j) == s
}

/// Appending an equivalent pattern keeps two equivalent lists equivalent.
proof fn lemma_seq_push_equiv(a: Seq<Regex>, b: Seq<Regex>, x: Regex, y: Regex)
    requires
        seq_equiv(a, b),
        equiv(x, y),
    ensures
        seq_equiv(a.push(x), b.push(y)),
{
    assert forall|t: Seq<char>, i: int, j: int| accepts_seq(a.push(x), t, i, j) == accepts_seq(b.push(y), t, i, j) by {
        assert(a.push(x).drop_last() =~= a);
        assert(b.push(y).drop_last() =~= b);
        if accepts_seq(a.push(x), t, i, j) {
            let m = choose|m: int| #![trigger split_at(m)] split_at(m) && accepts_seq(a, t, i, m) && accepts(x, t, m, j);
            assert(accepts_seq(b, t, i, m) && accepts(y, t, m, j));
        }
        if accepts_seq(b.push(y), t, i, j) {
            let m = choose|m: int| #![trigger split_at(m)] split_at(m) && accepts_seq(b, t, i, m) && accepts(y, t, m, j);
            assert(accepts_seq(a, t, i, m) && accepts(x, t, m, j));
        }
    }
}

/// An empty pattern at the end of a list changes nothing.
proof fn lemma_seq_push_empty(a: Seq<Regex>)
    ensures
        seq_equiv(a.push(Regex::Empty), a),
{
    assert forall|t: Seq<char>, i: int, j: int| accepts_seq(a.push(Regex::Empty), t, i, j) == accepts_seq(a, t, i, j) by {
        assert(a.push(Regex::Empty).drop_last() =~= a);
        assert(a.push(Regex::Empty).last() == Regex::Empty);
        if accepts_seq(a, t, i, j) {
            lemma_seq_bounds(a, t, i, j);
            assert(split_at(j) && accepts_seq(a, t, i, j) && accepts(Regex::Empty, t, j, j));
            assert(accepts_seq(a.push(Regex::Empty), t, i, j));
        }
        if accepts_seq(a.push(Regex::Empty), t, i, j) {
            let m = choose|m: int| #![trigger split_at(m)] split_at(m) && accepts_seq(a.push(Regex::Empty).drop_last(), t, i, m)
                && accepts(a.push(Regex::Empty).last(), t, m, j);
            assert(accepts(Regex::Empty, t, m, j));
            assert(m == j);
        }
    }
}

/// The items of a nested sequence can stand in place of the sequence.
proof fn lemma_seq_splice(a: Seq<Regex>, x: Regex)
    requires
        x is Sequence,
    ensures
        seq_equiv(a + x->Sequence_0@, a.push(x)),
{
    let inner = x->Sequence_0@;
    assert forall|t: Seq<char>, i: int, j: int| accepts_seq(a + inner, t, i, j) == accepts_seq(a.push(x), t, i, j) by {
        lemma_seq_concat(a, inner, t, i, j);
        assert(a.push(x).drop_last() =~= a);
        if accepts_seq(a + inner, t, i, j) {
            let m = choose|m: int| #![trigger split_at(m)] split_at(m) && accepts_seq(a, t, i, m) && accepts_seq(inner, t, m, j);
            assert(accepts(x, t, m, j));
        }
        if accepts_seq(a.push(x), t, i, j) {
            let m = choose|m: int| #![trigger split_at(m)] split_at(m) && accepts_seq(a, t, i, m) && accepts(x, t, m, j);
            assert(accepts_seq(inner, t, m, j));
        }
    }
}

/// Equivalence of lists is transitive.
proof fn lemma_seq_equiv_trans(a: Seq<Regex>, b: Seq<Regex>, c: Seq<Regex>)
    requires
        seq_equiv(a, b),
        seq_equiv(b, c),
    ensures
        seq_equiv(a, c),
{
    assert forall|t: Seq<char>, i: int, j: int| accepts_seq(a, t, i, j) == accepts_seq(c, t, i, j) by {
        assert(accepts_seq(a, t, i, j) == accepts_seq(b, t, i, j));
        assert(accepts_seq(b, t, i, j) == accepts_seq(c, t, i, j));
    }
}

/// A recorded span as plain values: start byte, end byte and the matched characters.
pub open spec fn span_view(m: Match) -> (nat, nat, Seq<char>) {
    (m.start as nat, m.end as nat, m.text@)
}

/// A capture slot as plain values.
pub open spec fn slot_view(o: Option<Match>) -> Option<(nat, nat, Seq<char>)> {
    match o {
        Some(m) => Some(span_view(m)),
        None => None,
    }
}

/// The group slots of a capture record as plain values.
pub open spec fn groups_view(c: Captures) -> Seq<Option<(nat, nat, Seq<char>)>> {
    c.groups@.map_values(|o: Option<Match>| slot_view(o))
}

/// The span that a group covering `t[i..j]` records: byte offsets and its characters.
pub open spec fn span_at(t: Seq<char>, i: int, j: int) -> (nat, nat, Seq<char>) {
    (byte_pos(t, i), byte_pos(t, j), t.subrange(i, j))
}

/// The slots after group `id` records `span`; an id past the end records nothing.
pub open spec fn record(g: Seq<Option<(nat, nat, Seq<char>)>>, id: usize, span: (nat, nat, Seq<char>)) -> Seq<Option<(nat, nat, Seq<char>)>> {
    if id < g.len() {
        g.update(id as int, Some(span))
    } else {
        g
    }
}

/// Names an intermediate group record in proofs; it holds of every record.
pub open spec fn via_groups(g: Seq<Option<(nat, nat, Seq<char>)>>) -> bool {
    true
}

/// `r` matches `t[i..j]` along a path that turns the group slots `g0` into `g1`: each
/// group on the path records the span it matched, later records overwriting earlier
/// ones; nothing else changes a slot.
pub open spec fn path_groups(
    r: Regex,
    t: Seq<char>,
    i: int,
    j: int,
    g0: Seq<Option<(nat, nat, Seq<char>)>>,
    g1: Seq<Option<(nat, nat, Seq<char>)>>,
) -> bool
    decreases r, 0nat,
{
    match r {
        Regex::Sequence(xs) => seq_groups(xs@, t, i, j, g0, g1),
        Regex::Alternation(xs) => exists|k: int| #![trigger xs@[k]] 0 <= k < xs@.len() && path_groups(xs@[k], t, i, j, g0, g1),
        Regex::Group { id, expr } => exists|g: Seq<Option<(nat, nat, Seq<char>)>>| #![trigger via_groups(g)]
            via_groups(g) && path_groups(*expr, t, i, j, g0, g) && g1 == record(g, id, span_at(t, i, j)),
        Regex::Repeat { expr, min, max } => exists|n: nat| #![trigger repeat_count_ok(min, max, n)]
            repeat_count_ok(min, max, n) && times_groups(*expr, n, t, i, j, g0, g1),
        _ => accepts(r, t, i, j) && g1 == g0,
    }
}

/// The expressions of `xs`, one after another, match `t[i..j]` along a path that turns
/// the group slots `g0` into `g1`.
pub open spec fn seq_groups(
    xs: Seq<Regex>,
    t: Seq<char>,
    i: int,
    j: int,
    g0: Seq<Option<(nat, nat, Seq<char>)>>,
    g1: Seq<Option<(nat, nat, Seq<char>)>>,
) -> bool
    decreases xs, 0nat,
{
    if xs.len() == 0 {
        0 <= i == j <= t.len() && g1 == g0
    } else {
        exists|m: int, g: Seq<Option<(nat, nat, Seq<char>)>>| #![trigger split_at(m), via_groups(g)]
            split_at(m) && via_groups(g) && seq_groups(xs.drop_last(), t, i, m, g0, g) && path_groups(xs.last(), t, m, j, g, g1)
    }
}

/// `n` consecutive matches of `e` cover `t[i..j]` along a path that turns the group
/// slots `g0` into `g1`.
pub open spec fn times_groups(
    e: Regex,
    n: nat,
    t: Seq<char>,
    i: int,
    j: int,
    g0: Seq<Option<(nat, nat, Seq<char>)>>,
    g1: Seq<Option<(nat, nat, Seq<char>)>>,
) -> bool
    decreases e, n,
{
    if n == 0 {
        0 <= i == j <= t.len() && g1 == g0
    } else {
        exists|m: int, g: Seq<Option<(nat, nat, Seq<char>)>>| #![trigger split_at(m), via_groups(g)]
            split_at(m) && via_groups(g) && times_groups(e, (n - 1) as nat, t, i, m, g0, g) && path_groups(e, t, m, j, g, g1)
    }
}

/// Every result carries the whole-match slot of `caps` unchanged and the group slots of
/// a path along which `r` matches from `pos` to the result's end, starting from the
/// slots of `caps`.
pub open spec fn all_paths(r: Regex, t: Seq<char>, pos: int, caps: Captures, v: Seq<(usize, Captures)>) -> bool {
    forall|k: int| 0 <= k < v.len() ==> (#[trigger] v[k]).1.full_match == caps.full_match
        && path_groups(r, t, pos, v[k].0 as int, groups_view(caps), groups_view(v[k].1))
}

/// `n` empty group slots.
pub open spec fn blank_groups(n: nat) -> Seq<Option<(nat, nat, Seq<char>)>> {
    Seq::new(n, |k: int| None)
}

/// The number of group slots a search starts with: the tree's group count, capped at
/// `usize::MAX`.
pub open spec fn slot_count(r: Regex) -> nat {
    if group_count(r) <= usize::MAX {
        group_count(r)
    } else {
        usize::MAX as nat
    }
}

/// Two capture records hold the same slots.
pub open spec fn same_caps(a: Captures, b: Captures) -> bool {
    a.full_match == b.full_match && a.groups@ == b.groups@
}

/// A copy of a capture record.
fn copy_captures(c: &Captures) -> (r: Captures)
    ensures
        same_caps(r, *c),
{
    let full_match = match &c.full_match {
        Some(m) => Some(Match { start: m.start, end: m.end, text: m.text.clone() }),
        None => None,
    };
    let mut groups: Vec<Option<Match>> = Vec::new();
    let mut k: usize = 0;
    while k < c.groups.len()
        invariant
            k <= c.groups@.len(),
            groups@ == c.groups@.take(k as int),
        decreases c.groups@.len() - k,
    {
        let slot = match &c.groups[k] {
            Some(m) => Some(Match { start: m.start, end: m.end, text: m.text.clone() }),
            None => None,
        };
        groups.push(slot);
        proof {
            assert(c.groups@.take(k + 1) =~= c.groups@.take(k as int).push(c.groups@[k as int]));
        }
        k = k + 1;
    }
    proof {
        assert(c.groups@.take(c.groups@.len() as int) =~= c.groups@);
    }
    Captures { full_match, groups }
}

/// Every result is an end position at or after `pos` such that `r` matches `t[pos..end]`.
pub open spec fn all_sound(r: Regex, t: Seq<char>, pos: int, v: Seq<(usize, Captures)>) -> bool {
    forall|k: int| 0 <= k < v.len() ==> pos <= (#[trigger] v[k]).0 <= t.len() && accepts(r, t, pos, v[k].0 as int)
}

/// Whether the character class admits `c`.
pub fn class_admits(ranges: &Vec<(char, char)>, chars: &Vec<char>, negated: bool, c: char) -> (r: bool)
    ensures
        r == in_class(ranges@, chars@, negated, c),
{
    let mut matched = false;
    let mut i: usize = 0;
    while i < chars.len()
        invariant
            i <= chars@.len(),
            matched == exists|k: int| 0 <= k < i && chars@[k] == c,
        decreases chars@.len() - i,
    {
        if chars[i] == c {
            matched = true;
        }
        i = i + 1;
    }
    assert(matched == chars@.contains(c));
    if !matched {
        let mut k: usize = 0;
        while k < ranges.len()
            invariant
                k <= ranges@.len(),
                !chars@.contains(c),
                matched == exists|j: int| 0 <= j < k && in_range(ranges@[j].0, ranges@[j].1, c),
            decreases ranges@.len() - k,
        {
            let (lo, hi) = ranges[k];
            if (lo as u32) <= (c as u32) && (c as u32) <= (hi as u32) {
                matched = true;
            }
            k = k + 1;
        }
    }
    if negated {
        !matched
    } else {
        matched
    }
}

/// Whether `c` is an ASCII letter, digit or underscore.
pub fn is_word_char(c: char) -> (r: bool)
    ensures
        r == is_word(c),
{
    let v = c as u32;
    (('a' as u32) <= v && v <= ('z' as u32)) || (('A' as u32) <= v && v <= ('Z' as u32)) || (('0' as u32) <= v
        && v <= ('9' as u32)) || c == '_'
}

/// Whether exactly one of the characters around position `pos` is a word character.
pub fn is_word_boundary(t: &[char], pos: usize) -> (r: bool)
    requires
        pos <= t@.len(),
    ensures
        r == at_word_boundary(t@, pos as int),
{
    let before = pos > 0 && is_word_char(t[pos - 1]);
    let after = pos < t.len() && is_word_char(t[pos]);
    before != after
}

/// A fresh copy of a list of match states.
fn copy_states(v: &Vec<(usize, Captures)>) -> (r: Vec<(usize, Captures)>)
    ensures
        r@.len() == v@.len(),
        forall|k: int| 0 <= k < v@.len() ==> (#[trigger] r@[k]).0 == v@[k].0 && same_caps(r@[k].1, v@[k].1),
{
    let mut out: Vec<(usize, Captures)> = Vec::new();
    let mut i: usize = 0;
    while i < v.len()
        invariant
            i <= v@.len(),
            out@.len() == i,
            forall|k: int| 0 <= k < i ==> (#[trigger] out@[k]).0 == v@[k].0 && same_caps(out@[k].1, v@[k].1),
        decreases v@.len() - i,
    {
        let p = v[i].0;
        let c = copy_captures(&v[i].1);
        out.push((p, c));
        i = i + 1;
    }
    out
}

/// Every result comes from `n` consecutive matches of `e` for an `n` that a repeat with
/// bounds `min` and `max` allows.
pub open spec fn all_repeats(e: Regex, min: usize, max: Option<usize>, t: Seq<char>, pos: int, v: Seq<(usize, Captures)>) -> bool {
    forall|k: int| 0 <= k < v.len() ==> pos <= (#[trigger] v[k]).0 <= t.len() && exists|n: nat|
        #[trigger] repeat_count_ok(min, max, n) && accepts_times(e, n, t, pos, v[k].0 as int)
}

/// Some result ends at `j`.
pub open spec fn has_end(v: Seq<(usize, Captures)>, j: int) -> bool {
    exists|q: int| 0 <= q < v.len() && (#[trigger] v[q]).0 == j
}

/// Every end position at which `r` matches from `pos` is among the results.
pub open spec fn all_complete(r: Regex, t: Seq<char>, pos: int, v: Seq<(usize, Captures)>) -> bool {
    forall|j: int| #[trigger] accepts(r, t, pos, j) ==> has_end(v, j)
}

/// The end positions of results, in order.
pub open spec fn ends_of(v: Seq<(usize, Captures)>) -> Seq<int> {
    v.map_values(|x: (usize, Captures)| x.0 as int)
}

/// The ends of the ways `r` matches `t` from position `i`, in the order the matcher
/// tries them: the alternatives of an alternation left to right, the ways of a sequence
/// by the ways of its first parts first, and the runs of a repeat longest first (see
/// `layer_ends`). An end occurs once for each way of reaching it.
pub open spec fn match_ends(r: Regex, t: Seq<char>, i: int) -> Seq<int>
    decreases node_count(r), 0nat, 0nat,
{
    match r {
        Regex::Empty => seq![i],
        Regex::Literal(s) => if spells(s@, t, i, i + s@.len()) {
            seq![i + s@.len()]
        } else {
            Seq::empty()
        },
        Regex::Char(c) => if 0 <= i < t.len() && t[i] == c {
            seq![i + 1]
        } else {
            Seq::empty()
        },
        Regex::Wildcard => if 0 <= i < t.len() {
            seq![i + 1]
        } else {
            Seq::empty()
        },
        Regex::CharClass { ranges, chars, negated } => if 0 <= i < t.len() && in_class(ranges@, chars@, negated, t[i]) {
            seq![i + 1]
        } else {
            Seq::empty()
        },
        Regex::Anchor(kind) => if anchor_holds(kind, t, i) {
            seq![i]
        } else {
            Seq::empty()
        },
        Regex::Sequence(xs) => seq_ends(xs@, t, i),
        Regex::Alternation(xs) => alt_ends(xs@, t, i),
        Regex::Group { expr, .. } => match_ends(*expr, t, i),
        Regex::Repeat { expr, min, max } => layer_ends(
            *expr,
            min,
            max,
            t,
            times_ends(*expr, t, seq![i], min as nat),
            0,
            (t.len() - i) as nat,
        ),
    }
}

/// The ends of `e` from each start of `starts` in turn, one after another.
pub open spec fn step_all(e: Regex, t: Seq<char>, starts: Seq<int>) -> Seq<int>
    decreases node_count(e), 1nat, starts.len(),
{
    if starts.len() == 0 {
        Seq::empty()
    } else {
        step_all(e, t, starts.drop_last()) + match_ends(e, t, starts.last())
    }
}

/// The ends of the sequence `xs` from position `i`, in matching order.
pub open spec fn seq_ends(xs: Seq<Regex>, t: Seq<char>, i: int) -> Seq<int>
    decreases node_count_all(xs), 2nat, xs.len(),
{
    if xs.len() == 0 {
        seq![i]
    } else {
        step_all(xs.last(), t, seq_ends(xs.drop_last(), t, i))
    }
}

/// The ends of the alternatives `xs` from position `i`, leftmost alternative first.
pub open spec fn alt_ends(xs: Seq<Regex>, t: Seq<char>, i: int) -> Seq<int>
    decreases node_count_all(xs), 2nat, xs.len(),
{
    if xs.len() == 0 {
        Seq::empty()
    } else {
        alt_ends(xs.drop_last(), t, i) + match_ends(xs.last(), t, i)
    }
}

/// The ends of `n` matches of `e` in a row from each start of `starts`.
pub open spec fn times_ends(e: Regex, t: Seq<char>, starts: Seq<int>, n: nat) -> Seq<int>
    decreases node_count(e), 2nat, n,
{
    if n == 0 {
        starts
    } else {
        step_all(e, t, times_ends(e, t, starts, (n - 1) as nat))
    }
}

/// `s` without the occurrences of `p`, in order.
pub open spec fn without(s: Seq<int>, p: int) -> Seq<int>
    decreases s.len(),
{
    if s.len() == 0 {
        Seq::empty()
    } else if s.last() == p {
        without(s.drop_last(), p)
    } else {
        without(s.drop_last(), p).push(s.last())
    }
}

/// The ends of one more match of `e` that consumes a character, from each end of
/// `layer` in turn.
pub open spec fn adv_all(e: Regex, t: Seq<char>, layer: Seq<int>) -> Seq<int>
    decreases node_count(e), 1nat, layer.len(),
{
    if layer.len() == 0 {
        Seq::empty()
    } else {
        adv_all(e, t, layer.drop_last()) + without(match_ends(e, t, layer.last()), layer.last())
    }
}

/// Whether a repeat with bounds `min` and `max` may run no further than `min + extra`.
pub open spec fn repeat_full(min: usize, max: Option<usize>, extra: nat) -> bool {
    max matches Some(mx) && (mx <= min || extra >= mx - min)
}

/// The ends of a repeat of `e` from the runs in `layer` (those with `min + extra`
/// matches), longest runs first: the ends of the longer runs, then `layer`. Runs grow one
/// consuming match at a time, while the bound allows and some run can grow (`fuel`
/// bounds how often a run can still grow).
pub open spec fn layer_ends(
    e: Regex,
    min: usize,
    max: Option<usize>,
    t: Seq<char>,
    layer: Seq<int>,
    extra: nat,
    fuel: nat,
) -> Seq<int>
    decreases node_count(e), 2nat, fuel,
{
    if repeat_full(min, max, extra) {
        layer
    } else {
        let next = adv_all(e, t, layer);
        if next.len() == 0 || fuel == 0 {
            layer
        } else {
            layer_ends(e, min, max, t, next, extra + 1, (fuel - 1) as nat) + layer
        }
    }
}

/// The layers `ls[n - 1]`, ..., `ls[0]`, one after another.
pub open spec fn down_concat<A>(ls: Seq<Seq<A>>, n: int) -> Seq<A>
    decreases n,
{
    if n <= 0 {
        Seq::empty()
    } else {
        ls[n - 1] + down_concat(ls, n - 1)
    }
}

/// Adding a layer on top leaves the concatenation of the lower ones alone.
proof fn lemma_down_push<A>(ls: Seq<Seq<A>>, x: Seq<A>, n: int)
    requires
        0 <= n <= ls.len(),
    ensures
        down_concat(ls.push(x), n) == down_concat(ls, n),
    decreases n,
{
    if n > 0 {
        lemma_down_push(ls, x, n - 1);
        assert(ls.push(x)[n - 1] == ls[n - 1]);
    }
}

/// The group slots of a capture record, as plain values.
pub type Slots = Seq<Option<(nat, nat, Seq<char>)>>;

/// The ways `r` matches `t` from position `i` when the group slots hold `g` at the
/// start: each way's end with the slots it leaves, in the order the matcher tries them
/// (the order of `match_ends`). A group records its span in each way through it.
pub open spec fn match_ways(r: Regex, t: Seq<char>, i: int, g: Slots) -> Seq<(int, Slots)>
    decreases node_count(r), 0nat, 0nat,
{
    match r {
        Regex::Sequence(xs) => seq_ways(xs@, t, i, g),
        Regex::Alternation(xs) => alt_ways(xs@, t, i, g),
        Regex::Group { id, expr } => match_ways(*expr, t, i, g).map_values(
            |w: (int, Slots)| (w.0, record(w.1, id, span_at(t, i, w.0))),
        ),
        Regex::Repeat { expr, min, max } => layer_ways(
            *expr,
            min,
            max,
            t,
            times_ways(*expr, t, seq![(i, g)], min as nat),
            0,
            (t.len() - i) as nat,
        ),
        _ => match_ends(r, t, i).map_values(|j: int| (j, g)),
    }
}

/// The ways of `e` from each state of `states` in turn, one after another.
pub open spec fn step_ways(e: Regex, t: Seq<char>, states: Seq<(int, Slots)>) -> Seq<(int, Slots)>
    decreases node_count(e), 1nat, states.len(),
{
    if states.len() == 0 {
        Seq::empty()
    } else {
        step_ways(e, t, states.drop_last()) + match_ways(e, t, states.last().0, states.last().1)
    }
}

/// The ways of the sequence `xs` from position `i`, in matching order.
pub open spec fn seq_ways(xs: Seq<Regex>, t: Seq<char>, i: int, g: Slots) -> Seq<(int, Slots)>
    decreases node_count_all(xs), 2nat, xs.len(),
{
    if xs.len() == 0 {
        seq![(i, g)]
    } else {
        step_ways(xs.last(), t, seq_ways(xs.drop_last(), t, i, g))
    }
}

/// The ways of the alternatives `xs` from position `i`, leftmost alternative first.
pub open spec fn alt_ways(xs: Seq<Regex>, t: Seq<char>, i: int, g: Slots) -> Seq<(int, Slots)>
    decreases node_count_all(xs), 2nat, xs.len(),
{
    if xs.len() == 0 {
        Seq::empty()
    } else {
        alt_ways(xs.drop_last(), t, i, g) + match_ways(xs.last(), t, i, g)
    }
}

/// The ways of `n` matches of `e` in a row from each state of `states`.
pub open spec fn times_ways(e: Regex, t: Seq<char>, states: Seq<(int, Slots)>, n: nat) -> Seq<(int, Slots)>
    decreases node_count(e), 2nat, n,
{
    if n == 0 {
        states
    } else {
        step_ways(e, t, times_ways(e, t, states, (n - 1) as nat))
    }
}

/// The ways in `s` that do not end at `p`, in order.
pub open spec fn without_ways(s: Seq<(int, Slots)>, p: int) -> Seq<(int, Slots)>
    decreases s.len(),
{
    if s.len() == 0 {
        Seq::empty()
    } else if s.last().0 == p {
        without_ways(s.drop_last(), p)
    } else {
        without_ways(s.drop_last(), p).push(s.last())
    }
}

/// The ways of one more match of `e` that consumes a character, from each state of
/// `layer` in turn.
pub open spec fn adv_ways(e: Regex, t: Seq<char>, layer: Seq<(int, Slots)>) -> Seq<(int, Slots)>
    decreases node_count(e), 1nat, layer.len(),
{
    if layer.len() == 0 {
        Seq::empty()
    } else {
        adv_ways(e, t, layer.drop_last()) + without_ways(match_ways(e, t, layer.last().0, layer.last().1), layer.last().0)
    }
}

/// The ways of a repeat of `e` from the runs in `layer`, longest runs first, as
/// `layer_ends` orders their ends.
pub open spec fn layer_ways(
    e: Regex,
    min: usize,
    max: Option<usize>,
    t: Seq<char>,
    layer: Seq<(int, Slots)>,
    extra: nat,
    fuel: nat,
) -> Seq<(int, Slots)>
    decreases node_count(e), 2nat, fuel,
{
    if repeat_full(min, max, extra) {
        layer
    } else {
        let next = adv_ways(e, t, layer);
        if next.len() == 0 || fuel == 0 {
            layer
        } else {
            layer_ways(e, min, max, t, next, extra + 1, (fuel - 1) as nat) + layer
        }
    }
}

/// Results that all carry `caps` have the ways of their ends with its slots.
proof fn lemma_leaf_ways(v: Seq<(usize, Captures)>, caps: Captures, ends: Seq<int>)
    requires
        ends_of(v) == ends,
        forall|k: int| 0 <= k < v.len() ==> (#[trigger] v[k]).1 == caps,
    ensures
        ways_of(v) == ends.map_values(|j: int| (j, groups_view(caps))),
{
    assert(ends_of(v).len() == v.len());
    assert forall|k: int| 0 <= k < v.len() implies #[trigger] ways_of(v)[k] == ends.map_values(|j: int| (j, groups_view(caps)))[k] by {
        assert(ends_of(v)[k] == v[k].0 as int);
    }
    assert(ways_of(v) =~= ends.map_values(|j: int| (j, groups_view(caps))));
}

/// The ends and group slots of results, in order.
pub open spec fn ways_of(v: Seq<(usize, Captures)>) -> Seq<(int, Slots)> {
    v.map_values(|x: (usize, Captures)| (x.0 as int, groups_view(x.1)))
}

/// Once no run of `n` matches remains, no longer run does.
proof fn lemma_times_empty(e: Regex, t: Seq<char>, starts: Seq<int>, n: nat, m: nat)
    requires
        times_ends(e, t, starts, n).len() == 0,
        n <= m,
    ensures
        times_ends(e, t, starts, m).len() == 0,
    decreases m,
{
    if m > n {
        lemma_times_empty(e, t, starts, n, (m - 1) as nat);
        assert(times_ends(e, t, starts, (m - 1) as nat) =~= Seq::<int>::empty());
        assert(times_ends(e, t, starts, m) == step_all(e, t, times_ends(e, t, starts, (m - 1) as nat)));
        assert(step_all(e, t, Seq::<int>::empty()).len() == 0);
    }
}

/// Once no way through the first `k` parts of a sequence remains, none through the whole.
proof fn lemma_seq_ends_empty(xs: Seq<Regex>, t: Seq<char>, i: int, k: int)
    requires
        0 <= k <= xs.len(),
        seq_ends(xs.subrange(0, k), t, i).len() == 0,
    ensures
        seq_ends(xs, t, i).len() == 0,
    decreases xs.len() - k,
{
    if k < xs.len() {
        assert(xs.subrange(0, k + 1).drop_last() =~= xs.subrange(0, k));
        assert(seq_ends(xs.subrange(0, k), t, i) =~= Seq::<int>::empty());
        assert(xs.subrange(0, k + 1).len() > 0);
        assert(seq_ends(xs.subrange(0, k + 1), t, i) == step_all(xs.subrange(0, k + 1).last(), t, seq_ends(xs.subrange(0, k), t, i)));
        assert(step_all(xs.subrange(0, k + 1).last(), t, Seq::<int>::empty()).len() == 0);
        lemma_seq_ends_empty(xs, t, i, k + 1);
    } else {
        assert(xs.subrange(0, k) =~= xs);
    }
}

/// Once a prefix of a sequence has no way, the whole sequence has none.
proof fn lemma_seq_ways_empty(xs: Seq<Regex>, t: Seq<char>, i: int, g: Slots, k: int)
    requires
        0 <= k <= xs.len(),
        seq_ways(xs.subrange(0, k), t, i, g).len() == 0,
    ensures
        seq_ways(xs, t, i, g).len() == 0,
    decreases xs.len() - k,
{
    if k < xs.len() {
        assert(xs.subrange(0, k + 1).drop_last() =~= xs.subrange(0, k));
        assert(seq_ways(xs.subrange(0, k), t, i, g) =~= Seq::<(int, Slots)>::empty());
        assert(xs.subrange(0, k + 1).len() > 0);
        assert(seq_ways(xs.subrange(0, k + 1), t, i, g) == step_ways(xs.subrange(0, k + 1).last(), t, seq_ways(xs.subrange(0, k), t, i, g)));
        assert(step_ways(xs.subrange(0, k + 1).last(), t, Seq::<(int, Slots)>::empty()).len() == 0);
        lemma_seq_ways_empty(xs, t, i, g, k + 1);
    } else {
        assert(xs.subrange(0, k) =~= xs);
    }
}

/// Once no run of `n` matches remains, no longer run does (for ways).
proof fn lemma_times_ways_empty(e: Regex, t: Seq<char>, states: Seq<(int, Slots)>, n: nat, m: nat)
    requires
        times_ways(e, t, states, n).len() == 0,
        n <= m,
    ensures
        times_ways(e, t, states, m).len() == 0,
    decreases m,
{
    if m > n {
        lemma_times_ways_empty(e, t, states, n, (m - 1) as nat);
        assert(times_ways(e, t, states, (m - 1) as nat) =~= Seq::<(int, Slots)>::empty());
        assert(times_ways(e, t, states, m) == step_ways(e, t, times_ways(e, t, states, (m - 1) as nat)));
        assert(step_ways(e, t, Seq::<(int, Slots)>::empty()).len() == 0);
    }
}

/// `l` consecutive matches of `e`, each consuming at least one character, cover `t[i..j]`.
pub open spec fn advancing_times(e: Regex, l: nat, t: Seq<char>, i: int, j: int) -> bool
    decreases l,
{
    if l == 0 {
        i == j
    } else {
        exists|m: int| #![trigger split_at(m)] split_at(m) && advancing_times(e, (l - 1) as nat, t, i, m) && m != j
            && accepts(e, t, m, j)
    }
}

/// `min` matches of `e` from `pos`, then `l` matches that each consume a character,
/// end at `j`.
pub open spec fn reach(e: Regex, min: usize, t: Seq<char>, pos: int, l: nat, j: int) -> bool {
    exists|p: int| #![trigger split_at(p)] split_at(p) && accepts_times(e, min as nat, t, pos, p) && advancing_times(e, l, t, p, j)
}

/// Adding results keeps the ends already there.
proof fn lemma_has_end_append(v: Seq<(usize, Captures)>, w: Seq<(usize, Captures)>, j: int)
    ensures
        has_end(v, j) ==> has_end(v + w, j),
        has_end(w, j) ==> has_end(v + w, j),
{
    if has_end(v, j) {
        let q = choose|q: int| 0 <= q < v.len() && (#[trigger] v[q]).0 == j;
        assert((v + w)[q] == v[q]);
    }
    if has_end(w, j) {
        let q = choose|q: int| 0 <= q < w.len() && (#[trigger] w[q]).0 == j;
        assert((v + w)[v.len() + q] == w[q]);
    }
}

/// Pushing a result keeps the ends already there and adds its own.
proof fn lemma_has_end_push(v: Seq<(usize, Captures)>, x: (usize, Captures), j: int)
    ensures
        has_end(v, j) ==> has_end(v.push(x), j),
        has_end(v.push(x), x.0 as int),
{
    if has_end(v, j) {
        let q = choose|q: int| 0 <= q < v.len() && (#[trigger] v[q]).0 == j;
        assert(v.push(x)[q] == v[q]);
    }
    assert(v.push(x)[v.len() as int] == x);
}

/// A match of a list of expressions has a match of each of its prefixes.
proof fn lemma_seq_prefix(xs: Seq<Regex>, t: Seq<char>, i: int, j: int, k: int)
    requires
        accepts_seq(xs, t, i, j),
        0 <= k <= xs.len(),
    ensures
        exists|m: int| #[trigger] accepts_seq(xs.subrange(0, k), t, i, m),
    decreases xs.len(),
{
    if k == xs.len() {
        assert(xs.subrange(0, k) =~= xs);
    } else {
        let m = choose|m: int| #![trigger split_at(m)] split_at(m) && accepts_seq(xs.drop_last(), t, i, m) && accepts(xs.last(), t, m, j);
        lemma_seq_prefix(xs.drop_last(), t, i, m, k);
        assert(xs.drop_last().subrange(0, k) =~= xs.subrange(0, k));
    }
}

/// `n` matches in a row have `k` matches in a row for each `k` up to `n`.
proof fn lemma_times_prefix(e: Regex, n: nat, t: Seq<char>, i: int, j: int, k: nat)
    requires
        accepts_times(e, n, t, i, j),
        k <= n,
    ensures
        exists|m: int| #[trigger] accepts_times(e, k, t, i, m),
    decreases n,
{
    if k == n {
        assert(accepts_times(e, k, t, i, j));
    } else {
        let m = choose|m: int| #![trigger split_at(m)] split_at(m) && accepts_times(e, (n - 1) as nat, t, i, m) && accepts(e, t, m, j);
        lemma_times_prefix(e, (n - 1) as nat, t, i, m, k);
    }
}

/// `l` advancing matches in a row have `k` advancing matches in a row for `k` up to `l`.
proof fn lemma_advancing_prefix(e: Regex, l: nat, t: Seq<char>, i: int, j: int, k: nat)
    requires
        advancing_times(e, l, t, i, j),
        k <= l,
    ensures
        exists|m: int| #[trigger] advancing_times(e, k, t, i, m),
    decreases l,
{
    if k == l {
        assert(advancing_times(e, k, t, i, j));
    } else {
        let m = choose|m: int| #![trigger split_at(m)] split_at(m) && advancing_times(e, (l - 1) as nat, t, i, m) && m != j && accepts(e, t, m, j);
        lemma_advancing_prefix(e, (l - 1) as nat, t, i, m, k);
    }
}

/// `n` matches in a row, `n` at least `min`, are `min` matches followed by at most
/// `n - min` matches that each consume a character (dropping those that match nothing).
proof fn lemma_reduce_times(e: Regex, min: usize, n: nat, t: Seq<char>, pos: int, j: int)
    requires
        min <= n,
        accepts_times(e, n, t, pos, j),
    ensures
        exists|l: nat| l <= n - min && #[trigger] reach(e, min, t, pos, l, j),
    decreases n,
{
    if n == min {
        assert(split_at(j));
        assert(advancing_times(e, 0, t, j, j));
        assert(reach(e, min, t, pos, 0, j));
    } else {
        let m = choose|m: int| #![trigger split_at(m)] split_at(m) && accepts_times(e, (n - 1) as nat, t, pos, m) && accepts(e, t, m, j);
        lemma_reduce_times(e, min, (n - 1) as nat, t, pos, m);
        let l = choose|l: nat| l <= (n - 1) - min && #[trigger] reach(e, min, t, pos, l, m);
        let p = choose|p: int| #![trigger split_at(p)] split_at(p) && accepts_times(e, min as nat, t, pos, p) && advancing_times(e, l, t, p, m);
        if m == j {
            assert(reach(e, min, t, pos, l, j));
        } else {
            assert(split_at(m));
            assert(advancing_times(e, l + 1, t, p, j));
            assert(split_at(p));
            assert(reach(e, min, t, pos, l + 1, j));
        }
    }
}

impl Regex {
    /// Every way `self` can match `t` starting at `pos`: the end position of each match
    /// with the captures recorded along the way, in the order the matcher tries the ways
    /// (`match_ways` gives each way's end and group slots). Every result is a match and
    /// every match end is among the results. A repeat tries its longest runs first and,
    /// past its minimum, skips iterations that match nothing.
    pub fn match_from(&self, t: &[char], pos: usize, caps: Captures) -> (out: Vec<(usize, Captures)>)
        requires
            pos <= t@.len(),
        ensures
            all_sound(*self, t@, pos as int, out@),
            all_complete(*self, t@, pos as int, out@),
            ends_of(out@) == match_ends(*self, t@, pos as int),
            all_paths(*self, t@, pos as int, caps, out@),
            ways_of(out@) == match_ways(*self, t@, pos as int, groups_view(caps)),
        decreases self, 0nat,
    {
        let ghost caps0 = caps;
        match self {
            Regex::Empty => {
                let mut out = Vec::new();
                out.push((pos, caps));
                proof {
                    assert(path_groups(*self, t@, pos as int, pos as int, groups_view(caps0), groups_view(caps0)));
                    assert(accepts(*self, t@, pos as int, out@[0].0 as int));
                    assert forall|j: int| #[trigger] accepts(*self, t@, pos as int, j) implies has_end(out@, j) by {
                        assert(out@[0].0 == j);
                    }
                    assert(ends_of(out@) =~= match_ends(*self, t@, pos as int));
                    assert(out@[0].1 == caps0);
                    assert(all_paths(*self, t@, pos as int, caps0, out@));
                }
                proof {
                    lemma_leaf_ways(out@, caps0, match_ends(*self, t@, pos as int));
                }
                out
            },
            Regex::Literal(s) => {
                let lit = chars_of(s.as_str());
                let rest = &t[pos..t.len()];
                let mut out = Vec::new();
                if chars_start_with(rest, lit.as_slice()) {
                    proof {
                        assert(t@.subrange(pos as int, pos + lit@.len()) =~= rest@.subrange(0, lit@.len() as int));
                    }
                    out.push((pos + lit.len(), caps));
                    proof {
                        assert forall|j: int| #[trigger] accepts(*self, t@, pos as int, j) implies has_end(out@, j) by {
                            assert(out@[0].0 == j);
                        }
                        assert(accepts(*self, t@, pos as int, pos + lit@.len()));
                        assert(ends_of(out@) =~= match_ends(*self, t@, pos as int));
                    }
                } else {
                    proof {
                        assert forall|j: int| #[trigger] accepts(*self, t@, pos as int, j) implies has_end(out@, j) by {
                            assert(t@.subrange(pos as int, pos + lit@.len()) =~= rest@.subrange(0, lit@.len() as int));
                        }
                        if spells(s@, t@, pos as int, pos + s@.len()) {
                            assert(accepts(*self, t@, pos as int, pos + s@.len()));
                            assert(has_end(out@, pos + s@.len()));
                        }
                        assert(ends_of(out@) =~= match_ends(*self, t@, pos as int));
                    }
                }
                proof {
                    lemma_leaf_ways(out@, caps0, match_ends(*self, t@, pos as int));
                }
                out
            },
            Regex::Char(c) => {
                let mut out = Vec::new();
                if pos < t.len() && t[pos] == *c {
                    out.push((pos + 1, caps));
                    proof {
                        assert forall|j: int| #[trigger] accepts(*self, t@, pos as int, j) implies has_end(out@, j) by {
                            assert(out@[0].0 == j);
                        }
                    }
                }
                proof {
                    if out@.len() == 0 {
                        if match_ends(*self, t@, pos as int).len() > 0 {
                            let j = match_ends(*self, t@, pos as int)[0];
                            assert(accepts(*self, t@, pos as int, j));
                            assert(has_end(out@, j));
                        }
                    }
                    assert(ends_of(out@) =~= match_ends(*self, t@, pos as int));
                }
                proof {
                    lemma_leaf_ways(out@, caps0, match_ends(*self, t@, pos as int));
                }
                out
            },
            Regex::Wildcard => {
                let mut out = Vec::new();
                if pos < t.len() {
                    out.push((pos + 1, caps));
                    proof {
                        assert forall|j: int| #[trigger] accepts(*self, t@, pos as int, j) implies has_end(out@, j) by {
                            assert(out@[0].0 == j);
                        }
                    }
                }
                proof {
                    if out@.len() == 0 {
                        if match_ends(*self, t@, pos as int).len() > 0 {
                            let j = match_ends(*self, t@, pos as int)[0];
                            assert(accepts(*self, t@, pos as int, j));
                            assert(has_end(out@, j));
                        }
                    }
                    assert(ends_of(out@) =~= match_ends(*self, t@, pos as int));
                }
                proof {
                    lemma_leaf_ways(out@, caps0, match_ends(*self, t@, pos as int));
                }
                out
            },
            Regex::CharClass { ranges, chars, negated } => {
                let mut out = Vec::new();
                if pos < t.len() && class_admits(ranges, chars, *negated, t[pos]) {
                    out.push((pos + 1, caps));
                    proof {
                        assert forall|j: int| #[trigger] accepts(*self, t@, pos as int, j) implies has_end(out@, j) by {
                            assert(out@[0].0 == j);
                        }
                    }
                }
                proof {
                    if out@.len() == 0 {
                        if match_ends(*self, t@, pos as int).len() > 0 {
                            let j = match_ends(*self, t@, pos as int)[0];
                            assert(accepts(*self, t@, pos as int, j));
                            assert(has_end(out@, j));
                        }
                    }
                    assert(ends_of(out@) =~= match_ends(*self, t@, pos as int));
                }
                proof {
                    lemma_leaf_ways(out@, caps0, match_ends(*self, t@, pos as int));
                }
                out
            },
            Regex::Anchor(kind) => {
                let ok = match kind {
                    AnchorKind::StartOfLine => pos == 0,
                    AnchorKind::EndOfLine => pos == t.len(),
                    AnchorKind::WordBoundary => is_word_boundary(t, pos),
                };
                let mut out = Vec::new();
                if ok {
                    out.push((pos, caps));
                    proof {
                        assert forall|j: int| #[trigger] accepts(*self, t@, pos as int, j) implies has_end(out@, j) by {
                            assert(out@[0].0 == j);
                        }
                    }
                }
                proof {
                    if out@.len() == 0 {
                        if match_ends(*self, t@, pos as int).len() > 0 {
                            let j = match_ends(*self, t@, pos as int)[0];
                            assert(accepts(*self, t@, pos as int, j));
                            assert(has_end(out@, j));
                        }
                    }
                    assert(ends_of(out@) =~= match_ends(*self, t@, pos as int));
                }
                proof {
                    lemma_leaf_ways(out@, caps0, match_ends(*self, t@, pos as int));
                }
                out
            },
            Regex::Sequence(exprs) => {
                let out = match_sequence(exprs, t, pos, caps);
                proof {
                    assert(exprs@.subrange(0, exprs@.len() as int) =~= exprs@);
                    assert(all_paths(*self, t@, pos as int, caps0, out@));
                }
                assert(all_sound(*self, t@, pos as int, out@));
                assert forall|j: int| #[trigger] accepts(*self, t@, pos as int, j) implies has_end(out@, j) by {
                    assert(accepts_seq(exprs@, t@, pos as int, j));
                }
                out
            },
            Regex::Alternation(alts) => {
                let out = match_alternatives(alts, t, pos, caps);
                assert(all_sound(*self, t@, pos as int, out@));
                assert forall|q: int| 0 <= q < out@.len() implies (#[trigger] out@[q]).1.full_match == caps0.full_match
                    && path_groups(*self, t@, pos as int, out@[q].0 as int, groups_view(caps0), groups_view(out@[q].1)) by {
                    let k = choose|k: int| 0 <= k < alts@.len() && path_groups(alts@[k], t@, pos as int, out@[q].0 as int, groups_view(caps0), groups_view(out@[q].1));
                    assert(path_groups(alts@[k], t@, pos as int, out@[q].0 as int, groups_view(caps0), groups_view(out@[q].1)));
                }
                assert forall|j: int| #[trigger] accepts(*self, t@, pos as int, j) implies has_end(out@, j) by {
                    let k = choose|k: int| 0 <= k < alts@.len() && accepts(alts@[k], t@, pos as int, j);
                    assert(accepts(alts@[k], t@, pos as int, j));
                }
                out
            },
            Regex::Group { id, expr } => {
                let inner = expr.match_from(t, pos, caps);
                let mut out: Vec<(usize, Captures)> = Vec::new();
                let start_byte = byte_offset_of(t, pos);
                let mut q: usize = 0;
                while q < inner.len()
                    invariant
                        q <= inner@.len(),
                        pos <= t@.len(),
                        start_byte == byte_pos(t@, pos as int),
                        *self == (Regex::Group { id: *id, expr: *expr }),
                        all_sound(**expr, t@, pos as int, inner@),
                        all_paths(**expr, t@, pos as int, caps0, inner@),
                        out@.len() == q,
                        forall|a: int| 0 <= a < q ==> (#[trigger] out@[a]).0 == inner@[a].0,
                        forall|a: int| 0 <= a < q ==> (#[trigger] out@[a]).1.full_match == caps0.full_match
                            && path_groups(*self, t@, pos as int, out@[a].0 as int, groups_view(caps0), groups_view(out@[a].1)),
                        ways_of(out@) == ways_of(inner@).take(q as int).map_values(
                            |w: (int, Slots)| (w.0, record(w.1, *id, span_at(t@, pos as int, w.0))),
                        ),
                    decreases inner@.len() - q,
                {
                    let end = inner[q].0;
                    let mut c2 = copy_captures(&inner[q].1);
                    let ghost before = c2;
                    let end_byte = byte_offset_of(t, end);
                    let text = string_from_chars(&t[pos..end]);
                    let m = Match { start: start_byte, end: end_byte, text };
                    proof {
                        assert(span_view(m) == span_at(t@, pos as int, end as int));
                    }
                    c2.set_group(*id, m);
                    proof {
                        let g = groups_view(inner@[q as int].1);
                        assert(groups_view(before) == g);
                        assert(groups_view(c2) =~= record(g, *id, span_at(t@, pos as int, end as int)));
                        assert(via_groups(g));
                        assert(path_groups(**expr, t@, pos as int, end as int, groups_view(caps0), g));
                        assert(c2.full_match == caps0.full_match);
                        assert(path_groups(*self, t@, pos as int, end as int, groups_view(caps0), groups_view(c2)));
                    }
                    let ghost prev = out@;
                    out.push((end, c2));
                    proof {
                        assert(ways_of(inner@)[q as int] == (end as int, groups_view(inner@[q as int].1)));
                        assert(ways_of(out@) =~= ways_of(prev).push((end as int, groups_view(c2))));
                        assert(ways_of(inner@).take(q + 1) =~= ways_of(inner@).take(q as int).push(ways_of(inner@)[q as int]));
                        assert(groups_view(c2) == record(groups_view(inner@[q as int].1), *id, span_at(t@, pos as int, end as int)));
                        assert(ways_of(out@) =~= ways_of(inner@).take(q + 1).map_values(
                            |w: (int, Slots)| (w.0, record(w.1, *id, span_at(t@, pos as int, w.0))),
                        ));
                        assert forall|a: int| 0 <= a < q + 1 implies (#[trigger] out@[a]).1.full_match == caps0.full_match
                            && path_groups(*self, t@, pos as int, out@[a].0 as int, groups_view(caps0), groups_view(out@[a].1)) by {
                            if a < q {
                                assert(out@[a] == prev[a]);
                            }
                        }
                    }
                    q = q + 1;
                }
                assert(all_sound(*self, t@, pos as int, out@));
                assert(ends_of(out@) =~= ends_of(inner@));
                assert(ways_of(inner@).take(inner@.len() as int) =~= ways_of(inner@));
                assert forall|j: int| #[trigger] accepts(*self, t@, pos as int, j) implies has_end(out@, j) by {
                    assert(accepts(**expr, t@, pos as int, j));
                    let q = choose|q: int| 0 <= q < inner@.len() && (#[trigger] inner@[q]).0 == j;
                    assert(out@[q].0 == inner@[q].0);
                }
                out
            },
            Regex::Repeat { expr, min, max } => {
                let out = match_repeat(expr, *min, *max, t, pos, caps);
                assert(all_sound(*self, t@, pos as int, out@));
                assert forall|q: int| 0 <= q < out@.len() implies (#[trigger] out@[q]).1.full_match == caps0.full_match
                    && path_groups(*self, t@, pos as int, out@[q].0 as int, groups_view(caps0), groups_view(out@[q].1)) by {
                    let n = choose|n: nat| #[trigger] repeat_count_ok(*min, *max, n)
                        && times_groups(**expr, n, t@, pos as int, out@[q].0 as int, groups_view(caps0), groups_view(out@[q].1));
                    assert(repeat_count_ok(*min, *max, n));
                }
                assert forall|j: int| #[trigger] accepts(*self, t@, pos as int, j) implies has_end(out@, j) by {
                    let n = choose|n: nat| #[trigger] repeat_count_ok(*min, *max, n) && accepts_times(**expr, n, t@, pos as int, j);
                    assert(accepts_times(**expr, n, t@, pos as int, j));
                }
                out
            },
        }
    }
}

/// Matches the expressions one after another, carrying every way of matching so far.
fn match_sequence(exprs: &Vec<Regex>, t: &[char], pos: usize, caps: Captures) -> (out: Vec<(usize, Captures)>)
    requires
        pos <= t@.len(),
    ensures
        forall|q: int| 0 <= q < out@.len() ==> pos <= (#[trigger] out@[q]).0 <= t@.len()
            && accepts_seq(exprs@.subrange(0, exprs@.len() as int), t@, pos as int, out@[q].0 as int),
        forall|j: int| #[trigger] accepts_seq(exprs@, t@, pos as int, j) ==> has_end(out@, j),
        ends_of(out@) == seq_ends(exprs@, t@, pos as int),
        forall|q: int| 0 <= q < out@.len() ==> (#[trigger] out@[q]).1.full_match == caps.full_match
            && seq_groups(exprs@, t@, pos as int, out@[q].0 as int, groups_view(caps), groups_view(out@[q].1)),
        ways_of(out@) == seq_ways(exprs@, t@, pos as int, groups_view(caps)),
    decreases exprs, 1nat,
{
    let ghost g0 = groups_view(caps);
    let ghost f0 = caps.full_match;
    let mut states: Vec<(usize, Captures)> = Vec::new();
    states.push((pos, caps));
    proof {
        assert(exprs@.subrange(0, 0).len() == 0);
        assert(states@[0].0 == pos);
        assert(ends_of(states@) =~= seq_ends(exprs@.subrange(0, 0), t@, pos as int));
        assert(ways_of(states@) =~= seq_ways(exprs@.subrange(0, 0), t@, pos as int, g0));
    }
    let mut k: usize = 0;
    while k < exprs.len()
        invariant
            k <= exprs@.len(),
            pos <= t@.len(),
            forall|q: int| 0 <= q < states@.len() ==> pos <= (#[trigger] states@[q]).0 <= t@.len()
                && accepts_seq(exprs@.subrange(0, k as int), t@, pos as int, states@[q].0 as int),
            forall|m: int| #[trigger] accepts_seq(exprs@.subrange(0, k as int), t@, pos as int, m) ==> has_end(states@, m),
            ends_of(states@) == seq_ends(exprs@.subrange(0, k as int), t@, pos as int),
            forall|q: int| 0 <= q < states@.len() ==> (#[trigger] states@[q]).1.full_match == f0
                && seq_groups(exprs@.subrange(0, k as int), t@, pos as int, states@[q].0 as int, g0, groups_view(states@[q].1)),
            ways_of(states@) == seq_ways(exprs@.subrange(0, k as int), t@, pos as int, g0),
            g0 == groups_view(caps),
        decreases exprs@.len() - k,
    {
        let mut next_states: Vec<(usize, Captures)> = Vec::new();
        let mut q: usize = 0;
        proof {
            assert(exprs@.subrange(0, k + 1).drop_last() =~= exprs@.subrange(0, k as int));
            assert(exprs@.subrange(0, k + 1).last() == exprs@[k as int]);
            assert(ends_of(next_states@) =~= step_all(exprs@[k as int], t@, ends_of(states@).take(0)));
            assert(ways_of(next_states@) =~= step_ways(exprs@[k as int], t@, ways_of(states@).take(0)));
        }
        while q < states.len()
            invariant
                k < exprs@.len(),
                q <= states@.len(),
                pos <= t@.len(),
                forall|a: int| 0 <= a < states@.len() ==> pos <= (#[trigger] states@[a]).0 <= t@.len()
                    && accepts_seq(exprs@.subrange(0, k as int), t@, pos as int, states@[a].0 as int),
                exprs@.subrange(0, k + 1).drop_last() == exprs@.subrange(0, k as int),
                exprs@.subrange(0, k + 1).last() == exprs@[k as int],
                forall|a: int| 0 <= a < next_states@.len() ==> pos <= (#[trigger] next_states@[a]).0 <= t@.len()
                    && accepts_seq(exprs@.subrange(0, k + 1), t@, pos as int, next_states@[a].0 as int),
                forall|a: int, j: int| 0 <= a < q && #[trigger] accepts(exprs@[k as int], t@, states@[a].0 as int, j)
                    ==> has_end(next_states@, j),
                ends_of(next_states@) == step_all(exprs@[k as int], t@, ends_of(states@).take(q as int)),
                forall|a: int| 0 <= a < states@.len() ==> (#[trigger] states@[a]).1.full_match == f0
                    && seq_groups(exprs@.subrange(0, k as int), t@, pos as int, states@[a].0 as int, g0, groups_view(states@[a].1)),
                forall|a: int| 0 <= a < next_states@.len() ==> (#[trigger] next_states@[a]).1.full_match == f0
                    && seq_groups(exprs@.subrange(0, k + 1), t@, pos as int, next_states@[a].0 as int, g0, groups_view(next_states@[a].1)),
                ways_of(next_states@) == step_ways(exprs@[k as int], t@, ways_of(states@).take(q as int)),
            decreases states@.len() - q,
        {
            let p = states[q].0;
            let c = copy_captures(&states[q].1);
            proof {
                assert(decreases_to!(exprs => exprs@[k as int]));
            }
            let mut more = exprs[k].match_from(t, p, c);
            let ghost m = more@;
            proof {
                assert forall|a: int| 0 <= a < m.len() implies accepts_seq(exprs@.subrange(0, k + 1), t@, pos as int, (#[trigger] m[a]).0 as int) by {
                    let xs = exprs@.subrange(0, k + 1);
                    assert(xs.len() > 0);
                    assert(pos <= p);
                    assert(accepts_seq(exprs@.subrange(0, k as int), t@, pos as int, p as int));
                    assert(accepts_seq(xs.drop_last(), t@, pos as int, p as int));
                    assert(accepts(exprs@[k as int], t@, p as int, m[a].0 as int));
                    assert(accepts(xs.last(), t@, p as int, m[a].0 as int));
                    assert(split_at(p as int));
                }
                assert forall|a: int| 0 <= a < m.len() implies (#[trigger] m[a]).1.full_match == f0
                    && seq_groups(exprs@.subrange(0, k + 1), t@, pos as int, m[a].0 as int, g0, groups_view(m[a].1)) by {
                    let xs = exprs@.subrange(0, k + 1);
                    let g = groups_view(states@[q as int].1);
                    assert(xs.len() > 0);
                    assert(seq_groups(xs.drop_last(), t@, pos as int, p as int, g0, g));
                    assert(path_groups(xs.last(), t@, p as int, m[a].0 as int, g, groups_view(m[a].1)));
                    assert(split_at(p as int));
                    assert(via_groups(g));
                }
            }
            let ghost before = next_states@;
            next_states.append(&mut more);
            proof {
                assert forall|a: int| 0 <= a < next_states@.len() implies (#[trigger] next_states@[a]).1.full_match == f0
                    && seq_groups(exprs@.subrange(0, k + 1), t@, pos as int, next_states@[a].0 as int, g0, groups_view(next_states@[a].1)) by {
                    if a >= before.len() {
                        assert(next_states@[a] == m[a - before.len()]);
                    } else {
                        assert(next_states@[a] == before[a]);
                    }
                }
                assert forall|a: int| 0 <= a < next_states@.len() implies pos <= (#[trigger] next_states@[a]).0 <= t@.len()
                    && accepts_seq(exprs@.subrange(0, k + 1), t@, pos as int, next_states@[a].0 as int) by {
                    if a >= before.len() {
                        assert(next_states@[a] == m[a - before.len()]);
                    } else {
                        assert(next_states@[a] == before[a]);
                    }
                }
                assert forall|a: int, j: int| 0 <= a < q + 1 && #[trigger] accepts(exprs@[k as int], t@, states@[a].0 as int, j)
                    implies has_end(next_states@, j) by {
                    lemma_has_end_append(before, m, j);
                }
                assert(ends_of(states@).take(q + 1).drop_last() =~= ends_of(states@).take(q as int));
                assert(ends_of(states@).take(q + 1).last() == p);
                assert(ends_of(next_states@) =~= ends_of(before) + ends_of(m));
                assert(ways_of(states@).take(q + 1).drop_last() =~= ways_of(states@).take(q as int));
                assert(ways_of(states@).take(q + 1).last() == (p as int, groups_view(states@[q as int].1)));
                assert(ways_of(next_states@) =~= ways_of(before) + ways_of(m));
            }
            q = q + 1;
        }
        proof {
            assert forall|j: int| #[trigger] accepts_seq(exprs@.subrange(0, k + 1), t@, pos as int, j) implies has_end(next_states@, j) by {
                let xs = exprs@.subrange(0, k + 1);
                let m = choose|m: int| #![trigger split_at(m)] split_at(m) && accepts_seq(xs.drop_last(), t@, pos as int, m) && accepts(xs.last(), t@, m, j);
                assert(accepts_seq(exprs@.subrange(0, k as int), t@, pos as int, m));
                assert(has_end(states@, m));
                let a = choose|a: int| 0 <= a < states@.len() && (#[trigger] states@[a]).0 == m;
                assert(accepts(exprs@[k as int], t@, states@[a].0 as int, j));
            }
        }
        proof {
            assert(ends_of(states@).take(states@.len() as int) =~= ends_of(states@));
            assert(ends_of(next_states@) == seq_ends(exprs@.subrange(0, k + 1), t@, pos as int));
            assert(ways_of(states@).take(states@.len() as int) =~= ways_of(states@));
            assert(ways_of(next_states@) == seq_ways(exprs@.subrange(0, k + 1), t@, pos as int, g0));
        }
        if next_states.len() == 0 {
            proof {
                lemma_seq_ends_empty(exprs@, t@, pos as int, k + 1);
                assert(ways_of(next_states@).len() == next_states@.len());
                assert(seq_ways(exprs@.subrange(0, k + 1), t@, pos as int, g0).len() == 0);
                lemma_seq_ways_empty(exprs@, t@, pos as int, g0, k + 1);
                assert forall|j: int| #[trigger] accepts_seq(exprs@, t@, pos as int, j) implies has_end(Seq::<(usize, Captures)>::empty(), j) by {
                    lemma_seq_prefix(exprs@, t@, pos as int, j, k + 1);
                    let m = choose|m: int| #[trigger] accepts_seq(exprs@.subrange(0, k + 1), t@, pos as int, m);
                    assert(has_end(next_states@, m));
                }
            }
            let empty: Vec<(usize, Captures)> = Vec::new();
            proof {
                assert(empty@ =~= Seq::<(usize, Captures)>::empty());
                assert(ends_of(empty@) =~= seq_ends(exprs@, t@, pos as int));
                assert(ways_of(empty@) =~= seq_ways(exprs@, t@, pos as int, g0));
            }
            return empty;
        }
        states = next_states;
        k = k + 1;
    }
    proof {
        assert(exprs@.subrange(0, exprs@.len() as int) =~= exprs@);
    }
    states
}

/// Matches each alternative in turn and concatenates their results.
fn match_alternatives(alts: &Vec<Regex>, t: &[char], pos: usize, caps: Captures) -> (out: Vec<(usize, Captures)>)
    requires
        pos <= t@.len(),
    ensures
        forall|q: int| 0 <= q < out@.len() ==> pos <= (#[trigger] out@[q]).0 <= t@.len()
            && exists|k: int| 0 <= k < alts@.len() && accepts(alts@[k], t@, pos as int, out@[q].0 as int),
        forall|b: int, j: int| 0 <= b < alts@.len() && #[trigger] accepts(alts@[b], t@, pos as int, j) ==> has_end(out@, j),
        ends_of(out@) == alt_ends(alts@, t@, pos as int),
        forall|q: int| 0 <= q < out@.len() ==> (#[trigger] out@[q]).1.full_match == caps.full_match
            && exists|k: int| 0 <= k < alts@.len() && path_groups(alts@[k], t@, pos as int, out@[q].0 as int, groups_view(caps), groups_view(out@[q].1)),
        ways_of(out@) == alt_ways(alts@, t@, pos as int, groups_view(caps)),
    decreases alts, 1nat,
{
    let mut out: Vec<(usize, Captures)> = Vec::new();
    proof {
        assert(ways_of(out@) =~= alt_ways(alts@.take(0), t@, pos as int, groups_view(caps)));
        assert(ends_of(out@) =~= alt_ends(alts@.take(0), t@, pos as int));
    }
    let mut k: usize = 0;
    while k < alts.len()
        invariant
            k <= alts@.len(),
            pos <= t@.len(),
            forall|q: int| 0 <= q < out@.len() ==> pos <= (#[trigger] out@[q]).0 <= t@.len()
                && exists|j: int| 0 <= j < alts@.len() && accepts(alts@[j], t@, pos as int, out@[q].0 as int),
            forall|b: int, j: int| 0 <= b < k && #[trigger] accepts(alts@[b], t@, pos as int, j) ==> has_end(out@, j),
            ends_of(out@) == alt_ends(alts@.take(k as int), t@, pos as int),
            forall|q: int| 0 <= q < out@.len() ==> (#[trigger] out@[q]).1.full_match == caps.full_match
                && exists|j: int| 0 <= j < alts@.len() && path_groups(alts@[j], t@, pos as int, out@[q].0 as int, groups_view(caps), groups_view(out@[q].1)),
            ways_of(out@) == alt_ways(alts@.take(k as int), t@, pos as int, groups_view(caps)),
        decreases alts@.len() - k,
    {
        proof {
            assert(decreases_to!(alts => alts@[k as int]));
        }
        let c = copy_captures(&caps);
        let mut more = alts[k].match_from(t, pos, c);
        let ghost m = more@;
        let ghost before = out@;
        out.append(&mut more);
        proof {
            assert(alts@.take(k + 1).drop_last() =~= alts@.take(k as int));
            assert(alts@.take(k + 1).last() == alts@[k as int]);
            assert(ends_of(out@) =~= ends_of(before) + ends_of(m));
            assert(ways_of(out@) =~= ways_of(before) + ways_of(m));
            assert forall|a: int| 0 <= a < out@.len() implies pos <= (#[trigger] out@[a]).0 <= t@.len()
                && exists|j: int| 0 <= j < alts@.len() && accepts(alts@[j], t@, pos as int, out@[a].0 as int) by {
                if a >= before.len() {
                    assert(out@[a] == m[a - before.len()]);
                    assert(accepts(alts@[k as int], t@, pos as int, out@[a].0 as int));
                } else {
                    assert(out@[a] == before[a]);
                }
            }
            assert forall|b: int, j: int| 0 <= b < k + 1 && #[trigger] accepts(alts@[b], t@, pos as int, j) implies has_end(out@, j) by {
                lemma_has_end_append(before, m, j);
            }
            assert forall|a: int| 0 <= a < out@.len() implies (#[trigger] out@[a]).1.full_match == caps.full_match
                && exists|j: int| 0 <= j < alts@.len() && path_groups(alts@[j], t@, pos as int, out@[a].0 as int, groups_view(caps), groups_view(out@[a].1)) by {
                if a >= before.len() {
                    assert(out@[a] == m[a - before.len()]);
                    assert(path_groups(alts@[k as int], t@, pos as int, out@[a].0 as int, groups_view(caps), groups_view(out@[a].1)));
                } else {
                    assert(out@[a] == before[a]);
                }
            }
        }
        k = k + 1;
    }
    proof {
        assert(alts@.take(alts@.len() as int) =~= alts@);
    }
    out
}

/// Matches `expr` at least `min` and at most `max` times, longest runs first; past the
/// minimum, an iteration that matches nothing ends the run. Every run's end is among
/// the results.
fn match_repeat(expr: &Regex, min: usize, max: Option<usize>, t: &[char], pos: usize, caps: Captures) -> (out: Vec<(usize, Captures)>)
    requires
        pos <= t@.len(),
    ensures
        all_repeats(*expr, min, max, t@, pos as int, out@),
        forall|n: nat, j: int| repeat_count_ok(min, max, n) && #[trigger] accepts_times(*expr, n, t@, pos as int, j)
            ==> has_end(out@, j),
        ends_of(out@) == layer_ends(*expr, min, max, t@, times_ends(*expr, t@, seq![pos as int], min as nat), 0,
            (t@.len() - pos) as nat),
        forall|q: int| 0 <= q < out@.len() ==> (#[trigger] out@[q]).1.full_match == caps.full_match
            && exists|n: nat| #[trigger] repeat_count_ok(min, max, n)
                && times_groups(*expr, n, t@, pos as int, out@[q].0 as int, groups_view(caps), groups_view(out@[q].1)),
        ways_of(out@) == layer_ways(*expr, min, max, t@, times_ways(*expr, t@, seq![(pos as int, groups_view(caps))], min as nat), 0,
            (t@.len() - pos) as nat),
    decreases expr, 1nat,
{
    let ghost g0 = groups_view(caps);
    let ghost f0 = caps.full_match;
    let mut seeds: Vec<(usize, Captures)> = Vec::new();
    seeds.push((pos, caps));
    proof {
        assert(seeds@[0].0 == pos);
        assert(ends_of(seeds@) =~= times_ends(*expr, t@, seq![pos as int], 0));
        assert(ways_of(seeds@) =~= times_ways(*expr, t@, seq![(pos as int, g0)], 0));
    }
    let mut done: usize = 0;
    while done < min
        invariant
            done <= min,
            pos <= t@.len(),
            forall|q: int| 0 <= q < seeds@.len() ==> pos <= (#[trigger] seeds@[q]).0 <= t@.len()
                && accepts_times(*expr, done as nat, t@, pos as int, seeds@[q].0 as int),
            forall|j: int| #[trigger] accepts_times(*expr, done as nat, t@, pos as int, j) ==> has_end(seeds@, j),
            ends_of(seeds@) == times_ends(*expr, t@, seq![pos as int], done as nat),
            ways_of(seeds@) == times_ways(*expr, t@, seq![(pos as int, g0)], done as nat),
            g0 == groups_view(caps),
            forall|q: int| 0 <= q < seeds@.len() ==> (#[trigger] seeds@[q]).1.full_match == f0
                && times_groups(*expr, done as nat, t@, pos as int, seeds@[q].0 as int, g0, groups_view(seeds@[q].1)),
        decreases min - done,
    {
        let mut next: Vec<(usize, Captures)> = Vec::new();
        let mut q: usize = 0;
        proof {
            assert(ends_of(next@) =~= step_all(*expr, t@, ends_of(seeds@).take(0)));
            assert(ways_of(next@) =~= step_ways(*expr, t@, ways_of(seeds@).take(0)));
        }
        while q < seeds.len()
            invariant
                done < min,
                q <= seeds@.len(),
                pos <= t@.len(),
                forall|a: int| 0 <= a < seeds@.len() ==> pos <= (#[trigger] seeds@[a]).0 <= t@.len()
                    && accepts_times(*expr, done as nat, t@, pos as int, seeds@[a].0 as int),
                forall|a: int| 0 <= a < next@.len() ==> pos <= (#[trigger] next@[a]).0 <= t@.len()
                    && accepts_times(*expr, (done + 1) as nat, t@, pos as int, next@[a].0 as int),
                forall|a: int, j: int| 0 <= a < q && #[trigger] accepts(*expr, t@, seeds@[a].0 as int, j) ==> has_end(next@, j),
                ends_of(next@) == step_all(*expr, t@, ends_of(seeds@).take(q as int)),
                ways_of(next@) == step_ways(*expr, t@, ways_of(seeds@).take(q as int)),
                forall|a: int| 0 <= a < seeds@.len() ==> (#[trigger] seeds@[a]).1.full_match == f0
                    && times_groups(*expr, done as nat, t@, pos as int, seeds@[a].0 as int, g0, groups_view(seeds@[a].1)),
                forall|a: int| 0 <= a < next@.len() ==> (#[trigger] next@[a]).1.full_match == f0
                    && times_groups(*expr, (done + 1) as nat, t@, pos as int, next@[a].0 as int, g0, groups_view(next@[a].1)),
            decreases seeds@.len() - q,
        {
            let p = seeds[q].0;
            let c = copy_captures(&seeds[q].1);
            let mut more = expr.match_from(t, p, c);
            let ghost m = more@;
            let ghost before = next@;
            next.append(&mut more);
            proof {
                assert forall|a: int| 0 <= a < next@.len() implies (#[trigger] next@[a]).1.full_match == f0
                    && times_groups(*expr, (done + 1) as nat, t@, pos as int, next@[a].0 as int, g0, groups_view(next@[a].1)) by {
                    if a >= before.len() {
                        let g = groups_view(seeds@[q as int].1);
                        assert(next@[a] == m[a - before.len()]);
                        assert(((done + 1) as nat - 1) as nat == done as nat);
                        assert(times_groups(*expr, ((done + 1) as nat - 1) as nat, t@, pos as int, p as int, g0, g));
                        assert(path_groups(*expr, t@, p as int, next@[a].0 as int, g, groups_view(next@[a].1)));
                        assert(split_at(p as int));
                        assert(via_groups(g));
                    } else {
                        assert(next@[a] == before[a]);
                    }
                }
                assert forall|a: int| 0 <= a < next@.len() implies pos <= (#[trigger] next@[a]).0 <= t@.len()
                    && accepts_times(*expr, (done + 1) as nat, t@, pos as int, next@[a].0 as int) by {
                    if a >= before.len() {
                        assert(next@[a] == m[a - before.len()]);
                        assert(((done + 1) as nat - 1) as nat == done as nat);
                        assert(accepts_times(*expr, ((done + 1) as nat - 1) as nat, t@, pos as int, p as int));
                        assert(accepts(*expr, t@, p as int, m[a - before.len()].0 as int));
                        assert(split_at(p as int));
                    } else {
                        assert(next@[a] == before[a]);
                    }
                }
                assert forall|a: int, j: int| 0 <= a < q + 1 && #[trigger] accepts(*expr, t@, seeds@[a].0 as int, j) implies has_end(next@, j) by {
                    lemma_has_end_append(before, m, j);
                }
                assert(ends_of(seeds@).take(q + 1).drop_last() =~= ends_of(seeds@).take(q as int));
                assert(ends_of(seeds@).take(q + 1).last() == p);
                assert(ends_of(next@) =~= ends_of(before) + ends_of(m));
                assert(ways_of(seeds@).take(q + 1).drop_last() =~= ways_of(seeds@).take(q as int));
                assert(ways_of(seeds@).take(q + 1).last() == (p as int, groups_view(seeds@[q as int].1)));
                assert(ways_of(next@) =~= ways_of(before) + ways_of(m));
            }
            q = q + 1;
        }
        proof {
            assert forall|j: int| #[trigger] accepts_times(*expr, (done + 1) as nat, t@, pos as int, j) implies has_end(next@, j) by {
                let m = choose|m: int| #![trigger split_at(m)] split_at(m) && accepts_times(*expr, done as nat, t@, pos as int, m) && accepts(*expr, t@, m, j);
                assert(has_end(seeds@, m));
                let a = choose|a: int| 0 <= a < seeds@.len() && (#[trigger] seeds@[a]).0 == m;
                assert(accepts(*expr, t@, seeds@[a].0 as int, j));
            }
        }
        proof {
            assert(ends_of(seeds@).take(seeds@.len() as int) =~= ends_of(seeds@));
            assert(ends_of(next@) == times_ends(*expr, t@, seq![pos as int], (done + 1) as nat));
            assert(ways_of(seeds@).take(seeds@.len() as int) =~= ways_of(seeds@));
            assert(ways_of(next@) == times_ways(*expr, t@, seq![(pos as int, g0)], (done + 1) as nat));
        }
        if next.len() == 0 {
            let empty: Vec<(usize, Captures)> = Vec::new();
            proof {
                lemma_times_empty(*expr, t@, seq![pos as int], (done + 1) as nat, min as nat);
                let base = times_ends(*expr, t@, seq![pos as int], min as nat);
                assert(base =~= Seq::<int>::empty());
                assert(adv_all(*expr, t@, base) =~= Seq::<int>::empty());
                assert(ends_of(empty@) =~= layer_ends(*expr, min, max, t@, base, 0, (t@.len() - pos) as nat));
                assert(ways_of(next@).len() == next@.len());
                lemma_times_ways_empty(*expr, t@, seq![(pos as int, g0)], (done + 1) as nat, min as nat);
                let wb = times_ways(*expr, t@, seq![(pos as int, g0)], min as nat);
                assert(wb =~= Seq::<(int, Slots)>::empty());
                assert(adv_ways(*expr, t@, wb) =~= Seq::<(int, Slots)>::empty());
                assert(ways_of(empty@) =~= layer_ways(*expr, min, max, t@, wb, 0, (t@.len() - pos) as nat));
                assert forall|n: nat, j: int| repeat_count_ok(min, max, n) && #[trigger] accepts_times(*expr, n, t@, pos as int, j)
                    implies has_end(empty@, j) by {
                    lemma_times_prefix(*expr, n, t@, pos as int, j, (done + 1) as nat);
                    let m = choose|m: int| #[trigger] accepts_times(*expr, (done + 1) as nat, t@, pos as int, m);
                    assert(has_end(next@, m));
                }
            }
            return empty;
        }
        let ghost gnext = next@;
        let ghost od = done;
        seeds = next;
        done = done + 1;
        proof {
            assert forall|j: int| #[trigger] accepts_times(*expr, done as nat, t@, pos as int, j) implies has_end(seeds@, j) by {
                assert((od + 1) as nat == done as nat);
                assert(accepts_times(*expr, (od + 1) as nat, t@, pos as int, j));
                assert(has_end(gnext, j));
            }
        }
    }
    proof {
        assert forall|j: int| #[trigger] reach(*expr, min, t@, pos as int, 0, j) implies has_end(seeds@, j) by {
            let p = choose|p: int| #![trigger split_at(p)] split_at(p) && accepts_times(*expr, min as nat, t@, pos as int, p) && advancing_times(*expr, 0, t@, p, j);
            assert(accepts_times(*expr, done as nat, t@, pos as int, j));
        }
    }
    let ghost base = ends_of(seeds@);
    let ghost wbase = ways_of(seeds@);
    let ghost fuel0 = (t@.len() - pos) as nat;
    let mut layers: Vec<Vec<(usize, Captures)>> = Vec::new();
    layers.push(seeds);
    let mut extra: usize = 0;
    let ghost mut ls: Seq<Seq<int>> = seq![base];
    let ghost mut lw: Seq<Seq<(int, Slots)>> = seq![wbase];
    proof {
        assert(layers@[0]@ == seeds@);
        assert(layer_ends(*expr, min, max, t@, base, 0, fuel0) =~= layer_ends(*expr, min, max, t@, ls[0], 0, fuel0) + down_concat(ls, 0));
        assert(layer_ways(*expr, min, max, t@, wbase, 0, fuel0) =~= layer_ways(*expr, min, max, t@, lw[0], 0, fuel0) + down_concat(lw, 0));
    }
    loop
        invariant
            pos <= t@.len(),
            layers@.len() == extra + 1,
            extra <= t@.len() - pos,
            match max {
                Some(mx) => extra == 0 || min + extra <= mx,
                None => true,
            },
            forall|l: int, q: int| 0 <= l < layers@.len() && 0 <= q < layers@[l]@.len() ==> pos <= (#[trigger] layers@[l]@[q]).0 <= t@.len()
                && accepts_times(*expr, (min + l) as nat, t@, pos as int, layers@[l]@[q].0 as int),
            forall|l: int, q: int| 0 <= l < layers@.len() && 0 <= q < layers@[l]@.len() ==> (#[trigger] layers@[l]@[q]).1.full_match == f0
                && times_groups(*expr, (min + l) as nat, t@, pos as int, layers@[l]@[q].0 as int, g0, groups_view(layers@[l]@[q].1)),
            forall|q: int| 0 <= q < layers@[layers@.len() - 1]@.len() ==> pos + extra <= (#[trigger] layers@[layers@.len() - 1]@[q]).0,
            forall|l: nat, j: int| l < layers@.len() && #[trigger] reach(*expr, min, t@, pos as int, l, j) ==> has_end(layers@[l as int]@, j),
            ls.len() == layers@.len(),
            forall|k: int| 0 <= k < ls.len() ==> ends_of(#[trigger] layers@[k]@) == ls[k],
            fuel0 == t@.len() - pos,
            layer_ends(*expr, min, max, t@, base, 0, fuel0)
                == layer_ends(*expr, min, max, t@, ls[extra as int], extra as nat, (fuel0 - extra) as nat) + down_concat(ls, extra as int),
            lw.len() == layers@.len(),
            forall|k: int| 0 <= k < lw.len() ==> ways_of(#[trigger] layers@[k]@) == lw[k],
            layer_ways(*expr, min, max, t@, wbase, 0, fuel0)
                == layer_ways(*expr, min, max, t@, lw[extra as int], extra as nat, (fuel0 - extra) as nat) + down_concat(lw, extra as int),
        ensures
            layers@.len() == extra + 1,
            match max {
                Some(mx) => extra == 0 || min + extra <= mx,
                None => true,
            },
            forall|l: int, q: int| 0 <= l < layers@.len() && 0 <= q < layers@[l]@.len() ==> pos <= (#[trigger] layers@[l]@[q]).0 <= t@.len()
                && accepts_times(*expr, (min + l) as nat, t@, pos as int, layers@[l]@[q].0 as int),
            forall|l: int, q: int| 0 <= l < layers@.len() && 0 <= q < layers@[l]@.len() ==> (#[trigger] layers@[l]@[q]).1.full_match == f0
                && times_groups(*expr, (min + l) as nat, t@, pos as int, layers@[l]@[q].0 as int, g0, groups_view(layers@[l]@[q].1)),
            forall|l: nat, j: int| l < layers@.len() && #[trigger] reach(*expr, min, t@, pos as int, l, j) ==> has_end(layers@[l as int]@, j),
            (max matches Some(mx) && min + extra >= mx) || (forall|j: int| !#[trigger] reach(*expr, min, t@, pos as int, (extra + 1) as nat, j)),
            ls.len() == layers@.len(),
            forall|k: int| 0 <= k < ls.len() ==> ends_of(#[trigger] layers@[k]@) == ls[k],
            layer_ends(*expr, min, max, t@, base, 0, fuel0) == down_concat(ls, extra + 1),
            lw.len() == layers@.len(),
            forall|k: int| 0 <= k < lw.len() ==> ways_of(#[trigger] layers@[k]@) == lw[k],
            layer_ways(*expr, min, max, t@, wbase, 0, fuel0) == down_concat(lw, extra + 1),
        decreases t@.len() - pos - extra,
    {
        if let Some(mx) = max {
            if mx <= min || extra >= mx - min {
                proof {
                    assert(repeat_full(min, max, extra as nat));
                    assert(down_concat(ls, extra + 1) == ls[extra as int] + down_concat(ls, extra as int));
                    assert(down_concat(lw, extra + 1) == lw[extra as int] + down_concat(lw, extra as int));
                }
                break;
            }
        }
        proof {
            assert(!repeat_full(min, max, extra as nat));
        }
        let last_index = layers.len() - 1;
        let last = copy_states(&layers[last_index]);
        let ghost lx = ls[extra as int];
        let ghost lwx = lw[extra as int];
        let mut next: Vec<(usize, Captures)> = Vec::new();
        let mut q: usize = 0;
        proof {
            assert(ends_of(last@) =~= ends_of(layers@[extra as int]@));
            assert(ends_of(next@) =~= adv_all(*expr, t@, lx.take(0)));
            assert(ways_of(last@) =~= ways_of(layers@[extra as int]@));
            assert(ways_of(next@) =~= adv_ways(*expr, t@, lwx.take(0)));
        }
        while q < last.len()
            invariant
                q <= last@.len(),
                pos <= t@.len(),
                last_index == extra,
                layers@.len() == extra + 1,
                last@.len() == layers@[extra as int]@.len(),
                forall|a: int| 0 <= a < last@.len() ==> (#[trigger] last@[a]).0 == layers@[extra as int]@[a].0,
                forall|a: int| 0 <= a < last@.len() ==> pos + extra <= (#[trigger] last@[a]).0 <= t@.len()
                    && accepts_times(*expr, (min + extra) as nat, t@, pos as int, last@[a].0 as int),
                forall|a: int| 0 <= a < next@.len() ==> pos + extra < (#[trigger] next@[a]).0 <= t@.len()
                    && accepts_times(*expr, (min + extra + 1) as nat, t@, pos as int, next@[a].0 as int),
                forall|a: int, j: int| 0 <= a < q && #[trigger] accepts(*expr, t@, last@[a].0 as int, j) && j != last@[a].0
                    ==> has_end(next@, j),
                ends_of(last@) == lx,
                ends_of(next@) == adv_all(*expr, t@, lx.take(q as int)),
                ways_of(last@) == lwx,
                ways_of(next@) == adv_ways(*expr, t@, lwx.take(q as int)),
                forall|a: int| 0 <= a < last@.len() ==> (#[trigger] last@[a]).1.full_match == f0
                    && times_groups(*expr, (min + extra) as nat, t@, pos as int, last@[a].0 as int, g0, groups_view(last@[a].1)),
                forall|a: int| 0 <= a < next@.len() ==> (#[trigger] next@[a]).1.full_match == f0
                    && times_groups(*expr, (min + extra + 1) as nat, t@, pos as int, next@[a].0 as int, g0, groups_view(next@[a].1)),
            decreases last@.len() - q,
        {
            let p = last[q].0;
            let c = copy_captures(&last[q].1);
            let ghost gq = groups_view(last@[q as int].1);
            let found = expr.match_from(t, p, c);
            let ghost before_all = next@;
            let mut r: usize = 0;
            proof {
                assert(ends_of(next@) =~= ends_of(before_all) + without(ends_of(found@).take(0), p as int));
                assert(ways_of(next@) =~= ways_of(before_all) + without_ways(ways_of(found@).take(0), p as int));
            }
            while r < found.len()
                invariant
                    r <= found@.len(),
                    pos + extra <= p <= t@.len(),
                    accepts_times(*expr, (min + extra) as nat, t@, pos as int, p as int),
                    all_sound(*expr, t@, p as int, found@),
                    forall|a: int| 0 <= a < next@.len() ==> pos + extra < (#[trigger] next@[a]).0 <= t@.len()
                        && accepts_times(*expr, (min + extra + 1) as nat, t@, pos as int, next@[a].0 as int),
                    forall|j: int| has_end(before_all, j) ==> has_end(next@, j),
                    forall|b: int| 0 <= b < r && (#[trigger] found@[b]).0 != p ==> has_end(next@, found@[b].0 as int),
                    ends_of(found@) == match_ends(*expr, t@, p as int),
                    ends_of(next@) == ends_of(before_all) + without(ends_of(found@).take(r as int), p as int),
                    ways_of(found@) == match_ways(*expr, t@, p as int, gq),
                    ways_of(next@) == ways_of(before_all) + without_ways(ways_of(found@).take(r as int), p as int),
                    times_groups(*expr, (min + extra) as nat, t@, pos as int, p as int, g0, gq),
                    forall|b: int| 0 <= b < found@.len() ==> (#[trigger] found@[b]).1.full_match == f0
                        && path_groups(*expr, t@, p as int, found@[b].0 as int, gq, groups_view(found@[b].1)),
                    forall|a: int| 0 <= a < next@.len() ==> (#[trigger] next@[a]).1.full_match == f0
                        && times_groups(*expr, (min + extra + 1) as nat, t@, pos as int, next@[a].0 as int, g0, groups_view(next@[a].1)),
                decreases found@.len() - r,
            {
                let p2 = found[r].0;
                let ghost nb = next@;
                proof {
                    assert(ends_of(found@).take(r + 1).drop_last() =~= ends_of(found@).take(r as int));
                    assert(ends_of(found@).take(r + 1).last() == p2);
                    assert(ways_of(found@).take(r + 1).drop_last() =~= ways_of(found@).take(r as int));
                    assert(ways_of(found@).take(r + 1).last() == (p2 as int, groups_view(found@[r as int].1)));
                }
                if p2 != p {
                    let c2 = copy_captures(&found[r].1);
                    let ghost prev = next@;
                    next.push((p2, c2));
                    proof {
                        assert forall|a: int| 0 <= a < next@.len() implies (#[trigger] next@[a]).1.full_match == f0
                            && times_groups(*expr, (min + extra + 1) as nat, t@, pos as int, next@[a].0 as int, g0, groups_view(next@[a].1)) by {
                            if a < prev.len() {
                                assert(next@[a] == prev[a]);
                            } else {
                                assert(next@[a] == (p2, c2));
                                assert(((min + extra + 1) as nat - 1) as nat == (min + extra) as nat);
                                assert(path_groups(*expr, t@, p as int, found@[r as int].0 as int, gq, groups_view(found@[r as int].1)));
                                assert(split_at(p as int));
                                assert(via_groups(gq));
                            }
                        }
                        assert(accepts(*expr, t@, p as int, p2 as int));
                        assert(((min + extra + 1) as nat - 1) as nat == (min + extra) as nat);
                        assert(accepts_times(*expr, ((min + extra + 1) as nat - 1) as nat, t@, pos as int, p as int));
                        assert(split_at(p as int));
                        assert(accepts_times(*expr, (min + extra + 1) as nat, t@, pos as int, p2 as int));
                        assert forall|j: int| has_end(before_all, j) implies has_end(next@, j) by {
                            lemma_has_end_push(prev, (p2, c2), j);
                        }
                        assert forall|b: int| 0 <= b < r + 1 && (#[trigger] found@[b]).0 != p implies has_end(next@, found@[b].0 as int) by {
                            lemma_has_end_push(prev, (p2, c2), found@[b].0 as int);
                        }
                        assert(ends_of(next@) =~= ends_of(nb).push(p2 as int));
                        assert(ways_of(next@) =~= ways_of(nb).push((p2 as int, groups_view(c2))));
                    }
                }
                proof {
                    assert(ends_of(next@) =~= ends_of(before_all) + without(ends_of(found@).take(r + 1), p as int));
                    assert(ways_of(next@) =~= ways_of(before_all) + without_ways(ways_of(found@).take(r + 1), p as int));
                }
                r = r + 1;
            }
            proof {
                assert(ends_of(found@).take(found@.len() as int) =~= ends_of(found@));
                assert(lx.take(q + 1).drop_last() =~= lx.take(q as int));
                assert(lx.take(q + 1).last() == p);
                assert(ends_of(next@) == adv_all(*expr, t@, lx.take(q + 1)));
                assert(ways_of(found@).take(found@.len() as int) =~= ways_of(found@));
                assert(lwx.take(q + 1).drop_last() =~= lwx.take(q as int));
                assert(lwx.take(q + 1).last() == (p as int, gq));
                assert(ways_of(next@) == adv_ways(*expr, t@, lwx.take(q + 1)));
                assert forall|a: int, j: int| 0 <= a < q + 1 && #[trigger] accepts(*expr, t@, last@[a].0 as int, j) && j != last@[a].0
                    implies has_end(next@, j) by {
                    if a == q {
                        let b = choose|b: int| 0 <= b < found@.len() && (#[trigger] found@[b]).0 == j;
                        assert(found@[b].0 != p);
                    }
                }
            }
            q = q + 1;
        }
        proof {
            assert forall|j: int| #[trigger] reach(*expr, min, t@, pos as int, (extra + 1) as nat, j) implies has_end(next@, j) by {
                let p0 = choose|p: int| #![trigger split_at(p)] split_at(p) && accepts_times(*expr, min as nat, t@, pos as int, p) && advancing_times(*expr, (extra + 1) as nat, t@, p, j);
                let m = choose|m: int| #![trigger split_at(m)] split_at(m) && advancing_times(*expr, extra as nat, t@, p0, m) && m != j && accepts(*expr, t@, m, j);
                assert(reach(*expr, min, t@, pos as int, extra as nat, m));
                assert(has_end(layers@[extra as int]@, m));
                let a = choose|a: int| 0 <= a < layers@[extra as int]@.len() && (#[trigger] layers@[extra as int]@[a]).0 == m;
                assert(last@[a].0 == m);
                assert(accepts(*expr, t@, last@[a].0 as int, j));
            }
        }
        proof {
            assert(lx.take(last@.len() as int) =~= lx);
            assert(ends_of(next@) == adv_all(*expr, t@, lx));
            assert(lwx.take(last@.len() as int) =~= lwx);
            assert(ways_of(next@) == adv_ways(*expr, t@, lwx));
        }
        if next.len() == 0 {
            proof {
                assert(down_concat(ls, extra + 1) == ls[extra as int] + down_concat(ls, extra as int));
                assert(layer_ends(*expr, min, max, t@, lx, extra as nat, (fuel0 - extra) as nat) == lx);
                assert(down_concat(lw, extra + 1) == lw[extra as int] + down_concat(lw, extra as int));
                assert(ways_of(next@).len() == 0);
                assert(layer_ways(*expr, min, max, t@, lwx, extra as nat, (fuel0 - extra) as nat) == lwx);
            }
            break;
        }
        proof {
            assert(pos + extra < next@[0].0 <= t@.len());
        }
        let ghost old_layers = layers@;
        let ghost gn = next@;
        layers.push(next);
        proof {
            let nx = ends_of(gn);
            let ols = ls;
            assert(fuel0 - extra > 0) by {
                assert(gn.len() > 0);
                assert(pos + extra < gn[0].0 <= t@.len());
            }
            assert(layer_ends(*expr, min, max, t@, lx, extra as nat, (fuel0 - extra) as nat)
                == layer_ends(*expr, min, max, t@, nx, (extra + 1) as nat, (fuel0 - (extra + 1)) as nat) + lx);
            ls = ls.push(nx);
            lemma_down_push(ols, nx, extra as int);
            let nw = ways_of(gn);
            let olw = lw;
            assert(nw.len() == gn.len());
            assert(layer_ways(*expr, min, max, t@, lwx, extra as nat, (fuel0 - extra) as nat)
                == layer_ways(*expr, min, max, t@, nw, (extra + 1) as nat, (fuel0 - (extra + 1)) as nat) + lwx);
            lw = lw.push(nw);
            lemma_down_push(olw, nw, extra as int);
            assert(down_concat(lw, extra + 1) == lw[extra as int] + down_concat(lw, extra as int));
            assert(lw[extra as int] == lwx);
            assert(layer_ways(*expr, min, max, t@, wbase, 0, fuel0)
                =~= layer_ways(*expr, min, max, t@, lw[extra + 1], (extra + 1) as nat, (fuel0 - (extra + 1)) as nat)
                + down_concat(lw, extra + 1));
            assert forall|k: int| 0 <= k < lw.len() implies ways_of(#[trigger] layers@[k]@) == lw[k] by {
                if k < olw.len() {
                    assert(layers@[k] == old_layers[k]);
                } else {
                    assert(layers@[k]@ == gn);
                }
            }
            assert(down_concat(ls, extra + 1) == ls[extra as int] + down_concat(ls, extra as int));
            assert(ls[extra as int] == lx);
            assert(layer_ends(*expr, min, max, t@, base, 0, fuel0)
                =~= layer_ends(*expr, min, max, t@, ls[extra + 1], (extra + 1) as nat, (fuel0 - (extra + 1)) as nat)
                + down_concat(ls, extra + 1));
            assert forall|k: int| 0 <= k < ls.len() implies ends_of(#[trigger] layers@[k]@) == ls[k] by {
                if k < ols.len() {
                    assert(layers@[k] == old_layers[k]);
                } else {
                    assert(layers@[k]@ == gn);
                }
            }
            assert forall|l: int, q: int| 0 <= l < layers@.len() && 0 <= q < layers@[l]@.len() implies pos <= (#[trigger] layers@[l]@[q]).0 <= t@.len()
                && accepts_times(*expr, (min + l) as nat, t@, pos as int, layers@[l]@[q].0 as int) by {
                if l < old_layers.len() {
                    assert(layers@[l] == old_layers[l]);
                }
            }
            assert forall|l: nat, j: int| l < layers@.len() && #[trigger] reach(*expr, min, t@, pos as int, l, j) implies has_end(layers@[l as int]@, j) by {
                if l < old_layers.len() {
                    assert(layers@[l as int] == old_layers[l as int]);
                } else {
                    assert(l == (extra + 1) as nat);
                    assert(reach(*expr, min, t@, pos as int, (extra + 1) as nat, j));
                    assert(has_end(gn, j));
                    assert(layers@[l as int]@ == gn);
                }
            }
        }
        extra = extra + 1;
    }
    let mut out: Vec<(usize, Captures)> = Vec::new();
    let mut l = layers.len();
    proof {
        assert(ends_of(out@) + down_concat(ls, l as int) =~= down_concat(ls, ls.len() as int));
        assert(ways_of(out@) + down_concat(lw, l as int) =~= down_concat(lw, lw.len() as int));
    }
    while l > 0
        invariant
            l <= layers@.len(),
            pos <= t@.len(),
            layers@.len() == extra + 1,
            match max {
                Some(mx) => extra == 0 || min + extra <= mx,
                None => true,
            },
            forall|a: int, q: int| 0 <= a < layers@.len() && 0 <= q < layers@[a]@.len() ==> pos <= (#[trigger] layers@[a]@[q]).0 <= t@.len()
                && accepts_times(*expr, (min + a) as nat, t@, pos as int, layers@[a]@[q].0 as int),
            forall|a: int, q: int| 0 <= a < layers@.len() && 0 <= q < layers@[a]@.len() ==> (#[trigger] layers@[a]@[q]).1.full_match == f0
                && times_groups(*expr, (min + a) as nat, t@, pos as int, layers@[a]@[q].0 as int, g0, groups_view(layers@[a]@[q].1)),
            all_repeats(*expr, min, max, t@, pos as int, out@),
            forall|q: int| 0 <= q < out@.len() ==> (#[trigger] out@[q]).1.full_match == f0
                && exists|n: nat| #[trigger] repeat_count_ok(min, max, n) && times_groups(*expr, n, t@, pos as int, out@[q].0 as int, g0, groups_view(out@[q].1)),
            forall|a: int, j: int| l <= a < layers@.len() && #[trigger] has_end(layers@[a]@, j) ==> has_end(out@, j),
            forall|a: nat, j: int| a < layers@.len() && #[trigger] reach(*expr, min, t@, pos as int, a, j) ==> has_end(layers@[a as int]@, j),
            (max matches Some(mx) && min + extra >= mx) || (forall|j: int| !#[trigger] reach(*expr, min, t@, pos as int, (extra + 1) as nat, j)),
            ls.len() == layers@.len(),
            forall|k: int| 0 <= k < ls.len() ==> ends_of(#[trigger] layers@[k]@) == ls[k],
            ends_of(out@) + down_concat(ls, l as int) == down_concat(ls, ls.len() as int),
            lw.len() == layers@.len(),
            forall|k: int| 0 <= k < lw.len() ==> ways_of(#[trigger] layers@[k]@) == lw[k],
            ways_of(out@) + down_concat(lw, l as int) == down_concat(lw, lw.len() as int),
        decreases l,
    {
        l = l - 1;
        let mut layer = copy_states(&layers[l]);
        let ghost lay = layer@;
        proof {
            assert forall|q: int| 0 <= q < lay.len() implies pos <= (#[trigger] lay[q]).0 <= t@.len() && exists|n: nat|
                #[trigger] repeat_count_ok(min, max, n) && accepts_times(*expr, n, t@, pos as int, lay[q].0 as int) by {
                let n = (min + l) as nat;
                assert(lay[q].0 == layers@[l as int]@[q].0);
                assert(accepts_times(*expr, n, t@, pos as int, layers@[l as int]@[q].0 as int));
                assert(repeat_count_ok(min, max, n));
            }
        }
        let ghost before = out@;
        out.append(&mut layer);
        proof {
            assert forall|a: int| 0 <= a < out@.len() implies (#[trigger] out@[a]).1.full_match == f0
                && exists|n: nat| #[trigger] repeat_count_ok(min, max, n) && times_groups(*expr, n, t@, pos as int, out@[a].0 as int, g0, groups_view(out@[a].1)) by {
                if a >= before.len() {
                    let q = a - before.len();
                    let n = (min + l) as nat;
                    assert(out@[a] == lay[q]);
                    assert(same_caps(lay[q].1, layers@[l as int]@[q].1));
                    assert(times_groups(*expr, n, t@, pos as int, layers@[l as int]@[q].0 as int, g0, groups_view(layers@[l as int]@[q].1)));
                    assert(groups_view(lay[q].1) == groups_view(layers@[l as int]@[q].1));
                    assert(repeat_count_ok(min, max, n));
                } else {
                    assert(out@[a] == before[a]);
                }
            }
            assert forall|a: int| 0 <= a < out@.len() implies pos <= (#[trigger] out@[a]).0 <= t@.len() && exists|n: nat|
                #[trigger] repeat_count_ok(min, max, n) && accepts_times(*expr, n, t@, pos as int, out@[a].0 as int) by {
                if a >= before.len() {
                    assert(out@[a] == lay[a - before.len()]);
                } else {
                    assert(out@[a] == before[a]);
                }
            }
            assert(ends_of(lay) =~= ends_of(layers@[l as int]@));
            assert(ends_of(out@) =~= ends_of(before) + ls[l as int]);
            assert(down_concat(ls, l + 1) == ls[l as int] + down_concat(ls, l as int));
            assert(ends_of(out@) + down_concat(ls, l as int) =~= ends_of(before) + down_concat(ls, l + 1));
            assert(ways_of(lay) =~= ways_of(layers@[l as int]@));
            assert(ways_of(out@) =~= ways_of(before) + lw[l as int]);
            assert(down_concat(lw, l + 1) == lw[l as int] + down_concat(lw, l as int));
            assert(ways_of(out@) + down_concat(lw, l as int) =~= ways_of(before) + down_concat(lw, l + 1));
            assert forall|a: int, j: int| l <= a < layers@.len() && #[trigger] has_end(layers@[a]@, j) implies has_end(out@, j) by {
                lemma_has_end_append(before, lay, j);
                if a == l {
                    let q = choose|q: int| 0 <= q < layers@[a]@.len() && (#[trigger] layers@[a]@[q]).0 == j;
                    assert(lay[q].0 == j);
                }
            }
        }
    }
    proof {
        assert forall|n: nat, j: int| repeat_count_ok(min, max, n) && #[trigger] accepts_times(*expr, n, t@, pos as int, j)
            implies has_end(out@, j) by {
            lemma_reduce_times(*expr, min, n, t@, pos as int, j);
            let lc = choose|lc: nat| lc <= n - min && #[trigger] reach(*expr, min, t@, pos as int, lc, j);
            if lc > extra {
                if max matches Some(mx) && min + extra >= mx {
                    assert(false);
                } else {
                    let p0 = choose|p: int| #![trigger split_at(p)] split_at(p) && accepts_times(*expr, min as nat, t@, pos as int, p) && advancing_times(*expr, lc, t@, p, j);
                    lemma_advancing_prefix(*expr, lc, t@, p0, j, (extra + 1) as nat);
                    let m = choose|m: int| #[trigger] advancing_times(*expr, (extra + 1) as nat, t@, p0, m);
                    assert(reach(*expr, min, t@, pos as int, (extra + 1) as nat, m));
                    assert(false);
                }
            }
            assert(lc <= extra);
            assert(0 <= lc < layers@.len());
            assert(reach(*expr, min, t@, pos as int, lc, j));
            assert(has_end(layers@[lc as int]@, j));
        }
        assert(ends_of(out@) =~= ends_of(out@) + down_concat(ls, 0));
        assert(ways_of(out@) =~= ways_of(out@) + down_concat(lw, 0));
    }
    out
}

} // verus!

verus! {

impl Regex {
    /// A character class from ranges and single characters.
    pub fn char_class(ranges: Vec<(char, char)>, chars: Vec<char>, negated: bool) -> (r: Self)
        ensures
            r == (Regex::CharClass { ranges, chars, negated }),
    {
        Regex::CharClass { ranges, chars, negated }
    }

    /// `\d`: the digits `0`-`9`.
    pub fn digit() -> (r: Self)
        ensures
            digit_class(r),
    {
        let mut ranges = Vec::new();
        ranges.push(('0', '9'));
        Regex::char_class(ranges, Vec::new(), false)
    }

    /// `\w`: ASCII letters, digits and underscore.
    pub fn word_char() -> (r: Self)
        ensures
            word_class(r),
    {
        let mut ranges = Vec::new();
        ranges.push(('a', 'z'));
        ranges.push(('A', 'Z'));
        ranges.push(('0', '9'));
        let mut chars = Vec::new();
        chars.push('_');
        assert(ranges@ =~= seq![('a', 'z'), ('A', 'Z'), ('0', '9')]);
        assert(chars@ =~= seq!['_']);
        Regex::char_class(ranges, chars, false)
    }

    /// `\s`: space, tab, newline and carriage return.
    pub fn whitespace() -> (r: Self)
        ensures
            space_class(r),
    {
        let mut chars = Vec::new();
        chars.push(' ');
        chars.push('\t');
        chars.push('\n');
        chars.push('\r');
        assert(chars@ =~= seq![' ', '\t', '\n', '\r']);
        Regex::char_class(Vec::new(), chars, false)
    }

    /// `expr*`.
    pub fn zero_or_more(expr: Regex) -> (r: Self)
        ensures
            r == (Regex::Repeat { expr: Box::new(expr), min: 0, max: None }),
    {
        Regex::Repeat { expr: Box::new(expr), min: 0, max: None }
    }

    /// `expr+`.
    pub fn one_or_more(expr: Regex) -> (r: Self)
        ensures
            r == (Regex::Repeat { expr: Box::new(expr), min: 1, max: None }),
    {
        Regex::Repeat { expr: Box::new(expr), min: 1, max: None }
    }

    /// `expr?`.
    pub fn optional(expr: Regex) -> (r: Self)
        ensures
            r == (Regex::Repeat { expr: Box::new(expr), min: 0, max: Some(1) }),
    {
        Regex::Repeat { expr: Box::new(expr), min: 0, max: Some(1) }
    }

    /// `expr{n}`.
    pub fn exactly(expr: Regex, n: usize) -> (r: Self)
        ensures
            r == (Regex::Repeat { expr: Box::new(expr), min: n, max: Some(n) }),
    {
        Regex::Repeat { expr: Box::new(expr), min: n, max: Some(n) }
    }

    /// `expr{min,max}`.
    pub fn between(expr: Regex, min: usize, max: usize) -> (r: Self)
        ensures
            r == (Regex::Repeat { expr: Box::new(expr), min, max: Some(max) }),
    {
        Regex::Repeat { expr: Box::new(expr), min, max: Some(max) }
    }

    /// `a|b|...`.
    pub fn alt(options: Vec<Regex>) -> (r: Self)
        ensures
            r == Regex::Alternation(options),
    {
        Regex::Alternation(options)
    }

    /// A capture group numbered `id`.
    pub fn group(expr: Regex, id: usize) -> (r: Self)
        ensures
            r == (Regex::Group { id, expr: Box::new(expr) }),
    {
        Regex::Group { id, expr: Box::new(expr) }
    }
}

/// Whether the tree contains an alternation outside character classes (looking through
/// sequences, groups and repeats).
pub open spec fn alternates(r: Regex) -> bool
    decreases r,
{
    match r {
        Regex::Alternation(_) => true,
        Regex::Sequence(xs) => exists|k: int| 0 <= k < xs@.len() && alternates(xs@[k]),
        Regex::Group { expr, .. } => alternates(*expr),
        Regex::Repeat { expr, .. } => alternates(*expr),
        _ => false,
    }
}

/// Whether the tree contains an alternation.
pub fn has_alternation(regex: &Regex) -> (r: bool)
    ensures
        r == alternates(*regex),
    decreases regex, 0nat,
{
    match regex {
        Regex::Alternation(_) => true,
        Regex::Sequence(xs) => any_alternates(xs),
        Regex::Group { expr, .. } => has_alternation(expr),
        Regex::Repeat { expr, .. } => has_alternation(expr),
        _ => false,
    }
}

fn any_alternates(xs: &Vec<Regex>) -> (r: bool)
    ensures
        r == exists|k: int| 0 <= k < xs@.len() && alternates(xs@[k]),
    decreases xs, 1nat,
{
    let mut i: usize = 0;
    while i < xs.len()
        invariant
            i <= xs@.len(),
            forall|k: int| 0 <= k < i ==> !alternates(#[trigger] xs@[k]),
        decreases xs@.len() - i,
    {
        proof {
            assert(decreases_to!(xs => xs@[i as int]));
        }
        if has_alternation(&xs[i]) {
            return true;
        }
        i = i + 1;
    }
    false
}

/// Whether every match must begin at the start of the text: the tree is a start anchor,
/// a sequence whose first item is one, or a group around such a tree.
pub open spec fn anchored_at_start(r: Regex) -> bool
    decreases r,
{
    match r {
        Regex::Anchor(AnchorKind::StartOfLine) => true,
        Regex::Sequence(xs) => xs@.len() > 0 && xs@[0] == Regex::Anchor(AnchorKind::StartOfLine),
        Regex::Group { expr, .. } => anchored_at_start(*expr),
        _ => false,
    }
}

/// Whether the tree is anchored at the start of the text (see `anchored_at_start`).
pub fn is_anchored_at_start(regex: &Regex) -> (r: bool)
    ensures
        r == anchored_at_start(*regex),
    decreases regex,
{
    match regex {
        Regex::Anchor(AnchorKind::StartOfLine) => true,
        Regex::Sequence(xs) => xs.len() > 0 && matches!(xs[0], Regex::Anchor(AnchorKind::StartOfLine)),
        Regex::Group { expr, .. } => is_anchored_at_start(expr),
        _ => false,
    }
}

/// Whether the tree matches one fixed string: only literals, characters and empty
/// pieces, possibly inside sequences and groups.
pub open spec fn literal_only(r: Regex) -> bool
    decreases r,
{
    match r {
        Regex::Empty => true,
        Regex::Literal(_) => true,
        Regex::Char(_) => true,
        Regex::Sequence(xs) => forall|k: int| 0 <= k < xs@.len() ==> literal_only(#[trigger] xs@[k]),
        Regex::Group { expr, .. } => literal_only(*expr),
        _ => false,
    }
}

/// Whether the tree matches one fixed string (see `literal_only`).
pub fn is_literal_only(regex: &Regex) -> (r: bool)
    ensures
        r == literal_only(*regex),
    decreases regex, 0nat,
{
    match regex {
        Regex::Empty => true,
        Regex::Literal(_) => true,
        Regex::Char(_) => true,
        Regex::Sequence(xs) => all_literal(xs),
        Regex::Group { expr, .. } => is_literal_only(expr),
        _ => false,
    }
}

fn all_literal(xs: &Vec<Regex>) -> (r: bool)
    ensures
        r == forall|k: int| 0 <= k < xs@.len() ==> literal_only(#[trigger] xs@[k]),
    decreases xs, 1nat,
{
    let mut i: usize = 0;
    while i < xs.len()
        invariant
            i <= xs@.len(),
            forall|k: int| 0 <= k < i ==> literal_only(#[trigger] xs@[k]),
        decreases xs@.len() - i,
    {
        proof {
            assert(decreases_to!(xs => xs@[i as int]));
        }
        if !is_literal_only(&xs[i]) {
            return false;
        }
        i = i + 1;
    }
    true
}

/// The text of a `Literal` node; any other node is refused.
pub fn extract_literal(regex: &Regex) -> (r: Result<String, &'static str>)
    ensures
        *regex matches Regex::Literal(s) ==> (r matches Ok(v) && v@ == s@),
        !(regex is Literal) ==> (r matches Err(e) && e@ == "Not a literal pattern"@),
{
    match regex {
        Regex::Literal(s) => Ok(s.clone()),
        _ => Err("Not a literal pattern"),
    }
}

/// The number of a `Group` node; any other node is refused.
pub fn extract_group_id(regex: &Regex) -> (r: Result<usize, &'static str>)
    ensures
        *regex matches Regex::Group { id, .. } ==> r == Ok::<usize, &'static str>(id),
        !(regex is Group) ==> (r matches Err(e) && e@ == "Not a group"@),
{
    match regex {
        Regex::Group { id, .. } => Ok(*id),
        _ => Err("Not a group"),
    }
}

/// The bounds of a `Repeat` node; any other node is refused.
pub fn get_quantifier_bounds(regex: &Regex) -> (r: Result<(usize, Option<usize>), &'static str>)
    ensures
        *regex matches Regex::Repeat { min, max, .. } ==> r == Ok::<(usize, Option<usize>), &'static str>((min, max)),
        !(regex is Repeat) ==> (r matches Err(e) && e@ == "Not a quantifier"@),
{
    match regex {
        Regex::Repeat { min, max, .. } => Ok((*min, *max)),
        _ => Err("Not a quantifier"),
    }
}

} // verus!

verus! {

impl Regex {
    /// The first match: tries each start position in turn (only the start of the text
    /// when the pattern is anchored there; every position up to the end of the text
    /// otherwise) and takes the first way the pattern matches there, which for a repeat
    /// is its longest run. Positions are character indices.
    fn search(&self, t: &[char]) -> (r: Option<(usize, usize, Captures)>)
        ensures
            r is None <==> !found_somewhere(*self, t@),
            r matches Some((i, j, c)) ==> i <= j <= t@.len() && accepts(*self, t@, i as int, j as int)
                && first_start(*self, t@, i as int)
                && match_ends(*self, t@, i as int).len() > 0 && j == match_ends(*self, t@, i as int)[0]
                && path_groups(*self, t@, i as int, j as int, blank_groups(slot_count(*self)), groups_view(c))
                && match_ways(*self, t@, i as int, blank_groups(slot_count(*self))).len() > 0
                && groups_view(c) == match_ways(*self, t@, i as int, blank_groups(slot_count(*self)))[0].1,
    {
        let anchored = is_anchored_at_start(self);
        let last_start: usize = if anchored { 0 } else { t.len() };
        let groups = count_groups(self);
        let mut start: usize = 0;
        while start <= last_start
            invariant
                last_start <= t@.len(),
                last_start == last_start_of(*self, t@),
                groups == slot_count(*self),
                forall|s: int| 0 <= s < start ==> !#[trigger] matches_from(*self, t@, s),
            ensures
                forall|s: int| 0 <= s <= last_start ==> !#[trigger] matches_from(*self, t@, s),
            decreases last_start + 1 - start,
        {
            let caps = Captures::new(groups);
            proof {
                assert(groups_view(caps) =~= blank_groups(slot_count(*self)));
            }
            let mut found = self.match_from(t, start, caps);
            if found.len() > 0 {
                let ghost f = found@;
                let (end, c) = found.remove(0);
                proof {
                    assert(f[0].0 == end);
                    assert(ends_of(f)[0] == end as int);
                    assert(accepts(*self, t@, start as int, end as int));
                    assert(matches_from(*self, t@, start as int));
                    assert(f[0].1 == c);
                    assert(ways_of(f)[0] == (end as int, groups_view(c)));
                }
                return Some((start, end, c));
            }
            proof {
                if matches_from(*self, t@, start as int) {
                    let j = choose|j: int| #[trigger] accepts(*self, t@, start as int, j);
                    assert(has_end(found@, j));
                }
            }
            if start == last_start {
                break;
            }
            start = start + 1;
        }
        None
    }

    /// Whether the pattern matches somewhere in `text`: at one of the start positions
    /// that the search tries.
    pub fn is_match(&self, text: &str) -> (r: bool)
        ensures
            r == found_somewhere(*self, text@),
    {
        let t = chars_of(text);
        let r = self.search(t.as_slice());
        r.is_some()
    }

    /// The byte offset and byte length of the first match (see `search`): the offset is
    /// that of the leftmost start where the pattern matches, the end that of the first
    /// way the matcher finds there (`match_ends`); `None` when it matches at none.
    pub fn find(&self, text: &str) -> (r: Option<(usize, usize)>)
        ensures
            r is None <==> !found_somewhere(*self, text@),
            r matches Some((b, l)) ==> exists|i: int, j: int| {
                &&& 0 <= i <= j <= text@.len()
                &&& first_start(*self, text@, i)
                &&& accepts(*self, text@, i, j)
                &&& j == match_ends(*self, text@, i)[0]
                &&& b == byte_pos(text@, i)
                &&& l == byte_pos(text@, j) - byte_pos(text@, i)
            },
    {
        let t = chars_of(text);
        match self.search(t.as_slice()) {
            Some((i, j, _)) => {
                let b = byte_offset_of(t.as_slice(), i);
                let e = byte_offset_of(t.as_slice(), j);
                proof {
                    lemma_byte_offset_monotone(t@, i as int, j as int);
                }
                Some((b, e - b))
            },
            None => None,
        }
    }

    /// The first match with its capture groups; the whole match is recorded with byte
    /// offsets and its text, from the leftmost start where the pattern matches, and the
    /// groups are those of the first way the matcher finds there; `None` when it matches
    /// at none.
    pub fn captures(&self, text: &str) -> (r: Option<Captures>)
        ensures
            r is None <==> !found_somewhere(*self, text@),
            r matches Some(c) ==> exists|i: int, j: int| {
                &&& 0 <= i <= j <= text@.len()
                &&& first_start(*self, text@, i)
                &&& accepts(*self, text@, i, j)
                &&& j == match_ends(*self, text@, i)[0]
                &&& c.full_match matches Some(m) && m.start == byte_pos(text@, i) && m.end == byte_pos(text@, j)
                    && m.text@ == text@.subrange(i, j)
                &&& path_groups(*self, text@, i, j, blank_groups(slot_count(*self)), groups_view(c))
                &&& match_ways(*self, text@, i, blank_groups(slot_count(*self))).len() > 0
                &&& groups_view(c) == match_ways(*self, text@, i, blank_groups(slot_count(*self)))[0].1
            },
    {
        let t = chars_of(text);
        match self.search(t.as_slice()) {
            Some((i, j, c)) => {
                let start = byte_offset_of(t.as_slice(), i);
                let end = byte_offset_of(t.as_slice(), j);
                let matched = string_from_chars(&t.as_slice()[i..j]);
                let mut out = c;
                out.full_match = Some(Match { start, end, text: matched });
                Some(out)
            },
            None => None,
        }
    }
}

/// The last start position the search tries: the start of the text when the pattern is
/// anchored there, its end otherwise.
pub open spec fn last_start_of(r: Regex, t: Seq<char>) -> int {
    if anchored_at_start(r) {
        0
    } else {
        t.len() as int
    }
}

/// Whether the pattern matches some text starting at `s`.
pub open spec fn matches_from(r: Regex, t: Seq<char>, s: int) -> bool {
    exists|j: int| #[trigger] accepts(r, t, s, j)
}

/// Whether the pattern matches from one of the start positions that the search tries.
pub open spec fn found_somewhere(r: Regex, t: Seq<char>) -> bool {
    exists|s: int| 0 <= s <= last_start_of(r, t) && #[trigger] matches_from(r, t, s)
}

/// `s` is the leftmost tried start position where the pattern matches.
pub open spec fn first_start(r: Regex, t: Seq<char>, s: int) -> bool {
    &&& 0 <= s <= last_start_of(r, t)
    &&& matches_from(r, t, s)
    &&& forall|x: int| 0 <= x < s ==> !#[trigger] matches_from(r, t, x)
}

/// The leftmost start is unique: two starts that are both leftmost are the same, so
/// `find` and `captures` report the one start before which no tried position matches.
pub proof fn lemma_first_start_unique(r: Regex, t: Seq<char>, a: int, b: int)
    requires
        first_start(r, t, a),
        first_start(r, t, b),
    ensures
        a == b,
{
    if a < b {
        assert(!matches_from(r, t, a));
    } else if b < a {
        assert(!matches_from(r, t, b));
    }
}

/// Accepts bounds `{min,max}` unless `max` is below `min`.
pub fn validate_quantifier(min: usize, max: Option<usize>) -> (r: Result<(), ParseError>)
    ensures
        r == (match max {
            Some(mx) if mx < min => Err(ParseError::InvalidQuantifier),
            _ => Ok(()),
        }),
{
    match max {
        None => Ok(()),
        Some(mx) => if min <= mx {
            Ok(())
        } else {
            Err(ParseError::InvalidQuantifier)
        },
    }
}

/// Why a pattern could not be parsed.
#[derive(Debug, Clone, PartialEq, Eq)]
pub enum ParseError {
    UnexpectedEnd,
    UnexpectedChar(char),
    UnclosedGroup,
    UnclosedCharClass,
    InvalidRange,
    InvalidQuantifier,
    EmptyAlternationBranch,
}

} // verus!

verus! {

/// Every repeat in the tree has `max` absent or at least `min`.
pub open spec fn bounds_valid(r: Regex) -> bool
    decreases r,
{
    match r {
        Regex::Repeat { expr, min, max } => (match max {
            Some(mx) => min <= mx,
            None => true,
        }) && bounds_valid(*expr),
        Regex::Sequence(xs) => forall|k: int| 0 <= k < xs@.len() ==> bounds_valid(#[trigger] xs@[k]),
        Regex::Alternation(xs) => forall|k: int| 0 <= k < xs@.len() ==> bounds_valid(#[trigger] xs@[k]),
        Regex::Group { expr, .. } => bounds_valid(*expr),
        _ => true,
    }
}

/// A single character has no repeat.
proof fn lemma_char_bounds(c: char)
    ensures
        bounds_valid(Regex::Char(c)),
{
}

/// Whether `c` is a decimal digit.
pub open spec fn is_digit(c: char) -> bool {
    in_range('0', '9', c)
}

/// The value of a decimal digit character.
pub open spec fn digit_value(c: char) -> nat {
    ((c as u32) - ('0' as u32)) as nat
}

/// The value of a string of decimal digits.
pub open spec fn digits_value(s: Seq<char>) -> nat
    decreases s.len(),
{
    if s.len() == 0 {
        0
    } else {
        digits_value(s.drop_last()) * 10 + digit_value(s.last())
    }
}

/// The length of the run of digits at the front of `s`.
pub open spec fn digit_run(s: Seq<char>) -> nat
    decreases s.len(),
{
    if s.len() > 0 && is_digit(s[0]) {
        1 + digit_run(s.drop_first())
    } else {
        0
    }
}

/// The decimal number at position `p` of `s` and the position after its last digit;
/// `None` when no digit stands there or the value does not fit in a `usize`.
pub open spec fn number_at(s: Seq<char>, p: int) -> Option<(usize, int)> {
    let rest = s.skip(p);
    let run = digit_run(rest);
    let v = digits_value(rest.take(run as int));
    if run == 0 || v > usize::MAX {
        None
    } else {
        Some((v as usize, p + run))
    }
}

/// What reading `{n}`, `{n,}` or `{n,m}` at position `p` of `s` gives: the bounds and the
/// position of the closing brace, or the error.
pub open spec fn brace_at(s: Seq<char>, p: int) -> Result<(usize, Option<usize>, int), ParseError> {
    if p >= s.len() {
        Err(ParseError::UnexpectedEnd)
    } else if s[p] != '{' {
        Err(ParseError::UnexpectedChar(s[p]))
    } else {
        match number_at(s, p + 1) {
            None => Err(ParseError::InvalidQuantifier),
            Some((min, q)) => if q >= s.len() {
                Err(ParseError::UnexpectedEnd)
            } else if s[q] == '}' {
                Ok((min, Some(min), q))
            } else if s[q] == ',' {
                if q + 1 >= s.len() {
                    Err(ParseError::UnexpectedEnd)
                } else if s[q + 1] == '}' {
                    Ok((min, None, q + 1))
                } else {
                    match number_at(s, q + 1) {
                        None => Err(ParseError::InvalidQuantifier),
                        Some((max, e)) => if e < s.len() && s[e] == '}' {
                            Ok((min, Some(max), e))
                        } else {
                            Err(ParseError::InvalidQuantifier)
                        },
                    }
                }
            } else {
                Err(ParseError::UnexpectedChar(s[q]))
            },
        }
    }
}

/// After the first character `start` of a class item, ending just before `n`: either a
/// range `start-end` follows (not when `-` is followed by `]` or the end), or the item is
/// the single character. Gives the position after the item, or the error.
pub open spec fn range_tail(s: Seq<char>, n: int, start: char) -> Result<int, ParseError> {
    if 0 <= n && n + 1 < s.len() && s[n] == '-' && s[n + 1] != ']' {
        if s[n + 1] == '\\' {
            if n + 2 >= s.len() {
                Err(ParseError::UnexpectedEnd)
            } else if (start as u32) > (s[n + 2] as u32) {
                Err(ParseError::InvalidRange)
            } else {
                Ok(n + 3)
            }
        } else if (start as u32) > (s[n + 1] as u32) {
            Err(ParseError::InvalidRange)
        } else {
            Ok(n + 2)
        }
    } else {
        Ok(n)
    }
}

/// One item of a class at position `q` (not a `]`): the position after it, or the error.
pub open spec fn class_item_at(s: Seq<char>, q: int) -> Result<int, ParseError> {
    if s[q] == '\\' {
        if q + 1 >= s.len() {
            Err(ParseError::UnexpectedEnd)
        } else {
            let ec = s[q + 1];
            if ec == 'd' || ec == 'w' || ec == 's' {
                Ok(q + 2)
            } else if ec == '\\' || ec == '-' || ec == ']' || ec == '^' {
                range_tail(s, q + 2, ec)
            } else {
                Err(ParseError::UnexpectedChar(ec))
            }
        }
    } else {
        range_tail(s, q + 1, s[q])
    }
}

/// The items of a class from position `q` up to its closing `]`: the position after the
/// `]`, or the error.
pub open spec fn class_items(s: Seq<char>, q: int) -> Result<int, ParseError>
    decreases s.len() - q,
{
    if q < 0 || q >= s.len() {
        Err(ParseError::UnclosedCharClass)
    } else if s[q] == ']' {
        Ok(q + 1)
    } else {
        match class_item_at(s, q) {
            Err(e) => Err(e),
            Ok(n) => if n <= q {
                Err(ParseError::UnclosedCharClass)
            } else {
                class_items(s, n)
            },
        }
    }
}

/// Whether a `-` at position `n` of `s` forms a range with the characters around it:
/// something other than `]` follows it.
pub open spec fn is_class_range(s: Seq<char>, n: int) -> bool {
    0 <= n && n + 1 < s.len() && s[n] == '-' && s[n + 1] != ']'
}

/// The upper end of the range whose `-` stands at position `n` of `s`, escaped or not.
pub open spec fn range_end(s: Seq<char>, n: int) -> char {
    if s[n + 1] == '\\' {
        s[n + 2]
    } else {
        s[n + 1]
    }
}

/// The range that an item starting with `start` adds when its `-` stands at `n`, if any.
pub open spec fn tail_ranges(s: Seq<char>, n: int, start: char) -> Seq<(char, char)> {
    if is_class_range(s, n) {
        seq![(start, range_end(s, n))]
    } else {
        Seq::empty()
    }
}

/// The single character that an item starting with `start` adds when it is no range.
pub open spec fn tail_chars(s: Seq<char>, n: int, start: char) -> Seq<char> {
    if is_class_range(s, n) {
        Seq::empty()
    } else {
        seq![start]
    }
}

/// The ranges that the class item at position `q` of `s` adds.
pub open spec fn item_ranges(s: Seq<char>, q: int) -> Seq<(char, char)> {
    if s[q] == '\\' {
        let ec = s[q + 1];
        if ec == 'd' {
            seq![('0', '9')]
        } else if ec == 'w' {
            seq![('a', 'z'), ('A', 'Z'), ('0', '9')]
        } else if ec == 's' {
            Seq::empty()
        } else {
            tail_ranges(s, q + 2, ec)
        }
    } else {
        tail_ranges(s, q + 1, s[q])
    }
}

/// The single characters that the class item at position `q` of `s` adds.
pub open spec fn item_chars(s: Seq<char>, q: int) -> Seq<char> {
    if s[q] == '\\' {
        let ec = s[q + 1];
        if ec == 'd' {
            Seq::empty()
        } else if ec == 'w' {
            seq!['_']
        } else if ec == 's' {
            seq![' ', '\t', '\n', '\r']
        } else {
            tail_chars(s, q + 2, ec)
        }
    } else {
        tail_chars(s, q + 1, s[q])
    }
}

/// The ranges of the class items from position `q` of `s` up to the closing `]`, in order.
pub open spec fn class_ranges(s: Seq<char>, q: int) -> Seq<(char, char)>
    decreases s.len() - q,
{
    if q < 0 || q >= s.len() || s[q] == ']' {
        Seq::empty()
    } else {
        match class_item_at(s, q) {
            Err(_) => Seq::empty(),
            Ok(n) => if n <= q {
                Seq::empty()
            } else {
                item_ranges(s, q) + class_ranges(s, n)
            },
        }
    }
}

/// The single characters of the class items from position `q` of `s` up to the closing
/// `]`, in order.
pub open spec fn class_chars(s: Seq<char>, q: int) -> Seq<char>
    decreases s.len() - q,
{
    if q < 0 || q >= s.len() || s[q] == ']' {
        Seq::empty()
    } else {
        match class_item_at(s, q) {
            Err(_) => Seq::empty(),
            Ok(n) => if n <= q {
                Seq::empty()
            } else {
                item_chars(s, q) + class_chars(s, n)
            },
        }
    }
}

/// Whether the class at position `p` of `s` is negated: `^` follows its `[`.
pub open spec fn class_negated(s: Seq<char>, p: int) -> bool {
    p + 1 < s.len() && s[p + 1] == '^'
}

/// Where the items of the class at position `p` of `s` begin.
pub open spec fn class_start(s: Seq<char>, p: int) -> int {
    if class_negated(s, p) {
        p + 2
    } else {
        p + 1
    }
}

/// What reading a class `[...]` at position `p` of `s` gives: the position after it, or
/// the error.
pub open spec fn class_at(s: Seq<char>, p: int) -> Result<int, ParseError> {
    if p >= s.len() {
        Err(ParseError::UnexpectedEnd)
    } else if s[p] != '[' {
        Err(ParseError::UnexpectedChar(s[p]))
    } else if p + 1 < s.len() && s[p + 1] == '^' {
        class_items(s, p + 2)
    } else {
        class_items(s, p + 1)
    }
}

/// What reading an escape `\\x` at position `p` of `s` gives: the position after it, or
/// the error.
pub open spec fn escape_at(s: Seq<char>, p: int) -> Result<int, ParseError> {
    if p >= s.len() {
        Err(ParseError::UnexpectedEnd)
    } else if s[p] != '\\' {
        Err(ParseError::UnexpectedChar(s[p]))
    } else if p + 1 >= s.len() {
        Err(ParseError::UnexpectedEnd)
    } else {
        let c = s[p + 1];
        if c == 'd' || c == 'w' || c == 's' || c == 'b' || is_meta(c) {
            Ok(p + 2)
        } else {
            Err(ParseError::UnexpectedChar(c))
        }
    }
}

/// What reading a group `( alternation )` at position `p` of `s` gives: the position after
/// its `)`, or the error.
pub open spec fn group_at(s: Seq<char>, p: int) -> Result<int, ParseError>
    decreases s.len() - p, 0nat,
{
    if p < 0 || p >= s.len() {
        Err(ParseError::UnexpectedEnd)
    } else if s[p] != '(' {
        Err(ParseError::UnexpectedChar(s[p]))
    } else if p + 1 >= s.len() {
        Err(ParseError::UnclosedGroup)
    } else {
        match alt_at(s, p + 1) {
            Err(e) => Err(e),
            Ok(q) => if 0 <= q < s.len() && s[q] == ')' {
                Ok(q + 1)
            } else {
                Err(ParseError::UnclosedGroup)
            },
        }
    }
}

/// What reading one atom at position `p` of `s` gives: the position after it, or the error.
pub open spec fn atom_at(s: Seq<char>, p: int) -> Result<int, ParseError>
    decreases s.len() - p, 1nat,
{
    if p < 0 || p >= s.len() {
        Err(ParseError::UnexpectedEnd)
    } else if s[p] == '(' {
        group_at(s, p)
    } else if s[p] == '[' {
        class_at(s, p)
    } else if s[p] == '\\' {
        escape_at(s, p)
    } else {
        Ok(p + 1)
    }
}

/// What reading an atom and its optional quantifier at position `p` of `s` gives: the
/// position after them, or the error.
pub open spec fn repeat_at(s: Seq<char>, p: int) -> Result<int, ParseError>
    decreases s.len() - p, 2nat,
{
    match atom_at(s, p) {
        Err(e) => Err(e),
        Ok(q) => if 0 <= q < s.len() && (s[q] == '*' || s[q] == '+' || s[q] == '?') {
            Ok(q + 1)
        } else if 0 <= q < s.len() && s[q] == '{' {
            match brace_at(s, q) {
                Err(e) => Err(e),
                Ok((min, max, b)) => match max {
                    Some(mx) if mx < min => Err(ParseError::InvalidQuantifier),
                    _ => Ok(b + 1),
                },
            }
        } else {
            Ok(q)
        },
    }
}

/// What reading the pieces of a branch from position `p` of `s` up to the next `)`, `|` or
/// the end gives: the position where it stops, or the error.
pub open spec fn concat_at(s: Seq<char>, p: int) -> Result<int, ParseError>
    decreases s.len() - p, 3nat,
{
    if p < 0 || p >= s.len() || s[p] == ')' || s[p] == '|' {
        Ok(p)
    } else {
        match repeat_at(s, p) {
            Err(e) => Err(e),
            Ok(q) => if q <= p || q > s.len() {
                Ok(p)
            } else {
                concat_at(s, q)
            },
        }
    }
}

/// What reading the further branches `| branch` from position `q` of `s` gives: the
/// position where they stop, or the error.
pub open spec fn alt_rest(s: Seq<char>, q: int) -> Result<int, ParseError>
    decreases s.len() - q, 4nat,
{
    if 0 <= q < s.len() && s[q] == '|' {
        if q + 1 >= s.len() || s[q + 1] == ')' || s[q + 1] == '|' {
            Err(ParseError::EmptyAlternationBranch)
        } else {
            match concat_at(s, q + 1) {
                Err(e) => Err(e),
                Ok(n) => if n <= q || n > s.len() {
                    Ok(q)
                } else {
                    alt_rest(s, n)
                },
            }
        }
    } else {
        Ok(q)
    }
}

/// What reading `branch ('|' branch)*` at position `p` of `s` gives: the position where it
/// stops, or the error.
pub open spec fn alt_at(s: Seq<char>, p: int) -> Result<int, ParseError>
    decreases s.len() - p, 5nat,
{
    match concat_at(s, p) {
        Err(e) => Err(e),
        Ok(q) => if q < p || q > s.len() {
            Ok(p)
        } else {
            alt_rest(s, q)
        },
    }
}

/// The error that parsing the pattern `s` from position `p` meets, if any: that of its
/// top-level alternation, or a character left over after it (a stray `)`).
pub open spec fn pattern_error(s: Seq<char>, p: int) -> Option<ParseError> {
    match alt_at(s, p) {
        Err(e) => Some(e),
        Ok(q) => if 0 <= q < s.len() {
            Some(ParseError::UnexpectedChar(s[q]))
        } else {
            None
        },
    }
}

/// The tree an escape `\c` stands for.
pub open spec fn escape_tree(c: char, x: Regex) -> bool {
    if c == 'd' {
        digit_class(x)
    } else if c == 'w' {
        word_class(x)
    } else if c == 's' {
        space_class(x)
    } else if c == 'b' {
        x == Regex::Anchor(AnchorKind::WordBoundary)
    } else {
        x == Regex::Char(c)
    }
}

/// Names a count of opened groups; it holds of every count and serves to find an
/// intermediate count in proofs.
pub open spec fn count_at(g: int) -> bool {
    true
}

/// Whether a branch stops at position `e` of `s`: at the end, a `)` or a `|`.
pub open spec fn branch_stops(s: Seq<char>, e: int) -> bool {
    e >= s.len() || s[e] == ')' || s[e] == '|'
}

/// Whether the quantifier at position `q` of `s` gives the bounds `min` and `max` and
/// ends just before `e`.
pub open spec fn quantifier_at(s: Seq<char>, q: int, min: usize, max: Option<usize>, e: int) -> bool {
    &&& 0 <= q < s.len()
    &&& if s[q] == '*' {
        min == 0 && max == None::<usize> && e == q + 1
    } else if s[q] == '+' {
        min == 1 && max == None::<usize> && e == q + 1
    } else if s[q] == '?' {
        min == 0 && max == Some(1usize) && e == q + 1
    } else if s[q] == '{' {
        &&& brace_at(s, q) matches Ok((a, b, c)) && a == min && b == max && e == c + 1
        &&& !(max matches Some(mx) && mx < min)
    } else {
        false
    }
}

/// Whether a quantifier character stands at position `q` of `s`.
pub open spec fn quantifier_follows(s: Seq<char>, q: int) -> bool {
    0 <= q < s.len() && (s[q] == '*' || s[q] == '+' || s[q] == '?' || s[q] == '{')
}

/// `x` is the group that reading `( alternation )` at position `p` of `s` builds, with
/// the groups opened so far numbering `g`; the group ends just before `e` and `g2`
/// groups are open after it. A group takes the number `g`.
pub open spec fn group_tree(s: Seq<char>, p: int, g: int, x: Regex, e: int, g2: int) -> bool
    decreases s.len() - p, 0nat, 0nat,
{
    &&& 0 <= p && p + 1 < s.len() && s[p] == '('
    &&& x matches Regex::Group { id, expr } && id == g && exists|q: int| #![trigger s[q]]
        alt_tree(s, p + 1, g + 1, *expr, q, g2) && 0 <= q < s.len() && s[q] == ')' && e == q + 1
}

/// `x` is the tree that reading one atom at position `p` of `s` builds (see
/// `group_tree` for `g`, `e` and `g2`).
pub open spec fn atom_tree(s: Seq<char>, p: int, g: int, x: Regex, e: int, g2: int) -> bool
    decreases s.len() - p, 1nat, 0nat,
{
    if p < 0 || p >= s.len() {
        false
    } else if s[p] == '(' {
        group_tree(s, p, g, x, e, g2)
    } else if s[p] == '[' {
        &&& g2 == g
        &&& class_at(s, p) == Ok::<int, ParseError>(e)
        &&& x matches Regex::CharClass { ranges, chars, negated }
        &&& ranges@ == class_ranges(s, class_start(s, p))
        &&& chars@ == class_chars(s, class_start(s, p))
        &&& negated == class_negated(s, p)
    } else if s[p] == '\\' {
        g2 == g && escape_at(s, p) == Ok::<int, ParseError>(e) && escape_tree(s[p + 1], x)
    } else {
        &&& g2 == g
        &&& e == p + 1
        &&& x == if s[p] == '.' {
            Regex::Wildcard
        } else if s[p] == '^' {
            Regex::Anchor(AnchorKind::StartOfLine)
        } else if s[p] == '$' {
            Regex::Anchor(AnchorKind::EndOfLine)
        } else {
            Regex::Char(s[p])
        }
    }
}

/// `x` is the tree that reading an atom and its optional quantifier at position `p` of
/// `s` builds: the atom alone, or a repeat of it with the quantifier's bounds.
pub open spec fn repeat_tree(s: Seq<char>, p: int, g: int, x: Regex, e: int, g2: int) -> bool
    decreases s.len() - p, 2nat, 0nat,
{
    ||| atom_tree(s, p, g, x, e, g2) && !quantifier_follows(s, e)
    ||| x matches Regex::Repeat { expr, min, max } && exists|q: int| #![trigger quantifier_at(s, q, min, max, e)]
        atom_tree(s, p, g, *expr, q, g2) && quantifier_at(s, q, min, max, e)
}

/// `items` are the pieces read one after another from position `p` of `s` up to `e`.
pub open spec fn pieces_tree(s: Seq<char>, p: int, g: int, items: Seq<Regex>, e: int, g2: int) -> bool
    decreases s.len() - p, 3nat, items.len(),
{
    if items.len() == 0 {
        e == p && g2 == g
    } else {
        exists|q: int, g1: int| #![trigger split_at(q), count_at(g1)]
            split_at(q) && count_at(g1) && p <= q && pieces_tree(s, p, g, items.drop_last(), q, g1) && !branch_stops(s, q)
            && repeat_tree(s, q, g1, items.last(), e, g2)
    }
}

/// `x` is the sequence that reading a branch at position `p` of `s` builds: its pieces
/// up to a `)`, a `|` or the end.
pub open spec fn branch_tree(s: Seq<char>, p: int, g: int, x: Regex, e: int, g2: int) -> bool
    decreases s.len() - p, 4nat, 0nat,
{
    x matches Regex::Sequence(items) && pieces_tree(s, p, g, items@, e, g2) && branch_stops(s, e)
}

/// `bs` are the branches read from position `p` of `s` up to `e`, separated by `|`.
pub open spec fn branches_tree(s: Seq<char>, p: int, g: int, bs: Seq<Regex>, e: int, g2: int) -> bool
    decreases s.len() - p, 5nat, bs.len(),
{
    if bs.len() == 0 {
        false
    } else if bs.len() == 1 {
        branch_tree(s, p, g, bs[0], e, g2)
    } else {
        exists|q: int, g1: int| #![trigger split_at(q), count_at(g1)]
            split_at(q) && count_at(g1) && p <= q && q + 1 < s.len() && branches_tree(s, p, g, bs.drop_last(), q, g1) && s[q] == '|'
            && !branch_stops(s, q + 1) && branch_tree(s, q + 1, g1, bs.last(), e, g2)
    }
}

/// `x` is the tree that reading `branch ('|' branch)*` at position `p` of `s` builds: the
/// single branch itself, or the alternation of two or more branches.
pub open spec fn alt_tree(s: Seq<char>, p: int, g: int, x: Regex, e: int, g2: int) -> bool
    decreases s.len() - p, 6nat, 0nat,
{
    &&& !(e < s.len() && s[e] == '|')
    &&& {
        ||| x is Sequence && branches_tree(s, p, g, seq![x], e, g2)
        ||| x matches Regex::Alternation(bs) && bs@.len() >= 2 && branches_tree(s, p, g, bs@, e, g2)
    }
}

/// An atom followed by a quantifier reads as a repeat of the atom.
proof fn lemma_repeat_quantified(s: Seq<char>, p: int, g: int, a: Regex, q: int, min: usize, max: Option<usize>, e: int, g2: int)
    requires
        atom_tree(s, p, g, a, q, g2),
        quantifier_at(s, q, min, max, e),
    ensures
        repeat_tree(s, p, g, Regex::Repeat { expr: Box::new(a), min, max }, e, g2),
{
    let x = Regex::Repeat { expr: Box::new(a), min, max };
    assert(*x->Repeat_expr == a);
    assert(atom_tree(s, p, g, *x->Repeat_expr, q, g2) && quantifier_at(s, q, min, max, e));
    assert(exists|q2: int| #![trigger quantifier_at(s, q2, min, max, e)] atom_tree(s, p, g, a, q2, g2) && quantifier_at(s, q2, min, max, e));
    assert(x is Repeat);
    assert(x->Repeat_min == min);
    assert(x matches Regex::Repeat { expr, .. });
    assert(x matches Regex::Repeat { min: m1, .. } && m1 == min);
}

/// A single branch reads as itself.
proof fn lemma_alt_single(s: Seq<char>, p: int, g: int, x: Regex, e: int, g2: int)
    requires
        branches_tree(s, p, g, seq![x], e, g2),
        !(e < s.len() && s[e] == '|'),
    ensures
        alt_tree(s, p, g, x, e, g2),
{
    assert(seq![x][0] == x);
    assert(branch_tree(s, p, g, x, e, g2));
    assert(x is Sequence);
}

/// Two or more branches read as their alternation.
proof fn lemma_alt_many(s: Seq<char>, p: int, g: int, bs: Vec<Regex>, e: int, g2: int)
    requires
        bs@.len() >= 2,
        branches_tree(s, p, g, bs@, e, g2),
        !(e < s.len() && s[e] == '|'),
    ensures
        alt_tree(s, p, g, Regex::Alternation(bs), e, g2),
{
    let x = Regex::Alternation(bs);
    assert(x is Alternation);
    assert(x->Alternation_0@ == bs@);
}

/// The atoms that stand for one character of the pattern: `.`, `^`, `$` and any other
/// character that opens no group, class or escape.
proof fn lemma_atom_plain(s: Seq<char>, p: int, g: int, x: Regex)
    requires
        0 <= p < s.len(),
        s[p] != '(' && s[p] != '[' && s[p] != '\\',
        x == if s[p] == '.' {
            Regex::Wildcard
        } else if s[p] == '^' {
            Regex::Anchor(AnchorKind::StartOfLine)
        } else if s[p] == '$' {
            Regex::Anchor(AnchorKind::EndOfLine)
        } else {
            Regex::Char(s[p])
        },
    ensures
        atom_tree(s, p, g, x, p + 1, g),
{
}

/// A group at `p` is the atom there.
proof fn lemma_atom_group(s: Seq<char>, p: int, g: int, x: Regex, e: int, g2: int)
    requires
        0 <= p < s.len(),
        s[p] == '(',
        group_tree(s, p, g, x, e, g2),
    ensures
        atom_tree(s, p, g, x, e, g2),
{
}

/// A class at `p` is the atom there.
proof fn lemma_atom_class(s: Seq<char>, p: int, g: int, x: Regex, e: int)
    requires
        0 <= p < s.len(),
        s[p] == '[',
        class_at(s, p) == Ok::<int, ParseError>(e),
        x matches Regex::CharClass { ranges, chars, negated } && ranges@ == class_ranges(s, class_start(s, p))
            && chars@ == class_chars(s, class_start(s, p)) && negated == class_negated(s, p),
    ensures
        atom_tree(s, p, g, x, e, g),
{
}

/// An escape at `p` is the atom there.
proof fn lemma_atom_escape(s: Seq<char>, p: int, g: int, x: Regex, e: int)
    requires
        0 <= p && p + 1 < s.len(),
        s[p] == '\\',
        escape_at(s, p) == Ok::<int, ParseError>(e),
        escape_tree(s[p + 1], x),
    ensures
        atom_tree(s, p, g, x, e, g),
{
}

/// A single character has no alternation.
proof fn lemma_char_no_empty_alt(c: char)
    ensures
        no_empty_alt(Regex::Char(c)),
{
}

/// One more piece extends the pieces read so far.
proof fn lemma_pieces_push(s: Seq<char>, p: int, g: int, items: Seq<Regex>, x: Regex, q: int, g1: int, e: int, g2: int)
    requires
        pieces_tree(s, p, g, items, q, g1),
        p <= q,
        !branch_stops(s, q),
        repeat_tree(s, q, g1, x, e, g2),
    ensures
        pieces_tree(s, p, g, items.push(x), e, g2),
{
    assert(items.push(x).drop_last() =~= items);
    assert(items.push(x).last() == x);
    assert(split_at(q) && count_at(g1));
}

/// One more branch extends the branches read so far.
proof fn lemma_branches_push(s: Seq<char>, p: int, g: int, bs: Seq<Regex>, x: Regex, q: int, g1: int, e: int, g2: int)
    requires
        bs.len() >= 1,
        branches_tree(s, p, g, bs, q, g1),
        p <= q,
        q + 1 < s.len(),
        s[q] == '|',
        !branch_stops(s, q + 1),
        branch_tree(s, q + 1, g1, x, e, g2),
    ensures
        branches_tree(s, p, g, bs.push(x), e, g2),
{
    assert(bs.push(x).drop_last() =~= bs);
    assert(bs.push(x).last() == x);
    assert(split_at(q) && count_at(g1));
}

/// A recursive-descent parser over the characters of a pattern.
pub struct Parser {
    chars: Vec<char>,
    pos: usize,
    group_id: usize,
}

impl Parser {
    /// The pattern's characters.
    pub closed spec fn input(&self) -> Seq<char> {
        self.chars@
    }

    /// The position of the next character to read.
    pub closed spec fn at(&self) -> int {
        self.pos as int
    }

    /// The number of groups opened so far.
    pub closed spec fn groups_opened(&self) -> int {
        self.group_id as int
    }

    /// The position is within the pattern.
    pub closed spec fn wf(&self) -> bool {
        &&& self.pos <= self.chars@.len() <= usize::MAX
        &&& self.group_id <= self.pos
    }

    /// A parser at the start of `src`.
    pub fn new(src: &str) -> (r: Self)
        ensures
            r.wf(),
            r.input() == src@,
            r.at() == 0,
            r.groups_opened() == 0,
    {
        let chars = chars_of(src);
        let _n = chars.len();
        Parser { chars, pos: 0, group_id: 0 }
    }

    /// The next character, if any.
    fn peek(&self) -> (r: Option<char>)
        requires
            self.wf(),
        ensures
            self.pos < self.chars@.len() ==> r == Some(self.chars@[self.pos as int]),
            self.pos >= self.chars@.len() ==> r is None,
    {
        if self.pos < self.chars.len() {
            Some(self.chars[self.pos])
        } else {
            None
        }
    }

    /// The character `n` places after the next one, if any.
    fn peek_n(&self, n: usize) -> (r: Option<char>)
        requires
            self.wf(),
        ensures
            self.pos + n < self.chars@.len() ==> r == Some(self.chars@[self.pos + n]),
            self.pos + n >= self.chars@.len() ==> r is None,
    {
        if n < self.chars.len() - self.pos {
            Some(self.chars[self.pos + n])
        } else {
            None
        }
    }

    /// Consumes `c`, or reports the character found instead (or the end).
    fn expect(&mut self, c: char) -> (r: Result<(), ParseError>)
        requires
            old(self).wf(),
        ensures
            final(self).wf(),
            final(self).chars == old(self).chars,
            final(self).group_id == old(self).group_id,
            old(self).pos < old(self).chars@.len() && old(self).chars@[old(self).pos as int] == c ==> r is Ok
                && final(self).pos == old(self).pos + 1,
            old(self).pos < old(self).chars@.len() && old(self).chars@[old(self).pos as int] != c ==> r
                == Err::<(), ParseError>(ParseError::UnexpectedChar(old(self).chars@[old(self).pos as int]))
                && final(self).pos == old(self).pos,
            old(self).pos >= old(self).chars@.len() ==> r == Err::<(), ParseError>(ParseError::UnexpectedEnd)
                && final(self).pos == old(self).pos,
    {
        let n = self.chars.len();
        match self.peek() {
            Some(x) => if x == c {
                self.pos = self.pos + 1;
                Ok(())
            } else {
                Err(ParseError::UnexpectedChar(x))
            },
            None => Err(ParseError::UnexpectedEnd),
        }
    }

    /// Reads a decimal number; fails with `InvalidQuantifier` when there is no digit or
    /// the value overflows.
    fn parse_number(&mut self) -> (r: Result<usize, ParseError>)
        requires
            old(self).wf(),
        ensures
            final(self).wf(),
            final(self).chars == old(self).chars,
            final(self).group_id == old(self).group_id,
            old(self).pos <= final(self).pos,
            ({
                let rest = old(self).chars@.skip(old(self).pos as int);
                let run = digit_run(rest);
                let v = digits_value(rest.take(run as int));
                &&& run == 0 ==> r == Err::<usize, ParseError>(ParseError::InvalidQuantifier)
                &&& run > 0 && v > usize::MAX ==> r == Err::<usize, ParseError>(ParseError::InvalidQuantifier)
                &&& run > 0 && v <= usize::MAX ==> r == Ok::<usize, ParseError>(v as usize)
                    && final(self).pos == old(self).pos + run
            }),
    {
        let ghost rest = self.chars@.skip(self.pos as int);
        let ghost start = self.pos as int;
        let start_pos = self.pos;
        let mut val: usize = 0;
        let mut overflow = false;
        assert(rest.take(0) =~= Seq::<char>::empty());
        while self.pos < self.chars.len() && ('0' as u32) <= (self.chars[self.pos] as u32)
            && (self.chars[self.pos] as u32) <= ('9' as u32)
            invariant_except_break
                self.wf(),
                start <= self.pos,
                rest == self.chars@.skip(start),
                self.chars == old(self).chars,
                self.group_id == old(self).group_id,
                start == old(self).pos,
                !overflow,
                forall|k: int| 0 <= k < self.pos - start ==> is_digit(#[trigger] rest[k]),
                val == digits_value(rest.take(self.pos - start)),
            ensures
                self.wf(),
                self.chars == old(self).chars,
                self.group_id == old(self).group_id,
                start <= self.pos,
                rest == self.chars@.skip(start),
                overflow ==> digits_value(rest.take(digit_run(rest) as int)) > usize::MAX && digit_run(rest) > 0,
                !overflow ==> forall|k: int| 0 <= k < self.pos - start ==> is_digit(#[trigger] rest[k]),
                !overflow ==> val == digits_value(rest.take(self.pos - start)),
                !overflow ==> self.pos == self.chars@.len() || !is_digit(self.chars@[self.pos as int]),
            decreases self.chars@.len() - self.pos,
        {
            let c = self.chars[self.pos];
            let d = (c as u32) - ('0' as u32);
            let ghost k = self.pos - start;
            proof {
                assert(rest[k] == c);
                assert(rest.take(k + 1).drop_last() =~= rest.take(k));
                assert(rest.take(k + 1).last() == c);
                lemma_digit_run_prefix(rest, k + 1);
            }
            let step = match val.checked_mul(10) {
                Some(v10) => v10.checked_add(d as usize),
                None => None,
            };
            match step {
                Some(next) => {
                    val = next;
                },
                None => {
                    proof {
                        lemma_digits_monotone(rest, k + 1, digit_run(rest) as int);
                    }
                    overflow = true;
                    break;
                },
            }
            self.pos = self.pos + 1;
        }
        proof {
            if !overflow {
                if self.pos < self.chars@.len() {
                    assert(rest[self.pos - start] == self.chars@[self.pos as int]);
                }
                lemma_digit_run_prefix(rest, self.pos - start);
            }
        }
        if overflow || self.pos == start_pos {
            return Err(ParseError::InvalidQuantifier);
        }
        Ok(val)
    }
}

impl Parser {
    /// `{n}`, `{n,}` or `{n,m}` at the position: the bounds, with the position left on
    /// the closing brace.
    fn parse_brace_quantifier(&mut self) -> (r: Result<(usize, Option<usize>), ParseError>)
        requires
            old(self).wf(),
        ensures
            final(self).wf(),
            final(self).chars == old(self).chars,
            final(self).group_id == old(self).group_id,
            old(self).pos <= final(self).pos,
            r is Ok ==> final(self).pos < final(self).chars@.len() && final(self).chars@[final(self).pos as int] == '}',
            match brace_at(old(self).chars@, old(self).pos as int) {
                Ok((min, max, q)) => r == Ok::<(usize, Option<usize>), ParseError>((min, max)) && final(self).pos == q,
                Err(e) => r == Err::<(usize, Option<usize>), ParseError>(e),
            },
    {
        self.expect('{')?;
        let min = self.parse_number()?;
        match self.peek() {
            Some('}') => {
                return Ok((min, Some(min)));
            },
            Some(',') => {
                self.pos = self.pos + 1;
                match self.peek() {
                    Some('}') => {
                        return Ok((min, None));
                    },
                    Some(_) => {
                        let m = self.parse_number()?;
                        if self.peek() != Some('}') {
                            return Err(ParseError::InvalidQuantifier);
                        }
                        return Ok((min, Some(m)));
                    },
                    None => {
                        return Err(ParseError::UnexpectedEnd);
                    },
                }
            },
            Some(c) => {
                return Err(ParseError::UnexpectedChar(c));
            },
            None => {
                return Err(ParseError::UnexpectedEnd);
            },
        }
    }

    /// An escape after the backslash at the position: `\d`, `\w`, `\s`, `\b`, or an
    /// escaped metacharacter standing for itself.
    fn parse_escape(&mut self) -> (r: Result<Regex, ParseError>)
        requires
            old(self).wf(),
        ensures
            final(self).wf(),
            final(self).chars == old(self).chars,
            final(self).group_id == old(self).group_id,
            old(self).pos <= final(self).pos,
            r matches Ok(x) ==> bounds_valid(x) && final(self).pos == old(self).pos + 2,
            ({
                let s = old(self).chars@;
                let p = old(self).pos as int;
                &&& p < s.len() && s[p] == '\\' && p + 1 < s.len() ==> match s[p + 1] {
                    'd' => r matches Ok(x) && digit_class(x),
                    'w' => r matches Ok(x) && word_class(x),
                    's' => r matches Ok(x) && space_class(x),
                    'b' => r == Ok::<Regex, ParseError>(Regex::Anchor(AnchorKind::WordBoundary)),
                    c => if is_meta(c) {
                        r == Ok::<Regex, ParseError>(Regex::Char(c))
                    } else {
                        r == Err::<Regex, ParseError>(ParseError::UnexpectedChar(c))
                    },
                }
                &&& p < s.len() && s[p] == '\\' && p + 1 >= s.len() ==> r == Err::<Regex, ParseError>(ParseError::UnexpectedEnd)
            }),
            match escape_at(old(self).chars@, old(self).pos as int) {
                Ok(e) => r is Ok && final(self).pos == e,
                Err(err) => r == Err::<Regex, ParseError>(err),
            },
    {
        self.expect('\\')?;
        let c = match self.peek() {
            Some(c) => c,
            None => {
                return Err(ParseError::UnexpectedEnd);
            },
        };
        self.pos = self.pos + 1;
        if c == 'd' {
            Ok(Regex::digit())
        } else if c == 'w' {
            Ok(Regex::word_char())
        } else if c == 's' {
            Ok(Regex::whitespace())
        } else if c == 'b' {
            Ok(Regex::Anchor(AnchorKind::WordBoundary))
        } else if is_meta_char(c) {
            Ok(Regex::Char(c))
        } else {
            Err(ParseError::UnexpectedChar(c))
        }
    }
}

impl Parser {
    /// A bracketed class `[...]` at the position: single characters, ranges `a-z`, the
    /// escapes `\d`, `\w`, `\s` and escaped `\\`, `-`, `]`, `^`; a leading `^` negates.
    #[verifier::spinoff_prover]
    #[verifier::rlimit(40)]
    fn parse_char_class(&mut self) -> (r: Result<Regex, ParseError>)
        requires
            old(self).wf(),
        ensures
            final(self).wf(),
            final(self).chars == old(self).chars,
            final(self).group_id == old(self).group_id,
            old(self).pos <= final(self).pos,
            r matches Ok(x) ==> final(self).pos > old(self).pos && bounds_valid(x) && x is CharClass,
            r matches Ok(Regex::CharClass { ranges, .. }) ==> forall|k: int|
                0 <= k < ranges@.len() ==> (ranges@[k].0 as u32) <= (#[trigger] ranges@[k].1 as u32),
            match class_at(old(self).chars@, old(self).pos as int) {
                Ok(e) => r is Ok && final(self).pos == e,
                Err(err) => r == Err::<Regex, ParseError>(err),
            },
            r matches Ok(Regex::CharClass { ranges, chars, negated }) ==> {
                let s = old(self).chars@;
                let p = old(self).pos as int;
                &&& ranges@ == class_ranges(s, class_start(s, p))
                &&& chars@ == class_chars(s, class_start(s, p))
                &&& negated == class_negated(s, p)
            },
    {
        let ghost s = self.chars@;
        let ghost p = self.pos as int;
        self.expect('[')?;
        let mut negated = false;
        if self.peek() == Some('^') {
            negated = true;
            self.pos = self.pos + 1;
        }
        let mut ranges: Vec<(char, char)> = Vec::new();
        let mut chars: Vec<char> = Vec::new();
        proof {
            assert(ranges@ + class_ranges(s, self.pos as int) =~= class_ranges(s, class_start(s, p)));
            assert(chars@ + class_chars(s, self.pos as int) =~= class_chars(s, class_start(s, p)));
        }
        while self.pos < self.chars.len()
            invariant
                self.wf(),
                self.chars == old(self).chars,
                self.group_id == old(self).group_id,
                old(self).pos < self.pos,
                forall|k: int| 0 <= k < ranges@.len() ==> (ranges@[k].0 as u32) <= (#[trigger] ranges@[k].1 as u32),
                s == self.chars@,
                p == old(self).pos,
                class_items(s, self.pos as int) == class_at(s, p),
                negated == class_negated(s, p),
                ranges@ + class_ranges(s, self.pos as int) == class_ranges(s, class_start(s, p)),
                chars@ + class_chars(s, self.pos as int) == class_chars(s, class_start(s, p)),
            decreases self.chars@.len() - self.pos,
        {
            let ghost q = self.pos as int;
            let ghost rb = ranges@;
            let ghost cb = chars@;
            let c = self.chars[self.pos];
            if c == ']' {
                self.pos = self.pos + 1;
                proof {
                    assert(ranges@ + class_ranges(s, q) =~= ranges@);
                    assert(chars@ + class_chars(s, q) =~= chars@);
                }
                return Ok(Regex::CharClass { ranges, chars, negated });
            }
            let start: char;
            if c == '\\' {
                self.pos = self.pos + 1;
                let ec = match self.peek() {
                    Some(ec) => ec,
                    None => {
                        return Err(ParseError::UnexpectedEnd);
                    },
                };
                self.pos = self.pos + 1;
                if ec == 'd' {
                    ranges.push(('0', '9'));
                    proof {
                        assert(class_item_at(s, q) == Ok::<int, ParseError>(self.pos as int));
                        assert(ranges@ =~= rb + item_ranges(s, q));
                        assert(chars@ =~= cb + item_chars(s, q));
                        assert(ranges@ + class_ranges(s, self.pos as int) =~= rb + class_ranges(s, q));
                        assert(chars@ + class_chars(s, self.pos as int) =~= cb + class_chars(s, q));
                    }
                    continue;
                } else if ec == 'w' {
                    ranges.push(('a', 'z'));
                    ranges.push(('A', 'Z'));
                    ranges.push(('0', '9'));
                    chars.push('_');
                    proof {
                        assert(class_item_at(s, q) == Ok::<int, ParseError>(self.pos as int));
                        assert(ranges@ =~= rb + item_ranges(s, q));
                        assert(chars@ =~= cb + item_chars(s, q));
                        assert(ranges@ + class_ranges(s, self.pos as int) =~= rb + class_ranges(s, q));
                        assert(chars@ + class_chars(s, self.pos as int) =~= cb + class_chars(s, q));
                    }
                    continue;
                } else if ec == 's' {
                    chars.push(' ');
                    chars.push('\t');
                    chars.push('\n');
                    chars.push('\r');
                    proof {
                        assert(class_item_at(s, q) == Ok::<int, ParseError>(self.pos as int));
                        assert(ranges@ =~= rb + item_ranges(s, q));
                        assert(chars@ =~= cb + item_chars(s, q));
                        assert(ranges@ + class_ranges(s, self.pos as int) =~= rb + class_ranges(s, q));
                        assert(chars@ + class_chars(s, self.pos as int) =~= cb + class_chars(s, q));
                    }
                    continue;
                } else if ec == '\\' || ec == '-' || ec == ']' || ec == '^' {
                    start = ec;
                } else {
                    return Err(ParseError::UnexpectedChar(ec));
                }
            } else {
                self.pos = self.pos + 1;
                start = c;
            }
            if self.peek() == Some('-') {
                let after = self.peek_n(1);
                if after.is_some() && after != Some(']') {
                    self.pos = self.pos + 1;
                    let end0 = match self.peek() {
                        Some(e) => e,
                        None => {
                            return Err(ParseError::UnexpectedEnd);
                        },
                    };
                    let end: char;
                    if end0 == '\\' {
                        self.pos = self.pos + 1;
                        let ec = match self.peek() {
                            Some(ec) => ec,
                            None => {
                                return Err(ParseError::UnexpectedEnd);
                            },
                        };
                        self.pos = self.pos + 1;
                        end = ec;
                    } else {
                        self.pos = self.pos + 1;
                        end = end0;
                    }
                    if (start as u32) > (end as u32) {
                        return Err(ParseError::InvalidRange);
                    }
                    ranges.push((start, end));
                    proof {
                        assert(class_item_at(s, q) == Ok::<int, ParseError>(self.pos as int));
                        assert(ranges@ =~= rb + item_ranges(s, q));
                        assert(chars@ =~= cb + item_chars(s, q));
                        assert(ranges@ + class_ranges(s, self.pos as int) =~= rb + class_ranges(s, q));
                        assert(chars@ + class_chars(s, self.pos as int) =~= cb + class_chars(s, q));
                    }
                    continue;
                }
            }
            chars.push(start);
            proof {
                assert(class_item_at(s, q) == Ok::<int, ParseError>(self.pos as int));
                assert(ranges@ =~= rb + item_ranges(s, q));
                assert(chars@ =~= cb + item_chars(s, q));
                assert(ranges@ + class_ranges(s, self.pos as int) =~= rb + class_ranges(s, q));
                assert(chars@ + class_chars(s, self.pos as int) =~= cb + class_chars(s, q));
            }
        }
        Err(ParseError::UnclosedCharClass)
    }
}

/// The metacharacters that a backslash turns into themselves.
pub open spec fn is_meta(c: char) -> bool {
    c == '\\' || c == '.' || c == '[' || c == ']' || c == '(' || c == ')' || c == '{' || c == '}' || c == '*'
        || c == '+' || c == '?' || c == '|' || c == '^' || c == '$'
}

/// Whether `c` is a metacharacter (see `is_meta`).
pub fn is_meta_char(c: char) -> (r: bool)
    ensures
        r == is_meta(c),
{
    c == '\\' || c == '.' || c == '[' || c == ']' || c == '(' || c == ')' || c == '{' || c == '}' || c == '*'
        || c == '+' || c == '?' || c == '|' || c == '^' || c == '$'
}

/// The class `[0-9]`.
pub open spec fn digit_class(r: Regex) -> bool {
    r matches Regex::CharClass { ranges, chars, negated } && ranges@ == seq![('0', '9')] && chars@.len() == 0 && !negated
}

/// The class `[a-zA-Z0-9_]`.
pub open spec fn word_class(r: Regex) -> bool {
    r matches Regex::CharClass { ranges, chars, negated } && ranges@ == seq![('a', 'z'), ('A', 'Z'), ('0', '9')]
        && chars@ == seq!['_'] && !negated
}

/// The class of space, tab, newline and carriage return.
pub open spec fn space_class(r: Regex) -> bool {
    r matches Regex::CharClass { ranges, chars, negated } && ranges@.len() == 0
        && chars@ == seq![' ', '\t', '\n', '\r'] && !negated
}

/// A run of `k` digits at the front of `s` is part of the maximal run, which ends there
/// when no digit follows.
pub proof fn lemma_digit_run_prefix(s: Seq<char>, k: int)
    requires
        0 <= k <= s.len(),
        forall|i: int| 0 <= i < k ==> is_digit(#[trigger] s[i]),
    ensures
        digit_run(s) >= k,
        digit_run(s) <= s.len(),
        k == s.len() || !is_digit(s[k]) ==> digit_run(s) == k,
    decreases s.len(),
{
    lemma_digit_run_bound(s);
    if k > 0 {
        let t = s.drop_first();
        assert forall|i: int| 0 <= i < k - 1 implies is_digit(#[trigger] t[i]) by {
            assert(t[i] == s[i + 1]);
        }
        lemma_digit_run_prefix(t, k - 1);
        if k < s.len() {
            assert(t[k - 1] == s[k]);
        }
    }
}

/// The run of digits fits in the sequence.
proof fn lemma_digit_run_bound(s: Seq<char>)
    ensures
        digit_run(s) <= s.len(),
    decreases s.len(),
{
    if s.len() > 0 {
        lemma_digit_run_bound(s.drop_first());
    }
}

/// A longer run of digits has at least the value of a shorter one.
pub proof fn lemma_digits_monotone(s: Seq<char>, a: int, b: int)
    requires
        0 <= a <= b <= s.len(),
    ensures
        digits_value(s.take(a)) <= digits_value(s.take(b)),
    decreases b - a,
{
    if a < b {
        lemma_digits_monotone(s, a, b - 1);
        assert(s.take(b).drop_last() =~= s.take(b - 1));
        assert(digits_value(s.take(b)) == digits_value(s.take(b - 1)) * 10 + digit_value(s.take(b).last()));
    }
}

} // verus!

verus! {

/// The number of nodes of the tree.
pub open spec fn node_count(r: Regex) -> nat
    decreases r,
{
    match r {
        Regex::Sequence(xs) => 1 + node_count_all(xs@),
        Regex::Alternation(xs) => 1 + node_count_all(xs@),
        Regex::Repeat { expr, .. } => 1 + node_count(*expr),
        Regex::Group { expr, .. } => 1 + node_count(*expr),
        _ => 1,
    }
}

/// The number of nodes of a list of trees.
pub open spec fn node_count_all(xs: Seq<Regex>) -> nat
    decreases xs,
{
    if xs.len() == 0 {
        0
    } else {
        node_count_all(xs.drop_last()) + node_count(xs.last())
    }
}

/// The node count of a list with one more tree.
proof fn lemma_nca_push(xs: Seq<Regex>, x: Regex)
    ensures
        node_count_all(xs.push(x)) == node_count_all(xs) + node_count(x),
{
    assert(xs.push(x).drop_last() =~= xs);
}

/// The node count of two lists one after the other.
proof fn lemma_nca_concat(a: Seq<Regex>, b: Seq<Regex>)
    ensures
        node_count_all(a + b) == node_count_all(a) + node_count_all(b),
    decreases b.len(),
{
    if b.len() == 0 {
        assert(a + b =~= a);
    } else {
        lemma_nca_concat(a, b.drop_last());
        assert((a + b).drop_last() =~= a + b.drop_last());
        assert((a + b).last() == b.last());
    }
}

/// Splicing a sequence's items in and dropping empty patterns never adds nodes.
proof fn lemma_spliced_seq_count(xs: Seq<Regex>)
    ensures
        node_count_all(spliced_seq(xs)) <= node_count_all(xs),
    decreases xs.len(),
{
    if xs.len() > 0 {
        lemma_spliced_seq_count(xs.drop_last());
        let rest = spliced_seq(xs.drop_last());
        match xs.last() {
            Regex::Empty => {},
            Regex::Sequence(inner) => {
                lemma_nca_concat(rest, inner@);
            },
            x => {
                lemma_nca_push(rest, x);
            },
        }
    }
}

/// Splicing an alternation's alternatives in never adds nodes.
proof fn lemma_spliced_alt_count(xs: Seq<Regex>)
    ensures
        node_count_all(spliced_alt(xs)) <= node_count_all(xs),
    decreases xs.len(),
{
    if xs.len() > 0 {
        lemma_spliced_alt_count(xs.drop_last());
        let rest = spliced_alt(xs.drop_last());
        assert(node_count_all(xs) == node_count_all(xs.drop_last()) + node_count(xs.last()));
        match xs.last() {
            Regex::Alternation(inner) => {
                lemma_nca_concat(rest, inner@);
                assert(node_count(xs.last()) == 1 + node_count_all(inner@));
            },
            x => {
                lemma_nca_push(rest, x);
            },
        }
    }
}

/// The shape of a tree as plain values: its strings and lists as sequences.
pub enum Shape {
    Empty,
    Literal(Seq<char>),
    Char(char),
    Wildcard,
    Sequence(Seq<Shape>),
    CharClass { ranges: Seq<(char, char)>, chars: Seq<char>, negated: bool },
    Repeat { expr: Box<Shape>, min: usize, max: Option<usize> },
    Alternation(Seq<Shape>),
    Group { id: usize, expr: Box<Shape> },
    Anchor(AnchorKind),
}

/// The shape of a tree.
pub open spec fn shape(r: Regex) -> Shape
    decreases r,
{
    match r {
        Regex::Empty => Shape::Empty,
        Regex::Literal(s) => Shape::Literal(s@),
        Regex::Char(c) => Shape::Char(c),
        Regex::Wildcard => Shape::Wildcard,
        Regex::Sequence(xs) => Shape::Sequence(shapes(xs@)),
        Regex::CharClass { ranges, chars, negated } => Shape::CharClass { ranges: ranges@, chars: chars@, negated },
        Regex::Repeat { expr, min, max } => Shape::Repeat { expr: Box::new(shape(*expr)), min, max },
        Regex::Alternation(xs) => Shape::Alternation(shapes(xs@)),
        Regex::Group { id, expr } => Shape::Group { id, expr: Box::new(shape(*expr)) },
        Regex::Anchor(k) => Shape::Anchor(k),
    }
}

/// The shapes of a list of trees.
pub open spec fn shapes(xs: Seq<Regex>) -> Seq<Shape>
    decreases xs,
{
    if xs.len() == 0 {
        Seq::empty()
    } else {
        shapes(xs.drop_last()).push(shape(xs.last()))
    }
}

/// The simplified shape: what `optimize` makes of a tree, stated on shapes. Sequences
/// are simplified item by item, flattened, cleared of empty patterns and have their
/// neighbouring characters and literals joined; alternations are simplified and
/// flattened; a list left empty becomes the empty pattern and a list of one its item;
/// `x{0}` becomes the empty pattern and `x{1}` becomes `x`.
pub open spec fn opt_shape(s: Shape) -> Shape
    decreases s,
{
    match s {
        Shape::Sequence(xs) => {
            let j = joined_shapes(spliced_shapes(opt_shapes(xs)));
            if j.len() == 0 {
                Shape::Empty
            } else if j.len() == 1 {
                j[0]
            } else {
                Shape::Sequence(j)
            }
        },
        Shape::Alternation(xs) => {
            let f = spliced_alt_shapes(opt_shapes(xs));
            if f.len() == 0 {
                Shape::Empty
            } else if f.len() == 1 {
                f[0]
            } else {
                Shape::Alternation(f)
            }
        },
        Shape::Repeat { expr, min, max } => if min == 0 && max == Some(0usize) {
            Shape::Empty
        } else if min == 1 && max == Some(1usize) {
            opt_shape(*expr)
        } else {
            Shape::Repeat { expr: Box::new(opt_shape(*expr)), min, max }
        },
        Shape::Group { id, expr } => Shape::Group { id, expr: Box::new(opt_shape(*expr)) },
        other => other,
    }
}

/// The simplified shapes of a list, item by item.
pub open spec fn opt_shapes(xs: Seq<Shape>) -> Seq<Shape>
    decreases xs,
{
    if xs.len() == 0 {
        Seq::empty()
    } else {
        opt_shapes(xs.drop_last()).push(opt_shape(xs.last()))
    }
}

/// The items of a sequence with empty patterns dropped and nested sequences spliced in.
pub open spec fn spliced_shapes(xs: Seq<Shape>) -> Seq<Shape>
    decreases xs.len(),
{
    if xs.len() == 0 {
        Seq::empty()
    } else {
        let rest = spliced_shapes(xs.drop_last());
        match xs.last() {
            Shape::Empty => rest,
            Shape::Sequence(inner) => rest + inner,
            x => rest.push(x),
        }
    }
}

/// The alternatives with nested alternations spliced in.
pub open spec fn spliced_alt_shapes(xs: Seq<Shape>) -> Seq<Shape>
    decreases xs.len(),
{
    if xs.len() == 0 {
        Seq::empty()
    } else {
        let rest = spliced_alt_shapes(xs.drop_last());
        match xs.last() {
            Shape::Alternation(inner) => rest + inner,
            x => rest.push(x),
        }
    }
}

/// Reading the items left to right: the items emitted so far and the characters of the
/// current run of characters and literals, not yet emitted.
pub open spec fn join_scan(xs: Seq<Shape>) -> (Seq<Shape>, Seq<char>)
    decreases xs.len(),
{
    if xs.len() == 0 {
        (Seq::empty(), Seq::empty())
    } else {
        let (out, buf) = join_scan(xs.drop_last());
        match xs.last() {
            Shape::Char(c) => (out, buf.push(c)),
            Shape::Literal(t) => (out, buf + t),
            x => ((if buf.len() > 0 { out.push(Shape::Literal(buf)) } else { out }).push(x), Seq::empty()),
        }
    }
}

/// The items with each run of neighbouring characters and literals joined into one
/// literal.
pub open spec fn joined_shapes(xs: Seq<Shape>) -> Seq<Shape> {
    let (out, buf) = join_scan(xs);
    if buf.len() > 0 {
        out.push(Shape::Literal(buf))
    } else {
        out
    }
}

/// The shapes of a list have its length and the shape of each item.
pub proof fn lemma_shapes_index(xs: Seq<Regex>)
    ensures
        shapes(xs).len() == xs.len(),
        forall|k: int| 0 <= k < xs.len() ==> #[trigger] shapes(xs)[k] == shape(xs[k]),
    decreases xs.len(),
{
    if xs.len() > 0 {
        lemma_shapes_index(xs.drop_last());
    }
}

/// The shapes of two lists joined are their shapes joined.
pub proof fn lemma_shapes_concat(a: Seq<Regex>, b: Seq<Regex>)
    ensures
        shapes(a + b) == shapes(a) + shapes(b),
{
    lemma_shapes_index(a);
    lemma_shapes_index(b);
    lemma_shapes_index(a + b);
    assert(shapes(a + b) =~= shapes(a) + shapes(b));
}

/// The simplified shapes of a list have its length and the simplified shape of each item.
proof fn lemma_opt_shapes_index(xs: Seq<Shape>)
    ensures
        opt_shapes(xs).len() == xs.len(),
        forall|k: int| 0 <= k < xs.len() ==> #[trigger] opt_shapes(xs)[k] == opt_shape(xs[k]),
    decreases xs.len(),
{
    if xs.len() > 0 {
        lemma_opt_shapes_index(xs.drop_last());
    }
}

/// Splicing commutes with taking shapes.
proof fn lemma_spliced_shapes(xs: Seq<Regex>)
    ensures
        shapes(spliced_seq(xs)) == spliced_shapes(shapes(xs)),
    decreases xs.len(),
{
    if xs.len() > 0 {
        lemma_spliced_shapes(xs.drop_last());
        let rest = spliced_seq(xs.drop_last());
        assert(shapes(xs).drop_last() =~= shapes(xs.drop_last()));
        assert(shapes(xs).last() == shape(xs.last()));
        match xs.last() {
            Regex::Sequence(inner) => {
                lemma_shapes_concat(rest, inner@);
            },
            x => {
                assert(rest.push(x).drop_last() =~= rest);
                assert(shapes(rest.push(x)) == shapes(rest).push(shape(x)));
            },
        }
    }
}

/// Splicing alternatives commutes with taking shapes.
proof fn lemma_spliced_alt_shapes(xs: Seq<Regex>)
    ensures
        shapes(spliced_alt(xs)) == spliced_alt_shapes(shapes(xs)),
    decreases xs.len(),
{
    if xs.len() > 0 {
        lemma_spliced_alt_shapes(xs.drop_last());
        let rest = spliced_alt(xs.drop_last());
        assert(shapes(xs).drop_last() =~= shapes(xs.drop_last()));
        assert(shapes(xs).last() == shape(xs.last()));
        match xs.last() {
            Regex::Alternation(inner) => {
                lemma_shapes_concat(rest, inner@);
            },
            x => {
                assert(rest.push(x).drop_last() =~= rest);
                assert(shapes(rest.push(x)) == shapes(rest).push(shape(x)));
            },
        }
    }
}

/// Each tree of a list has at most the list's node count.
proof fn lemma_node_count_item(xs: Seq<Regex>, k: int)
    requires
        0 <= k < xs.len(),
    ensures
        node_count(xs[k]) <= node_count_all(xs),
    decreases xs.len(),
{
    if k < xs.len() - 1 {
        lemma_node_count_item(xs.drop_last(), k);
        assert(xs.drop_last()[k] == xs[k]);
    }
}

/// Lists of pairwise equivalent alternatives have the same matches.
proof fn lemma_alt_congruent(xs: Seq<Regex>, ys: Seq<Regex>, t: Seq<char>, i: int, j: int)
    requires
        xs.len() == ys.len(),
        forall|k: int| 0 <= k < xs.len() ==> equiv(#[trigger] xs[k], ys[k]),
    ensures
        alt_accepts(xs, t, i, j) == alt_accepts(ys, t, i, j),
{
    if alt_accepts(xs, t, i, j) {
        let k = choose|k: int| 0 <= k < xs.len() && #[trigger] accepts(xs[k], t, i, j);
        assert(equiv(xs[k], ys[k]));
        assert(accepts(ys[k], t, i, j));
    }
    if alt_accepts(ys, t, i, j) {
        let k = choose|k: int| 0 <= k < ys.len() && #[trigger] accepts(ys[k], t, i, j);
        assert(equiv(xs[k], ys[k]));
        assert(accepts(xs[k], t, i, j));
    }
}

/// The items of `xs`, with each empty pattern dropped and each sequence replaced by its
/// own items.
pub open spec fn spliced_seq(xs: Seq<Regex>) -> Seq<Regex>
    decreases xs.len(),
{
    if xs.len() == 0 {
        Seq::empty()
    } else {
        let rest = spliced_seq(xs.drop_last());
        match xs.last() {
            Regex::Empty => rest,
            Regex::Sequence(inner) => rest + inner@,
            x => rest.push(x),
        }
    }
}

/// The items of `xs`, with each alternation replaced by its own alternatives.
pub open spec fn spliced_alt(xs: Seq<Regex>) -> Seq<Regex>
    decreases xs.len(),
{
    if xs.len() == 0 {
        Seq::empty()
    } else {
        let rest = spliced_alt(xs.drop_last());
        match xs.last() {
            Regex::Alternation(inner) => rest + inner@,
            x => rest.push(x),
        }
    }
}

/// A character or a literal.
pub open spec fn literal_like(x: Regex) -> bool {
    x is Char || x is Literal
}

/// No two neighbours in `xs` are both characters or literals.
pub open spec fn literals_joined(xs: Seq<Regex>) -> bool {
    forall|a: int, b: int| #![trigger xs[a], xs[b]] 0 <= a && b == a + 1 && b < xs.len() ==> !(literal_like(xs[a]) && literal_like(xs[b]))
}

/// The tree is in simplified form: every sequence and every alternation has at least two
/// items, no sequence holds an empty pattern or another sequence or two neighbouring
/// characters or literals, no alternation holds another alternation, and no repeat is
/// `x{0}` or `x{1}`.
pub open spec fn simplified(r: Regex) -> bool
    decreases r,
{
    match r {
        Regex::Sequence(xs) => xs@.len() >= 2 && literals_joined(xs@) && forall|k: int| 0 <= k < xs@.len() ==> simplified(#[trigger] xs@[k])
            && !(xs@[k] is Sequence) && !(xs@[k] is Empty),
        Regex::Alternation(xs) => xs@.len() >= 2 && forall|k: int| 0 <= k < xs@.len() ==> simplified(#[trigger] xs@[k])
            && !(xs@[k] is Alternation),
        Regex::Repeat { expr, min, max } => !(min == 0 && max == Some(0usize)) && !(min == 1 && max == Some(1usize))
            && simplified(*expr),
        Regex::Group { expr, .. } => simplified(*expr),
        _ => true,
    }
}

/// Simplifies a tree without changing what it matches: flattens nested sequences and
/// alternations, drops empty pieces of sequences, joins neighbouring characters and
/// literals into one literal, unwraps one-element sequences and alternations, turns
/// `x{0}` into the empty pattern and `x{1}` into `x`. An alternation left with no
/// alternative becomes the empty pattern, which matches where the alternation did not,
/// so what is matched is kept for trees whose alternations all have an alternative.
/// For such trees it also has the same ends in the same order from every position
/// (`same_ends`), so `find` and `is_match` answer alike (`lemma_same_first_match`).
/// The result is in simplified form, never has more nodes than the input, and its shape
/// is exactly `opt_shape` of the input's.
pub fn optimize(regex: Regex) -> (r: Regex)
    ensures
        bounds_valid(regex) ==> bounds_valid(r),
        no_empty_alt(regex) ==> equiv(regex, r) && no_empty_alt(r) && same_ends(regex, r),
        simplified(r),
        node_count(r) <= node_count(regex),
        shape(r) == opt_shape(shape(regex)),
    decreases node_count(regex), 0nat,
{
    let ghost orig = regex;
    match regex {
        Regex::Sequence(xs) => {
            let ghost before = xs@;
            let opt = optimize_all(xs);
            proof {
                if bounds_valid(orig) {
                    assert forall|k: int| 0 <= k < opt@.len() implies bounds_valid(#[trigger] opt@[k]) by {
                        assert(bounds_valid(before[k]));
                    }
                }
            }
            let ghost optv = opt@;
            let flat = flatten_sequence(opt);
            let ghost flatv = flat@;
            let mut joined = join_literals(flat);
            let ghost jv = joined@;
            proof {
                lemma_shapes_index(optv);
                lemma_shapes_index(before);
                lemma_opt_shapes_index(shapes(before));
                assert(shapes(optv) =~= opt_shapes(shapes(before)));
                lemma_spliced_shapes(optv);
                lemma_shapes_index(jv);
                assert(shapes(jv) == joined_shapes(spliced_shapes(opt_shapes(shapes(before)))));
                assert(shape(orig) == Shape::Sequence(shapes(before)));
                if no_empty_alt(orig) {
                    assert forall|t: Seq<char>, i: int| 0 <= i <= t.len() implies #[trigger] seq_ends(before, t, i) == steps(jv, t, seq![i]) by {
                        assert forall|k: int| 0 <= k < before.len() implies same_ends(#[trigger] before[k], optv[k]) by {
                            assert(no_empty_alt(before[k]));
                        }
                        lemma_seq_cong(before, optv, t, i);
                        lemma_seq_is_steps(optv, t, i);
                        lemma_spliced_steps(optv, t, seq![i]);
                        assert(in_text(seq![i], t));
                        assert(steps(jv, t, seq![i]) == steps(flatv, t, seq![i]));
                    }
                }
            }
            proof {
                if no_empty_alt(orig) {
                    assert forall|k: int| 0 <= k < optv.len() implies equiv(#[trigger] optv[k], before[k]) && no_empty_alt(optv[k]) by {
                        assert(no_empty_alt(before[k]));
                    }
                    assert forall|t: Seq<char>, i: int, j: int| #[trigger] accepts_seq(jv, t, i, j) == accepts(orig, t, i, j) by {
                        lemma_seq_congruent(optv, before, t, i, j);
                        assert(accepts_seq(jv, t, i, j) == accepts_seq(flatv, t, i, j));
                        assert(accepts_seq(flatv, t, i, j) == accepts_seq(optv, t, i, j));
                    }
                    assert(forall|k: int| 0 <= k < flatv.len() ==> no_empty_alt(#[trigger] flatv[k]));
                    assert(forall|k: int| 0 <= k < jv.len() ==> no_empty_alt(#[trigger] jv[k]));
                }
            }
            if joined.len() == 0 {
                proof {
                    if no_empty_alt(orig) {
                        assert forall|t: Seq<char>, i: int, j: int| #[trigger] accepts(orig, t, i, j) == accepts(Regex::Empty, t, i, j) by {
                            assert(accepts_seq(jv, t, i, j) == accepts(orig, t, i, j));
                        }
                    }
                }
                proof {
                    if no_empty_alt(orig) {
                        assert forall|t: Seq<char>, i: int| 0 <= i <= t.len() implies #[trigger] match_ends(orig, t, i) == match_ends(Regex::Empty, t, i) by {
                            assert(seq_ends(before, t, i) == steps(jv, t, seq![i]));
                            assert(jv =~= Seq::<Regex>::empty());
                        }
                    }
                }
                Regex::Empty
            } else if joined.len() == 1 {
                let ghost j = joined@;
                let single = joined.pop().unwrap();
                proof {
                    if bounds_valid(orig) {
                        assert(forall|k: int| 0 <= k < before.len() ==> bounds_valid(#[trigger] before[k]));
                        assert(single == j[0]);
                    }
                    if no_empty_alt(orig) {
                        assert(single == jv[0]);
                        assert(no_empty_alt(jv[0]));
                        assert(jv =~= seq![single]);
                        assert forall|t: Seq<char>, i: int, k: int| #[trigger] accepts(orig, t, i, k) == accepts(single, t, i, k) by {
                            lemma_seq_single(single, t, i, k);
                            assert(accepts_seq(jv, t, i, k) == accepts(orig, t, i, k));
                        }
                    }
                }
                proof {
                    if no_empty_alt(orig) {
                        assert forall|t: Seq<char>, i: int| 0 <= i <= t.len() implies #[trigger] match_ends(orig, t, i) == match_ends(single, t, i) by {
                            assert(seq_ends(before, t, i) == steps(jv, t, seq![i]));
                            assert(jv.drop_last() =~= Seq::<Regex>::empty());
                            assert(jv.last() == single);
                            assert(seq![i].drop_last() =~= Seq::<int>::empty());
                            assert(steps(jv, t, seq![i]) == step_all(single, t, steps(jv.drop_last(), t, seq![i])));
                            assert(steps(jv.drop_last(), t, seq![i]) == seq![i]);
                            assert(step_all(single, t, seq![i]) == step_all(single, t, seq![i].drop_last()) + match_ends(single, t, seq![i].last()));
                            assert(step_all(single, t, seq![i].drop_last()) =~= Seq::<int>::empty());
                            assert(steps(jv, t, seq![i]) =~= match_ends(single, t, i));
                        }
                    }
                }
                single
            } else {
                let r = Regex::Sequence(joined);
                proof {
                    if bounds_valid(orig) {
                        assert(forall|k: int| 0 <= k < before.len() ==> bounds_valid(#[trigger] before[k]));
                    }
                    if no_empty_alt(orig) {
                        assert forall|t: Seq<char>, i: int, k: int| #[trigger] accepts(orig, t, i, k) == accepts(r, t, i, k) by {
                            assert(accepts_seq(jv, t, i, k) == accepts(orig, t, i, k));
                        }
                    }
                }
                proof {
                    if no_empty_alt(orig) {
                        assert forall|t: Seq<char>, i: int| 0 <= i <= t.len() implies #[trigger] match_ends(orig, t, i) == match_ends(r, t, i) by {
                            assert(seq_ends(before, t, i) == steps(jv, t, seq![i]));
                            lemma_seq_is_steps(jv, t, i);
                        }
                    }
                }
                r
            }
        },
        Regex::Alternation(alts) => {
            let ghost before = alts@;
            let opt = optimize_all(alts);
            proof {
                if bounds_valid(orig) {
                    assert forall|k: int| 0 <= k < opt@.len() implies bounds_valid(#[trigger] opt@[k]) by {
                        assert(bounds_valid(before[k]));
                    }
                }
            }
            let ghost optv = opt@;
            let mut flat = flatten_alternation(opt);
            let ghost fv = flat@;
            proof {
                lemma_shapes_index(optv);
                lemma_shapes_index(before);
                lemma_opt_shapes_index(shapes(before));
                assert(shapes(optv) =~= opt_shapes(shapes(before)));
                lemma_spliced_alt_shapes(optv);
                lemma_shapes_index(fv);
                assert(shapes(fv) == spliced_alt_shapes(opt_shapes(shapes(before))));
                assert(shape(orig) == Shape::Alternation(shapes(before)));
                if no_empty_alt(orig) {
                    assert forall|t: Seq<char>, i: int| 0 <= i <= t.len() implies #[trigger] alt_ends(before, t, i) == alt_ends(fv, t, i) by {
                        assert forall|k: int| 0 <= k < before.len() implies same_ends(#[trigger] before[k], optv[k]) by {
                            assert(no_empty_alt(before[k]));
                        }
                        lemma_alt_cong(before, optv, t, i);
                        lemma_spliced_alt_ends(optv, t, i);
                    }
                }
            }
            proof {
                if no_empty_alt(orig) {
                    assert forall|k: int| 0 <= k < optv.len() implies equiv(#[trigger] optv[k], before[k]) && no_empty_alt(optv[k]) by {
                        assert(no_empty_alt(before[k]));
                    }
                    assert forall|t: Seq<char>, i: int, j: int| #[trigger] alt_accepts(fv, t, i, j) == accepts(orig, t, i, j) by {
                        lemma_alt_congruent(optv, before, t, i, j);
                        assert(alt_accepts(fv, t, i, j) == alt_accepts(optv, t, i, j));
                        if accepts(orig, t, i, j) {
                            let k = choose|k: int| 0 <= k < before.len() && accepts(before[k], t, i, j);
                            assert(alt_accepts(before, t, i, j));
                        }
                        if alt_accepts(before, t, i, j) {
                            let k = choose|k: int| 0 <= k < before.len() && #[trigger] accepts(before[k], t, i, j);
                            assert(accepts(orig, t, i, j));
                        }
                    }
                    assert(fv.len() > 0);
                    assert(forall|k: int| 0 <= k < fv.len() ==> no_empty_alt(#[trigger] fv[k]));
                }
            }
            if flat.len() == 0 {
                Regex::Empty
            } else if flat.len() == 1 {
                let ghost j = flat@;
                let single = flat.pop().unwrap();
                proof {
                    if bounds_valid(orig) {
                        assert(forall|k: int| 0 <= k < before.len() ==> bounds_valid(#[trigger] before[k]));
                        assert(single == j[0]);
                    }
                    if no_empty_alt(orig) {
                        assert(single == fv[0]);
                        assert forall|t: Seq<char>, i: int, k: int| #[trigger] accepts(orig, t, i, k) == accepts(single, t, i, k) by {
                            assert(alt_accepts(fv, t, i, k) == accepts(orig, t, i, k));
                            if accepts(single, t, i, k) {
                                assert(accepts(fv[0], t, i, k));
                            }
                        }
                    }
                }
                proof {
                    if no_empty_alt(orig) {
                        assert forall|t: Seq<char>, i: int| 0 <= i <= t.len() implies #[trigger] match_ends(orig, t, i) == match_ends(single, t, i) by {
                            assert(alt_ends(before, t, i) == alt_ends(fv, t, i));
                            assert(fv.drop_last() =~= Seq::<Regex>::empty());
                            assert(fv.last() == single);
                            assert(alt_ends(fv, t, i) == alt_ends(fv.drop_last(), t, i) + match_ends(fv.last(), t, i));
                            assert(alt_ends(fv.drop_last(), t, i) =~= Seq::<int>::empty());
                            assert(alt_ends(fv, t, i) =~= match_ends(single, t, i));
                        }
                    }
                }
                single
            } else {
                let r = Regex::Alternation(flat);
                proof {
                    if bounds_valid(orig) {
                        assert(forall|k: int| 0 <= k < before.len() ==> bounds_valid(#[trigger] before[k]));
                    }
                    if no_empty_alt(orig) {
                        assert forall|t: Seq<char>, i: int, k: int| #[trigger] accepts(orig, t, i, k) == accepts(r, t, i, k) by {
                            assert(alt_accepts(fv, t, i, k) == accepts(orig, t, i, k));
                            if accepts(r, t, i, k) {
                                let w = choose|w: int| 0 <= w < fv.len() && accepts(fv[w], t, i, k);
                                assert(alt_accepts(fv, t, i, k));
                            }
                            if alt_accepts(fv, t, i, k) {
                                let w = choose|w: int| 0 <= w < fv.len() && #[trigger] accepts(fv[w], t, i, k);
                                assert(r->Alternation_0@ == fv);
                                assert(accepts(r->Alternation_0@[w], t, i, k));
                                assert(accepts(r, t, i, k));
                            }
                        }
                    }
                }
                proof {
                    if no_empty_alt(orig) {
                        assert forall|t: Seq<char>, i: int| 0 <= i <= t.len() implies #[trigger] match_ends(orig, t, i) == match_ends(r, t, i) by {
                            assert(alt_ends(before, t, i) == alt_ends(fv, t, i));
                        }
                    }
                }
                r
            }
        },
        Regex::Repeat { expr, min, max } => {
            proof {
                assert(node_count(regex) == 1 + node_count(*expr));
            }
            let ghost e = *expr;
            let inner = optimize(*expr);
            if min == 0 && max == Some(0usize) {
                proof {
                    if no_empty_alt(orig) {
                        assert forall|t: Seq<char>, i: int, k: int| #[trigger] accepts(orig, t, i, k) == accepts(Regex::Empty, t, i, k) by {
                            if accepts(orig, t, i, k) {
                                let n = choose|n: nat| #[trigger] repeat_count_ok(min, max, n) && accepts_times(e, n, t, i, k);
                                assert(n == 0);
                            }
                            if accepts(Regex::Empty, t, i, k) {
                                assert(repeat_count_ok(min, max, 0));
                                assert(accepts_times(e, 0, t, i, k));
                            }
                        }
                    }
                }
                proof {
                    if no_empty_alt(orig) {
                        assert forall|t: Seq<char>, i: int| 0 <= i <= t.len() implies #[trigger] match_ends(orig, t, i) == match_ends(Regex::Empty, t, i) by {
                            assert(repeat_full(min, max, 0));
                            assert(match_ends(orig, t, i) == layer_ends(e, min, max, t, times_ends(e, t, seq![i], min as nat), 0, (t.len() - i) as nat));
                            assert(times_ends(e, t, seq![i], 0) == seq![i]);
                        }
                    }
                }
                Regex::Empty
            } else if min == 1 && max == Some(1usize) {
                proof {
                    if no_empty_alt(orig) {
                        assert forall|t: Seq<char>, i: int, k: int| #[trigger] accepts(orig, t, i, k) == accepts(inner, t, i, k) by {
                            assert(accepts(e, t, i, k) == accepts(inner, t, i, k));
                            if accepts(orig, t, i, k) {
                                let n = choose|n: nat| #[trigger] repeat_count_ok(min, max, n) && accepts_times(e, n, t, i, k);
                                assert(n == 1);
                                let m = choose|m: int| #![trigger split_at(m)] split_at(m) && accepts_times(e, 0, t, i, m) && accepts(e, t, m, k);
                                assert(m == i);
                            }
                            if accepts(e, t, i, k) {
                                lemma_accepts_bounds(e, t, i, k);
                                assert(split_at(i) && accepts_times(e, 0, t, i, i) && accepts(e, t, i, k));
                                assert(accepts_times(e, 1, t, i, k));
                                assert(repeat_count_ok(min, max, 1));
                            }
                        }
                    }
                }
                proof {
                    if no_empty_alt(orig) {
                        assert forall|t: Seq<char>, i: int| 0 <= i <= t.len() implies #[trigger] match_ends(orig, t, i) == match_ends(inner, t, i) by {
                            assert(repeat_full(min, max, 0));
                            assert(times_ends(e, t, seq![i], 0) == seq![i]);
                            assert(seq![i].drop_last() =~= Seq::<int>::empty());
                            assert(step_all(e, t, seq![i]) == step_all(e, t, seq![i].drop_last()) + match_ends(e, t, seq![i].last()));
                            assert(step_all(e, t, seq![i].drop_last()) =~= Seq::<int>::empty());
                            assert(step_all(e, t, seq![i]) =~= match_ends(e, t, i));
                            assert(match_ends(orig, t, i) == layer_ends(e, min, max, t, times_ends(e, t, seq![i], min as nat), 0, (t.len() - i) as nat));
                            assert(times_ends(e, t, seq![i], 1) == step_all(e, t, times_ends(e, t, seq![i], 0)));
                            assert(match_ends(e, t, i) == match_ends(inner, t, i));
                        }
                    }
                }
                inner
            } else {
                let r = Regex::Repeat { expr: Box::new(inner), min, max };
                proof {
                    if no_empty_alt(orig) {
                        assert forall|t: Seq<char>, i: int, k: int| #[trigger] accepts(orig, t, i, k) == accepts(r, t, i, k) by {
                            if accepts(orig, t, i, k) {
                                let n = choose|n: nat| #[trigger] repeat_count_ok(min, max, n) && accepts_times(e, n, t, i, k);
                                lemma_times_congruent(e, inner, n, t, i, k);
                                assert(repeat_count_ok(min, max, n) && accepts_times(inner, n, t, i, k));
                                assert(*r->Repeat_expr == inner);
                                assert(r->Repeat_min == min && r->Repeat_max == max);
                                assert(accepts(r, t, i, k));
                            }
                            if accepts(r, t, i, k) {
                                let n = choose|n: nat| #[trigger] repeat_count_ok(min, max, n) && accepts_times(inner, n, t, i, k);
                                lemma_times_congruent(e, inner, n, t, i, k);
                                assert(repeat_count_ok(min, max, n) && accepts_times(e, n, t, i, k));
                                assert(accepts(orig, t, i, k));
                            }
                        }
                    }
                }
                proof {
                    if no_empty_alt(orig) {
                        assert forall|t: Seq<char>, i: int| 0 <= i <= t.len() implies #[trigger] match_ends(orig, t, i) == match_ends(r, t, i) by {
                            assert(in_text(seq![i], t));
                            lemma_times_cong(e, inner, t, seq![i], min as nat);
                            lemma_times_in_text(e, t, seq![i], min as nat);
                            lemma_layer_cong(e, inner, min, max, t, times_ends(e, t, seq![i], min as nat), 0, (t.len() - i) as nat);
                            assert(*r->Repeat_expr == inner);
                        }
                    }
                }
                r
            }
        },
        Regex::Group { id, expr } => {
            proof {
                assert(node_count(regex) == 1 + node_count(*expr));
            }
            let ghost e = *expr;
            let inner = optimize(*expr);
            let r = Regex::Group { id, expr: Box::new(inner) };
            proof {
                if no_empty_alt(orig) {
                    assert forall|t: Seq<char>, i: int, k: int| #[trigger] accepts(orig, t, i, k) == accepts(r, t, i, k) by {
                        assert(accepts(e, t, i, k) == accepts(inner, t, i, k));
                    }
                }
            }
            proof {
                if no_empty_alt(orig) {
                    assert forall|t: Seq<char>, i: int| 0 <= i <= t.len() implies #[trigger] match_ends(orig, t, i) == match_ends(r, t, i) by {
                        assert(match_ends(e, t, i) == match_ends(inner, t, i));
                    }
                }
            }
            r
        },
        other => other,
    }
}

/// Simplifies each tree of a list, in order.
fn optimize_all(xs: Vec<Regex>) -> (r: Vec<Regex>)
    ensures
        r@.len() == xs@.len(),
        forall|k: int| 0 <= k < xs@.len() ==> bounds_valid(#[trigger] xs@[k]) ==> bounds_valid(r@[k]),
        forall|k: int| 0 <= k < xs@.len() ==> no_empty_alt(#[trigger] xs@[k]) ==> equiv(xs@[k], r@[k]) && no_empty_alt(r@[k])
            && same_ends(xs@[k], r@[k]),
        forall|k: int| 0 <= k < r@.len() ==> simplified(#[trigger] r@[k]),
        node_count_all(r@) <= node_count_all(xs@),
        forall|k: int| 0 <= k < xs@.len() ==> shape(#[trigger] r@[k]) == opt_shape(shape(xs@[k])),
    decreases node_count_all(xs@), 1nat,
{
    let ghost orig = xs;
    proof {
        assert(orig@.take(0) =~= Seq::<Regex>::empty());
    }
    let mut src = xs;
    let mut out: Vec<Regex> = Vec::new();
    while src.len() > 0
        invariant
            orig == xs,
            out@.len() + src@.len() == orig@.len(),
            src@ == orig@.skip(out@.len() as int),
            forall|k: int| 0 <= k < out@.len() ==> bounds_valid(#[trigger] orig@[k]) ==> bounds_valid(out@[k]),
            forall|k: int| 0 <= k < out@.len() ==> no_empty_alt(#[trigger] orig@[k]) ==> equiv(orig@[k], out@[k]) && no_empty_alt(out@[k])
                && same_ends(orig@[k], out@[k]),
            forall|k: int| 0 <= k < out@.len() ==> simplified(#[trigger] out@[k]),
            node_count_all(out@) <= node_count_all(orig@.take(out@.len() as int)),
            forall|k: int| 0 <= k < out@.len() ==> shape(#[trigger] out@[k]) == opt_shape(shape(orig@[k])),
        decreases src@.len(),
    {
        let ghost k = out@.len() as int;
        let ghost out0 = out@;
        let x = src.remove(0);
        proof {
            assert(x == orig@[k]);
            lemma_node_count_item(orig@, k);
            assert(src@ =~= orig@.skip(k + 1));
        }
        let y = optimize(x);
        out.push(y);
        proof {
            lemma_nca_push(out0, y);
            assert(orig@.take(k + 1) =~= orig@.take(k).push(orig@[k]));
            lemma_nca_push(orig@.take(k), orig@[k]);
        }
    }
    proof {
        assert(orig@.take(out@.len() as int) =~= orig@);
    }
    out
}

/// Drops empty pieces and splices the items of nested sequences into the list; the list
/// matches the same spans as before.
fn flatten_sequence(xs: Vec<Regex>) -> (r: Vec<Regex>)
    ensures
        node_count_all(r@) <= node_count_all(xs@),
        r@ == spliced_seq(xs@),
        (forall|k: int| 0 <= k < xs@.len() ==> simplified(#[trigger] xs@[k])) ==> forall|k: int| 0 <= k < r@.len()
            ==> simplified(#[trigger] r@[k]) && !(r@[k] is Sequence) && !(r@[k] is Empty),
        (forall|k: int| 0 <= k < xs@.len() ==> bounds_valid(#[trigger] xs@[k])) ==> forall|k: int| 0 <= k < r@.len() ==> bounds_valid(#[trigger] r@[k]),
        seq_equiv(r@, xs@),
        (forall|k: int| 0 <= k < xs@.len() ==> no_empty_alt(#[trigger] xs@[k])) ==> forall|k: int| 0 <= k < r@.len() ==> no_empty_alt(#[trigger] r@[k]),
{
    let ghost orig = xs@;
    let mut src = xs;
    let mut out: Vec<Regex> = Vec::new();
    let ghost mut taken: int = 0;
    proof {
        assert(orig.take(0) =~= Seq::<Regex>::empty());
        assert(out@ =~= Seq::<Regex>::empty());
    }
    while src.len() > 0
        invariant
            0 <= taken <= orig.len(),
            src@ == orig.skip(taken),
            (forall|k: int| 0 <= k < orig.len() ==> bounds_valid(#[trigger] orig[k])) ==> forall|k: int| 0 <= k < out@.len() ==> bounds_valid(#[trigger] out@[k]),
            (forall|k: int| 0 <= k < orig.len() ==> no_empty_alt(#[trigger] orig[k])) ==> forall|k: int| 0 <= k < out@.len() ==> no_empty_alt(#[trigger] out@[k]),
            out@ == spliced_seq(orig.take(taken)),
            (forall|k: int| 0 <= k < orig.len() ==> simplified(#[trigger] orig[k])) ==> forall|k: int| 0 <= k < out@.len()
                ==> simplified(#[trigger] out@[k]) && !(out@[k] is Sequence) && !(out@[k] is Empty),
            seq_equiv(out@, orig.take(taken)),
        decreases src@.len(),
    {
        let x = src.remove(0);
        let ghost gx = x;
        let ghost prefix = orig.take(taken);
        let ghost before = out@;
        proof {
            assert(x == orig[taken]);
            assert(src@ =~= orig.skip(taken + 1));
            assert(orig.take(taken + 1) =~= prefix.push(gx));
            lemma_seq_push_equiv(before, prefix, gx, gx);
        }
        match x {
            Regex::Empty => {
                proof {
                    assert(orig.take(taken + 1).drop_last() =~= prefix);
                    lemma_seq_push_empty(prefix);
                    lemma_seq_equiv_trans(before, prefix, prefix.push(gx));
                }
            },
            Regex::Sequence(inner) => {
                let mut inner = inner;
                let ghost items = inner@;
                out.append(&mut inner);
                proof {
                    assert(out@ == before + gx->Sequence_0@);
                    assert(orig.take(taken + 1).drop_last() =~= prefix);
                    if forall|k: int| 0 <= k < orig.len() ==> simplified(#[trigger] orig[k]) {
                        assert(simplified(orig[taken]));
                        assert forall|k: int| 0 <= k < out@.len() implies simplified(#[trigger] out@[k]) && !(out@[k] is Sequence)
                            && !(out@[k] is Empty) by {
                            if k >= before.len() {
                                assert(out@[k] == items[k - before.len()]);
                            } else {
                                assert(out@[k] == before[k]);
                            }
                        }
                    }
                    lemma_seq_splice(before, gx);
                    lemma_seq_equiv_trans(out@, before.push(gx), prefix.push(gx));
                    if forall|k: int| 0 <= k < orig.len() ==> bounds_valid(#[trigger] orig[k]) {
                        assert(bounds_valid(orig[taken]));
                        assert forall|k: int| 0 <= k < out@.len() implies bounds_valid(#[trigger] out@[k]) by {
                            if k >= before.len() {
                                assert(out@[k] == items[k - before.len()]);
                            } else {
                                assert(out@[k] == before[k]);
                            }
                        }
                    }
                    if forall|k: int| 0 <= k < orig.len() ==> no_empty_alt(#[trigger] orig[k]) {
                        assert(no_empty_alt(orig[taken]));
                        assert forall|k: int| 0 <= k < out@.len() implies no_empty_alt(#[trigger] out@[k]) by {
                            if k >= before.len() {
                                assert(out@[k] == items[k - before.len()]);
                            } else {
                                assert(out@[k] == before[k]);
                            }
                        }
                    }
                }
            },
            other => {
                out.push(other);
                proof {
                    assert(orig.take(taken + 1).drop_last() =~= prefix);
                    if forall|k: int| 0 <= k < orig.len() ==> no_empty_alt(#[trigger] orig[k]) {
                        assert(no_empty_alt(orig[taken]));
                    }
                    if forall|k: int| 0 <= k < orig.len() ==> simplified(#[trigger] orig[k]) {
                        assert(simplified(orig[taken]));
                    }
                }
            },
        }
        proof {
            taken = taken + 1;
        }
    }
    proof {
        assert(orig.take(taken) =~= orig);
    }
    proof {
        lemma_spliced_seq_count(orig);
    }
    out
}

/// The list `out` matches up to some position from which `t` spells `buf` up to `j`.
pub open spec fn pending(out: Seq<Regex>, buf: Seq<char>, t: Seq<char>, i: int, j: int) -> bool {
    exists|m: int| #![trigger split_at(m)] split_at(m) && accepts_seq(out, t, i, m) && spells(buf, t, m, j)
}

/// Spelling two pieces one after the other spells their concatenation.
proof fn lemma_spells_concat(b: Seq<char>, s: Seq<char>, t: Seq<char>, m: int, j: int)
    ensures
        spells(b + s, t, m, j) == (spells(b, t, m, m + b.len()) && spells(s, t, m + b.len(), j)),
{
    if spells(b + s, t, m, j) {
        assert(t.subrange(m, m + b.len()) =~= (b + s).subrange(0, b.len() as int));
        assert(t.subrange(m + b.len(), j) =~= (b + s).subrange(b.len() as int, (b + s).len() as int));
        assert((b + s).subrange(0, b.len() as int) =~= b);
        assert((b + s).subrange(b.len() as int, (b + s).len() as int) =~= s);
    }
    if spells(b, t, m, m + b.len()) && spells(s, t, m + b.len(), j) {
        assert(t.subrange(m, j) =~= t.subrange(m, m + b.len()) + t.subrange(m + b.len(), j));
    }
}

/// Appending a pattern to a list with a pending literal.
proof fn lemma_pending_step(out: Seq<Regex>, buf: Seq<char>, take: Seq<Regex>, x: Regex, t: Seq<char>, i: int, j: int)
    requires
        forall|j2: int| #[trigger] accepts_seq(take, t, i, j2) == pending(out, buf, t, i, j2),
    ensures
        accepts_seq(take.push(x), t, i, j) == exists|m1: int| #![trigger split_at(m1)] split_at(m1) && pending(out, buf, t, i, m1)
            && accepts(x, t, m1, j),
{
    assert(take.push(x).drop_last() =~= take);
    assert(take.push(x).last() == x);
    if accepts_seq(take.push(x), t, i, j) {
        let m1 = choose|m1: int| #![trigger split_at(m1)] split_at(m1) && accepts_seq(take, t, i, m1) && accepts(x, t, m1, j);
        assert(pending(out, buf, t, i, m1));
    }
    if exists|m1: int| #![trigger split_at(m1)] split_at(m1) && pending(out, buf, t, i, m1) && accepts(x, t, m1, j) {
        let m1 = choose|m1: int| #![trigger split_at(m1)] split_at(m1) && pending(out, buf, t, i, m1) && accepts(x, t, m1, j);
        assert(accepts_seq(take, t, i, m1));
    }
}

/// A literal pattern pushed onto a list stands for a pending literal.
proof fn lemma_flush_literal(out: Seq<Regex>, lit: Regex, t: Seq<char>, i: int, m1: int)
    requires
        lit is Literal,
    ensures
        accepts_seq(out.push(lit), t, i, m1) == pending(out, lit->Literal_0@, t, i, m1),
{
    assert(out.push(lit).drop_last() =~= out);
    assert(out.push(lit).last() == lit);
    assert forall|m: int| #[trigger] accepts(lit, t, m, m1) == spells(lit->Literal_0@, t, m, m1) by {}
    if accepts_seq(out.push(lit), t, i, m1) {
        let m = choose|m: int| #![trigger split_at(m)] split_at(m) && accepts_seq(out, t, i, m) && accepts(lit, t, m, m1);
        assert(spells(lit->Literal_0@, t, m, m1));
    }
    if pending(out, lit->Literal_0@, t, i, m1) {
        let m = choose|m: int| #![trigger split_at(m)] split_at(m) && accepts_seq(out, t, i, m) && spells(lit->Literal_0@, t, m, m1);
        assert(accepts(lit, t, m, m1));
    }
}

/// An empty pending literal adds nothing.
proof fn lemma_flush_empty(out: Seq<Regex>, t: Seq<char>, i: int, m1: int)
    ensures
        accepts_seq(out, t, i, m1) == pending(out, Seq::<char>::empty(), t, i, m1),
{
    if accepts_seq(out, t, i, m1) {
        lemma_seq_bounds(out, t, i, m1);
        assert(t.subrange(m1, m1) =~= Seq::<char>::empty());
        assert(split_at(m1));
        assert(spells(Seq::<char>::empty(), t, m1, m1));
    }
}

/// Joins each run of neighbouring characters and literals into one literal; the list
/// matches the same spans as before.
fn join_literals(xs: Vec<Regex>) -> (r: Vec<Regex>)
    ensures
        node_count_all(r@) <= node_count_all(xs@),
        literals_joined(r@),
        (forall|k: int| 0 <= k < xs@.len() ==> simplified(#[trigger] xs@[k]) && !(xs@[k] is Sequence) && !(xs@[k] is Empty))
            ==> forall|k: int| 0 <= k < r@.len() ==> simplified(#[trigger] r@[k]) && !(r@[k] is Sequence) && !(r@[k] is Empty),
        (forall|k: int| 0 <= k < xs@.len() ==> bounds_valid(#[trigger] xs@[k])) ==> forall|k: int| 0 <= k < r@.len() ==> bounds_valid(#[trigger] r@[k]),
        seq_equiv(r@, xs@),
        (forall|k: int| 0 <= k < xs@.len() ==> no_empty_alt(#[trigger] xs@[k])) ==> forall|k: int| 0 <= k < r@.len() ==> no_empty_alt(#[trigger] r@[k]),
        shapes(r@) == joined_shapes(shapes(xs@)),
        forall|t: Seq<char>, s: Seq<int>| in_text(s, t) ==> #[trigger] steps(r@, t, s) == steps(xs@, t, s),
{
    let ghost orig = xs@;
    let mut src = xs;
    let mut out: Vec<Regex> = Vec::new();
    let mut buf: Vec<char> = Vec::new();
    let ghost mut taken: int = 0;
    proof {
        assert(orig.take(0) =~= Seq::<Regex>::empty());
        assert forall|t: Seq<char>, i: int, j: int| #[trigger] accepts_seq(orig.take(0), t, i, j) == pending(out@, buf@, t, i, j) by {
            assert(out@ =~= Seq::<Regex>::empty());
            assert(buf@ =~= Seq::<char>::empty());
            lemma_flush_empty(out@, t, i, j);
        }
        assert forall|t: Seq<char>, s: Seq<int>| in_text(s, t) implies #[trigger] steps(orig.take(0), t, s)
            == step_lit(buf@, t, steps(out@, t, s)) by {
            assert(buf@ =~= Seq::<char>::empty());
            lemma_step_lit_nothing(t, s);
        }
    }
    while src.len() > 0
        invariant
            0 <= taken <= orig.len(),
            src@ == orig.skip(taken),
            (forall|k: int| 0 <= k < orig.len() ==> bounds_valid(#[trigger] orig[k])) ==> forall|k: int| 0 <= k < out@.len() ==> bounds_valid(#[trigger] out@[k]),
            (forall|k: int| 0 <= k < orig.len() ==> no_empty_alt(#[trigger] orig[k])) ==> forall|k: int| 0 <= k < out@.len() ==> no_empty_alt(#[trigger] out@[k]),
            literals_joined(out@),
            out@.len() == 0 || !literal_like(out@.last()),
            (forall|k: int| 0 <= k < orig.len() ==> simplified(#[trigger] orig[k]) && !(orig[k] is Sequence) && !(orig[k] is Empty))
                ==> forall|k: int| 0 <= k < out@.len() ==> simplified(#[trigger] out@[k]) && !(out@[k] is Sequence) && !(out@[k] is Empty),
            node_count_all(out@) + (if buf@.len() > 0 { 1int } else { 0int }) <= node_count_all(orig.take(taken)),
            forall|t: Seq<char>, i: int, j: int| #[trigger] accepts_seq(orig.take(taken), t, i, j) == pending(out@, buf@, t, i, j),
            join_scan(shapes(orig.take(taken))) == (shapes(out@), buf@),
            forall|t: Seq<char>, s: Seq<int>| in_text(s, t) ==> #[trigger] steps(orig.take(taken), t, s)
                == step_lit(buf@, t, steps(out@, t, s)),
        decreases src@.len(),
    {
        let x = src.remove(0);
        let ghost gx = x;
        let ghost prefix = orig.take(taken);
        let ghost out0 = out@;
        let ghost buf0 = buf@;
        proof {
            assert(x == orig[taken]);
            assert(src@ =~= orig.skip(taken + 1));
            assert(orig.take(taken + 1) =~= prefix.push(gx));
            lemma_nca_push(prefix, gx);
            assert(prefix.push(gx).drop_last() =~= prefix);
            assert(shapes(orig.take(taken + 1)) == shapes(prefix).push(shape(gx)));
            assert(shapes(prefix).push(shape(gx)).drop_last() =~= shapes(prefix));
        }
        match x {
            Regex::Char(c) => {
                buf.push(c);
                proof {
                    assert forall|t: Seq<char>, s: Seq<int>| in_text(s, t) implies #[trigger] steps(orig.take(taken + 1), t, s)
                        == step_lit(buf@, t, steps(out@, t, s)) by {
                        assert(steps(orig.take(taken + 1), t, s) == step_all(gx, t, steps(prefix, t, s)));
                        lemma_step_lit_after(gx, buf0, t, steps(out@, t, s));
                        assert(buf@ =~= buf0 + lit_text(gx));
                    }
                    assert forall|t: Seq<char>, i: int, j: int| #[trigger] accepts_seq(orig.take(taken + 1), t, i, j) == pending(out@, buf@, t, i, j) by {
                        lemma_pending_step(out0, buf0, prefix, gx, t, i, j);
                        assert(buf@ == buf0 + seq![c]);
                        if accepts_seq(orig.take(taken + 1), t, i, j) {
                            let m1 = choose|m1: int| #![trigger split_at(m1)] split_at(m1) && pending(out0, buf0, t, i, m1) && accepts(gx, t, m1, j);
                            let m = choose|m: int| #![trigger split_at(m)] split_at(m) && accepts_seq(out0, t, i, m) && spells(buf0, t, m, m1);
                            assert(t.subrange(m1, j) =~= seq![c]);
                            lemma_spells_concat(buf0, seq![c], t, m, j);
                            assert(spells(buf@, t, m, j));
                        }
                        if pending(out@, buf@, t, i, j) {
                            let m = choose|m: int| #![trigger split_at(m)] split_at(m) && accepts_seq(out0, t, i, m) && spells(buf@, t, m, j);
                            lemma_spells_concat(buf0, seq![c], t, m, j);
                            let m1 = m + buf0.len();
                            assert(t.subrange(m1, j)[0] == t[m1]);
                            assert(split_at(m1) && pending(out0, buf0, t, i, m1) && accepts(gx, t, m1, j));
                        }
                    }
                }
            },
            Regex::Literal(s) => {
                let ghost sv = s@;
                crate::text::append_str(&mut buf, s.as_str());
                proof {
                    assert forall|t: Seq<char>, s: Seq<int>| in_text(s, t) implies #[trigger] steps(orig.take(taken + 1), t, s)
                        == step_lit(buf@, t, steps(out@, t, s)) by {
                        assert(steps(orig.take(taken + 1), t, s) == step_all(gx, t, steps(prefix, t, s)));
                        lemma_step_lit_after(gx, buf0, t, steps(out@, t, s));
                        assert(buf@ =~= buf0 + lit_text(gx));
                    }
                    assert forall|t: Seq<char>, i: int, j: int| #[trigger] accepts_seq(orig.take(taken + 1), t, i, j) == pending(out@, buf@, t, i, j) by {
                        lemma_pending_step(out0, buf0, prefix, gx, t, i, j);
                        if accepts_seq(orig.take(taken + 1), t, i, j) {
                            let m1 = choose|m1: int| #![trigger split_at(m1)] split_at(m1) && pending(out0, buf0, t, i, m1) && accepts(gx, t, m1, j);
                            let m = choose|m: int| #![trigger split_at(m)] split_at(m) && accepts_seq(out0, t, i, m) && spells(buf0, t, m, m1);
                            lemma_spells_concat(buf0, sv, t, m, j);
                            assert(spells(buf@, t, m, j));
                        }
                        if pending(out@, buf@, t, i, j) {
                            let m = choose|m: int| #![trigger split_at(m)] split_at(m) && accepts_seq(out0, t, i, m) && spells(buf@, t, m, j);
                            lemma_spells_concat(buf0, sv, t, m, j);
                            let m1 = m + buf0.len();
                            assert(split_at(m1) && pending(out0, buf0, t, i, m1) && accepts(gx, t, m1, j));
                        }
                    }
                }
            },
            other => {
                if buf.len() > 0 {
                    let lit = string_from_chars(buf.as_slice());
                    let ghost glit = Regex::Literal(lit);
                    out.push(Regex::Literal(lit));
                    buf = Vec::new();
                    proof {
                        assert(glit->Literal_0@ == buf0);
                        assert(out@ == out0.push(glit));
                        lemma_nca_push(out0, glit);
                    }
                }
                let ghost out1 = out@;
                proof {
                    assert forall|t: Seq<char>, i: int, m1: int| #[trigger] accepts_seq(out1, t, i, m1) == pending(out0, buf0, t, i, m1) by {
                        if buf0.len() > 0 {
                            lemma_flush_literal(out0, out1.last(), t, i, m1);
                            assert(out1 == out0.push(out1.last()));
                        } else {
                            assert(buf0 =~= Seq::<char>::empty());
                            lemma_flush_empty(out0, t, i, m1);
                        }
                    }
                }
                out.push(other);
                proof {
                    assert forall|t: Seq<char>, s: Seq<int>| in_text(s, t) implies #[trigger] steps(orig.take(taken + 1), t, s)
                        == step_lit(buf@, t, steps(out@, t, s)) by {
                        assert(steps(orig.take(taken + 1), t, s) == step_all(gx, t, steps(prefix, t, s)));
                        assert(out@.drop_last() =~= out1);
                        assert(steps(out@, t, s) == step_all(gx, t, steps(out1, t, s)));
                        lemma_steps_in_text(out0, t, s);
                        if buf0.len() > 0 {
                            assert(out1.drop_last() =~= out0);
                            assert(out1.last()->Literal_0@ == buf0);
                            lemma_step_literal(out1.last(), t, steps(out0, t, s));
                        } else {
                            assert(buf0 =~= Seq::<char>::empty());
                            assert(out1 == out0);
                            lemma_step_lit_nothing(t, steps(out0, t, s));
                        }
                        assert(steps(out1, t, s) == step_lit(buf0, t, steps(out0, t, s)));
                        lemma_steps_in_text(out@, t, s);
                        assert(buf@ =~= Seq::<char>::empty());
                        lemma_step_lit_nothing(t, steps(out@, t, s));
                    }
                    assert(out@.drop_last() =~= out1);
                    assert(shapes(out@) == shapes(out1).push(shape(gx)));
                    if buf0.len() > 0 {
                        assert(out1.drop_last() =~= out0);
                        assert(shapes(out1) == shapes(out0).push(shape(out1.last())));
                    }
                    assert(buf@ =~= Seq::<char>::empty());
                    lemma_nca_push(out1, gx);
                    assert(buf@ =~= Seq::<char>::empty());
                    assert forall|t: Seq<char>, i: int, j: int| #[trigger] accepts_seq(orig.take(taken + 1), t, i, j) == pending(out@, buf@, t, i, j) by {
                        lemma_pending_step(out0, buf0, prefix, gx, t, i, j);
                        lemma_flush_empty(out@, t, i, j);
                        assert(out@.drop_last() =~= out1);
                        assert(out@.last() == gx);
                        if accepts_seq(out@, t, i, j) {
                            let m1 = choose|m1: int| #![trigger split_at(m1)] split_at(m1) && accepts_seq(out1, t, i, m1) && accepts(gx, t, m1, j);
                            assert(pending(out0, buf0, t, i, m1));
                        }
                        if accepts_seq(orig.take(taken + 1), t, i, j) {
                            let m1 = choose|m1: int| #![trigger split_at(m1)] split_at(m1) && pending(out0, buf0, t, i, m1) && accepts(gx, t, m1, j);
                            assert(accepts_seq(out1, t, i, m1));
                            assert(accepts_seq(out@, t, i, j));
                        }
                    }
                    if forall|k: int| 0 <= k < orig.len() ==> no_empty_alt(#[trigger] orig[k]) {
                        assert(no_empty_alt(orig[taken]));
                    }
                    if forall|k: int| 0 <= k < orig.len() ==> simplified(#[trigger] orig[k]) && !(orig[k] is Sequence) && !(orig[k] is Empty) {
                        assert(simplified(orig[taken]));
                        assert forall|k: int| 0 <= k < out@.len() implies simplified(#[trigger] out@[k]) && !(out@[k] is Sequence)
                            && !(out@[k] is Empty) by {
                            if k < out0.len() {
                                assert(out@[k] == out0[k]);
                            }
                        }
                    }
                    assert forall|a: int, b: int| #![trigger out@[a], out@[b]] 0 <= a && b == a + 1 && b < out@.len()
                        implies !(literal_like(out@[a]) && literal_like(out@[b])) by {
                        if b < out0.len() {
                            assert(out@[a] == out0[a] && out@[b] == out0[b]);
                        } else if b < out1.len() {
                            assert(out@[a] == out0[a]);
                        }
                    }
                }
            },
        }
        proof {
            taken = taken + 1;
        }
    }
    let ghost out0 = out@;
    let ghost buf0 = buf@;
    if buf.len() > 0 {
        let lit = string_from_chars(buf.as_slice());
        let ghost glit = Regex::Literal(lit);
        out.push(Regex::Literal(lit));
        proof {
            assert(glit->Literal_0@ == buf0);
            assert(out@ == out0.push(glit));
            lemma_nca_push(out0, glit);
            assert(out@.drop_last() =~= out0);
            assert(shapes(out@) == shapes(out0).push(shape(glit)));
        }
    }
    proof {
        assert(orig.take(taken) =~= orig);
        assert forall|t: Seq<char>, s: Seq<int>| in_text(s, t) implies #[trigger] steps(out@, t, s) == steps(xs@, t, s) by {
            assert(steps(orig.take(taken), t, s) == step_lit(buf0, t, steps(out0, t, s)));
            lemma_steps_in_text(out0, t, s);
            if buf0.len() > 0 {
                assert(out@.drop_last() =~= out0);
                assert(out@.last()->Literal_0@ == buf0);
                lemma_step_literal(out@.last(), t, steps(out0, t, s));
            } else {
                assert(buf0 =~= Seq::<char>::empty());
                assert(out@ == out0);
                lemma_step_lit_nothing(t, steps(out0, t, s));
            }
        }
        assert forall|a: int, b: int| #![trigger out@[a], out@[b]] 0 <= a && b == a + 1 && b < out@.len()
            implies !(literal_like(out@[a]) && literal_like(out@[b])) by {
            if b < out0.len() {
                assert(out@[a] == out0[a] && out@[b] == out0[b]);
            }
        }
        if forall|k: int| 0 <= k < orig.len() ==> simplified(#[trigger] orig[k]) && !(orig[k] is Sequence) && !(orig[k] is Empty) {
            assert forall|k: int| 0 <= k < out@.len() implies simplified(#[trigger] out@[k]) && !(out@[k] is Sequence)
                && !(out@[k] is Empty) by {
                if k < out0.len() {
                    assert(out@[k] == out0[k]);
                }
            }
        }
        assert forall|t: Seq<char>, i: int, j: int| #[trigger] accepts_seq(out@, t, i, j) == accepts_seq(orig, t, i, j) by {
            assert(accepts_seq(orig.take(taken), t, i, j) == pending(out0, buf0, t, i, j));
            if buf0.len() > 0 {
                lemma_flush_literal(out0, out@.last(), t, i, j);
                assert(out@ == out0.push(out@.last()));
            } else {
                assert(buf0 =~= Seq::<char>::empty());
                lemma_flush_empty(out0, t, i, j);
            }
        }
    }
    out
}

/// An alternative of a joined list is an alternative of one of its parts.
proof fn lemma_alt_concat(a: Seq<Regex>, b: Seq<Regex>, t: Seq<char>, i: int, j: int)
    ensures
        alt_accepts(a + b, t, i, j) == (alt_accepts(a, t, i, j) || alt_accepts(b, t, i, j)),
{
    if alt_accepts(a + b, t, i, j) {
        let k = choose|k: int| 0 <= k < (a + b).len() && #[trigger] accepts((a + b)[k], t, i, j);
        if k < a.len() {
            assert((a + b)[k] == a[k]);
        } else {
            assert((a + b)[k] == b[k - a.len()]);
        }
    }
    if alt_accepts(a, t, i, j) {
        let k = choose|k: int| 0 <= k < a.len() && #[trigger] accepts(a[k], t, i, j);
        assert((a + b)[k] == a[k]);
    }
    if alt_accepts(b, t, i, j) {
        let k = choose|k: int| 0 <= k < b.len() && #[trigger] accepts(b[k], t, i, j);
        assert((a + b)[a.len() + k] == b[k]);
    }
}

/// Splices the items of nested alternations into the list; the list has the same
/// matches as before.
fn flatten_alternation(xs: Vec<Regex>) -> (r: Vec<Regex>)
    ensures
        node_count_all(r@) <= node_count_all(xs@),
        r@ == spliced_alt(xs@),
        (forall|k: int| 0 <= k < xs@.len() ==> simplified(#[trigger] xs@[k])) ==> forall|k: int| 0 <= k < r@.len()
            ==> simplified(#[trigger] r@[k]) && !(r@[k] is Alternation),
        (forall|k: int| 0 <= k < xs@.len() ==> bounds_valid(#[trigger] xs@[k])) ==> forall|k: int| 0 <= k < r@.len() ==> bounds_valid(#[trigger] r@[k]),
        forall|t: Seq<char>, i: int, j: int| #[trigger] alt_accepts(r@, t, i, j) == alt_accepts(xs@, t, i, j),
        (forall|k: int| 0 <= k < xs@.len() ==> no_empty_alt(#[trigger] xs@[k])) ==> forall|k: int| 0 <= k < r@.len() ==> no_empty_alt(#[trigger] r@[k]),
        (xs@.len() > 0 && forall|k: int| 0 <= k < xs@.len() ==> no_empty_alt(#[trigger] xs@[k])) ==> r@.len() > 0,
{
    let ghost orig = xs@;
    let mut src = xs;
    let mut out: Vec<Regex> = Vec::new();
    let ghost mut taken: int = 0;
    proof {
        assert(orig.take(0) =~= Seq::<Regex>::empty());
        assert(out@ =~= Seq::<Regex>::empty());
    }
    while src.len() > 0
        invariant
            0 <= taken <= orig.len(),
            src@ == orig.skip(taken),
            (forall|k: int| 0 <= k < orig.len() ==> bounds_valid(#[trigger] orig[k])) ==> forall|k: int| 0 <= k < out@.len() ==> bounds_valid(#[trigger] out@[k]),
            (forall|k: int| 0 <= k < orig.len() ==> no_empty_alt(#[trigger] orig[k])) ==> forall|k: int| 0 <= k < out@.len() ==> no_empty_alt(#[trigger] out@[k]),
            (taken > 0 && forall|k: int| 0 <= k < orig.len() ==> no_empty_alt(#[trigger] orig[k])) ==> out@.len() > 0,
            out@ == spliced_alt(orig.take(taken)),
            (forall|k: int| 0 <= k < orig.len() ==> simplified(#[trigger] orig[k])) ==> forall|k: int| 0 <= k < out@.len()
                ==> simplified(#[trigger] out@[k]) && !(out@[k] is Alternation),
            forall|t: Seq<char>, i: int, j: int| #[trigger] alt_accepts(out@, t, i, j) == alt_accepts(orig.take(taken), t, i, j),
        decreases src@.len(),
    {
        let x = src.remove(0);
        let ghost gx = x;
        let ghost prefix = orig.take(taken);
        let ghost before = out@;
        proof {
            assert(x == orig[taken]);
            assert(src@ =~= orig.skip(taken + 1));
            assert(orig.take(taken + 1) =~= prefix + seq![gx]);
        }
        match x {
            Regex::Alternation(inner) => {
                let mut inner = inner;
                let ghost items = inner@;
                out.append(&mut inner);
                proof {
                    assert(orig.take(taken + 1).drop_last() =~= prefix);
                    assert(out@ =~= before + items);
                    if forall|k: int| 0 <= k < orig.len() ==> simplified(#[trigger] orig[k]) {
                        assert(simplified(orig[taken]));
                        assert forall|k: int| 0 <= k < out@.len() implies simplified(#[trigger] out@[k]) && !(out@[k] is Alternation) by {
                            if k >= before.len() {
                                assert(out@[k] == items[k - before.len()]);
                            } else {
                                assert(out@[k] == before[k]);
                            }
                        }
                    }
                    assert(out@ == before + items);
                    assert(gx->Alternation_0@ == items);
                    assert forall|t: Seq<char>, i: int, j: int| #[trigger] alt_accepts(out@, t, i, j) == alt_accepts(orig.take(taken + 1), t, i, j) by {
                        lemma_alt_concat(before, items, t, i, j);
                        lemma_alt_concat(prefix, seq![gx], t, i, j);
                        assert(alt_accepts(before, t, i, j) == alt_accepts(prefix, t, i, j));
                        if alt_accepts(seq![gx], t, i, j) {
                            let k = choose|k: int| 0 <= k < 1 && #[trigger] accepts(seq![gx][k], t, i, j);
                            assert(accepts(gx, t, i, j));
                        }
                        if accepts(gx, t, i, j) {
                            assert(accepts(seq![gx][0], t, i, j));
                            let k = choose|k: int| 0 <= k < items.len() && accepts(items[k], t, i, j);
                            assert(alt_accepts(items, t, i, j));
                        }
                        if alt_accepts(items, t, i, j) {
                            let k = choose|k: int| 0 <= k < items.len() && #[trigger] accepts(items[k], t, i, j);
                            assert(accepts(gx, t, i, j));
                            assert(accepts(seq![gx][0], t, i, j));
                        }
                    }
                    if forall|k: int| 0 <= k < orig.len() ==> bounds_valid(#[trigger] orig[k]) {
                        assert(bounds_valid(orig[taken]));
                        assert forall|k: int| 0 <= k < out@.len() implies bounds_valid(#[trigger] out@[k]) by {
                            if k >= before.len() {
                                assert(out@[k] == items[k - before.len()]);
                            } else {
                                assert(out@[k] == before[k]);
                            }
                        }
                    }
                    if forall|k: int| 0 <= k < orig.len() ==> no_empty_alt(#[trigger] orig[k]) {
                        assert(no_empty_alt(orig[taken]));
                        assert forall|k: int| 0 <= k < out@.len() implies no_empty_alt(#[trigger] out@[k]) by {
                            if k >= before.len() {
                                assert(out@[k] == items[k - before.len()]);
                            } else {
                                assert(out@[k] == before[k]);
                            }
                        }
                    }
                }
            },
            other => {
                out.push(other);
                proof {
                    assert(orig.take(taken + 1).drop_last() =~= prefix);
                    if forall|k: int| 0 <= k < orig.len() ==> simplified(#[trigger] orig[k]) {
                        assert(simplified(orig[taken]));
                    }
                    assert(out@ =~= before + seq![gx]);
                    assert forall|t: Seq<char>, i: int, j: int| #[trigger] alt_accepts(out@, t, i, j) == alt_accepts(orig.take(taken + 1), t, i, j) by {
                        lemma_alt_concat(before, seq![gx], t, i, j);
                        lemma_alt_concat(prefix, seq![gx], t, i, j);
                        assert(alt_accepts(before, t, i, j) == alt_accepts(prefix, t, i, j));
                    }
                    if forall|k: int| 0 <= k < orig.len() ==> no_empty_alt(#[trigger] orig[k]) {
                        assert(no_empty_alt(orig[taken]));
                    }
                }
            },
        }
        proof {
            taken = taken + 1;
        }
    }
    proof {
        assert(orig.take(taken) =~= orig);
    }
    proof {
        lemma_spliced_alt_count(orig);
    }
    out
}

} // verus!

verus! {

impl Parser {
    /// `branch ('|' branch)*`; a single branch stands alone. A `|` followed by nothing,
    /// `)` or another `|` is an empty branch.
    #[verifier::rlimit(60)]
    #[verifier::spinoff_prover]
    fn parse_alternation(&mut self) -> (r: Result<Regex, ParseError>)
        requires
            old(self).wf(),
        ensures
            final(self).wf(),
            final(self).chars == old(self).chars,
            old(self).pos <= final(self).pos,
            r matches Ok(x) ==> bounds_valid(x),
            match alt_at(old(self).chars@, old(self).pos as int) {
                Ok(e) => r is Ok && final(self).pos == e,
                Err(err) => r == Err::<Regex, ParseError>(err),
            },
            r matches Ok(x) ==> alt_tree(old(self).chars@, old(self).pos as int, old(self).group_id as int, x,
                final(self).pos as int, final(self).group_id as int) && no_empty_alt(x),
        decreases old(self).chars@.len() - old(self).pos, 4nat,
    {
        let ghost s = self.chars@;
        let ghost p = self.pos as int;
        let ghost g0 = self.group_id as int;
        let mut branches: Vec<Regex> = Vec::new();
        let first = self.parse_concat()?;
        branches.push(first);
        proof {
            assert(branches@[0] == first);
            assert(branches_tree(s, p, g0, branches@, self.pos as int, self.group_id as int));
        }
        while self.peek() == Some('|')
            invariant
                self.wf(),
                self.chars == old(self).chars,
                old(self).pos <= self.pos,
                s == self.chars@,
                p == old(self).pos,
                alt_rest(s, self.pos as int) == alt_at(s, p),
                forall|k: int| 0 <= k < branches@.len() ==> bounds_valid(#[trigger] branches@[k]),
                branches@.len() >= 1,
                g0 == old(self).group_id,
                branches_tree(s, p, g0, branches@, self.pos as int, self.group_id as int),
                forall|k: int| 0 <= k < branches@.len() ==> no_empty_alt(#[trigger] branches@[k]),
            decreases self.chars@.len() - self.pos,
        {
            let ghost q = self.pos as int;
            let ghost gq = self.group_id as int;
            let ghost ob = branches@;
            self.pos = self.pos + 1;
            let next = self.peek();
            if next.is_none() || next == Some(')') || next == Some('|') {
                return Err(ParseError::EmptyAlternationBranch);
            }
            let b = self.parse_concat()?;
            branches.push(b);
            proof {
                assert(branches@.drop_last() =~= ob);
                assert(branches@.last() == b);
                lemma_branches_push(s, p, g0, ob, b, q, gq, self.pos as int, self.group_id as int);
                assert(branches@ == ob.push(b));
            }
        }
        let ghost bv = branches@;
        if branches.len() == 1 {
            let only = branches.pop().unwrap();
            proof {
                assert(only == bv[0]);
                assert(bv =~= seq![only]);
                lemma_alt_single(s, p, g0, only, self.pos as int, self.group_id as int);
            }
            Ok(only)
        } else {
            proof {
                lemma_alt_many(s, p, g0, branches, self.pos as int, self.group_id as int);
            }
            Ok(Regex::Alternation(branches))
        }
    }

    /// `piece*` up to the next `)` or `|` or the end.
    fn parse_concat(&mut self) -> (r: Result<Regex, ParseError>)
        requires
            old(self).wf(),
        ensures
            final(self).wf(),
            final(self).chars == old(self).chars,
            old(self).pos <= final(self).pos,
            r matches Ok(x) ==> bounds_valid(x),
            match concat_at(old(self).chars@, old(self).pos as int) {
                Ok(e) => r is Ok && final(self).pos == e,
                Err(err) => r == Err::<Regex, ParseError>(err),
            },
            r matches Ok(x) ==> branch_tree(old(self).chars@, old(self).pos as int, old(self).group_id as int, x,
                final(self).pos as int, final(self).group_id as int) && no_empty_alt(x),
        decreases old(self).chars@.len() - old(self).pos, 3nat,
    {
        let ghost s = self.chars@;
        let ghost p = self.pos as int;
        let ghost g0 = self.group_id as int;
        let mut parts: Vec<Regex> = Vec::new();
        proof {
            assert(pieces_tree(s, p, g0, parts@, self.pos as int, self.group_id as int));
        }
        while self.pos < self.chars.len()
            invariant
                self.wf(),
                self.chars == old(self).chars,
                old(self).pos <= self.pos,
                s == self.chars@,
                p == old(self).pos,
                concat_at(s, self.pos as int) == concat_at(s, p),
                forall|k: int| 0 <= k < parts@.len() ==> bounds_valid(#[trigger] parts@[k]),
                g0 == old(self).group_id,
                pieces_tree(s, p, g0, parts@, self.pos as int, self.group_id as int),
                forall|k: int| 0 <= k < parts@.len() ==> no_empty_alt(#[trigger] parts@[k]),
            ensures
                concat_at(s, p) == Ok::<int, ParseError>(self.pos as int),
                branch_stops(s, self.pos as int),
            decreases self.chars@.len() - self.pos,
        {
            let c = self.chars[self.pos];
            if c == ')' || c == '|' {
                break;
            }
            let ghost q = self.pos as int;
            let ghost gq = self.group_id as int;
            let ghost op = parts@;
            let part = self.parse_repeat()?;
            parts.push(part);
            proof {
                assert(parts@.drop_last() =~= op);
                assert(parts@.last() == part);
                assert(pieces_tree(s, p, g0, parts@.drop_last(), q, gq) && p <= q && !branch_stops(s, q));
                lemma_pieces_push(s, p, g0, op, part, q, gq, self.pos as int, self.group_id as int);
                assert(parts@ == op.push(part));
            }
        }
        Ok(Regex::Sequence(parts))
    }

    /// An atom followed by an optional quantifier `*`, `+`, `?` or `{...}`.
    fn parse_repeat(&mut self) -> (r: Result<Regex, ParseError>)
        requires
            old(self).wf(),
        ensures
            final(self).wf(),
            final(self).chars == old(self).chars,
            old(self).pos <= final(self).pos,
            r matches Ok(x) ==> bounds_valid(x) && old(self).pos < final(self).pos,
            match repeat_at(old(self).chars@, old(self).pos as int) {
                Ok(e) => r is Ok && final(self).pos == e,
                Err(err) => r == Err::<Regex, ParseError>(err),
            },
            r matches Ok(x) ==> repeat_tree(old(self).chars@, old(self).pos as int, old(self).group_id as int, x,
                final(self).pos as int, final(self).group_id as int) && no_empty_alt(x),
        decreases old(self).chars@.len() - old(self).pos, 2nat,
    {
        let ghost s = self.chars@;
        let ghost p = self.pos as int;
        let ghost g = self.group_id as int;
        let atom = self.parse_atom()?;
        let ghost q = self.pos as int;
        let ghost ga = self.group_id as int;
        match self.peek() {
            Some('*') => {
                self.pos = self.pos + 1;
                let r = Regex::zero_or_more(atom);
                proof {
                    assert(quantifier_at(s, q, 0, None, q + 1));
                    lemma_repeat_quantified(s, p, g, atom, q, 0, None, q + 1, ga);
                }
                Ok(r)
            },
            Some('+') => {
                self.pos = self.pos + 1;
                let r = Regex::one_or_more(atom);
                proof {
                    assert(quantifier_at(s, q, 1, None, q + 1));
                    lemma_repeat_quantified(s, p, g, atom, q, 1, None, q + 1, ga);
                }
                Ok(r)
            },
            Some('?') => {
                self.pos = self.pos + 1;
                let r = Regex::optional(atom);
                proof {
                    assert(quantifier_at(s, q, 0, Some(1usize), q + 1));
                    lemma_repeat_quantified(s, p, g, atom, q, 0, Some(1usize), q + 1, ga);
                }
                Ok(r)
            },
            Some('{') => {
                let (min, max) = self.parse_brace_quantifier()?;
                validate_quantifier(min, max)?;
                self.pos = self.pos + 1;
                let r = Regex::Repeat { expr: Box::new(atom), min, max };
                proof {
                    assert(quantifier_at(s, q, min, max, self.pos as int));
                    lemma_repeat_quantified(s, p, g, atom, q, min, max, self.pos as int, ga);
                }
                Ok(r)
            },
            _ => {
                proof {
                    assert(!quantifier_follows(s, q));
                    assert(atom_tree(s, p, g, atom, q, ga));
                    assert(repeat_tree(s, p, g, atom, self.pos as int, self.group_id as int));
                }
                Ok(atom)
            },
        }
    }

    /// A group, a class, `.`, `^`, `$`, an escape, or any other character standing for
    /// itself.
    #[verifier::rlimit(100)]
    #[verifier::spinoff_prover]
    fn parse_atom(&mut self) -> (r: Result<Regex, ParseError>)
        requires
            old(self).wf(),
        ensures
            final(self).wf(),
            final(self).chars == old(self).chars,
            old(self).pos <= final(self).pos,
            r matches Ok(x) ==> bounds_valid(x),
            r is Ok ==> old(self).pos < final(self).pos,
            old(self).pos >= old(self).chars@.len() ==> r == Err::<Regex, ParseError>(ParseError::UnexpectedEnd),
            match atom_at(old(self).chars@, old(self).pos as int) {
                Ok(e) => r is Ok && final(self).pos == e,
                Err(err) => r == Err::<Regex, ParseError>(err),
            },
            r matches Ok(x) ==> atom_tree(old(self).chars@, old(self).pos as int, old(self).group_id as int, x,
                final(self).pos as int, final(self).group_id as int) && no_empty_alt(x),
        decreases old(self).chars@.len() - old(self).pos, 1nat,
    {
        let ghost s = self.chars@;
        let ghost p = self.pos as int;
        let ghost g = self.group_id as int;
        let c = match self.peek() {
            Some(c) => c,
            None => {
                return Err(ParseError::UnexpectedEnd);
            },
        };
        if c == '(' {
            let r = self.parse_group();
            assert(r matches Ok(x) ==> bounds_valid(x));
            proof {
                if r is Ok {
                    lemma_atom_group(s, p, g, r->Ok_0, self.pos as int, self.group_id as int);
                    assert(no_empty_alt(r->Ok_0));
                }
            }
            r
        } else if c == '[' {
            let r = self.parse_char_class();
            assert(r matches Ok(x) ==> bounds_valid(x));
            proof {
                if r is Ok {
                    lemma_atom_class(s, p, g, r->Ok_0, self.pos as int);
                    assert(no_empty_alt(r->Ok_0));
                }
            }
            r
        } else if c == '.' {
            self.pos = self.pos + 1;
            assert(bounds_valid(Regex::Wildcard));
            assert(s[p] == c);
            proof {
                lemma_atom_plain(s, p, g, Regex::Wildcard);
                assert(no_empty_alt(Regex::Wildcard));
                assert(atom_tree(s, p, g, Regex::Wildcard, self.pos as int, self.group_id as int));
            }
            Ok(Regex::Wildcard)
        } else if c == '^' {
            self.pos = self.pos + 1;
            assert(bounds_valid(Regex::Anchor(AnchorKind::StartOfLine)));
            assert(s[p] == c);
            proof {
                lemma_atom_plain(s, p, g, Regex::Anchor(AnchorKind::StartOfLine));
                assert(no_empty_alt(Regex::Anchor(AnchorKind::StartOfLine)));
            }
            Ok(Regex::Anchor(AnchorKind::StartOfLine))
        } else if c == '$' {
            self.pos = self.pos + 1;
            assert(bounds_valid(Regex::Anchor(AnchorKind::EndOfLine)));
            assert(s[p] == c);
            proof {
                lemma_atom_plain(s, p, g, Regex::Anchor(AnchorKind::EndOfLine));
                assert(no_empty_alt(Regex::Anchor(AnchorKind::EndOfLine)));
            }
            Ok(Regex::Anchor(AnchorKind::EndOfLine))
        } else if c == '\\' {
            let r = self.parse_escape();
            assert(r matches Ok(x) ==> bounds_valid(x));
            proof {
                if r is Ok {
                    assert(escape_tree(s[p + 1], r->Ok_0));
                    lemma_atom_escape(s, p, g, r->Ok_0, self.pos as int);
                    assert(no_empty_alt(r->Ok_0));
                }
            }
            r
        } else {
            self.pos = self.pos + 1;
            proof {
                lemma_char_bounds(c);
                assert(s[p] == c);
                lemma_atom_plain(s, p, g, Regex::Char(c));
                lemma_char_no_empty_alt(c);
                assert(atom_tree(s, p, g, Regex::Char(c), self.pos as int, self.group_id as int));
            }
            Ok(Regex::Char(c))
        }
    }

    /// `( alternation )`, numbered by the order of its opening parenthesis.
    fn parse_group(&mut self) -> (r: Result<Regex, ParseError>)
        requires
            old(self).wf(),
        ensures
            final(self).wf(),
            final(self).chars == old(self).chars,
            old(self).pos <= final(self).pos,
            r matches Ok(x) ==> bounds_valid(x) && old(self).pos < final(self).pos,
            r matches Ok(x) ==> x matches Regex::Group { id, .. } && id == old(self).group_id,
            match group_at(old(self).chars@, old(self).pos as int) {
                Ok(e) => r is Ok && final(self).pos == e,
                Err(err) => r == Err::<Regex, ParseError>(err),
            },
            r matches Ok(x) ==> group_tree(old(self).chars@, old(self).pos as int, old(self).group_id as int, x,
                final(self).pos as int, final(self).group_id as int) && no_empty_alt(x),
        decreases old(self).chars@.len() - old(self).pos, 0nat,
    {
        let ghost s = self.chars@;
        let ghost p = self.pos as int;
        let ghost g = self.group_id as int;
        self.expect('(')?;
        let id = self.group_id;
        self.group_id = self.group_id + 1;
        if self.peek().is_none() {
            return Err(ParseError::UnclosedGroup);
        }
        let inner = self.parse_alternation()?;
        let ghost q = self.pos as int;
        if self.peek() != Some(')') {
            return Err(ParseError::UnclosedGroup);
        }
        self.pos = self.pos + 1;
        let r = Regex::Group { id, expr: Box::new(inner) };
        proof {
            assert(s[q] == ')');
            assert(alt_tree(s, p + 1, g + 1, inner, q, self.group_id as int));
            assert(group_tree(s, p, g, r, self.pos as int, self.group_id as int));
        }
        Ok(r)
    }

    /// Parses the whole pattern and simplifies the tree; characters left over after the
    /// top-level alternation (a stray `)`) are an error.
    pub fn parse(self) -> (r: Result<Regex, ParseError>)
        requires
            self.wf(),
        ensures
            r matches Ok(x) ==> bounds_valid(x) && simplified(x),
            match pattern_error(self.input(), self.at()) {
                None => r is Ok,
                Some(e) => r == Err::<Regex, ParseError>(e),
            },
            r matches Ok(x) ==> exists|raw: Regex, g: int| #![trigger alt_tree(self.input(), self.at(), self.groups_opened(), raw, self.input().len() as int, g)]
                alt_tree(self.input(), self.at(), self.groups_opened(), raw, self.input().len() as int, g) && equiv(raw, x)
                    && shape(x) == opt_shape(shape(raw)),
    {
        let mut p = self;
        let expr = p.parse_alternation()?;
        if p.pos < p.chars.len() {
            return Err(ParseError::UnexpectedChar(p.chars[p.pos]));
        }
        let r = optimize(expr);
        proof {
            assert(alt_tree(self.input(), self.at(), self.groups_opened(), expr, self.input().len() as int, p.group_id as int));
            assert(equiv(expr, r));
        }
        Ok(r)
    }
}

impl Regex {
    /// Parses a pattern into a simplified tree whose repeats all have `min <= max` and
    /// which matches exactly what the tree that the grammar reads from the pattern
    /// (`alt_tree`) matches.
    pub fn parse(pattern: &str) -> (r: Result<Regex, ParseError>)
        ensures
            r matches Ok(x) ==> bounds_valid(x) && simplified(x),
            match pattern_error(pattern@, 0) {
                None => r is Ok,
                Some(e) => r == Err::<Regex, ParseError>(e),
            },
            r matches Ok(x) ==> exists|raw: Regex, g: int| #![trigger alt_tree(pattern@, 0, 0, raw, pattern@.len() as int, g)]
                alt_tree(pattern@, 0, 0, raw, pattern@.len() as int, g) && equiv(raw, x) && shape(x) == opt_shape(shape(raw)),
    {
        Parser::new(pattern).parse()
    }

    /// The simplified tree (see `optimize`).
    pub fn optimize(self) -> (r: Regex)
        ensures
            bounds_valid(self) ==> bounds_valid(r),
            no_empty_alt(self) ==> equiv(self, r) && no_empty_alt(r) && same_ends(self, r),
            simplified(r),
            node_count(r) <= node_count(self),
            shape(r) == opt_shape(shape(self)),
    {
        optimize(self)
    }
}

} // verus!

verus! {

/// How `describe_quantifier` names a repeat's bounds.
pub open spec fn quantifier_text(r: Regex) -> Seq<char> {
    match r {
        Regex::Repeat { min, max, .. } => match max {
            None => if min == 0 {
                "zero or more (*)"@
            } else if min == 1 {
                "one or more (+)"@
            } else {
                "at least {"@ + decimal(min as nat) + ",}"@
            },
            Some(mx) => if min == 0 && mx == 1 {
                "optional (?)"@
            } else if min == mx {
                "exactly {"@ + decimal(min as nat) + "}"@
            } else {
                "between {"@ + decimal(min as nat) + ","@ + decimal(mx as nat) + "}"@
            },
        },
        _ => "not a quantifier"@,
    }
}

/// A description of a repeat's bounds, such as `exactly {3}`.
pub fn describe_quantifier(repeat: &Regex) -> (r: String)
    ensures
        r@ == quantifier_text(*repeat),
{
    match repeat {
        Regex::Repeat { min, max, .. } => match max {
            None => if *min == 0 {
                owned("zero or more (*)")
            } else if *min == 1 {
                owned("one or more (+)")
            } else {
                let mut v: Vec<char> = Vec::new();
                append_str(&mut v, "at least {");
                let d = decimal_chars(*min as u64);
                crate::text::append_chars(&mut v, d.as_slice());
                append_str(&mut v, ",}");
                string_from_chars(v.as_slice())
            },
            Some(mx) => if *min == 0 && *mx == 1 {
                owned("optional (?)")
            } else if *min == *mx {
                let mut v: Vec<char> = Vec::new();
                append_str(&mut v, "exactly {");
                let d = decimal_chars(*min as u64);
                crate::text::append_chars(&mut v, d.as_slice());
                append_str(&mut v, "}");
                string_from_chars(v.as_slice())
            } else {
                let mut v: Vec<char> = Vec::new();
                append_str(&mut v, "between {");
                let d = decimal_chars(*min as u64);
                crate::text::append_chars(&mut v, d.as_slice());
                append_str(&mut v, ",");
                let e = decimal_chars(*mx as u64);
                crate::text::append_chars(&mut v, e.as_slice());
                append_str(&mut v, "}");
                string_from_chars(v.as_slice())
            },
        },
        _ => owned("not a quantifier"),
    }
}

impl ParseError {
    /// The message for the error.
    pub open spec fn message(&self) -> Seq<char> {
        match self {
            ParseError::UnexpectedEnd => "unexpected end of pattern"@,
            ParseError::UnexpectedChar(c) => "unexpected char '"@.push(*c) + "'"@,
            ParseError::UnclosedGroup => "unclosed group"@,
            ParseError::UnclosedCharClass => "unclosed character class"@,
            ParseError::InvalidRange => "invalid character range"@,
            ParseError::InvalidQuantifier => "invalid quantifier"@,
            ParseError::EmptyAlternationBranch => "empty alternation branch"@,
        }
    }

    /// The message for the error, as a string.
    pub fn to_text(&self) -> (r: String)
        ensures
            r@ == self.message(),
    {
        match self {
            ParseError::UnexpectedEnd => owned("unexpected end of pattern"),
            ParseError::UnexpectedChar(c) => {
                let mut v: Vec<char> = Vec::new();
                append_str(&mut v, "unexpected char '");
                v.push(*c);
                append_str(&mut v, "'");
                string_from_chars(v.as_slice())
            },
            ParseError::UnclosedGroup => owned("unclosed group"),
            ParseError::UnclosedCharClass => owned("unclosed character class"),
            ParseError::InvalidRange => owned("invalid character range"),
            ParseError::InvalidQuantifier => owned("invalid quantifier"),
            ParseError::EmptyAlternationBranch => owned("empty alternation branch"),
        }
    }
}

} // verus!

verus! {

/// The suffix that writes a repeat's bounds.
pub open spec fn suffix_text(min: usize, max: Option<usize>) -> Seq<char> {
    match max {
        None => if min == 0 {
            "*"@
        } else if min == 1 {
            "+"@
        } else {
            "{"@ + decimal(min as nat) + ",}"@
        },
        Some(mx) => if min == 0 && mx == 1 {
            "?"@
        } else if min == mx {
            "{"@ + decimal(min as nat) + "}"@
        } else {
            "{"@ + decimal(min as nat) + ","@ + decimal(mx as nat) + "}"@
        },
    }
}

/// The ranges of a class written as `a-b` one after another.
pub open spec fn ranges_text(rs: Seq<(char, char)>) -> Seq<char>
    decreases rs.len(),
{
    if rs.len() == 0 {
        Seq::empty()
    } else {
        ranges_text(rs.drop_last()) + seq![rs.last().0, '-', rs.last().1]
    }
}

/// Whether a repeated tree needs parentheses: an alternation, or a sequence of more than
/// one item.
pub open spec fn needs_parens(r: Regex) -> bool {
    match r {
        Regex::Alternation(_) => true,
        Regex::Sequence(xs) => xs@.len() > 1,
        _ => false,
    }
}

/// The pattern text of a tree.
pub open spec fn rendered(r: Regex) -> Seq<char>
    decreases r, 0nat,
{
    match r {
        Regex::Empty => Seq::empty(),
        Regex::Literal(s) => s@,
        Regex::Char(c) => seq![c],
        Regex::Wildcard => "."@,
        Regex::CharClass { ranges, chars, negated } => "["@ + (if negated { "^"@ } else { Seq::empty() }) + ranges_text(ranges@) + chars@ + "]"@,
        Regex::Sequence(xs) => rendered_concat(xs@),
        Regex::Repeat { expr, min, max } => (if needs_parens(*expr) {
            "("@ + rendered(*expr) + ")"@
        } else {
            rendered(*expr)
        }) + suffix_text(min, max),
        Regex::Alternation(xs) => rendered_alternatives(xs@),
        Regex::Group { expr, .. } => "("@ + rendered(*expr) + ")"@,
        Regex::Anchor(kind) => match kind {
            AnchorKind::StartOfLine => "^"@,
            AnchorKind::EndOfLine => "$"@,
            AnchorKind::WordBoundary => "\\b"@,
        },
    }
}

/// The pattern texts of the trees, one after another.
pub open spec fn rendered_concat(xs: Seq<Regex>) -> Seq<char>
    decreases xs, 0nat,
{
    if xs.len() == 0 {
        Seq::empty()
    } else {
        rendered_concat(xs.drop_last()) + rendered(xs.last())
    }
}

/// The pattern texts of the trees separated by `|`.
pub open spec fn rendered_alternatives(xs: Seq<Regex>) -> Seq<char>
    decreases xs, 0nat,
{
    if xs.len() == 0 {
        Seq::empty()
    } else if xs.len() == 1 {
        rendered(xs.last())
    } else {
        rendered_alternatives(xs.drop_last()) + "|"@ + rendered(xs.last())
    }
}

/// Appends the suffix for a repeat's bounds.
fn push_suffix(out: &mut Vec<char>, min: usize, max: Option<usize>)
    ensures
        final(out)@ == old(out)@ + suffix_text(min, max),
{
    match max {
        None => if min == 0 {
            append_str(out, "*");
        } else if min == 1 {
            append_str(out, "+");
        } else {
            append_str(out, "{");
            let d = decimal_chars(min as u64);
            crate::text::append_chars(out, d.as_slice());
            append_str(out, ",}");
            assert(final(out)@ =~= old(out)@ + suffix_text(min, max));
        },
        Some(mx) => if min == 0 && mx == 1 {
            append_str(out, "?");
        } else if min == mx {
            append_str(out, "{");
            let d = decimal_chars(min as u64);
            crate::text::append_chars(out, d.as_slice());
            append_str(out, "}");
            assert(final(out)@ =~= old(out)@ + suffix_text(min, max));
        } else {
            append_str(out, "{");
            let d = decimal_chars(min as u64);
            crate::text::append_chars(out, d.as_slice());
            append_str(out, ",");
            let e = decimal_chars(mx as u64);
            crate::text::append_chars(out, e.as_slice());
            append_str(out, "}");
            assert(final(out)@ =~= old(out)@ + suffix_text(min, max));
        },
    }
}

impl Regex {
    /// Appends the pattern text of the tree.
    fn render_into(&self, out: &mut Vec<char>)
        ensures
            final(out)@ == old(out)@ + rendered(*self),
        decreases self, 0nat,
    {
        match self {
            Regex::Empty => {
                assert(old(out)@ + rendered(*self) =~= old(out)@);
            },
            Regex::Literal(s) => {
                append_str(out, s.as_str());
            },
            Regex::Char(c) => {
                out.push(*c);
                assert(final(out)@ =~= old(out)@ + rendered(*self));
            },
            Regex::Wildcard => {
                append_str(out, ".");
            },
            Regex::CharClass { ranges, chars, negated } => {
                append_str(out, "[");
                if *negated {
                    append_str(out, "^");
                }
                let ghost before_ranges = out@;
                let mut i: usize = 0;
                while i < ranges.len()
                    invariant
                        i <= ranges@.len(),
                        out@ == before_ranges + ranges_text(ranges@.subrange(0, i as int)),
                    decreases ranges@.len() - i,
                {
                    let (a, b) = ranges[i];
                    out.push(a);
                    out.push('-');
                    out.push(b);
                    proof {
                        assert(ranges@.subrange(0, i + 1).drop_last() =~= ranges@.subrange(0, i as int));
                        assert(out@ =~= before_ranges + ranges_text(ranges@.subrange(0, i + 1)));
                    }
                    i = i + 1;
                }
                proof {
                    assert(ranges@.subrange(0, ranges@.len() as int) =~= ranges@);
                }
                crate::text::append_chars(out, chars.as_slice());
                append_str(out, "]");
                assert(final(out)@ =~= old(out)@ + rendered(*self));
            },
            Regex::Sequence(xs) => {
                render_concat(xs, out);
            },
            Regex::Repeat { expr, min, max } => {
                let parens = match &**expr {
                    Regex::Alternation(_) => true,
                    Regex::Sequence(ys) => ys.len() > 1,
                    _ => false,
                };
                if parens {
                    append_str(out, "(");
                    expr.render_into(out);
                    append_str(out, ")");
                } else {
                    expr.render_into(out);
                }
                push_suffix(out, *min, *max);
                assert(final(out)@ =~= old(out)@ + rendered(*self));
            },
            Regex::Alternation(xs) => {
                render_alternatives(xs, out);
            },
            Regex::Group { expr, .. } => {
                append_str(out, "(");
                expr.render_into(out);
                append_str(out, ")");
                assert(final(out)@ =~= old(out)@ + rendered(*self));
            },
            Regex::Anchor(kind) => match kind {
                AnchorKind::StartOfLine => append_str(out, "^"),
                AnchorKind::EndOfLine => append_str(out, "$"),
                AnchorKind::WordBoundary => append_str(out, "\\b"),
            },
        }
    }

    /// The pattern text of the tree (see `rendered`).
    pub fn to_text(&self) -> (r: String)
        ensures
            r@ == rendered(*self),
    {
        let mut out: Vec<char> = Vec::new();
        self.render_into(&mut out);
        assert(out@ =~= rendered(*self));
        string_from_chars(out.as_slice())
    }
}

fn render_concat(xs: &Vec<Regex>, out: &mut Vec<char>)
    ensures
        final(out)@ == old(out)@ + rendered_concat(xs@),
    decreases xs, 1nat,
{
    let mut i: usize = 0;
    while i < xs.len()
        invariant
            i <= xs@.len(),
            out@ == old(out)@ + rendered_concat(xs@.subrange(0, i as int)),
        decreases xs@.len() - i,
    {
        proof {
            assert(decreases_to!(xs => xs@[i as int]));
        }
        xs[i].render_into(out);
        proof {
            assert(xs@.subrange(0, i + 1).drop_last() =~= xs@.subrange(0, i as int));
            assert(out@ =~= old(out)@ + rendered_concat(xs@.subrange(0, i + 1)));
        }
        i = i + 1;
    }
    proof {
        assert(xs@.subrange(0, xs@.len() as int) =~= xs@);
    }
}

fn render_alternatives(xs: &Vec<Regex>, out: &mut Vec<char>)
    ensures
        final(out)@ == old(out)@ + rendered_alternatives(xs@),
    decreases xs, 1nat,
{
    let mut i: usize = 0;
    while i < xs.len()
        invariant
            i <= xs@.len(),
            out@ == old(out)@ + rendered_alternatives(xs@.subrange(0, i as int)),
        decreases xs@.len() - i,
    {
        if i > 0 {
            append_str(out, "|");
        }
        proof {
            assert(decreases_to!(xs => xs@[i as int]));
        }
        xs[i].render_into(out);
        proof {
            assert(xs@.subrange(0, i + 1).drop_last() =~= xs@.subrange(0, i as int));
            assert(out@ =~= old(out)@ + rendered_alternatives(xs@.subrange(0, i + 1)));
        }
        i = i + 1;
    }
    proof {
        assert(xs@.subrange(0, xs@.len() as int) =~= xs@);
    }
}

} // verus!

verus! {

/// A shape that may stand as an item of a simplified sequence: no sequence, empty
/// pattern or lone character, and no empty literal.
pub open spec fn seq_item(x: Shape) -> bool {
    &&& !(x is Sequence)
    &&& !(x is Empty)
    &&& !(x is Char)
    &&& x matches Shape::Literal(t) ==> t.len() > 0
}

/// A literal shape.
pub open spec fn is_lit(x: Shape) -> bool {
    x is Literal
}

/// The shapes `opt_shape` produces: sequences of at least two items, none of them a
/// sequence, an empty pattern, a character or an empty literal, with no two literals
/// side by side; alternations of at least two alternatives, none an alternation; no
/// repeat `x{0}` or `x{1}`.
pub open spec fn normal(s: Shape) -> bool
    decreases s,
{
    match s {
        Shape::Sequence(xs) => xs.len() >= 2 && (forall|k: int| 0 <= k < xs.len() ==> normal(#[trigger] xs[k]) && seq_item(xs[k]))
            && (forall|k: int| 0 <= k < xs.len() - 1 ==> !(is_lit(#[trigger] xs[k]) && is_lit(xs[k + 1]))),
        Shape::Alternation(xs) => xs.len() >= 2 && forall|k: int| 0 <= k < xs.len() ==> normal(#[trigger] xs[k]) && !(xs[k] is Alternation),
        Shape::Repeat { expr, min, max } => !(min == 0 && max == Some(0usize)) && !(min == 1 && max == Some(1usize)) && normal(*expr),
        Shape::Group { expr, .. } => normal(*expr),
        _ => true,
    }
}

/// Reading normal items that are neither sequences nor empty patterns emits normal
/// sequence items with no two literals side by side, the last emitted one no literal.
proof fn lemma_join_scan_normal(xs: Seq<Shape>)
    requires
        forall|k: int| 0 <= k < xs.len() ==> normal(#[trigger] xs[k]) && !(xs[k] is Sequence) && !(xs[k] is Empty),
    ensures
        forall|k: int| 0 <= k < join_scan(xs).0.len() ==> normal(#[trigger] join_scan(xs).0[k]) && seq_item(join_scan(xs).0[k]),
        forall|k: int| 0 <= k < join_scan(xs).0.len() - 1 ==> !(is_lit(#[trigger] join_scan(xs).0[k]) && is_lit(join_scan(xs).0[k + 1])),
        join_scan(xs).0.len() == 0 || !is_lit(join_scan(xs).0.last()),
    decreases xs.len(),
{
    if xs.len() > 0 {
        let p = xs.drop_last();
        lemma_join_scan_normal(p);
        let (out, buf) = join_scan(p);
        let x = xs.last();
        match x {
            Shape::Char(c) => {},
            Shape::Literal(t) => {},
            _ => {
                let o1 = if buf.len() > 0 { out.push(Shape::Literal(buf)) } else { out };
                let o2 = o1.push(x);
                assert(o2 == join_scan(xs).0);
                assert forall|k: int| 0 <= k < o2.len() implies normal(#[trigger] o2[k]) && seq_item(o2[k]) by {
                    if k < out.len() {
                        assert(o2[k] == out[k]);
                    }
                }
                assert forall|k: int| 0 <= k < o2.len() - 1 implies !(is_lit(#[trigger] o2[k]) && is_lit(o2[k + 1])) by {
                    if k + 1 < out.len() {
                        assert(o2[k] == out[k] && o2[k + 1] == out[k + 1]);
                    } else if k + 1 == out.len() {
                        assert(o2[k] == out.last());
                    }
                }
            },
        }
    }
}

/// Splicing normal items gives normal items that are neither sequences nor empty.
proof fn lemma_spliced_normal(xs: Seq<Shape>)
    requires
        forall|k: int| 0 <= k < xs.len() ==> normal(#[trigger] xs[k]),
    ensures
        forall|k: int| 0 <= k < spliced_shapes(xs).len() ==> normal(#[trigger] spliced_shapes(xs)[k])
            && !(spliced_shapes(xs)[k] is Sequence) && !(spliced_shapes(xs)[k] is Empty),
    decreases xs.len(),
{
    if xs.len() > 0 {
        let p = xs.drop_last();
        lemma_spliced_normal(p);
        let rest = spliced_shapes(p);
        let r = spliced_shapes(xs);
        assert(normal(xs.last()));
        match xs.last() {
            Shape::Sequence(inner) => {
                assert forall|k: int| 0 <= k < r.len() implies normal(#[trigger] r[k]) && !(r[k] is Sequence) && !(r[k] is Empty) by {
                    if k < rest.len() {
                        assert(r[k] == rest[k]);
                    } else {
                        assert(r[k] == inner[k - rest.len()]);
                        assert(seq_item(inner[k - rest.len()]));
                    }
                }
            },
            Shape::Empty => {},
            x => {
                assert forall|k: int| 0 <= k < r.len() implies normal(#[trigger] r[k]) && !(r[k] is Sequence) && !(r[k] is Empty) by {
                    if k < rest.len() {
                        assert(r[k] == rest[k]);
                    }
                }
            },
        }
    }
}

/// Splicing normal alternatives gives normal alternatives that are no alternations.
proof fn lemma_spliced_alt_normal(xs: Seq<Shape>)
    requires
        forall|k: int| 0 <= k < xs.len() ==> normal(#[trigger] xs[k]),
    ensures
        forall|k: int| 0 <= k < spliced_alt_shapes(xs).len() ==> normal(#[trigger] spliced_alt_shapes(xs)[k])
            && !(spliced_alt_shapes(xs)[k] is Alternation),
    decreases xs.len(),
{
    if xs.len() > 0 {
        let p = xs.drop_last();
        lemma_spliced_alt_normal(p);
        let rest = spliced_alt_shapes(p);
        let r = spliced_alt_shapes(xs);
        assert(normal(xs.last()));
        match xs.last() {
            Shape::Alternation(inner) => {
                assert forall|k: int| 0 <= k < r.len() implies normal(#[trigger] r[k]) && !(r[k] is Alternation) by {
                    if k < rest.len() {
                        assert(r[k] == rest[k]);
                    } else {
                        assert(r[k] == inner[k - rest.len()]);
                    }
                }
            },
            x => {
                assert forall|k: int| 0 <= k < r.len() implies normal(#[trigger] r[k]) && !(r[k] is Alternation) by {
                    if k < rest.len() {
                        assert(r[k] == rest[k]);
                    }
                }
            },
        }
    }
}

/// What `opt_shape` produces is normal.
pub proof fn lemma_opt_normal(s: Shape)
    ensures
        normal(opt_shape(s)),
    decreases s,
{
    match s {
        Shape::Sequence(xs) => {
            let o = opt_shapes(xs);
            lemma_opt_shapes_index(xs);
            assert forall|k: int| 0 <= k < o.len() implies normal(#[trigger] o[k]) by {
                lemma_opt_normal(xs[k]);
            }
            lemma_spliced_normal(o);
            let sp = spliced_shapes(o);
            lemma_join_scan_normal(sp);
            let (out, buf) = join_scan(sp);
            let j = joined_shapes(sp);
            assert forall|k: int| 0 <= k < j.len() implies normal(#[trigger] j[k]) && seq_item(j[k]) by {
                if k < out.len() {
                    assert(j[k] == out[k]);
                }
            }
            assert forall|k: int| 0 <= k < j.len() - 1 implies !(is_lit(#[trigger] j[k]) && is_lit(j[k + 1])) by {
                if k + 1 < out.len() {
                    assert(j[k] == out[k] && j[k + 1] == out[k + 1]);
                } else {
                    assert(j[k] == out.last());
                }
            }
        },
        Shape::Alternation(xs) => {
            let o = opt_shapes(xs);
            lemma_opt_shapes_index(xs);
            assert forall|k: int| 0 <= k < o.len() implies normal(#[trigger] o[k]) by {
                lemma_opt_normal(xs[k]);
            }
            lemma_spliced_alt_normal(o);
        },
        Shape::Repeat { expr, min, max } => {
            lemma_opt_normal(*expr);
        },
        Shape::Group { id, expr } => {
            lemma_opt_normal(*expr);
        },
        _ => {},
    }
}

/// Reading sequence items with no two literals side by side emits them all but a final
/// literal, which stays pending.
proof fn lemma_join_scan_fixed(xs: Seq<Shape>)
    requires
        forall|k: int| 0 <= k < xs.len() ==> seq_item(#[trigger] xs[k]),
        forall|k: int| 0 <= k < xs.len() - 1 ==> !(is_lit(#[trigger] xs[k]) && is_lit(xs[k + 1])),
    ensures
        xs.len() > 0 && is_lit(xs.last()) ==> join_scan(xs) == (xs.drop_last(), xs.last()->Literal_0),
        !(xs.len() > 0 && is_lit(xs.last())) ==> join_scan(xs) == (xs, Seq::<char>::empty()),
    decreases xs.len(),
{
    if xs.len() > 0 {
        let p = xs.drop_last();
        assert forall|k: int| 0 <= k < p.len() - 1 implies !(is_lit(#[trigger] p[k]) && is_lit(p[k + 1])) by {
            assert(p[k] == xs[k] && p[k + 1] == xs[k + 1]);
        }
        lemma_join_scan_fixed(p);
        assert(seq_item(xs.last()));
        match xs.last() {
            Shape::Literal(t) => {
                if p.len() > 0 {
                    assert(p.last() == xs[xs.len() - 2]);
                    assert(!is_lit(p.last()));
                }
                assert(Seq::<char>::empty() + t =~= t);
            },
            x => {
                if p.len() > 0 && is_lit(p.last()) {
                    let tp = p.last()->Literal_0;
                    assert(seq_item(p.last()));
                    assert(p.drop_last().push(Shape::Literal(tp)) =~= p);
                }
                assert(p.push(x) =~= xs);
            },
        }
    }
}

/// A sequence without sequences or empty patterns is left alone by splicing.
proof fn lemma_spliced_fixed(xs: Seq<Shape>)
    requires
        forall|k: int| 0 <= k < xs.len() ==> !(#[trigger] xs[k] is Sequence) && !(xs[k] is Empty),
    ensures
        spliced_shapes(xs) == xs,
    decreases xs.len(),
{
    if xs.len() > 0 {
        lemma_spliced_fixed(xs.drop_last());
        assert(xs.drop_last().push(xs.last()) =~= xs);
    }
}

/// Alternatives without alternations are left alone by splicing.
proof fn lemma_spliced_alt_fixed(xs: Seq<Shape>)
    requires
        forall|k: int| 0 <= k < xs.len() ==> !(#[trigger] xs[k] is Alternation),
    ensures
        spliced_alt_shapes(xs) == xs,
    decreases xs.len(),
{
    if xs.len() > 0 {
        lemma_spliced_alt_fixed(xs.drop_last());
        assert(xs.drop_last().push(xs.last()) =~= xs);
    }
}

/// A normal shape is its own simplified shape.
pub proof fn lemma_normal_fixed(s: Shape)
    requires
        normal(s),
    ensures
        opt_shape(s) == s,
    decreases s,
{
    match s {
        Shape::Sequence(xs) => {
            lemma_opt_shapes_index(xs);
            assert forall|k: int| 0 <= k < xs.len() implies #[trigger] opt_shapes(xs)[k] == xs[k] by {
                lemma_normal_fixed(xs[k]);
            }
            assert(opt_shapes(xs) =~= xs);
            lemma_spliced_fixed(xs);
            lemma_join_scan_fixed(xs);
            if is_lit(xs.last()) {
                assert(seq_item(xs.last()));
                assert(xs.drop_last().push(Shape::Literal(xs.last()->Literal_0)) =~= xs);
            }
            assert(joined_shapes(xs) == xs);
        },
        Shape::Alternation(xs) => {
            lemma_opt_shapes_index(xs);
            assert forall|k: int| 0 <= k < xs.len() implies #[trigger] opt_shapes(xs)[k] == xs[k] by {
                lemma_normal_fixed(xs[k]);
            }
            assert(opt_shapes(xs) =~= xs);
            lemma_spliced_alt_fixed(xs);
        },
        Shape::Repeat { expr, min, max } => {
            lemma_normal_fixed(*expr);
        },
        Shape::Group { id, expr } => {
            lemma_normal_fixed(*expr);
        },
        _ => {},
    }
}

/// Simplifying twice gives what simplifying once gives: `optimize` applied to its own
/// result returns a tree of the same shape.
pub proof fn lemma_optimize_idempotent(r: Regex)
    ensures
        opt_shape(opt_shape(shape(r))) == opt_shape(shape(r)),
{
    lemma_opt_normal(shape(r));
    lemma_normal_fixed(opt_shape(shape(r)));
}

} // verus!

verus! {

/// A pattern anchored at the start of the text matches only from position 0.
pub proof fn lemma_anchored_starts_at_zero(r: Regex, t: Seq<char>, s: int, j: int)
    requires
        anchored_at_start(r),
        accepts(r, t, s, j),
    ensures
        s == 0,
    decreases r,
{
    match r {
        Regex::Sequence(xs) => {
            lemma_seq_prefix(xs@, t, s, j, 1);
            let m = choose|m: int| #[trigger] accepts_seq(xs@.subrange(0, 1), t, s, m);
            assert(xs@.subrange(0, 1) =~= seq![xs@[0]]);
            lemma_seq_single(xs@[0], t, s, m);
        },
        Regex::Group { expr, .. } => {
            lemma_anchored_starts_at_zero(*expr, t, s, j);
        },
        _ => {},
    }
}

/// Two patterns that match the same spans are found in the same texts: `is_match`
/// answers alike for them. In particular simplifying a pattern with no empty
/// alternation (`optimize`, which keeps `equiv`) keeps every answer of `is_match`.
pub proof fn lemma_equiv_found_alike(a: Regex, b: Regex, t: Seq<char>)
    requires
        equiv(a, b),
    ensures
        found_somewhere(a, t) == found_somewhere(b, t),
{
    assert forall|s: int| #[trigger] matches_from(a, t, s) == matches_from(b, t, s) by {
        if matches_from(a, t, s) {
            let j = choose|j: int| #[trigger] accepts(a, t, s, j);
            assert(accepts(b, t, s, j));
        }
        if matches_from(b, t, s) {
            let j = choose|j: int| #[trigger] accepts(b, t, s, j);
            assert(accepts(a, t, s, j));
        }
    }
    if found_somewhere(a, t) {
        let s = choose|s: int| 0 <= s <= last_start_of(a, t) && #[trigger] matches_from(a, t, s);
        if anchored_at_start(b) && s > 0 {
            let j = choose|j: int| #[trigger] accepts(b, t, s, j);
            lemma_anchored_starts_at_zero(b, t, s, j);
        }
        assert(0 <= s <= last_start_of(b, t) && matches_from(b, t, s));
    }
    if found_somewhere(b, t) {
        let s = choose|s: int| 0 <= s <= last_start_of(b, t) && #[trigger] matches_from(b, t, s);
        if anchored_at_start(a) && s > 0 {
            let j = choose|j: int| #[trigger] accepts(a, t, s, j);
            lemma_anchored_starts_at_zero(a, t, s, j);
        }
        assert(0 <= s <= last_start_of(a, t) && matches_from(a, t, s));
    }
}

} // verus!

verus! {

/// Every position of `s` lies within the text.
pub open spec fn in_text(s: Seq<int>, t: Seq<char>) -> bool {
    forall|k: int| 0 <= k < s.len() ==> 0 <= #[trigger] s[k] <= t.len()
}

/// A match from a position within the text ends within it.
proof fn lemma_ends_in_text(r: Regex, t: Seq<char>, i: int)
    requires
        0 <= i <= t.len(),
    ensures
        in_text(match_ends(r, t, i), t),
    decreases node_count(r), 0nat, 0nat,
{
    match r {
        Regex::Sequence(xs) => {
            lemma_seq_ends_in_text(xs@, t, i);
        },
        Regex::Alternation(xs) => {
            lemma_alt_ends_in_text(xs@, t, i);
        },
        Regex::Group { expr, .. } => {
            lemma_ends_in_text(*expr, t, i);
        },
        Regex::Repeat { expr, min, max } => {
            lemma_times_in_text(*expr, t, seq![i], min as nat);
            lemma_layer_in_text(*expr, min, max, t, times_ends(*expr, t, seq![i], min as nat), 0, (t.len() - i) as nat);
        },
        _ => {},
    }
}

proof fn lemma_step_in_text(e: Regex, t: Seq<char>, s: Seq<int>)
    requires
        in_text(s, t),
    ensures
        in_text(step_all(e, t, s), t),
    decreases node_count(e), 1nat, s.len(),
{
    if s.len() > 0 {
        lemma_step_in_text(e, t, s.drop_last());
        lemma_ends_in_text(e, t, s.last());
        let a = step_all(e, t, s.drop_last());
        let b = match_ends(e, t, s.last());
        assert forall|k: int| 0 <= k < (a + b).len() implies 0 <= #[trigger] (a + b)[k] <= t.len() by {
            if k < a.len() {
                assert((a + b)[k] == a[k]);
            } else {
                assert((a + b)[k] == b[k - a.len()]);
            }
        }
    }
}

proof fn lemma_seq_ends_in_text(xs: Seq<Regex>, t: Seq<char>, i: int)
    requires
        0 <= i <= t.len(),
    ensures
        in_text(seq_ends(xs, t, i), t),
    decreases node_count_all(xs), 2nat, xs.len(),
{
    if xs.len() > 0 {
        lemma_seq_ends_in_text(xs.drop_last(), t, i);
        lemma_step_in_text(xs.last(), t, seq_ends(xs.drop_last(), t, i));
    }
}

proof fn lemma_alt_ends_in_text(xs: Seq<Regex>, t: Seq<char>, i: int)
    requires
        0 <= i <= t.len(),
    ensures
        in_text(alt_ends(xs, t, i), t),
    decreases node_count_all(xs), 2nat, xs.len(),
{
    if xs.len() > 0 {
        lemma_alt_ends_in_text(xs.drop_last(), t, i);
        lemma_ends_in_text(xs.last(), t, i);
        let a = alt_ends(xs.drop_last(), t, i);
        let b = match_ends(xs.last(), t, i);
        assert forall|k: int| 0 <= k < (a + b).len() implies 0 <= #[trigger] (a + b)[k] <= t.len() by {
            if k < a.len() {
                assert((a + b)[k] == a[k]);
            } else {
                assert((a + b)[k] == b[k - a.len()]);
            }
        }
    }
}

proof fn lemma_times_in_text(e: Regex, t: Seq<char>, s: Seq<int>, n: nat)
    requires
        in_text(s, t),
    ensures
        in_text(times_ends(e, t, s, n), t),
    decreases node_count(e), 2nat, n,
{
    if n > 0 {
        lemma_times_in_text(e, t, s, (n - 1) as nat);
        lemma_step_in_text(e, t, times_ends(e, t, s, (n - 1) as nat));
    }
}

proof fn lemma_without_in_text(s: Seq<int>, p: int, t: Seq<char>)
    requires
        in_text(s, t),
    ensures
        in_text(without(s, p), t),
    decreases s.len(),
{
    if s.len() > 0 {
        lemma_without_in_text(s.drop_last(), p, t);
    }
}

proof fn lemma_adv_in_text(e: Regex, t: Seq<char>, layer: Seq<int>)
    requires
        in_text(layer, t),
    ensures
        in_text(adv_all(e, t, layer), t),
    decreases node_count(e), 1nat, layer.len(),
{
    if layer.len() > 0 {
        lemma_adv_in_text(e, t, layer.drop_last());
        lemma_ends_in_text(e, t, layer.last());
        lemma_without_in_text(match_ends(e, t, layer.last()), layer.last(), t);
        let a = adv_all(e, t, layer.drop_last());
        let b = without(match_ends(e, t, layer.last()), layer.last());
        assert forall|k: int| 0 <= k < (a + b).len() implies 0 <= #[trigger] (a + b)[k] <= t.len() by {
            if k < a.len() {
                assert((a + b)[k] == a[k]);
            } else {
                assert((a + b)[k] == b[k - a.len()]);
            }
        }
    }
}

proof fn lemma_layer_in_text(e: Regex, min: usize, max: Option<usize>, t: Seq<char>, layer: Seq<int>, extra: nat, fuel: nat)
    requires
        in_text(layer, t),
    ensures
        in_text(layer_ends(e, min, max, t, layer, extra, fuel), t),
    decreases node_count(e), 2nat, fuel,
{
    if !repeat_full(min, max, extra) {
        let next = adv_all(e, t, layer);
        lemma_adv_in_text(e, t, layer);
        if next.len() > 0 && fuel > 0 {
            lemma_layer_in_text(e, min, max, t, next, extra + 1, (fuel - 1) as nat);
            let a = layer_ends(e, min, max, t, next, extra + 1, (fuel - 1) as nat);
            assert forall|k: int| 0 <= k < (a + layer).len() implies 0 <= #[trigger] (a + layer)[k] <= t.len() by {
                if k < a.len() {
                    assert((a + layer)[k] == a[k]);
                } else {
                    assert((a + layer)[k] == layer[k - a.len()]);
                }
            }
        }
    }
}

} // verus!

verus! {

/// Two patterns have the same ends, in the same order, from every position within every
/// text: the matcher, `find` and `captures` cannot tell them apart by their ends.
pub open spec fn same_ends(a: Regex, b: Regex) -> bool {
    forall|t: Seq<char>, i: int|
        #![trigger match_ends(a, t, i)]
        #![trigger match_ends(b, t, i)]
        0 <= i <= t.len() ==> match_ends(a, t, i) == match_ends(b, t, i)
}

proof fn lemma_step_cong(a: Regex, b: Regex, t: Seq<char>, s: Seq<int>)
    requires
        same_ends(a, b),
        in_text(s, t),
    ensures
        step_all(a, t, s) == step_all(b, t, s),
    decreases s.len(),
{
    if s.len() > 0 {
        lemma_step_cong(a, b, t, s.drop_last());
        assert(0 <= s[s.len() - 1] <= t.len());
        assert(match_ends(a, t, s.last()) == match_ends(b, t, s.last()));
    }
}

proof fn lemma_times_cong(a: Regex, b: Regex, t: Seq<char>, s: Seq<int>, n: nat)
    requires
        same_ends(a, b),
        in_text(s, t),
    ensures
        times_ends(a, t, s, n) == times_ends(b, t, s, n),
    decreases n,
{
    if n > 0 {
        lemma_times_cong(a, b, t, s, (n - 1) as nat);
        lemma_times_in_text(a, t, s, (n - 1) as nat);
        lemma_step_cong(a, b, t, times_ends(a, t, s, (n - 1) as nat));
    }
}

proof fn lemma_adv_cong(a: Regex, b: Regex, t: Seq<char>, layer: Seq<int>)
    requires
        same_ends(a, b),
        in_text(layer, t),
    ensures
        adv_all(a, t, layer) == adv_all(b, t, layer),
    decreases layer.len(),
{
    if layer.len() > 0 {
        lemma_adv_cong(a, b, t, layer.drop_last());
        assert(0 <= layer[layer.len() - 1] <= t.len());
        assert(match_ends(a, t, layer.last()) == match_ends(b, t, layer.last()));
    }
}

proof fn lemma_layer_cong(a: Regex, b: Regex, min: usize, max: Option<usize>, t: Seq<char>, layer: Seq<int>, extra: nat, fuel: nat)
    requires
        same_ends(a, b),
        in_text(layer, t),
    ensures
        layer_ends(a, min, max, t, layer, extra, fuel) == layer_ends(b, min, max, t, layer, extra, fuel),
    decreases fuel,
{
    if !repeat_full(min, max, extra) {
        lemma_adv_cong(a, b, t, layer);
        lemma_adv_in_text(a, t, layer);
        if fuel > 0 {
            lemma_layer_cong(a, b, min, max, t, adv_all(a, t, layer), extra + 1, (fuel - 1) as nat);
        }
    }
}

proof fn lemma_seq_cong(xs: Seq<Regex>, ys: Seq<Regex>, t: Seq<char>, i: int)
    requires
        xs.len() == ys.len(),
        forall|k: int| 0 <= k < xs.len() ==> same_ends(#[trigger] xs[k], ys[k]),
        0 <= i <= t.len(),
    ensures
        seq_ends(xs, t, i) == seq_ends(ys, t, i),
    decreases xs.len(),
{
    if xs.len() > 0 {
        lemma_seq_cong(xs.drop_last(), ys.drop_last(), t, i);
        lemma_seq_ends_in_text(xs.drop_last(), t, i);
        assert(same_ends(xs[xs.len() - 1], ys[ys.len() - 1]));
        lemma_step_cong(xs.last(), ys.last(), t, seq_ends(xs.drop_last(), t, i));
    }
}

proof fn lemma_alt_cong(xs: Seq<Regex>, ys: Seq<Regex>, t: Seq<char>, i: int)
    requires
        xs.len() == ys.len(),
        forall|k: int| 0 <= k < xs.len() ==> same_ends(#[trigger] xs[k], ys[k]),
        0 <= i <= t.len(),
    ensures
        alt_ends(xs, t, i) == alt_ends(ys, t, i),
    decreases xs.len(),
{
    if xs.len() > 0 {
        lemma_alt_cong(xs.drop_last(), ys.drop_last(), t, i);
        assert(same_ends(xs[xs.len() - 1], ys[ys.len() - 1]));
        assert(match_ends(xs.last(), t, i) == match_ends(ys.last(), t, i));
    }
}

} // verus!

verus! {

/// The ends of the expressions of `xs` one after another, from each start of `s`.
pub open spec fn steps(xs: Seq<Regex>, t: Seq<char>, s: Seq<int>) -> Seq<int>
    decreases xs.len(),
{
    if xs.len() == 0 {
        s
    } else {
        step_all(xs.last(), t, steps(xs.drop_last(), t, s))
    }
}

proof fn lemma_seq_is_steps(xs: Seq<Regex>, t: Seq<char>, i: int)
    ensures
        seq_ends(xs, t, i) == steps(xs, t, seq![i]),
    decreases xs.len(),
{
    if xs.len() > 0 {
        lemma_seq_is_steps(xs.drop_last(), t, i);
    }
}

proof fn lemma_step_concat(e: Regex, t: Seq<char>, a: Seq<int>, b: Seq<int>)
    ensures
        step_all(e, t, a + b) == step_all(e, t, a) + step_all(e, t, b),
    decreases b.len(),
{
    if b.len() == 0 {
        assert(a + b =~= a);
        assert(step_all(e, t, a) + step_all(e, t, b) =~= step_all(e, t, a));
    } else {
        lemma_step_concat(e, t, a, b.drop_last());
        assert((a + b).drop_last() =~= a + b.drop_last());
        assert((a + b).last() == b.last());
        assert(step_all(e, t, a + b) =~= step_all(e, t, a) + step_all(e, t, b));
    }
}

proof fn lemma_steps_concat(xs: Seq<Regex>, t: Seq<char>, a: Seq<int>, b: Seq<int>)
    ensures
        steps(xs, t, a + b) == steps(xs, t, a) + steps(xs, t, b),
    decreases xs.len(),
{
    if xs.len() > 0 {
        lemma_steps_concat(xs.drop_last(), t, a, b);
        lemma_step_concat(xs.last(), t, steps(xs.drop_last(), t, a), steps(xs.drop_last(), t, b));
    }
}

proof fn lemma_step_sequence(r: Regex, t: Seq<char>, s: Seq<int>)
    requires
        r is Sequence,
    ensures
        step_all(r, t, s) == steps(r->Sequence_0@, t, s),
    decreases s.len(),
{
    let v = r->Sequence_0@;
    if s.len() == 0 {
        assert(s =~= Seq::<int>::empty());
        lemma_steps_empty(v, t);
    } else {
        lemma_step_sequence(r, t, s.drop_last());
        lemma_seq_is_steps(v, t, s.last());
        assert(match_ends(r, t, s.last()) == seq_ends(v, t, s.last()));
        assert(step_all(r, t, s) == step_all(r, t, s.drop_last()) + match_ends(r, t, s.last()));
        lemma_steps_concat(v, t, s.drop_last(), seq![s.last()]);
        assert(s.drop_last() + seq![s.last()] =~= s);
    }
}

proof fn lemma_steps_empty(xs: Seq<Regex>, t: Seq<char>)
    ensures
        steps(xs, t, Seq::<int>::empty()) == Seq::<int>::empty(),
    decreases xs.len(),
{
    if xs.len() > 0 {
        lemma_steps_empty(xs.drop_last(), t);
        assert(step_all(xs.last(), t, Seq::<int>::empty()) =~= Seq::<int>::empty());
    }
}

proof fn lemma_step_empty_pattern(t: Seq<char>, s: Seq<int>)
    ensures
        step_all(Regex::Empty, t, s) == s,
    decreases s.len(),
{
    if s.len() > 0 {
        lemma_step_empty_pattern(t, s.drop_last());
        assert(match_ends(Regex::Empty, t, s.last()) == seq![s.last()]);
        assert(s.drop_last() + seq![s.last()] =~= s);
    } else {
        assert(s =~= Seq::<int>::empty());
    }
}

proof fn lemma_steps_append(a: Seq<Regex>, b: Seq<Regex>, t: Seq<char>, s: Seq<int>)
    ensures
        steps(a + b, t, s) == steps(b, t, steps(a, t, s)),
    decreases b.len(),
{
    if b.len() == 0 {
        assert(a + b =~= a);
    } else {
        lemma_steps_append(a, b.drop_last(), t, s);
        assert((a + b).drop_last() =~= a + b.drop_last());
        assert((a + b).last() == b.last());
    }
}

proof fn lemma_spliced_steps(xs: Seq<Regex>, t: Seq<char>, s: Seq<int>)
    ensures
        steps(spliced_seq(xs), t, s) == steps(xs, t, s),
    decreases xs.len(),
{
    if xs.len() > 0 {
        lemma_spliced_steps(xs.drop_last(), t, s);
        let rest = spliced_seq(xs.drop_last());
        let x = xs.last();
        let prev = steps(xs.drop_last(), t, s);
        match x {
            Regex::Empty => {
                lemma_step_empty_pattern(t, prev);
            },
            Regex::Sequence(inner) => {
                lemma_steps_append(rest, inner@, t, s);
                lemma_step_sequence(x, t, prev);
            },
            _ => {
                assert(rest.push(x).drop_last() =~= rest);
            },
        }
    }
}

proof fn lemma_alt_ends_concat(a: Seq<Regex>, b: Seq<Regex>, t: Seq<char>, i: int)
    ensures
        alt_ends(a + b, t, i) == alt_ends(a, t, i) + alt_ends(b, t, i),
    decreases b.len(),
{
    if b.len() == 0 {
        assert(a + b =~= a);
        assert(alt_ends(a, t, i) + alt_ends(b, t, i) =~= alt_ends(a, t, i));
    } else {
        lemma_alt_ends_concat(a, b.drop_last(), t, i);
        assert((a + b).drop_last() =~= a + b.drop_last());
        assert((a + b).last() == b.last());
        assert(alt_ends(a + b, t, i) =~= alt_ends(a, t, i) + alt_ends(b, t, i));
    }
}

proof fn lemma_spliced_alt_ends(xs: Seq<Regex>, t: Seq<char>, i: int)
    ensures
        alt_ends(spliced_alt(xs), t, i) == alt_ends(xs, t, i),
    decreases xs.len(),
{
    if xs.len() > 0 {
        lemma_spliced_alt_ends(xs.drop_last(), t, i);
        let rest = spliced_alt(xs.drop_last());
        let x = xs.last();
        match x {
            Regex::Alternation(inner) => {
                lemma_alt_ends_concat(rest, inner@, t, i);
                assert(match_ends(x, t, i) == alt_ends(inner@, t, i));
                assert(spliced_alt(xs) == rest + inner@);
            },
            _ => {
                assert(spliced_alt(xs) == rest.push(x));
                assert(rest.push(x).drop_last() =~= rest);
                assert(rest.push(x).last() == x);
            },
        }
    }
}

} // verus!

verus! {

/// The end of the literal `w` spelled from `p`, if it is.
pub open spec fn lit_ends(w: Seq<char>, t: Seq<char>, p: int) -> Seq<int> {
    if spells(w, t, p, p + w.len()) {
        seq![p + w.len()]
    } else {
        Seq::empty()
    }
}

/// The ends of the literal `w` from each start of `s` in turn.
pub open spec fn step_lit(w: Seq<char>, t: Seq<char>, s: Seq<int>) -> Seq<int>
    decreases s.len(),
{
    if s.len() == 0 {
        Seq::empty()
    } else {
        step_lit(w, t, s.drop_last()) + lit_ends(w, t, s.last())
    }
}

/// The characters a character or literal pattern spells.
pub open spec fn lit_text(x: Regex) -> Seq<char> {
    match x {
        Regex::Char(c) => seq![c],
        Regex::Literal(l) => l@,
        _ => Seq::empty(),
    }
}

proof fn lemma_lit_ends_of(x: Regex, t: Seq<char>, q: int)
    requires
        literal_like(x),
    ensures
        match_ends(x, t, q) == lit_ends(lit_text(x), t, q),
{
    match x {
        Regex::Char(c) => {
            if 0 <= q < t.len() {
                assert(t.subrange(q, q + 1) =~= seq![t[q]]);
            }
            if spells(seq![c], t, q, q + 1) {
                assert(t.subrange(q, q + 1)[0] == t[q]);
            }
        },
        _ => {},
    }
}

proof fn lemma_lit_extend(w: Seq<char>, u: Seq<char>, t: Seq<char>, p: int)
    ensures
        lit_ends(w + u, t, p) == (if spells(w, t, p, p + w.len()) { lit_ends(u, t, p + w.len()) } else { Seq::<int>::empty() }),
{
    lemma_spells_concat(w, u, t, p, p + w.len() + u.len());
}

proof fn lemma_step_lit_after(x: Regex, w: Seq<char>, t: Seq<char>, s: Seq<int>)
    requires
        literal_like(x),
    ensures
        step_all(x, t, step_lit(w, t, s)) == step_lit(w + lit_text(x), t, s),
    decreases s.len(),
{
    if s.len() > 0 {
        lemma_step_lit_after(x, w, t, s.drop_last());
        let a = step_lit(w, t, s.drop_last());
        let b = lit_ends(w, t, s.last());
        lemma_step_concat(x, t, a, b);
        lemma_lit_extend(w, lit_text(x), t, s.last());
        if spells(w, t, s.last(), s.last() + w.len()) {
            let q = s.last() + w.len();
            assert(b == seq![q]);
            assert(seq![q].drop_last() =~= Seq::<int>::empty());
            lemma_lit_ends_of(x, t, q);
            assert(step_all(x, t, b) == step_all(x, t, Seq::<int>::empty()) + match_ends(x, t, q));
            assert(step_all(x, t, b) =~= match_ends(x, t, q));
        } else {
            assert(b =~= Seq::<int>::empty());
        }
    } else {
        assert(s =~= Seq::<int>::empty());
    }
}

proof fn lemma_step_literal(l: Regex, t: Seq<char>, s: Seq<int>)
    requires
        l is Literal,
    ensures
        step_all(l, t, s) == step_lit(lit_text(l), t, s),
    decreases s.len(),
{
    if s.len() > 0 {
        lemma_step_literal(l, t, s.drop_last());
        lemma_lit_ends_of(l, t, s.last());
    }
}

proof fn lemma_step_lit_nothing(t: Seq<char>, s: Seq<int>)
    requires
        in_text(s, t),
    ensures
        step_lit(Seq::<char>::empty(), t, s) == s,
    decreases s.len(),
{
    if s.len() > 0 {
        lemma_step_lit_nothing(t, s.drop_last());
        assert(0 <= s[s.len() - 1] <= t.len());
        assert(t.subrange(s.last(), s.last()) =~= Seq::<char>::empty());
        assert(s.drop_last() + seq![s.last()] =~= s);
    } else {
        assert(s =~= Seq::<int>::empty());
    }
}

proof fn lemma_steps_in_text(xs: Seq<Regex>, t: Seq<char>, s: Seq<int>)
    requires
        in_text(s, t),
    ensures
        in_text(steps(xs, t, s), t),
    decreases xs.len(),
{
    if xs.len() > 0 {
        lemma_steps_in_text(xs.drop_last(), t, s);
        lemma_step_in_text(xs.last(), t, steps(xs.drop_last(), t, s));
    }
}

} // verus!

verus! {

/// Two patterns that match the same spans and have the same ends in the same order are
/// found alike: the leftmost start of one is the leftmost start of the other and the
/// first end there is the same, so `find` reports the same span for both (with
/// `lemma_first_start_unique`) and `is_match` the same answer. `optimize` keeps both
/// properties for trees with no empty alternation.
pub proof fn lemma_same_first_match(a: Regex, b: Regex, t: Seq<char>, s: int)
    requires
        equiv(a, b),
        same_ends(a, b),
        first_start(a, t, s),
    ensures
        first_start(b, t, s),
        match_ends(b, t, s) == match_ends(a, t, s),
        found_somewhere(a, t) == found_somewhere(b, t),
{
    lemma_equiv_found_alike(a, b, t);
    assert forall|x: int| #[trigger] matches_from(a, t, x) == matches_from(b, t, x) by {
        if matches_from(a, t, x) {
            let j = choose|j: int| #[trigger] accepts(a, t, x, j);
            assert(accepts(b, t, x, j));
        }
        if matches_from(b, t, x) {
            let j = choose|j: int| #[trigger] accepts(b, t, x, j);
            assert(accepts(a, t, x, j));
        }
    }
    if anchored_at_start(b) && s > 0 {
        let j = choose|j: int| #[trigger] accepts(b, t, s, j);
        lemma_anchored_starts_at_zero(b, t, s, j);
    }
    assert(0 <= s <= t.len()) by {
        let j = choose|j: int| #[trigger] accepts(a, t, s, j);
        lemma_accepts_bounds(a, t, s, j);
    }
    assert(match_ends(a, t, s) == match_ends(b, t, s));
    assert forall|x: int| 0 <= x < s implies !#[trigger] matches_from(b, t, x) by {
        assert(!matches_from(a, t, x));
    }
    assert(matches_from(b, t, s)) by {
        assert(matches_from(a, t, s));
    }
}

} // verus!
