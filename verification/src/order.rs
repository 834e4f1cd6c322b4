//! Comparison predicates over `PartialOrd` values, read through the specification that
//! vstd gives `partial_cmp`, and the laws of an order that the ordered structures need.
use vstd::prelude::*;
use core::cmp::Ordering;
use vstd::std_specs::cmp::PartialOrdSpec;

verus! {

/// `a < b` as `partial_cmp` reports it.
pub open spec fn lt_spec<T: PartialOrd>(a: T, b: T) -> bool {
    a.partial_cmp_spec(&b) == Some(Ordering::Less)
}

/// `a > b` as `partial_cmp` reports it.
pub open spec fn gt_spec<T: PartialOrd>(a: T, b: T) -> bool {
    a.partial_cmp_spec(&b) == Some(Ordering::Greater)
}

/// `a <= b` as `partial_cmp` reports it.
pub open spec fn le_spec<T: PartialOrd>(a: T, b: T) -> bool {
    a.partial_cmp_spec(&b) matches Some(Ordering::Less | Ordering::Equal)
}

/// `a == b` in the order: `partial_cmp` reports `Equal`.
pub open spec fn eq_in_order<T: PartialOrd>(a: T, b: T) -> bool {
    a.partial_cmp_spec(&b) == Some(Ordering::Equal)
}

/// The comparison operators of `T` follow `partial_cmp`, every pair is comparable,
/// `<` and `>` are converse, and `<=` is transitive: a total preorder. The integer types
/// satisfy it; the contracts of the ordered structures promise their ordering results
/// for types that do.
pub open spec fn well_ordered<T: PartialOrd>() -> bool {
    &&& T::obeys_partial_cmp_spec()
    &&& forall|a: T, b: T| #[trigger] a.partial_cmp_spec(&b) is Some
    &&& forall|a: T, b: T|
        (#[trigger] a.partial_cmp_spec(&b) == Some(Ordering::Less)) <==> (b.partial_cmp_spec(&a)
            == Some(Ordering::Greater))
    &&& forall|a: T, b: T|
        (#[trigger] a.partial_cmp_spec(&b) == Some(Ordering::Equal)) <==> (b.partial_cmp_spec(&a)
            == Some(Ordering::Equal))
    &&& forall|a: T, b: T, c: T|
        #![trigger a.partial_cmp_spec(&b), b.partial_cmp_spec(&c)]
        le_spec(a, b) && le_spec(b, c) ==> le_spec(a, c)
}

/// The comparison operators of `T` (`<`, `<=`, `>`, `>=`) answer as `partial_cmp` does.
pub open spec fn lawful_comparisons<T: PartialOrd>() -> bool {
    T::obeys_partial_cmp_spec()
}

/// `a < b` for an item type whose comparisons follow `partial_cmp`.
pub open spec fn less<T: PartialOrd>(a: T, b: T) -> bool {
    lt_spec(a, b)
}

/// `a > b` for an item type whose comparisons follow `partial_cmp`.
pub open spec fn greater<T: PartialOrd>(a: T, b: T) -> bool {
    gt_spec(a, b)
}

/// `a <= b` for an item type whose comparisons follow `partial_cmp`.
pub open spec fn at_most<T: PartialOrd>(a: T, b: T) -> bool {
    le_spec(a, b)
}

/// The item type is totally preordered by its comparison operators (see `well_ordered`).
pub open spec fn total_order<T: PartialOrd>() -> bool {
    well_ordered::<T>()
}

/// A totally preordered type's comparison operators follow `partial_cmp`.
pub proof fn lemma_total_order_obeys<T: PartialOrd>()
    requires
        total_order::<T>(),
    ensures
        T::obeys_partial_cmp_spec(),
        lawful_comparisons::<T>(),
{
}

/// Exactly one of `<`, `==`, `>` holds.
pub proof fn lemma_trichotomy<T: PartialOrd>(a: T, b: T)
    requires
        total_order::<T>(),
    ensures
        less(a, b) || eq_in_order(a, b) || greater(a, b),
        !(less(a, b) && greater(a, b)),
        less(a, b) <==> greater(b, a),
        at_most(a, b) <==> !greater(a, b),
        at_most(a, b) <==> !less(b, a),
        at_most(a, b) || at_most(b, a),
        less(a, b) ==> !eq_in_order(a, b),
        greater(a, b) ==> !eq_in_order(a, b),
{
    assert(a.partial_cmp_spec(&b) is Some);
    assert(b.partial_cmp_spec(&a) is Some);
}

/// `<=` is transitive.
pub proof fn lemma_le_trans<T: PartialOrd>(a: T, b: T, c: T)
    requires
        total_order::<T>(),
        at_most(a, b),
        at_most(b, c),
    ensures
        at_most(a, c),
{
    assert(a.partial_cmp_spec(&b) is Some);
    assert(b.partial_cmp_spec(&c) is Some);
}

/// `a <= b < c` gives `a < c`.
pub proof fn lemma_le_lt_trans<T: PartialOrd>(a: T, b: T, c: T)
    requires
        total_order::<T>(),
        at_most(a, b),
        less(b, c),
    ensures
        less(a, c),
{
    lemma_trichotomy(a, c);
    lemma_trichotomy(b, c);
    if at_most(c, a) {
        lemma_le_trans(c, a, b);
    }
}

/// `a < b <= c` gives `a < c`.
pub proof fn lemma_lt_le_trans<T: PartialOrd>(a: T, b: T, c: T)
    requires
        total_order::<T>(),
        less(a, b),
        at_most(b, c),
    ensures
        less(a, c),
{
    lemma_trichotomy(a, c);
    lemma_trichotomy(a, b);
    if at_most(c, a) {
        lemma_le_trans(b, c, a);
    }
}

/// `<=` is reflexive.
pub proof fn lemma_le_refl<T: PartialOrd>(a: T)
    requires
        total_order::<T>(),
    ensures
        at_most(a, a),
{
    lemma_trichotomy(a, a);
}

/// The lexicographic order of two character sequences: the first differing character
/// decides, and a proper prefix comes first.
pub open spec fn lex_order(a: Seq<char>, b: Seq<char>) -> Ordering
    decreases a.len(),
{
    if a.len() == 0 && b.len() == 0 {
        Ordering::Equal
    } else if a.len() == 0 {
        Ordering::Less
    } else if b.len() == 0 {
        Ordering::Greater
    } else if crate::text::char_below(a[0], b[0]) {
        Ordering::Less
    } else if crate::text::char_below(b[0], a[0]) {
        Ordering::Greater
    } else {
        lex_order(a.drop_first(), b.drop_first())
    }
}

/// Compares two strings (`String`'s `partial_cmp`), which orders them lexicographically
/// by their UTF-8 bytes; that is the lexicographic order of their characters.
#[verifier::external_body]
pub fn compare_strings(a: &String, b: &String) -> (r: Option<Ordering>)
    ensures
        r == Some(lex_order(a@, b@)),
{
    a.partial_cmp(b)
}

/// Whether `lex_order` puts `a` strictly before `b`.
pub open spec fn lex_is_less(a: Seq<char>, b: Seq<char>) -> bool {
    lex_order(a, b) == Ordering::Less
}

/// One step of the lexicographic comparison, stated without `Ordering`.
pub proof fn lemma_lex_step(a: Seq<char>, b: Seq<char>)
    ensures
        a.len() == 0 ==> (lex_is_less(a, b) <==> b.len() > 0),
        a.len() > 0 && b.len() == 0 ==> !lex_is_less(a, b),
        a.len() > 0 && b.len() > 0 && crate::text::char_below(a[0], b[0]) ==> lex_is_less(a, b),
        a.len() > 0 && b.len() > 0 && crate::text::char_below(b[0], a[0]) ==> !lex_is_less(a, b),
        a.len() > 0 && b.len() > 0 && a[0] == b[0] ==> (lex_is_less(a, b) <==> lex_is_less(
            a.drop_first(),
            b.drop_first(),
        )),
{
}

} // verus!
