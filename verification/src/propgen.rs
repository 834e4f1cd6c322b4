//! A generator of property-based tests: it reads a function signature from source
//! text, infers algebraic properties from the signature and the name, and writes
//! proptest code, value generators and shrinking strategies for them.
use vstd::prelude::*;
use crate::text::{occurs_at, contains_seq, chars_occur_at, chars_contain, is_prefix_of, chars_start_with,
    string_from_chars, chars_of, append_chars, append_str, owned, decimal, decimal_chars};
use crate::tokens::{comma_pieces, trimmed, trim_bounds};
use crate::text::{lowercase, to_lower};
use crate::expression::{signed_decimal, append_signed};

pub mod common_generators;

verus! {

// ---------------------------------------------------------------------------
// Text helpers
// ---------------------------------------------------------------------------

/// The first index at or after `i` where `n` occurs in `h`, or -1.
pub open spec fn find_from(h: Seq<char>, n: Seq<char>, i: int) -> int
    decreases h.len() + 1 - i,
{
    if i < 0 || i + n.len() > h.len() {
        -1
    } else if occurs_at(h, n, i) {
        i
    } else {
        find_from(h, n, i + 1)
    }
}

/// The first index where `n` occurs in `h`, or -1 (`str::find`).
pub open spec fn index_of(h: Seq<char>, n: Seq<char>) -> int {
    find_from(h, n, 0)
}

proof fn lemma_find_from(h: Seq<char>, n: Seq<char>, i: int)
    requires
        0 <= i,
    ensures
        find_from(h, n, i) == -1 || (i <= find_from(h, n, i) && occurs_at(h, n, find_from(h, n, i))),
        find_from(h, n, i) == -1 ==> forall|k: int| i <= k ==> !occurs_at(h, n, k),
        find_from(h, n, i) >= 0 ==> forall|k: int| i <= k < find_from(h, n, i) ==> !occurs_at(h, n, k),
    decreases h.len() + 1 - i,
{
    if i + n.len() <= h.len() && !occurs_at(h, n, i) {
        lemma_find_from(h, n, i + 1);
    }
}

/// Where `needle` first occurs in `hay`.
pub fn find_chars(hay: &[char], needle: &[char]) -> (r: Option<usize>)
    ensures
        match r {
            Some(i) => i as int == index_of(hay@, needle@),
            None => index_of(hay@, needle@) == -1,
        },
        r matches Some(i) ==> i + needle@.len() <= hay@.len(),
{
    proof {
        lemma_find_from(hay@, needle@, 0);
    }
    if needle.len() > hay.len() {
        return None;
    }
    if needle.len() == 0 {
        assert(hay@.subrange(0, 0) =~= needle@);
        assert(occurs_at(hay@, needle@, 0));
        return Some(0);
    }
    let mut i: usize = 0;
    while i <= hay.len() - needle.len()
        invariant
            1 <= needle@.len() <= hay@.len(),
            i <= hay@.len() - needle@.len() + 1,
            forall|k: int| 0 <= k < i ==> !occurs_at(hay@, needle@, k),
            find_from(hay@, needle@, 0) == find_from(hay@, needle@, i as int),
        decreases hay@.len() - i,
    {
        if chars_occur_at(hay, needle, i) {
            return Some(i);
        }
        i = i + 1;
    }
    None
}

/// Where `c` first occurs in `hay`.
pub fn find_char(hay: &[char], c: char) -> (r: Option<usize>)
    ensures
        match r {
            Some(i) => i as int == index_of(hay@, seq![c]),
            None => index_of(hay@, seq![c]) == -1,
        },
        r matches Some(i) ==> i < hay@.len() && hay@[i as int] == c,
{
    let mut needle: Vec<char> = Vec::new();
    needle.push(c);
    assert(needle@ =~= seq![c]);
    let r = find_chars(hay, needle.as_slice());
    proof {
        if let Some(i) = r {
            lemma_find_from(hay@, seq![c], 0);
            assert(hay@.subrange(i as int, i + 1)[0] == hay@[i as int]);
        }
    }
    r
}

/// The characters of `s` from `lo` to `hi`.
pub fn sub_chars(s: &[char], lo: usize, hi: usize) -> (r: Vec<char>)
    requires
        lo <= hi <= s@.len(),
    ensures
        r@ == s@.subrange(lo as int, hi as int),
{
    let mut v: Vec<char> = Vec::new();
    let mut i = lo;
    while i < hi
        invariant
            lo <= i <= hi <= s@.len(),
            v@ == s@.subrange(lo as int, i as int),
        decreases hi - i,
    {
        v.push(s[i]);
        i = i + 1;
        assert(v@ =~= s@.subrange(lo as int, i as int));
    }
    v
}

/// `s` without leading and trailing white space.
pub fn trim_chars(s: &[char]) -> (r: Vec<char>)
    ensures
        r@ == trimmed(s@),
{
    let (a, b) = trim_bounds(s, 0, s.len());
    assert(s@.subrange(0, s@.len() as int) =~= s@);
    sub_chars(s, a, b)
}

pub proof fn lemma_leading(x: Seq<char>)
    ensures
        crate::tokens::leading_ws(x) <= x.len(),
        crate::tokens::leading_ws(x) < x.len() ==> !crate::interning::is_ws(x[crate::tokens::leading_ws(x) as int]),
    decreases x.len(),
{
    if x.len() > 0 && crate::interning::is_ws(x[0]) {
        lemma_leading(x.drop_first());
    }
}

pub proof fn lemma_trailing(x: Seq<char>)
    ensures
        crate::tokens::trailing_ws(x) <= x.len(),
        forall|k: int| x.len() - crate::tokens::trailing_ws(x) <= k < x.len() ==> crate::interning::is_ws(#[trigger] x[k]),
    decreases x.len(),
{
    if x.len() > 0 && crate::interning::is_ws(x.last()) {
        lemma_trailing(x.drop_last());
        assert forall|k: int| x.len() - crate::tokens::trailing_ws(x) <= k < x.len() implies crate::interning::is_ws(#[trigger] x[k]) by {
            if k < x.len() - 1 {
                assert(x[k] == x.drop_last()[k]);
            }
        }
    }
}

/// Trimming keeps a contiguous piece of `x`.
pub proof fn lemma_trimmed_len(x: Seq<char>)
    ensures
        trimmed(x).len() <= x.len(),
{
    lemma_leading(x);
    lemma_trailing(x);
}

/// The pieces of `s` between commas (`str::split(',')`).
pub fn split_commas(s: &[char]) -> (r: Vec<Vec<char>>)
    ensures
        r@.len() == comma_pieces(s@).len(),
        forall|k: int| 0 <= k < r@.len() ==> (#[trigger] r@[k])@ == comma_pieces(s@)[k],
        forall|k: int| 0 <= k < r@.len() ==> (#[trigger] r@[k])@.len() <= s@.len(),
{
    let n = s.len();
    let mut r: Vec<Vec<char>> = Vec::new();
    let mut start: usize = 0;
    let mut i: usize = 0;
    assert(s@.subrange(0, 0) =~= Seq::<char>::empty());
    while i < n
        invariant
            n == s@.len(),
            start <= i <= n,
            comma_pieces(s@.subrange(0, i as int)).len() == r@.len() + 1,
            forall|k: int| 0 <= k < r@.len() ==> (#[trigger] r@[k])@ == comma_pieces(s@.subrange(0, i as int))[k],
            forall|k: int| 0 <= k < r@.len() ==> (#[trigger] r@[k])@.len() <= n,
            comma_pieces(s@.subrange(0, i as int)).last() == s@.subrange(start as int, i as int),
        decreases n - i,
    {
        assert(s@.subrange(0, i + 1).drop_last() =~= s@.subrange(0, i as int));
        assert(s@.subrange(0, i + 1).last() == s@[i as int]);
        if s[i] == ',' {
            r.push(sub_chars(s, start, i));
            start = i + 1;
            assert(s@.subrange(start as int, i + 1) =~= Seq::<char>::empty());
        } else {
            assert(s@.subrange(start as int, i + 1) =~= s@.subrange(start as int, i as int).push(s@[i as int]));
        }
        i = i + 1;
    }
    assert(s@.subrange(0, n as int) =~= s@);
    r.push(sub_chars(s, start, n));
    r
}

/// Whether `s` starts with the characters of `p`.
pub fn starts_with_str(s: &[char], p: &str) -> (r: bool)
    ensures
        r == is_prefix_of(p@, s@),
{
    let pv = chars_of(p);
    chars_start_with(s, pv.as_slice())
}

/// Whether `s` contains the characters of `p`.
pub fn contains_str(s: &[char], p: &str) -> (r: bool)
    ensures
        r == contains_seq(s@, p@),
{
    let pv = chars_of(p);
    chars_contain(s, pv.as_slice())
}

// ---------------------------------------------------------------------------
// Types
// ---------------------------------------------------------------------------

/// A Rust type as read from a signature.
#[derive(Debug, PartialEq)]
pub enum Type {
    Primitive(String),
    Generic(String),
    Vec(Box<Type>),
    Option(Box<Type>),
    Result(Box<Type>, Box<Type>),
    Tuple(Vec<Type>),
    Custom(String),
}

/// The type names read as primitives.
pub open spec fn primitive_names() -> Seq<Seq<char>> {
    seq!["i8"@, "i16"@, "i32"@, "i64"@, "i128"@, "isize"@, "u8"@, "u16"@, "u32"@, "u64"@,
        "u128"@, "usize"@, "f32"@, "f64"@, "bool"@, "char"@, "String"@, "&str"@]
}

/// Whether `u` is an upper-case ASCII letter on its own.
pub open spec fn single_upper(u: Seq<char>) -> bool {
    u.len() == 1 && 'A' <= u[0] && u[0] <= 'Z'
}

/// `t` is the type that `parse_type` reads from `s`: after trimming, a parenthesized
/// comma list is a tuple; `Vec<..>`, `Option<..>` wrap their inner type;
/// `Result<a, b>` with exactly two comma pieces is a result; primitive names (and
/// anything starting with `&str`) are primitives; a single upper-case letter is a
/// generic; anything else is a custom type.
pub open spec fn parsed_as(t: Type, s: Seq<char>) -> bool
    decreases s.len(),
{
    let u = trimmed(s);
    let n = u.len() as int;
    proof {
        lemma_trimmed_len(s);
        reveal_strlit("Vec<");
        reveal_strlit("Option<");
        reveal_strlit("Result<");
    }
    if n >= 2 && u[0] == '(' && u[n - 1] == ')' {
        let ps = comma_pieces(u.subrange(1, n - 1));
        proof {
            lemma_comma_pieces_len(u.subrange(1, n - 1));
        }
        &&& t matches Type::Tuple(v)
        &&& v@.len() == ps.len()
        &&& forall|i: int| 0 <= i < ps.len() ==> parsed_as(#[trigger] v@[i], ps[i])
    } else if is_prefix_of("Vec<"@, u) && n >= 5 && u[n - 1] == '>' {
        t matches Type::Vec(b) && parsed_as(*b, u.subrange(4, n - 1))
    } else if is_prefix_of("Option<"@, u) && n >= 8 && u[n - 1] == '>' {
        t matches Type::Option(b) && parsed_as(*b, u.subrange(7, n - 1))
    } else if is_prefix_of("Result<"@, u) && n >= 8 && u[n - 1] == '>'
        && comma_pieces(u.subrange(7, n - 1)).len() == 2 {
        let ps = comma_pieces(u.subrange(7, n - 1));
        proof {
            lemma_comma_pieces_len(u.subrange(7, n - 1));
        }
        &&& t matches Type::Result(a, b)
        &&& parsed_as(*a, ps[0])
        &&& parsed_as(*b, ps[1])
    } else if primitive_names().contains(u) || is_prefix_of("&str"@, u) {
        t matches Type::Primitive(x) && x@ == u
    } else if single_upper(u) {
        t matches Type::Generic(x) && x@ == u
    } else {
        t matches Type::Custom(x) && x@ == u
    }
}

/// Every comma piece of `x` is at most as long as `x`.
pub proof fn lemma_comma_pieces_len(x: Seq<char>)
    ensures
        forall|i: int| 0 <= i < comma_pieces(x).len() ==> (#[trigger] comma_pieces(x)[i]).len() <= x.len(),
    decreases x.len(),
{
    if x.len() > 0 {
        lemma_comma_pieces_len(x.drop_last());
        crate::tokens::lemma_comma_pieces_nonempty(x.drop_last());
    }
}

fn is_primitive_name(u: &[char]) -> (r: bool)
    ensures
        r == primitive_names().contains(u@),
{
    let names: [&str; 18] = ["i8", "i16", "i32", "i64", "i128", "isize", "u8", "u16", "u32", "u64",
        "u128", "usize", "f32", "f64", "bool", "char", "String", "&str"];
    assert(names@.map_values(|x: &str| x@) =~= primitive_names());
    let mut i: usize = 0;
    while i < 18
        invariant
            i <= 18,
            forall|k: int| 0 <= k < i ==> primitive_names()[k] != u@,
            names@.map_values(|x: &str| x@) == primitive_names(),
        decreases 18 - i,
    {
        let nv = chars_of(names[i]);
        if crate::text::chars_eq(nv.as_slice(), u) {
            assert(primitive_names()[i as int] == u@);
            return true;
        }
        i = i + 1;
    }
    false
}

/// Reads a type from `s` (see `parsed_as`).
pub fn parse_type_chars(s: &[char]) -> (r: Type)
    ensures
        parsed_as(r, s@),
    decreases s@.len(),
{
    let u = trim_chars(s);
    proof {
        lemma_trimmed_len(s@);
        reveal_strlit("Vec<");
        reveal_strlit("Option<");
        reveal_strlit("Result<");
    }
    let n = u.len();
    if n >= 2 && u[0] == '(' && u[n - 1] == ')' {
        let inner = sub_chars(u.as_slice(), 1, n - 1);
        let pieces = split_commas(inner.as_slice());
        let ghost ps = comma_pieces(inner@);
        let mut types: Vec<Type> = Vec::new();
        let mut i: usize = 0;
        while i < pieces.len()
            invariant
                i <= pieces@.len(),
                pieces@.len() == ps.len(),
                forall|k: int| 0 <= k < pieces@.len() ==> (#[trigger] pieces@[k])@ == ps[k],
                forall|k: int| 0 <= k < pieces@.len() ==> (#[trigger] pieces@[k])@.len() <= inner@.len(),
                inner@.len() < s@.len(),
                types@.len() == i,
                forall|k: int| 0 <= k < i ==> parsed_as(#[trigger] types@[k], ps[k]),
            decreases pieces@.len() - i,
        {
            let t = parse_type_chars(pieces[i].as_slice());
            types.push(t);
            i = i + 1;
        }
        return Type::Tuple(types);
    }
    if starts_with_str(u.as_slice(), "Vec<") && n >= 5 && u[n - 1] == '>' {
        let inner = sub_chars(u.as_slice(), 4, n - 1);
        return Type::Vec(Box::new(parse_type_chars(inner.as_slice())));
    }
    if starts_with_str(u.as_slice(), "Option<") && n >= 8 && u[n - 1] == '>' {
        let inner = sub_chars(u.as_slice(), 7, n - 1);
        return Type::Option(Box::new(parse_type_chars(inner.as_slice())));
    }
    if starts_with_str(u.as_slice(), "Result<") && n >= 8 && u[n - 1] == '>' {
        let inner = sub_chars(u.as_slice(), 7, n - 1);
        let pieces = split_commas(inner.as_slice());
        if pieces.len() == 2 {
            let a = parse_type_chars(pieces[0].as_slice());
            let b = parse_type_chars(pieces[1].as_slice());
            return Type::Result(Box::new(a), Box::new(b));
        }
    }
    if is_primitive_name(u.as_slice()) || starts_with_str(u.as_slice(), "&str") {
        return Type::Primitive(string_from_chars(u.as_slice()));
    }
    if n == 1 && 'A' <= u[0] && u[0] <= 'Z' {
        return Type::Generic(string_from_chars(u.as_slice()));
    }
    Type::Custom(string_from_chars(u.as_slice()))
}

/// Whether two types are the same (as the derived `==` compares them).
pub open spec fn same_type(a: Type, b: Type) -> bool
    decreases a,
{
    match a {
        Type::Primitive(x) => b matches Type::Primitive(y) && x@ == y@,
        Type::Generic(x) => b matches Type::Generic(y) && x@ == y@,
        Type::Custom(x) => b matches Type::Custom(y) && x@ == y@,
        Type::Vec(x) => b matches Type::Vec(y) && same_type(*x, *y),
        Type::Option(x) => b matches Type::Option(y) && same_type(*x, *y),
        Type::Result(x1, x2) => b matches Type::Result(y1, y2) && same_type(*x1, *y1) && same_type(*x2, *y2),
        Type::Tuple(xs) => b matches Type::Tuple(ys) && xs@.len() == ys@.len()
            && forall|i: int| 0 <= i < xs@.len() ==> same_type(#[trigger] xs@[i], ys@[i]),
    }
}

/// Whether two types are the same.
pub fn types_equal(a: &Type, b: &Type) -> (r: bool)
    ensures
        r == same_type(*a, *b),
    decreases a,
{
    match (a, b) {
        (Type::Primitive(x), Type::Primitive(y)) => crate::text::str_eq(x.as_str(), y.as_str()),
        (Type::Generic(x), Type::Generic(y)) => crate::text::str_eq(x.as_str(), y.as_str()),
        (Type::Custom(x), Type::Custom(y)) => crate::text::str_eq(x.as_str(), y.as_str()),
        (Type::Vec(x), Type::Vec(y)) => types_equal(x, y),
        (Type::Option(x), Type::Option(y)) => types_equal(x, y),
        (Type::Result(x1, x2), Type::Result(y1, y2)) => types_equal(x1, y1) && types_equal(x2, y2),
        (Type::Tuple(xs), Type::Tuple(ys)) => {
            if xs.len() != ys.len() {
                return false;
            }
            let mut i: usize = 0;
            while i < xs.len()
                invariant
                    *a == Type::Tuple(*xs),
                    *b == Type::Tuple(*ys),
                    xs@.len() == ys@.len(),
                    i <= xs@.len(),
                    forall|k: int| 0 <= k < i ==> same_type(#[trigger] xs@[k], ys@[k]),
                decreases xs@.len() - i,
            {
                proof {
                    assert(decreases_to!(*a => (*a)->Tuple_0));
                    assert(decreases_to!((*a)->Tuple_0 => xs@));
                    assert(decreases_to!(xs@ => xs@[i as int]));
                }
                if !types_equal(&xs[i], &ys[i]) {
                    return false;
                }
                i = i + 1;
            }
            true
        },
        _ => false,
    }
}

/// `s` with every occurrence of `pat` removed, scanning left to right
/// (`str::replace(pat, "")`).
pub open spec fn remove_all(s: Seq<char>, pat: Seq<char>) -> Seq<char>
    decreases s.len(),
{
    if pat.len() == 0 || s.len() < pat.len() {
        s
    } else if s.subrange(0, pat.len() as int) == pat {
        remove_all(s.skip(pat.len() as int), pat)
    } else {
        seq![s[0]] + remove_all(s.drop_first(), pat)
    }
}

/// Removes every occurrence of `pat` from `s`.
pub fn remove_all_chars(s: &[char], pat: &str) -> (r: Vec<char>)
    ensures
        r@ == remove_all(s@, pat@),
{
    let pv = chars_of(pat);
    let m = pv.len();
    let n = s.len();
    let mut out: Vec<char> = Vec::new();
    if m == 0 {
        return sub_chars(s, 0, n);
    }
    let mut i: usize = 0;
    assert(s@.skip(0) =~= s@);
    while i < n
        invariant
            n == s@.len(),
            m == pv@.len(),
            pv@ == pat@,
            m > 0,
            i <= n,
            out@ + remove_all(s@.skip(i as int), pv@) == remove_all(s@, pv@),
        decreases n - i,
    {
        let ghost rest = s@.skip(i as int);
        if m <= n - i && chars_occur_at(s, pv.as_slice(), i) {
            assert(rest.subrange(0, m as int) =~= s@.subrange(i as int, i + m));
            assert(rest.skip(m as int) =~= s@.skip(i + m));
            i = i + m;
        } else {
            proof {
                if rest.len() >= m {
                    assert(rest.subrange(0, m as int) =~= s@.subrange(i as int, i + m));
                }
                assert(rest.drop_first() =~= s@.skip(i + 1));
            }
            out.push(s[i]);
            assert(out@ + remove_all(s@.skip(i + 1), pv@) =~= out@.drop_last() + remove_all(rest, pv@)) by {
                if rest.len() < m {
                    assert(remove_all(rest, pv@) == rest);
                    assert(s@.skip(i + 1).len() < m);
                    assert(remove_all(s@.skip(i + 1), pv@) == s@.skip(i + 1));
                }
            }
            i = i + 1;
        }
    }
    assert(s@.skip(n as int) =~= Seq::<char>::empty());
    out
}

/// The first index at or after `i` holding `a` or `b`, or -1.
pub open spec fn first_of_from(s: Seq<char>, a: char, b: char, i: int) -> int
    decreases s.len() - i,
{
    if i < 0 || i >= s.len() {
        -1
    } else if s[i] == a || s[i] == b {
        i
    } else {
        first_of_from(s, a, b, i + 1)
    }
}

fn find_either(s: &[char], a: char, b: char) -> (r: Option<usize>)
    ensures
        match r {
            Some(i) => i as int == first_of_from(s@, a, b, 0) && i < s@.len(),
            None => first_of_from(s@, a, b, 0) == -1,
        },
{
    let mut i: usize = 0;
    while i < s.len()
        invariant
            i <= s@.len(),
            first_of_from(s@, a, b, 0) == first_of_from(s@, a, b, i as int),
        decreases s@.len() - i,
    {
        if s[i] == a || s[i] == b {
            return Some(i);
        }
        i = i + 1;
    }
    None
}

/// The function's name as `parse_function` reads it from the trimmed source: the
/// text between `fn ` and the first `<` or `(`, trimmed.
pub open spec fn fn_name_of(src: Seq<char>) -> Result<Seq<char>, Seq<char>> {
    let f = index_of(src, "fn "@);
    if f < 0 {
        Err("Not a function"@)
    } else {
        let after = src.skip(f + 3);
        let e = first_of_from(after, '<', '(', 0);
        if e < 0 {
            Err("Could not find function name end"@)
        } else {
            Ok(trimmed(after.take(e)))
        }
    }
}

/// A generic parameter's name: the trimmed piece up to a `:`.
pub open spec fn generic_name(g: Seq<char>) -> Seq<char> {
    let t = trimmed(g);
    let c = index_of(t, ":"@);
    if c >= 0 { trimmed(t.take(c)) } else { t }
}

/// Where the generics list lies in the source: the part after `fn ` and before the
/// first `(`, with the indices of its first `<` and first `>`.
pub open spec fn generics_frame(src: Seq<char>) -> Option<(Seq<char>, int, int)> {
    let f = index_of(src, "fn "@);
    if f < 0 {
        None
    } else {
        let after = src.skip(f + 3);
        let p = index_of(after, "("@);
        if p < 0 {
            None
        } else {
            let before = after.take(p);
            let lt = index_of(before, "<"@);
            let gt = index_of(before, ">"@);
            if lt < 0 || gt < 0 { None } else { Some((before, lt, gt)) }
        }
    }
}

/// The generic parameters' names, in order.
pub open spec fn generics_of(src: Seq<char>) -> Seq<Seq<char>> {
    match generics_frame(src) {
        None => Seq::empty(),
        Some((before, lt, gt)) => comma_pieces(before.subrange(lt + 1, gt)).map_values(
            |g: Seq<char>| generic_name(g),
        ),
    }
}

/// The index of the `)` that closes the parenthesis at or after `i`, with `d` levels
/// already open; -1 if none does.
pub open spec fn close_from(s: Seq<char>, i: int, d: int) -> int
    decreases s.len() - i,
{
    if i < 0 || i >= s.len() {
        -1
    } else {
        let d2 = if s[i] == '(' { d + 1 } else if s[i] == ')' { d - 1 } else { d };
        if s[i] == ')' && d2 == 0 { i } else { close_from(s, i + 1, d2) }
    }
}

/// The state of splitting `s` at `delim` outside brackets: the pieces done (trimmed),
/// the piece being read, and the bracket depth.
pub open spec fn split_state(s: Seq<char>, delim: char) -> (Seq<Seq<char>>, Seq<char>, int)
    decreases s.len(),
{
    if s.len() == 0 {
        (Seq::empty(), Seq::empty(), 0)
    } else {
        let (done, cur, d) = split_state(s.drop_last(), delim);
        let ch = s.last();
        if ch == '(' || ch == '<' {
            (done, cur.push(ch), d + 1)
        } else if ch == ')' || ch == '>' {
            (done, cur.push(ch), d - 1)
        } else if ch == delim && d == 0 {
            (done.push(trimmed(cur)), Seq::empty(), d)
        } else {
            (done, cur.push(ch), d)
        }
    }
}

/// The pieces of `s` between the `delim`s that are outside `()` and `<>`, trimmed; a
/// last empty piece is dropped.
pub open spec fn smart_split(s: Seq<char>, delim: char) -> Seq<Seq<char>> {
    let (done, cur, _) = split_state(s, delim);
    if cur.len() > 0 { done.push(trimmed(cur)) } else { done }
}

/// The pieces that hold a `:`, in order.
pub open spec fn with_colon(ps: Seq<Seq<char>>) -> Seq<Seq<char>>
    decreases ps.len(),
{
    if ps.len() == 0 {
        Seq::empty()
    } else if index_of(ps.last(), ":"@) >= 0 {
        with_colon(ps.drop_last()).push(ps.last())
    } else {
        with_colon(ps.drop_last())
    }
}

/// The text of the parameters that hold a `:`, in order.
pub open spec fn param_pieces(src: Seq<char>) -> Seq<Seq<char>> {
    let p = index_of(src, "("@);
    if p < 0 {
        Seq::empty()
    } else {
        let inner = src.subrange(p + 1, close_from(src, p, 0));
        if trimmed(inner).len() == 0 {
            Seq::empty()
        } else {
            with_colon(smart_split(inner, ','))
        }
    }
}

/// `p` is the parameter read from `t`: the name before the first `:` (with `&mut`,
/// `&` and `mut` removed, trimmed), mutable when the name holds `mut` or the type
/// holds `&mut`, and the type after the `:`.
pub open spec fn param_read(p: Parameter, u: Seq<char>) -> bool {
    let c = index_of(u, ":"@);
    let name = trimmed(u.take(c));
    let ty = trimmed(u.skip(c + 1));
    &&& p.is_mutable == (contains_seq(name, "mut"@) || contains_seq(ty, "&mut"@))
    &&& p.name@ == trimmed(remove_all(remove_all(remove_all(name, "&mut"@), "&"@), "mut"@))
    &&& parsed_as(p.param_type, ty)
}

/// The end of the text that a `<...>` group spans from `i`, with `d` levels open: just
/// past the `>` that closes it, or the end of `s`.
pub open spec fn angle_end(s: Seq<char>, i: int, d: int) -> int
    decreases s.len() - i,
{
    if i < 0 || i >= s.len() {
        s.len() as int
    } else {
        let d2 = if s[i] == '<' { d + 1 } else if s[i] == '>' { d - 1 } else { d };
        if s[i] == '>' && d2 == 0 { i + 1 } else { angle_end(s, i + 1, d2) }
    }
}

/// The index of the first white-space character of `s`, or its length.
pub open spec fn first_ws(s: Seq<char>, i: int) -> int
    decreases s.len() - i,
{
    if i < 0 || i >= s.len() {
        s.len() as int
    } else if crate::interning::is_ws(s[i]) {
        i
    } else {
        first_ws(s, i + 1)
    }
}

/// The text of the return type: after `->`, up to the end of a `<...>` group when the
/// rest holds a `<`, otherwise its first word.
pub open spec fn ret_text(src: Seq<char>) -> Option<Seq<char>> {
    let a = index_of(src, "->"@);
    if a < 0 {
        None
    } else {
        let after = trimmed(src.skip(a + 2));
        if contains_seq(after, "<"@) {
            Some(after.take(angle_end(after, 0, 0)))
        } else if after.len() == 0 {
            None
        } else {
            Some(after.take(first_ws(after, 0)))
        }
    }
}

/// A parameter of a function.
#[derive(Debug)]
pub struct Parameter {
    pub name: String,
    pub param_type: Type,
    pub is_mutable: bool,
}

/// A trait bound on a type parameter.
#[derive(Debug, Clone)]
pub struct TraitConstraint {
    pub type_param: String,
    pub trait_bound: String,
}

/// A function signature as read from source text.
#[derive(Debug)]
pub struct FunctionSignature {
    pub name: String,
    pub parameters: Vec<Parameter>,
    pub return_type: Option<Type>,
    pub generics: Vec<String>,
    pub constraints: Vec<TraitConstraint>,
}

/// The views of some strings.
pub open spec fn views(v: Seq<String>) -> Seq<Seq<char>> {
    v.map_values(|x: String| x@)
}

proof fn lemma_index_bound(h: Seq<char>, n: Seq<char>)
    ensures
        index_of(h, n) >= 0 ==> index_of(h, n) + n.len() <= h.len(),
        index_of(h, n) >= -1,
{
    lemma_find_from(h, n, 0);
}

proof fn lemma_first_of(s: Seq<char>, a: char, b: char, i: int)
    requires
        0 <= i,
    ensures
        first_of_from(s, a, b, i) == -1 || i <= first_of_from(s, a, b, i) < s.len(),
    decreases s.len() - i,
{
    if i < s.len() && !(s[i] == a || s[i] == b) {
        lemma_first_of(s, a, b, i + 1);
    }
}

fn extract_function_name(src: &[char]) -> (r: Result<String, String>)
    ensures
        match fn_name_of(src@) {
            Ok(n) => r matches Ok(x) && x@ == n,
            Err(m) => r matches Err(x) && x@ == m,
        },
{
    let key = chars_of("fn ");
    proof {
        reveal_strlit("fn ");
        assert(key@.len() == 3);
        lemma_index_bound(src@, key@);
    }
    match find_chars(src, key.as_slice()) {
        None => Err(owned("Not a function")),
        Some(f) => {
            let n = src.len();
            assert(f + 3 <= n);
            let after = sub_chars(src, f + 3, n);
            assert(after@ =~= src@.skip(f + 3));
            match find_either(after.as_slice(), '<', '(') {
                None => Err(owned("Could not find function name end")),
                Some(e) => {
                    let head = sub_chars(after.as_slice(), 0, e);
                    assert(head@ =~= after@.take(e as int));
                    let name = trim_chars(head.as_slice());
                    Ok(string_from_chars(name.as_slice()))
                },
            }
        },
    }
}

fn generic_name_of(g: &[char]) -> (r: String)
    ensures
        r@ == generic_name(g@),
{
    let t = trim_chars(g);
    match find_char(t.as_slice(), ':') {
        Some(c) => {
            proof {
                reveal_strlit(":");
                assert(seq![':'] =~= ":"@);
            }
            let head = sub_chars(t.as_slice(), 0, c);
            assert(head@ =~= t@.take(c as int));
            let name = trim_chars(head.as_slice());
            string_from_chars(name.as_slice())
        },
        None => {
            proof {
                reveal_strlit(":");
                assert(seq![':'] =~= ":"@);
            }
            string_from_chars(t.as_slice())
        },
    }
}

/// The generics list is well placed: when the part before the first `(` holds both a
/// `<` and a `>`, the first `<` comes before the first `>`.
pub open spec fn generics_in_order(src: Seq<char>) -> bool {
    generics_frame(src) matches Some((_, lt, gt)) ==> lt < gt
}

fn extract_generics(src: &[char]) -> (r: Vec<String>)
    requires
        generics_in_order(src@),
    ensures
        views(r@) == generics_of(src@),
{
    let mut out: Vec<String> = Vec::new();
    let key = chars_of("fn ");
    proof {
        reveal_strlit("fn ");
        reveal_strlit("(");
        reveal_strlit("<");
        reveal_strlit(">");
        assert(seq!['('] =~= "("@);
        assert(seq!['<'] =~= "<"@);
        assert(seq!['>'] =~= ">"@);
        assert(key@.len() == 3);
        lemma_index_bound(src@, key@);
    }
    let f = match find_chars(src, key.as_slice()) {
        None => {
            assert(views(out@) =~= generics_of(src@));
            return out;
        },
        Some(f) => f,
    };
    let n = src.len();
    assert(f + 3 <= n);
    let after = sub_chars(src, f + 3, n);
    assert(after@ =~= src@.skip(f + 3));
    let p = match find_char(after.as_slice(), '(') {
        None => {
            assert(views(out@) =~= generics_of(src@));
            return out;
        },
        Some(p) => p,
    };
    let before = sub_chars(after.as_slice(), 0, p);
    assert(before@ =~= after@.take(p as int));
    let lt = find_char(before.as_slice(), '<');
    let gt = find_char(before.as_slice(), '>');
    match (lt, gt) {
        (Some(lt), Some(gt)) => {
            let inner = sub_chars(before.as_slice(), lt + 1, gt);
            let pieces = split_commas(inner.as_slice());
            let ghost ps = comma_pieces(inner@);
            let mut i: usize = 0;
            while i < pieces.len()
                invariant
                    i <= pieces@.len(),
                    pieces@.len() == ps.len(),
                    forall|k: int| 0 <= k < pieces@.len() ==> (#[trigger] pieces@[k])@ == ps[k],
                    out@.len() == i,
                    forall|k: int| 0 <= k < i ==> (#[trigger] out@[k])@ == generic_name(ps[k]),
                decreases pieces@.len() - i,
            {
                out.push(generic_name_of(pieces[i].as_slice()));
                i = i + 1;
            }
            assert(views(out@) =~= generics_of(src@));
            out
        },
        _ => {
            assert(views(out@) =~= generics_of(src@));
            out
        },
    }
}

fn smart_split_chars(s: &[char], delim: char) -> (r: Vec<Vec<char>>)
    ensures
        r@.len() == smart_split(s@, delim).len(),
        forall|k: int| 0 <= k < r@.len() ==> (#[trigger] r@[k])@ == smart_split(s@, delim)[k],
{
    let n = s.len();
    let mut done: Vec<Vec<char>> = Vec::new();
    let mut cur: Vec<char> = Vec::new();
    let mut opens: usize = 0;
    let mut closes: usize = 0;
    let mut i: usize = 0;
    assert(s@.take(0) =~= Seq::<char>::empty());
    while i < n
        invariant
            n == s@.len(),
            i <= n,
            opens <= i,
            closes <= i,
            split_state(s@.take(i as int), delim).0.len() == done@.len(),
            forall|k: int| 0 <= k < done@.len() ==> (#[trigger] done@[k])@ == split_state(s@.take(i as int), delim).0[k],
            split_state(s@.take(i as int), delim).1 == cur@,
            split_state(s@.take(i as int), delim).2 == opens - closes,
        decreases n - i,
    {
        let ch = s[i];
        assert(s@.take(i + 1).drop_last() =~= s@.take(i as int));
        assert(s@.take(i + 1).last() == ch);
        if ch == '(' || ch == '<' {
            cur.push(ch);
            opens = opens + 1;
        } else if ch == ')' || ch == '>' {
            cur.push(ch);
            closes = closes + 1;
        } else if ch == delim && opens == closes {
            let t = trim_chars(cur.as_slice());
            done.push(t);
            cur = Vec::new();
        } else {
            cur.push(ch);
        }
        i = i + 1;
    }
    assert(s@.take(n as int) =~= s@);
    if cur.len() > 0 {
        let t = trim_chars(cur.as_slice());
        done.push(t);
    }
    done
}

/// The source has a `)` that closes its first `(`, when it has one.
pub open spec fn parens_close(src: Seq<char>) -> bool {
    index_of(src, "("@) >= 0 ==> close_from(src, index_of(src, "("@), 0) >= 0
}

proof fn lemma_close_from(s: Seq<char>, i: int, d: int)
    requires
        0 <= i,
    ensures
        close_from(s, i, d) == -1 || i <= close_from(s, i, d) < s.len(),
    decreases s.len() - i,
{
    if i < s.len() {
        let d2 = if s[i] == '(' { d + 1 } else if s[i] == ')' { d - 1 } else { d };
        if !(s[i] == ')' && d2 == 0) {
            lemma_close_from(s, i + 1, d2);
        }
    }
}

fn matching_close(s: &[char], p: usize) -> (r: Option<usize>)
    requires
        p <= s@.len(),
    ensures
        match r {
            Some(q) => q as int == close_from(s@, p as int, 0) && q < s@.len(),
            None => close_from(s@, p as int, 0) == -1,
        },
{
    let mut opens: usize = 0;
    let mut closes: usize = 0;
    let mut i: usize = p;
    while i < s.len()
        invariant
            p <= i <= s@.len(),
            opens <= i,
            closes <= i,
            close_from(s@, p as int, 0) == close_from(s@, i as int, opens - closes),
        decreases s@.len() - i,
    {
        let ch = s[i];
        if ch == '(' {
            opens = opens + 1;
        } else if ch == ')' {
            closes = closes + 1;
            if opens == closes {
                return Some(i);
            }
        }
        i = i + 1;
    }
    None
}

fn read_parameter(u: &[char]) -> (r: Option<Parameter>)
    ensures
        index_of(u@, ":"@) >= 0 ==> (r matches Some(p) && param_read(p, u@)),
        index_of(u@, ":"@) < 0 ==> r is None,
{
    proof {
        reveal_strlit(":");
        assert(seq![':'] =~= ":"@);
    }
    match find_char(u, ':') {
        None => None,
        Some(c) => {
            let head = sub_chars(u, 0, c);
            assert(head@ =~= u@.take(c as int));
            let name = trim_chars(head.as_slice());
            let n = u.len();
            let tail = sub_chars(u, c + 1, n);
            assert(tail@ =~= u@.skip(c + 1));
            let ty = trim_chars(tail.as_slice());
            let is_mutable = contains_str(name.as_slice(), "mut") || contains_str(ty.as_slice(), "&mut");
            let a = remove_all_chars(name.as_slice(), "&mut");
            let b = remove_all_chars(a.as_slice(), "&");
            let c2 = remove_all_chars(b.as_slice(), "mut");
            let clean = trim_chars(c2.as_slice());
            Some(Parameter {
                name: string_from_chars(clean.as_slice()),
                param_type: parse_type_chars(ty.as_slice()),
                is_mutable,
            })
        },
    }
}

fn extract_parameters(src: &[char]) -> (r: Vec<Parameter>)
    requires
        parens_close(src@),
    ensures
        r@.len() == param_pieces(src@).len(),
        forall|k: int| 0 <= k < r@.len() ==> param_read(#[trigger] r@[k], param_pieces(src@)[k]),
{
    let mut params: Vec<Parameter> = Vec::new();
    proof {
        reveal_strlit("(");
        assert(seq!['('] =~= "("@);
    }
    let p = match find_char(src, '(') {
        None => {
            return params;
        },
        Some(p) => p,
    };
    let q = match matching_close(src, p) {
        None => {
            return params;
        },
        Some(q) => q,
    };
    proof {
        lemma_close_from(src@, p as int, 0);
        assert(src@[p as int] == '(');
    }
    assert(p < q) by {
        assert(close_from(src@, p as int, 0) == close_from(src@, p + 1, 1));
        lemma_close_from(src@, p + 1, 1);
    }
    let inner = sub_chars(src, p + 1, q);
    let t = trim_chars(inner.as_slice());
    if t.len() == 0 {
        return params;
    }
    let pieces = smart_split_chars(inner.as_slice(), ',');
    let ghost ps = smart_split(inner@, ',');
    let mut i: usize = 0;
    assert(ps.take(0) =~= Seq::<Seq<char>>::empty());
    while i < pieces.len()
        invariant
            i <= pieces@.len(),
            pieces@.len() == ps.len(),
            forall|k: int| 0 <= k < pieces@.len() ==> (#[trigger] pieces@[k])@ == ps[k],
            params@.len() == with_colon(ps.take(i as int)).len(),
            forall|k: int| 0 <= k < params@.len() ==> param_read(#[trigger] params@[k], with_colon(ps.take(i as int))[k]),
        decreases pieces@.len() - i,
    {
        assert(ps.take(i + 1).drop_last() =~= ps.take(i as int));
        assert(ps.take(i + 1).last() == ps[i as int]);
        match read_parameter(pieces[i].as_slice()) {
            Some(prm) => {
                params.push(prm);
            },
            None => {},
        }
        i = i + 1;
    }
    assert(ps.take(pieces@.len() as int) =~= ps);
    params
}

proof fn lemma_angle_end(s: Seq<char>, i: int, d: int)
    requires
        0 <= i,
    ensures
        angle_end(s, i, d) <= s.len(),
        i < s.len() ==> i < angle_end(s, i, d),
    decreases s.len() - i,
{
    if i < s.len() {
        let d2 = if s[i] == '<' { d + 1 } else if s[i] == '>' { d - 1 } else { d };
        if !(s[i] == '>' && d2 == 0) {
            lemma_angle_end(s, i + 1, d2);
        }
    }
}

proof fn lemma_first_ws(s: Seq<char>, i: int)
    requires
        0 <= i,
    ensures
        first_ws(s, i) <= s.len(),
        i <= s.len() ==> i <= first_ws(s, i),
    decreases s.len() - i,
{
    if i < s.len() && !crate::interning::is_ws(s[i]) {
        lemma_first_ws(s, i + 1);
    }
}

fn extract_return_type(src: &[char]) -> (r: Option<Type>)
    ensures
        match ret_text(src@) {
            None => r is None,
            Some(t) => r matches Some(ty) && parsed_as(ty, t),
        },
{
    let key = chars_of("->");
    proof {
        reveal_strlit("->");
        reveal_strlit("<");
        assert(key@.len() == 2);
        assert(seq!['<'] =~= "<"@);
        lemma_index_bound(src@, key@);
    }
    let a = match find_chars(src, key.as_slice()) {
        None => {
            return None;
        },
        Some(a) => a,
    };
    let n = src.len();
    let rest = sub_chars(src, a + 2, n);
    assert(rest@ =~= src@.skip(a + 2));
    let after = trim_chars(rest.as_slice());
    let m = after.len();
    let end: usize;
    if contains_str(after.as_slice(), "<") {
        let mut opens: usize = 0;
        let mut closes: usize = 0;
        let mut i: usize = 0;
        let mut found: usize = m;
        proof {
            lemma_angle_end(after@, 0, 0);
        }
        while i < m
            invariant_except_break
                found == m,
                angle_end(after@, 0, 0) == angle_end(after@, i as int, opens - closes),
            invariant
                m == after@.len(),
                i <= m,
                opens <= i,
                closes <= i,
            ensures
                found as int == angle_end(after@, 0, 0),
            decreases m - i,
        {
            let ch = after[i];
            if ch == '<' {
                opens = opens + 1;
            } else if ch == '>' {
                closes = closes + 1;
                if opens == closes {
                    found = i + 1;
                    break;
                }
            }
            i = i + 1;
        }
        end = found;
    } else {
        if m == 0 {
            return None;
        }
        let mut i: usize = 0;
        while i < m && !crate::interning::is_whitespace_char(after[i])
            invariant
                m == after@.len(),
                i <= m,
                first_ws(after@, 0) == first_ws(after@, i as int),
            decreases m - i,
        {
            i = i + 1;
        }
        end = i;
    }
    proof {
        lemma_angle_end(after@, 0, 0);
    }
    let text = sub_chars(after.as_slice(), 0, end);
    assert(text@ =~= after@.take(end as int));
    Some(parse_type_chars(text.as_slice()))
}

/// `sig` is the signature that `parse_function` reads from the trimmed source `src`,
/// given that its name could be read.
pub open spec fn signature_read(sig: FunctionSignature, src: Seq<char>) -> bool {
    &&& fn_name_of(src) matches Ok(n) && sig.name@ == n
    &&& views(sig.generics@) == generics_of(src)
    &&& sig.parameters@.len() == param_pieces(src).len()
    &&& forall|k: int| 0 <= k < sig.parameters@.len() ==> param_read(#[trigger] sig.parameters@[k], param_pieces(src)[k])
    &&& match ret_text(src) {
        None => sig.return_type is None,
        Some(t) => sig.return_type matches Some(ty) && parsed_as(ty, t),
    }
    &&& sig.constraints@.len() == 0
}

/// Parsing `src` does not fail on a malformed generics list or an unclosed `(`.
pub open spec fn parsable(src: Seq<char>) -> bool {
    fn_name_of(src) is Ok ==> generics_in_order(src) && parens_close(src)
}

impl FunctionSignature {
    /// Reads a signature such as `fn add(a: i32, b: i32) -> i32`; an error when the
    /// text has no `fn ` or no `<`/`(` after the name.
    pub fn parse_function(source: &str) -> (r: Result<Self, String>)
        requires
            parsable(trimmed(source@)),
        ensures
            match fn_name_of(trimmed(source@)) {
                Err(m) => r matches Err(x) && x@ == m,
                Ok(_) => r matches Ok(sig) && signature_read(sig, trimmed(source@)),
            },
    {
        let raw = chars_of(source);
        let src = trim_chars(raw.as_slice());
        let name = extract_function_name(src.as_slice())?;
        let generics = extract_generics(src.as_slice());
        let parameters = extract_parameters(src.as_slice());
        let return_type = extract_return_type(src.as_slice());
        let constraints: Vec<TraitConstraint> = Vec::new();
        Ok(FunctionSignature { name, parameters, return_type, generics, constraints })
    }

    /// Reads a type (see `parsed_as`).
    pub fn parse_type(type_str: &str) -> (r: Type)
        ensures
            parsed_as(r, type_str@),
    {
        let v = chars_of(type_str);
        parse_type_chars(v.as_slice())
    }

    /// An `Ord` bound on every type parameter when the name holds `max` or `min`.
    pub fn infer_constraints(&self) -> (r: Vec<TraitConstraint>)
        ensures
            (contains_seq(self.name@, "max"@) || contains_seq(self.name@, "min"@)) ==> r@.len() == self.generics@.len(),
            !(contains_seq(self.name@, "max"@) || contains_seq(self.name@, "min"@)) ==> r@.len() == 0,
            forall|i: int| 0 <= i < r@.len() ==> (#[trigger] r@[i]).type_param@ == self.generics@[i]@
                && r@[i].trait_bound@ == "Ord"@,
    {
        let name = chars_of(self.name.as_str());
        let wanted = contains_str(name.as_slice(), "max") || contains_str(name.as_slice(), "min");
        let mut out: Vec<TraitConstraint> = Vec::new();
        if !wanted {
            return out;
        }
        let mut i: usize = 0;
        while i < self.generics.len()
            invariant
                i <= self.generics@.len(),
                out@.len() == i,
                forall|k: int| 0 <= k < i ==> (#[trigger] out@[k]).type_param@ == self.generics@[k]@
                    && out@[k].trait_bound@ == "Ord"@,
            decreases self.generics@.len() - i,
        {
            out.push(TraitConstraint { type_param: owned(self.generics[i].as_str()), trait_bound: owned("Ord") });
            i = i + 1;
        }
        out
    }

    /// Whether the function has type parameters.
    pub fn is_generic(&self) -> (r: bool)
        ensures
            r == (self.generics@.len() > 0),
    {
        self.generics.len() > 0
    }

    /// Whether a parameter is mutable or nothing is returned.
    pub fn has_side_effects(&self) -> (r: bool)
        ensures
            r == ((exists|i: int| 0 <= i < self.parameters@.len() && (#[trigger] self.parameters@[i]).is_mutable)
                || self.return_type is None),
    {
        let mut i: usize = 0;
        while i < self.parameters.len()
            invariant
                i <= self.parameters@.len(),
                forall|k: int| 0 <= k < i ==> !(#[trigger] self.parameters@[k]).is_mutable,
            decreases self.parameters@.len() - i,
        {
            if self.parameters[i].is_mutable {
                return true;
            }
            i = i + 1;
        }
        self.return_type.is_none()
    }
}

/// A property that a function may have.
#[derive(Debug, Clone, PartialEq)]
pub enum PropertyType {
    Commutativity,
    Associativity,
    Identity(String),
    Idempotence,
    Involution,
    Monotonicity,
    RoundTrip,
    LengthPreservation,
    Invariant(String),
}

/// A property to test, with its test's name and description.
#[derive(Debug, Clone)]
pub struct Property {
    pub name: String,
    pub description: String,
    pub property_type: PropertyType,
    pub test_code: String,
}

/// The kind of a property, as a number, and the text it carries.
pub open spec fn kind_of(k: PropertyType) -> (nat, Seq<char>) {
    match k {
        PropertyType::Commutativity => (0, Seq::empty()),
        PropertyType::Associativity => (1, Seq::empty()),
        PropertyType::Identity(x) => (2, x@),
        PropertyType::Idempotence => (3, Seq::empty()),
        PropertyType::Involution => (4, Seq::empty()),
        PropertyType::Monotonicity => (5, Seq::empty()),
        PropertyType::RoundTrip => (6, Seq::empty()),
        PropertyType::LengthPreservation => (7, Seq::empty()),
        PropertyType::Invariant(x) => (8, x@),
    }
}

/// A property described by its test name, description, kind and carried text; the
/// test code is empty.
pub open spec fn prop_is(p: Property, e: (Seq<char>, Seq<char>, nat, Seq<char>)) -> bool {
    &&& p.name@ == e.0
    &&& p.description@ == e.1
    &&& kind_of(p.property_type) == (e.2, e.3)
    &&& p.test_code@.len() == 0
}

/// Whether `name` holds any of the words.
pub open spec fn holds_any(name: Seq<char>, words: Seq<Seq<char>>) -> bool {
    exists|i: int| 0 <= i < words.len() && contains_seq(name, #[trigger] words[i])
}

/// The two parameters have the same type and the result has it too.
pub open spec fn binary_closed(sig: FunctionSignature) -> bool {
    &&& sig.parameters@.len() == 2
    &&& same_type(sig.parameters@[0].param_type, sig.parameters@[1].param_type)
    &&& sig.return_type matches Some(rt) && same_type(rt, sig.parameters@[0].param_type)
}

/// The one parameter has the result's type.
pub open spec fn unary_closed(sig: FunctionSignature) -> bool {
    &&& sig.parameters@.len() == 1
    &&& sig.return_type matches Some(rt) && same_type(rt, sig.parameters@[0].param_type)
}

/// The identity element that the name suggests, for a function of two parameters.
pub open spec fn identity_for(name: Seq<char>) -> Option<Seq<char>> {
    if contains_seq(name, "add"@) || contains_seq(name, "sum"@) {
        Some("0"@)
    } else if contains_seq(name, "mul"@) || contains_seq(name, "product"@) {
        Some("1"@)
    } else if contains_seq(name, "concat"@) {
        Some("\"\""@)
    } else if contains_seq(name, "max"@) {
        Some("i32::MIN"@)
    } else if contains_seq(name, "min"@) {
        Some("i32::MAX"@)
    } else {
        None
    }
}

/// A collection type: a `Vec` or `String`.
pub open spec fn is_collection(t: Type) -> bool {
    match t {
        Type::Vec(_) => true,
        Type::Primitive(x) => x@ == "String"@,
        _ => false,
    }
}

/// An inferred property: test name, description, kind number, carried text.
pub type PropSpec = (Seq<char>, Seq<char>, nat, Seq<char>);

/// Commutativity, when both parameters and the result share a type.
pub open spec fn comm_props(sig: FunctionSignature) -> Seq<PropSpec> {
    if binary_closed(sig) {
        seq![("test_"@ + sig.name@ + "_commutative"@, sig.name@ + " is commutative"@, 0nat, Seq::empty())]
    } else {
        Seq::empty()
    }
}

/// Associativity, under the same condition.
pub open spec fn assoc_props(sig: FunctionSignature) -> Seq<PropSpec> {
    if binary_closed(sig) {
        seq![("test_"@ + sig.name@ + "_associative"@, sig.name@ + " is associative"@, 1nat, Seq::empty())]
    } else {
        Seq::empty()
    }
}

/// An identity element, for two parameters and a name that suggests one.
pub open spec fn ident_props(sig: FunctionSignature) -> Seq<PropSpec> {
    if sig.parameters@.len() == 2 && identity_for(sig.name@) is Some {
        let e = identity_for(sig.name@)->0;
        seq![("test_"@ + sig.name@ + "_identity"@, sig.name@ + " has identity element "@ + e, 2nat, e)]
    } else {
        Seq::empty()
    }
}

/// Involution, for one parameter of the result's type and a name such as `reverse`.
pub open spec fn invol_props(sig: FunctionSignature) -> Seq<PropSpec> {
    if unary_closed(sig) && holds_any(sig.name@, seq!["reverse"@, "not"@, "negate"@, "invert"@]) {
        seq![("test_"@ + sig.name@ + "_involution"@, "Applying "@ + sig.name@ + " twice returns original"@, 4nat, Seq::empty())]
    } else {
        Seq::empty()
    }
}

/// Idempotence, for one parameter of the result's type and a name such as `sort`.
pub open spec fn idem_props(sig: FunctionSignature) -> Seq<PropSpec> {
    if unary_closed(sig) && holds_any(sig.name@, seq!["normalize"@, "dedupe"@, "sort"@, "abs"@]) {
        seq![("test_"@ + sig.name@ + "_idempotent"@, "Applying "@ + sig.name@ + " twice gives same result as once"@, 3nat, Seq::empty())]
    } else {
        Seq::empty()
    }
}

/// Length preservation, for one collection parameter of the result's type.
pub open spec fn len_props(sig: FunctionSignature) -> Seq<PropSpec> {
    if unary_closed(sig) && is_collection(sig.parameters@[0].param_type) {
        seq![("test_"@ + sig.name@ + "_length_preservation"@, sig.name@ + " preserves length"@, 7nat, Seq::empty())]
    } else {
        Seq::empty()
    }
}

/// The properties `infer_properties` finds, in order.
pub open spec fn inferred(sig: FunctionSignature) -> Seq<PropSpec> {
    comm_props(sig) + assoc_props(sig) + ident_props(sig) + invol_props(sig) + idem_props(sig) + len_props(sig)
}

/// `r` is what a property check gives for the list `e` of at most one property.
pub open spec fn found_as(r: Option<Property>, e: Seq<PropSpec>) -> bool {
    &&& e.len() <= 1
    &&& e.len() == 0 ==> r is None
    &&& e.len() == 1 ==> (r matches Some(p) && prop_is(p, e[0]))
}

/// `a`, then `b`, as a string.
fn join2(a: &str, b: &str) -> (r: String)
    ensures
        r@ == a@ + b@,
{
    let mut v: Vec<char> = Vec::new();
    append_str(&mut v, a);
    append_str(&mut v, b);
    string_from_chars(v.as_slice())
}

/// `a`, then `b`, then `c`, as a string.
fn join3(a: &str, b: &str, c: &str) -> (r: String)
    ensures
        r@ == a@ + b@ + c@,
{
    let mut v: Vec<char> = Vec::new();
    append_str(&mut v, a);
    append_str(&mut v, b);
    append_str(&mut v, c);
    string_from_chars(v.as_slice())
}

fn make_property(name: String, description: String, property_type: PropertyType) -> (r: Property)
    ensures
        r.name@ == name@,
        r.description@ == description@,
        r.property_type == property_type,
        r.test_code@.len() == 0,
{
    Property { name, description, property_type, test_code: String::new() }
}

/// Infers properties of a function from its signature and name.
pub struct PropertyInference {
    signature: FunctionSignature,
    inferred_properties: Vec<Property>,
}

impl PropertyInference {
    /// The signature being examined.
    pub closed spec fn sig(&self) -> FunctionSignature {
        self.signature
    }

    /// An inference over `signature`.
    pub fn new(signature: FunctionSignature) -> (r: Self)
        ensures
            r.sig() == signature,
    {
        PropertyInference { signature, inferred_properties: Vec::new() }
    }

    fn binary_closed_exec(&self) -> (r: bool)
        ensures
            r == binary_closed(self.signature),
    {
        let ps = &self.signature.parameters;
        if ps.len() != 2 {
            return false;
        }
        if !types_equal(&ps[0].param_type, &ps[1].param_type) {
            return false;
        }
        match &self.signature.return_type {
            Some(rt) => types_equal(rt, &ps[0].param_type),
            None => false,
        }
    }

    fn unary_closed_exec(&self) -> (r: bool)
        ensures
            r == unary_closed(self.signature),
    {
        let ps = &self.signature.parameters;
        if ps.len() != 1 {
            return false;
        }
        match &self.signature.return_type {
            Some(rt) => types_equal(rt, &ps[0].param_type),
            None => false,
        }
    }

    fn name_holds_any(&self, words: &[&str]) -> (r: bool)
        ensures
            r == holds_any(self.signature.name@, words@.map_values(|w: &str| w@)),
    {
        let name = chars_of(self.signature.name.as_str());
        let ghost ws = words@.map_values(|w: &str| w@);
        let mut i: usize = 0;
        while i < words.len()
            invariant
                i <= words@.len(),
                ws == words@.map_values(|w: &str| w@),
                name@ == self.signature.name@,
                forall|k: int| 0 <= k < i ==> !contains_seq(name@, #[trigger] ws[k]),
            decreases words@.len() - i,
        {
            if contains_str(name.as_slice(), words[i]) {
                assert(contains_seq(name@, ws[i as int]));
                return true;
            }
            i = i + 1;
        }
        false
    }

    fn test_commutativity(&self) -> (r: Option<Property>)
        ensures
            found_as(r, comm_props(self.signature)),
    {
        if self.binary_closed_exec() {
            let n = self.signature.name.as_str();
            Some(make_property(join3("test_", n, "_commutative"), join2(n, " is commutative"), PropertyType::Commutativity))
        } else {
            None
        }
    }
}

impl PropertyInference {
    fn test_associativity(&self) -> (r: Option<Property>)
        ensures
            found_as(r, assoc_props(self.signature)),
    {
        if self.binary_closed_exec() {
            let n = self.signature.name.as_str();
            Some(make_property(join3("test_", n, "_associative"), join2(n, " is associative"), PropertyType::Associativity))
        } else {
            None
        }
    }

    fn find_identity_element(&self) -> (r: Option<Property>)
        ensures
            found_as(r, ident_props(self.signature)),
    {
        if self.signature.parameters.len() != 2 {
            return None;
        }
        let name = chars_of(self.signature.name.as_str());
        let identity: &str = if contains_str(name.as_slice(), "add") || contains_str(name.as_slice(), "sum") {
            "0"
        } else if contains_str(name.as_slice(), "mul") || contains_str(name.as_slice(), "product") {
            "1"
        } else if contains_str(name.as_slice(), "concat") {
            "\"\""
        } else if contains_str(name.as_slice(), "max") {
            "i32::MIN"
        } else if contains_str(name.as_slice(), "min") {
            "i32::MAX"
        } else {
            return None;
        };
        let n = self.signature.name.as_str();
        let mut d: Vec<char> = Vec::new();
        append_str(&mut d, n);
        append_str(&mut d, " has identity element ");
        append_str(&mut d, identity);
        Some(make_property(
            join3("test_", n, "_identity"),
            string_from_chars(d.as_slice()),
            PropertyType::Identity(owned(identity)),
        ))
    }

    fn detect_involution(&self) -> (r: Option<Property>)
        ensures
            found_as(r, invol_props(self.signature)),
    {
        let words: [&str; 4] = ["reverse", "not", "negate", "invert"];
        assert(words@.map_values(|w: &str| w@) =~= seq!["reverse"@, "not"@, "negate"@, "invert"@]);
        if self.unary_closed_exec() && self.name_holds_any(&words) {
            let n = self.signature.name.as_str();
            Some(make_property(
                join3("test_", n, "_involution"),
                join3("Applying ", n, " twice returns original"),
                PropertyType::Involution,
            ))
        } else {
            None
        }
    }

    fn test_idempotence(&self) -> (r: Option<Property>)
        ensures
            found_as(r, idem_props(self.signature)),
    {
        let words: [&str; 4] = ["normalize", "dedupe", "sort", "abs"];
        assert(words@.map_values(|w: &str| w@) =~= seq!["normalize"@, "dedupe"@, "sort"@, "abs"@]);
        if self.unary_closed_exec() && self.name_holds_any(&words) {
            let n = self.signature.name.as_str();
            Some(make_property(
                join3("test_", n, "_idempotent"),
                join3("Applying ", n, " twice gives same result as once"),
                PropertyType::Idempotence,
            ))
        } else {
            None
        }
    }

    fn test_length_preservation(&self) -> (r: Option<Property>)
        ensures
            found_as(r, len_props(self.signature)),
    {
        if !self.unary_closed_exec() {
            return None;
        }
        let is_collection = match &self.signature.parameters[0].param_type {
            Type::Vec(_) => true,
            Type::Primitive(x) => crate::text::str_eq(x.as_str(), "String"),
            _ => false,
        };
        if is_collection {
            let n = self.signature.name.as_str();
            Some(make_property(join3("test_", n, "_length_preservation"), join2(n, " preserves length"), PropertyType::LengthPreservation))
        } else {
            None
        }
    }

    /// The round-trip property, for a name such as `encode`.
    pub fn generate_round_trip_test(&self) -> (r: Option<Property>)
        ensures
            holds_any(self.sig().name@, seq!["encode"@, "serialize"@, "marshal"@]) ==> (r matches Some(p) && prop_is(
                p,
                ("test_"@ + self.sig().name@ + "_roundtrip"@, "Round-trip property"@, 6nat, Seq::empty()),
            )),
            !holds_any(self.sig().name@, seq!["encode"@, "serialize"@, "marshal"@]) ==> r is None,
    {
        let words: [&str; 3] = ["encode", "serialize", "marshal"];
        assert(words@.map_values(|w: &str| w@) =~= seq!["encode"@, "serialize"@, "marshal"@]);
        if self.name_holds_any(&words) {
            let n = self.signature.name.as_str();
            Some(make_property(join3("test_", n, "_roundtrip"), owned("Round-trip property"), PropertyType::RoundTrip))
        } else {
            None
        }
    }

    /// The properties that the signature suggests (see `inferred`).
    pub fn infer_properties(&mut self) -> (r: Vec<Property>)
        ensures
            final(self).sig() == old(self).sig(),
            r@.len() == inferred(old(self).sig()).len(),
            forall|i: int| 0 <= i < r@.len() ==> prop_is(#[trigger] r@[i], inferred(old(self).sig())[i]),
    {
        let mut properties: Vec<Property> = Vec::new();
        let ghost sig = self.signature;
        let ghost mut expect: Seq<PropSpec> = Seq::empty();
        let c = self.test_commutativity();
        push_found(&mut properties, c, Ghost(expect), Ghost(comm_props(sig)));
        proof { expect = expect + comm_props(sig); }
        let c = self.test_associativity();
        push_found(&mut properties, c, Ghost(expect), Ghost(assoc_props(sig)));
        proof { expect = expect + assoc_props(sig); }
        let c = self.find_identity_element();
        push_found(&mut properties, c, Ghost(expect), Ghost(ident_props(sig)));
        proof { expect = expect + ident_props(sig); }
        let c = self.detect_involution();
        push_found(&mut properties, c, Ghost(expect), Ghost(invol_props(sig)));
        proof { expect = expect + invol_props(sig); }
        let c = self.test_idempotence();
        push_found(&mut properties, c, Ghost(expect), Ghost(idem_props(sig)));
        proof { expect = expect + idem_props(sig); }
        let c = self.test_length_preservation();
        push_found(&mut properties, c, Ghost(expect), Ghost(len_props(sig)));
        proof { expect = expect + len_props(sig); }
        assert(expect =~= inferred(sig));
        properties
    }
}

fn push_found(out: &mut Vec<Property>, found: Option<Property>, Ghost(before): Ghost<Seq<PropSpec>>, Ghost(e): Ghost<Seq<PropSpec>>)
    requires
        found_as(found, e),
        old(out)@.len() == before.len(),
        forall|i: int| 0 <= i < before.len() ==> prop_is(#[trigger] old(out)@[i], before[i]),
    ensures
        final(out)@.len() == (before + e).len(),
        forall|i: int| 0 <= i < (before + e).len() ==> prop_is(#[trigger] final(out)@[i], (before + e)[i]),
{
    match found {
        Some(p) => {
            out.push(p);
        },
        None => {},
    }
}

/// The proptest text for a property of the given kind (see `kind_of`), test name and
/// carried text; empty for monotonicity.
pub open spec fn test_text(kind: nat, name: Seq<char>, payload: Seq<char>) -> Seq<char> {
    if kind == 0 {
        "#[test]\n        fn "@ + name + "(a in any::<i32>(), b in any::<i32>()) {\n            prop_assert_eq!(func(a, b), func(b, a));\n        }"@
    } else if kind == 1 {
        "#[test]\n        fn "@ + name + "(a in any::<i32>(), b in any::<i32>(), c in any::<i32>()) {\n            prop_assert_eq!(func(func(a, b), c), func(a, func(b, c)));\n        }"@
    } else if kind == 2 {
        "#[test]\n        fn "@ + name + "(x in any::<i32>()) {\n            prop_assert_eq!(func(x, "@ + payload + "), x);\n        }"@
    } else if kind == 4 {
        "#[test]\n        fn "@ + name + "(x in any::<Vec<i32>>()) {\n            prop_assert_eq!(func(func(x.clone())), x);\n        }"@
    } else if kind == 3 {
        "#[test]\n        fn "@ + name + "(x in any::<Vec<i32>>()) {\n            prop_assert_eq!(func(func(x.clone())), func(x));\n        }"@
    } else if kind == 7 {
        "#[test]\n        fn "@ + name + "(x in any::<Vec<i32>>()) {\n            let result = func(x.clone());\n            prop_assert_eq!(result.len(), x.len());\n        }"@
    } else if kind == 6 {
        "#[test]\n        fn "@ + name + "(x in any::<String>()) {\n            prop_assert_eq!(decode(encode(x.clone())), x);\n        }"@
    } else if kind == 8 {
        "#[test]\n        fn "@ + name + "(x in any::<i32>()) {\n            prop_assert!(invariant_holds(x));\n        }"@
    } else {
        Seq::empty()
    }
}

/// The test text of property `p`.
pub open spec fn prop_test_text(p: Property) -> Seq<char> {
    test_text(kind_of(p.property_type).0, p.name@, kind_of(p.property_type).1)
}

/// The lines of a test module body: each text, indented, on a line of its own.
pub open spec fn indented_lines(texts: Seq<Seq<char>>) -> Seq<char>
    decreases texts.len(),
{
    if texts.len() == 0 {
        Seq::empty()
    } else {
        indented_lines(texts.drop_last()) + "        "@ + texts.last() + "\n"@
    }
}

/// The text that `generate_tests` writes for the test texts `texts`.
pub open spec fn generated_module(texts: Seq<Seq<char>>) -> Seq<char> {
    "#[cfg(test)]\n"@ + "mod generated_property_tests {\n"@ + "    use proptest::prelude::*;\n\n"@
        + "    proptest! {\n"@ + indented_lines(texts) + "    }\n"@ + "}\n"@
}

/// The text that `generate_test_module` writes for the test texts `texts`.
pub open spec fn test_module_text(texts: Seq<Seq<char>>) -> Seq<char> {
    "mod tests {\n"@ + "    use proptest::prelude::*;\n\n"@ + "    proptest! {\n"@ + indented_lines(texts)
        + "    }\n"@ + "}\n"@
}

/// The value strategy for a type.
pub open spec fn value_gen_text(t: Type) -> Seq<char> {
    match t {
        Type::Primitive(name) => if contains_seq(name@, "i32"@) || contains_seq(name@, "u32"@) {
            "any::<i32>()"@
        } else if name@ == "String"@ {
            "\".*\""@
        } else if name@ == "bool"@ {
            "any::<bool>()"@
        } else {
            "any::<"@ + name@ + ">())"@
        },
        Type::Vec(_) => "prop::collection::vec(any::<i32>(), 0..100)"@,
        Type::Option(_) => "prop::option::of(any::<i32>())"@,
        _ => "any::<i32>()"@,
    }
}

/// Settings of generated tests.
pub struct GeneratorConfig {
    pub num_cases: usize,
    pub max_shrink_iters: usize,
    pub use_custom_generators: bool,
    pub test_module_name: String,
}

impl Default for GeneratorConfig {
    fn default() -> (r: Self)
        ensures
            r.num_cases == 100,
            r.max_shrink_iters == 1000,
            r.use_custom_generators,
            r.test_module_name@ == "generated_property_tests"@,
    {
        GeneratorConfig {
            num_cases: 100,
            max_shrink_iters: 1000,
            use_custom_generators: true,
            test_module_name: owned("generated_property_tests"),
        }
    }
}

/// Writes proptest code for properties.
pub struct CodeGenerator {
    pub properties: Vec<Property>,
    pub config: GeneratorConfig,
}

/// The test texts of some properties.
pub open spec fn prop_texts(ps: Seq<Property>) -> Seq<Seq<char>> {
    ps.map_values(|p: Property| prop_test_text(p))
}

fn append_indented(v: &mut Vec<char>, texts: &Vec<String>)
    ensures
        final(v)@ == old(v)@ + indented_lines(views(texts@)),
{
    let mut i: usize = 0;
    while i < texts.len()
        invariant
            i <= texts@.len(),
            v@ == old(v)@ + indented_lines(views(texts@.take(i as int))),
        decreases texts@.len() - i,
    {
        append_str(v, "        ");
        append_str(v, texts[i].as_str());
        append_str(v, "\n");
        proof {
            assert(views(texts@.take(i + 1)).drop_last() =~= views(texts@.take(i as int)));
            assert(views(texts@.take(i + 1)).last() == texts@[i as int]@);
        }
        i = i + 1;
    }
    assert(texts@.take(texts@.len() as int) =~= texts@);
}

impl CodeGenerator {
    /// A generator for `properties`.
    pub fn new(properties: Vec<Property>, config: GeneratorConfig) -> (r: Self)
        ensures
            r.properties@ == properties@,
    {
        CodeGenerator { properties, config }
    }

    /// A proptest module with one test per property.
    pub fn generate_tests(&self) -> (r: String)
        ensures
            r@ == generated_module(prop_texts(self.properties@)),
    {
        let mut texts: Vec<String> = Vec::new();
        let mut i: usize = 0;
        while i < self.properties.len()
            invariant
                i <= self.properties@.len(),
                texts@.len() == i,
                forall|k: int| 0 <= k < i ==> (#[trigger] texts@[k])@ == prop_test_text(self.properties@[k]),
            decreases self.properties@.len() - i,
        {
            texts.push(self.generate_property_test(&self.properties[i]));
            i = i + 1;
        }
        assert(views(texts@) =~= prop_texts(self.properties@));
        let mut v: Vec<char> = Vec::new();
        append_str(&mut v, "#[cfg(test)]\n");
        append_str(&mut v, "mod generated_property_tests {\n");
        append_str(&mut v, "    use proptest::prelude::*;\n\n");
        append_str(&mut v, "    proptest! {\n");
        append_indented(&mut v, &texts);
        append_str(&mut v, "    }\n");
        append_str(&mut v, "}\n");
        string_from_chars(v.as_slice())
    }

    /// The proptest text for one property (see `test_text`).
    pub fn generate_property_test(&self, prop: &Property) -> (r: String)
        ensures
            r@ == prop_test_text(*prop),
    {
        let name = prop.name.as_str();
        let mut v: Vec<char> = Vec::new();
        match &prop.property_type {
        PropertyType::Commutativity => {
            append_str(&mut v, "#[test]\n        fn ");
            append_str(&mut v, name);
            append_str(&mut v, "(a in any::<i32>(), b in any::<i32>()) {\n            prop_assert_eq!(func(a, b), func(b, a));\n        }");
        },
        PropertyType::Associativity => {
            append_str(&mut v, "#[test]\n        fn ");
            append_str(&mut v, name);
            append_str(&mut v, "(a in any::<i32>(), b in any::<i32>(), c in any::<i32>()) {\n            prop_assert_eq!(func(func(a, b), c), func(a, func(b, c)));\n        }");
        },
        PropertyType::Identity(x) => {
            let payload = x.as_str();
            append_str(&mut v, "#[test]\n        fn ");
            append_str(&mut v, name);
            append_str(&mut v, "(x in any::<i32>()) {\n            prop_assert_eq!(func(x, ");
            append_str(&mut v, payload);
            append_str(&mut v, "), x);\n        }");
        },
        PropertyType::Involution => {
            append_str(&mut v, "#[test]\n        fn ");
            append_str(&mut v, name);
            append_str(&mut v, "(x in any::<Vec<i32>>()) {\n            prop_assert_eq!(func(func(x.clone())), x);\n        }");
        },
        PropertyType::Idempotence => {
            append_str(&mut v, "#[test]\n        fn ");
            append_str(&mut v, name);
            append_str(&mut v, "(x in any::<Vec<i32>>()) {\n            prop_assert_eq!(func(func(x.clone())), func(x));\n        }");
        },
        PropertyType::LengthPreservation => {
            append_str(&mut v, "#[test]\n        fn ");
            append_str(&mut v, name);
            append_str(&mut v, "(x in any::<Vec<i32>>()) {\n            let result = func(x.clone());\n            prop_assert_eq!(result.len(), x.len());\n        }");
        },
        PropertyType::RoundTrip => {
            append_str(&mut v, "#[test]\n        fn ");
            append_str(&mut v, name);
            append_str(&mut v, "(x in any::<String>()) {\n            prop_assert_eq!(decode(encode(x.clone())), x);\n        }");
        },
        PropertyType::Invariant(x) => {
            let payload = x.as_str();
            append_str(&mut v, "#[test]\n        fn ");
            append_str(&mut v, name);
            append_str(&mut v, "(x in any::<i32>()) {\n            prop_assert!(invariant_holds(x));\n        }");
        },
        PropertyType::Monotonicity => {},
        }
        string_from_chars(v.as_slice())
    }

    /// The value strategy for a type (see `value_gen_text`).
    pub fn create_value_generator(&self, typ: &Type) -> (r: String)
        ensures
            r@ == value_gen_text(*typ),
    {
        match typ {
            Type::Primitive(name) => {
                let nv = chars_of(name.as_str());
                if contains_str(nv.as_slice(), "i32") || contains_str(nv.as_slice(), "u32") {
                    owned("any::<i32>()")
                } else if crate::text::str_eq(name.as_str(), "String") {
                    owned("\".*\"")
                } else if crate::text::str_eq(name.as_str(), "bool") {
                    owned("any::<bool>()")
                } else {
                    join3("any::<", name.as_str(), ">())")
                }
            },
            Type::Vec(_) => owned("prop::collection::vec(any::<i32>(), 0..100)"),
            Type::Option(_) => owned("prop::option::of(any::<i32>())"),
            _ => owned("any::<i32>()"),
        }
    }

    /// A `tests` module holding the given proptest texts.
    pub fn generate_test_module(&self, tests: Vec<String>) -> (r: String)
        ensures
            r@ == test_module_text(views(tests@)),
    {
        let mut v: Vec<char> = Vec::new();
        append_str(&mut v, "mod tests {\n");
        append_str(&mut v, "    use proptest::prelude::*;\n\n");
        append_str(&mut v, "    proptest! {\n");
        append_indented(&mut v, &tests);
        append_str(&mut v, "    }\n");
        append_str(&mut v, "}\n");
        string_from_chars(v.as_slice())
    }
}

/// A copy of a type.
pub fn copy_type(t: &Type) -> (r: Type)
    ensures
        same_type(r, *t),
    decreases t,
{
    match t {
        Type::Primitive(x) => Type::Primitive(owned(x.as_str())),
        Type::Generic(x) => Type::Generic(owned(x.as_str())),
        Type::Custom(x) => Type::Custom(owned(x.as_str())),
        Type::Vec(x) => Type::Vec(Box::new(copy_type(x))),
        Type::Option(x) => Type::Option(Box::new(copy_type(x))),
        Type::Result(x, y) => Type::Result(Box::new(copy_type(x)), Box::new(copy_type(y))),
        Type::Tuple(xs) => {
            let mut out: Vec<Type> = Vec::new();
            let mut i: usize = 0;
            while i < xs.len()
                invariant
                    *t == Type::Tuple(*xs),
                    i <= xs@.len(),
                    out@.len() == i,
                    forall|k: int| 0 <= k < i ==> same_type(#[trigger] out@[k], xs@[k]),
                decreases xs@.len() - i,
            {
                proof {
                    assert(decreases_to!(*t => (*t)->Tuple_0));
                    assert(decreases_to!((*t)->Tuple_0 => xs@));
                    assert(decreases_to!(xs@ => xs@[i as int]));
                }
                out.push(copy_type(&xs[i]));
                i = i + 1;
            }
            let r = Type::Tuple(out);
            assert(same_type(r, *t));
            r
        },
    }
}

/// A constraint on generated values.
#[derive(Debug, Clone)]
pub enum Constraint {
    Range { min: i64, max: i64 },
    Length { min: usize, max: usize },
    Pattern(String),
    NonZero,
    Positive,
    NonEmpty,
    Predicate(String),
}

/// The e-mail pattern used for generated addresses.
pub open spec fn email_pattern() -> Seq<char> {
    "[a-z0-9.]+@[a-z0-9]+\\.[a-z]{2,}"@
}

/// `cs` are the constraints that a parameter named `lname` (in lower case) gets: a
/// range 0..=150 for an age, positive for a count, size or index, non-zero for a
/// divisor or denominator, the e-mail pattern for an e-mail; none otherwise.
pub open spec fn constraints_for(lname: Seq<char>, cs: Seq<Constraint>) -> bool {
    if contains_seq(lname, "age"@) {
        cs.len() == 1 && (cs[0] matches Constraint::Range { min, max } && min == 0 && max == 150)
    } else if contains_seq(lname, "count"@) || contains_seq(lname, "size"@) || contains_seq(lname, "index"@) {
        cs.len() == 1 && cs[0] is Positive
    } else if contains_seq(lname, "divisor"@) || contains_seq(lname, "denominator"@) {
        cs.len() == 1 && cs[0] is NonZero
    } else if contains_seq(lname, "email"@) {
        cs.len() == 1 && (cs[0] matches Constraint::Pattern(p) && p@ == email_pattern())
    } else {
        cs.len() == 0
    }
}

/// The strategy text for a constraint.
pub open spec fn bounded_text(c: Constraint) -> Seq<char> {
    match c {
        Constraint::Range { min, max } => signed_decimal(min as int) + "..="@ + signed_decimal(max as int),
        Constraint::Length { min, max } => "prop::collection::vec(any::<i32>(), "@ + decimal(min as nat) + "..="@
            + decimal(max as nat) + ")"@,
        Constraint::Pattern(p) => regex_text(p@),
        Constraint::NonZero => "1..=i32::MAX"@,
        Constraint::Positive => "1..=i32::MAX"@,
        Constraint::NonEmpty => "prop::collection::vec(any::<i32>(), 1..100)"@,
        Constraint::Predicate(_) => "any::<i32>()"@,
    }
}

/// The strategy text for strings matching a pattern.
pub open spec fn regex_text(p: Seq<char>) -> Seq<char> {
    "prop::string::string_regex(\""@ + p + "\").unwrap()"@
}

/// A generator of constrained values for a parameter.
pub struct CustomGenerator {
    pub generator_name: String,
    pub base_type: Type,
    pub constraints: Vec<Constraint>,
    pub strategy_code: String,
}

impl CustomGenerator {
    /// A generator for `param`, when its name suggests constraints; its strategy
    /// follows the first one.
    pub fn from_parameter(param: &Parameter) -> (r: Option<Self>)
        ensures
            match r {
                None => constraints_for(lowercase(param.name@), Seq::empty()),
                Some(g) => {
                    &&& g.generator_name@ == param.name@
                    &&& same_type(g.base_type, param.param_type)
                    &&& constraints_for(lowercase(param.name@), g.constraints@)
                    &&& g.constraints@.len() > 0
                    &&& g.strategy_code@ == bounded_text(g.constraints@[0])
                },
            },
    {
        let constraints = Self::infer_constraints(param);
        if constraints.len() == 0 {
            return None;
        }
        let code = Self::create_bounded_generator(&constraints[0]);
        Some(CustomGenerator {
            generator_name: owned(param.name.as_str()),
            base_type: copy_type(&param.param_type),
            constraints,
            strategy_code: code,
        })
    }

    /// The constraints that the parameter's name suggests (see `constraints_for`).
    pub fn infer_constraints(param: &Parameter) -> (r: Vec<Constraint>)
        ensures
            constraints_for(lowercase(param.name@), r@),
    {
        let lower = to_lower(param.name.as_str());
        let name = chars_of(lower.as_str());
        let mut out: Vec<Constraint> = Vec::new();
        if contains_str(name.as_slice(), "age") {
            out.push(Constraint::Range { min: 0, max: 150 });
        } else if contains_str(name.as_slice(), "count") || contains_str(name.as_slice(), "size") {
            out.push(Constraint::Positive);
        } else if contains_str(name.as_slice(), "index") {
            out.push(Constraint::Positive);
        } else if contains_str(name.as_slice(), "divisor") || contains_str(name.as_slice(), "denominator") {
            out.push(Constraint::NonZero);
        } else if contains_str(name.as_slice(), "email") {
            out.push(Constraint::Pattern(owned("[a-z0-9.]+@[a-z0-9]+\\.[a-z]{2,}")));
        }
        out
    }

    /// The strategy text for a constraint (see `bounded_text`).
    pub fn create_bounded_generator(constraint: &Constraint) -> (r: String)
        ensures
            r@ == bounded_text(*constraint),
    {
        let mut v: Vec<char> = Vec::new();
        match constraint {
            Constraint::Range { min, max } => {
                append_signed(&mut v, *min);
                append_str(&mut v, "..=");
                append_signed(&mut v, *max);
            },
            Constraint::Length { min, max } => {
                append_str(&mut v, "prop::collection::vec(any::<i32>(), ");
                let a = decimal_chars(*min as u64);
                append_chars(&mut v, a.as_slice());
                append_str(&mut v, "..=");
                let b = decimal_chars(*max as u64);
                append_chars(&mut v, b.as_slice());
                append_str(&mut v, ")");
            },
            Constraint::Pattern(p) => {
                return Self::create_regex_generator(p.as_str());
            },
            Constraint::NonZero => append_str(&mut v, "1..=i32::MAX"),
            Constraint::Positive => append_str(&mut v, "1..=i32::MAX"),
            Constraint::NonEmpty => append_str(&mut v, "prop::collection::vec(any::<i32>(), 1..100)"),
            Constraint::Predicate(_) => append_str(&mut v, "any::<i32>()"),
        }
        string_from_chars(v.as_slice())
    }

    /// The strategy text for strings matching `pattern`.
    pub fn create_regex_generator(pattern: &str) -> (r: String)
        ensures
            r@ == regex_text(pattern@),
    {
        join3("prop::string::string_regex(\"", pattern, "\").unwrap()")
    }

    /// The strategy text for a struct with the given field generators.
    pub fn create_struct_generator(fields: &[(String, CustomGenerator)]) -> (r: String)
        ensures
            r@ == "any::<i32>()"@,
    {
        owned("any::<i32>()")
    }

    /// The generator's strategy text.
    pub fn generate_strategy_code(&self) -> (r: String)
        ensures
            r@ == self.strategy_code@,
    {
        owned(self.strategy_code.as_str())
    }
}

/// A way of shrinking a failing value.
#[derive(Debug, Clone, PartialEq)]
pub enum ShrinkStep {
    TowardsZero,
    RemoveElements,
    ShortenString,
    SimplifyStructure,
    ReplaceWithDefault,
    BinarySearch,
}

/// The shrinking steps for values of a type.
pub open spec fn shrink_steps_for(t: Type) -> Seq<ShrinkStep> {
    match t {
        Type::Primitive(name) => if name@ == "String"@ {
            seq![ShrinkStep::ShortenString]
        } else if name@.contains('i') || name@.contains('u') {
            seq![ShrinkStep::TowardsZero, ShrinkStep::BinarySearch]
        } else {
            seq![ShrinkStep::ReplaceWithDefault]
        },
        Type::Vec(_) => seq![ShrinkStep::RemoveElements, ShrinkStep::SimplifyStructure],
        _ => seq![ShrinkStep::ReplaceWithDefault],
    }
}

/// The shrinking code for values of a type.
pub open spec fn shrink_code_for(t: Type) -> Seq<char> {
    match t {
        Type::Primitive(name) => if name@.contains('i') {
            "any::<i32>().prop_shrink(|x| (0..x.abs()).map(move |i| if x < 0 { -i } else { i }))"@
        } else {
            "any::<i32>()"@
        },
        Type::Vec(_) => "prop::collection::vec(any::<i32>(), 0..100)"@,
        _ => "any::<i32>()"@,
    }
}

/// How to shrink values of a type.
pub struct ShrinkStrategy {
    pub value_type: Type,
    pub shrink_steps: Vec<ShrinkStep>,
    pub strategy_code: String,
}

impl ShrinkStrategy {
    /// The strategy for `typ` (see `shrink_steps_for` and `shrink_code_for`).
    pub fn create_shrink_strategy(typ: &Type) -> (r: Self)
        ensures
            same_type(r.value_type, *typ),
            r.shrink_steps@ == shrink_steps_for(*typ),
            r.strategy_code@ == shrink_code_for(*typ),
    {
        ShrinkStrategy {
            value_type: copy_type(typ),
            shrink_steps: Self::optimize_for_type(typ),
            strategy_code: Self::generate_shrink_code_for_type(typ),
        }
    }

    fn optimize_for_type(typ: &Type) -> (r: Vec<ShrinkStep>)
        ensures
            r@ == shrink_steps_for(*typ),
    {
        let mut v: Vec<ShrinkStep> = Vec::new();
        match typ {
            Type::Primitive(name) => {
                let nv = chars_of(name.as_str());
                if crate::text::str_eq(name.as_str(), "String") {
                    v.push(ShrinkStep::ShortenString);
                } else if crate::text::chars_has(nv.as_slice(), 'i') || crate::text::chars_has(nv.as_slice(), 'u') {
                    v.push(ShrinkStep::TowardsZero);
                    v.push(ShrinkStep::BinarySearch);
                } else {
                    v.push(ShrinkStep::ReplaceWithDefault);
                }
            },
            Type::Vec(_) => {
                v.push(ShrinkStep::RemoveElements);
                v.push(ShrinkStep::SimplifyStructure);
            },
            _ => {
                v.push(ShrinkStep::ReplaceWithDefault);
            },
        }
        assert(v@ =~= shrink_steps_for(*typ));
        v
    }

    fn generate_shrink_code_for_type(typ: &Type) -> (r: String)
        ensures
            r@ == shrink_code_for(*typ),
    {
        match typ {
            Type::Primitive(name) => {
                let nv = chars_of(name.as_str());
                if crate::text::chars_has(nv.as_slice(), 'i') {
                    owned("any::<i32>().prop_shrink(|x| (0..x.abs()).map(move |i| if x < 0 { -i } else { i }))")
                } else {
                    owned("any::<i32>()")
                }
            },
            Type::Vec(_) => owned("prop::collection::vec(any::<i32>(), 0..100)"),
            _ => owned("any::<i32>()"),
        }
    }

    /// The shrinking code.
    pub fn generate_shrink_code(&self) -> (r: String)
        ensures
            r@ == self.strategy_code@,
    {
        owned(self.strategy_code.as_str())
    }
}

/// Settings of the command-line tool.
pub struct Config {
    pub num_cases: usize,
    pub output_dir: String,
    pub parallel: bool,
    pub verbose: bool,
}

impl Default for Config {
    fn default() -> (r: Self)
        ensures
            r.num_cases == 100,
            r.output_dir@ == "tests/generated"@,
            !r.parallel,
            !r.verbose,
    {
        Config { num_cases: 100, output_dir: owned("tests/generated"), parallel: false, verbose: false }
    }
}

impl Config {
    /// Further settings from the command line; none are taken over yet.
    pub fn merge_with_args(&mut self, num_cases: Option<usize>)
        ensures
            *final(self) == *old(self),
    {
    }
}

#[verifier::external_type_specification]
#[verifier::external_body]
pub struct ExIoError(std::io::Error);

impl Config {
    /// The settings stored at `path`; the defaults, for now.
    pub fn from_file(path: &str) -> (r: Result<Self, std::io::Error>)
        ensures
            r matches Ok(c) && c.num_cases == 100 && c.output_dir@ == "tests/generated"@ && !c.parallel && !c.verbose,
    {
        Ok(Config::default())
    }
}

/// Generates property tests for the functions of the file at `path`; nothing is
/// written yet, and it always succeeds.
pub fn generate_for_file(path: &str, config: &Config) -> (r: Result<(), String>)
    ensures
        r is Ok,
{
    Ok(())
}

/// Generates property tests for every file of the project at `root`; nothing is
/// written yet, and it always succeeds.
pub fn generate_for_project(root: &str, config: &Config) -> (r: Result<(), String>)
    ensures
        r is Ok,
{
    Ok(())
}

} // verus!
