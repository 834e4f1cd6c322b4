//! Reading a JSON string literal: the text between the quotes with its escapes
//! (`\"`, `\\`, `\/`, `\b`, `\f`, `\n`, `\r`, `\t` and `\uXXXX`) decoded.
use vstd::prelude::*;
use crate::text::{byte_offset, byte_pos, byte_offset_of, char_width, chars_of, utf8_width};

verus! {

/// Why a string literal could not be read, and the byte offset in the input it points at.
#[derive(Debug, Clone, PartialEq)]
pub struct JsonStringError {
    pub message: String,
    pub position: usize,
}

/// The character a one-letter escape `\c` stands for, if `c` is one.
pub open spec fn simple_escape(c: char) -> Option<char> {
    if c == '"' {
        Some('"')
    } else if c == '\\' {
        Some('\\')
    } else if c == '/' {
        Some('/')
    } else if c == 'b' {
        Some('\u{8}')
    } else if c == 'f' {
        Some('\u{c}')
    } else if c == 'n' {
        Some('\n')
    } else if c == 'r' {
        Some('\r')
    } else if c == 't' {
        Some('\t')
    } else {
        None
    }
}

/// The value of a hexadecimal digit.
pub open spec fn hex_digit_value(c: char) -> Option<nat> {
    if '0' <= c && c <= '9' {
        Some((c as nat - '0' as nat) as nat)
    } else if 'a' <= c && c <= 'f' {
        Some((c as nat - 'a' as nat + 10) as nat)
    } else if 'A' <= c && c <= 'F' {
        Some((c as nat - 'A' as nat + 10) as nat)
    } else {
        None
    }
}

/// The value of the hexadecimal digits `h`, if all of them are digits.
pub open spec fn hex_value(h: Seq<char>) -> Option<nat>
    decreases h.len(),
{
    if h.len() == 0 {
        Some(0)
    } else {
        match (hex_value(h.drop_last()), hex_digit_value(h.last())) {
            (Some(a), Some(d)) => Some(a * 16 + d),
            _ => None,
        }
    }
}

/// What `u16::from_str_radix(h, 16)` gives for at most four characters `h`: an optional
/// `+` followed by one or more hexadecimal digits, read as a number.
pub open spec fn hex_quad(h: Seq<char>) -> Option<nat> {
    let digits = if h.len() > 0 && h[0] == '+' { h.drop_first() } else { h };
    if digits.len() == 0 {
        None
    } else {
        hex_value(digits)
    }
}

/// Whether `v` is the code point of a character: not a surrogate and at most `0x10FFFF`.
pub open spec fn is_scalar(v: nat) -> bool {
    v < 0xD800 || (0xE000 <= v && v <= 0x10FFFF)
}

/// Puts `c` in front of the text of a successful reading.
pub open spec fn prepend(c: char, r: Result<(Seq<char>, int), (Seq<char>, int)>) -> Result<(Seq<char>, int), (Seq<char>, int)> {
    match r {
        Ok((t, e)) => Ok((seq![c] + t, e)),
        Err(x) => Err(x),
    }
}

/// Puts `acc` in front of the text of a successful reading.
pub open spec fn prepend_all(acc: Seq<char>, r: Result<(Seq<char>, int), (Seq<char>, int)>) -> Result<(Seq<char>, int), (Seq<char>, int)> {
    match r {
        Ok((t, e)) => Ok((acc + t, e)),
        Err(x) => Err(x),
    }
}

/// The up to four characters of a `\u` escape whose digits start at `hs`.
pub open spec fn escape_digits(s: Seq<char>, hs: int) -> Seq<char> {
    s.subrange(hs, if hs + 4 < s.len() { hs + 4 } else { s.len() as int })
}

/// What reading the body of a string literal from character index `q` of `s` gives: the
/// decoded text and the index after the closing quote, or an error message and the
/// character index it points at (`start` for an unterminated string).
pub open spec fn string_body(s: Seq<char>, q: int, start: int) -> Result<(Seq<char>, int), (Seq<char>, int)>
    decreases s.len() - q,
{
    if q < 0 || q >= s.len() {
        Err(("Unterminated string"@, start))
    } else if s[q] == '"' {
        Ok((Seq::empty(), q + 1))
    } else if s[q] == '\\' {
        if q + 1 >= s.len() {
            Err(("Invalid escape sequence"@, q + 1))
        } else if simple_escape(s[q + 1]) is Some {
            prepend(simple_escape(s[q + 1])->0, string_body(s, q + 2, start))
        } else if s[q + 1] == 'u' {
            let hs = q + 2;
            let h = escape_digits(s, hs);
            if byte_offset(h, h.len() as int) != 4 {
                Err(("Incomplete Unicode escape sequence"@, hs))
            } else {
                match hex_quad(h) {
                    None => Err(("Invalid hex digits for Unicode escape"@, hs)),
                    Some(v) => if is_scalar(v) && h.len() > 0 {
                        prepend(v as char, string_body(s, hs + h.len(), start))
                    } else {
                        Err(("Invalid Unicode code point"@, hs))
                    },
                }
            }
        } else {
            Err(("Invalid escape sequence"@, q + 1))
        }
    } else {
        prepend(s[q], string_body(s, q + 1, start))
    }
}

/// What reading a string literal at character index `p` of `s` gives: its decoded text
/// and the index after it, or an error message and the character index it points at.
pub open spec fn json_string_at(s: Seq<char>, p: int) -> Result<(Seq<char>, int), (Seq<char>, int)> {
    if p < 0 || p >= s.len() || s[p] != '"' {
        Err(("Expected '\"'"@, p))
    } else {
        string_body(s, p + 1, p + 1)
    }
}

/// Equal tails stay equal further on.
proof fn lemma_suffix_shift(s: Seq<char>, q: int, s2: Seq<char>, q2: int, k: int)
    requires
        0 <= q <= s.len(),
        0 <= q2 <= s2.len(),
        s.subrange(q, s.len() as int) == s2.subrange(q2, s2.len() as int),
        0 <= k <= s.len() - q,
    ensures
        s.len() - q == s2.len() - q2,
        s.subrange(q + k, s.len() as int) == s2.subrange(q2 + k, s2.len() as int),
        forall|m: int| 0 <= m < s.len() - q ==> #[trigger] s[q + m] == s2[q2 + m],
{
    let a = s.subrange(q, s.len() as int);
    let b = s2.subrange(q2, s2.len() as int);
    assert(a.len() == s.len() - q);
    assert(b.len() == s2.len() - q2);
    assert(a.len() == b.len());
    assert(s.len() - q == s2.len() - q2);
    assert forall|m: int| 0 <= m < s.len() - q implies #[trigger] s[q + m] == s2[q2 + m] by {
        assert(s.subrange(q, s.len() as int)[m] == s[q + m]);
        assert(s2.subrange(q2, s2.len() as int)[m] == s2[q2 + m]);
    }
    assert(s.subrange(q + k, s.len() as int) =~= s2.subrange(q2 + k, s2.len() as int)) by {
        assert forall|m: int| 0 <= m < s.len() - q - k implies #[trigger] s.subrange(q + k, s.len() as int)[m] == s2.subrange(q2 + k, s2.len() as int)[m] by {
            assert(s[q + (k + m)] == s2[q2 + (k + m)]);
        }
    }
}

/// Reading a string body depends only on the characters from where it starts: two inputs
/// with the same characters from there on read the same text, and end at the same
/// distance from where they started.
pub proof fn lemma_body_suffix(s: Seq<char>, q: int, st: int, s2: Seq<char>, q2: int, st2: int)
    requires
        0 <= q <= s.len(),
        0 <= q2 <= s2.len(),
        s.subrange(q, s.len() as int) == s2.subrange(q2, s2.len() as int),
    ensures
        string_body(s, q, st) is Ok <==> string_body(s2, q2, st2) is Ok,
        string_body(s, q, st) matches Ok((t, e)) ==> string_body(s2, q2, st2) == Ok::<(Seq<char>, int), (Seq<char>, int)>((t, e - q + q2)),
    decreases s.len() - q,
{
    assert(s.subrange(q, s.len() as int).len() == s2.subrange(q2, s2.len() as int).len());
    lemma_suffix_shift(s, q, s2, q2, 0);
    if q < s.len() {
        assert(s[q + 0] == s2[q2 + 0]);
        if s[q] == '\\' {
            if q + 1 < s.len() {
                assert(s[q + 1] == s2[q2 + 1]);
                if simple_escape(s[q + 1]) is Some {
                    lemma_suffix_shift(s, q, s2, q2, 2);
                    lemma_body_suffix(s, q + 2, st, s2, q2 + 2, st2);
                } else if s[q + 1] == 'u' {
                    let hs = q + 2;
                    let h = escape_digits(s, hs);
                    let h2 = escape_digits(s2, q2 + 2);
                    assert(h =~= h2) by {
                        assert forall|m: int| 0 <= m < h.len() implies h[m] == h2[m] by {
                            assert(s[q + (2 + m)] == s2[q2 + (2 + m)]);
                        }
                    }
                    if h.len() <= s.len() - hs {
                        lemma_suffix_shift(s, q, s2, q2, 2 + h.len() as int);
                        lemma_body_suffix(s, hs + h.len(), st, s2, q2 + 2 + h.len(), st2);
                    }
                }
            }
        } else if s[q] != '"' {
            lemma_suffix_shift(s, q, s2, q2, 1);
            lemma_body_suffix(s, q + 1, st, s2, q2 + 1, st2);
        }
    }
}

/// The first character of a literal decides the first character of its text: a
/// one-letter escape gives the character JSON assigns to it (`\"` a quote, `\\` a
/// backslash, `\/` a slash, `\b` U+0008, `\f` U+000C, `\n` U+000A, `\r` U+000D, `\t`
/// U+0009) and any other character but a quote or a backslash gives itself. A literal
/// holding just one such escape reads as that one character.
pub proof fn lemma_first_character(s: Seq<char>, at: int)
    requires
        0 <= at,
        at + 1 < s.len(),
        s[at] == '"',
    ensures
        s[at + 1] != '"' && s[at + 1] != '\\' ==> (json_string_at(s, at) matches Ok((t, _)) ==> t.len() > 0 && t[0] == s[at + 1]),
        s[at + 1] == '\\' && at + 2 < s.len() ==> (json_string_at(s, at) matches Ok((t, _)) ==> t.len() > 0 && {
            &&& s[at + 2] == '"' ==> t[0] == '"'
            &&& s[at + 2] == '\\' ==> t[0] == '\\'
            &&& s[at + 2] == '/' ==> t[0] == '/'
            &&& s[at + 2] == 'b' ==> t[0] == '\u{8}'
            &&& s[at + 2] == 'f' ==> t[0] == '\u{c}'
            &&& s[at + 2] == 'n' ==> t[0] == '\u{a}'
            &&& s[at + 2] == 'r' ==> t[0] == '\u{d}'
            &&& s[at + 2] == 't' ==> t[0] == '\u{9}'
        }),
        s[at + 1] == '\\' && at + 3 < s.len() && s[at + 3] == '"' && s[at + 2] == 't' ==> json_string_at(s, at)
            == Ok::<(Seq<char>, int), (Seq<char>, int)>((seq!['\u{9}'], at + 4)),
        s[at + 1] == '\\' && at + 3 < s.len() && s[at + 3] == '"' && s[at + 2] == 'n' ==> json_string_at(s, at)
            == Ok::<(Seq<char>, int), (Seq<char>, int)>((seq!['\u{a}'], at + 4)),
{
    if s[at + 1] == '\\' && at + 3 < s.len() && s[at + 3] == '"' {
        assert(string_body(s, at + 3, at + 1) == Ok::<(Seq<char>, int), (Seq<char>, int)>((Seq::<char>::empty(), at + 4)));
        assert(seq![simple_escape(s[at + 2])->0] + Seq::<char>::empty() =~= seq![simple_escape(s[at + 2])->0]);
    }
}

/// An ASCII hexadecimal digit: `0`-`9`, `a`-`f` or `A`-`F`.
pub open spec fn is_hex_char(c: char) -> bool {
    ('0' <= c && c <= '9') || ('a' <= c && c <= 'f') || ('A' <= c && c <= 'F')
}

/// The value of an ASCII hexadecimal digit: `0`-`9` are 0 to 9, `a`-`f` and `A`-`F` are
/// 10 to 15.
pub open spec fn hex_of(c: char) -> int {
    if '0' <= c && c <= '9' {
        c as int - 48
    } else if 'a' <= c && c <= 'f' {
        c as int - 87
    } else {
        c as int - 55
    }
}

proof fn lemma_hex_char(c: char)
    requires
        is_hex_char(c),
    ensures
        utf8_width(c) == 1,
        hex_digit_value(c) == Some(hex_of(c) as nat),
        0 <= hex_of(c) < 16,
        c != '+',
{
    assert((c as u32) as int == c as int);
    assert((c as u32) < 0x80);
}

/// A literal that starts with `\uXXXX` (four hexadecimal digits) reads, in front, as the
/// character whose code point the digits give, most significant first; digits naming a
/// surrogate (U+D800 to U+DFFF) make the literal fail.
pub proof fn lemma_first_unicode_escape(s: Seq<char>, at: int)
    requires
        0 <= at,
        at + 6 < s.len(),
        s[at] == '"',
        s[at + 1] == '\\',
        s[at + 2] == 'u',
        is_hex_char(s[at + 3]),
        is_hex_char(s[at + 4]),
        is_hex_char(s[at + 5]),
        is_hex_char(s[at + 6]),
    ensures
        ({
            let v = 4096 * hex_of(s[at + 3]) + 256 * hex_of(s[at + 4]) + 16 * hex_of(s[at + 5]) + hex_of(s[at + 6]);
            &&& (v < 0xD800 || 0xE000 <= v) ==> (json_string_at(s, at) matches Ok((t, _)) ==> t.len() > 0 && t[0] == v as char)
            &&& (0xD800 <= v < 0xE000) ==> json_string_at(s, at) is Err
        }),
{
    let hs = at + 3;
    let h = escape_digits(s, hs);
    lemma_hex_char(s[at + 3]);
    lemma_hex_char(s[at + 4]);
    lemma_hex_char(s[at + 5]);
    lemma_hex_char(s[at + 6]);
    assert(h =~= seq![s[at + 3], s[at + 4], s[at + 5], s[at + 6]]);
    assert(simple_escape('u') is None);
    assert(h.len() == 4);
    assert(h[0] == s[at + 3] && h[1] == s[at + 4] && h[2] == s[at + 5] && h[3] == s[at + 6]);
    assert(byte_offset(h, 0) == 0);
    assert(byte_offset(h, 1) == 1);
    assert(byte_offset(h, 2) == 2);
    assert(byte_offset(h, 3) == 3);
    assert(byte_offset(h, 4) == 4);
    assert(h[0] != '+');
    assert(h.drop_last().drop_last().drop_last().drop_last() =~= Seq::<char>::empty());
    let h1 = h.drop_last().drop_last().drop_last();
    assert(h1 =~= seq![h[0]]);
    assert(h1.drop_last() =~= Seq::<char>::empty());
    assert(h1.last() == h[0]);
    assert(hex_value(h1.drop_last()) == Some(0nat));
    assert(hex_value(h1) == Some(hex_of(h[0]) as nat));
    assert(hex_value(h.drop_last().drop_last()) == Some((hex_of(h[0]) * 16 + hex_of(h[1])) as nat));
    assert(hex_value(h.drop_last()) == Some(((hex_of(h[0]) * 16 + hex_of(h[1])) * 16 + hex_of(h[2])) as nat));
    assert(hex_value(h) == Some((((hex_of(h[0]) * 16 + hex_of(h[1])) * 16 + hex_of(h[2])) * 16 + hex_of(h[3])) as nat));
    assert(hex_quad(h) == hex_value(h));
}

/// Taking a plain first character out of a literal takes it off the front of the text
/// and leaves the rest alike: the literal reads the same way, one character shorter.
pub proof fn lemma_drop_plain_character(s: Seq<char>, at: int)
    requires
        0 <= at,
        at + 1 < s.len(),
        s[at] == '"',
        s[at + 1] != '"',
        s[at + 1] != '\\',
    ensures
        json_string_at(s, at) is Ok <==> json_string_at(s.remove(at + 1), at) is Ok,
        json_string_at(s, at) matches Ok((t, e)) ==> t.len() > 0 && t[0] == s[at + 1]
            && json_string_at(s.remove(at + 1), at) == Ok::<(Seq<char>, int), (Seq<char>, int)>((t.drop_first(), e - 1)),
{
    let s2 = s.remove(at + 1);
    assert(s2[at] == '"');
    assert(s.subrange(at + 2, s.len() as int) =~= s2.subrange(at + 1, s2.len() as int));
    lemma_body_suffix(s, at + 2, at + 1, s2, at + 1, at + 1);
    match string_body(s, at + 2, at + 1) {
        Ok((u, e)) => {
            assert((seq![s[at + 1]] + u).drop_first() =~= u);
        },
        Err(_) => {},
    }
}

/// Taking a one-letter escape out of the front of a literal takes its character off the
/// front of the text and leaves the rest alike, two characters shorter.
pub proof fn lemma_drop_escape(s: Seq<char>, at: int)
    requires
        0 <= at,
        at + 2 < s.len(),
        s[at] == '"',
        s[at + 1] == '\\',
        s[at + 2] == '"' || s[at + 2] == '\\' || s[at + 2] == '/' || s[at + 2] == 'b' || s[at + 2] == 'f' || s[at + 2] == 'n'
            || s[at + 2] == 'r' || s[at + 2] == 't',
    ensures
        json_string_at(s, at) is Ok <==> json_string_at(s.remove(at + 1).remove(at + 1), at) is Ok,
        json_string_at(s, at) matches Ok((t, e)) ==> t.len() > 0
            && json_string_at(s.remove(at + 1).remove(at + 1), at) == Ok::<(Seq<char>, int), (Seq<char>, int)>((t.drop_first(), e - 2)),
{
    let s2 = s.remove(at + 1).remove(at + 1);
    assert(s2[at] == '"');
    assert(s.subrange(at + 3, s.len() as int) =~= s2.subrange(at + 1, s2.len() as int));
    lemma_body_suffix(s, at + 3, at + 1, s2, at + 1, at + 1);
    match string_body(s, at + 3, at + 1) {
        Ok((u, e)) => {
            assert((seq![simple_escape(s[at + 2])->0] + u).drop_first() =~= u);
        },
        Err(_) => {},
    }
}

/// `char::from_u32`: the character with code point `v`, or `None` for a surrogate or a
/// value above `0x10FFFF`.
#[verifier::external_body]
fn char_from_code(v: u32) -> (r: Option<char>)
    ensures
        r matches Some(c) ==> c == (v as nat) as char,
        r is None <==> !is_scalar(v as nat),
{
    char::from_u32(v)
}

/// The value of a hexadecimal digit (see `hex_digit_value`).
fn hex_digit(c: char) -> (r: Option<u32>)
    ensures
        r matches Some(d) ==> hex_digit_value(c) == Some(d as nat),
        r is None ==> hex_digit_value(c) is None,
{
    if '0' <= c && c <= '9' {
        Some((c as u32) - ('0' as u32))
    } else if 'a' <= c && c <= 'f' {
        Some((c as u32) - ('a' as u32) + 10)
    } else if 'A' <= c && c <= 'F' {
        Some((c as u32) - ('A' as u32) + 10)
    } else {
        None
    }
}

/// Reads the up to four characters of a `\u` escape as `u16::from_str_radix` does.
fn read_hex_quad(h: &[char]) -> (r: Option<u32>)
    requires
        h@.len() <= 4,
    ensures
        r matches Some(v) ==> hex_quad(h@) == Some(v as nat),
        r is None ==> hex_quad(h@) is None,
{
    let mut i: usize = 0;
    if h.len() > 0 && h[0] == '+' {
        i = 1;
    }
    let ghost digits = if h@.len() > 0 && h@[0] == '+' { h@.drop_first() } else { h@ };
    let first = i;
    if i >= h.len() {
        return None;
    }
    let mut value: u32 = 0;
    proof {
        assert(digits =~= h@.subrange(first as int, h@.len() as int));
        assert(h@.subrange(first as int, first as int) =~= Seq::<char>::empty());
    }
    while i < h.len()
        invariant
            first <= i <= h@.len() <= 4,
            first <= 1,
            digits == h@.subrange(first as int, h@.len() as int),
            digits == (if h@.len() > 0 && h@[0] == '+' { h@.drop_first() } else { h@ }),
            hex_value(h@.subrange(first as int, i as int)) == Some(value as nat),
            value < pow16((i - first) as nat),
        decreases h@.len() - i,
    {
        let ghost pre = h@.subrange(first as int, i as int);
        match hex_digit(h[i]) {
            Some(d) => {
                proof {
                    assert(h@.subrange(first as int, i + 1).drop_last() =~= pre);
                    assert(h@.subrange(first as int, i + 1).last() == h@[i as int]);
                    assert(d < 16);
                    assert(pow16((i + 1 - first) as nat) == pow16((i - first) as nat) * 16);
                    assert(value * 16 + d < pow16((i + 1 - first) as nat)) by (nonlinear_arith)
                        requires
                            value < pow16((i - first) as nat),
                            d < 16,
                            pow16((i + 1 - first) as nat) == pow16((i - first) as nat) * 16;
                    assert(pow16((i + 1 - first) as nat) <= 65536) by {
                        lemma_pow16_bound((i + 1 - first) as nat);
                    }
                }
                value = value * 16 + d;
            },
            None => {
                proof {
                    assert(digits[i - first] == h@[i as int]);
                    assert(hex_digit_value(digits[i - first]) is None);
                    lemma_hex_value_none(digits, i - first);
                }
                return None;
            },
        }
        i = i + 1;
    }
    proof {
        assert(h@.subrange(first as int, h@.len() as int) == digits);
    }
    Some(value)
}

/// Moving a character from the front of a reading's text to the end of the text before
/// it changes nothing.
proof fn lemma_prepend_step(acc: Seq<char>, x: char, r: Result<(Seq<char>, int), (Seq<char>, int)>)
    ensures
        prepend_all(acc, prepend(x, r)) == prepend_all(acc.push(x), r),
{
    match r {
        Ok((t, e)) => {
            assert(acc + (seq![x] + t) =~= acc.push(x) + t);
        },
        Err(_) => {},
    }
}

/// `16` to the power `n`.
pub open spec fn pow16(n: nat) -> nat
    decreases n,
{
    if n == 0 {
        1
    } else {
        16 * pow16((n - 1) as nat)
    }
}

proof fn lemma_pow16_bound(n: nat)
    requires
        n <= 4,
    ensures
        pow16(n) <= 65536,
{
    reveal_with_fuel(pow16, 5);
}

/// A sequence with a non-digit at `k` has no hexadecimal value.
proof fn lemma_hex_value_none(h: Seq<char>, k: int)
    requires
        0 <= k < h.len(),
        hex_digit_value(h[k]) is None,
    ensures
        hex_value(h) is None,
    decreases h.len(),
{
    if k < h.len() - 1 {
        lemma_hex_value_none(h.drop_last(), k);
    }
}

/// The byte length of the characters `h`.
fn byte_len(h: &[char]) -> (r: usize)
    requires
        h@.len() <= 4,
    ensures
        r == byte_offset(h@, h@.len() as int),
{
    let mut total: usize = 0;
    let mut k: usize = 0;
    while k < h.len()
        invariant
            k <= h@.len() <= 4,
            total == byte_offset(h@, k as int),
            total <= 4 * k,
        decreases h@.len() - k,
    {
        let w = char_width(h[k]);
        total = total + w;
        k = k + 1;
    }
    total
}

/// Reads the string literal at character index `at` of `input`: a `"`, then characters
/// and escapes up to the closing `"`. Gives the decoded text and the character index after
/// the literal, or an error whose position is a byte offset into `input`. A one-letter
/// escape at the front reads as the character JSON assigns it (`\t` as U+0009, `\n` as
/// U+000A, ...), and a plain first character as itself.
pub fn parse_json_string(input: &str, at: usize) -> (r: Result<(String, usize), JsonStringError>)
    ensures
        match json_string_at(input@, at as int) {
            Ok((text, end)) => r matches Ok((v, e)) && v@ == text && e == end,
            Err((msg, idx)) => r matches Err(err) && err.message@ == msg && err.position == byte_pos(input@, idx),
        },
        at + 1 < input@.len() && input@[at as int] == '"' && input@[at + 1] != '"' && input@[at + 1] != '\\'
            ==> (r matches Ok((v, _)) ==> v@.len() > 0 && v@[0] == input@[at + 1]),
        at + 2 < input@.len() && input@[at as int] == '"' && input@[at + 1] == '\\' ==> (r matches Ok((v, _)) ==> v@.len() > 0 && {
            &&& input@[at + 2] == '"' ==> v@[0] == '"'
            &&& input@[at + 2] == '\\' ==> v@[0] == '\\'
            &&& input@[at + 2] == '/' ==> v@[0] == '/'
            &&& input@[at + 2] == 'b' ==> v@[0] == '\u{8}'
            &&& input@[at + 2] == 'f' ==> v@[0] == '\u{c}'
            &&& input@[at + 2] == 'n' ==> v@[0] == '\u{a}'
            &&& input@[at + 2] == 'r' ==> v@[0] == '\u{d}'
            &&& input@[at + 2] == 't' ==> v@[0] == '\u{9}'
        }),
        at + 3 < input@.len() && input@[at as int] == '"' && input@[at + 1] == '\\' && input@[at + 2] == 't'
            && input@[at + 3] == '"' ==> (r matches Ok((v, e)) && v@ == seq!['\u{9}'] && e == at + 4),
{
    let r = read_json_string(input, at);
    proof {
        if at + 1 < input@.len() && input@[at as int] == '"' {
            lemma_first_character(input@, at as int);
        }
    }
    r
}

/// Reads the string literal at character index `at` of `input` (see `parse_json_string`).
fn read_json_string(input: &str, at: usize) -> (r: Result<(String, usize), JsonStringError>)
    ensures
        match json_string_at(input@, at as int) {
            Ok((text, end)) => r matches Ok((v, e)) && v@ == text && e == end,
            Err((msg, idx)) => r matches Err(err) && err.message@ == msg && err.position == byte_pos(input@, idx),
        },
{
    let s = chars_of(input);
    let n = s.len();
    if at >= n || s[at] != '"' {
        let position = if at <= n { byte_offset_of(s.as_slice(), at) } else { byte_offset_of(s.as_slice(), n) };
        proof {
            if at > n {
                assert(byte_pos(input@, at as int) == byte_pos(input@, n as int));
            }
        }
        return Err(JsonStringError { message: crate::text::owned("Expected '\"'"), position });
    }
    let start = at + 1;
    let mut q: usize = start;
    let mut value: Vec<char> = Vec::new();
    while q < n
        invariant
            s@ == input@,
            n == s@.len(),
            start == at + 1,
            start <= q,
            q <= n + 1,
            json_string_at(input@, at as int) == prepend_all(value@, string_body(s@, q as int, start as int)),
        decreases n + 1 - q,
    {
        let c = s[q];
        let ghost acc = value@;
        if c == '"' {
            let text = crate::text::string_from_chars(value.as_slice());
            proof {
                assert(value@ + Seq::<char>::empty() =~= value@);
            }
            return Ok((text, q + 1));
        } else if c == '\\' {
            if q + 1 >= n {
                let position = byte_offset_of(s.as_slice(), q + 1);
                return Err(JsonStringError { message: crate::text::owned("Invalid escape sequence"), position });
            }
            let e = s[q + 1];
            let simple: Option<char> = if e == '"' {
                Some('"')
            } else if e == '\\' {
                Some('\\')
            } else if e == '/' {
                Some('/')
            } else if e == 'b' {
                Some('\u{8}')
            } else if e == 'f' {
                Some('\u{c}')
            } else if e == 'n' {
                Some('\n')
            } else if e == 'r' {
                Some('\r')
            } else if e == 't' {
                Some('\t')
            } else {
                None
            };
            match simple {
                Some(x) => {
                    value.push(x);
                    proof {
                        assert(simple_escape(e) == Some(x));
                        lemma_prepend_step(acc, x, string_body(s@, q + 2, start as int));
                    }
                    q = q + 2;
                },
                None => {
                    if e == 'u' {
                        let hs = q + 2;
                        let he = if n - hs > 4 { hs + 4 } else { n };
                        let h = &s.as_slice()[hs..he];
                        proof {
                            assert(h@ =~= escape_digits(s@, hs as int));
                        }
                        let bytes = byte_len(h);
                        if bytes != 4 {
                            let position = byte_offset_of(s.as_slice(), hs);
                            return Err(JsonStringError { message: crate::text::owned("Incomplete Unicode escape sequence"), position });
                        }
                        match read_hex_quad(h) {
                            None => {
                                let position = byte_offset_of(s.as_slice(), hs);
                                return Err(JsonStringError { message: crate::text::owned("Invalid hex digits for Unicode escape"), position });
                            },
                            Some(v) => {
                                match char_from_code(v) {
                                    Some(ch) if h.len() > 0 => {
                                        value.push(ch);
                                        proof {
                                            lemma_prepend_step(acc, ch, string_body(s@, hs + h@.len(), start as int));
                                        }
                                        q = hs + h.len();
                                    },
                                    _ => {
                                        let position = byte_offset_of(s.as_slice(), hs);
                                        return Err(JsonStringError { message: crate::text::owned("Invalid Unicode code point"), position });
                                    },
                                }
                            },
                        }
                    } else {
                        let position = byte_offset_of(s.as_slice(), q + 1);
                        return Err(JsonStringError { message: crate::text::owned("Invalid escape sequence"), position });
                    }
                },
            }
        } else {
            value.push(c);
            proof {
                lemma_prepend_step(acc, c, string_body(s@, q + 1, start as int));
            }
            q = q + 1;
        }
    }
    let position = byte_offset_of(s.as_slice(), start);
    Err(JsonStringError { message: crate::text::owned("Unterminated string"), position })
}

} // verus!
