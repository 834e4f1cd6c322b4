//! Underline comments (`//====`) in the Rust code blocks of Markdown documents:
//! recognizing them, making them, and finding the ones to remove.
use vstd::prelude::*;
use crate::text::{byte_pos, byte_offset_of, chars_of, string_from_chars, append_chars, is_prefix_of,
    contains_seq, chars_start_with, chars_contain, str_eq};
use crate::tokens::{trimmed, leading_ws};
use crate::interning::{is_ws, is_whitespace_char};
use crate::propgen::{trim_chars, sub_chars, starts_with_str, contains_str};

verus! {

/// `s` without its leading white space.
pub open spec fn trim_start(s: Seq<char>) -> Seq<char> {
    s.skip(leading_ws(s) as int)
}

fn trim_start_chars(s: &[char]) -> (r: Vec<char>)
    ensures
        r@ == trim_start(s@),
{
    let mut i: usize = 0;
    assert(s@.skip(0) =~= s@);
    while i < s.len() && is_whitespace_char(s[i])
        invariant
            i <= s@.len(),
            leading_ws(s@) == i + leading_ws(s@.skip(i as int)),
        decreases s@.len() - i,
    {
        assert(s@.skip(i as int).drop_first() =~= s@.skip(i + 1));
        i = i + 1;
    }
    assert(leading_ws(s@.skip(i as int)) == 0);
    let n = s.len();
    let r = sub_chars(s, i, n);
    assert(r@ =~= s@.skip(i as int));
    r
}

/// The `=` characters of `s`, in order.
pub open spec fn equals_signs(s: Seq<char>) -> Seq<char>
    decreases s.len(),
{
    if s.len() == 0 {
        s
    } else if s.last() == '=' {
        equals_signs(s.drop_last()).push('=')
    } else {
        equals_signs(s.drop_last())
    }
}

/// A comment that underlines: after leading white space, `//` followed by something
/// whose trimmed text is exactly its `=` characters.
pub open spec fn underline_comment(line: Seq<char>) -> bool {
    let t = trim_start(line);
    let after = t.skip(2);
    &&& is_prefix_of("//"@, t)
    &&& after.len() > 0
    &&& trimmed(after) == equals_signs(after)
}

/// Whether `line` is an underline comment (see `underline_comment`).
pub fn is_underline_comment(line: &str) -> (r: bool)
    ensures
        r == underline_comment(line@),
{
    let chars = chars_of(line);
    let t = trim_start_chars(chars.as_slice());
    proof {
        reveal_strlit("//");
    }
    if !starts_with_str(t.as_slice(), "//") {
        return false;
    }
    let n = t.len();
    let after = sub_chars(t.as_slice(), 2, n);
    assert(after@ =~= t@.skip(2));
    if after.len() == 0 {
        return false;
    }
    let tr = trim_chars(after.as_slice());
    let mut eq: Vec<char> = Vec::new();
    let mut i: usize = 0;
    assert(after@.take(0) =~= Seq::<char>::empty());
    while i < after.len()
        invariant
            i <= after@.len(),
            eq@ == equals_signs(after@.take(i as int)),
        decreases after@.len() - i,
    {
        proof {
            assert(after@.take(i + 1).drop_last() =~= after@.take(i as int));
            assert(after@.take(i + 1).last() == after@[i as int]);
        }
        if after[i] == '=' {
            eq.push('=');
        }
        i = i + 1;
    }
    assert(after@.take(after@.len() as int) =~= after@);
    crate::text::chars_eq(tr.as_slice(), eq.as_slice())
}

/// `//` followed by `=` for each byte of `comment` past the first two.
pub fn create_underline(comment: &str) -> (r: String)
    requires
        byte_pos(comment@, comment@.len() as int) >= 2,
    ensures
        r@ == "//"@ + Seq::new((byte_pos(comment@, comment@.len() as int) - 2) as nat, |i: int| '='),
{
    let chars = chars_of(comment);
    let len = byte_offset_of(chars.as_slice(), chars.len());
    let mut v: Vec<char> = Vec::new();
    v.push('/');
    v.push('/');
    let mut k: usize = 2;
    while k < len
        invariant
            2 <= k <= len,
            v@ == seq!['/', '/'] + Seq::new((k - 2) as nat, |i: int| '='),
        decreases len - k,
    {
        v.push('=');
        k = k + 1;
        assert(v@ =~= seq!['/', '/'] + Seq::new((k - 2) as nat, |i: int| '='));
    }
    proof {
        reveal_strlit("//");
    }
    assert(v@ =~= "//"@ + Seq::new((len - 2) as nat, |i: int| '='));
    string_from_chars(v.as_slice())
}

/// Whether the line opens a Rust code block.
pub open spec fn opens_rust_block(line: Seq<char>) -> bool {
    is_prefix_of("```rust"@, trimmed(line))
}

/// Whether the line is a code fence.
pub open spec fn is_fence(line: Seq<char>) -> bool {
    trimmed(line) == "```"@
}

/// Whether line `i` comes inside a Rust code block: a line that opens one starts it,
/// a fence ends it.
pub open spec fn in_rust_block(lines: Seq<Seq<char>>, i: int) -> bool
    decreases i,
{
    if i <= 0 {
        false
    } else {
        let l = lines[i - 1];
        if opens_rust_block(l) {
            true
        } else if is_fence(l) && in_rust_block(lines, i - 1) {
            false
        } else {
            in_rust_block(lines, i - 1)
        }
    }
}

/// Whether line `i` is an underline comment (`  //===`) inside a Rust code block.
pub open spec fn flagged(lines: Seq<Seq<char>>, i: int) -> bool {
    let l = lines[i];
    &&& in_rust_block(lines, i)
    &&& !opens_rust_block(l)
    &&& !is_fence(l)
    &&& contains_seq(l, "  //==="@)
}

/// The views of string slices.
pub open spec fn line_views(lines: Seq<&str>) -> Seq<Seq<char>> {
    lines.map_values(|l: &str| l@)
}

/// The indices, in order, of the lines inside Rust code blocks that hold an underline
/// comment (see `flagged`).
pub fn underlines_to_remove(lines: &[&str]) -> (r: Vec<usize>)
    ensures
        forall|k: int| 0 <= k < r@.len() ==> (#[trigger] r@[k]) < lines@.len() && flagged(line_views(lines@), r@[k] as int),
        forall|i: int| 0 <= i < lines@.len() && flagged(line_views(lines@), i) ==> r@.contains(i as usize),
        forall|a: int, b: int| 0 <= a < b < r@.len() ==> r@[a] < r@[b],
{
    let ghost ls = line_views(lines@);
    let mut out: Vec<usize> = Vec::new();
    let mut in_block = false;
    let mut i: usize = 0;
    proof {
        reveal_strlit("```rust");
        reveal_strlit("```");
        reveal_strlit("  //===");
    }
    while i < lines.len()
        invariant
            ls == line_views(lines@),
            i <= lines@.len(),
            in_block == in_rust_block(ls, i as int),
            forall|k: int| 0 <= k < out@.len() ==> (#[trigger] out@[k]) < i && flagged(ls, out@[k] as int),
            forall|j: int| 0 <= j < i && flagged(ls, j) ==> out@.contains(j as usize),
            forall|a: int, b: int| 0 <= a < b < out@.len() ==> out@[a] < out@[b],
        decreases lines@.len() - i,
    {
        let line = chars_of(lines[i]);
        let t = trim_chars(line.as_slice());
        assert(ls[i as int] == line@);
        let fence = chars_of("```");
        let ghost before = out@;
        if starts_with_str(t.as_slice(), "```rust") {
            in_block = true;
        } else if crate::text::chars_eq(t.as_slice(), fence.as_slice()) && in_block {
            in_block = false;
        } else {
            if in_block && contains_str(line.as_slice(), "  //===") {
                out.push(i);
            }
        }
        proof {
            assert forall|j: int| 0 <= j < i + 1 && flagged(ls, j) implies out@.contains(j as usize) by {
                if j == i {
                    assert(out@[out@.len() - 1] == i);
                } else {
                    assert(before.contains(j as usize));
                    let k = choose|k: int| 0 <= k < before.len() && before[k] == j as usize;
                    assert(out@[k] == j as usize);
                }
            }
        }
        i = i + 1;
    }
    out
}

/// The lines joined by newlines, with a newline after the last when `final_newline`.
pub open spec fn joined_lines(lines: Seq<Seq<char>>, final_newline: bool) -> Seq<char>
    decreases lines.len(),
{
    if lines.len() == 0 {
        if final_newline { seq!['\n'] } else { Seq::empty() }
    } else if lines.len() == 1 {
        if final_newline { lines[0].push('\n') } else { lines[0] }
    } else {
        lines[0] + seq!['\n'] + joined_lines(lines.drop_first(), final_newline)
    }
}

/// Rebuilds a document from its lines (see `joined_lines`).
pub fn rebuild_content(lines: &[&str], final_newline: bool) -> (r: String)
    ensures
        r@ == joined_lines(line_views(lines@), final_newline),
{
    let ghost ls = line_views(lines@);
    let n = lines.len();
    let mut v: Vec<char> = Vec::new();
    if n == 0 {
        if final_newline {
            v.push('\n');
        }
        return string_from_chars(v.as_slice());
    }
    let mut i: usize = 0;
    assert(ls.skip(0) =~= ls);
    while i < n
        invariant
            n == lines@.len(),
            n > 0,
            ls == line_views(lines@),
            i <= n,
            v@ + joined_lines(ls.skip(i as int), final_newline) == joined_lines(ls, final_newline),
            i < n,
        decreases n - i,
    {
        let ghost rest = ls.skip(i as int);
        let l = chars_of(lines[i]);
        append_chars(&mut v, l.as_slice());
        assert(rest[0] == l@);
        if i + 1 < n {
            v.push('\n');
            assert(rest.drop_first() =~= ls.skip(i + 1));
            assert(v@ + joined_lines(ls.skip(i + 1), final_newline) =~= joined_lines(ls, final_newline));
            i = i + 1;
        } else {
            if final_newline {
                v.push('\n');
            }
            assert(rest.len() == 1);
            assert(v@ =~= joined_lines(ls, final_newline));
            return string_from_chars(v.as_slice());
        }
    }
    string_from_chars(v.as_slice())
}

} // verus!
