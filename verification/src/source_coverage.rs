//! Line, branch and function coverage of Rust source text: finding functions and their
//! executable lines, finding branches, instrumenting the source with probes, and
//! reporting which lines, branches and functions the probes saw.
use vstd::prelude::*;
use crate::text::{chars_of, owned, split_lines, text_lines, string_from_chars, is_prefix_of, contains_seq,
    chars_eq};
use crate::tokens::{trimmed, trim_bounds, leading_ws};
use crate::interning::{is_ws, is_whitespace_char};
use crate::mutation::join_lines;
use crate::text::{append_str, append_chars, decimal, decimal_chars, byte_pos, byte_offset_of, push_char, str_eq,
    padded_decimal, append_padded, escape_angles, append_escaped};
use vstd::std_specs::hash::group_hash_axioms;
use std::collections::{HashMap, HashSet};
use crate::propgen::{starts_with_str, contains_str, sub_chars, find_char, index_of};

verus! {

/// A function found in the source: its name, first and last line, and the lines of its
/// executable statements.
#[derive(Debug, Clone)]
pub struct FunctionInfo {
    pub name: String,
    pub start_line: usize,
    pub end_line: usize,
    pub statements: Vec<usize>,
}

/// A function: name, first line, last line, statement lines.
pub type FnView = (Seq<char>, int, int, Seq<int>);

impl View for FunctionInfo {
    type V = FnView;

    open spec fn view(&self) -> FnView {
        (self.name@, self.start_line as int, self.end_line as int, self.statements@.map_values(|k: usize| k as int))
    }
}

/// A source file: its path, its lines and the functions found in them.
#[derive(Debug, Clone)]
pub struct SourceFile {
    pub path: String,
    pub lines: Vec<String>,
    pub functions: Vec<FunctionInfo>,
}

/// The lines of a list of strings.
pub open spec fn line_views(ls: Seq<String>) -> Seq<Seq<char>> {
    ls.map_values(|l: String| l@)
}

/// The functions of a list, as views.
pub open spec fn fn_views(fs: Seq<FunctionInfo>) -> Seq<FnView> {
    fs.map_values(|f: FunctionInfo| f@)
}

/// Whether a line holds an executable statement: once trimmed it is not empty, not a
/// comment, not a lone brace, not a function header and not an attribute.
pub open spec fn executable(line: Seq<char>) -> bool {
    let t = trimmed(line);
    &&& t.len() > 0
    &&& !is_prefix_of("//"@, t)
    &&& !is_prefix_of("/*"@, t)
    &&& !is_prefix_of("*"@, t)
    &&& !is_prefix_of("*/"@, t)
    &&& t != "{"@
    &&& t != "}"@
    &&& !is_prefix_of("fn "@, t)
    &&& !is_prefix_of("pub fn "@, t)
    &&& !is_prefix_of("#["@, t)
}

/// Which lines are statements: an attribute line (`#[...]` once trimmed), a comment line
/// and a blank line never are, and a line whose trimmed text starts with any other
/// character than `/`, `*`, `#`, a brace, `f` or `p` always is.
pub proof fn lemma_statement_lines(line: Seq<char>)
    ensures
        trimmed(line).len() >= 2 && trimmed(line)[0] == '#' && trimmed(line)[1] == '[' ==> !executable(line),
        trimmed(line).len() >= 2 && trimmed(line)[0] == '/' && trimmed(line)[1] == '/' ==> !executable(line),
        trimmed(line).len() == 0 ==> !executable(line),
        trimmed(line).len() > 0 && trimmed(line)[0] != '/' && trimmed(line)[0] != '*' && trimmed(line)[0] != '#'
            && trimmed(line)[0] != '{' && trimmed(line)[0] != '}' && trimmed(line)[0] != 'f' && trimmed(line)[0] != 'p'
            ==> executable(line),
{
    reveal_strlit("//");
    reveal_strlit("/*");
    reveal_strlit("*");
    reveal_strlit("*/");
    reveal_strlit("{");
    reveal_strlit("}");
    reveal_strlit("fn ");
    reveal_strlit("pub fn ");
    reveal_strlit("#[");
    let t = trimmed(line);
    if t.len() >= 2 && t[0] == '#' && t[1] == '[' {
        assert(t.subrange(0, 2) =~= "#["@);
    }
    if t.len() >= 2 && t[0] == '/' && t[1] == '/' {
        assert(t.subrange(0, 2) =~= "//"@);
    }
    if t.len() > 0 && t[0] != '/' && t[0] != '*' && t[0] != '#' && t[0] != '{' && t[0] != '}' && t[0] != 'f' && t[0] != 'p' {
        assert(!is_prefix_of("//"@, t)) by {
            if is_prefix_of("//"@, t) {
                assert(t.subrange(0, 2)[0] == t[0]);
            }
        }
        assert(!is_prefix_of("/*"@, t)) by {
            if is_prefix_of("/*"@, t) {
                assert(t.subrange(0, 2)[0] == t[0]);
            }
        }
        assert(!is_prefix_of("*"@, t)) by {
            if is_prefix_of("*"@, t) {
                assert(t.subrange(0, 1)[0] == t[0]);
            }
        }
        assert(!is_prefix_of("*/"@, t)) by {
            if is_prefix_of("*/"@, t) {
                assert(t.subrange(0, 2)[0] == t[0]);
            }
        }
        assert(!is_prefix_of("fn "@, t)) by {
            if is_prefix_of("fn "@, t) {
                assert(t.subrange(0, 3)[0] == t[0]);
            }
        }
        assert(!is_prefix_of("pub fn "@, t)) by {
            if is_prefix_of("pub fn "@, t) {
                assert(t.subrange(0, 7)[0] == t[0]);
            }
        }
        assert(!is_prefix_of("#["@, t)) by {
            if is_prefix_of("#["@, t) {
                assert(t.subrange(0, 2)[0] == t[0]);
            }
        }
        assert(t != "{"@) by {
            if t == "{"@ {
                assert(t[0] == '{');
            }
        }
        assert(t != "}"@) by {
            if t == "}"@ {
                assert(t[0] == '}');
            }
        }
    }
}

/// The executable lines among `lo..=hi`, in order.
pub open spec fn statements_in(ls: Seq<Seq<char>>, lo: int, hi: int) -> Seq<int>
    decreases hi - lo + 1,
{
    if hi < lo {
        Seq::empty()
    } else if executable(ls[hi]) {
        statements_in(ls, lo, hi - 1).push(hi)
    } else {
        statements_in(ls, lo, hi - 1)
    }
}

/// The number of times `c` occurs in `s`.
pub open spec fn count_of(s: Seq<char>, c: char) -> nat
    decreases s.len(),
{
    if s.len() == 0 {
        0
    } else {
        count_of(s.drop_last(), c) + if s.last() == c { 1nat } else { 0nat }
    }
}

/// A count never exceeds the length.
proof fn lemma_count_of_bound(s: Seq<char>, c: char)
    ensures
        count_of(s, c) <= s.len(),
    decreases s.len(),
{
    if s.len() > 0 {
        lemma_count_of_bound(s.drop_last(), c);
    }
}

/// The number of times `c` occurs in `s`.
fn count_char(s: &[char], c: char) -> (r: usize)
    ensures
        r == count_of(s@, c),
{
    let mut n: usize = 0;
    let mut i: usize = 0;
    while i < s.len()
        invariant
            i <= s@.len(),
            n == count_of(s@.subrange(0, i as int), c),
            n <= i,
        decreases s@.len() - i,
    {
        assert(s@.subrange(0, i + 1).drop_last() =~= s@.subrange(0, i as int));
        if s[i] == c {
            n = n + 1;
        }
        i = i + 1;
    }
    assert(s@.subrange(0, s@.len() as int) =~= s@);
    n
}

/// The total number of characters of the lines.
pub open spec fn total_chars(ls: Seq<Seq<char>>) -> nat
    decreases ls.len(),
{
    if ls.len() == 0 {
        0
    } else {
        total_chars(ls.drop_last()) + ls.last().len()
    }
}

/// The state of the function scan after some lines: the functions found, the brace
/// depth, whether a function is open, its first line and its name.
pub type ScanState = (Seq<FnView>, int, bool, int, Seq<char>);

/// The name in a trimmed function header `t` (which starts with `fn `): the trimmed
/// text between `fn ` and the first `(`, or `prev` when there is no `(`.
pub open spec fn header_name(t: Seq<char>, prev: Seq<char>) -> Seq<char> {
    let k = index_of(t, seq!['(']);
    if k >= 0 {
        trimmed(t.subrange(3, k))
    } else {
        prev
    }
}

/// The scan after line `i`: a line that starts (once trimmed) with `fn ` opens a function
/// when none is open; the depth moves by the line's opening and closing braces; an open
/// function closes on the line where the depth comes back to zero.
pub open spec fn scan_step(ls: Seq<Seq<char>>, i: int, st: ScanState) -> ScanState {
    let t = trimmed(ls[i]);
    let opens = is_prefix_of("fn "@, t) && !st.2;
    let in_fn = if opens { true } else { st.2 };
    let start = if opens { i } else { st.3 };
    let name = if opens { header_name(t, st.4) } else { st.4 };
    let depth = st.1 + count_of(ls[i], '{') - count_of(ls[i], '}');
    if in_fn && depth == 0 {
        (st.0.push((name, start, i, statements_in(ls, start, i))), depth, false, start, name)
    } else {
        (st.0, depth, in_fn, start, name)
    }
}

/// The scan after the first `n` lines.
pub open spec fn scan_lines(ls: Seq<Seq<char>>, n: int) -> ScanState
    decreases n,
{
    if n <= 0 {
        (Seq::empty(), 0, false, 0, Seq::empty())
    } else {
        scan_step(ls, n - 1, scan_lines(ls, n - 1))
    }
}

/// The functions found in the lines.
pub open spec fn functions_in(ls: Seq<Seq<char>>) -> Seq<FnView> {
    scan_lines(ls, ls.len() as int).0
}

/// The depth never moves further from zero than the characters scanned.
proof fn lemma_scan_depth(ls: Seq<Seq<char>>, n: int)
    requires
        0 <= n <= ls.len(),
    ensures
        -(total_chars(ls.subrange(0, n)) as int) <= scan_lines(ls, n).1 <= total_chars(ls.subrange(0, n)),
        scan_lines(ls, n).2 ==> 0 <= scan_lines(ls, n).3 < n,
    decreases n,
{
    if n > 0 {
        lemma_scan_depth(ls, n - 1);
        assert(ls.subrange(0, n).drop_last() =~= ls.subrange(0, n - 1));
        lemma_count_of_bound(ls[n - 1], '{');
        lemma_count_of_bound(ls[n - 1], '}');
    }
}

/// The total of a prefix is at most the total.
proof fn lemma_total_prefix(ls: Seq<Seq<char>>, n: int)
    requires
        0 <= n <= ls.len(),
    ensures
        total_chars(ls.subrange(0, n)) <= total_chars(ls),
    decreases ls.len() - n,
{
    if n < ls.len() {
        lemma_total_prefix(ls, n + 1);
        assert(ls.subrange(0, n + 1).drop_last() =~= ls.subrange(0, n));
    } else {
        assert(ls.subrange(0, n) =~= ls);
    }
}

impl SourceFile {
    /// Whether a line holds an executable statement.
    pub fn is_executable(line: &str) -> (r: bool)
        ensures
            r == executable(line@),
            trimmed(line@).len() >= 2 && trimmed(line@)[0] == '#' && trimmed(line@)[1] == '[' ==> !r,
    {
        proof {
            lemma_statement_lines(line@);
        }
        let cs = chars_of(line);
        let n = cs.len();
        let (a, b) = trim_bounds(cs.as_slice(), 0, n);
        assert(cs@.subrange(0, n as int) =~= line@);
        let t = sub_chars(cs.as_slice(), a, b);
        let brace_open = chars_of("{");
        let brace_close = chars_of("}");
        t.len() > 0 && !starts_with_str(t.as_slice(), "//") && !starts_with_str(t.as_slice(), "/*")
            && !starts_with_str(t.as_slice(), "*") && !starts_with_str(t.as_slice(), "*/") && !chars_eq(
            t.as_slice(),
            brace_open.as_slice(),
        ) && !chars_eq(t.as_slice(), brace_close.as_slice()) && !starts_with_str(t.as_slice(), "fn ")
            && !starts_with_str(t.as_slice(), "pub fn ") && !starts_with_str(t.as_slice(), "#[")
    }

    /// The executable lines among `start..=end`.
    pub fn find_statements(&self, start: usize, end: usize) -> (r: Vec<usize>)
        requires
            end < self.lines@.len(),
        ensures
            r@.map_values(|k: usize| k as int) == statements_in(line_views(self.lines@), start as int, end as int),
    {
        let ghost ls = line_views(self.lines@);
        let mut out: Vec<usize> = Vec::new();
        if end < start {
            assert(out@.map_values(|k: usize| k as int) =~= Seq::<int>::empty());
            return out;
        }
        let nl = self.lines.len();
        let mut i = start;
        assert(out@.map_values(|k: usize| k as int) =~= statements_in(ls, start as int, start - 1));
        while i <= end
            invariant
                ls == line_views(self.lines@),
                start <= i <= end + 1,
                end < nl,
                nl == self.lines@.len(),
                out@.map_values(|k: usize| k as int) == statements_in(ls, start as int, i - 1),
            decreases end + 1 - i,
        {
            let ghost before = out@;
            assert(ls[i as int] == self.lines@[i as int]@);
            if Self::is_executable(self.lines[i].as_str()) {
                out.push(i);
                assert(out@.map_values(|k: usize| k as int) =~= before.map_values(|k: usize| k as int).push(
                    i as int,
                ));
            }
            i = i + 1;
        }
        out
    }

    /// The functions of the file, in the order they close.
    fn find_functions(&self) -> (r: Vec<FunctionInfo>)
        requires
            total_chars(line_views(self.lines@)) <= i32::MAX,
        ensures
            fn_views(r@) == functions_in(line_views(self.lines@)),
    {
        let ghost ls = line_views(self.lines@);
        let n = self.lines.len();
        let mut functions: Vec<FunctionInfo> = Vec::new();
        let mut depth: i64 = 0;
        let mut in_function = false;
        let mut func_start: usize = 0;
        let mut func_name: Vec<char> = Vec::new();
        let mut i: usize = 0;
        assert(fn_views(functions@) =~= Seq::<FnView>::empty());
        assert(func_name@ =~= Seq::<char>::empty());
        while i < n
            invariant
                ls == line_views(self.lines@),
                n == ls.len(),
                total_chars(ls) <= i32::MAX,
                i <= n,
                scan_lines(ls, i as int) == (fn_views(functions@), depth as int, in_function, func_start as int, func_name@),
            decreases n - i,
        {
            proof {
                lemma_scan_depth(ls, i as int);
                lemma_total_prefix(ls, i + 1);
                lemma_total_prefix(ls, i as int);
                assert(ls.subrange(0, i + 1).drop_last() =~= ls.subrange(0, i as int));
                lemma_count_of_bound(ls[i as int], '{');
                lemma_count_of_bound(ls[i as int], '}');
            }
            let line = self.lines[i].as_str();
            let cs = chars_of(line);
            let len = cs.len();
            let (a, b) = trim_bounds(cs.as_slice(), 0, len);
            assert(cs@.subrange(0, len as int) =~= line@);
            let t = sub_chars(cs.as_slice(), a, b);
            if starts_with_str(t.as_slice(), "fn ") && !in_function {
                in_function = true;
                func_start = i;
                match find_char(t.as_slice(), '(') {
                    Some(k) => {
                        proof {
                            reveal_strlit("fn ");
                            assert("fn "@.len() == 3);
                            assert(t@.subrange(0, 3) == "fn "@);
                            assert(t@.subrange(0, 3)[0] == 'f');
                            assert(t@.subrange(0, 3)[1] == 'n');
                            assert(t@.subrange(0, 3)[2] == ' ');
                            assert(t@[0] == 'f' && t@[1] == 'n' && t@[2] == ' ');
                        }
                        let (p, q) = trim_bounds(t.as_slice(), 3, k);
                        func_name = sub_chars(t.as_slice(), p, q);
                    },
                    None => {},
                }
            }
            let opens = count_char(cs.as_slice(), '{');
            let closes = count_char(cs.as_slice(), '}');
            depth = depth + opens as i64;
            depth = depth - closes as i64;
            if in_function && depth == 0 {
                let statements = self.find_statements(func_start, i);
                let ghost before = functions@;
                let f = FunctionInfo {
                    name: string_from_chars(func_name.as_slice()),
                    start_line: func_start,
                    end_line: i,
                    statements,
                };
                functions.push(f);
                assert(fn_views(functions@) =~= fn_views(before).push(f@));
                in_function = false;
            }
            i = i + 1;
        }
        functions
    }

    /// A source file from its path and text: the text is split into lines (as
    /// `str::lines` does) and its functions are found.
    pub fn from_source(path: &str, content: &str) -> (r: Self)
        requires
            total_chars(text_lines(content@)) <= i32::MAX,
        ensures
            r.path@ == path@,
            line_views(r.lines@) == text_lines(content@),
            fn_views(r.functions@) == functions_in(text_lines(content@)),
    {
        let pieces = split_lines(content);
        let mut lines: Vec<String> = Vec::new();
        let mut i: usize = 0;
        while i < pieces.len()
            invariant
                i <= pieces@.len(),
                line_views(lines@) == pieces@.map_values(|l: &str| l@).subrange(0, i as int),
            decreases pieces@.len() - i,
        {
            let ghost before = lines@;
            lines.push(owned(pieces[i]));
            assert(line_views(lines@) =~= line_views(before).push(pieces@[i as int]@));
            assert(pieces@.map_values(|l: &str| l@).subrange(0, i + 1) =~= pieces@.map_values(
                |l: &str| l@,
            ).subrange(0, i as int).push(pieces@[i as int]@));
            i = i + 1;
        }
        assert(pieces@.map_values(|l: &str| l@).subrange(0, pieces@.len() as int) =~= pieces@.map_values(
            |l: &str| l@,
        ));
        let mut source = SourceFile { path: owned(path), lines, functions: Vec::new() };
        source.functions = source.find_functions();
        source
    }
}

/// Which way a branch goes.
#[derive(Debug, Clone, Copy, PartialEq, Eq, Structural)]
pub enum BranchKind {
    IfTrue,
    IfFalse,
    MatchArm(usize),
}

/// A branch of the source: its line, its id, its kind and whether it was taken.
#[derive(Debug, Clone, Copy, PartialEq, Eq, Structural)]
pub struct Branch {
    pub line: usize,
    pub branch_id: usize,
    pub kind: BranchKind,
    pub taken: bool,
}

/// Whether a trimmed line holds an `if`.
pub open spec fn if_line(t: Seq<char>) -> bool {
    is_prefix_of("if "@, t) || contains_seq(t, " if "@)
}

/// Whether a trimmed line starts a `match`.
pub open spec fn match_line(t: Seq<char>) -> bool {
    is_prefix_of("match "@, t)
}

/// The branches of the first `n` lines, with ids from `first` on, and the next free id:
/// an `if` line gives a true and a false branch, a `match` line one arm.
pub open spec fn branches_from(ls: Seq<Seq<char>>, n: int, first: nat) -> (Seq<Branch>, nat)
    decreases n,
{
    if n <= 0 {
        (Seq::empty(), first)
    } else {
        let (bs, next) = branches_from(ls, n - 1, first);
        let i = n - 1;
        let t = trimmed(ls[i]);
        let (bs1, next1) = if if_line(t) {
            (
                bs.push(Branch { line: i as usize, branch_id: next as usize, kind: BranchKind::IfTrue, taken: false }).push(
                    Branch { line: i as usize, branch_id: (next + 1) as usize, kind: BranchKind::IfFalse, taken: false },
                ),
                next + 2,
            )
        } else {
            (bs, next)
        };
        if match_line(t) {
            (
                bs1.push(Branch { line: i as usize, branch_id: next1 as usize, kind: BranchKind::MatchArm(0), taken: false }),
                next1 + 1,
            )
        } else {
            (bs1, next1)
        }
    }
}

/// Ids grow by at most three per line.
proof fn lemma_branches_next(ls: Seq<Seq<char>>, n: int, first: nat)
    requires
        0 <= n,
    ensures
        first <= branches_from(ls, n, first).1 <= first + 3 * n,
    decreases n,
{
    if n > 0 {
        lemma_branches_next(ls, n - 1, first);
    }
}

/// Hands out branch ids and turns source into instrumented source.
pub struct Instrumentor {
    next_branch_id: usize,
}

/// The number of leading white-space bytes of a line (its length minus that of
/// `trim_start`).
pub open spec fn indent_bytes(line: Seq<char>) -> nat {
    byte_pos(line, leading_ws(line) as int)
}

/// `n` spaces.
pub open spec fn spaces(n: nat) -> Seq<char> {
    Seq::new(n, |i: int| ' ')
}

/// The probe line put before line `i`: the line's indentation, then `record_line(i);`.
pub open spec fn probe_line(line: Seq<char>, i: nat) -> Seq<char> {
    spaces(indent_bytes(line)) + "record_line("@ + decimal(i) + ");"@
}

/// Whether line `i` is a statement of one of the functions.
pub open spec fn statement_line(fs: Seq<FnView>, i: int) -> bool {
    exists|f: int| 0 <= f < fs.len() && (#[trigger] fs[f]).3.contains(i)
}

/// The instrumented lines for the first `n` lines: each statement line preceded by its
/// probe.
pub open spec fn instrumented_lines(ls: Seq<Seq<char>>, fs: Seq<FnView>, n: int) -> Seq<Seq<char>>
    decreases n,
{
    if n <= 0 {
        Seq::empty()
    } else {
        let i = n - 1;
        let p = instrumented_lines(ls, fs, n - 1);
        (if statement_line(fs, i) { p.push(probe_line(ls[i], i as nat)) } else { p }).push(ls[i])
    }
}

/// The map from the first instrumented line written for each source line (its probe, if
/// it has one) to that source line.
pub open spec fn line_map(ls: Seq<Seq<char>>, fs: Seq<FnView>, n: int) -> Map<usize, usize>
    decreases n,
{
    if n <= 0 {
        Map::empty()
    } else {
        line_map(ls, fs, n - 1).insert(instrumented_lines(ls, fs, n - 1).len() as usize, (n - 1) as usize)
    }
}

/// Instrumented lines are at most two per source line.
proof fn lemma_instrumented_len(ls: Seq<Seq<char>>, fs: Seq<FnView>, n: int)
    requires
        0 <= n,
    ensures
        instrumented_lines(ls, fs, n).len() <= 2 * n,
    decreases n,
{
    if n > 0 {
        lemma_instrumented_len(ls, fs, n - 1);
    }
}

/// The number of leading white-space bytes of a line.
fn indent_of(line: &str) -> (r: usize)
    ensures
        r == indent_bytes(line@),
{
    let cs = chars_of(line);
    let mut k: usize = 0;
    assert(line@.subrange(0, line@.len() as int) =~= line@);
    while k < cs.len() && is_whitespace_char(cs[k])
        invariant
            cs@ == line@,
            k <= cs@.len(),
            leading_ws(line@) == k + leading_ws(line@.subrange(k as int, line@.len() as int)),
        decreases cs@.len() - k,
    {
        assert(line@.subrange(k as int, line@.len() as int).drop_first() =~= line@.subrange(k + 1, line@.len() as int));
        k = k + 1;
    }
    proof {
        if k < cs@.len() {
            assert(line@.subrange(k as int, line@.len() as int)[0] == line@[k as int]);
        }
        assert(line@.subrange(0, line@.len() as int) =~= line@);
        assert(line@.subrange(0, line@.len() as int) == line@);
    }
    assert(leading_ws(line@.subrange(0, line@.len() as int)) == leading_ws(line@));
    byte_offset_of(cs.as_slice(), k)
}

/// Appends `n` spaces.
fn append_spaces(dst: &mut Vec<char>, n: usize)
    ensures
        final(dst)@ == old(dst)@ + spaces(n as nat),
{
    let mut k: usize = 0;
    while k < n
        invariant
            k <= n,
            dst@ == old(dst)@ + spaces(k as nat),
        decreases n - k,
    {
        dst.push(' ');
        k = k + 1;
        assert(dst@ =~= old(dst)@ + spaces(k as nat));
    }
}

/// Source code with its probes, where each instrumented line came from, and its branches.
pub struct InstrumentedCode {
    pub original: SourceFile,
    pub instrumented: String,
    pub line_mapping: HashMap<usize, usize>,
    pub branches: Vec<Branch>,
}

impl FunctionInfo {
    /// A copy of the function.
    pub fn copy(&self) -> (r: FunctionInfo)
        ensures
            r@ == self@,
    {
        let mut statements: Vec<usize> = Vec::new();
        let mut i: usize = 0;
        while i < self.statements.len()
            invariant
                i <= self.statements@.len(),
                statements@ == self.statements@.subrange(0, i as int),
            decreases self.statements@.len() - i,
        {
            statements.push(self.statements[i]);
            i = i + 1;
            assert(statements@ =~= self.statements@.subrange(0, i as int));
        }
        assert(statements@ =~= self.statements@);
        FunctionInfo { name: self.name.clone(), start_line: self.start_line, end_line: self.end_line, statements }
    }
}

impl SourceFile {
    /// A copy of the file.
    pub fn copy(&self) -> (r: SourceFile)
        ensures
            r.path@ == self.path@,
            line_views(r.lines@) == line_views(self.lines@),
            fn_views(r.functions@) == fn_views(self.functions@),
    {
        let mut lines: Vec<String> = Vec::new();
        let mut i: usize = 0;
        while i < self.lines.len()
            invariant
                i <= self.lines@.len(),
                line_views(lines@) == line_views(self.lines@).subrange(0, i as int),
            decreases self.lines@.len() - i,
        {
            let ghost before = lines@;
            let c = self.lines[i].clone();
            assert(c@ == self.lines@[i as int]@);
            lines.push(c);
            assert(line_views(lines@) =~= line_views(before).push(self.lines@[i as int]@));
            assert(line_views(lines@) =~= line_views(self.lines@).subrange(0, i + 1));
            i = i + 1;
        }
        let mut functions: Vec<FunctionInfo> = Vec::new();
        let mut j: usize = 0;
        while j < self.functions.len()
            invariant
                j <= self.functions@.len(),
                fn_views(functions@) == fn_views(self.functions@).subrange(0, j as int),
            decreases self.functions@.len() - j,
        {
            let ghost before = functions@;
            let c = self.functions[j].copy();
            functions.push(c);
            assert(fn_views(functions@) =~= fn_views(before).push(self.functions@[j as int]@));
            assert(fn_views(functions@) =~= fn_views(self.functions@).subrange(0, j + 1));
            j = j + 1;
        }
        assert(line_views(lines@) =~= line_views(self.lines@));
        assert(fn_views(functions@) =~= fn_views(self.functions@));
        SourceFile { path: self.path.clone(), lines, functions }
    }
}

/// Whether `i` is a statement line of one of the functions.
fn is_statement_line(fs: &Vec<FunctionInfo>, i: usize) -> (r: bool)
    ensures
        r == statement_line(fn_views(fs@), i as int),
{
    let ghost fv = fn_views(fs@);
    let mut f: usize = 0;
    while f < fs.len()
        invariant
            fv == fn_views(fs@),
            f <= fs@.len(),
            forall|g: int| 0 <= g < f ==> !(#[trigger] fv[g]).3.contains(i as int),
        decreases fs@.len() - f,
    {
        let st = &fs[f].statements;
        let mut k: usize = 0;
        while k < st.len()
            invariant
                fv == fn_views(fs@),
                f < fs@.len(),
                st@ == fs@[f as int].statements@,
                k <= st@.len(),
                forall|m: int| 0 <= m < k ==> st@[m] != i,
            decreases st@.len() - k,
        {
            if st[k] == i {
                assert(fv[f as int].3[k as int] == i as int);
                assert(fv[f as int].3.contains(i as int));
                return true;
            }
            k = k + 1;
        }
        assert(!fv[f as int].3.contains(i as int)) by {
            if fv[f as int].3.contains(i as int) {
                let m = choose|m: int| #![auto] 0 <= m < fv[f as int].3.len() && fv[f as int].3[m] == i as int;
                assert(st@[m] == i);
            }
        }
        f = f + 1;
    }
    false
}

impl Instrumentor {
    /// The next branch id to hand out.
    pub closed spec fn next_id(&self) -> nat {
        self.next_branch_id as nat
    }

    /// An instrumentor that has handed out no branch id.
    pub fn new() -> (r: Self)
        ensures
            r.next_id() == 0,
    {
        Instrumentor { next_branch_id: 0 }
    }

    /// The next branch id to hand out (the number handed out so far).
    pub fn next_branch_id(&self) -> (r: usize)
        ensures
            r == self.next_id(),
    {
        self.next_branch_id
    }

    /// The branches of the source, numbered from the next free id on.
    pub fn find_branches(&mut self, source: &SourceFile) -> (r: Vec<Branch>)
        requires
            old(self).next_id() + 3 * source.lines@.len() <= usize::MAX,
        ensures
            (r@, final(self).next_id()) == branches_from(
                line_views(source.lines@),
                source.lines@.len() as int,
                old(self).next_id(),
            ),
    {
        let ghost ls = line_views(source.lines@);
        let ghost first = self.next_branch_id as nat;
        let mut branches: Vec<Branch> = Vec::new();
        let mut i: usize = 0;
        while i < source.lines.len()
            invariant
                ls == line_views(source.lines@),
                first + 3 * ls.len() <= usize::MAX,
                i <= ls.len(),
                (branches@, self.next_branch_id as nat) == branches_from(ls, i as int, first),
            decreases ls.len() - i,
        {
            proof {
                lemma_branches_next(ls, i as int, first);
            }
            let line = source.lines[i].as_str();
            let cs = chars_of(line);
            let len = cs.len();
            let (a, b) = trim_bounds(cs.as_slice(), 0, len);
            assert(cs@.subrange(0, len as int) =~= line@);
            let t = sub_chars(cs.as_slice(), a, b);
            if starts_with_str(t.as_slice(), "if ") || contains_str(t.as_slice(), " if ") {
                let true_id = self.next_branch_id;
                self.next_branch_id = self.next_branch_id + 1;
                let false_id = self.next_branch_id;
                self.next_branch_id = self.next_branch_id + 1;
                branches.push(Branch { line: i, branch_id: true_id, kind: BranchKind::IfTrue, taken: false });
                branches.push(Branch { line: i, branch_id: false_id, kind: BranchKind::IfFalse, taken: false });
            }
            if starts_with_str(t.as_slice(), "match ") {
                let arm_id = self.next_branch_id;
                self.next_branch_id = self.next_branch_id + 1;
                branches.push(Branch { line: i, branch_id: arm_id, kind: BranchKind::MatchArm(0), taken: false });
            }
            i = i + 1;
        }
        branches
    }

    /// The probe line for line `line_num`: the line's indentation, `record_line(n);`, a
    /// space and the trimmed line.
    pub fn inject_probe(line: &str, line_num: usize) -> (r: String)
        ensures
            r@ == spaces(indent_bytes(line@)) + "record_line("@ + decimal(line_num as nat) + "); "@ + trimmed(line@),
    {
        let mut out: Vec<char> = Vec::new();
        append_spaces(&mut out, indent_of(line));
        append_str(&mut out, "record_line(");
        let d = decimal_chars(line_num as u64);
        append_chars(&mut out, d.as_slice());
        append_str(&mut out, "); ");
        let cs = chars_of(line);
        let n = cs.len();
        let (a, b) = trim_bounds(cs.as_slice(), 0, n);
        assert(cs@.subrange(0, n as int) =~= line@);
        let t = sub_chars(cs.as_slice(), a, b);
        append_chars(&mut out, t.as_slice());
        string_from_chars(out.as_slice())
    }

    /// Instruments the source: a probe before each statement line, the lines joined with
    /// line feeds, the map from instrumented lines back to source lines, and the
    /// branches (which take the next ids).
    pub fn instrument(&mut self, source: &SourceFile) -> (r: InstrumentedCode)
        requires
            old(self).next_id() + 3 * source.lines@.len() <= usize::MAX,
        ensures
            (r.branches@, final(self).next_id()) == branches_from(
                line_views(source.lines@),
                source.lines@.len() as int,
                old(self).next_id(),
            ),
            r.instrumented@ == join_lines(
                instrumented_lines(line_views(source.lines@), fn_views(source.functions@), source.lines@.len() as int),
            ),
            r.line_mapping@ == line_map(line_views(source.lines@), fn_views(source.functions@), source.lines@.len() as int),
            line_views(r.original.lines@) == line_views(source.lines@),
            fn_views(r.original.functions@) == fn_views(source.functions@),
            r.original.path@ == source.path@,
    {
        broadcast use group_hash_axioms;

        let branches = self.find_branches(source);
        let ghost ls = line_views(source.lines@);
        let ghost fs = fn_views(source.functions@);
        let n = source.lines.len();
        let mut out: Vec<Vec<char>> = Vec::new();
        let mut line_mapping: HashMap<usize, usize> = HashMap::new();
        let mut i: usize = 0;
        assert(out@.map_values(|l: Vec<char>| l@) =~= instrumented_lines(ls, fs, 0));
        assert(line_mapping@ =~= line_map(ls, fs, 0));
        while i < n
            invariant
                ls == line_views(source.lines@),
                fs == fn_views(source.functions@),
                n == ls.len(),
                i <= n,
                out@.map_values(|l: Vec<char>| l@) == instrumented_lines(ls, fs, i as int),
                line_mapping@ == line_map(ls, fs, i as int),
                out@.len() <= 2 * i,
            decreases n - i,
        {
            proof {
                lemma_instrumented_len(ls, fs, i as int);
            }
            let ghost before = out@.map_values(|l: Vec<char>| l@);
            let current = out.len();
            line_mapping.insert(current, i);
            let line = source.lines[i].as_str();
            if is_statement_line(&source.functions, i) {
                let mut probe: Vec<char> = Vec::new();
                append_spaces(&mut probe, indent_of(line));
                append_str(&mut probe, "record_line(");
                let d = decimal_chars(i as u64);
                append_chars(&mut probe, d.as_slice());
                append_str(&mut probe, ");");
                out.push(probe);
            }
            let copy = chars_of(line);
            out.push(copy);
            assert(out@.map_values(|l: Vec<char>| l@) =~= instrumented_lines(ls, fs, i + 1));
            i = i + 1;
        }
        let ghost lines_view = out@.map_values(|l: Vec<char>| l@);
        let mut text: Vec<char> = Vec::new();
        let mut k: usize = 0;
        assert(lines_view.subrange(0, 0) =~= Seq::<Seq<char>>::empty());
        while k < out.len()
            invariant
                lines_view == out@.map_values(|l: Vec<char>| l@),
                k <= out@.len(),
                text@ == join_lines(lines_view.subrange(0, k as int)),
            decreases out@.len() - k,
        {
            let ghost before = text@;
            if k > 0 {
                text.push('\n');
            }
            append_chars(&mut text, out[k].as_slice());
            assert(lines_view.subrange(0, k + 1).drop_last() =~= lines_view.subrange(0, k as int));
            assert(text@ =~= join_lines(lines_view.subrange(0, k + 1)));
            k = k + 1;
        }
        assert(lines_view.subrange(0, out@.len() as int) =~= lines_view);
        InstrumentedCode {
            original: source.copy(),
            instrumented: string_from_chars(text.as_slice()),
            line_mapping,
            branches,
        }
    }

    /// One `record_branch(id);` line for each branch.
    pub fn instrument_branches(&mut self, branches: &[Branch]) -> (r: String)
        ensures
            r@ == branch_probes(branches@),
            final(self).next_id() == old(self).next_id(),
    {
        let mut out: Vec<char> = Vec::new();
        let mut i: usize = 0;
        while i < branches.len()
            invariant
                i <= branches@.len(),
                out@ == branch_probes(branches@.subrange(0, i as int)),
            decreases branches@.len() - i,
        {
            assert(branches@.subrange(0, i + 1).drop_last() =~= branches@.subrange(0, i as int));
            append_str(&mut out, "record_branch(");
            let d = decimal_chars(branches[i].branch_id as u64);
            append_chars(&mut out, d.as_slice());
            append_str(&mut out, ");\n");
            assert(out@ =~= branch_probes(branches@.subrange(0, i + 1)));
            i = i + 1;
        }
        assert(branches@.subrange(0, branches@.len() as int) =~= branches@);
        string_from_chars(out.as_slice())
    }
}

/// The probe lines of the branches.
pub open spec fn branch_probes(bs: Seq<Branch>) -> Seq<char>
    decreases bs.len(),
{
    if bs.len() == 0 {
        Seq::empty()
    } else {
        branch_probes(bs.drop_last()) + "record_branch("@ + decimal(bs.last().branch_id as nat) + ");\n"@
    }
}

/// A coverage report: the source, whether each statement line was seen, which branches
/// were taken, and whether each function (by name) had a statement seen.
pub struct CoverageReport {
    pub source: SourceFile,
    pub line_coverage: HashMap<usize, bool>,
    pub branch_coverage: Vec<Branch>,
    pub function_coverage: Vec<(String, bool)>,
}

/// Each statement line of the functions, mapped to whether it was seen.
pub open spec fn stmt_map(fs: Seq<FnView>, cov: Set<usize>) -> Map<usize, bool> {
    Map::new(|k: usize| statement_line(fs, k as int), |k: usize| cov.contains(k))
}

/// The branches with `taken` set from the ids that were seen.
pub open spec fn marked(bs: Seq<Branch>, taken: Set<usize>) -> Seq<Branch> {
    bs.map_values(|b: Branch| Branch { line: b.line, branch_id: b.branch_id, kind: b.kind, taken: taken.contains(b.branch_id) })
}

/// Whether one of the function's statement lines was seen.
pub open spec fn fn_covered(f: FnView, cov: Set<usize>) -> bool {
    exists|j: int| 0 <= j < f.3.len() && cov.contains(#[trigger] f.3[j] as usize)
}

/// The first index of an entry named `n`, or -1.
pub open spec fn name_index(p: Seq<(Seq<char>, bool)>, n: Seq<char>) -> int
    decreases p.len(),
{
    if p.len() == 0 {
        -1
    } else {
        let k = name_index(p.drop_last(), n);
        if k >= 0 {
            k
        } else if p.last().0 == n {
            p.len() - 1
        } else {
            -1
        }
    }
}

/// Function coverage by name: each name once, in order of first appearance, with the
/// coverage of the last function of that name.
pub open spec fn fn_coverage(fs: Seq<FnView>, cov: Set<usize>) -> Seq<(Seq<char>, bool)>
    decreases fs.len(),
{
    if fs.len() == 0 {
        Seq::empty()
    } else {
        let p = fn_coverage(fs.drop_last(), cov);
        let f = fs.last();
        let k = name_index(p, f.0);
        if k >= 0 {
            p.update(k, (f.0, fn_covered(f, cov)))
        } else {
            p.push((f.0, fn_covered(f, cov)))
        }
    }
}

/// `name_index` finds the first entry with the name.
proof fn lemma_name_index(p: Seq<(Seq<char>, bool)>, n: Seq<char>)
    ensures
        -1 <= name_index(p, n) < p.len(),
        name_index(p, n) >= 0 ==> p[name_index(p, n)].0 == n,
        forall|i: int| 0 <= i < p.len() && (name_index(p, n) == -1 || i < name_index(p, n)) ==> (#[trigger] p[i]).0 != n,
    decreases p.len(),
{
    if p.len() > 0 {
        lemma_name_index(p.drop_last(), n);
        assert forall|i: int| 0 <= i < p.len() - 1 implies #[trigger] p[i] == p.drop_last()[i] by {}
    }
}

/// Where an entry named `name` is.
fn find_name(entries: &Vec<(String, bool)>, name: &str) -> (r: Option<usize>)
    ensures
        r matches Some(k) ==> k as int == name_index(entries@.map_values(|e: (String, bool)| (e.0@, e.1)), name@),
        r is None ==> name_index(entries@.map_values(|e: (String, bool)| (e.0@, e.1)), name@) == -1,
{
    let ghost p = entries@.map_values(|e: (String, bool)| (e.0@, e.1));
    proof {
        lemma_name_index(p, name@);
    }
    let mut i: usize = 0;
    while i < entries.len()
        invariant
            p == entries@.map_values(|e: (String, bool)| (e.0@, e.1)),
            i <= entries@.len(),
            forall|j: int| 0 <= j < i ==> (#[trigger] p[j]).0 != name@,
        decreases entries@.len() - i,
    {
        if str_eq(entries[i].0.as_str(), name) {
            assert(p[i as int].0 == name@);
            proof {
                lemma_name_index(p, name@);
            }
            return Some(i);
        }
        i = i + 1;
    }
    None
}

/// Whether one of the statement lines was seen.
fn any_covered(statements: &Vec<usize>, coverage: &HashSet<usize>) -> (r: bool)
    ensures
        r == (exists|j: int| 0 <= j < statements@.len() && coverage@.contains(#[trigger] statements@[j])),
{
    broadcast use group_hash_axioms;

    let mut j: usize = 0;
    while j < statements.len()
        invariant
            j <= statements@.len(),
            forall|m: int| 0 <= m < j ==> !coverage@.contains(#[trigger] statements@[m]),
        decreases statements@.len() - j,
    {
        if coverage.contains(&statements[j]) {
            return true;
        }
        j = j + 1;
    }
    false
}

/// Whether `k` is a statement line of one of the first `f` functions.
pub open spec fn in_first(fs: Seq<FnView>, f: int, k: int) -> bool {
    exists|g: int| 0 <= g < f && (#[trigger] fs[g]).3.contains(k)
}

impl CoverageReport {
    /// The report for a source, the statement lines seen and the branch ids seen: each
    /// statement line with whether it was seen, the branches marked, and each function
    /// name with whether one of its statements was seen.
    pub fn new(
        source: SourceFile,
        coverage: &HashSet<usize>,
        branches: Vec<Branch>,
        taken_branches: &HashSet<usize>,
    ) -> (r: Self)
        ensures
            line_views(r.source.lines@) == line_views(source.lines@),
            fn_views(r.source.functions@) == fn_views(source.functions@),
            r.line_coverage@ == stmt_map(fn_views(source.functions@), coverage@),
            r.branch_coverage@ == marked(branches@, taken_branches@),
            r.function_coverage@.map_values(|e: (String, bool)| (e.0@, e.1)) == fn_coverage(
                fn_views(source.functions@),
                coverage@,
            ),
    {
        broadcast use group_hash_axioms;

        let ghost fs = fn_views(source.functions@);
        let ghost cov = coverage@;
        let mut line_coverage: HashMap<usize, bool> = HashMap::new();
        let mut f: usize = 0;
        assert(line_coverage@ =~= Map::new(|k: usize| in_first(fs, 0, k as int), |k: usize| cov.contains(k)));
        while f < source.functions.len()
            invariant
                fs == fn_views(source.functions@),
                cov == coverage@,
                f <= fs.len(),
                line_coverage@ == Map::new(|k: usize| in_first(fs, f as int, k as int), |k: usize| cov.contains(k)),
            decreases fs.len() - f,
        {
            let st = &source.functions[f].statements;
            let mut j: usize = 0;
            while j < st.len()
                invariant
                    fs == fn_views(source.functions@),
                    cov == coverage@,
                    f < fs.len(),
                    st@ == source.functions@[f as int].statements@,
                    j <= st@.len(),
                    line_coverage@ == Map::new(
                        |k: usize| in_first(fs, f as int, k as int) || st@.subrange(0, j as int).contains(k),
                        |k: usize| cov.contains(k),
                    ),
                decreases st@.len() - j,
            {
                let line_num = st[j];
                let seen = coverage.contains(&line_num);
                line_coverage.insert(line_num, seen);
                let ghost s1 = st@.subrange(0, j + 1);
                let ghost s0 = st@.subrange(0, j as int);
                assert(s1 =~= s0.push(line_num));
                assert forall|k: usize| #[trigger] s1.contains(k) == (s0.contains(k) || k == line_num) by {
                    if s1.contains(k) {
                        let m = choose|m: int| 0 <= m < s1.len() && #[trigger] s1[m] == k;
                        if m < j {
                            assert(s0[m] == k);
                        }
                    }
                    if s0.contains(k) {
                        let m = choose|m: int| 0 <= m < s0.len() && #[trigger] s0[m] == k;
                        assert(s1[m] == k);
                    }
                    if k == line_num {
                        assert(s1[j as int] == k);
                    }
                }
                assert(line_coverage@ =~= Map::new(
                    |k: usize| in_first(fs, f as int, k as int) || st@.subrange(0, j + 1).contains(k),
                    |k: usize| cov.contains(k),
                ));
                j = j + 1;
            }
            assert(st@.subrange(0, st@.len() as int) =~= st@);
            assert forall|k: usize| #[trigger] in_first(fs, f + 1, k as int) == (in_first(fs, f as int, k as int) || st@.contains(k)) by {
                if st@.contains(k) {
                    let m = choose|m: int| #![auto] 0 <= m < st@.len() && st@[m] == k;
                    assert(fs[f as int].3[m] == k as int);
                    assert(fs[f as int].3.contains(k as int));
                }
                if fs[f as int].3.contains(k as int) {
                    let m = choose|m: int| #![auto] 0 <= m < fs[f as int].3.len() && fs[f as int].3[m] == k as int;
                    assert(st@[m] == k);
                }
                if in_first(fs, f + 1, k as int) && !in_first(fs, f as int, k as int) {
                    let g = choose|g: int| 0 <= g < f + 1 && (#[trigger] fs[g]).3.contains(k as int);
                    assert(g == f);
                }
                if in_first(fs, f as int, k as int) {
                    let g = choose|g: int| 0 <= g < f && (#[trigger] fs[g]).3.contains(k as int);
                    assert(0 <= g < f + 1 && fs[g].3.contains(k as int));
                }
            }
            assert(line_coverage@ =~= Map::new(|k: usize| in_first(fs, f + 1, k as int), |k: usize| cov.contains(k)));
            f = f + 1;
        }
        assert(line_coverage@ =~= stmt_map(fs, cov)) by {
            assert forall|k: usize| #[trigger] in_first(fs, fs.len() as int, k as int) == statement_line(fs, k as int) by {
                if in_first(fs, fs.len() as int, k as int) {
                    let g = choose|g: int| 0 <= g < fs.len() && (#[trigger] fs[g]).3.contains(k as int);
                    assert(0 <= g < fs.len() && fs[g].3.contains(k as int));
                }
                if statement_line(fs, k as int) {
                    let g = choose|g: int| 0 <= g < fs.len() && (#[trigger] fs[g]).3.contains(k as int);
                    assert(0 <= g < fs.len() && fs[g].3.contains(k as int));
                }
            }
        }
        let mut branch_coverage = branches;
        let ghost bs = branch_coverage@;
        let mut b: usize = 0;
        while b < branch_coverage.len()
            invariant
                bs.len() == branch_coverage@.len(),
                b <= bs.len(),
                forall|m: int| 0 <= m < b ==> branch_coverage@[m] == marked(bs, taken_branches@)[m],
                forall|m: int| b <= m < bs.len() ==> branch_coverage@[m] == bs[m],
            decreases bs.len() - b,
        {
            let old_b = branch_coverage[b];
            let taken = taken_branches.contains(&old_b.branch_id);
            branch_coverage.set(
                b,
                Branch { line: old_b.line, branch_id: old_b.branch_id, kind: old_b.kind, taken },
            );
            b = b + 1;
        }
        assert(branch_coverage@ =~= marked(bs, taken_branches@));
        let mut function_coverage: Vec<(String, bool)> = Vec::new();
        let mut g: usize = 0;
        assert(function_coverage@.map_values(|e: (String, bool)| (e.0@, e.1)) =~= fn_coverage(fs.subrange(0, 0), cov));
        while g < source.functions.len()
            invariant
                fs == fn_views(source.functions@),
                cov == coverage@,
                g <= fs.len(),
                function_coverage@.map_values(|e: (String, bool)| (e.0@, e.1)) == fn_coverage(fs.subrange(0, g as int), cov),
            decreases fs.len() - g,
        {
            let ghost p = function_coverage@.map_values(|e: (String, bool)| (e.0@, e.1));
            assert(fs.subrange(0, g + 1).drop_last() =~= fs.subrange(0, g as int));
            assert(fs.subrange(0, g + 1).last() == fs[g as int]);
            let func = &source.functions[g];
            let covered = any_covered(&func.statements, coverage);
            assert(covered == fn_covered(fs[g as int], cov)) by {
                if covered {
                    let j = choose|j: int| 0 <= j < func.statements@.len() && coverage@.contains(#[trigger] func.statements@[j]);
                    assert(fs[g as int].3[j] as usize == func.statements@[j]);
                }
                if fn_covered(fs[g as int], cov) {
                    let j = choose|j: int| 0 <= j < fs[g as int].3.len() && cov.contains(#[trigger] fs[g as int].3[j] as usize);
                    assert(fs[g as int].3[j] as usize == func.statements@[j]);
                }
            }
            proof {
                lemma_name_index(p, fs[g as int].0);
            }
            match find_name(&function_coverage, func.name.as_str()) {
                Some(k) => {
                    function_coverage.set(k, (func.name.clone(), covered));
                    assert(function_coverage@.map_values(|e: (String, bool)| (e.0@, e.1)) =~= p.update(
                        k as int,
                        (fs[g as int].0, covered),
                    ));
                },
                None => {
                    function_coverage.push((func.name.clone(), covered));
                    assert(function_coverage@.map_values(|e: (String, bool)| (e.0@, e.1)) =~= p.push(
                        (fs[g as int].0, covered),
                    ));
                },
            }
            g = g + 1;
        }
        assert(fs.subrange(0, fs.len() as int) =~= fs);
        CoverageReport { source, line_coverage, branch_coverage, function_coverage }
    }
}

/// The coverage counts of a report.
#[derive(Debug, Clone, Copy, PartialEq, Eq, Structural)]
pub struct CoverageCounts {
    pub lines_covered: usize,
    pub lines_total: usize,
    pub branches_covered: usize,
    pub branches_total: usize,
    pub functions_covered: usize,
    pub functions_total: usize,
}

/// The number of statement lines over all functions (a line in two functions counts
/// twice).
pub open spec fn statement_total(fs: Seq<FnView>) -> nat
    decreases fs.len(),
{
    if fs.len() == 0 {
        0
    } else {
        statement_total(fs.drop_last()) + fs.last().3.len()
    }
}

/// The number of branches taken.
pub open spec fn taken_count(bs: Seq<Branch>) -> nat
    decreases bs.len(),
{
    if bs.len() == 0 {
        0
    } else {
        taken_count(bs.drop_last()) + if bs.last().taken { 1nat } else { 0nat }
    }
}

/// The number of entries marked true.
pub open spec fn true_count(p: Seq<(Seq<char>, bool)>) -> nat
    decreases p.len(),
{
    if p.len() == 0 {
        0
    } else {
        true_count(p.drop_last()) + if p.last().1 { 1nat } else { 0nat }
    }
}

/// The lines that the map marks as covered.
pub open spec fn covered_keys(m: Map<usize, bool>) -> Set<usize> {
    Set::new(|k: usize| m.contains_key(k) && m[k])
}

/// The statement lines of the functions, as a set.
pub open spec fn statement_set(fs: Seq<FnView>) -> Set<usize> {
    Set::new(|k: usize| statement_line(fs, k as int))
}

proof fn lemma_taken_count_bound(bs: Seq<Branch>)
    ensures
        taken_count(bs) <= bs.len(),
    decreases bs.len(),
{
    if bs.len() > 0 {
        lemma_taken_count_bound(bs.drop_last());
    }
}

proof fn lemma_true_count_bound(p: Seq<(Seq<char>, bool)>)
    ensures
        true_count(p) <= p.len(),
    decreases p.len(),
{
    if p.len() > 0 {
        lemma_true_count_bound(p.drop_last());
    }
}

impl CoverageReport {
    /// The counts: statement lines in all (over the functions) and marked covered,
    /// branches in all and taken, functions in all (by name) and covered.
    pub fn coverage_counts(&self) -> (r: CoverageCounts)
        requires
            statement_total(fn_views(self.source.functions@)) <= usize::MAX,
            self.line_coverage@.dom() == statement_set(fn_views(self.source.functions@)),
        ensures
            r.lines_total == statement_total(fn_views(self.source.functions@)),
            r.lines_covered == covered_keys(self.line_coverage@).len(),
            r.branches_total == self.branch_coverage@.len(),
            r.branches_covered == taken_count(self.branch_coverage@),
            r.functions_total == self.function_coverage@.len(),
            r.functions_covered == true_count(self.function_coverage@.map_values(|e: (String, bool)| (e.0@, e.1))),
    {
        broadcast use group_hash_axioms;

        let ghost fs = fn_views(self.source.functions@);
        let ghost m = self.line_coverage@;
        let mut lines_total: usize = 0;
        let mut lines_covered: usize = 0;
        let mut seen: HashSet<usize> = HashSet::new();
        let ghost mut cs: Set<usize> = Set::empty();
        let mut f: usize = 0;
        assert(seen@ =~= Set::new(|k: usize| in_first(fs, 0, k as int)));
        assert(fs.subrange(0, 0) =~= Seq::<FnView>::empty());
        while f < self.source.functions.len()
            invariant
                fs == fn_views(self.source.functions@),
                m == self.line_coverage@,
                m.dom() == statement_set(fs),
                statement_total(fs) <= usize::MAX,
                f <= fs.len(),
                lines_total == statement_total(fs.subrange(0, f as int)),
                seen@ == Set::new(|k: usize| in_first(fs, f as int, k as int)),
                cs == Set::new(|k: usize| seen@.contains(k) && m[k]),
                cs.finite(),
                lines_covered == cs.len(),
                lines_covered <= lines_total,
            decreases fs.len() - f,
        {
            let st = &self.source.functions[f].statements;
            assert(fs.subrange(0, f + 1).drop_last() =~= fs.subrange(0, f as int));
            assert(fs.subrange(0, f + 1).last() == fs[f as int]);
            proof {
                assert(statement_total(fs.subrange(0, f + 1)) <= statement_total(fs)) by {
                    lemma_statement_total_prefix(fs, f + 1);
                }
            }
            let mut j: usize = 0;
            while j < st.len()
                invariant
                    fs == fn_views(self.source.functions@),
                    m == self.line_coverage@,
                    m.dom() == statement_set(fs),
                    f < fs.len(),
                    st@ == self.source.functions@[f as int].statements@,
                    j <= st@.len(),
                    lines_total + st@.len() <= usize::MAX,
                    seen@ == Set::new(|k: usize| in_first(fs, f as int, k as int) || st@.subrange(0, j as int).contains(k)),
                    cs == Set::new(|k: usize| seen@.contains(k) && m[k]),
                    cs.finite(),
                    lines_covered == cs.len(),
                    lines_covered <= lines_total + j,
                decreases st@.len() - j,
            {
                let k = st[j];
                let ghost s1 = st@.subrange(0, j + 1);
                let ghost s0 = st@.subrange(0, j as int);
                assert(s1 =~= s0.push(k));
                assert(fs[f as int].3[j as int] == k as int);
                assert(statement_line(fs, k as int));
                let fresh = seen.insert(k);
                if fresh {
                    let covered = match self.line_coverage.get(&k) {
                        Some(v) => *v,
                        None => false,
                    };
                    proof {
                        assert(m.contains_key(k));
                        assert(!cs.contains(k));
                    }
                    if covered {
                        proof {
                            cs = cs.insert(k);
                        }
                        lines_covered = lines_covered + 1;
                    }
                }
                proof {
                    assert forall|x: usize| #[trigger] s1.contains(x) == (s0.contains(x) || x == k) by {
                        if s1.contains(x) {
                            let q = choose|q: int| 0 <= q < s1.len() && #[trigger] s1[q] == x;
                            if q < j {
                                assert(s0[q] == x);
                            }
                        }
                        if s0.contains(x) {
                            let q = choose|q: int| 0 <= q < s0.len() && #[trigger] s0[q] == x;
                            assert(s1[q] == x);
                        }
                        if x == k {
                            assert(s1[j as int] == x);
                        }
                    }
                    assert(seen@ =~= Set::new(|x: usize| in_first(fs, f as int, x as int) || s1.contains(x)));
                    assert(cs =~= Set::new(|x: usize| seen@.contains(x) && m[x]));
                }
                j = j + 1;
            }
            assert(st@.subrange(0, st@.len() as int) =~= st@);
            proof {
                assert forall|x: usize| #[trigger] in_first(fs, f + 1, x as int) == (in_first(fs, f as int, x as int) || st@.contains(x)) by {
                    if st@.contains(x) {
                        let q = choose|q: int| 0 <= q < st@.len() && #[trigger] st@[q] == x;
                        assert(fs[f as int].3[q] == x as int);
                        assert(fs[f as int].3.contains(x as int));
                    }
                    if fs[f as int].3.contains(x as int) {
                        let q = choose|q: int| 0 <= q < fs[f as int].3.len() && #[trigger] fs[f as int].3[q] == x as int;
                        assert(st@[q] == x);
                    }
                    if in_first(fs, f + 1, x as int) && !in_first(fs, f as int, x as int) {
                        let g = choose|g: int| 0 <= g < f + 1 && (#[trigger] fs[g]).3.contains(x as int);
                        assert(g == f);
                    }
                    if in_first(fs, f as int, x as int) {
                        let g = choose|g: int| 0 <= g < f && (#[trigger] fs[g]).3.contains(x as int);
                        assert(0 <= g < f + 1 && fs[g].3.contains(x as int));
                    }
                }
                assert(seen@ =~= Set::new(|x: usize| in_first(fs, f + 1, x as int)));
            }
            lines_total = lines_total + st.len();
            f = f + 1;
        }
        assert(fs.subrange(0, fs.len() as int) =~= fs);
        proof {
            assert forall|x: usize| #[trigger] seen@.contains(x) == statement_line(fs, x as int) by {
                if in_first(fs, fs.len() as int, x as int) {
                    let g = choose|g: int| 0 <= g < fs.len() && (#[trigger] fs[g]).3.contains(x as int);
                    assert(0 <= g < fs.len() && fs[g].3.contains(x as int));
                }
                if statement_line(fs, x as int) {
                    let g = choose|g: int| 0 <= g < fs.len() && (#[trigger] fs[g]).3.contains(x as int);
                    assert(0 <= g < fs.len() && fs[g].3.contains(x as int));
                }
            }
            assert(cs =~= covered_keys(m));
        }
        let mut branches_covered: usize = 0;
        let mut b: usize = 0;
        while b < self.branch_coverage.len()
            invariant
                b <= self.branch_coverage@.len(),
                branches_covered == taken_count(self.branch_coverage@.subrange(0, b as int)),
            decreases self.branch_coverage@.len() - b,
        {
            proof {
                lemma_taken_count_bound(self.branch_coverage@.subrange(0, b as int));
            }
            assert(self.branch_coverage@.subrange(0, b + 1).drop_last() =~= self.branch_coverage@.subrange(0, b as int));
            if self.branch_coverage[b].taken {
                branches_covered = branches_covered + 1;
            }
            b = b + 1;
        }
        assert(self.branch_coverage@.subrange(0, self.branch_coverage@.len() as int) =~= self.branch_coverage@);
        let ghost pv = self.function_coverage@.map_values(|e: (String, bool)| (e.0@, e.1));
        let mut functions_covered: usize = 0;
        let mut g: usize = 0;
        while g < self.function_coverage.len()
            invariant
                pv == self.function_coverage@.map_values(|e: (String, bool)| (e.0@, e.1)),
                g <= pv.len(),
                functions_covered == true_count(pv.subrange(0, g as int)),
            decreases pv.len() - g,
        {
            proof {
                lemma_true_count_bound(pv.subrange(0, g as int));
            }
            assert(pv.subrange(0, g + 1).drop_last() =~= pv.subrange(0, g as int));
            if self.function_coverage[g].1 {
                functions_covered = functions_covered + 1;
            }
            g = g + 1;
        }
        assert(pv.subrange(0, pv.len() as int) =~= pv);
        CoverageCounts {
            lines_covered,
            lines_total,
            branches_covered,
            branches_total: self.branch_coverage.len(),
            functions_covered,
            functions_total: self.function_coverage.len(),
        }
    }
}

/// The total of a prefix is at most the total.
proof fn lemma_statement_total_prefix(fs: Seq<FnView>, n: int)
    requires
        0 <= n <= fs.len(),
    ensures
        statement_total(fs.subrange(0, n)) <= statement_total(fs),
    decreases fs.len() - n,
{
    if n < fs.len() {
        lemma_statement_total_prefix(fs, n + 1);
        assert(fs.subrange(0, n + 1).drop_last() =~= fs.subrange(0, n));
    } else {
        assert(fs.subrange(0, n) =~= fs);
    }
}

/// The marker of line `i`: a tick when covered, a cross when not, a space when it is
/// not a statement line.
pub open spec fn marker(m: Map<usize, bool>, i: usize) -> Seq<char> {
    if m.contains_key(i) {
        if m[i] {
            "✓"@
        } else {
            "✗"@
        }
    } else {
        " "@
    }
}

/// The HTML class of line `i`.
pub open spec fn line_class(m: Map<usize, bool>, i: usize) -> Seq<char> {
    if m.contains_key(i) {
        if m[i] {
            "covered"@
        } else {
            "uncovered"@
        }
    } else {
        "neutral"@
    }
}

/// The listing of the first `n` lines: number (four columns), marker and text.
pub open spec fn listing(ls: Seq<Seq<char>>, m: Map<usize, bool>, n: int) -> Seq<char>
    decreases n,
{
    if n <= 0 {
        Seq::empty()
    } else {
        let i = n - 1;
        listing(ls, m, n - 1) + padded_decimal(n as nat, 4) + seq![' '] + marker(m, i as usize) + seq![' '] + ls[i]
            + seq!['\n']
    }
}

/// The HTML `div` of line `i`.
pub open spec fn line_div(ls: Seq<Seq<char>>, m: Map<usize, bool>, i: int) -> Seq<char> {
    "<div class=\""@ + line_class(m, i as usize) + "\">"@ + padded_decimal((i + 1) as nat, 4) + seq![' ']
        + escape_angles(ls[i]) + "</div>"@
}

impl CoverageReport {
    /// The source listing: each line numbered from 1, with its coverage marker.
    pub fn source_listing(&self) -> (r: String)
        ensures
            r@ == listing(line_views(self.source.lines@), self.line_coverage@, self.source.lines@.len() as int),
    {
        broadcast use group_hash_axioms;

        let ghost ls = line_views(self.source.lines@);
        let ghost m = self.line_coverage@;
        let mut out: Vec<char> = Vec::new();
        let mut i: usize = 0;
        while i < self.source.lines.len()
            invariant
                ls == line_views(self.source.lines@),
                m == self.line_coverage@,
                i <= ls.len(),
                out@ == listing(ls, m, i as int),
            decreases ls.len() - i,
        {
            append_padded(&mut out, (i + 1) as u64, 4);
            out.push(' ');
            match self.line_coverage.get(&i) {
                Some(v) => {
                    if *v {
                        append_str(&mut out, "✓");
                    } else {
                        append_str(&mut out, "✗");
                    }
                },
                None => {
                    append_str(&mut out, " ");
                },
            }
            out.push(' ');
            append_str(&mut out, self.source.lines[i].as_str());
            out.push('\n');
            assert(out@ =~= listing(ls, m, i + 1));
            i = i + 1;
        }
        string_from_chars(out.as_slice())
    }

    /// The source as HTML: one `div` per line, of class covered, uncovered or neutral,
    /// with its number and its text escaped, joined by line feeds.
    #[verifier::spinoff_prover]
    #[verifier::rlimit(60)]
    pub fn format_source_html(&self) -> (r: String)
        ensures
            r@ == join_lines(
                Seq::new(
                    self.source.lines@.len(),
                    |i: int| line_div(line_views(self.source.lines@), self.line_coverage@, i),
                ),
            ),
    {
        broadcast use group_hash_axioms;

        let ghost ls = line_views(self.source.lines@);
        let ghost m = self.line_coverage@;
        let ghost divs = Seq::new(ls.len(), |i: int| line_div(ls, m, i));
        let mut out: Vec<char> = Vec::new();
        let mut i: usize = 0;
        assert(divs.subrange(0, 0) =~= Seq::<Seq<char>>::empty());
        while i < self.source.lines.len()
            invariant
                ls == line_views(self.source.lines@),
                m == self.line_coverage@,
                divs == Seq::new(ls.len(), |i: int| line_div(ls, m, i)),
                i <= ls.len(),
                out@ == join_lines(divs.subrange(0, i as int)),
            decreases ls.len() - i,
        {
            let ghost before = out@;
            if i > 0 {
                out.push('\n');
            }
            let ghost mid = out@;
            append_str(&mut out, "<div class=\"");
            match self.line_coverage.get(&i) {
                Some(v) => {
                    if *v {
                        append_str(&mut out, "covered");
                    } else {
                        append_str(&mut out, "uncovered");
                    }
                },
                None => {
                    append_str(&mut out, "neutral");
                },
            }
            append_str(&mut out, "\">");
            append_padded(&mut out, (i + 1) as u64, 4);
            out.push(' ');
            append_escaped(&mut out, self.source.lines[i].as_str());
            append_str(&mut out, "</div>");
            assert(out@ =~= mid + divs[i as int]);
            assert(divs.subrange(0, i + 1).drop_last() =~= divs.subrange(0, i as int));
            assert(out@ =~= join_lines(divs.subrange(0, i + 1)));
            i = i + 1;
        }
        assert(divs.subrange(0, ls.len() as int) =~= divs);
        string_from_chars(out.as_slice())
    }
}

} // verus!
