//! Mutation testing: operators that find mutation points in source text and apply
//! them, the outcome of testing a mutant, the tallies of a run by status and by
//! operator, and the annotation of source lines with the mutations found there.
use vstd::prelude::*;
use crate::text::{chars_of, owned, split_lines, text_lines, byte_pos, byte_offset_of, push_char, append_chars,
    append_str, string_from_chars};
use crate::propgen::{index_of, find_chars};
use crate::text::{contains_seq, str_contains, escape_angles, append_escaped, padded_decimal, append_padded, decimal};
use vstd::std_specs::hash::group_hash_axioms;
use std::collections::HashMap;

verus! {

/// An arithmetic operator.
#[derive(Debug, Clone, Copy, PartialEq, Eq, Structural)]
pub enum OpType {
    Add,
    Sub,
    Mul,
    Div,
    Rem,
}

/// A comparison operator.
#[derive(Debug, Clone, Copy, PartialEq, Eq, Structural)]
pub enum CmpType {
    Eq,
    Ne,
    Lt,
    Le,
    Gt,
    Ge,
}

/// What an operator looks for.
#[derive(Debug, Clone)]
pub enum Pattern {
    BinaryOp(OpType),
    Comparison(CmpType),
    Literal(String),
}

/// What an operator does to what it found.
#[derive(Debug, Clone)]
pub enum Transformation {
    Replace(String),
    Delete,
    Negate,
}

/// One place where an operator can change the source.
#[derive(Debug, Clone)]
pub struct MutationPoint {
    pub line: usize,
    pub column: usize,
    pub original: String,
    pub mutated: String,
    pub operator_name: String,
}

/// A mutation point: line, column, original text, mutated text, operator name.
pub type PointView = (int, int, Seq<char>, Seq<char>, Seq<char>);

impl View for MutationPoint {
    type V = PointView;

    open spec fn view(&self) -> PointView {
        (self.line as int, self.column as int, self.original@, self.mutated@, self.operator_name@)
    }
}

impl MutationPoint {
    /// A copy of the point.
    pub fn copy(&self) -> (r: MutationPoint)
        ensures
            r@ == self@,
    {
        MutationPoint {
            line: self.line,
            column: self.column,
            original: self.original.clone(),
            mutated: self.mutated.clone(),
            operator_name: self.operator_name.clone(),
        }
    }
}

/// The character of an arithmetic operator.
pub open spec fn op_symbol(t: OpType) -> char {
    match t {
        OpType::Add => '+',
        OpType::Sub => '-',
        OpType::Mul => '*',
        OpType::Div => '/',
        OpType::Rem => '%',
    }
}

/// The text of a comparison operator.
pub open spec fn cmp_symbol(t: CmpType) -> Seq<char> {
    match t {
        CmpType::Eq => "=="@,
        CmpType::Ne => "!="@,
        CmpType::Lt => "<"@,
        CmpType::Le => "<="@,
        CmpType::Gt => ">"@,
        CmpType::Ge => ">="@,
    }
}

/// The kind of a pattern (0 for an arithmetic operator, 1 for a comparison, 2 for a
/// literal) and the text it looks for.
pub open spec fn pattern_text(p: Pattern) -> (nat, Seq<char>) {
    match p {
        Pattern::BinaryOp(t) => (0, seq![op_symbol(t)]),
        Pattern::Comparison(t) => (1, cmp_symbol(t)),
        Pattern::Literal(l) => (2, l@),
    }
}

/// A transformation as its kind (0 replace, 1 delete, 2 negate) and its replacement.
pub open spec fn action_of(t: Transformation) -> (nat, Seq<char>) {
    match t {
        Transformation::Replace(r) => (0, r@),
        Transformation::Delete => (1, Seq::empty()),
        Transformation::Negate => (2, Seq::empty()),
    }
}

/// The positions of `c` in `s`, in increasing order.
pub open spec fn positions_of(s: Seq<char>, c: char) -> Seq<int>
    decreases s.len(),
{
    if s.len() == 0 {
        Seq::empty()
    } else {
        let p = positions_of(s.drop_last(), c);
        if s.last() == c {
            p.push(s.len() - 1)
        } else {
            p
        }
    }
}

/// The first occurrence of `pat` in `line`, as its byte column, `pat` and `r`.
pub open spec fn first_match(line: Seq<char>, pat: Seq<char>, r: Seq<char>) -> Seq<(int, Seq<char>, Seq<char>)> {
    let k = index_of(line, pat);
    if k >= 0 {
        seq![(byte_pos(line, k) as int, pat, r)]
    } else {
        Seq::empty()
    }
}

/// An operator: a name, a pattern and the transformations to apply.
pub struct MutationOperator {
    pub name: String,
    pattern: Pattern,
    transformations: Vec<Transformation>,
}

impl MutationOperator {
    /// The name, as characters.
    pub closed spec fn op_name(&self) -> Seq<char> {
        self.name@
    }

    /// The kind and text of the pattern.
    pub closed spec fn target(&self) -> (nat, Seq<char>) {
        pattern_text(self.pattern)
    }

    /// The transformations, as kinds and replacements.
    pub closed spec fn actions(&self) -> Seq<(nat, Seq<char>)> {
        self.transformations@.map_values(|t: Transformation| action_of(t))
    }

    /// The replacement of the first transformation, if it is a replacement.
    pub open spec fn replacement(&self) -> Option<Seq<char>> {
        if self.actions().len() > 0 && self.actions()[0].0 == 0 {
            Some(self.actions()[0].1)
        } else {
            None
        }
    }

    /// The matches in one line: every occurrence of an arithmetic operator (at its
    /// character index), or the first occurrence of a comparison or literal (at its byte
    /// offset); none unless the first transformation is a replacement.
    pub open spec fn line_matches(&self, line: Seq<char>) -> Seq<(int, Seq<char>, Seq<char>)> {
        match self.replacement() {
            None => Seq::empty(),
            Some(r) => if self.target().0 == 0 {
                positions_of(line, self.target().1[0]).map_values(
                    |i: int| (i, self.target().1, r),
                )
            } else {
                first_match(line, self.target().1, r)
            },
        }
    }

    /// The mutation points of the lines `ls`, line by line.
    pub open spec fn points_of(&self, ls: Seq<Seq<char>>) -> Seq<PointView>
        decreases ls.len(),
    {
        if ls.len() == 0 {
            Seq::empty()
        } else {
            let k = ls.len() - 1;
            self.points_of(ls.drop_last()) + self.line_matches(ls.last()).map_values(
                |m: (int, Seq<char>, Seq<char>)| (k, m.0, m.1, m.2, self.op_name()),
            )
        }
    }

    /// An operator with the given name, pattern and transformations.
    pub fn new(name: &str, pattern: Pattern, transformations: Vec<Transformation>) -> (r: Self)
        ensures
            r.op_name() == name@,
            r.target() == pattern_text(pattern),
            r.actions() == transformations@.map_values(|t: Transformation| action_of(t)),
    {
        MutationOperator { name: owned(name), pattern, transformations }
    }

    /// The replacement of the first transformation, if it is a replacement.
    fn first_replacement(&self) -> (r: Option<&String>)
        ensures
            r matches Some(s) ==> self.replacement() == Some(s@),
            r is None ==> self.replacement() is None,
    {
        if self.transformations.len() > 0 {
            match &self.transformations[0] {
                Transformation::Replace(s) => Some(s),
                _ => None,
            }
        } else {
            None
        }
    }

    /// The text the pattern looks for.
    fn target_text(&self) -> (r: String)
        ensures
            r@ == self.target().1,
    {
        match &self.pattern {
            Pattern::BinaryOp(t) => {
                let c = match t {
                    OpType::Add => '+',
                    OpType::Sub => '-',
                    OpType::Mul => '*',
                    OpType::Div => '/',
                    OpType::Rem => '%',
                };
                let mut s = String::new();
                push_char(&mut s, c);
                assert(s@ =~= seq![c]);
                s
            },
            Pattern::Comparison(t) => match t {
                CmpType::Eq => owned("=="),
                CmpType::Ne => owned("!="),
                CmpType::Lt => owned("<"),
                CmpType::Le => owned("<="),
                CmpType::Gt => owned(">"),
                CmpType::Ge => owned(">="),
            },
            Pattern::Literal(l) => l.clone(),
        }
    }

    /// The matches of the pattern in one line, as (column, original, replacement).
    fn find_pattern_in_line(&self, line: &str) -> (r: Vec<(usize, String, String)>)
        ensures
            r@.map_values(|m: (usize, String, String)| (m.0 as int, m.1@, m.2@)) == self.line_matches(
                line@,
            ),
    {
        let mut matches: Vec<(usize, String, String)> = Vec::new();
        let repl = match self.first_replacement() {
            Some(s) => s,
            None => {
                assert(matches@.map_values(|m: (usize, String, String)| (m.0 as int, m.1@, m.2@)) =~= Seq::<
                    (int, Seq<char>, Seq<char>),
                >::empty());
                return matches;
            },
        };
        let pat = self.target_text();
        let cs = chars_of(line);
        let ps = chars_of(pat.as_str());
        let is_binary = match &self.pattern {
            Pattern::BinaryOp(_) => true,
            _ => false,
        };
        if is_binary {
            let sym = ps[0];
            let mut i: usize = 0;
            assert(line@.subrange(0, 0) =~= Seq::<char>::empty());
            while i < cs.len()
                invariant
                    cs@ == line@,
                    ps@ == pat@,
                    pat@ == self.target().1,
                    self.target().0 == 0,
                    pat@ == seq![sym],
                    self.replacement() == Some(repl@),
                    i <= cs@.len(),
                    matches@.map_values(|m: (usize, String, String)| (m.0 as int, m.1@, m.2@))
                        == positions_of(line@.subrange(0, i as int), sym).map_values(
                        |j: int| (j, self.target().1, repl@),
                    ),
                decreases cs@.len() - i,
            {
                let ghost before = matches@;
                assert(line@.subrange(0, i + 1).drop_last() =~= line@.subrange(0, i as int));
                if cs[i] == sym {
                    assert(line@.subrange(0, i + 1).last() == sym);
                    assert(positions_of(line@.subrange(0, i + 1), sym) == positions_of(
                        line@.subrange(0, i as int),
                        sym,
                    ).push(i as int));
                    let p2 = pat.clone();
                    let r2 = repl.clone();
                    matches.push((i, p2, r2));
                    assert(matches@.map_values(|m: (usize, String, String)| (m.0 as int, m.1@, m.2@))
                        =~= before.map_values(|m: (usize, String, String)| (m.0 as int, m.1@, m.2@)).push(
                        (i as int, self.target().1, repl@),
                    ));
                    assert(matches@.map_values(|m: (usize, String, String)| (m.0 as int, m.1@, m.2@))
                        =~= positions_of(line@.subrange(0, i + 1), sym).map_values(
                        |j: int| (j, self.target().1, repl@),
                    ));
                } else {
                    assert(positions_of(line@.subrange(0, i + 1), sym) == positions_of(
                        line@.subrange(0, i as int),
                        sym,
                    ));
                }
                i = i + 1;
            }
            assert(line@.subrange(0, cs@.len() as int) =~= line@);
            return matches;
        }
        match find_chars(cs.as_slice(), ps.as_slice()) {
            Some(k) => {
                let col = byte_offset_of(cs.as_slice(), k);
                matches.push((col, pat, repl.clone()));
                assert(matches@.map_values(|m: (usize, String, String)| (m.0 as int, m.1@, m.2@))
                    =~= first_match(line@, self.target().1, repl@));
            },
            None => {
                assert(matches@.map_values(|m: (usize, String, String)| (m.0 as int, m.1@, m.2@))
                    =~= first_match(line@, self.target().1, repl@));
            },
        }
        matches
    }

    /// The mutation points of `source`: for each line (as `str::lines` splits it), the
    /// matches of the pattern, with the line index and the operator's name.
    pub fn find_mutation_points(&self, source: &str) -> (r: Vec<MutationPoint>)
        ensures
            r@.map_values(|p: MutationPoint| p@) == self.points_of(text_lines(source@)),
    {
        let lines = split_lines(source);
        let ghost ls = text_lines(source@);
        let mut points: Vec<MutationPoint> = Vec::new();
        let mut line_num: usize = 0;
        assert(ls.subrange(0, 0) =~= Seq::<Seq<char>>::empty());
        while line_num < lines.len()
            invariant
                lines@.map_values(|l: &str| l@) == ls,
                line_num <= lines@.len(),
                points@.map_values(|p: MutationPoint| p@) == self.points_of(ls.subrange(0, line_num as int)),
            decreases lines@.len() - line_num,
        {
            let ghost before = points@;
            let line = lines[line_num];
            let found = self.find_pattern_in_line(line);
            let ghost ms = self.line_matches(line@);
            let mut j: usize = 0;
            while j < found.len()
                invariant
                    found@.map_values(|m: (usize, String, String)| (m.0 as int, m.1@, m.2@)) == ms,
                    j <= found@.len(),
                    line_num < lines@.len(),
                    points@.map_values(|p: MutationPoint| p@) == before.map_values(|p: MutationPoint| p@)
                        + ms.subrange(0, j as int).map_values(
                        |m: (int, Seq<char>, Seq<char>)| (line_num as int, m.0, m.1, m.2, self.op_name()),
                    ),
                decreases found@.len() - j,
            {
                let ghost prev = points@;
                let col = found[j].0;
                let orig = found[j].1.clone();
                let muta = found[j].2.clone();
                let op_name = self.name.clone();
                assert(ms[j as int] == (col as int, orig@, muta@));
                assert(ms.subrange(0, j + 1) =~= ms.subrange(0, j as int).push(ms[j as int]));
                points.push(
                    MutationPoint {
                        line: line_num,
                        column: col,
                        original: orig,
                        mutated: muta,
                        operator_name: op_name,
                    },
                );
                assert(points@.map_values(|p: MutationPoint| p@) =~= prev.map_values(|p: MutationPoint| p@).push(
                    (line_num as int, col as int, orig@, muta@, self.op_name()),
                ));
                assert(points@.map_values(|p: MutationPoint| p@) =~= before.map_values(
                    |p: MutationPoint| p@,
                ) + ms.subrange(0, j + 1).map_values(
                    |m: (int, Seq<char>, Seq<char>)| (line_num as int, m.0, m.1, m.2, self.op_name()),
                ));
                j = j + 1;
            }
            assert(ms.subrange(0, found@.len() as int) =~= ms);
            assert(ls.subrange(0, line_num + 1).drop_last() =~= ls.subrange(0, line_num as int));
            assert(ls.subrange(0, line_num + 1).last() == line@);
            line_num = line_num + 1;
        }
        assert(ls.subrange(0, lines@.len() as int) =~= ls);
        points
    }
}

/// `l` with the first occurrence of `pat` replaced by `rep` (`str::replacen` with a
/// count of one); `l` itself when `pat` does not occur.
pub open spec fn replace_first(l: Seq<char>, pat: Seq<char>, rep: Seq<char>) -> Seq<char> {
    let k = index_of(l, pat);
    if k >= 0 {
        l.subrange(0, k) + rep + l.subrange(k + pat.len(), l.len() as int)
    } else {
        l
    }
}

/// The lines joined with line feeds between them.
pub open spec fn join_lines(ls: Seq<Seq<char>>) -> Seq<char>
    decreases ls.len(),
{
    if ls.len() == 0 {
        Seq::empty()
    } else if ls.len() == 1 {
        ls[0]
    } else {
        join_lines(ls.drop_last()) + seq!['\n'] + ls.last()
    }
}

/// The source with the mutation of `p` applied on its line.
pub open spec fn mutated_source(source: Seq<char>, p: PointView) -> Seq<char> {
    let ls = text_lines(source);
    join_lines(Seq::new(ls.len(), |i: int| if i == p.0 { replace_first(ls[i], p.2, p.3) } else { ls[i] }))
}

/// Appends `src[lo..hi]` to `dst`.
fn append_range(dst: &mut Vec<char>, src: &[char], lo: usize, hi: usize)
    requires
        lo <= hi <= src@.len(),
    ensures
        final(dst)@ == old(dst)@ + src@.subrange(lo as int, hi as int),
{
    let mut i = lo;
    while i < hi
        invariant
            lo <= i <= hi <= src@.len(),
            dst@ == old(dst)@ + src@.subrange(lo as int, i as int),
        decreases hi - i,
    {
        dst.push(src[i]);
        i = i + 1;
        assert(dst@ =~= old(dst)@ + src@.subrange(lo as int, i as int));
    }
}

impl MutationOperator {
    /// The source with the mutation applied: on the point's line the first occurrence of
    /// the original text is replaced by the mutated text; the lines are joined with line
    /// feeds.
    pub fn apply(&self, source: &str, point: &MutationPoint) -> (r: String)
        ensures
            r@ == mutated_source(source@, point@),
    {
        let lines = split_lines(source);
        let ghost ls = text_lines(source@);
        let ghost want = Seq::new(
            ls.len(),
            |i: int| if i == point@.0 { replace_first(ls[i], point@.2, point@.3) } else { ls[i] },
        );
        let pat = chars_of(point.original.as_str());
        let rep = chars_of(point.mutated.as_str());
        let mut out: Vec<char> = Vec::new();
        let mut i: usize = 0;
        assert(want.subrange(0, 0) =~= Seq::<Seq<char>>::empty());
        while i < lines.len()
            invariant
                lines@.map_values(|l: &str| l@) == ls,
                want.len() == ls.len(),
                forall|k: int| 0 <= k < ls.len() ==> #[trigger] want[k] == if k == point@.0 {
                    replace_first(ls[k], point@.2, point@.3)
                } else {
                    ls[k]
                },
                pat@ == point@.2,
                rep@ == point@.3,
                i <= lines@.len(),
                out@ == join_lines(want.subrange(0, i as int)),
            decreases lines@.len() - i,
        {
            let ghost before = out@;
            if i > 0 {
                out.push('\n');
            }
            let ghost mid = out@;
            let cs = chars_of(lines[i]);
            assert(cs@ == ls[i as int]);
            if i == point.line {
                match find_chars(cs.as_slice(), pat.as_slice()) {
                    Some(k) => {
                        let n = cs.len();
                        assert(k + pat@.len() <= n);
                        let after = k + pat.len();
                        append_range(&mut out, cs.as_slice(), 0, k);
                        append_chars(&mut out, rep.as_slice());
                        append_range(&mut out, cs.as_slice(), after, n);
                    },
                    None => {
                        append_chars(&mut out, cs.as_slice());
                    },
                }
            } else {
                append_chars(&mut out, cs.as_slice());
            }
            assert(out@ =~= mid + want[i as int]);
            assert(want.subrange(0, i + 1).drop_last() =~= want.subrange(0, i as int));
            if i > 0 {
                assert(out@ =~= join_lines(want.subrange(0, i + 1)));
            } else {
                assert(out@ =~= join_lines(want.subrange(0, 1)));
            }
            i = i + 1;
        }
        assert(want.subrange(0, lines@.len() as int) =~= want);
        string_from_chars(out.as_slice())
    }

    /// "Mutation operator: " followed by the name.
    pub fn describe(&self) -> (r: String)
        ensures
            r@ == "Mutation operator: "@ + self.op_name(),
    {
        let mut v: Vec<char> = Vec::new();
        append_str(&mut v, "Mutation operator: ");
        append_str(&mut v, self.name.as_str());
        string_from_chars(v.as_slice())
    }
}

/// Whether `op` has the given name, target and transformations.
pub open spec fn is_op(
    op: MutationOperator,
    name: Seq<char>,
    target: (nat, Seq<char>),
    actions: Seq<(nat, Seq<char>)>,
) -> bool {
    op.op_name() == name && op.target() == target && op.actions() == actions
}

/// An operator that replaces what `pattern` finds by `with`.
fn replace_op(name: &str, pattern: Pattern, with: &str) -> (r: MutationOperator)
    ensures
        is_op(r, name@, pattern_text(pattern), seq![(0nat, with@)]),
{
    let t = vec![Transformation::Replace(owned(with))];
    let r = MutationOperator::new(name, pattern, t);
    assert(r.actions() =~= seq![(0nat, with@)]);
    r
}

/// An operator that deletes what `pattern` finds.
fn delete_op(name: &str, pattern: Pattern) -> (r: MutationOperator)
    ensures
        is_op(r, name@, pattern_text(pattern), seq![(1nat, Seq::<char>::empty())]),
{
    let t = vec![Transformation::Delete];
    let r = MutationOperator::new(name, pattern, t);
    assert(r.actions() =~= seq![(1nat, Seq::<char>::empty())]);
    r
}

impl MutationOperator {
    /// The arithmetic operators: `+` to `-`, `-` to `+`, `*` to `/` and `/` to `*`.
    pub fn arithmetic_mutations() -> (r: Vec<Self>)
        ensures
            r@.len() == 4,
            is_op(r@[0], "AddToSub"@, (0nat, seq!['+']), seq![(0nat, "-"@)]),
            is_op(r@[1], "SubToAdd"@, (0nat, seq!['-']), seq![(0nat, "+"@)]),
            is_op(r@[2], "MulToDiv"@, (0nat, seq!['*']), seq![(0nat, "/"@)]),
            is_op(r@[3], "DivToMul"@, (0nat, seq!['/']), seq![(0nat, "*"@)]),
{
        let mut r: Vec<MutationOperator> = Vec::new();
        r.push(replace_op("AddToSub", Pattern::BinaryOp(OpType::Add), "-"));
        r.push(replace_op("SubToAdd", Pattern::BinaryOp(OpType::Sub), "+"));
        r.push(replace_op("MulToDiv", Pattern::BinaryOp(OpType::Mul), "/"));
        r.push(replace_op("DivToMul", Pattern::BinaryOp(OpType::Div), "*"));
        r
    }

    /// The comparison operators: `>` to `>=`, `<` to `<=` and `==` to `!=`.
    pub fn comparison_mutations() -> (r: Vec<Self>)
        ensures
            r@.len() == 3,
            is_op(r@[0], "GtToGe"@, (1nat, ">"@), seq![(0nat, ">="@)]),
            is_op(r@[1], "LtToLe"@, (1nat, "<"@), seq![(0nat, "<="@)]),
            is_op(r@[2], "EqToNe"@, (1nat, "=="@), seq![(0nat, "!="@)]),
{
        let mut r: Vec<MutationOperator> = Vec::new();
        r.push(replace_op("GtToGe", Pattern::Comparison(CmpType::Gt), ">="));
        r.push(replace_op("LtToLe", Pattern::Comparison(CmpType::Lt), "<="));
        r.push(replace_op("EqToNe", Pattern::Comparison(CmpType::Eq), "!="));
        r
    }

    /// The logical operators: `&&` to `||` and back.
    pub fn logical_mutations() -> (r: Vec<Self>)
        ensures
            r@.len() == 2,
            is_op(r@[0], "AndToOr"@, (2nat, "&&"@), seq![(0nat, "||"@)]),
            is_op(r@[1], "OrToAnd"@, (2nat, "||"@), seq![(0nat, "&&"@)]),
{
        let mut r: Vec<MutationOperator> = Vec::new();
        r.push(replace_op("AndToOr", Pattern::Literal(owned("&&")), "||"));
        r.push(replace_op("OrToAnd", Pattern::Literal(owned("||")), "&&"));
        r
    }

    /// The boundary constants: `0` to `1` and back.
    pub fn boundary_mutations() -> (r: Vec<Self>)
        ensures
            r@.len() == 2,
            is_op(r@[0], "ZeroToOne"@, (2nat, "0"@), seq![(0nat, "1"@)]),
            is_op(r@[1], "OneToZero"@, (2nat, "1"@), seq![(0nat, "0"@)]),
{
        let mut r: Vec<MutationOperator> = Vec::new();
        r.push(replace_op("ZeroToOne", Pattern::Literal(owned("0")), "1"));
        r.push(replace_op("OneToZero", Pattern::Literal(owned("1")), "0"));
        r
    }

    /// The returned booleans: `return true` to `return false` and back.
    pub fn return_value_mutations() -> (r: Vec<Self>)
        ensures
            r@.len() == 2,
            is_op(r@[0], "ReturnTrue"@, (2nat, "return true"@), seq![(0nat, "return false"@)]),
            is_op(r@[1], "ReturnFalse"@, (2nat, "return false"@), seq![(0nat, "return true"@)]),
{
        let mut r: Vec<MutationOperator> = Vec::new();
        r.push(replace_op("ReturnTrue", Pattern::Literal(owned("return true")), "return false"));
        r.push(replace_op("ReturnFalse", Pattern::Literal(owned("return false")), "return true"));
        r
    }

    /// Deleting assignments (`=`).
    pub fn statement_deletion_mutations() -> (r: Vec<Self>)
        ensures
            r@.len() == 1,
            is_op(r@[0], "DeleteAssignment"@, (2nat, "="@), seq![(1nat, Seq::<char>::empty())]),
{
        let mut r: Vec<MutationOperator> = Vec::new();
        r.push(delete_op("DeleteAssignment", Pattern::Literal(owned("="))));
        r
    }

    /// Replacing the constant `0` by `1`.
    pub fn constant_replacement_mutations() -> (r: Vec<Self>)
        ensures
            r@.len() == 1,
            is_op(r@[0], "ConstantZeroToOne"@, (2nat, "0"@), seq![(0nat, "1"@)]),
{
        let mut r: Vec<MutationOperator> = Vec::new();
        r.push(replace_op("ConstantZeroToOne", Pattern::Literal(owned("0")), "1"));
        r
    }

    /// Deleting calls without arguments (`();`).
    pub fn call_removal_mutations() -> (r: Vec<Self>)
        ensures
            r@.len() == 1,
            is_op(r@[0], "RemoveFunctionCall"@, (2nat, "();"@), seq![(1nat, Seq::<char>::empty())]),
{
        let mut r: Vec<MutationOperator> = Vec::new();
        r.push(delete_op("RemoveFunctionCall", Pattern::Literal(owned("();"))));
        r
    }

    /// The return-value, assignment-deletion, constant and call-removal operators, in
    /// that order.
    pub fn all_advanced_operators() -> (r: Vec<Self>)
        ensures
            r@.len() == 5,
            is_op(r@[0], "ReturnTrue"@, (2nat, "return true"@), seq![(0nat, "return false"@)]),
            is_op(r@[1], "ReturnFalse"@, (2nat, "return false"@), seq![(0nat, "return true"@)]),
            is_op(r@[2], "DeleteAssignment"@, (2nat, "="@), seq![(1nat, Seq::<char>::empty())]),
            is_op(r@[3], "ConstantZeroToOne"@, (2nat, "0"@), seq![(0nat, "1"@)]),
            is_op(r@[4], "RemoveFunctionCall"@, (2nat, "();"@), seq![(1nat, Seq::<char>::empty())]),
    {
        let mut ops: Vec<MutationOperator> = Vec::new();
        let mut a = Self::return_value_mutations();
        ops.append(&mut a);
        let mut b = Self::statement_deletion_mutations();
        ops.append(&mut b);
        let mut c = Self::constant_replacement_mutations();
        ops.append(&mut c);
        let mut d = Self::call_removal_mutations();
        ops.append(&mut d);
        ops
    }
}

/// What testing a mutant showed.
#[derive(Debug, Clone, Copy, PartialEq, Eq, Structural)]
pub enum MutationStatus {
    Killed,
    Survived,
    Timeout,
    CompileError,
    Skipped,
}

impl MutationStatus {
    /// The status after running the tests on a mutant: a passing run lets it survive, a
    /// failing run kills it, and a run that could not be made is a compile error.
    pub fn after_run(outcome: &Result<bool, std::io::Error>) -> (r: MutationStatus)
        ensures
            outcome matches Ok(true) ==> r == MutationStatus::Survived,
            outcome matches Ok(false) ==> r == MutationStatus::Killed,
            outcome is Err ==> r == MutationStatus::CompileError,
    {
        match outcome {
            Ok(true) => MutationStatus::Survived,
            Ok(false) => MutationStatus::Killed,
            Err(_) => MutationStatus::CompileError,
        }
    }
}

/// `Duration::clone`: a duration is `Copy`, so its clone is the same value.
pub assume_specification[ <std::time::Duration as std::clone::Clone>::clone ](d: &std::time::Duration) -> (r: std::time::Duration)
    ensures
        r == *d,
;

/// The outcome of testing one mutant.
#[derive(Debug, Clone)]
pub struct MutationResult {
    pub mutation: MutationPoint,
    pub status: MutationStatus,
    pub test_output: String,
    pub execution_time: std::time::Duration,
}

/// The views of a list of points.
pub open spec fn point_views(s: Seq<MutationPoint>) -> Seq<PointView> {
    s.map_values(|p: MutationPoint| p@)
}

/// `s` cut into consecutive batches of `n` (the last one possibly shorter).
pub open spec fn batches(s: Seq<PointView>, n: nat) -> Seq<Seq<PointView>>
    decreases s.len(),
{
    if n == 0 || s.len() == 0 {
        Seq::empty()
    } else if s.len() <= n {
        seq![s]
    } else {
        seq![s.subrange(0, n as int)] + batches(s.subrange(n as int, s.len() as int), n)
    }
}

/// Cuts the points into consecutive batches of `batch_size` (`slice::chunks`, which
/// refuses a size of zero).
pub fn batch_mutations(mutations: Vec<MutationPoint>, batch_size: usize) -> (r: Vec<Vec<MutationPoint>>)
    requires
        batch_size > 0,
    ensures
        r@.map_values(|b: Vec<MutationPoint>| point_views(b@)) == batches(point_views(mutations@), batch_size as nat),
{
    let ghost all = point_views(mutations@);
    let n = mutations.len();
    let mut out: Vec<Vec<MutationPoint>> = Vec::new();
    let mut i: usize = 0;
    assert(all.subrange(0, n as int) =~= all);
    while i < n
        invariant
            all == point_views(mutations@),
            n == all.len(),
            i <= n,
            batch_size > 0,
            out@.map_values(|b: Vec<MutationPoint>| point_views(b@)) + batches(
                all.subrange(i as int, n as int),
                batch_size as nat,
            ) == batches(all, batch_size as nat),
        decreases n - i,
    {
        let end = if n - i <= batch_size {
            n
        } else {
            i + batch_size
        };
        let mut batch: Vec<MutationPoint> = Vec::new();
        let mut j = i;
        while j < end
            invariant
                all == point_views(mutations@),
                i <= j <= end <= n,
                n == all.len(),
                point_views(batch@) == all.subrange(i as int, j as int),
            decreases end - j,
        {
            let ghost before = batch@;
            batch.push(mutations[j].copy());
            assert(point_views(batch@) =~= point_views(before).push(all[j as int]));
            assert(all.subrange(i as int, j + 1) =~= all.subrange(i as int, j as int).push(all[j as int]));
            j = j + 1;
        }
        let ghost rest = all.subrange(i as int, n as int);
        let ghost prev = out@;
        out.push(batch);
        if n - i <= batch_size {
            assert(batches(rest, batch_size as nat) == seq![rest]);
            assert(all.subrange(end as int, n as int) =~= Seq::<PointView>::empty());
        } else {
            assert(rest.subrange(0, batch_size as int) =~= all.subrange(i as int, end as int));
            assert(rest.subrange(batch_size as int, rest.len() as int) =~= all.subrange(end as int, n as int));
        }
        assert(out@.map_values(|b: Vec<MutationPoint>| point_views(b@)) =~= prev.map_values(
            |b: Vec<MutationPoint>| point_views(b@),
        ).push(all.subrange(i as int, end as int)));
        assert(out@.map_values(|b: Vec<MutationPoint>| point_views(b@)) + batches(
            all.subrange(end as int, n as int),
            batch_size as nat,
        ) =~= batches(all, batch_size as nat));
        i = end;
    }
    assert(all.subrange(n as int, n as int) =~= Seq::<PointView>::empty());
    assert(out@.map_values(|b: Vec<MutationPoint>| point_views(b@)) =~= out@.map_values(
        |b: Vec<MutationPoint>| point_views(b@),
    ) + batches(all.subrange(n as int, n as int), batch_size as nat));
    out
}

/// The number of results with status `st`.
pub open spec fn count_status(rs: Seq<MutationResult>, st: MutationStatus) -> nat
    decreases rs.len(),
{
    if rs.len() == 0 {
        0
    } else {
        count_status(rs.drop_last(), st) + if rs.last().status == st { 1nat } else { 0nat }
    }
}

/// How many results there are, and how many have each status.
#[derive(Debug, Clone, Copy, PartialEq, Eq, Structural)]
pub struct StatusTally {
    pub total: usize,
    pub killed: usize,
    pub survived: usize,
    pub timeouts: usize,
    pub compile_errors: usize,
}

/// A count of results never exceeds their number.
proof fn lemma_count_status_bound(rs: Seq<MutationResult>, st: MutationStatus)
    ensures
        count_status(rs, st) <= rs.len(),
    decreases rs.len(),
{
    if rs.len() > 0 {
        lemma_count_status_bound(rs.drop_last(), st);
    }
}

/// Counts the results by status.
pub fn tally_statuses(results: &[MutationResult]) -> (r: StatusTally)
    ensures
        r.total == results@.len(),
        r.killed == count_status(results@, MutationStatus::Killed),
        r.survived == count_status(results@, MutationStatus::Survived),
        r.timeouts == count_status(results@, MutationStatus::Timeout),
        r.compile_errors == count_status(results@, MutationStatus::CompileError),
{
    let mut t = StatusTally { total: 0, killed: 0, survived: 0, timeouts: 0, compile_errors: 0 };
    let mut i: usize = 0;
    while i < results.len()
        invariant
            i <= results@.len(),
            t.total == i,
            t.killed == count_status(results@.subrange(0, i as int), MutationStatus::Killed),
            t.survived == count_status(results@.subrange(0, i as int), MutationStatus::Survived),
            t.timeouts == count_status(results@.subrange(0, i as int), MutationStatus::Timeout),
            t.compile_errors == count_status(results@.subrange(0, i as int), MutationStatus::CompileError),
        decreases results@.len() - i,
    {
        let ghost next = results@.subrange(0, i + 1);
        assert(next.drop_last() =~= results@.subrange(0, i as int));
        proof {
            lemma_count_status_bound(results@.subrange(0, i as int), MutationStatus::Killed);
            lemma_count_status_bound(results@.subrange(0, i as int), MutationStatus::Survived);
            lemma_count_status_bound(results@.subrange(0, i as int), MutationStatus::Timeout);
            lemma_count_status_bound(results@.subrange(0, i as int), MutationStatus::CompileError);
        }
        match results[i].status {
            MutationStatus::Killed => t.killed = t.killed + 1,
            MutationStatus::Survived => t.survived = t.survived + 1,
            MutationStatus::Timeout => t.timeouts = t.timeouts + 1,
            MutationStatus::CompileError => t.compile_errors = t.compile_errors + 1,
            MutationStatus::Skipped => {},
        }
        t.total = t.total + 1;
        i = i + 1;
    }
    assert(results@.subrange(0, results@.len() as int) =~= results@);
    t
}

/// The points of the results that survived, in order.
pub open spec fn survivors(rs: Seq<MutationResult>) -> Seq<PointView>
    decreases rs.len(),
{
    if rs.len() == 0 {
        Seq::empty()
    } else if rs.last().status == MutationStatus::Survived {
        survivors(rs.drop_last()).push(rs.last().mutation@)
    } else {
        survivors(rs.drop_last())
    }
}

/// The mutation points that survived the tests, in order.
pub fn survived_points(results: &[MutationResult]) -> (r: Vec<MutationPoint>)
    ensures
        point_views(r@) == survivors(results@),
{
    let mut out: Vec<MutationPoint> = Vec::new();
    let mut i: usize = 0;
    while i < results.len()
        invariant
            i <= results@.len(),
            point_views(out@) == survivors(results@.subrange(0, i as int)),
        decreases results@.len() - i,
    {
        let ghost before = out@;
        assert(results@.subrange(0, i + 1).drop_last() =~= results@.subrange(0, i as int));
        if results[i].status == MutationStatus::Survived {
            out.push(results[i].mutation.copy());
            assert(point_views(out@) =~= point_views(before).push(results@[i as int].mutation@));
        }
        i = i + 1;
    }
    assert(results@.subrange(0, results@.len() as int) =~= results@);
    out
}

/// The test to suggest for a mutation, by the name of its operator.
pub open spec fn suggestion_text(name: Seq<char>) -> Seq<char> {
    if contains_seq(name, "Comparison"@) {
        "Add test case for boundary condition (equal values)"@
    } else if contains_seq(name, "Arithmetic"@) {
        "Add assertion to verify computation result"@
    } else if contains_seq(name, "Logical"@) {
        "Test both true and false branches"@
    } else {
        "Add test to cover this mutation"@
    }
}

/// A mutation as the annotation of its line.
#[derive(Debug, Clone)]
pub struct Annotation {
    pub mutation: MutationPoint,
    pub status: MutationStatus,
    pub suggestion: String,
}

/// An annotation: point, status and suggestion.
pub type AnnView = (PointView, MutationStatus, Seq<char>);

impl View for Annotation {
    type V = AnnView;

    open spec fn view(&self) -> AnnView {
        (self.mutation@, self.status, self.suggestion@)
    }
}

/// Where the annotated source came from and how much of it is annotated.
#[derive(Debug, Clone)]
pub struct SourceMetadata {
    pub file_path: String,
    pub total_lines: usize,
    pub annotated_lines: usize,
}

/// Source text with the mutations of each line.
#[derive(Debug, Clone)]
pub struct AnnotatedSource {
    pub source: String,
    pub annotations: HashMap<usize, Vec<Annotation>>,
    pub metadata: SourceMetadata,
}

/// The annotation that a result gives its line.
pub open spec fn result_annotation(r: MutationResult) -> AnnView {
    (r.mutation@, r.status, suggestion_text(r.mutation.operator_name@))
}

/// The annotations of the results, grouped by line, each line's in result order.
pub open spec fn annotation_map(rs: Seq<MutationResult>) -> Map<usize, Seq<AnnView>>
    decreases rs.len(),
{
    if rs.len() == 0 {
        Map::empty()
    } else {
        let m = annotation_map(rs.drop_last());
        let k = rs.last().mutation.line;
        let a = result_annotation(rs.last());
        m.insert(k, if m.contains_key(k) { m[k].push(a) } else { seq![a] })
    }
}

/// The annotations of a map, as views.
pub open spec fn ann_views(m: Map<usize, Vec<Annotation>>) -> Map<usize, Seq<AnnView>> {
    m.map_values(|v: Vec<Annotation>| v@.map_values(|a: Annotation| a@))
}

/// The annotation map is finite.
proof fn lemma_annotation_map_finite(rs: Seq<MutationResult>)
    ensures
        annotation_map(rs).dom().finite(),
    decreases rs.len(),
{
    if rs.len() > 0 {
        lemma_annotation_map_finite(rs.drop_last());
    }
}

impl AnnotatedSource {
    /// The test to suggest for a mutation: by whether its operator's name mentions a
    /// comparison, arithmetic or logic.
    pub fn suggestion_for_mutation(mutation: &MutationPoint) -> (r: String)
        ensures
            r@ == suggestion_text(mutation.operator_name@),
    {
        let name = mutation.operator_name.as_str();
        if str_contains(name, "Comparison") {
            owned("Add test case for boundary condition (equal values)")
        } else if str_contains(name, "Arithmetic") {
            owned("Add assertion to verify computation result")
        } else if str_contains(name, "Logical") {
            owned("Test both true and false branches")
        } else {
            owned("Add test to cover this mutation")
        }
    }

    /// Annotates `source` with the results: each result's mutation, status and suggested
    /// test go to its line; the metadata counts the lines and the annotated lines.
    pub fn annotate(source: &str, results: Vec<MutationResult>) -> (r: Self)
        ensures
            r.source@ == source@,
            ann_views(r.annotations@) == annotation_map(results@),
            r.metadata.file_path@ == "source.rs"@,
            r.metadata.total_lines == text_lines(source@).len(),
            r.metadata.annotated_lines == annotation_map(results@).dom().len(),
    {
        broadcast use group_hash_axioms;

        let lines = split_lines(source);
        let total_lines = lines.len();
        let mut annotations: HashMap<usize, Vec<Annotation>> = HashMap::new();
        let mut i: usize = 0;
        assert(results@.subrange(0, 0) =~= Seq::<MutationResult>::empty());
        assert(ann_views(annotations@) =~= annotation_map(results@.subrange(0, 0)));
        while i < results.len()
            invariant
                i <= results@.len(),
                ann_views(annotations@) == annotation_map(results@.subrange(0, i as int)),
            decreases results@.len() - i,
        {
            let ghost prefix = results@.subrange(0, i as int);
            let ghost m = annotation_map(prefix);
            assert(results@.subrange(0, i + 1).drop_last() =~= prefix);
            let line_num = results[i].mutation.line;
            let annotation = Annotation {
                mutation: results[i].mutation.copy(),
                status: results[i].status,
                suggestion: Self::suggestion_for_mutation(&results[i].mutation),
            };
            let ghost a = annotation@;
            let ghost old_map = annotations@;
            let existing = annotations.remove(&line_num);
            let mut entry: Vec<Annotation> = match existing {
                Some(v) => v,
                None => Vec::new(),
            };
            let ghost old_entry = entry@;
            entry.push(annotation);
            annotations.insert(line_num, entry);
            proof {
                assert(entry@.map_values(|x: Annotation| x@) =~= old_entry.map_values(|x: Annotation| x@).push(a));
                if m.contains_key(line_num) {
                    assert(old_map.contains_key(line_num));
                    assert(old_entry == old_map[line_num]@);
                } else {
                    assert(!old_map.contains_key(line_num));
                    assert(old_entry.map_values(|x: Annotation| x@) =~= Seq::<AnnView>::empty());
                }
                assert(ann_views(annotations@) =~= annotation_map(results@.subrange(0, i + 1)));
            }
            i = i + 1;
        }
        assert(results@.subrange(0, results@.len() as int) =~= results@);
        proof {
            lemma_annotation_map_finite(results@);
            assert(annotations@.dom() =~= annotation_map(results@).dom());
        }
        let annotated_lines = annotations.len();
        AnnotatedSource {
            source: owned(source),
            annotations,
            metadata: SourceMetadata { file_path: owned("source.rs"), total_lines, annotated_lines },
        }
    }
}

/// The label of a status in the terminal rendering.
pub open spec fn status_label(st: MutationStatus) -> Seq<char> {
    match st {
        MutationStatus::Killed => "✓ Killed"@,
        MutationStatus::Survived => "✗ Survived"@,
        MutationStatus::Timeout => "⏱ Timeout"@,
        MutationStatus::CompileError => "⚠ Compile Error"@,
        MutationStatus::Skipped => "⊘ Skipped"@,
    }
}

/// The terminal lines that describe the annotations of one source line.
pub open spec fn annotation_lines(anns: Seq<AnnView>) -> Seq<char>
    decreases anns.len(),
{
    if anns.len() == 0 {
        Seq::empty()
    } else {
        let a = anns.last();
        annotation_lines(anns.drop_last()) + "     └─ "@ + status_label(a.1) + " - "@ + a.2 + "\n"@
    }
}

/// The terminal rendering: each line numbered from 1 (right-aligned in four columns),
/// followed by the descriptions of its annotations.
pub open spec fn terminal_text(ls: Seq<Seq<char>>, m: Map<usize, Seq<AnnView>>) -> Seq<char>
    decreases ls.len(),
{
    if ls.len() == 0 {
        Seq::empty()
    } else {
        let k = ls.len() - 1;
        terminal_text(ls.drop_last(), m) + padded_decimal((k + 1) as nat, 4) + seq![' '] + ls.last() + seq!['\n']
            + if m.contains_key(k as usize) {
            annotation_lines(m[k as usize])
        } else {
            Seq::empty()
        }
    }
}

/// The HTML rendering of the lines: one `div` per line, of class `annotated` or
/// `normal`, with its number and its text escaped.
pub open spec fn html_lines(ls: Seq<Seq<char>>, m: Map<usize, Seq<AnnView>>) -> Seq<char>
    decreases ls.len(),
{
    if ls.len() == 0 {
        Seq::empty()
    } else {
        let k = ls.len() - 1;
        html_lines(ls.drop_last(), m) + "<div class=\""@ + (if m.contains_key(k as usize) {
            "annotated"@
        } else {
            "normal"@
        }) + "\"><span class=\"line-num\">"@ + decimal((k + 1) as nat) + "</span> "@ + escape_angles(ls.last())
            + "</div>"@
    }
}

/// The page around the rendered lines.
pub open spec fn html_page(body: Seq<char>) -> Seq<char> {
    "<!DOCTYPE html>\n<html>\n<head>\n    <style>\n        .line-num { color: #999; margin-right: 1em; }\n        .annotated { background-color: #ffe6e6; }\n        .normal { }\n    </style>\n</head>\n<body>\n    <pre>"@ + body + "</pre>\n</body>\n</html>"@
}

/// Appends the description lines of some annotations.
fn append_annotations(out: &mut Vec<char>, anns: &Vec<Annotation>)
    ensures
        final(out)@ == old(out)@ + annotation_lines(anns@.map_values(|a: Annotation| a@)),
{
    let ghost av = anns@.map_values(|a: Annotation| a@);
    let mut j: usize = 0;
    assert(av.subrange(0, 0) =~= Seq::<AnnView>::empty());
    while j < anns.len()
        invariant
            av == anns@.map_values(|a: Annotation| a@),
            j <= anns@.len(),
            out@ == old(out)@ + annotation_lines(av.subrange(0, j as int)),
        decreases anns@.len() - j,
    {
        assert(av.subrange(0, j + 1).drop_last() =~= av.subrange(0, j as int));
        let ghost before = out@;
        append_str(out, "     └─ ");
        match anns[j].status {
            MutationStatus::Killed => append_str(out, "✓ Killed"),
            MutationStatus::Survived => append_str(out, "✗ Survived"),
            MutationStatus::Timeout => append_str(out, "⏱ Timeout"),
            MutationStatus::CompileError => append_str(out, "⚠ Compile Error"),
            MutationStatus::Skipped => append_str(out, "⊘ Skipped"),
        }
        append_str(out, " - ");
        append_str(out, anns[j].suggestion.as_str());
        append_str(out, "\n");
        assert(out@ =~= old(out)@ + annotation_lines(av.subrange(0, j + 1)));
        j = j + 1;
    }
    assert(av.subrange(0, anns@.len() as int) =~= av);
}

impl AnnotatedSource {
    /// The source for a terminal: numbered lines, each followed by its annotations.
    pub fn render_terminal(&self) -> (r: String)
        ensures
            r@ == terminal_text(text_lines(self.source@), ann_views(self.annotations@)),
    {
        broadcast use group_hash_axioms;

        let lines = split_lines(self.source.as_str());
        let ghost ls = text_lines(self.source@);
        let ghost m = ann_views(self.annotations@);
        let mut out: Vec<char> = Vec::new();
        let mut i: usize = 0;
        assert(ls.subrange(0, 0) =~= Seq::<Seq<char>>::empty());
        while i < lines.len()
            invariant
                lines@.map_values(|l: &str| l@) == ls,
                m == ann_views(self.annotations@),
                i <= lines@.len(),
                out@ == terminal_text(ls.subrange(0, i as int), m),
            decreases lines@.len() - i,
        {
            assert(ls.subrange(0, i + 1).drop_last() =~= ls.subrange(0, i as int));
            assert(ls.subrange(0, i + 1).last() == lines@[i as int]@);
            let ghost before = out@;
            append_padded(&mut out, (i + 1) as u64, 4);
            out.push(' ');
            append_str(&mut out, lines[i]);
            out.push('\n');
            let ghost mid = out@;
            match self.annotations.get(&i) {
                Some(anns) => {
                    append_annotations(&mut out, anns);
                    assert(m.contains_key(i));
                },
                None => {
                    assert(!m.contains_key(i));
                },
            }
            proof {
                reveal_strlit("\n");
                assert(out@ =~= terminal_text(ls.subrange(0, i + 1), m));
            }
            i = i + 1;
        }
        assert(ls.subrange(0, lines@.len() as int) =~= ls);
        string_from_chars(out.as_slice())
    }

    /// The source as an HTML page: one `div` per line, marked when annotated.
    pub fn render_html(&self) -> (r: String)
        ensures
            r@ == html_page(html_lines(text_lines(self.source@), ann_views(self.annotations@))),
    {
        broadcast use group_hash_axioms;

        let lines = split_lines(self.source.as_str());
        let ghost ls = text_lines(self.source@);
        let ghost m = ann_views(self.annotations@);
        let mut body: Vec<char> = Vec::new();
        let mut i: usize = 0;
        assert(ls.subrange(0, 0) =~= Seq::<Seq<char>>::empty());
        while i < lines.len()
            invariant
                lines@.map_values(|l: &str| l@) == ls,
                m == ann_views(self.annotations@),
                i <= lines@.len(),
                body@ == html_lines(ls.subrange(0, i as int), m),
            decreases lines@.len() - i,
        {
            assert(ls.subrange(0, i + 1).drop_last() =~= ls.subrange(0, i as int));
            assert(ls.subrange(0, i + 1).last() == lines@[i as int]@);
            append_str(&mut body, "<div class=\"");
            if self.annotations.contains_key(&i) {
                assert(m.contains_key(i));
                append_str(&mut body, "annotated");
            } else {
                assert(!m.contains_key(i));
                append_str(&mut body, "normal");
            }
            append_str(&mut body, "\"><span class=\"line-num\">");
            let digits = crate::text::decimal_chars((i + 1) as u64);
            append_chars(&mut body, digits.as_slice());
            append_str(&mut body, "</span> ");
            append_escaped(&mut body, lines[i]);
            append_str(&mut body, "</div>");
            assert(body@ =~= html_lines(ls.subrange(0, i + 1), m));
            i = i + 1;
        }
        assert(ls.subrange(0, lines@.len() as int) =~= ls);
        let mut page: Vec<char> = Vec::new();
        append_str(&mut page, "<!DOCTYPE html>\n<html>\n<head>\n    <style>\n        .line-num { color: #999; margin-right: 1em; }\n        .annotated { background-color: #ffe6e6; }\n        .normal { }\n    </style>\n</head>\n<body>\n    <pre>");
        append_chars(&mut page, body.as_slice());
        append_str(&mut page, "</pre>\n</body>\n</html>");
        string_from_chars(page.as_slice())
    }
}

} // verus!
