//! Arithmetic expressions over `i64`: expression trees (by reference and boxed), a
//! lexer, a recursive-descent parser with the usual precedence, and evaluation that
//! reports division by zero.
use vstd::prelude::*;
use crate::text::{owned, append_str, append_chars, decimal, decimal_chars, string_from_chars};
use crate::interning::{is_ws, is_whitespace_char};
use crate::regex::{is_digit, digit_run, digits_value, lemma_digit_run_prefix, lemma_digits_monotone};

verus! {

/// A binary arithmetic operator.
#[derive(Debug, Clone, Copy, PartialEq, Eq, Structural)]
pub enum OpType {
    Add,
    Sub,
    Mul,
    Div,
}

/// The quotient of `x` by `d` rounded toward zero, as `i64` division computes it.
pub open spec fn quotient(x: int, d: int) -> int {
    if x == 0 {
        0
    } else if x > 0 && d > 0 {
        x / d
    } else if x < 0 && d < 0 {
        (x * -1) / (d * -1)
    } else if x < 0 {
        ((x * -1) / d) * -1
    } else {
        (x / (d * -1)) * -1
    }
}

/// The exact result of applying `op`; `None` for a division by zero.
pub open spec fn apply(op: OpType, a: int, b: int) -> Option<int> {
    match op {
        OpType::Add => Some(a + b),
        OpType::Sub => Some(a - b),
        OpType::Mul => Some(a * b),
        OpType::Div => if b == 0 { None } else { Some(quotient(a, b)) },
    }
}

/// Whether `v` is a value of `i64`.
pub open spec fn in_i64(v: int) -> bool {
    i64::MIN <= v <= i64::MAX
}

/// Applying `op` to `a` and `b` does not overflow `i64`.
pub open spec fn apply_fits(op: OpType, a: int, b: int) -> bool {
    apply(op, a, b) matches Some(v) ==> in_i64(v)
}

/// The message of a division by zero.
pub open spec fn div_zero_text() -> Seq<char> {
    "Division by zero"@
}

fn div_zero_message() -> (r: String)
    ensures
        r@ == div_zero_text(),
{
    owned("Division by zero")
}

impl OpType {
    /// Applies the operator; division by zero is an error.
    pub fn eval(&self, left: i64, right: i64) -> (r: Result<i64, String>)
        requires
            apply_fits(*self, left as int, right as int),
        ensures
            match apply(*self, left as int, right as int) {
                Some(v) => r == Ok::<i64, String>(v as i64),
                None => r matches Err(m) && m@ == div_zero_text(),
            },
    {
        match self {
            OpType::Add => Ok(left + right),
            OpType::Sub => Ok(left - right),
            OpType::Mul => Ok(left * right),
            OpType::Div => {
                if right == 0 {
                    Err(div_zero_message())
                } else {
                    match left.checked_div(right) {
                        Some(q) => Ok(q),
                        None => Err(div_zero_message()),
                    }
                }
            },
        }
    }
}

/// An expression tree whose children are boxed.
#[derive(Debug, PartialEq)]
pub enum BoxExpr {
    Literal(i64),
    BinOp { op: OpType, left: Box<BoxExpr>, right: Box<BoxExpr> },
}

/// The value of a tree, evaluating the left operand first; `None` once a division by
/// zero is met.
pub open spec fn value(e: BoxExpr) -> Option<int>
    decreases e,
{
    match e {
        BoxExpr::Literal(n) => Some(n as int),
        BoxExpr::BinOp { op, left, right } => match value(*left) {
            None => None,
            Some(a) => match value(*right) {
                None => None,
                Some(b) => apply(op, a, b),
            },
        },
    }
}

/// Evaluating the tree overflows `i64` at no step that is reached.
pub open spec fn fits(e: BoxExpr) -> bool
    decreases e,
{
    match e {
        BoxExpr::Literal(_) => true,
        BoxExpr::BinOp { op, left, right } => {
            &&& fits(*left)
            &&& value(*left) matches Some(a) ==> {
                &&& fits(*right)
                &&& value(*right) matches Some(b) ==> apply_fits(op, a, b)
            }
        },
    }
}

proof fn lemma_value_in_range(e: BoxExpr)
    requires
        fits(e),
    ensures
        value(e) matches Some(v) ==> in_i64(v),
    decreases e,
{
    match e {
        BoxExpr::Literal(_) => {},
        BoxExpr::BinOp { op, left, right } => {
            lemma_value_in_range(*left);
            if value(*left) is Some {
                lemma_value_in_range(*right);
            }
        },
    }
}

impl BoxExpr {
    /// Evaluates the tree; a division by zero is an error.
    pub fn eval(&self) -> (r: Result<i64, String>)
        requires
            fits(*self),
        ensures
            match value(*self) {
                Some(v) => r == Ok::<i64, String>(v as i64),
                None => r matches Err(m) && m@ == div_zero_text(),
            },
        decreases self,
    {
        match self {
            BoxExpr::Literal(n) => Ok(*n),
            BoxExpr::BinOp { op, left, right } => {
                proof {
                    lemma_value_in_range(**left);
                }
                let a = match left.eval() {
                    Ok(a) => a,
                    Err(m) => return Err(m),
                };
                proof {
                    lemma_value_in_range(**right);
                }
                let b = match right.eval() {
                    Ok(b) => b,
                    Err(m) => return Err(m),
                };
                op.eval(a, b)
            },
        }
    }
}

/// Constructors of boxed trees.
pub struct BoxExprBuilder;

impl BoxExprBuilder {
    /// A literal.
    pub fn literal(n: i64) -> (r: Box<BoxExpr>)
        ensures
            *r == BoxExpr::Literal(n),
    {
        Box::new(BoxExpr::Literal(n))
    }

    /// `left op right`.
    pub fn binary(op: OpType, left: Box<BoxExpr>, right: Box<BoxExpr>) -> (r: Box<BoxExpr>)
        ensures
            *r == (BoxExpr::BinOp { op, left, right }),
    {
        Box::new(BoxExpr::BinOp { op, left, right })
    }

    /// `left + right`.
    pub fn add(left: Box<BoxExpr>, right: Box<BoxExpr>) -> (r: Box<BoxExpr>)
        ensures
            *r == (BoxExpr::BinOp { op: OpType::Add, left, right }),
    {
        Self::binary(OpType::Add, left, right)
    }

    /// `left - right`.
    pub fn sub(left: Box<BoxExpr>, right: Box<BoxExpr>) -> (r: Box<BoxExpr>)
        ensures
            *r == (BoxExpr::BinOp { op: OpType::Sub, left, right }),
    {
        Self::binary(OpType::Sub, left, right)
    }

    /// `left * right`.
    pub fn mul(left: Box<BoxExpr>, right: Box<BoxExpr>) -> (r: Box<BoxExpr>)
        ensures
            *r == (BoxExpr::BinOp { op: OpType::Mul, left, right }),
    {
        Self::binary(OpType::Mul, left, right)
    }

    /// `left / right`.
    pub fn div(left: Box<BoxExpr>, right: Box<BoxExpr>) -> (r: Box<BoxExpr>)
        ensures
            *r == (BoxExpr::BinOp { op: OpType::Div, left, right }),
    {
        Self::binary(OpType::Div, left, right)
    }
}

/// An expression tree whose children are borrowed.
#[derive(Debug, PartialEq)]
pub enum Expr<'arena> {
    Literal(i64),
    BinOp { op: OpType, left: &'arena Expr<'arena>, right: &'arena Expr<'arena> },
}

/// The value of a borrowed tree, as `value` defines it for boxed trees.
pub open spec fn ref_value(e: Expr) -> Option<int>
    decreases e,
{
    match e {
        Expr::Literal(n) => Some(n as int),
        Expr::BinOp { op, left, right } => match ref_value(*left) {
            None => None,
            Some(a) => match ref_value(*right) {
                None => None,
                Some(b) => apply(op, a, b),
            },
        },
    }
}

/// Evaluating the borrowed tree overflows `i64` at no step that is reached.
pub open spec fn ref_fits(e: Expr) -> bool
    decreases e,
{
    match e {
        Expr::Literal(_) => true,
        Expr::BinOp { op, left, right } => {
            &&& ref_fits(*left)
            &&& ref_value(*left) matches Some(a) ==> {
                &&& ref_fits(*right)
                &&& ref_value(*right) matches Some(b) ==> apply_fits(op, a, b)
            }
        },
    }
}

proof fn lemma_ref_value_in_range(e: Expr)
    requires
        ref_fits(e),
    ensures
        ref_value(e) matches Some(v) ==> in_i64(v),
    decreases e,
{
    match e {
        Expr::Literal(_) => {},
        Expr::BinOp { op, left, right } => {
            lemma_ref_value_in_range(*left);
            if ref_value(*left) is Some {
                lemma_ref_value_in_range(*right);
            }
        },
    }
}

impl<'arena> Expr<'arena> {
    /// Evaluates the tree; a division by zero is an error.
    pub fn eval(&self) -> (r: Result<i64, String>)
        requires
            ref_fits(*self),
        ensures
            match ref_value(*self) {
                Some(v) => r == Ok::<i64, String>(v as i64),
                None => r matches Err(m) && m@ == div_zero_text(),
            },
        decreases self,
    {
        match self {
            Expr::Literal(n) => Ok(*n),
            Expr::BinOp { op, left, right } => {
                proof {
                    lemma_ref_value_in_range(**left);
                }
                let a = match left.eval() {
                    Ok(a) => a,
                    Err(m) => return Err(m),
                };
                proof {
                    lemma_ref_value_in_range(**right);
                }
                let b = match right.eval() {
                    Ok(b) => b,
                    Err(m) => return Err(m),
                };
                op.eval(a, b)
            },
        }
    }
}

/// The first offset at or after `len` that is a multiple of `align`: where a bump
/// allocator places a value of that alignment.
pub fn aligned_start(len: usize, align: usize) -> (r: usize)
    requires
        align > 0,
        len + align <= usize::MAX,
    ensures
        r % align == 0,
        len <= r < len + align,
{
    let padding = (align - (len % align)) % align;
    proof {
        let l = len as int;
        let a = align as int;
        assert(l % a < a && (a - l % a) % a < a && (l + (a - l % a) % a) % a == 0) by (nonlinear_arith)
            requires a > 0, l >= 0;
    }
    len + padding
}

/// A token of an arithmetic expression.
#[derive(Debug, Clone, Copy, PartialEq, Eq, Structural)]
pub enum Token {
    Number(i64),
    Plus,
    Minus,
    Star,
    Slash,
    LeftParen,
    RightParen,
    End,
}

/// The decimal rendering of an integer, with a minus sign when negative.
pub open spec fn signed_decimal(n: int) -> Seq<char> {
    if n < 0 { seq!['-'] + decimal((-n) as nat) } else { decimal(n as nat) }
}

/// How a token is written in messages (as `Debug` prints it).
pub open spec fn token_text(t: Token) -> Seq<char> {
    match t {
        Token::Number(n) => "Number("@ + signed_decimal(n as int) + ")"@,
        Token::Plus => "Plus"@,
        Token::Minus => "Minus"@,
        Token::Star => "Star"@,
        Token::Slash => "Slash"@,
        Token::LeftParen => "LeftParen"@,
        Token::RightParen => "RightParen"@,
        Token::End => "End"@,
    }
}

pub(crate) fn append_signed(dst: &mut Vec<char>, n: i64)
    ensures
        final(dst)@ == old(dst)@ + signed_decimal(n as int),
{
    if n < 0 {
        let m: u64 = if n == i64::MIN {
            9223372036854775808u64
        } else {
            (-n) as u64
        };
        dst.push('-');
        let d = decimal_chars(m);
        append_chars(dst, d.as_slice());
        assert(dst@ =~= old(dst)@ + signed_decimal(n as int));
    } else {
        let d = decimal_chars(n as u64);
        append_chars(dst, d.as_slice());
    }
}

/// Appends the message text of `t` to `dst`.
fn append_token_text(dst: &mut Vec<char>, t: Token)
    ensures
        final(dst)@ == old(dst)@ + token_text(t),
{
    match t {
        Token::Number(n) => {
            append_str(dst, "Number(");
            append_signed(dst, n);
            append_str(dst, ")");
            assert(dst@ =~= old(dst)@ + token_text(t));
        },
        Token::Plus => append_str(dst, "Plus"),
        Token::Minus => append_str(dst, "Minus"),
        Token::Star => append_str(dst, "Star"),
        Token::Slash => append_str(dst, "Slash"),
        Token::LeftParen => append_str(dst, "LeftParen"),
        Token::RightParen => append_str(dst, "RightParen"),
        Token::End => append_str(dst, "End"),
    }
}

/// The index of the first character at or after `p` that is not white space.
pub open spec fn skip_ws(s: Seq<char>, p: int) -> int
    decreases s.len() - p,
{
    if 0 <= p < s.len() && is_ws(s[p]) { skip_ws(s, p + 1) } else { p }
}

proof fn lemma_skip_ws_bounds(s: Seq<char>, p: int)
    requires
        0 <= p <= s.len(),
    ensures
        p <= skip_ws(s, p) <= s.len(),
        skip_ws(s, p) < s.len() ==> !is_ws(s[skip_ws(s, p)]),
    decreases s.len() - p,
{
    if p < s.len() && is_ws(s[p]) {
        lemma_skip_ws_bounds(s, p + 1);
    }
}

/// The message for a character that starts no token.
pub open spec fn unexpected_char_text(c: char) -> Seq<char> {
    "Unexpected character '"@ + seq![c] + "'"@
}

/// The value of the run of digits that starts at `q`.
pub open spec fn number_at(s: Seq<char>, q: int) -> nat {
    digits_value(s.skip(q).take(digit_run(s.skip(q)) as int))
}

/// The token that starts at the first non-white-space character at or after `p`, and
/// the index just past it; an error for a character that starts no token. At the end
/// of the input the token is `End`.
pub open spec fn lex_one(s: Seq<char>, p: int) -> Result<(Token, int), Seq<char>> {
    let q = skip_ws(s, p);
    if q >= s.len() {
        Ok((Token::End, q))
    } else {
        let c = s[q];
        if is_digit(c) {
            Ok((Token::Number(number_at(s, q) as i64), q + digit_run(s.skip(q))))
        } else if c == '+' {
            Ok((Token::Plus, q + 1))
        } else if c == '-' {
            Ok((Token::Minus, q + 1))
        } else if c == '*' {
            Ok((Token::Star, q + 1))
        } else if c == '/' {
            Ok((Token::Slash, q + 1))
        } else if c == '(' {
            Ok((Token::LeftParen, q + 1))
        } else if c == ')' {
            Ok((Token::RightParen, q + 1))
        } else {
            Err(unexpected_char_text(c))
        }
    }
}

/// The number read by the step at `p`, if any, fits in `i64`.
pub open spec fn step_fits(s: Seq<char>, p: int) -> bool {
    let q = skip_ws(s, p);
    q < s.len() && is_digit(s[q]) ==> number_at(s, q) <= i64::MAX
}

/// All tokens from `p` on, up to and including `End`; the first error otherwise.
pub open spec fn lex_all(s: Seq<char>, p: int) -> Result<Seq<Token>, Seq<char>>
    decreases s.len() - p,
{
    match lex_one(s, p) {
        Err(m) => Err(m),
        Ok((t, q)) => if t is End {
            Ok(seq![Token::End])
        } else if p < q <= s.len() {
            match lex_all(s, q) {
                Ok(ts) => Ok(seq![t] + ts),
                Err(m) => Err(m),
            }
        } else {
            Err(Seq::empty())
        },
    }
}

/// Every number that lexing from `p` reads fits in `i64`.
pub open spec fn all_fit(s: Seq<char>, p: int) -> bool
    decreases s.len() - p,
{
    &&& step_fits(s, p)
    &&& match lex_one(s, p) {
        Err(_) => true,
        Ok((t, q)) => !(t is End) && p < q <= s.len() ==> all_fit(s, q),
    }
}

proof fn lemma_lex_one_progress(s: Seq<char>, p: int)
    requires
        0 <= p <= s.len(),
    ensures
        lex_one(s, p) matches Ok((t, q)) ==> (t is End ==> q == s.len()) && (!(t is End) ==> p
            < q <= s.len()),
{
    lemma_skip_ws_bounds(s, p);
    let q = skip_ws(s, p);
    if q < s.len() && is_digit(s[q]) {
        let rest = s.skip(q);
        assert(is_digit(rest[0]));
        lemma_digit_run_prefix(rest, 1);
    }
}

/// A lexer over the characters of an expression.
pub struct Lexer {
    input: Vec<char>,
    position: usize,
}

impl Lexer {
    /// The characters being read.
    pub closed spec fn text(&self) -> Seq<char> {
        self.input@
    }

    /// The index of the next character to read.
    pub closed spec fn at(&self) -> int {
        self.position as int
    }

    /// The position lies within the characters.
    pub closed spec fn wf(&self) -> bool {
        self.position <= self.input@.len()
    }

    /// A lexer at the start of `input`.
    pub fn new(input: &str) -> (r: Self)
        ensures
            r.wf(),
            r.text() == input@,
            r.at() == 0,
    {
        Lexer { input: crate::text::chars_of(input), position: 0 }
    }

    fn skip_whitespace(&mut self)
        requires
            old(self).wf(),
        ensures
            final(self).wf(),
            final(self).text() == old(self).text(),
            final(self).at() == skip_ws(old(self).text(), old(self).at()),
    {
        let ghost s = self.input@;
        let ghost p0 = self.position as int;
        while self.position < self.input.len() && is_whitespace_char(self.input[self.position])
            invariant
                self.input@ == s,
                self.wf(),
                skip_ws(s, self.position as int) == skip_ws(s, p0),
            decreases s.len() - self.position,
        {
            self.position = self.position + 1;
        }
    }

    fn read_number(&mut self) -> (r: i64)
        requires
            old(self).wf(),
            old(self).at() < old(self).text().len(),
            is_digit(old(self).text()[old(self).at()]),
            number_at(old(self).text(), old(self).at()) <= i64::MAX,
        ensures
            final(self).wf(),
            final(self).text() == old(self).text(),
            r as int == number_at(old(self).text(), old(self).at()),
            final(self).at() == old(self).at() + digit_run(old(self).text().skip(old(self).at())),
    {
        let ghost s = self.input@;
        let ghost q = self.position as int;
        let ghost rest = s.skip(q);
        let ghost run = digit_run(rest) as int;
        proof {
            assert(is_digit(rest[0]));
            lemma_digit_run_prefix(rest, 1);
        }
        let mut num: i64 = 0;
        while self.position < self.input.len() && (48 <= self.input[self.position] as u32
            && self.input[self.position] as u32 <= 57)
            invariant
                self.input@ == s,
                self.wf(),
                0 <= q <= self.position,
                rest == s.skip(q),
                run == digit_run(rest),
                run <= rest.len(),
                forall|k: int| 0 <= k < self.position - q ==> is_digit(#[trigger] rest[k]),
                num as int == digits_value(rest.take(self.position - q)),
                digits_value(rest.take(run)) <= i64::MAX,
            decreases s.len() - self.position,
        {
            let c = self.input[self.position];
            let ghost k = self.position - q;
            proof {
                assert(rest[k] == c);
                lemma_digit_run_prefix(rest, k + 1);
                lemma_digits_monotone(rest, k + 1, run);
                assert(rest.take(k + 1).drop_last() =~= rest.take(k));
                assert(rest.take(k + 1).last() == c);
            }
            let d = (c as u32 - '0' as u32) as i64;
            num = num * 10 + d;
            self.position = self.position + 1;
        }
        proof {
            lemma_digit_run_prefix(rest, self.position - q);
        }
        num
    }

    /// Reads the next token (see `lex_one`).
    pub fn next_token(&mut self) -> (r: Result<Token, String>)
        requires
            old(self).wf(),
            step_fits(old(self).text(), old(self).at()),
        ensures
            final(self).wf(),
            final(self).text() == old(self).text(),
            match lex_one(old(self).text(), old(self).at()) {
                Ok((t, q)) => r == Ok::<Token, String>(t) && final(self).at() == q,
                Err(m) => r matches Err(x) && x@ == m,
            },
    {
        self.skip_whitespace();
        if self.position >= self.input.len() {
            return Ok(Token::End);
        }
        let c = self.input[self.position];
        if 48 <= c as u32 && c as u32 <= 57 {
            let n = self.read_number();
            return Ok(Token::Number(n));
        }
        let t = if c == '+' {
            Token::Plus
        } else if c == '-' {
            Token::Minus
        } else if c == '*' {
            Token::Star
        } else if c == '/' {
            Token::Slash
        } else if c == '(' {
            Token::LeftParen
        } else if c == ')' {
            Token::RightParen
        } else {
            assert(!is_digit(c));
            let mut msg: Vec<char> = Vec::new();
            append_str(&mut msg, "Unexpected character '");
            msg.push(c);
            append_str(&mut msg, "'");
            assert(msg@ =~= unexpected_char_text(c));
            return Err(string_from_chars(msg.as_slice()));
        };
        self.position = self.position + 1;
        Ok(t)
    }

    /// Reads every token up to and including `End` (see `lex_all`).
    pub fn tokenize(&mut self) -> (r: Result<Vec<Token>, String>)
        requires
            old(self).wf(),
            all_fit(old(self).text(), old(self).at()),
        ensures
            match lex_all(old(self).text(), old(self).at()) {
                Ok(ts) => r matches Ok(v) && v@ == ts,
                Err(m) => r matches Err(x) && x@ == m,
            },
    {
        let ghost s = self.input@;
        let ghost p0 = self.position as int;
        let mut tokens: Vec<Token> = Vec::new();
        loop
            invariant
                self.wf(),
                self.input@ == s,
                s == old(self).text(),
                p0 == old(self).at(),
                all_fit(s, self.at()),
                lex_all(s, p0) == match lex_all(s, self.at()) {
                    Ok(ts) => Ok(tokens@ + ts),
                    Err(m) => Err::<Seq<Token>, Seq<char>>(m),
                },
            decreases s.len() - self.position,
        {
            let ghost p = self.position as int;
            proof {
                lemma_lex_one_progress(s, p);
            }
            let t = match self.next_token() {
                Ok(t) => t,
                Err(m) => return Err(m),
            };
            let ghost before = tokens@;
            tokens.push(t);
            if t == Token::End {
                assert(lex_all(s, p) == Ok::<Seq<Token>, Seq<char>>(seq![Token::End]));
                assert(tokens@ =~= before + seq![Token::End]);
                return Ok(tokens);
            }
            proof {
                let q = self.at();
                assert(p < q <= s.len());
                assert(lex_all(s, p) == match lex_all(s, q) {
                    Ok(ts) => Ok(seq![t] + ts),
                    Err(m) => Err::<Seq<Token>, Seq<char>>(m),
                });
                match lex_all(s, q) {
                    Ok(ts) => {
                        assert(before + (seq![t] + ts) =~= tokens@ + ts);
                    },
                    Err(m) => {},
                }
            }
        }
    }
}

/// The token at `p`; `End` past the end.
pub open spec fn tok_at(ts: Seq<Token>, p: int) -> Token {
    if 0 <= p < ts.len() { ts[p] } else { Token::End }
}

/// The message when a number or `(` was expected.
pub open spec fn factor_error(found: Token) -> Seq<char> {
    "Expected number or '(', found "@ + token_text(found)
}

/// The message when a given token was expected.
pub open spec fn expect_error(expected: Token, found: Token) -> Seq<char> {
    "Expected "@ + token_text(expected) + ", found "@ + token_text(found)
}

/// The message for tokens left after a complete expression.
pub open spec fn trailing_error(found: Token) -> Seq<char> {
    "Unexpected token: "@ + token_text(found)
}

/// `factor := Number | '(' expr ')'` at `p`: the tree and the index after it.
pub open spec fn parse_factor_s(ts: Seq<Token>, p: int) -> Result<(BoxExpr, int), Seq<char>>
    decreases ts.len() - p, 0nat,
{
    let t = tok_at(ts, p);
    if !(0 <= p < ts.len()) {
        Err(factor_error(t))
    } else {
        match t {
            Token::Number(n) => Ok((BoxExpr::Literal(n), p + 1)),
            Token::LeftParen => match parse_expr_s(ts, p + 1) {
                Err(m) => Err(m),
                Ok((e, q)) => if tok_at(ts, q) == Token::RightParen {
                    Ok((e, q + 1))
                } else {
                    Err(expect_error(Token::RightParen, tok_at(ts, q)))
                },
            },
            _ => Err(factor_error(t)),
        }
    }
}

/// `term := factor (('*' | '/') factor)*` at `p`, operators grouping to the left.
pub open spec fn parse_term_s(ts: Seq<Token>, p: int) -> Result<(BoxExpr, int), Seq<char>>
    decreases ts.len() - p, 1nat,
{
    match parse_factor_s(ts, p) {
        Err(m) => Err(m),
        Ok((f, q)) => if p < q <= ts.len() {
            term_rest_s(ts, q, f)
        } else {
            Err(Seq::empty())
        },
    }
}

/// The rest of a term after `acc`, from `q` on.
pub open spec fn term_rest_s(ts: Seq<Token>, q: int, acc: BoxExpr) -> Result<(BoxExpr, int), Seq<char>>
    decreases ts.len() - q, 1nat,
{
    let t = tok_at(ts, q);
    if 0 <= q < ts.len() && (t == Token::Star || t == Token::Slash) {
        let op = if t == Token::Star { OpType::Mul } else { OpType::Div };
        match parse_factor_s(ts, q + 1) {
            Err(m) => Err(m),
            Ok((f, q2)) => if q + 1 < q2 <= ts.len() {
                term_rest_s(ts, q2, BoxExpr::BinOp { op, left: Box::new(acc), right: Box::new(f) })
            } else {
                Err(Seq::empty())
            },
        }
    } else {
        Ok((acc, q))
    }
}

/// `expr := term (('+' | '-') term)*` at `p`, operators grouping to the left.
pub open spec fn parse_expr_s(ts: Seq<Token>, p: int) -> Result<(BoxExpr, int), Seq<char>>
    decreases ts.len() - p, 2nat,
{
    match parse_term_s(ts, p) {
        Err(m) => Err(m),
        Ok((t, q)) => if p < q <= ts.len() {
            expr_rest_s(ts, q, t)
        } else {
            Err(Seq::empty())
        },
    }
}

/// The rest of an expression after `acc`, from `q` on.
pub open spec fn expr_rest_s(ts: Seq<Token>, q: int, acc: BoxExpr) -> Result<(BoxExpr, int), Seq<char>>
    decreases ts.len() - q, 2nat,
{
    let t = tok_at(ts, q);
    if 0 <= q < ts.len() && (t == Token::Plus || t == Token::Minus) {
        let op = if t == Token::Plus { OpType::Add } else { OpType::Sub };
        match parse_term_s(ts, q + 1) {
            Err(m) => Err(m),
            Ok((e, q2)) => if q + 1 < q2 <= ts.len() {
                expr_rest_s(ts, q2, BoxExpr::BinOp { op, left: Box::new(acc), right: Box::new(e) })
            } else {
                Err(Seq::empty())
            },
        }
    } else {
        Ok((acc, q))
    }
}

/// A whole expression from `p` on, which must be followed by `End`.
pub open spec fn parse_s(ts: Seq<Token>, p: int) -> Result<BoxExpr, Seq<char>> {
    match parse_expr_s(ts, p) {
        Err(m) => Err(m),
        Ok((e, q)) => if tok_at(ts, q) == Token::End {
            Ok(e)
        } else {
            Err(trailing_error(tok_at(ts, q)))
        },
    }
}

fn token_message(prefix: &str, t: Token) -> (r: String)
    ensures
        r@ == prefix@ + token_text(t),
{
    let mut v: Vec<char> = Vec::new();
    append_str(&mut v, prefix);
    append_token_text(&mut v, t);
    string_from_chars(v.as_slice())
}

fn expect_message(expected: Token, found: Token) -> (r: String)
    ensures
        r@ == expect_error(expected, found),
{
    let mut v: Vec<char> = Vec::new();
    append_str(&mut v, "Expected ");
    append_token_text(&mut v, expected);
    append_str(&mut v, ", found ");
    append_token_text(&mut v, found);
    string_from_chars(v.as_slice())
}

/// A recursive-descent parser over a sequence of tokens.
pub struct Parser {
    tokens: Vec<Token>,
    position: usize,
}

impl Parser {
    /// The tokens being parsed.
    pub closed spec fn toks(&self) -> Seq<Token> {
        self.tokens@
    }

    /// The index of the next token.
    pub closed spec fn at(&self) -> int {
        self.position as int
    }

    /// The position lies within the tokens.
    pub closed spec fn wf(&self) -> bool {
        self.position <= self.tokens@.len()
    }

    /// A parser at the first of `tokens`.
    pub fn new(tokens: Vec<Token>) -> (r: Self)
        ensures
            r.wf(),
            r.toks() == tokens@,
            r.at() == 0,
    {
        Parser { tokens, position: 0 }
    }

    fn peek(&self) -> (r: Token)
        ensures
            r == tok_at(self.tokens@, self.position as int),
    {
        if self.position < self.tokens.len() {
            self.tokens[self.position]
        } else {
            Token::End
        }
    }

    fn parse_factor(&mut self) -> (r: Result<Box<BoxExpr>, String>)
        requires
            old(self).wf(),
        ensures
            final(self).wf(),
            final(self).tokens@ == old(self).tokens@,
            match parse_factor_s(old(self).tokens@, old(self).position as int) {
                Ok((e, q)) => r matches Ok(b) && *b == e && final(self).position == q,
                Err(m) => r matches Err(x) && x@ == m,
            },
            r is Ok ==> old(self).position < final(self).position,
        decreases old(self).tokens@.len() - old(self).position, 0nat,
    {
        let t = self.peek();
        if self.position >= self.tokens.len() {
            return Err(token_message("Expected number or '(', found ", t));
        }
        match t {
            Token::Number(n) => {
                self.position = self.position + 1;
                Ok(BoxExprBuilder::literal(n))
            },
            Token::LeftParen => {
                self.position = self.position + 1;
                let e = self.parse_expr()?;
                let close = self.peek();
                if close == Token::RightParen {
                    self.position = self.position + 1;
                    Ok(e)
                } else {
                    Err(expect_message(Token::RightParen, close))
                }
            },
            _ => Err(token_message("Expected number or '(', found ", t)),
        }
    }

    fn parse_term(&mut self) -> (r: Result<Box<BoxExpr>, String>)
        requires
            old(self).wf(),
        ensures
            final(self).wf(),
            final(self).tokens@ == old(self).tokens@,
            match parse_term_s(old(self).tokens@, old(self).position as int) {
                Ok((e, q)) => r matches Ok(b) && *b == e && final(self).position == q,
                Err(m) => r matches Err(x) && x@ == m,
            },
            r is Ok ==> old(self).position < final(self).position,
        decreases old(self).tokens@.len() - old(self).position, 1nat,
    {
        let ghost ts = self.tokens@;
        let ghost p0 = self.position as int;
        let mut left = self.parse_factor()?;
        loop
            invariant
                self.wf(),
                self.tokens@ == ts,
                ts == old(self).tokens@,
                p0 == old(self).position,
                p0 < self.position,
                parse_term_s(ts, p0) == term_rest_s(ts, self.position as int, *left),
            decreases ts.len() - self.position,
        {
            let t = self.peek();
            if self.position < self.tokens.len() && (t == Token::Star || t == Token::Slash) {
                let ghost pos = self.position as int;
                self.position = self.position + 1;
                let right = self.parse_factor()?;
                if t == Token::Star {
                    left = BoxExprBuilder::mul(left, right);
                } else {
                    left = BoxExprBuilder::div(left, right);
                }
            } else {
                return Ok(left);
            }
        }
    }

    fn parse_expr(&mut self) -> (r: Result<Box<BoxExpr>, String>)
        requires
            old(self).wf(),
        ensures
            final(self).wf(),
            final(self).tokens@ == old(self).tokens@,
            match parse_expr_s(old(self).tokens@, old(self).position as int) {
                Ok((e, q)) => r matches Ok(b) && *b == e && final(self).position == q,
                Err(m) => r matches Err(x) && x@ == m,
            },
            r is Ok ==> old(self).position < final(self).position,
        decreases old(self).tokens@.len() - old(self).position, 2nat,
    {
        let ghost ts = self.tokens@;
        let ghost p0 = self.position as int;
        let mut left = self.parse_term()?;
        loop
            invariant
                self.wf(),
                self.tokens@ == ts,
                ts == old(self).tokens@,
                p0 == old(self).position,
                p0 < self.position,
                parse_expr_s(ts, p0) == expr_rest_s(ts, self.position as int, *left),
            decreases ts.len() - self.position,
        {
            let t = self.peek();
            if self.position < self.tokens.len() && (t == Token::Plus || t == Token::Minus) {
                self.position = self.position + 1;
                let right = self.parse_term()?;
                if t == Token::Plus {
                    left = BoxExprBuilder::add(left, right);
                } else {
                    left = BoxExprBuilder::sub(left, right);
                }
            } else {
                return Ok(left);
            }
        }
    }

    /// Parses a whole expression from the current token on (see `parse_s`).
    pub fn parse(&mut self) -> (r: Result<Box<BoxExpr>, String>)
        requires
            old(self).wf(),
        ensures
            final(self).wf(),
            final(self).toks() == old(self).toks(),
            match parse_s(old(self).toks(), old(self).at()) {
                Ok(e) => r matches Ok(b) && *b == e,
                Err(m) => r matches Err(x) && x@ == m,
            },
    {
        let e = self.parse_expr()?;
        let t = self.peek();
        if t != Token::End {
            return Err(token_message("Unexpected token: ", t));
        }
        Ok(e)
    }
}

/// What `parse_and_eval` gives for `s`: the first error of lexing, parsing or
/// evaluation, or the value.
pub open spec fn outcome(s: Seq<char>) -> Result<int, Seq<char>> {
    match lex_all(s, 0) {
        Err(m) => Err(m),
        Ok(ts) => match parse_s(ts, 0) {
            Err(m) => Err(m),
            Ok(e) => match value(e) {
                Some(v) => Ok(v),
                None => Err(div_zero_text()),
            },
        },
    }
}

/// No number of `s` and no step of evaluating it overflows `i64`.
pub open spec fn no_overflow(s: Seq<char>) -> bool {
    &&& all_fit(s, 0)
    &&& lex_all(s, 0) matches Ok(ts) ==> (parse_s(ts, 0) matches Ok(e) ==> fits(e))
}

/// Lexes, parses and evaluates `input`.
pub fn parse_and_eval(input: &str) -> (r: Result<i64, String>)
    requires
        no_overflow(input@),
    ensures
        match outcome(input@) {
            Ok(v) => r == Ok::<i64, String>(v as i64),
            Err(m) => r matches Err(x) && x@ == m,
        },
{
    let mut lexer = Lexer::new(input);
    let tokens = lexer.tokenize()?;
    let mut parser = Parser::new(tokens);
    let expr = parser.parse()?;
    expr.eval()
}

} // verus!
