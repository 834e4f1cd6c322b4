//! Parser combinators over string slices: single characters, digits, fixed strings and
//! numbers, combined by mapping and sequencing, each returning the rest of the input.
use vstd::prelude::*;
use crate::text::{owned, append_str, append_chars, decimal, decimal_chars, string_from_chars, chars_of,
    chars_start_with, is_prefix_of};
use crate::regex::{is_digit, digit_run, digits_value, lemma_digit_run_prefix, lemma_digits_monotone};

verus! {

/// A parse failure: a message and where it happened.
#[derive(Debug, Clone, PartialEq)]
pub struct ParseError {
    pub message: String,
    pub position: usize,
}

impl ParseError {
    /// An error with the given message and position.
    pub fn new(message: String, position: usize) -> (r: Self)
        ensures
            r.message@ == message@,
            r.position == position,
    {
        ParseError { message, position }
    }

    /// `message at position N`.
    pub fn to_text(&self) -> (r: String)
        ensures
            r@ == self.message@ + " at position "@ + decimal(self.position as nat),
    {
        let mut v: Vec<char> = Vec::new();
        append_str(&mut v, self.message.as_str());
        append_str(&mut v, " at position ");
        let d = decimal_chars(self.position as u64);
        append_chars(&mut v, d.as_slice());
        string_from_chars(v.as_slice())
    }
}

/// `rest` is what is left of `input` after its first `n` characters.
pub open spec fn rest_after(input: Seq<char>, rest: Seq<char>, n: nat) -> bool {
    n <= input.len() && rest == input.skip(n as int)
}

/// A parser whose output type is a parameter.
pub trait ParserGeneric<Output> {
    /// The input is accepted with `value`, consuming `n` characters.
    spec fn accepts(&self, input: Seq<char>, value: Output, n: nat) -> bool;

    /// The input is refused.
    spec fn refuses(&self, input: Seq<char>) -> bool;

    fn parse<'a>(&self, input: &'a str) -> (r: Result<(Output, &'a str), ParseError>)
        ensures
            r is Ok ==> exists|n: nat| rest_after(input@, r->Ok_0.1@, n) && #[trigger] self.accepts(input@, r->Ok_0.0, n),
            r is Err <==> self.refuses(input@),
    ;
}

/// A parser whose output type is associated with it.
pub trait Parser {
    type Output;

    /// The parser may run on this input (what its parts need holds).
    spec fn can_parse(&self, input: Seq<char>) -> bool;

    /// The input is accepted with `value`, consuming `n` characters.
    spec fn accepts(&self, input: Seq<char>, value: Self::Output, n: nat) -> bool;

    /// The input is refused.
    spec fn refuses(&self, input: Seq<char>) -> bool;

    /// How much of the input an accepting parse consumes is determined by the input.
    proof fn lemma_consumed_unique(&self, input: Seq<char>, v1: Self::Output, n1: nat, v2: Self::Output, n2: nat)
        requires
            self.accepts(input, v1, n1),
            self.accepts(input, v2, n2),
        ensures
            n1 == n2,
    ;

    /// An input that is accepted is not refused.
    proof fn lemma_accepts_not_refused(&self, input: Seq<char>, v: Self::Output, n: nat)
        requires
            self.accepts(input, v, n),
        ensures
            !self.refuses(input),
    ;

    fn parse<'a>(&self, input: &'a str) -> (r: Result<(Self::Output, &'a str), ParseError>)
        requires
            self.can_parse(input@),
        ensures
            r is Ok ==> exists|n: nat| rest_after(input@, r->Ok_0.1@, n) && #[trigger] self.accepts(input@, r->Ok_0.0, n),
            r is Err <==> self.refuses(input@),
    ;
}

/// Expects one given character.
pub struct CharParser {
    pub expected: char,
}

/// The message when `expected` was not found.
pub open spec fn char_error(expected: char, found: Option<char>) -> Seq<char> {
    match found {
        Some(c) => "Expected '"@ + seq![expected] + "' but found '"@ + seq![c] + "'"@,
        None => "Expected '"@ + seq![expected] + "' but reached end of input"@,
    }
}

impl CharParser {
    /// Reads `expected` at the start of `input`.
    pub fn parse_internal<'a>(&self, input: &'a str) -> (r: Result<(char, &'a str), ParseError>)
        ensures
            input@.len() > 0 && input@[0] == self.expected ==> r == Ok::<(char, &'a str), ParseError>((self.expected, r->Ok_0.1))
                && r->Ok_0.1@ == input@.skip(1),
            input@.len() > 0 && input@[0] != self.expected ==> (r matches Err(e) && e.position == 0
                && e.message@ == char_error(self.expected, Some(input@[0]))),
            input@.len() == 0 ==> (r matches Err(e) && e.position == 0 && e.message@ == char_error(self.expected, None)),
    {
        let n = input.unicode_len();
        if n == 0 {
            let mut v: Vec<char> = Vec::new();
            append_str(&mut v, "Expected '");
            v.push(self.expected);
            append_str(&mut v, "' but reached end of input");
            assert(v@ =~= char_error(self.expected, None));
            return Err(ParseError::new(string_from_chars(v.as_slice()), 0));
        }
        let ch = input.get_char(0);
        if ch == self.expected {
            Ok((ch, input.substring_char(1, n)))
        } else {
            let mut v: Vec<char> = Vec::new();
            append_str(&mut v, "Expected '");
            v.push(self.expected);
            append_str(&mut v, "' but found '");
            v.push(ch);
            append_str(&mut v, "'");
            assert(v@ =~= char_error(self.expected, Some(ch)));
            Err(ParseError::new(string_from_chars(v.as_slice()), 0))
        }
    }
}

impl ParserGeneric<char> for CharParser {
    open spec fn accepts(&self, input: Seq<char>, value: char, n: nat) -> bool {
        input.len() > 0 && input[0] == self.expected && value == self.expected && n == 1
    }

    open spec fn refuses(&self, input: Seq<char>) -> bool {
        !(input.len() > 0 && input[0] == self.expected)
    }

    fn parse<'a>(&self, input: &'a str) -> (r: Result<(char, &'a str), ParseError>) {
        let r = self.parse_internal(input);
        proof {
            if let Ok((v, rest)) = r {
                assert(rest_after(input@, rest@, 1) && ParserGeneric::accepts(self, input@, v, 1));
            }
        }
        r
    }
}

impl Parser for CharParser {
    type Output = char;

    open spec fn can_parse(&self, input: Seq<char>) -> bool {
        true
    }

    open spec fn accepts(&self, input: Seq<char>, value: char, n: nat) -> bool {
        input.len() > 0 && input[0] == self.expected && value == self.expected && n == 1
    }

    open spec fn refuses(&self, input: Seq<char>) -> bool {
        !(input.len() > 0 && input[0] == self.expected)
    }

    proof fn lemma_consumed_unique(&self, input: Seq<char>, v1: Self::Output, n1: nat, v2: Self::Output, n2: nat) {
    }

    proof fn lemma_accepts_not_refused(&self, input: Seq<char>, v: Self::Output, n: nat) {
    }

    fn parse<'a>(&self, input: &'a str) -> (r: Result<(char, &'a str), ParseError>) {
        let r = self.parse_internal(input);
        proof {
            if let Ok((v, rest)) = r {
                assert(rest_after(input@, rest@, 1) && Parser::accepts(self, input@, v, 1));
            }
        }
        r
    }
}

/// Expects one decimal digit and yields its value.
pub struct DigitParser;

/// The value of a decimal digit character.
pub open spec fn digit_of(c: char) -> u32 {
    ((c as u32) - ('0' as u32)) as u32
}

impl DigitParser {
    /// Reads a digit at the start of `input`.
    pub fn parse_internal<'a>(&self, input: &'a str) -> (r: Result<(u32, &'a str), ParseError>)
        ensures
            input@.len() > 0 && is_digit(input@[0]) ==> (r matches Ok((v, rest)) && v == digit_of(input@[0])
                && rest@ == input@.skip(1)),
            input@.len() > 0 && !is_digit(input@[0]) ==> (r matches Err(e) && e.position == 0
                && e.message@ == "Expected digit but found '"@ + seq![input@[0]] + "'"@),
            input@.len() == 0 ==> (r matches Err(e) && e.position == 0 && e.message@ == "Expected digit but input was empty"@),
    {
        let n = input.unicode_len();
        if n == 0 {
            return Err(ParseError::new(owned("Expected digit but input was empty"), 0));
        }
        let ch = input.get_char(0);
        if '0' <= ch && ch <= '9' {
            let value = (ch as u32) - ('0' as u32);
            Ok((value, input.substring_char(1, n)))
        } else {
            let mut v: Vec<char> = Vec::new();
            append_str(&mut v, "Expected digit but found '");
            v.push(ch);
            append_str(&mut v, "'");
            Err(ParseError::new(string_from_chars(v.as_slice()), 0))
        }
    }
}

impl ParserGeneric<u32> for DigitParser {
    open spec fn accepts(&self, input: Seq<char>, value: u32, n: nat) -> bool {
        input.len() > 0 && is_digit(input[0]) && value == digit_of(input[0]) && n == 1
    }

    open spec fn refuses(&self, input: Seq<char>) -> bool {
        !(input.len() > 0 && is_digit(input[0]))
    }

    fn parse<'a>(&self, input: &'a str) -> (r: Result<(u32, &'a str), ParseError>) {
        let r = self.parse_internal(input);
        proof {
            if let Ok((v, rest)) = r {
                assert(rest_after(input@, rest@, 1) && ParserGeneric::accepts(self, input@, v, 1));
            }
        }
        r
    }
}

impl Parser for DigitParser {
    type Output = u32;

    open spec fn can_parse(&self, input: Seq<char>) -> bool {
        true
    }

    open spec fn accepts(&self, input: Seq<char>, value: u32, n: nat) -> bool {
        input.len() > 0 && is_digit(input[0]) && value == digit_of(input[0]) && n == 1
    }

    open spec fn refuses(&self, input: Seq<char>) -> bool {
        !(input.len() > 0 && is_digit(input[0]))
    }

    proof fn lemma_consumed_unique(&self, input: Seq<char>, v1: Self::Output, n1: nat, v2: Self::Output, n2: nat) {
    }

    proof fn lemma_accepts_not_refused(&self, input: Seq<char>, v: Self::Output, n: nat) {
    }

    fn parse<'a>(&self, input: &'a str) -> (r: Result<(u32, &'a str), ParseError>) {
        let r = self.parse_internal(input);
        proof {
            if let Ok((v, rest)) = r {
                assert(rest_after(input@, rest@, 1) && Parser::accepts(self, input@, v, 1));
            }
        }
        r
    }
}

/// Runs a parser and keeps only its value.
pub fn run_parser_generic<Output, P: ParserGeneric<Output>>(parser: P, input: &str) -> (r: Result<Output, ParseError>)
    ensures
        r is Ok ==> exists|n: nat| n <= input@.len() && #[trigger] parser.accepts(input@, r->Ok_0, n),
        r is Err <==> parser.refuses(input@),
{
    let res = parser.parse(input);
    match res {
        Ok((value, rest)) => {
            let ghost n = choose|n: nat| rest_after(input@, rest@, n) && #[trigger] parser.accepts(input@, value, n);
            let r = Ok(value);
            proof {
                let v = r->Ok_0;
                assert(n <= input@.len() && parser.accepts(input@, v, n));
            }
            r
        },
        Err(e) => Err(e),
    }
}

/// Runs a parser and keeps only its value.
pub fn run_parser<P: Parser>(parser: P, input: &str) -> (r: Result<P::Output, ParseError>)
    requires
        parser.can_parse(input@),
    ensures
        r is Ok ==> exists|n: nat| n <= input@.len() && #[trigger] parser.accepts(input@, r->Ok_0, n),
        r is Err <==> parser.refuses(input@),
{
    let res = parser.parse(input);
    match res {
        Ok((value, rest)) => {
            let ghost n = choose|n: nat| rest_after(input@, rest@, n) && #[trigger] parser.accepts(input@, value, n);
            let r = Ok(value);
            proof {
                let v = r->Ok_0;
                assert(n <= input@.len() && parser.accepts(input@, v, n));
            }
            r
        },
        Err(e) => Err(e),
    }
}

/// Expects a fixed string.
pub struct StringParser {
    pub expected: String,
}

impl Parser for StringParser {
    type Output = String;

    open spec fn can_parse(&self, input: Seq<char>) -> bool {
        true
    }

    open spec fn accepts(&self, input: Seq<char>, value: String, n: nat) -> bool {
        is_prefix_of(self.expected@, input) && value@ == self.expected@ && n == self.expected@.len()
    }

    open spec fn refuses(&self, input: Seq<char>) -> bool {
        !is_prefix_of(self.expected@, input)
    }

    proof fn lemma_consumed_unique(&self, input: Seq<char>, v1: Self::Output, n1: nat, v2: Self::Output, n2: nat) {
    }

    proof fn lemma_accepts_not_refused(&self, input: Seq<char>, v: Self::Output, n: nat) {
    }

    fn parse<'a>(&self, input: &'a str) -> (r: Result<(String, &'a str), ParseError>)
        ensures
            r matches Err(e) ==> e.position == 0 && e.message@ == "Expected \""@ + self.expected@ + "\""@,
    {
        let iv = chars_of(input);
        let ev = chars_of(self.expected.as_str());
        if chars_start_with(iv.as_slice(), ev.as_slice()) {
            let n = input.unicode_len();
            let rest = input.substring_char(ev.len(), n);
            let value = owned(self.expected.as_str());
            let r = Ok((value, rest));
            proof {
                let v = r->Ok_0.0;
                let rr = r->Ok_0.1;
                assert(rest_after(input@, rr@, ev@.len()) && self.accepts(input@, v, ev@.len()));
            }
            r
        } else {
            let mut v: Vec<char> = Vec::new();
            append_str(&mut v, "Expected \"");
            append_str(&mut v, self.expected.as_str());
            append_str(&mut v, "\"");
            Err(ParseError::new(string_from_chars(v.as_slice()), 0))
        }
    }
}

/// Applies a function to what a parser yields.
pub struct MapParser<P, F> {
    pub parser: P,
    pub mapper: F,
}

impl<P, F, NewOutput> Parser for MapParser<P, F> where P: Parser, F: Fn(P::Output) -> NewOutput {
    type Output = NewOutput;

    open spec fn can_parse(&self, input: Seq<char>) -> bool {
        &&& self.parser.can_parse(input)
        &&& forall|v: P::Output, n: nat| #[trigger] self.parser.accepts(input, v, n) ==> call_requires(self.mapper, (v,))
    }

    open spec fn accepts(&self, input: Seq<char>, value: NewOutput, n: nat) -> bool {
        exists|v: P::Output| #[trigger] self.parser.accepts(input, v, n) && call_ensures(self.mapper, (v,), value)
    }

    open spec fn refuses(&self, input: Seq<char>) -> bool {
        self.parser.refuses(input)
    }

    proof fn lemma_consumed_unique(&self, input: Seq<char>, v1: NewOutput, n1: nat, v2: NewOutput, n2: nat) {
        let a = choose|v: P::Output| #[trigger] self.parser.accepts(input, v, n1) && call_ensures(self.mapper, (v,), v1);
        let b = choose|v: P::Output| #[trigger] self.parser.accepts(input, v, n2) && call_ensures(self.mapper, (v,), v2);
        self.parser.lemma_consumed_unique(input, a, n1, b, n2);
    }

    proof fn lemma_accepts_not_refused(&self, input: Seq<char>, v: NewOutput, n: nat) {
        let a = choose|x: P::Output| #[trigger] self.parser.accepts(input, x, n) && call_ensures(self.mapper, (x,), v);
        self.parser.lemma_accepts_not_refused(input, a, n);
    }

    fn parse<'a>(&self, input: &'a str) -> (r: Result<(NewOutput, &'a str), ParseError>) {
        let (value, remaining) = self.parser.parse(input)?;
        let ghost n = choose|n: nat| rest_after(input@, remaining@, n) && #[trigger] self.parser.accepts(input@, value, n);
        let mapped = (self.mapper)(value);
        let r = Ok((mapped, remaining));
        proof {
            let v = r->Ok_0.0;
            let rr = r->Ok_0.1;
            assert(self.parser.accepts(input@, value, n) && call_ensures(self.mapper, (value,), v));
            assert(rest_after(input@, rr@, n) && Parser::accepts(self, input@, v, n));
        }
        r
    }
}

/// Runs one parser, then another on what is left, and yields both values.
pub struct AndThenParser<P1, P2> {
    pub first: P1,
    pub second: P2,
}

impl<P1, P2> Parser for AndThenParser<P1, P2> where P1: Parser, P2: Parser {
    type Output = (P1::Output, P2::Output);

    open spec fn can_parse(&self, input: Seq<char>) -> bool {
        &&& self.first.can_parse(input)
        &&& forall|v: P1::Output, n: nat| #[trigger] self.first.accepts(input, v, n) && n <= input.len()
            ==> self.second.can_parse(input.skip(n as int))
    }

    open spec fn accepts(&self, input: Seq<char>, value: (P1::Output, P2::Output), n: nat) -> bool {
        exists|n1: nat| n1 <= n && n1 <= input.len() && #[trigger] self.first.accepts(input, value.0, n1)
            && self.second.accepts(input.skip(n1 as int), value.1, (n - n1) as nat)
    }

    open spec fn refuses(&self, input: Seq<char>) -> bool {
        ||| self.first.refuses(input)
        ||| exists|v: P1::Output, n1: nat| n1 <= input.len() && #[trigger] self.first.accepts(input, v, n1)
            && self.second.refuses(input.skip(n1 as int))
    }

    proof fn lemma_consumed_unique(&self, input: Seq<char>, v1: Self::Output, n1: nat, v2: Self::Output, n2: nat) {
        let m1 = choose|m: nat| m <= n1 && m <= input.len() && #[trigger] self.first.accepts(input, v1.0, m)
            && self.second.accepts(input.skip(m as int), v1.1, (n1 - m) as nat);
        let m2 = choose|m: nat| m <= n2 && m <= input.len() && #[trigger] self.first.accepts(input, v2.0, m)
            && self.second.accepts(input.skip(m as int), v2.1, (n2 - m) as nat);
        self.first.lemma_consumed_unique(input, v1.0, m1, v2.0, m2);
        self.second.lemma_consumed_unique(input.skip(m1 as int), v1.1, (n1 - m1) as nat, v2.1, (n2 - m2) as nat);
    }

    proof fn lemma_accepts_not_refused(&self, input: Seq<char>, v: Self::Output, n: nat) {
        let m = choose|m: nat| m <= n && m <= input.len() && #[trigger] self.first.accepts(input, v.0, m)
            && self.second.accepts(input.skip(m as int), v.1, (n - m) as nat);
        self.first.lemma_accepts_not_refused(input, v.0, m);
        self.second.lemma_accepts_not_refused(input.skip(m as int), v.1, (n - m) as nat);
        assert forall|x: P1::Output, k: nat| k <= input.len() && #[trigger] self.first.accepts(input, x, k)
            implies !self.second.refuses(input.skip(k as int)) by {
            self.first.lemma_consumed_unique(input, x, k, v.0, m);
        }
    }

    fn parse<'a>(&self, input: &'a str) -> (r: Result<(Self::Output, &'a str), ParseError>) {
        let (first_value, remaining) = self.first.parse(input)?;
        let ghost n1 = choose|n: nat| rest_after(input@, remaining@, n) && #[trigger] self.first.accepts(input@, first_value, n);
        match self.second.parse(remaining) {
            Ok((second_value, final_remaining)) => {
                let ghost n2 = choose|n: nat| rest_after(remaining@, final_remaining@, n) && #[trigger] self.second.accepts(remaining@, second_value, n);
                let r = Ok(((first_value, second_value), final_remaining));
                proof {
                    assert(input@.skip(n1 as int).skip(n2 as int) =~= input@.skip((n1 + n2) as int));
                    let v = r->Ok_0.0;
                    let rr = r->Ok_0.1;
                    assert(self.first.accepts(input@, v.0, n1));
                    assert(self.second.accepts(input@.skip(n1 as int), v.1, ((n1 + n2) - n1) as nat));
                    assert(rest_after(input@, rr@, n1 + n2));
                    assert(Parser::accepts(self, input@, v, n1 + n2));
                    Parser::lemma_accepts_not_refused(self, input@, v, n1 + n2);
                }
                r
            },
            Err(e) => {
                assert(self.first.accepts(input@, first_value, n1) && self.second.refuses(input@.skip(n1 as int)));
                Err(e)
            },
        }
    }
}

/// The value of the run of digits at the front of `s`.
pub open spec fn leading_number(s: Seq<char>) -> nat {
    digits_value(s.take(digit_run(s) as int))
}

/// Reads one or more decimal digits as a `u32`.
pub struct NumberParser;

impl Parser for NumberParser {
    type Output = u32;

    open spec fn can_parse(&self, input: Seq<char>) -> bool {
        true
    }

    open spec fn accepts(&self, input: Seq<char>, value: u32, n: nat) -> bool {
        &&& n == digit_run(input)
        &&& n > 0
        &&& leading_number(input) <= u32::MAX
        &&& value == leading_number(input)
    }

    open spec fn refuses(&self, input: Seq<char>) -> bool {
        digit_run(input) == 0 || leading_number(input) > u32::MAX
    }

    proof fn lemma_consumed_unique(&self, input: Seq<char>, v1: u32, n1: nat, v2: u32, n2: nat) {
    }

    proof fn lemma_accepts_not_refused(&self, input: Seq<char>, v: u32, n: nat) {
    }

    fn parse<'a>(&self, input: &'a str) -> (r: Result<(u32, &'a str), ParseError>)
        ensures
            r matches Err(e) ==> e.position == 0 && (digit_run(input@) == 0 ==> e.message@ == "Expected one or more digits"@)
                && (digit_run(input@) > 0 ==> e.message@ == "Failed to parse integer"@),
    {
        let chars = chars_of(input);
        let n = chars.len();
        let ghost s = input@;
        let mut end: usize = 0;
        let mut value: u64 = 0;
        let mut overflow = false;
        while end < n && 48 <= chars[end] as u32 && chars[end] as u32 <= 57
            invariant
                n == s.len(),
                chars@ == s,
                end <= n,
                forall|k: int| 0 <= k < end ==> is_digit(#[trigger] s[k]),
                !overflow ==> value == digits_value(s.take(end as int)),
                !overflow ==> value <= u32::MAX,
                overflow ==> leading_number(s) > u32::MAX && digit_run(s) >= end,
            decreases n - end,
        {
            let ghost k = end as int;
            proof {
                lemma_digit_run_prefix(s, k + 1);
                assert(s.take(k + 1).drop_last() =~= s.take(k));
                assert(s.take(k + 1).last() == s[k]);
                if overflow {
                    // the run only gets longer
                }
            }
            if !overflow {
                let d = (chars[end] as u32 - '0' as u32) as u64;
                let next = value * 10 + d;
                if next > 0xFFFF_FFFF {
                    overflow = true;
                    proof {
                        lemma_digits_monotone(s, k + 1, digit_run(s) as int);
                        assert(s.take(digit_run(s) as int) == s.take(digit_run(s) as int));
                    }
                } else {
                    value = next;
                }
            }
            end = end + 1;
        }
        proof {
            lemma_digit_run_prefix(s, end as int);
        }
        if end == 0 {
            return Err(ParseError::new(owned("Expected one or more digits"), 0));
        }
        if overflow {
            return Err(ParseError::new(owned("Failed to parse integer"), 0));
        }
        let v = value as u32;
        let rest = input.substring_char(end, n);
        let r = Ok((v, rest));
        proof {
            let vv = r->Ok_0.0;
            let rr = r->Ok_0.1;
            assert(rest_after(input@, rr@, end as nat) && self.accepts(input@, vv, end as nat));
        }
        r
    }
}

/// Adapters available on every parser.
pub trait ParserExt: Parser + Sized {
    /// Applies `mapper` to what this parser yields.
    fn map<F, NewOutput>(self, mapper: F) -> (r: MapParser<Self, F>)
        where F: Fn(Self::Output) -> NewOutput
        ensures
            r.parser == self,
            r.mapper == mapper,
    {
        MapParser { parser: self, mapper }
    }

    /// Runs `other` after this parser.
    fn and_then<P2>(self, other: P2) -> (r: AndThenParser<Self, P2>)
        where P2: Parser
        ensures
            r.first == self,
            r.second == other,
    {
        AndThenParser { first: self, second: other }
    }
}

impl<P: Parser> ParserExt for P {}

/// The two numbers of `a+b` at the front of `s`, when it starts so.
pub open spec fn addition_operands(s: Seq<char>) -> Option<(nat, nat)> {
    let r1 = digit_run(s);
    let s1 = s.skip(r1 as int);
    let s2 = s1.skip(1);
    if r1 == 0 || leading_number(s) > u32::MAX {
        None
    } else if !(s1.len() > 0 && s1[0] == '+') {
        None
    } else if digit_run(s2) == 0 || leading_number(s2) > u32::MAX {
        None
    } else {
        Some((leading_number(s), leading_number(s2)))
    }
}

/// The parser of `a+b`: a number, a plus sign, a number.
pub type AdditionChain = AndThenParser<AndThenParser<NumberParser, CharParser>, NumberParser>;

proof fn lemma_addition_chain(p: AdditionChain, input: Seq<char>)
    requires
        p.first.second.expected == '+',
    ensures
        forall|v: ((u32, char), u32), n: nat| #[trigger] p.accepts(input, v, n)
            ==> addition_operands(input) == Some((v.0.0 as nat, v.1 as nat)),
        p.refuses(input) <==> addition_operands(input) is None,
        addition_operands(input) is Some ==> exists|v: ((u32, char), u32), n: nat| #[trigger] p.accepts(input, v, n),
{
    let r1 = digit_run(input);
    lemma_digit_run_prefix(input, 0);
    assert forall|v: ((u32, char), u32), n: nat| #[trigger] p.accepts(input, v, n)
        implies addition_operands(input) == Some((v.0.0 as nat, v.1 as nat)) by {
        let n1 = choose|n1: nat| n1 <= n && n1 <= input.len() && #[trigger] p.first.accepts(input, v.0, n1)
            && p.second.accepts(input.skip(n1 as int), v.1, (n - n1) as nat);
        let m = choose|m: nat| m <= n1 && m <= input.len() && #[trigger] p.first.first.accepts(input, v.0.0, m)
            && Parser::accepts(&p.first.second, input.skip(m as int), v.0.1, (n1 - m) as nat);
        assert(input.skip(m as int).skip(1) =~= input.skip(n1 as int));
    }
    if addition_operands(input) is Some {
        let s1 = input.skip(r1 as int);
        let s2 = s1.skip(1);
        let a = leading_number(input) as u32;
        let b = leading_number(s2) as u32;
        assert(s2 =~= input.skip(r1 + 1int));
        assert(p.first.first.accepts(input, a, r1));
        assert(p.first.first.accepts(input, (a, '+').0, r1));
        assert(Parser::accepts(&p.first.second, input.skip(r1 as int), (a, '+').1, ((r1 + 1) - r1) as nat));
        assert(p.first.accepts(input, (a, '+'), r1 + 1));
        assert(p.first.accepts(input, ((a, '+'), b).0, r1 + 1));
        assert(p.second.accepts(input.skip(r1 + 1int), b, digit_run(s2)));
        assert(p.second.accepts(input.skip((r1 + 1) as int), ((a, '+'), b).1, ((r1 + 1 + digit_run(s2)) - (r1 + 1)) as nat));
        assert(p.accepts(input, ((a, '+'), b), r1 + 1 + digit_run(s2)));
        Parser::lemma_accepts_not_refused(&p, input, ((a, '+'), b), r1 + 1 + digit_run(s2));
    } else {
        if !p.refuses(input) {
            assert(!p.first.refuses(input));
            assert(!p.first.first.refuses(input));
            let s1 = input.skip(r1 as int);
            assert(p.first.first.accepts(input, leading_number(input) as u32, r1));
            if !(s1.len() > 0 && s1[0] == '+') {
                assert(Parser::refuses(&p.first.second, s1));
                assert(false);
            }
            let a = leading_number(input) as u32;
            assert(p.first.first.accepts(input, (a, '+').0, r1));
            assert(Parser::accepts(&p.first.second, input.skip(r1 as int), (a, '+').1, ((r1 + 1) - r1) as nat));
            assert(p.first.accepts(input, (a, '+'), r1 + 1));
            let s2 = s1.skip(1);
            assert(s2 =~= input.skip(r1 + 1int));
            assert(p.second.refuses(s2));
            assert(false);
        }
    }
}

/// Reads `a+b` at the start of `input` and adds the two numbers.
pub fn parse_addition(input: &str) -> (r: Result<u32, ParseError>)
    requires
        addition_operands(input@) matches Some((a, b)) ==> a + b <= u32::MAX,
    ensures
        match addition_operands(input@) {
            Some((a, b)) => r == Ok::<u32, ParseError>((a + b) as u32),
            None => r is Err,
        },
{
    let chain = NumberParser.and_then(CharParser { expected: '+' }).and_then(NumberParser);
    proof {
        lemma_addition_chain(chain, input@);
    }
    let ghost pg = chain;
    match run_parser(chain, input) {
        Ok(((left, _plus), right)) => {
            proof {
                let n = choose|n: nat| n <= input@.len() && #[trigger] pg.accepts(input@, ((left, _plus), right), n);
            }
            Ok(left + right)
        },
        Err(e) => Err(e),
    }
}

} // verus!
