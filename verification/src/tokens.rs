//! A tokenizer whose tokens borrow from the input (strings, numbers, identifiers and
//! single-character symbols, with a context of keywords and operators), an allocating
//! tokenizer for comparison, and a zero-copy CSV line splitter.
use vstd::prelude::*;
use crate::text::{chars_of, str_eq, chars_has, owned, string_from_chars};
use crate::interning::{is_ws, is_whitespace_char};

verus! {

/// Whether `c` is alphabetic in the Unicode sense (`char::is_alphabetic`).
pub uninterp spec fn unicode_alphabetic(c: char) -> bool;

/// Whether `c` is alphabetic or numeric in the Unicode sense (`char::is_alphanumeric`).
pub uninterp spec fn unicode_alphanumeric(c: char) -> bool;

/// An ASCII letter.
pub open spec fn ascii_letter(c: char) -> bool {
    (65 <= (c as u32) && (c as u32) <= 90) || (97 <= (c as u32) && (c as u32) <= 122)
}

/// Calls `char::is_alphabetic`, which answers from the Unicode `Alphabetic` property;
/// its result is named `unicode_alphabetic`. Among ASCII characters that property holds
/// of the letters and of nothing else.
#[verifier::external_body]
fn is_alphabetic_char(c: char) -> (r: bool)
    ensures
        r == unicode_alphabetic(c),
        (c as u32) < 128 ==> (r <==> ascii_letter(c)),
{
    c.is_alphabetic()
}

/// Calls `char::is_alphanumeric` (alphabetic or numeric in the Unicode sense); its
/// result is named `unicode_alphanumeric`, and, as the documentation says, it holds of
/// every alphabetic character. Among ASCII characters it holds of the letters and the
/// digits (the only ASCII characters with a numeric general category) and of nothing
/// else.
#[verifier::external_body]
fn is_alphanumeric_char(c: char) -> (r: bool)
    ensures
        r == unicode_alphanumeric(c),
        unicode_alphabetic(c) ==> r,
        (c as u32) < 128 ==> (r <==> (ascii_letter(c) || ascii_digit(c))),
{
    c.is_alphanumeric()
}

/// ASCII white space: space, tab, line feed, form feed, carriage return.
pub open spec fn ascii_ws(c: char) -> bool {
    c == ' ' || c == '\t' || c == '\n' || c == '\x0C' || c == '\r'
}

/// An ASCII decimal digit.
pub open spec fn ascii_digit(c: char) -> bool {
    ('0' as u32) <= (c as u32) <= ('9' as u32)
}

/// An ASCII hexadecimal digit.
pub open spec fn ascii_hex(c: char) -> bool {
    ascii_digit(c) || (('a' as u32) <= (c as u32) <= ('f' as u32)) || (('A' as u32) <= (c as u32) <= ('F'
        as u32))
}

/// The characters that the allocating tokenizer glues into one token besides letters,
/// digits and underscore.
pub open spec fn glue_symbol(c: char) -> bool {
    c == '+' || c == '-' || c == '*' || c == '/' || c == '(' || c == ')' || c == '[' || c == ']' || c == '{'
        || c == '}' || c == '<' || c == '>' || c == ';' || c == '=' || c == '!' || c == ',' || c == '&'
}

/// The classes of characters that a run is made of.
pub enum RunKind {
    Space,
    Digit,
    Hex,
    NotQuote,
    Word,
    Glued,
}

/// Whether `c` belongs to the class.
pub open spec fn in_run(kind: RunKind, c: char) -> bool {
    match kind {
        RunKind::Space => ascii_ws(c),
        RunKind::Digit => ascii_digit(c),
        RunKind::Hex => ascii_hex(c),
        RunKind::NotQuote => c != '"',
        RunKind::Word => unicode_alphanumeric(c) || c == '_',
        RunKind::Glued => unicode_alphanumeric(c) || c == '_' || glue_symbol(c),
    }
}

/// The end of the run of characters of the class that starts at `p`: the first index at
/// or after `p` whose character is outside the class (or the length).
pub open spec fn run_end(s: Seq<char>, p: int, kind: RunKind) -> int
    decreases s.len() - p,
{
    if p < 0 || p >= s.len() || !in_run(kind, s[p]) {
        p
    } else {
        run_end(s, p + 1, kind)
    }
}

proof fn lemma_run_end_bounds(s: Seq<char>, p: int, kind: RunKind)
    requires
        0 <= p <= s.len(),
    ensures
        p <= run_end(s, p, kind) <= s.len(),
        forall|i: int| p <= i < run_end(s, p, kind) ==> in_run(kind, #[trigger] s[i]),
        run_end(s, p, kind) < s.len() ==> !in_run(kind, s[run_end(s, p, kind)]),
        p < s.len() && in_run(kind, s[p]) ==> run_end(s, p, kind) > p,
    decreases s.len() - p,
{
    if p < s.len() && in_run(kind, s[p]) {
        lemma_run_end_bounds(s, p + 1, kind);
    }
}

/// Whether `c` belongs to the class.
fn in_run_exec(kind: &RunKind, c: char) -> (r: bool)
    ensures
        r == in_run(*kind, c),
{
    match kind {
        RunKind::Space => c == ' ' || c == '\t' || c == '\n' || c == '\x0C' || c == '\r',
        RunKind::Digit => ('0' as u32) <= (c as u32) && (c as u32) <= ('9' as u32),
        RunKind::Hex => (('0' as u32) <= (c as u32) && (c as u32) <= ('9' as u32)) || (('a' as u32) <= (c
            as u32) && (c as u32) <= ('f' as u32)) || (('A' as u32) <= (c as u32) && (c as u32) <= ('F'
            as u32)),
        RunKind::NotQuote => c != '"',
        RunKind::Word => is_alphanumeric_char(c) || c == '_',
        RunKind::Glued => is_alphanumeric_char(c) || c == '_' || c == '+' || c == '-' || c == '*' || c == '/'
            || c == '(' || c == ')' || c == '[' || c == ']' || c == '{' || c == '}' || c == '<' || c == '>'
            || c == ';' || c == '=' || c == '!' || c == ',' || c == '&',
    }
}

/// The end of the run of the class starting at `p` (see `run_end`).
pub fn scan_run(s: &[char], p: usize, kind: RunKind) -> (r: usize)
    requires
        p <= s@.len(),
    ensures
        r == run_end(s@, p as int, kind),
{
    let mut i = p;
    while i < s.len() && in_run_exec(&kind, s[i])
        invariant
            p <= i <= s@.len(),
            run_end(s@, i as int, kind) == run_end(s@, p as int, kind),
        decreases s@.len() - i,
    {
        i = i + 1;
    }
    i
}

/// Keywords and operator characters that the tokenizer consults.
pub struct ParserContext<'ctx> {
    keywords: &'ctx [&'ctx str],
    operators: &'ctx [char],
}

/// The keywords, as character sequences.
pub open spec fn keyword_views(keywords: Seq<&str>) -> Seq<Seq<char>> {
    keywords.map_values(|k: &str| k@)
}

impl<'ctx> ParserContext<'ctx> {
    /// The keywords.
    pub closed spec fn keyword_list(&self) -> Seq<Seq<char>> {
        keyword_views(self.keywords@)
    }

    /// The operator characters.
    pub closed spec fn operator_list(&self) -> Seq<char> {
        self.operators@
    }

    /// A context with the given keywords and operators.
    pub fn new(keywords: &'ctx [&'ctx str], operators: &'ctx [char]) -> (r: Self)
        ensures
            r.keyword_list() == keyword_views(keywords@),
            r.operator_list() == operators@,
    {
        ParserContext { keywords, operators }
    }

    /// Whether `word` is one of the keywords.
    pub fn is_keyword(&self, word: &str) -> (r: bool)
        ensures
            r == self.keyword_list().contains(word@),
    {
        let mut i: usize = 0;
        while i < self.keywords.len()
            invariant
                i <= self.keywords@.len(),
                forall|k: int| 0 <= k < i ==> self.keywords@[k]@ != word@,
            decreases self.keywords@.len() - i,
        {
            if str_eq(self.keywords[i], word) {
                assert(self.keyword_list()[i as int] == word@);
                return true;
            }
            i = i + 1;
        }
        proof {
            if self.keyword_list().contains(word@) {
                let k = choose|k: int| 0 <= k < self.keyword_list().len() && self.keyword_list()[k] == word@;
                assert(self.keywords@[k]@ == word@);
            }
        }
        false
    }

    /// Whether `ch` is one of the operators.
    pub fn is_operator(&self, ch: char) -> (r: bool)
        ensures
            r == self.operator_list().contains(ch),
    {
        chars_has(self.operators, ch)
    }

    /// The keywords as given.
    pub fn keywords(&self) -> (r: &'ctx [&'ctx str])
        ensures
            keyword_views(r@) == self.keyword_list(),
    {
        self.keywords
    }
}

/// A token; text tokens borrow from the input.
#[derive(Debug, Clone, Copy, PartialEq, Eq)]
pub enum Token<'a> {
    Identifier(&'a str),
    Number(&'a str),
    String(&'a str),
    Symbol(char),
    Eof,
}

impl<'a> Token<'a> {
    /// The text of an identifier, number or string token.
    pub fn as_str(&self) -> (r: Option<&'a str>)
        ensures
            match *self {
                Token::Identifier(s) => r == Some(s),
                Token::Number(s) => r == Some(s),
                Token::String(s) => r == Some(s),
                _ => r is None,
            },
    {
        match self {
            Token::Identifier(s) => Some(*s),
            Token::Number(s) => Some(*s),
            Token::String(s) => Some(*s),
            _ => None,
        }
    }

    /// Whether the token is the identifier `word`.
    pub fn is_keyword(&self, word: &str) -> (r: bool)
        ensures
            r == (*self matches Token::Identifier(s) && s@ == word@),
    {
        match self {
            Token::Identifier(s) => str_eq(*s, word),
            _ => false,
        }
    }

    /// Whether the token marks the end of the input.
    pub fn is_eof(&self) -> (r: bool)
        ensures
            r == (*self is Eof),
    {
        match self {
            Token::Eof => true,
            _ => false,
        }
    }
}

/// The kind of token the tokenizer finds, with the symbol character.
pub enum Lexeme {
    End,
    Text,
    Numeral,
    Sym(char),
    Word,
}

/// The first token at or after `p0`: its kind, the span of its text, and where reading
/// continues. White space is skipped; a `"` starts a string running to the next `"`
/// (an unclosed one is the symbol `"`); a digit starts a number (`0x` and hex digits,
/// or digits with an optional fraction); an operator is a symbol; a letter or `_` starts
/// an identifier of letters, digits and `_`; anything else is a symbol.
pub open spec fn lex(s: Seq<char>, p0: int, ops: Seq<char>) -> (Lexeme, int, int, int) {
    let p = run_end(s, p0, RunKind::Space);
    if p >= s.len() {
        (Lexeme::End, p, p, p)
    } else {
        let c = s[p];
        if c == '"' {
            let q = run_end(s, p + 1, RunKind::NotQuote);
            if q < s.len() {
                (Lexeme::Text, p + 1, q, q + 1)
            } else {
                (Lexeme::Sym('"'), p, p + 1, p + 1)
            }
        } else if ascii_digit(c) && c == '0' && p + 1 < s.len() && (s[p + 1] == 'x' || s[p + 1] == 'X') {
            let e = run_end(s, p + 2, RunKind::Hex);
            (Lexeme::Numeral, p, e, e)
        } else if ascii_digit(c) {
            let d = run_end(s, p, RunKind::Digit);
            let e = if d < s.len() && s[d] == '.' { run_end(s, d + 1, RunKind::Digit) } else { d };
            (Lexeme::Numeral, p, e, e)
        } else if ops.contains(c) {
            (Lexeme::Sym(c), p, p + 1, p + 1)
        } else if unicode_alphabetic(c) || c == '_' {
            let e = run_end(s, p, RunKind::Word);
            (Lexeme::Word, p, e, e)
        } else {
            (Lexeme::Sym(c), p, p + 1, p + 1)
        }
    }
}

/// The token that `lex` describes, with text taken from `s`.
pub open spec fn token_is(t: Token, s: Seq<char>, lexed: (Lexeme, int, int, int)) -> bool {
    let text = s.subrange(lexed.1, lexed.2);
    match lexed.0 {
        Lexeme::End => t is Eof,
        Lexeme::Text => t matches Token::String(x) && x@ == text,
        Lexeme::Numeral => t matches Token::Number(x) && x@ == text,
        Lexeme::Sym(c) => t == Token::Symbol(c),
        Lexeme::Word => t matches Token::Identifier(x) && x@ == text,
    }
}

proof fn lemma_lex_progress(s: Seq<char>, p0: int, ops: Seq<char>)
    requires
        0 <= p0 <= s.len(),
    ensures
        p0 <= lex(s, p0, ops).1 <= lex(s, p0, ops).2 <= s.len(),
        lex(s, p0, ops).3 <= s.len(),
        p0 <= lex(s, p0, ops).3,
        !(lex(s, p0, ops).0 is End) && !(lex(s, p0, ops).0 is Word) ==> p0 < lex(s, p0, ops).3,
        lex(s, p0, ops).0 is End ==> lex(s, p0, ops).3 == s.len() && lex(s, p0, ops).3 >= p0,
{
    let p = run_end(s, p0, RunKind::Space);
    lemma_run_end_bounds(s, p0, RunKind::Space);
    if p < s.len() {
        let c = s[p];
        if c == '"' {
            lemma_run_end_bounds(s, p + 1, RunKind::NotQuote);
        } else if ascii_digit(c) && c == '0' && p + 1 < s.len() && (s[p + 1] == 'x' || s[p + 1] == 'X') {
            lemma_run_end_bounds(s, p + 2, RunKind::Hex);
        } else if ascii_digit(c) {
            lemma_run_end_bounds(s, p, RunKind::Digit);
            let d = run_end(s, p, RunKind::Digit);
            if d < s.len() && s[d] == '.' {
                lemma_run_end_bounds(s, d + 1, RunKind::Digit);
            }
        } else if unicode_alphabetic(c) || c == '_' {
            lemma_run_end_bounds(s, p, RunKind::Word);
        }
    }
}

/// A tokenizer over a string slice whose tokens borrow from it.
pub struct Parser<'input, 'ctx> {
    input: &'input str,
    chars: Vec<char>,
    position: usize,
    context: &'ctx ParserContext<'ctx>,
}

impl<'input, 'ctx> Parser<'input, 'ctx> {
    /// The input's characters.
    pub closed spec fn text(&self) -> Seq<char> {
        self.input@
    }

    /// The index of the next character to read.
    pub closed spec fn at(&self) -> int {
        self.position as int
    }

    /// The operator characters of the context.
    pub closed spec fn ops(&self) -> Seq<char> {
        self.context.operator_list()
    }

    /// The keywords of the context.
    pub closed spec fn kws(&self) -> Seq<Seq<char>> {
        self.context.keyword_list()
    }

    /// The characters are those of the input and the position lies within them.
    pub closed spec fn wf(&self) -> bool {
        self.chars@ == self.input@ && self.position <= self.chars@.len()
    }

    /// A tokenizer at the start of `input`.
    pub fn new(input: &'input str, context: &'ctx ParserContext<'ctx>) -> (r: Self)
        ensures
            r.wf(),
            r.text() == input@,
            r.at() == 0,
            r.ops() == context.operator_list(),
            r.kws() == context.keyword_list(),
    {
        Parser { input, chars: chars_of(input), position: 0, context }
    }

    /// Reads the next token (see `lex`); at the end of the input, `Eof`.
    pub fn next_token(&mut self) -> (r: Token<'input>)
        requires
            old(self).wf(),
        ensures
            final(self).wf(),
            final(self).text() == old(self).text(),
            final(self).ops() == old(self).ops(),
            final(self).kws() == old(self).kws(),
            final(self).at() == lex(old(self).text(), old(self).at(), old(self).ops()).3,
            token_is(r, old(self).text(), lex(old(self).text(), old(self).at(), old(self).ops())),
            !(r is Eof) ==> final(self).at() > old(self).at(),
            r is Eof ==> final(self).at() == final(self).text().len(),
    {
        let ghost s = self.chars@;
        let ghost lexed = lex(s, self.position as int, self.ops());
        proof {
            lemma_lex_progress(s, self.position as int, self.ops());
            lemma_run_end_bounds(s, self.position as int, RunKind::Space);
        }
        let n = self.chars.len();
        let p = scan_run(self.chars.as_slice(), self.position, RunKind::Space);
        if p >= n {
            self.position = p;
            return Token::Eof;
        }
        let c = self.chars[p];
        if c == '"' {
            let q = scan_run(self.chars.as_slice(), p + 1, RunKind::NotQuote);
            if q < n {
                self.position = q + 1;
                return Token::String(self.input.substring_char(p + 1, q));
            }
            self.position = p + 1;
            return Token::Symbol('"');
        }
        let is_digit = ('0' as u32) <= (c as u32) && (c as u32) <= ('9' as u32);
        if is_digit {
            let e: usize;
            if c == '0' && p + 1 < n && (self.chars[p + 1] == 'x' || self.chars[p + 1] == 'X') {
                e = scan_run(self.chars.as_slice(), p + 2, RunKind::Hex);
            } else {
                let d = scan_run(self.chars.as_slice(), p, RunKind::Digit);
                proof {
                    lemma_run_end_bounds(s, p as int, RunKind::Digit);
                }
                if d < n && self.chars[d] == '.' {
                    e = scan_run(self.chars.as_slice(), d + 1, RunKind::Digit);
                } else {
                    e = d;
                }
            }
            self.position = e;
            return Token::Number(self.input.substring_char(p, e));
        }
        if self.context.is_operator(c) {
            self.position = p + 1;
            return Token::Symbol(c);
        }
        if is_alphabetic_char(c) || c == '_' {
            let _word_start = is_alphanumeric_char(c);
            proof {
                lemma_run_end_bounds(s, p as int, RunKind::Word);
            }
            let e = scan_run(self.chars.as_slice(), p, RunKind::Word);
            self.position = e;
            return Token::Identifier(self.input.substring_char(p, e));
        }
        self.position = p + 1;
        Token::Symbol(c)
    }

    /// The input from the current position on.
    pub fn remaining(&self) -> (r: &'input str)
        requires
            self.wf(),
        ensures
            r@ == self.text().subrange(self.at(), self.text().len() as int),
    {
        self.input.substring_char(self.position, self.chars.len())
    }

    /// Whether only white space is left.
    pub fn is_empty(&self) -> (r: bool)
        requires
            self.wf(),
        ensures
            r == (run_end(self.text(), self.at(), RunKind::Space) == self.text().len()),
    {
        let p = scan_run(self.chars.as_slice(), self.position, RunKind::Space);
        p == self.chars.len()
    }

    /// The keywords of the context.
    pub fn get_keywords(&self) -> (r: &'ctx [&'ctx str])
        ensures
            keyword_views(r@) == self.kws(),
    {
        self.context.keywords()
    }
}

/// The tokens from `p` on, as `lex` finds them one after another, up to the end of the
/// input (each with its kind and text span).
pub open spec fn stream(s: Seq<char>, p: int, ops: Seq<char>) -> Seq<(Lexeme, int, int)>
    decreases s.len() - p,
{
    let l = lex(s, p, ops);
    if p < 0 || p > s.len() || l.0 is End || l.3 <= p || l.3 > s.len() {
        Seq::empty()
    } else {
        seq![(l.0, l.1, l.2)] + stream(s, l.3, ops)
    }
}

/// The token that a stream entry describes.
pub open spec fn token_of(t: Token, s: Seq<char>, e: (Lexeme, int, int)) -> bool {
    token_is(t, s, (e.0, e.1, e.2, 0))
}

/// The texts of the identifier tokens of a stream, in order.
pub open spec fn identifier_texts(s: Seq<char>, st: Seq<(Lexeme, int, int)>) -> Seq<Seq<char>>
    decreases st.len(),
{
    if st.len() == 0 {
        Seq::empty()
    } else {
        let rest = identifier_texts(s, st.drop_last());
        if st.last().0 is Word {
            rest.push(s.subrange(st.last().1, st.last().2))
        } else {
            rest
        }
    }
}

/// Whether the stream entry is an identifier with text `w`.
pub open spec fn word_text_is(s: Seq<char>, e: (Lexeme, int, int), w: Seq<char>) -> bool {
    e.0 is Word && s.subrange(e.1, e.2) == w
}

/// Whether the stream entry is an identifier that is one of the keywords.
pub open spec fn is_keyword_word(s: Seq<char>, e: (Lexeme, int, int), kws: Seq<Seq<char>>) -> bool {
    e.0 is Word && kws.contains(s.subrange(e.1, e.2))
}

/// Entry `k` is the first keyword identifier of the stream.
pub open spec fn first_keyword_at(s: Seq<char>, st: Seq<(Lexeme, int, int)>, kws: Seq<Seq<char>>, k: int) -> bool {
    &&& 0 <= k < st.len()
    &&& is_keyword_word(s, st[k], kws)
    &&& forall|j: int| 0 <= j < k ==> !(#[trigger] is_keyword_word(s, st[j], kws))
}

/// How many number tokens a stream has.
pub open spec fn number_count(st: Seq<(Lexeme, int, int)>) -> nat
    decreases st.len(),
{
    if st.len() == 0 {
        0
    } else {
        number_count(st.drop_last()) + if st.last().0 is Numeral { 1nat } else { 0nat }
    }
}

impl<'input, 'ctx> Parser<'input, 'ctx> {
    /// The next token, or `None` at the end of the input.
    pub fn next(&mut self) -> (r: Option<Token<'input>>)
        requires
            old(self).wf(),
        ensures
            final(self).wf(),
            final(self).text() == old(self).text(),
            final(self).ops() == old(self).ops(),
            final(self).kws() == old(self).kws(),
            final(self).at() == lex(old(self).text(), old(self).at(), old(self).ops()).3,
            lex(old(self).text(), old(self).at(), old(self).ops()).0 is End <==> r is None,
            r matches Some(t) ==> token_is(t, old(self).text(), lex(old(self).text(), old(self).at(), old(self).ops())),
            r is Some ==> final(self).at() > old(self).at(),
    {
        let token = self.next_token();
        if token.is_eof() {
            None
        } else {
            Some(token)
        }
    }

    /// Reads every remaining token, leaving the position at the end.
    fn collect_tokens(&mut self) -> (r: Vec<Token<'input>>)
        requires
            old(self).wf(),
        ensures
            final(self).wf(),
            final(self).text() == old(self).text(),
            final(self).ops() == old(self).ops(),
            final(self).kws() == old(self).kws(),
            final(self).at() == final(self).text().len(),
            r@.len() == stream(old(self).text(), old(self).at(), old(self).ops()).len(),
            forall|k: int| 0 <= k < r@.len() ==> token_of(#[trigger] r@[k], old(self).text(), stream(old(self).text(), old(self).at(), old(self).ops())[k]),
    {
        let ghost s = self.text();
        let ghost ops = self.ops();
        let ghost all = stream(s, self.at(), ops);
        let mut out: Vec<Token<'input>> = Vec::new();
        loop
            invariant
                self.wf(),
                self.text() == s,
                self.ops() == ops,
                self.kws() == old(self).kws(),
                out@.len() <= all.len(),
                forall|k: int| 0 <= k < out@.len() ==> token_of(#[trigger] out@[k], s, all[k]),
                stream(s, self.at(), ops) == all.subrange(out@.len() as int, all.len() as int),
            ensures
                self.wf(),
                self.text() == s,
                self.ops() == ops,
                self.kws() == old(self).kws(),
                self.at() == s.len(),
                out@.len() == all.len(),
                forall|k: int| 0 <= k < out@.len() ==> token_of(#[trigger] out@[k], s, all[k]),
            decreases s.len() - self.at(),
        {
            let ghost p = self.at();
            let t = self.next_token();
            if t.is_eof() {
                proof {
                    assert(stream(s, p, ops).len() == 0);
                }
                break;
            }
            proof {
                let l = lex(s, p, ops);
                lemma_lex_progress(s, p, ops);
                let o = out@.len() as int;
                assert(stream(s, p, ops) == seq![(l.0, l.1, l.2)] + stream(s, l.3, ops));
                let sp = stream(s, p, ops);
                assert(sp[0] == (l.0, l.1, l.2));
                assert(sp.len() > 0);
                assert(all.subrange(o, all.len() as int)[0] == all[o]);
                assert(all[o] == (l.0, l.1, l.2));
                assert(sp.subrange(1, sp.len() as int) =~= stream(s, l.3, ops));
                assert(all.subrange(o + 1, all.len() as int) =~= sp.subrange(1, sp.len() as int));
            }
            out.push(t);
        }
        out
    }

    /// The texts of the remaining identifier tokens; the position moves to the end.
    pub fn identifiers(&mut self) -> (r: Vec<&'input str>)
        requires
            old(self).wf(),
        ensures
            final(self).wf(),
            final(self).text() == old(self).text(),
            final(self).at() == final(self).text().len(),
            r@.map_values(|x: &str| x@) == identifier_texts(old(self).text(), stream(old(self).text(), old(self).at(), old(self).ops())),
    {
        let ghost s = self.text();
        let ghost st = stream(s, self.at(), self.ops());
        let tokens = self.collect_tokens();
        let mut out: Vec<&'input str> = Vec::new();
        let mut i: usize = 0;
        while i < tokens.len()
            invariant
                i <= tokens@.len(),
                tokens@.len() == st.len(),
                forall|k: int| 0 <= k < tokens@.len() ==> token_of(#[trigger] tokens@[k], s, st[k]),
                out@.map_values(|x: &str| x@) == identifier_texts(s, st.subrange(0, i as int)),
            decreases tokens@.len() - i,
        {
            proof {
                assert(st.subrange(0, i + 1).drop_last() =~= st.subrange(0, i as int));
                assert(token_of(tokens@[i as int], s, st[i as int]));
            }
            match tokens[i] {
                Token::Identifier(x) => {
                    out.push(x);
                    proof {
                        assert(out@.map_values(|x: &str| x@) =~= identifier_texts(s, st.subrange(0, i + 1)));
                    }
                },
                _ => {
                    proof {
                        assert(out@.map_values(|x: &str| x@) =~= identifier_texts(s, st.subrange(0, i + 1)));
                    }
                },
            }
            i = i + 1;
        }
        proof {
            assert(st.subrange(0, st.len() as int) =~= st);
        }
        out
    }

    /// How many number tokens remain; the position moves to the end.
    pub fn count_numbers(&mut self) -> (r: usize)
        requires
            old(self).wf(),
        ensures
            final(self).wf(),
            final(self).text() == old(self).text(),
            final(self).at() == final(self).text().len(),
            r == number_count(stream(old(self).text(), old(self).at(), old(self).ops())),
    {
        let ghost s = self.text();
        let ghost st = stream(s, self.at(), self.ops());
        let tokens = self.collect_tokens();
        let mut count: usize = 0;
        let mut i: usize = 0;
        while i < tokens.len()
            invariant
                i <= tokens@.len(),
                tokens@.len() == st.len(),
                forall|k: int| 0 <= k < tokens@.len() ==> token_of(#[trigger] tokens@[k], s, st[k]),
                count == number_count(st.subrange(0, i as int)),
                count <= i,
            decreases tokens@.len() - i,
        {
            proof {
                assert(st.subrange(0, i + 1).drop_last() =~= st.subrange(0, i as int));
                assert(token_of(tokens@[i as int], s, st[i as int]));
            }
            match tokens[i] {
                Token::Number(_) => {
                    count = count + 1;
                },
                _ => {},
            }
            i = i + 1;
        }
        proof {
            assert(st.subrange(0, st.len() as int) =~= st);
        }
        count
    }

    /// Whether `keyword` is a keyword of the context and an identifier token equal to
    /// it remains; the position does not move.
    pub fn has_keyword(&mut self, keyword: &str) -> (r: bool)
        requires
            old(self).wf(),
        ensures
            *final(self) == *old(self),
            r == (old(self).kws().contains(keyword@) && exists|k: int|
                0 <= k < stream(old(self).text(), old(self).at(), old(self).ops()).len()
                && #[trigger] word_text_is(old(self).text(), stream(old(self).text(), old(self).at(), old(self).ops())[k], keyword@)),
    {
        if !self.context.is_keyword(keyword) {
            return false;
        }
        let mut temp = Parser::new(self.input, self.context);
        temp.position = self.position;
        let ghost s = self.text();
        let ghost st = stream(s, self.at(), self.ops());
        assert(temp.text() == s && temp.at() == self.at() && temp.ops() == self.ops());
        let tokens = temp.collect_tokens();
        let mut i: usize = 0;
        while i < tokens.len()
            invariant
                i <= tokens@.len(),
                tokens@.len() == st.len(),
                forall|k: int| 0 <= k < tokens@.len() ==> token_of(#[trigger] tokens@[k], s, st[k]),
                forall|k: int| 0 <= k < i ==> !(#[trigger] word_text_is(s, st[k], keyword@)),
                st == stream(old(self).text(), old(self).at(), old(self).ops()),
                s == old(self).text(),
                old(self).kws().contains(keyword@),
            decreases tokens@.len() - i,
        {
            proof {
                assert(token_of(tokens@[i as int], s, st[i as int]));
            }
            if tokens[i].is_keyword(keyword) {
                assert(word_text_is(s, st[i as int], keyword@));
                assert(word_text_is(old(self).text(), stream(old(self).text(), old(self).at(), old(self).ops())[i as int], keyword@));
                return true;
            }
            i = i + 1;
        }
        false
    }

    /// Skips tokens up to the next identifier that is a keyword of the context and
    /// returns its text; `None` once the input is used up.
    pub fn next_keyword_token(&mut self) -> (r: Option<&'input str>)
        requires
            old(self).wf(),
        ensures
            final(self).wf(),
            final(self).text() == old(self).text(),
            old(self).at() <= final(self).at(),
            r matches Some(x) ==> exists|k: int| #[trigger] first_keyword_at(old(self).text(), stream(old(self).text(), old(self).at(), old(self).ops()), final(self).kws(), k)
                && x@ == old(self).text().subrange(stream(old(self).text(), old(self).at(), old(self).ops())[k].1, stream(old(self).text(), old(self).at(), old(self).ops())[k].2),
            r is None ==> final(self).at() == final(self).text().len() && forall|j: int| 0 <= j < stream(old(self).text(), old(self).at(), old(self).ops()).len()
                ==> !(#[trigger] is_keyword_word(old(self).text(), stream(old(self).text(), old(self).at(), old(self).ops())[j], final(self).kws())),
    {
        let ghost s = self.text();
        let ghost ops = self.ops();
        let ghost all = stream(s, self.at(), ops);
        let ghost mut seen: int = 0;
        loop
            invariant
                self.wf(),
                self.text() == s,
                self.ops() == ops,
                self.kws() == old(self).kws(),
                old(self).at() <= self.at(),
                0 <= seen <= all.len(),
                stream(s, self.at(), ops) == all.subrange(seen, all.len() as int),
                forall|j: int| 0 <= j < seen ==> !(#[trigger] is_keyword_word(s, all[j], self.kws())),
                all == stream(old(self).text(), old(self).at(), old(self).ops()),
                s == old(self).text(),
            decreases s.len() - self.at(),
        {
            let ghost p = self.at();
            let t = self.next_token();
            proof {
                lemma_lex_progress(s, p, ops);
            }
            match t {
                Token::Eof => {
                    proof {
                        assert(stream(s, p, ops).len() == 0);
                        assert(seen == all.len());
                    }
                    return None;
                },
                Token::Identifier(x) => {
                    proof {
                        let l = lex(s, p, ops);
                        assert(stream(s, p, ops) == seq![(l.0, l.1, l.2)] + stream(s, l.3, ops));
                        let sp = stream(s, p, ops);
                        assert(sp[0] == (l.0, l.1, l.2));
                        assert(sp.len() > 0);
                        assert(all.subrange(seen, all.len() as int)[0] == all[seen]);
                        assert(all[seen] == (l.0, l.1, l.2));
                        assert(sp.subrange(1, sp.len() as int) =~= stream(s, l.3, ops));
                        assert(all.subrange(seen + 1, all.len() as int) =~= sp.subrange(1, sp.len() as int));
                    }
                    if self.context.is_keyword(x) {
                        proof {
                            assert(first_keyword_at(s, all, self.kws(), seen));
                        }
                        return Some(x);
                    }
                    proof {
                        seen = seen + 1;
                    }
                },
                _ => {
                    proof {
                        let l = lex(s, p, ops);
                        assert(stream(s, p, ops) == seq![(l.0, l.1, l.2)] + stream(s, l.3, ops));
                        let sp = stream(s, p, ops);
                        assert(sp[0] == (l.0, l.1, l.2));
                        assert(sp.len() > 0);
                        assert(all.subrange(seen, all.len() as int)[0] == all[seen]);
                        assert(all[seen] == (l.0, l.1, l.2));
                        assert(sp.subrange(1, sp.len() as int) =~= stream(s, l.3, ops));
                        assert(all.subrange(seen + 1, all.len() as int) =~= sp.subrange(1, sp.len() as int));
                        seen = seen + 1;
                    }
                },
            }
        }
    }
}

/// The text of a stream entry.
pub open spec fn entry_text(s: Seq<char>, e: (Lexeme, int, int)) -> Seq<char> {
    s.subrange(e.1, e.2)
}

/// Whether entries `k`, `k + 1`, `k + 2` read `name = number`.
pub open spec fn assignment_at(st: Seq<(Lexeme, int, int)>, k: int) -> bool {
    &&& 0 <= k && k + 2 < st.len()
    &&& st[k].0 is Word
    &&& st[k + 1].0 == Lexeme::Sym('=')
    &&& st[k + 2].0 is Numeral
}

/// The `(name, number)` pairs of every `name = number` window among the first `n`
/// window positions.
pub open spec fn assignments(s: Seq<char>, st: Seq<(Lexeme, int, int)>, n: int) -> Seq<(Seq<char>, Seq<char>)>
    decreases n,
{
    if n <= 0 {
        Seq::empty()
    } else {
        let rest = assignments(s, st, n - 1);
        if assignment_at(st, n - 1) {
            rest.push((entry_text(s, st[n - 1]), entry_text(s, st[n + 1])))
        } else {
            rest
        }
    }
}

/// The runs of consecutive identifier entries, as lists of their texts.
pub open spec fn identifier_groups(s: Seq<char>, st: Seq<(Lexeme, int, int)>) -> Seq<Seq<Seq<char>>>
    decreases st.len(),
{
    if st.len() == 0 {
        Seq::empty()
    } else {
        let g = identifier_groups(s, st.drop_last());
        let e = st.last();
        if !(e.0 is Word) {
            g
        } else if st.len() > 1 && st[st.len() - 2].0 is Word {
            g.update(g.len() - 1, g.last().push(entry_text(s, e)))
        } else {
            g.push(seq![entry_text(s, e)])
        }
    }
}

proof fn lemma_groups_nonempty(s: Seq<char>, st: Seq<(Lexeme, int, int)>)
    requires
        st.len() > 0,
        st.last().0 is Word,
    ensures
        identifier_groups(s, st).len() > 0,
    decreases st.len(),
{
    if st.len() > 1 && st[st.len() - 2].0 is Word {
        assert(st.drop_last().last() == st[st.len() - 2]);
        lemma_groups_nonempty(s, st.drop_last());
    }
}

impl<'input, 'ctx> Parser<'input, 'ctx> {
    /// The `(name, value)` pairs of every `identifier = number` run of three tokens in
    /// the rest of the input, read by a fresh tokenizer over the remaining text; the
    /// position does not move.
    pub fn extract_assignments(&mut self) -> (r: Vec<(&'input str, &'input str)>)
        requires
            old(self).wf(),
        ensures
            *final(self) == *old(self),
            ({
                let rem = old(self).text().subrange(old(self).at(), old(self).text().len() as int);
                let st = stream(rem, 0, old(self).ops());
                r@.map_values(|p: (&str, &str)| (p.0@, p.1@)) == assignments(rem, st, st.len() - 2)
            }),
    {
        let rest = self.remaining();
        let mut temp = Parser::new(rest, self.context);
        let ghost rem = rest@;
        let ghost st = stream(rem, 0, self.ops());
        let tokens = temp.collect_tokens();
        let mut result: Vec<(&'input str, &'input str)> = Vec::new();
        let mut k: usize = 0;
        while tokens.len() >= 2 && k < tokens.len() - 2
            invariant
                tokens@.len() == st.len(),
                forall|j: int| 0 <= j < tokens@.len() ==> token_of(#[trigger] tokens@[j], rem, st[j]),
                k <= tokens@.len(),
                k + 2 <= tokens@.len() || k == 0,
                result@.map_values(|p: (&str, &str)| (p.0@, p.1@)) == assignments(rem, st, k as int),
            decreases tokens@.len() - k,
        {
            proof {
                assert(token_of(tokens@[k as int], rem, st[k as int]));
                assert(token_of(tokens@[k + 1], rem, st[k + 1]));
                assert(token_of(tokens@[k + 2], rem, st[k + 2]));
            }
            match (tokens[k], tokens[k + 1], tokens[k + 2]) {
                (Token::Identifier(name), Token::Symbol('='), Token::Number(value)) => {
                    result.push((name, value));
                    proof {
                        assert(assignment_at(st, k as int));
                        assert(result@.map_values(|p: (&str, &str)| (p.0@, p.1@)) =~= assignments(rem, st, k + 1));
                    }
                },
                _ => {
                    proof {
                        assert(!assignment_at(st, k as int));
                    }
                },
            }
            k = k + 1;
        }
        proof {
            if st.len() >= 2 {
                assert(k == st.len() - 2);
            } else {
                assert(assignments(rem, st, st.len() - 2) == Seq::<(Seq<char>, Seq<char>)>::empty());
            }
        }
        result
    }

    /// The runs of consecutive identifiers in the rest of the input, read by a fresh
    /// tokenizer over the remaining text; the position does not move.
    pub fn group_identifiers(&mut self) -> (r: Vec<Vec<&'input str>>)
        requires
            old(self).wf(),
        ensures
            *final(self) == *old(self),
            ({
                let rem = old(self).text().subrange(old(self).at(), old(self).text().len() as int);
                r@.map_values(|g: Vec<&str>| g@.map_values(|x: &str| x@)) == identifier_groups(rem, stream(rem, 0, old(self).ops()))
            }),
    {
        let rest = self.remaining();
        let mut temp = Parser::new(rest, self.context);
        let ghost rem = rest@;
        let ghost st = stream(rem, 0, self.ops());
        let tokens = temp.collect_tokens();
        let mut groups: Vec<Vec<&'input str>> = Vec::new();
        let mut current: Vec<&'input str> = Vec::new();
        let mut i: usize = 0;
        while i < tokens.len()
            invariant
                tokens@.len() == st.len(),
                forall|j: int| 0 <= j < tokens@.len() ==> token_of(#[trigger] tokens@[j], rem, st[j]),
                i <= tokens@.len(),
                ({
                    let g = identifier_groups(rem, st.subrange(0, i as int));
                    let done = groups@.map_values(|g: Vec<&str>| g@.map_values(|x: &str| x@));
                    let cur = current@.map_values(|x: &str| x@);
                    if current@.len() == 0 {
                        done == g && (i == 0 || !(st[i - 1].0 is Word))
                    } else {
                        i > 0 && st[i - 1].0 is Word && done.push(cur) == g
                    }
                }),
            decreases tokens@.len() - i,
        {
            let ghost pre = st.subrange(0, i as int);
            let ghost next = st.subrange(0, i + 1);
            proof {
                assert(next.drop_last() =~= pre);
                assert(token_of(tokens@[i as int], rem, st[i as int]));
                assert(next.last() == st[i as int]);
                if i > 0 {
                    assert(next[next.len() - 2] == st[i - 1]);
                }
            }
            match tokens[i] {
                Token::Identifier(x) => {
                    let ghost before = current@.map_values(|x: &str| x@);
                    current.push(x);
                    proof {
                        let done = groups@.map_values(|g: Vec<&str>| g@.map_values(|x: &str| x@));
                        assert(current@.map_values(|x: &str| x@) =~= before.push(x@));
                        if before.len() == 0 {
                            assert(done.push(seq![x@]) =~= identifier_groups(rem, next));
                            assert(current@.map_values(|x: &str| x@) =~= seq![x@]);
                        } else {
                            let g = identifier_groups(rem, pre);
                            assert(g == done.push(before));
                            assert(done.push(before.push(x@)) =~= g.update(g.len() - 1, g.last().push(x@)));
                        }
                    }
                },
                _ => {
                    if current.len() > 0 {
                        let ghost done0 = groups@.map_values(|g: Vec<&str>| g@.map_values(|x: &str| x@));
                        let ghost cur0 = current@.map_values(|x: &str| x@);
                        groups.push(current);
                        current = Vec::new();
                        proof {
                            assert(groups@.map_values(|g: Vec<&str>| g@.map_values(|x: &str| x@)) =~= done0.push(cur0));
                        }
                    }
                },
            }
            i = i + 1;
        }
        let ghost done1 = groups@.map_values(|g: Vec<&str>| g@.map_values(|x: &str| x@));
        let ghost cur1 = current@.map_values(|x: &str| x@);
        if current.len() > 0 {
            groups.push(current);
            proof {
                assert(groups@.map_values(|g: Vec<&str>| g@.map_values(|x: &str| x@)) =~= done1.push(cur1));
            }
        }
        proof {
            assert(st.subrange(0, st.len() as int) =~= st);
        }
        groups
    }
}

/// The next token of the allocating tokenizer from `p0`, with where reading continues;
/// `None` at the end. Strings and numbers are read as by `lex`; otherwise a run of
/// letters, digits, `_` and the glue symbols forms one token, and any other character is
/// a token by itself.
pub open spec fn alloc_lex(s: Seq<char>, p0: int) -> Option<(Seq<char>, int)> {
    let p = run_end(s, p0, RunKind::Space);
    if p >= s.len() {
        None
    } else {
        let c = s[p];
        if c == '"' {
            let q = run_end(s, p + 1, RunKind::NotQuote);
            if q < s.len() {
                Some((s.subrange(p + 1, q), q + 1))
            } else {
                Some((seq!['"'], p + 1))
            }
        } else if ascii_digit(c) && c == '0' && p + 1 < s.len() && (s[p + 1] == 'x' || s[p + 1] == 'X') {
            let e = run_end(s, p + 2, RunKind::Hex);
            Some((s.subrange(p, e), e))
        } else if ascii_digit(c) {
            let d = run_end(s, p, RunKind::Digit);
            let e = if d < s.len() && s[d] == '.' { run_end(s, d + 1, RunKind::Digit) } else { d };
            Some((s.subrange(p, e), e))
        } else {
            let e = run_end(s, p, RunKind::Glued);
            if e > p {
                Some((s.subrange(p, e), e))
            } else {
                Some((seq![c], p + 1))
            }
        }
    }
}

/// A tokenizer that copies each token into a new string.
pub struct AllocatingParser {
    input: String,
    chars: Vec<char>,
    position: usize,
}

impl AllocatingParser {
    /// The input's characters.
    pub closed spec fn text(&self) -> Seq<char> {
        self.input@
    }

    /// The index of the next character to read.
    pub closed spec fn at(&self) -> int {
        self.position as int
    }

    /// The characters are those of the input and the position lies within them.
    pub closed spec fn wf(&self) -> bool {
        self.chars@ == self.input@ && self.position <= self.chars@.len()
    }

    /// A tokenizer at the start of `input`.
    pub fn new(input: String) -> (r: Self)
        ensures
            r.wf(),
            r.text() == input@,
            r.at() == 0,
    {
        let chars = chars_of(input.as_str());
        AllocatingParser { input, chars, position: 0 }
    }

    /// The next token (see `alloc_lex`), or `None` at the end.
    pub fn next_token(&mut self) -> (r: Option<String>)
        requires
            old(self).wf(),
        ensures
            final(self).wf(),
            final(self).text() == old(self).text(),
            match alloc_lex(old(self).text(), old(self).at()) {
                None => r is None,
                Some((t, np)) => r matches Some(x) && x@ == t && final(self).at() == np,
            },
    {
        let ghost s = self.chars@;
        proof {
            lemma_run_end_bounds(s, self.position as int, RunKind::Space);
        }
        let n = self.chars.len();
        let p = scan_run(self.chars.as_slice(), self.position, RunKind::Space);
        if p >= n {
            self.position = p;
            return None;
        }
        let c = self.chars[p];
        if c == '"' {
            proof {
                lemma_run_end_bounds(s, p + 1, RunKind::NotQuote);
            }
            let q = scan_run(self.chars.as_slice(), p + 1, RunKind::NotQuote);
            if q < n {
                self.position = q + 1;
                return Some(string_from_chars(&self.chars.as_slice()[p + 1..q]));
            }
            self.position = p + 1;
            proof {
                reveal_strlit("\"");
                assert("\""@ =~= seq!['"']);
            }
            return Some(owned("\""));
        }
        let is_digit = ('0' as u32) <= (c as u32) && (c as u32) <= ('9' as u32);
        if is_digit {
            let e: usize;
            if c == '0' && p + 1 < n && (self.chars[p + 1] == 'x' || self.chars[p + 1] == 'X') {
                proof {
                    lemma_run_end_bounds(s, p + 2, RunKind::Hex);
                }
                e = scan_run(self.chars.as_slice(), p + 2, RunKind::Hex);
            } else {
                proof {
                    lemma_run_end_bounds(s, p as int, RunKind::Digit);
                }
                let d = scan_run(self.chars.as_slice(), p, RunKind::Digit);
                if d < n && self.chars[d] == '.' {
                    proof {
                        lemma_run_end_bounds(s, d + 1, RunKind::Digit);
                    }
                    e = scan_run(self.chars.as_slice(), d + 1, RunKind::Digit);
                } else {
                    e = d;
                }
            }
            self.position = e;
            return Some(string_from_chars(&self.chars.as_slice()[p..e]));
        }
        proof {
            lemma_run_end_bounds(s, p as int, RunKind::Glued);
        }
        let e = scan_run(self.chars.as_slice(), p, RunKind::Glued);
        if e > p {
            self.position = e;
            return Some(string_from_chars(&self.chars.as_slice()[p..e]));
        }
        self.position = p + 1;
        let mut single: Vec<char> = Vec::new();
        single.push(c);
        proof {
            assert(single@ =~= seq![c]);
        }
        Some(string_from_chars(single.as_slice()))
    }
}

/// The pieces of `s` between commas (one more piece than there are commas).
pub open spec fn comma_pieces(s: Seq<char>) -> Seq<Seq<char>>
    decreases s.len(),
{
    if s.len() == 0 {
        seq![Seq::empty()]
    } else {
        let prev = comma_pieces(s.drop_last());
        if s.last() == ',' {
            prev.push(Seq::empty())
        } else {
            prev.update(prev.len() - 1, prev.last().push(s.last()))
        }
    }
}

pub proof fn lemma_comma_pieces_nonempty(s: Seq<char>)
    ensures
        comma_pieces(s).len() >= 1,
    decreases s.len(),
{
    if s.len() > 0 {
        lemma_comma_pieces_nonempty(s.drop_last());
    }
}

/// The number of leading white-space characters of `x`.
pub open spec fn leading_ws(x: Seq<char>) -> nat
    decreases x.len(),
{
    if x.len() > 0 && is_ws(x[0]) { 1 + leading_ws(x.drop_first()) } else { 0 }
}

/// The number of trailing white-space characters of `x`.
pub open spec fn trailing_ws(x: Seq<char>) -> nat
    decreases x.len(),
{
    if x.len() > 0 && is_ws(x.last()) { 1 + trailing_ws(x.drop_last()) } else { 0 }
}

/// `x` without leading and trailing white space.
pub open spec fn trimmed(x: Seq<char>) -> Seq<char> {
    let a = leading_ws(x) as int;
    if a == x.len() {
        Seq::empty()
    } else {
        x.subrange(a, x.len() - trailing_ws(x) as int)
    }
}

/// The bounds of `s[lo..hi]` without its leading and trailing white space.
pub fn trim_bounds(s: &[char], lo: usize, hi: usize) -> (r: (usize, usize))
    requires
        lo <= hi <= s@.len(),
    ensures
        lo <= r.0 <= r.1 <= hi,
        s@.subrange(r.0 as int, r.1 as int) == trimmed(s@.subrange(lo as int, hi as int)),
{
    let ghost x = s@.subrange(lo as int, hi as int);
    let mut a = lo;
    while a < hi && is_whitespace_char(s[a])
        invariant
            lo <= a <= hi <= s@.len(),
            x == s@.subrange(lo as int, hi as int),
            leading_ws(x) == (a - lo) + leading_ws(s@.subrange(a as int, hi as int)),
        decreases hi - a,
    {
        assert(s@.subrange(a as int, hi as int).drop_first() =~= s@.subrange(a + 1, hi as int));
        a = a + 1;
    }
    if a == hi {
        assert(s@.subrange(a as int, hi as int).len() == 0);
        return (a, a);
    }
    let mut b = hi;
    while b > a && is_whitespace_char(s[b - 1])
        invariant
            lo <= a < b <= hi <= s@.len(),
            !is_ws(s@[a as int]),
            x == s@.subrange(lo as int, hi as int),
            trailing_ws(x) == (hi - b) + trailing_ws(s@.subrange(lo as int, b as int)),
        decreases b,
    {
        assert(s@.subrange(lo as int, b as int).drop_last() =~= s@.subrange(lo as int, b - 1));
        b = b - 1;
    }
    assert(s@.subrange(lo as int, b as int).last() == s@[b - 1]);
    assert(trailing_ws(s@.subrange(lo as int, b as int)) == 0);
    assert(x.subrange(a - lo, x.len() - (hi - b)) =~= s@.subrange(a as int, b as int));
    (a, b)
}

/// Splits `line` at every comma and trims white space from each piece; the pieces
/// borrow from `line`.
pub fn parse_csv_line<'a>(line: &'a str) -> (r: Vec<&'a str>)
    ensures
        r@.len() == comma_pieces(line@).len(),
        forall|k: int| 0 <= k < r@.len() ==> (#[trigger] r@[k])@ == trimmed(comma_pieces(line@)[k]),
{
    let chars = chars_of(line);
    let n = chars.len();
    let ghost s = line@;
    let mut r: Vec<&'a str> = Vec::new();
    let mut start: usize = 0;
    let mut i: usize = 0;
    assert(s.subrange(0, 0) =~= Seq::<char>::empty());
    while i < n
        invariant
            chars@ == s,
            s == line@,
            n == s.len(),
            start <= i <= n,
            comma_pieces(s.subrange(0, i as int)).len() == r@.len() + 1,
            forall|k: int| 0 <= k < r@.len() ==> (#[trigger] r@[k])@ == trimmed(
                comma_pieces(s.subrange(0, i as int))[k],
            ),
            comma_pieces(s.subrange(0, i as int)).last() == s.subrange(start as int, i as int),
        decreases n - i,
    {
        let ghost prev = comma_pieces(s.subrange(0, i as int));
        assert(s.subrange(0, i + 1).drop_last() =~= s.subrange(0, i as int));
        assert(s.subrange(0, i + 1).last() == s[i as int]);
        if chars[i] == ',' {
            let (a, b) = trim_bounds(chars.as_slice(), start, i);
            r.push(line.substring_char(a, b));
            start = i + 1;
            assert(s.subrange(start as int, i + 1) =~= Seq::<char>::empty());
        } else {
            assert(s.subrange(start as int, i + 1) =~= s.subrange(start as int, i as int).push(s[i as int]));
        }
        i = i + 1;
    }
    assert(s.subrange(0, n as int) =~= s);
    let (a, b) = trim_bounds(chars.as_slice(), start, n);
    r.push(line.substring_char(a, b));
    r
}

} // verus!
