//! CSV records: parsing one line into fields (quoted fields, doubled quotes, a chosen
//! delimiter), typed access to the fields, the bookkeeping of a line-by-line reader,
//! and the division of a CSV text into chunks that start at line starts.
use vstd::prelude::*;
use vstd::string::StringSliceAdditionalSpecFns;
use crate::text::{chars_of, string_from_chars, str_eq, owned, lowercase, to_lower};
use crate::regex::{is_digit, digits_value};
use crate::tokens::{trimmed, trim_bounds};

verus! {

/// Why a line is not a CSV record.
#[derive(Debug, PartialEq, Eq, Structural, Clone, Copy)]
pub enum ParseError {
    UnterminatedQuote,
    InvalidEscape,
    EmptyLine,
}

/// Whether `c` ends a line (line feed or carriage return).
pub open spec fn is_line_end(c: char) -> bool {
    c == '\n' || c == '\r'
}

/// `s` without its trailing run of line feeds and carriage returns.
pub open spec fn strip_line_end(s: Seq<char>) -> Seq<char>
    decreases s.len(),
{
    if s.len() > 0 && is_line_end(s.last()) {
        strip_line_end(s.drop_last())
    } else {
        s
    }
}

/// Scans `s` from position `i` with the given state: the fields completed so far, the
/// text of the field being read, whether a quoted section is open, and whether the
/// current field has content or a closed quoted section. Inside quotes a doubled quote
/// stands for one quote and a single quote closes the section; outside quotes the
/// delimiter ends a field and a quote opens a section only at the start of a field.
pub open spec fn scan(
    s: Seq<char>,
    d: char,
    i: nat,
    fields: Seq<Seq<char>>,
    cur: Seq<char>,
    in_quotes: bool,
    started: bool,
) -> Result<Seq<Seq<char>>, ParseError>
    decreases s.len() - i,
{
    if i >= s.len() {
        if in_quotes {
            Err(ParseError::UnterminatedQuote)
        } else {
            Ok(fields.push(cur))
        }
    } else {
        let c = s[i as int];
        if in_quotes {
            if c == '"' {
                if i + 1 < s.len() && s[i + 1int] == '"' {
                    scan(s, d, i + 2, fields, cur.push('"'), true, started)
                } else {
                    scan(s, d, i + 1, fields, cur, false, true)
                }
            } else {
                scan(s, d, i + 1, fields, cur.push(c), true, started)
            }
        } else if c == d {
            scan(s, d, i + 1, fields.push(cur), Seq::empty(), false, false)
        } else if c == '"' {
            if !started {
                scan(s, d, i + 1, fields, cur, true, started)
            } else {
                Err(ParseError::InvalidEscape)
            }
        } else {
            scan(s, d, i + 1, fields, cur.push(c), false, true)
        }
    }
}

/// The fields of `line` (without its line end) split at `d`, or why it is not a record;
/// a line of white space only is empty.
pub open spec fn parse_line(line: Seq<char>, d: char) -> Result<Seq<Seq<char>>, ParseError> {
    let t = strip_line_end(line);
    if trimmed(t).len() == 0 {
        Err(ParseError::EmptyLine)
    } else {
        scan(t, d, 0, Seq::empty(), Seq::empty(), false, false)
    }
}

/// One record of a CSV source: its fields, in order.
#[derive(Debug, Clone, PartialEq)]
pub struct CsvRecord {
    fields: Vec<String>,
}

impl View for CsvRecord {
    type V = Seq<Seq<char>>;

    closed spec fn view(&self) -> Seq<Seq<char>> {
        self.fields@.map_values(|f: String| f@)
    }
}

/// A parse result seen through the view of the record.
pub open spec fn outcome(r: Result<CsvRecord, ParseError>) -> Result<Seq<Seq<char>>, ParseError> {
    match r {
        Ok(rec) => Ok(rec@),
        Err(e) => Err(e),
    }
}

/// The length of `s` without its trailing line ends.
fn strip_line_end_len(s: &[char]) -> (n: usize)
    ensures
        n <= s@.len(),
        s@.subrange(0, n as int) == strip_line_end(s@),
{
    let mut end = s.len();
    assert(s@.subrange(0, end as int) =~= s@);
    while end > 0 && (s[end - 1] == '\n' || s[end - 1] == '\r')
        invariant
            end <= s@.len(),
            strip_line_end(s@) == strip_line_end(s@.subrange(0, end as int)),
        decreases end,
    {
        assert(s@.subrange(0, end as int).drop_last() =~= s@.subrange(0, end - 1));
        end = end - 1;
    }
    end
}

impl CsvRecord {
    /// Parses one line: trailing line ends are dropped, a blank line is `EmptyLine`, an
    /// open quoted section at the end is `UnterminatedQuote` and a quote inside an
    /// unquoted field is `InvalidEscape`.
    pub fn parse_csv_line(line: &str, delimiter: char) -> (r: Result<CsvRecord, ParseError>)
        ensures
            outcome(r) == parse_line(line@, delimiter),
    {
        let chars = chars_of(line);
        let end = strip_line_end_len(chars.as_slice());
        let ghost t = chars@.subrange(0, end as int);
        let (a, b) = trim_bounds(chars.as_slice(), 0, end);
        if a == b {
            assert(trimmed(t).len() == 0);
            return Err(ParseError::EmptyLine);
        }
        assert(trimmed(t).len() > 0);
        let mut fields: Vec<String> = Vec::new();
        let mut current: Vec<char> = Vec::new();
        let mut in_quotes = false;
        let mut started = false;
        let mut i: usize = 0;
        assert(fields@.map_values(|f: String| f@) =~= Seq::<Seq<char>>::empty());
        assert(current@ =~= Seq::<char>::empty());
        while i < end
            invariant
                chars@ == line@,
                end <= chars@.len(),
                t == chars@.subrange(0, end as int),
                t == strip_line_end(line@),
                trimmed(t).len() > 0,
                i <= end,
                parse_line(line@, delimiter) == scan(
                    t,
                    delimiter,
                    i as nat,
                    fields@.map_values(|f: String| f@),
                    current@,
                    in_quotes,
                    started,
                ),
            decreases end - i,
        {
            let c = chars[i];
            if in_quotes {
                if c == '"' {
                    if i + 1 < end && chars[i + 1] == '"' {
                        current.push('"');
                        i = i + 2;
                    } else {
                        in_quotes = false;
                        started = true;
                        i = i + 1;
                    }
                } else {
                    current.push(c);
                    i = i + 1;
                }
            } else if c == delimiter {
                let ghost before = fields@;
                let f = string_from_chars(current.as_slice());
                fields.push(f);
                assert(fields@.map_values(|f: String| f@) =~= before.map_values(|f: String| f@).push(
                    current@,
                ));
                current = Vec::new();
                started = false;
                i = i + 1;
                assert(current@ =~= Seq::<char>::empty());
            } else if c == '"' {
                if !started {
                    in_quotes = true;
                    i = i + 1;
                } else {
                    return Err(ParseError::InvalidEscape);
                }
            } else {
                current.push(c);
                started = true;
                i = i + 1;
            }
        }
        if in_quotes {
            return Err(ParseError::UnterminatedQuote);
        }
        let ghost before = fields@;
        let f = string_from_chars(current.as_slice());
        fields.push(f);
        assert(fields@.map_values(|f: String| f@) =~= before.map_values(|f: String| f@).push(current@));
        let rec = CsvRecord { fields };
        assert(rec@ == fields@.map_values(|f: String| f@));
        Ok(rec)
    }
}

impl CsvRecord {
    /// The field at `index`, if there is one.
    pub fn get_field(&self, index: usize) -> (r: Option<&str>)
        ensures
            index < self@.len() ==> (r matches Some(f) && f@ == self@[index as int]),
            index >= self@.len() ==> r is None,
    {
        if index < self.fields.len() {
            Some(self.fields[index].as_str())
        } else {
            None
        }
    }

    /// The number of fields.
    pub fn field_count(&self) -> (r: usize)
        ensures
            r == self@.len(),
    {
        self.fields.len()
    }

    /// Replaces the field at `index` by what `mapper` makes of it; without such a field
    /// the record stays as it is and `mapper` is not called.
    pub fn map_field<F: FnOnce(&str) -> String>(&mut self, index: usize, mapper: F)
        requires
            index < old(self)@.len() ==> forall|s: &str| s@ == old(self)@[index as int] ==> call_requires(
                mapper,
                (s,),
            ),
        ensures
            index >= old(self)@.len() ==> final(self)@ == old(self)@,
            index < old(self)@.len() ==> exists|s: &str, out: String|
                #![trigger call_ensures(mapper, (s,), out)]
                s@ == old(self)@[index as int] && call_ensures(mapper, (s,), out) && final(self)@
                    == old(self)@.update(index as int, out@),
    {
        if index < self.fields.len() {
            let ghost before = self.fields@;
            let current: &str = self.fields[index].as_str();
            let new_value = mapper(current);
            proof {
                let ghost arg = current;
                assert(call_ensures(mapper, (arg,), new_value));
            }
            self.fields.set(index, new_value);
            assert(self.fields@.map_values(|f: String| f@) =~= before.map_values(|f: String| f@).update(
                index as int,
                new_value@,
            ));
        }
    }
}

/// The declaration of `std::num::ParseIntError`, the error of integer parsing.
#[verifier::external_type_specification]
#[verifier::external_body]
pub struct ExParseIntError(std::num::ParseIntError);

/// The declaration of `std::num::ParseFloatError`, the error of float parsing.
#[verifier::external_type_specification]
#[verifier::external_body]
pub struct ExParseFloatError(std::num::ParseFloatError);

/// Why a field does not convert to the requested type.
#[derive(Debug, PartialEq)]
pub enum ConversionError {
    ParseInt(std::num::ParseIntError),
    ParseFloat(std::num::ParseFloatError),
    InvalidValue(String),
    MissingField,
}

/// Whether every character of `s` is an ASCII digit.
pub open spec fn all_digits(s: Seq<char>) -> bool {
    forall|i: int| 0 <= i < s.len() ==> is_digit(#[trigger] s[i])
}

/// The integer that `s` writes in decimal: an optional `+` or `-` followed by one or
/// more ASCII digits, and nothing else.
pub open spec fn decimal_int(s: Seq<char>) -> Option<int> {
    if s.len() > 0 && (s[0] == '+' || s[0] == '-') {
        let ds = s.drop_first();
        if ds.len() > 0 && all_digits(ds) {
            if s[0] == '-' {
                Some(-(digits_value(ds) as int))
            } else {
                Some(digits_value(ds) as int)
            }
        } else {
            None
        }
    } else if s.len() > 0 && all_digits(s) {
        Some(digits_value(s) as int)
    } else {
        None
    }
}

/// Whether `s` writes an integer that fits in an `i64`.
pub open spec fn i64_text(s: Seq<char>) -> bool {
    decimal_int(s) matches Some(v) && i64::MIN <= v <= i64::MAX
}

/// `str::parse::<i64>`: its documentation accepts exactly an optional sign followed by
/// decimal digits, with no other characters, whose value fits in an `i64`.
#[verifier::external_body]
pub(crate) fn parse_i64(s: &str) -> (r: Result<i64, std::num::ParseIntError>)
    ensures
        r is Ok <==> i64_text(s@),
        r matches Ok(v) ==> decimal_int(s@) == Some(v as int),
{
    s.parse::<i64>()
}

/// The field without its leading and trailing white space.
fn trim_field(field: &str) -> (r: &str)
    ensures
        r@ == trimmed(field@),
{
    let cs = chars_of(field);
    let n = cs.len();
    let (a, b) = trim_bounds(cs.as_slice(), 0, n);
    assert(cs@.subrange(0, n as int) =~= field@);
    field.substring_char(a, b)
}

/// A type that a CSV field converts to.
pub trait FromCsvField: Sized {
    /// Whether `r` is the conversion of a field with text `field`.
    spec fn converts(field: Seq<char>, r: Result<Self, ConversionError>) -> bool;

    /// Converts the text of a field.
    fn from_csv_field(field: &str) -> (r: Result<Self, ConversionError>)
        ensures
            Self::converts(field@, r),
    ;
}

impl FromCsvField for String {
    /// The field itself.
    open spec fn converts(field: Seq<char>, r: Result<String, ConversionError>) -> bool {
        r matches Ok(s) && s@ == field
    }

    fn from_csv_field(field: &str) -> (r: Result<String, ConversionError>) {
        Ok(owned(field))
    }
}

impl FromCsvField for i64 {
    /// The trimmed field read as a decimal integer; otherwise a parse error.
    open spec fn converts(field: Seq<char>, r: Result<i64, ConversionError>) -> bool {
        let t = trimmed(field);
        if i64_text(t) {
            r matches Ok(v) && decimal_int(t) == Some(v as int)
        } else {
            r matches Err(ConversionError::ParseInt(_))
        }
    }

    fn from_csv_field(field: &str) -> (r: Result<i64, ConversionError>) {
        match parse_i64(trim_field(field)) {
            Ok(v) => Ok(v),
            Err(e) => Err(ConversionError::ParseInt(e)),
        }
    }
}

/// The lower-case words that read as true.
pub open spec fn true_word(w: Seq<char>) -> bool {
    w == "true"@ || w == "yes"@ || w == "1"@
}

/// The lower-case words that read as false.
pub open spec fn false_word(w: Seq<char>) -> bool {
    w == "false"@ || w == "no"@ || w == "0"@
}

impl FromCsvField for bool {
    /// `true`, `yes` or `1`, and `false`, `no` or `0`, in any case and with surrounding
    /// white space; anything else is an invalid value that carries the field.
    open spec fn converts(field: Seq<char>, r: Result<bool, ConversionError>) -> bool {
        let w = lowercase(trimmed(field));
        if true_word(w) {
            r == Ok::<bool, ConversionError>(true)
        } else if false_word(w) {
            r == Ok::<bool, ConversionError>(false)
        } else {
            r matches Err(ConversionError::InvalidValue(s)) && s@ == field
        }
    }

    fn from_csv_field(field: &str) -> (r: Result<bool, ConversionError>) {
        let lower = to_lower(trim_field(field));
        let w = lower.as_str();
        if str_eq(w, "true") || str_eq(w, "yes") || str_eq(w, "1") {
            Ok(true)
        } else if str_eq(w, "false") || str_eq(w, "no") || str_eq(w, "0") {
            Ok(false)
        } else {
            Err(ConversionError::InvalidValue(owned(field)))
        }
    }
}

impl CsvRecord {
    /// The field at `index` converted to `T`; `MissingField` without such a field.
    pub fn get_typed<T: FromCsvField>(&self, index: usize) -> (r: Result<T, ConversionError>)
        ensures
            index >= self@.len() ==> r matches Err(ConversionError::MissingField),
            index < self@.len() ==> T::converts(self@[index as int], r),
    {
        match self.get_field(index) {
            Some(field) => T::from_csv_field(field),
            None => Err(ConversionError::MissingField),
        }
    }
}

/// A failure while reading CSV records: from the source, or a line that is not a record,
/// with its line number (counting from 1).
#[derive(Debug)]
pub enum Error {
    Io(std::io::Error),
    Parse(ParseError, usize),
}

/// The bookkeeping of a line-by-line CSV reader: the delimiter and the number of lines
/// read so far.
pub struct LineTracker {
    delimiter: char,
    line_number: usize,
}

impl LineTracker {
    /// The delimiter.
    pub closed spec fn delim(&self) -> char {
        self.delimiter
    }

    /// The number of lines read so far.
    pub closed spec fn lines_read(&self) -> nat {
        self.line_number as nat
    }

    /// A tracker that has read no line.
    pub fn new(delimiter: char) -> (r: Self)
        ensures
            r.delim() == delimiter,
            r.lines_read() == 0,
    {
        LineTracker { delimiter, line_number: 0 }
    }

    /// The number of lines read so far.
    pub fn line_number(&self) -> (r: usize)
        ensures
            r == self.lines_read(),
    {
        self.line_number
    }

    /// Takes the next line of the source: counts it and parses it. A record is handed
    /// out; a blank line gives nothing, so that the reader goes on to the next line; any
    /// other parse error is handed out with the number of this line.
    pub fn accept_line(&mut self, line: &str) -> (r: Option<Result<CsvRecord, Error>>)
        requires
            old(self).lines_read() < usize::MAX,
        ensures
            final(self).lines_read() == old(self).lines_read() + 1,
            final(self).delim() == old(self).delim(),
            parse_line(line@, old(self).delim()) matches Ok(fs) ==> (r matches Some(Ok(rec)) && rec@ == fs),
            parse_line(line@, old(self).delim()) == Err::<Seq<Seq<char>>, ParseError>(ParseError::EmptyLine)
                ==> r is None,
            parse_line(line@, old(self).delim()) matches Err(e) ==> (e != ParseError::EmptyLine ==> (
            r matches Some(Err(Error::Parse(e2, n))) && e2 == e && n == final(self).lines_read())),
    {
        self.line_number = self.line_number + 1;
        match CsvRecord::parse_csv_line(line, self.delimiter) {
            Ok(record) => Some(Ok(record)),
            Err(ParseError::EmptyLine) => None,
            Err(err) => Some(Err(Error::Parse(err, self.line_number))),
        }
    }
}

/// The position just after the first line feed at or after `p`, or the length of
/// `data` when there is none.
pub open spec fn line_end_after(data: Seq<u8>, p: int) -> int
    decreases data.len() - p,
{
    if p >= data.len() {
        data.len() as int
    } else if data[p] == 10 {
        p + 1
    } else {
        line_end_after(data, p + 1)
    }
}

/// A line end found from `p` lies past `p` and within the data.
pub proof fn lemma_line_end_after_bounds(data: Seq<u8>, p: int)
    requires
        0 <= p < data.len(),
    ensures
        p < line_end_after(data, p) <= data.len(),
    decreases data.len() - p,
{
    if data[p] != 10 {
        if p + 1 < data.len() {
            lemma_line_end_after_bounds(data, p + 1);
        } else {
            assert(line_end_after(data, p + 1) == data.len());
        }
    }
}

/// How far `p` lies before `n`, or zero.
pub open spec fn gap(n: int, p: int) -> nat {
    if p < n {
        (n - p) as nat
    } else {
        0
    }
}

/// The chunk starts found from the candidate position `next` on: the line start that
/// ends the line holding `next`, then again from `chunk` bytes further, until the end
/// of the data.
pub open spec fn starts_from(data: Seq<u8>, chunk: int, next: int) -> Seq<int>
    decreases gap(data.len() as int, next),
{
    if chunk < 1 || next < 0 || next >= data.len() {
        Seq::empty()
    } else {
        let pos = line_end_after(data, next);
        proof {
            lemma_line_end_after_bounds(data, next);
        }
        if pos >= data.len() {
            Seq::empty()
        } else {
            seq![pos] + starts_from(data, chunk, pos + chunk)
        }
    }
}

/// The chunk boundaries of `data` for `num_chunks` workers (at least one): 0, then the
/// line starts found every `len / num_chunks` bytes (at least one byte), then the
/// length; `[0, 0]` for empty data.
pub open spec fn chunk_boundaries(data: Seq<u8>, num_chunks: nat) -> Seq<int> {
    let n = data.len() as int;
    let k = if num_chunks < 1 { 1 } else { num_chunks as int };
    if n == 0 {
        seq![0, 0]
    } else {
        let chunk = if n / k < 1 { 1 } else { n / k };
        seq![0] + starts_from(data, chunk, chunk) + seq![n]
    }
}

/// Every chunk start lies strictly between `next` and the end of the data.
pub proof fn lemma_starts_within(data: Seq<u8>, chunk: int, next: int)
    ensures
        forall|i: int| 0 <= i < starts_from(data, chunk, next).len() ==> next < #[trigger] starts_from(
            data,
            chunk,
            next,
        )[i] < data.len(),
    decreases gap(data.len() as int, next),
{
    if chunk < 1 || next < 0 || next >= data.len() {
    } else {
        let pos = line_end_after(data, next);
        lemma_line_end_after_bounds(data, next);
        if pos < data.len() {
            lemma_starts_within(data, chunk, pos + chunk);
            let rest = starts_from(data, chunk, pos + chunk);
            assert(starts_from(data, chunk, next) == seq![pos] + rest);
            assert forall|i: int| 0 <= i < starts_from(data, chunk, next).len() implies next
                < #[trigger] starts_from(data, chunk, next)[i] < data.len() by {
                if i > 0 {
                    assert(starts_from(data, chunk, next)[i] == rest[i - 1]);
                }
            }
        }
    }
}

/// Splits `data` into about `num_chunks` chunks that each start at a line start: the
/// boundaries, from 0 to the length, in increasing order.
pub fn find_chunk_boundaries(data: &[u8], num_chunks: usize) -> (r: Vec<u64>)
    ensures
        r@.map_values(|b: u64| b as int) == chunk_boundaries(data@, num_chunks as nat),
{
    let n = data.len();
    let k = if num_chunks < 1 {
        1
    } else {
        num_chunks
    };
    if n == 0 {
        let r: Vec<u64> = vec![0, 0];
        assert(r@.map_values(|b: u64| b as int) =~= seq![0int, 0int]);
        return r;
    }
    let chunk = if n / k < 1 {
        1
    } else {
        n / k
    };
    let ghost d = data@;
    let ghost all = seq![0int] + starts_from(d, chunk as int, chunk as int);
    let mut boundaries: Vec<u64> = vec![0];
    let mut next = chunk;
    proof {
        lemma_starts_within(d, chunk as int, chunk as int);
    }
    assert(boundaries@.map_values(|b: u64| b as int) + starts_from(d, chunk as int, next as int) =~= all);
    while next < n
        invariant_except_break
            next < n ==> all == boundaries@.map_values(|b: u64| b as int) + starts_from(
                d,
                chunk as int,
                next as int,
            ),
        invariant
            d == data@,
            n == d.len(),
            1 <= chunk,
            boundaries@.len() >= 1,
            forall|i: int| 0 <= i < boundaries@.len() ==> #[trigger] boundaries@[i] < n,
            next >= n ==> all == boundaries@.map_values(|b: u64| b as int),
        ensures
            all == boundaries@.map_values(|b: u64| b as int),
        decreases n - next,
    {
        let ghost at = next as int;
        let mut pos = next;
        while pos < n && data[pos] != 10u8
            invariant
                d == data@,
                n == d.len(),
                next <= pos <= n,
                line_end_after(d, at) == line_end_after(d, pos as int),
                at == next,
            decreases n - pos,
        {
            pos = pos + 1;
        }
        if pos < n {
            pos = pos + 1;
        }
        assert(pos == line_end_after(d, at));
        proof {
            lemma_line_end_after_bounds(d, at);
        }
        if pos >= n {
            assert(starts_from(d, chunk as int, at) =~= Seq::<int>::empty());
            assert(boundaries@.map_values(|b: u64| b as int) + Seq::<int>::empty() =~= boundaries@.map_values(
                |b: u64| b as int,
            ));
            break;
        }
        let ghost before = boundaries@;
        boundaries.push(pos as u64);
        assert(boundaries@.map_values(|b: u64| b as int) =~= before.map_values(|b: u64| b as int).push(
            pos as int,
        ));
        assert(starts_from(d, chunk as int, at) == seq![pos as int] + starts_from(
            d,
            chunk as int,
            pos + chunk,
        ));
        assert(boundaries@.map_values(|b: u64| b as int) + starts_from(d, chunk as int, pos + chunk) =~= before.map_values(
            |b: u64| b as int,
        ) + starts_from(d, chunk as int, at));
        if chunk >= n - pos {
            assert(starts_from(d, chunk as int, pos + chunk) =~= Seq::<int>::empty());
            assert(boundaries@.map_values(|b: u64| b as int) + Seq::<int>::empty() =~= boundaries@.map_values(
                |b: u64| b as int,
            ));
            break;
        }
        next = pos + chunk;
    }
    let last = boundaries[boundaries.len() - 1];
    if last != n as u64 {
        let ghost before = boundaries@;
        boundaries.push(n as u64);
        assert(boundaries@.map_values(|b: u64| b as int) =~= before.map_values(|b: u64| b as int).push(
            n as int,
        ));
    }
    assert(boundaries@.map_values(|b: u64| b as int) =~= chunk_boundaries(d, num_chunks as nat));
    boundaries
}

} // verus!

verus! {

/// The records of `rs` that were read without error, in order.
pub open spec fn valid_records(rs: Seq<Result<CsvRecord, Error>>) -> Seq<CsvRecord>
    decreases rs.len(),
{
    if rs.len() == 0 {
        Seq::empty()
    } else {
        match rs.last() {
            Ok(r) => valid_records(rs.drop_last()).push(r),
            Err(_) => valid_records(rs.drop_last()),
        }
    }
}

/// Keeps the records read without error, in order, and drops the errors.
pub fn filter_valid(records: Vec<Result<CsvRecord, Error>>) -> (r: Vec<CsvRecord>)
    ensures
        r@ == valid_records(records@),
{
    let ghost orig = records@;
    let _n = records.len();
    let mut out: Vec<CsvRecord> = Vec::new();
    let mut rest = records;
    let mut taken: usize = 0;
    proof {
        assert(orig.take(0) =~= Seq::<Result<CsvRecord, Error>>::empty());
        assert(rest@ =~= orig.skip(0));
    }
    while rest.len() > 0
        invariant
            taken <= orig.len(),
            taken + rest@.len() == orig.len(),
            orig.len() <= usize::MAX,
            rest@ == orig.skip(taken as int),
            out@ == valid_records(orig.take(taken as int)),
        decreases rest@.len(),
    {
        let x = rest.remove(0);
        proof {
            assert(x == orig[taken as int]);
            assert(rest@ =~= orig.skip(taken + 1));
            assert(orig.take(taken + 1).drop_last() =~= orig.take(taken as int));
            assert(orig.take(taken + 1).last() == x);
        }
        match x {
            Ok(rec) => {
                out.push(rec);
            },
            Err(_) => {},
        }
        taken = taken + 1;
    }
    proof {
        assert(orig.take(taken as int) =~= orig);
    }
    out
}

/// The check on field `column` answered `keep` for this record: it was called on the
/// field's text. Records without that field, and errors, are not checked.
pub open spec fn checked_as<F: FnMut(&str) -> bool>(predicate: F, x: Result<CsvRecord, Error>, column: int, keep: bool) -> bool {
    match x {
        Ok(rec) => column < rec@.len() ==> exists|s: &str| #![trigger call_ensures(predicate, (s,), keep)]
            s@ == rec@[column] && call_ensures(predicate, (s,), keep),
        Err(_) => true,
    }
}

/// The results kept when each record's check answered `keep`: every error, and the
/// records that have field `column` and were kept, in order.
pub open spec fn kept_by_column(rs: Seq<Result<CsvRecord, Error>>, column: int, keep: Seq<bool>) -> Seq<Result<CsvRecord, Error>>
    decreases rs.len(),
{
    if rs.len() == 0 {
        Seq::empty()
    } else {
        let rest = kept_by_column(rs.drop_last(), column, keep.drop_last());
        match rs.last() {
            Ok(rec) => if column < rec@.len() && keep.last() {
                rest.push(Ok(rec))
            } else {
                rest
            },
            Err(e) => rest.push(Err(e)),
        }
    }
}

/// Keeps the records whose field `column` passes `predicate`, and every error, in
/// order; a record without that field is dropped.
pub fn filter_by_column<F: FnMut(&str) -> bool>(records: Vec<Result<CsvRecord, Error>>, column: usize, predicate: F) -> (r: Vec<Result<CsvRecord, Error>>)
    requires
        forall|s: &str, g: F| call_requires(g, (s,)),
    ensures
        exists|keep: Seq<bool>| #[trigger] kept_by_column(records@, column as int, keep) == r@ && keep.len() == records@.len()
            && forall|i: int| 0 <= i < records@.len() ==> checked_as(predicate, records@[i], column as int, #[trigger] keep[i]),
{
    let ghost orig = records@;
    let _n = records.len();
    let ghost p0 = predicate;
    let mut pred = predicate;
    let mut out: Vec<Result<CsvRecord, Error>> = Vec::new();
    let mut rest = records;
    let mut taken: usize = 0;
    let ghost mut keep: Seq<bool> = Seq::empty();
    proof {
        assert(orig.take(0) =~= Seq::<Result<CsvRecord, Error>>::empty());
        assert(rest@ =~= orig.skip(0));
    }
    while rest.len() > 0
        invariant
            forall|s: &str, g: F| call_requires(g, (s,)),
            pred == p0,
            taken <= orig.len(),
            orig.len() <= usize::MAX,
            taken + rest@.len() == orig.len(),
            rest@ == orig.skip(taken as int),
            keep.len() == taken,
            out@ == kept_by_column(orig.take(taken as int), column as int, keep),
            forall|i: int| 0 <= i < taken ==> checked_as(p0, orig[i], column as int, #[trigger] keep[i]),
        decreases rest@.len(),
    {
        let x = rest.remove(0);
        proof {
            assert(x == orig[taken as int]);
            assert(rest@ =~= orig.skip(taken + 1));
            assert(orig.take(taken + 1).drop_last() =~= orig.take(taken as int));
            assert(orig.take(taken + 1).last() == x);
        }
        let ghost k: bool;
        match x {
            Ok(rec) => {
                if column < rec.fields.len() {
                    let v: &str = rec.fields[column].as_str();
                    let b = pred(v);
                    proof {
                        k = b;
                        assert(v@ == rec@[column as int]);
                        assert(call_ensures(p0, (v,), b));
                    }
                    if b {
                        out.push(Ok(rec));
                    }
                } else {
                    proof {
                        k = false;
                    }
                }
            },
            Err(e) => {
                proof {
                    k = false;
                }
                out.push(Err(e));
            },
        }
        proof {
            let old_keep = keep;
            keep = keep.push(k);
            assert(keep.drop_last() =~= old_keep);
            assert forall|i: int| 0 <= i < taken + 1 implies checked_as(p0, orig[i], column as int, #[trigger] keep[i]) by {
                if i < taken {
                    assert(keep[i] == old_keep[i]);
                }
            }
        }
        taken = taken + 1;
    }
    proof {
        assert(orig.take(taken as int) =~= orig);
    }
    out
}

/// The record after `mapper` rewrote field `column`, when it has one: the field's text
/// went in and `out` came back.
pub open spec fn mapped_as<F: FnMut(&str) -> String>(mapper: F, before: Seq<Seq<char>>, column: int, after: Seq<Seq<char>>) -> bool {
    if column < before.len() {
        exists|s: &str, out: String| #![trigger call_ensures(mapper, (s,), out)]
            s@ == before[column] && call_ensures(mapper, (s,), out) && after == before.update(column, out@)
    } else {
        after == before
    }
}

/// Rewrites field `column` of each record with `mapper`, in order; a record without
/// that field is left as it is.
pub fn map_column<F: FnMut(&str) -> String>(records: Vec<CsvRecord>, column: usize, mapper: F) -> (r: Vec<CsvRecord>)
    requires
        forall|s: &str, g: F| call_requires(g, (s,)),
    ensures
        r@.len() == records@.len(),
        forall|i: int| 0 <= i < records@.len() ==> mapped_as(mapper, records@[i]@, column as int, (#[trigger] r@[i])@),
{
    let ghost orig = records@;
    let ghost m0 = mapper;
    let mut f = mapper;
    let mut out: Vec<CsvRecord> = Vec::new();
    let mut rest = records;
    proof {
        assert(rest@ =~= orig.skip(0));
    }
    while rest.len() > 0
        invariant
            forall|s: &str, g: F| call_requires(g, (s,)),
            f == m0,
            out@.len() + rest@.len() == orig.len(),
            rest@ == orig.skip(out@.len() as int),
            forall|i: int| 0 <= i < out@.len() ==> mapped_as(m0, orig[i]@, column as int, (#[trigger] out@[i])@),
        decreases rest@.len(),
    {
        let ghost n = out@.len() as int;
        let mut rec = rest.remove(0);
        proof {
            assert(rec == orig[n]);
            assert(rest@ =~= orig.skip(n + 1));
        }
        let ghost before = rec@;
        if column < rec.fields.len() {
            let ghost fs = rec.fields@;
            let current: &str = rec.fields[column].as_str();
            let new_value = f(current);
            proof {
                assert(current@ == before[column as int]);
                assert(call_ensures(m0, (current,), new_value));
            }
            rec.fields.set(column, new_value);
            proof {
                assert(rec@ =~= before.update(column as int, new_value@));
            }
        }
        let ghost prev = out@;
        out.push(rec);
        proof {
            assert forall|i: int| 0 <= i < out@.len() implies mapped_as(m0, orig[i]@, column as int, (#[trigger] out@[i])@) by {
                if i < n {
                    assert(out@[i] == prev[i]);
                }
            }
        }
    }
    out
}

/// The records of the first `n` lines of a chunk: blank lines are skipped, and the first
/// line that does not parse stops the chunk with its index and error.
pub open spec fn chunk_records(lines: Seq<Seq<char>>, d: char, n: int) -> Result<Seq<Seq<Seq<char>>>, (int, ParseError)>
    decreases n,
{
    if n <= 0 {
        Ok(Seq::empty())
    } else {
        match chunk_records(lines, d, n - 1) {
            Err(e) => Err(e),
            Ok(rs) => match parse_line(lines[n - 1], d) {
                Ok(f) => Ok(rs.push(f)),
                Err(ParseError::EmptyLine) => Ok(rs),
                Err(e) => Err((n - 1, e)),
            },
        }
    }
}

/// Once a line of a chunk fails, the chunk fails with that line's error.
proof fn lemma_chunk_error_stays(lines: Seq<Seq<char>>, d: char, n: int, m: int)
    requires
        n <= m,
        chunk_records(lines, d, n) is Err,
    ensures
        chunk_records(lines, d, m) == chunk_records(lines, d, n),
    decreases m - n,
{
    if m > n {
        lemma_chunk_error_stays(lines, d, n, m - 1);
    }
}

/// The records of the lines of a chunk, in order, skipping blank lines; the first line
/// that does not parse ends the work with its index in the chunk and its error.
pub fn parse_chunk(lines: &[String], delimiter: char) -> (r: Result<Vec<CsvRecord>, (usize, ParseError)>)
    ensures
        match chunk_records(lines@.map_values(|l: String| l@), delimiter, lines@.len() as int) {
            Ok(rs) => r matches Ok(v) && v@.len() == rs.len() && forall|k: int| 0 <= k < rs.len() ==> (#[trigger] v@[k])@ == rs[k],
            Err(e) => r matches Err(f) && f.0 == e.0 && f.1 == e.1,
        },
{
    let ghost ls = lines@.map_values(|l: String| l@);
    let mut out: Vec<CsvRecord> = Vec::new();
    let mut i: usize = 0;
    while i < lines.len()
        invariant
            i <= lines@.len(),
            ls == lines@.map_values(|l: String| l@),
            chunk_records(ls, delimiter, i as int) matches Ok(rs) && out@.len() == rs.len()
                && forall|k: int| 0 <= k < rs.len() ==> (#[trigger] out@[k])@ == rs[k],
        decreases lines@.len() - i,
    {
        let ghost rs = chunk_records(ls, delimiter, i as int)->Ok_0;
        assert(ls[i as int] == lines@[i as int]@);
        match CsvRecord::parse_csv_line(lines[i].as_str(), delimiter) {
            Ok(rec) => {
                let ghost prev = out@;
                out.push(rec);
                proof {
                    assert forall|k: int| 0 <= k < rs.len() + 1 implies (#[trigger] out@[k])@ == rs.push(rec@)[k] by {
                        if k < rs.len() {
                            assert(out@[k] == prev[k]);
                        }
                    }
                }
            },
            Err(ParseError::EmptyLine) => {},
            Err(e) => {
                proof {
                    assert(chunk_records(ls, delimiter, i + 1) == Err::<Seq<Seq<Seq<char>>>, (int, ParseError)>((i as int, e)));
                    lemma_chunk_error_stays(ls, delimiter, i + 1, lines@.len() as int);
                }
                return Err((i, e));
            },
        }
        i = i + 1;
    }
    Ok(out)
}

} // verus!
