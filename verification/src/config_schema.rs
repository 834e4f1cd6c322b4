//! Configuration documents: a JSON document as plain values, its parsing through
//! `serde_json`, lookup of dotted paths, schemas of required fields with their checks,
//! and the report that lists what a schema found wrong.
use vstd::prelude::*;
use crate::config_check::{ConfigError, Location, ValidationErrors, error_text};
use crate::text::{chars_of, string_from_chars, pieces, lemma_pieces_nonempty, owned, append_chars, append_str, decimal, decimal_chars};
use crate::csv_records::{parse_i64, i64_text, decimal_int};

verus! {

/// A JSON document. Numbers keep their text, so that no value is rounded.
#[derive(Debug, PartialEq)]
pub enum JsonValue {
    Null,
    Bool(bool),
    Number(String),
    Str(String),
    Array(Vec<JsonValue>),
    Object(Vec<(String, JsonValue)>),
}

#[verifier::external_type_specification]
#[verifier::external_body]
pub struct ExSerdeJsonValue(serde_json::Value);

/// What `serde_json::from_str` makes of a text: the document, or the line, the column
/// and the message of the error it reports.
pub uninterp spec fn json_parsed(text: Seq<char>) -> Result<JsonValue, (usize, usize, Seq<char>)>;

/// Turns a `serde_json::Value` into the same document as plain values: each variant into
/// its namesake, a number into its text, an object into its entries in the map's order.
#[verifier::external_body]
fn json_value_of(v: serde_json::Value) -> JsonValue {
    match v {
        serde_json::Value::Null => JsonValue::Null,
        serde_json::Value::Bool(b) => JsonValue::Bool(b),
        serde_json::Value::Number(n) => JsonValue::Number(n.to_string()),
        serde_json::Value::String(s) => JsonValue::Str(s),
        serde_json::Value::Array(xs) => JsonValue::Array(xs.into_iter().map(json_value_of).collect()),
        serde_json::Value::Object(m) => JsonValue::Object(m.into_iter().map(|(k, x)| (k, json_value_of(x))).collect()),
    }
}

/// `serde_json::from_str` into a `serde_json::Value`, handed back as plain values. The
/// contract claims only that the result is the one its name gives for the text: the
/// parser is deterministic, and what it accepts is its own grammar, not restated here.
#[verifier::external_body]
fn json_from_str(content: &str) -> (r: Result<JsonValue, (usize, usize, String)>)
    ensures
        match json_parsed(content@) {
            Ok(v) => r == Ok::<JsonValue, (usize, usize, String)>(v),
            Err(e) => r matches Err(f) && f.0 == e.0 && f.1 == e.1 && f.2@ == e.2,
        },
{
    match serde_json::from_str::<serde_json::Value>(content) {
        Ok(v) => Ok(json_value_of(v)),
        Err(e) => Err((e.line(), e.column(), e.to_string())),
    }
}

/// Parses configuration text.
pub struct ConfigParser;

impl ConfigParser {
    /// The JSON document in `content`, or the parse error with its line and column.
    pub fn parse_json(content: &str) -> (r: Result<JsonValue, ConfigError>)
        ensures
            match json_parsed(content@) {
                Ok(v) => r == Ok::<JsonValue, ConfigError>(v),
                Err(e) => r matches Err(ConfigError::ParseError { line, col, message }) && line == e.0 && col == e.1
                    && message@ == e.2,
            },
    {
        match json_from_str(content) {
            Ok(v) => Ok(v),
            Err((line, col, message)) => Err(ConfigError::ParseError { line, col, message }),
        }
    }
}

/// The index of the first entry at or after `i` whose key is `key`.
pub open spec fn key_index_from(es: Seq<(String, JsonValue)>, key: Seq<char>, i: int) -> Option<int>
    decreases es.len() - i,
{
    if i < 0 || i >= es.len() {
        None
    } else if es[i].0@ == key {
        Some(i)
    } else {
        key_index_from(es, key, i + 1)
    }
}

/// The value under `key` of an object: that of its first entry with that key; nothing
/// for a value that is not an object.
pub open spec fn json_get(v: JsonValue, key: Seq<char>) -> Option<JsonValue> {
    match v {
        JsonValue::Object(es) => match key_index_from(es@, key, 0) {
            Some(i) => Some(es@[i].1),
            None => None,
        },
        _ => None,
    }
}

/// The value reached from `v` by looking up each key of `keys` in turn.
pub open spec fn nested_get(v: JsonValue, keys: Seq<Seq<char>>) -> Option<JsonValue>
    decreases keys.len(),
{
    if keys.len() == 0 {
        Some(v)
    } else {
        match json_get(v, keys[0]) {
            Some(x) => nested_get(x, keys.drop_first()),
            None => None,
        }
    }
}

/// A borrowed optional value holds the same as a plain one.
pub open spec fn holds(r: Option<&JsonValue>, v: Option<JsonValue>) -> bool {
    match v {
        Some(x) => r matches Some(y) && *y == x,
        None => r is None,
    }
}

/// A lowercase hexadecimal digit.
pub open spec fn hex_digit(d: int) -> char {
    seq!['0', '1', '2', '3', '4', '5', '6', '7', '8', '9', 'a', 'b', 'c', 'd', 'e', 'f'][d]
}

/// A character as it stands inside a JSON string: quotes, backslashes and control
/// characters escaped, the common ones by their short forms.
pub open spec fn escaped(c: char) -> Seq<char> {
    if c == '"' {
        seq!['\\', '"']
    } else if c == '\\' {
        seq!['\\', '\\']
    } else if c == '\n' {
        seq!['\\', 'n']
    } else if c == '\r' {
        seq!['\\', 'r']
    } else if c == '\t' {
        seq!['\\', 't']
    } else if c == '\x08' {
        seq!['\\', 'b']
    } else if c == '\x0c' {
        seq!['\\', 'f']
    } else if (c as u32) < 0x20 {
        seq!['\\', 'u', '0', '0', hex_digit(((c as u32) / 16) as int), hex_digit(((c as u32) % 16) as int)]
    } else {
        seq![c]
    }
}

/// The characters of `s`, each escaped.
pub open spec fn escaped_text(s: Seq<char>) -> Seq<char>
    decreases s.len(),
{
    if s.len() == 0 {
        Seq::empty()
    } else {
        escaped_text(s.drop_last()) + escaped(s.last())
    }
}

/// `s` as a JSON string.
pub open spec fn quoted(s: Seq<char>) -> Seq<char> {
    seq!['"'] + escaped_text(s) + seq!['"']
}

/// The compact JSON text of a value (as `serde_json` displays one): no spaces, object
/// entries in their order.
pub open spec fn json_text(v: JsonValue) -> Seq<char>
    decreases v,
{
    match v {
        JsonValue::Null => seq!['n', 'u', 'l', 'l'],
        JsonValue::Bool(b) => if b {
            seq!['t', 'r', 'u', 'e']
        } else {
            seq!['f', 'a', 'l', 's', 'e']
        },
        JsonValue::Number(n) => n@,
        JsonValue::Str(s) => quoted(s@),
        JsonValue::Array(xs) => seq!['['] + items_text(xs@) + seq![']'],
        JsonValue::Object(es) => seq!['{'] + entries_text(es@) + seq!['}'],
    }
}

/// The texts of the items, separated by commas.
pub open spec fn items_text(xs: Seq<JsonValue>) -> Seq<char>
    decreases xs,
{
    if xs.len() == 0 {
        Seq::empty()
    } else {
        let pre = items_text(xs.drop_last());
        (if xs.len() == 1 {
            pre
        } else {
            pre.push(',')
        }) + json_text(xs.last())
    }
}

/// The texts of the entries, each a quoted key, a colon and the value, separated by
/// commas.
pub open spec fn entries_text(es: Seq<(String, JsonValue)>) -> Seq<char>
    decreases es,
{
    if es.len() == 0 {
        Seq::empty()
    } else {
        let pre = entries_text(es.drop_last());
        (if es.len() == 1 {
            pre
        } else {
            pre.push(',')
        }) + quoted(es.last().0@) + seq![':'] + json_text(es.last().1)
    }
}

impl JsonValue {
    /// The value under `key` of an object; `None` for a missing key or a value that is
    /// not an object.
    pub fn get(&self, key: &str) -> (r: Option<&JsonValue>)
        ensures
            holds(r, json_get(*self, key@)),
    {
        let k = owned(key);
        self.get_key(&k)
    }

    fn get_key(&self, key: &String) -> (r: Option<&JsonValue>)
        ensures
            holds(r, json_get(*self, key@)),
    {
        match self {
            JsonValue::Object(es) => {
                let mut i: usize = 0;
                while i < es.len()
                    invariant
                        i <= es@.len(),
                        key_index_from(es@, key@, 0) == key_index_from(es@, key@, i as int),
                        *self == (JsonValue::Object(*es)),
                    decreases es@.len() - i,
                {
                    if es[i].0 == *key {
                        return Some(&es[i].1);
                    }
                    i = i + 1;
                }
                None
            },
            _ => None,
        }
    }

    /// The text of a string value.
    pub fn as_str(&self) -> (r: Option<&str>)
        ensures
            match *self {
                JsonValue::Str(s) => r matches Some(x) && x@ == s@,
                _ => r is None,
            },
    {
        match self {
            JsonValue::Str(s) => Some(s.as_str()),
            _ => None,
        }
    }

    /// The value of a number written as an integer that fits in an `i64`.
    pub fn as_i64(&self) -> (r: Option<i64>)
        ensures
            match *self {
                JsonValue::Number(n) => if i64_text(n@) {
                    r matches Some(x) && decimal_int(n@) == Some(x as int)
                } else {
                    r is None
                },
                _ => r is None,
            },
    {
        match self {
            JsonValue::Number(n) => match parse_i64(n.as_str()) {
                Ok(x) => Some(x),
                Err(_) => None,
            },
            _ => None,
        }
    }

    /// Appends the compact JSON text of the value.
    pub fn render_into(&self, out: &mut Vec<char>)
        ensures
            final(out)@ == old(out)@ + json_text(*self),
        decreases self, 0nat,
    {
        match self {
            JsonValue::Null => {
                out.push('n');
                out.push('u');
                out.push('l');
                out.push('l');
                assert(final(out)@ =~= old(out)@ + json_text(*self));
            },
            JsonValue::Bool(b) => {
                if *b {
                    out.push('t');
                    out.push('r');
                    out.push('u');
                    out.push('e');
                } else {
                    out.push('f');
                    out.push('a');
                    out.push('l');
                    out.push('s');
                    out.push('e');
                }
                assert(final(out)@ =~= old(out)@ + json_text(*self));
            },
            JsonValue::Number(n) => {
                let cs = chars_of(n.as_str());
                append_chars(out, cs.as_slice());
            },
            JsonValue::Str(s) => {
                render_quoted(s.as_str(), out);
            },
            JsonValue::Array(xs) => {
                out.push('[');
                render_items(xs, out);
                out.push(']');
                assert(final(out)@ =~= old(out)@ + json_text(*self));
            },
            JsonValue::Object(es) => {
                out.push('{');
                render_entries(es, out);
                out.push('}');
                assert(final(out)@ =~= old(out)@ + json_text(*self));
            },
        }
    }

    /// The compact JSON text of the value.
    pub fn to_text(&self) -> (r: String)
        ensures
            r@ == json_text(*self),
    {
        let mut out: Vec<char> = Vec::new();
        self.render_into(&mut out);
        assert(out@ =~= json_text(*self));
        string_from_chars(out.as_slice())
    }
}

/// Appends the texts of the items, separated by commas.
fn render_items(xs: &Vec<JsonValue>, out: &mut Vec<char>)
    ensures
        final(out)@ == old(out)@ + items_text(xs@),
    decreases xs, 1nat,
{
    let ghost start = out@;
    let mut i: usize = 0;
    assert(xs@.take(0) =~= Seq::<JsonValue>::empty());
    while i < xs.len()
        invariant
            i <= xs@.len(),
            out@ == start + items_text(xs@.take(i as int)),
        decreases xs@.len() - i,
    {
        assert(xs@.take(i + 1).drop_last() =~= xs@.take(i as int));
        if i > 0 {
            out.push(',');
        }
        proof {
            assert(decreases_to!(xs => xs@[i as int]));
        }
        xs[i].render_into(out);
        assert(out@ =~= start + items_text(xs@.take(i + 1)));
        i = i + 1;
    }
    assert(xs@.take(xs@.len() as int) =~= xs@);
}

/// Appends the texts of the entries, separated by commas.
fn render_entries(es: &Vec<(String, JsonValue)>, out: &mut Vec<char>)
    ensures
        final(out)@ == old(out)@ + entries_text(es@),
    decreases es, 1nat,
{
    let ghost start = out@;
    let mut i: usize = 0;
    assert(es@.take(0) =~= Seq::<(String, JsonValue)>::empty());
    while i < es.len()
        invariant
            i <= es@.len(),
            out@ == start + entries_text(es@.take(i as int)),
        decreases es@.len() - i,
    {
        assert(es@.take(i + 1).drop_last() =~= es@.take(i as int));
        if i > 0 {
            out.push(',');
        }
        render_quoted(es[i].0.as_str(), out);
        out.push(':');
        proof {
            assert(decreases_to!(es => es@[i as int]));
            assert(decreases_to!(es@[i as int] => es@[i as int].1));
        }
        es[i].1.render_into(out);
        assert(out@ =~= start + entries_text(es@.take(i + 1)));
        i = i + 1;
    }
    assert(es@.take(es@.len() as int) =~= es@);
}

/// A lowercase hexadecimal digit for `d` below 16.
fn hex_char(d: u32) -> (r: char)
    requires
        d < 16,
    ensures
        r == hex_digit(d as int),
{
    let digits = ['0', '1', '2', '3', '4', '5', '6', '7', '8', '9', 'a', 'b', 'c', 'd', 'e', 'f'];
    proof {
        assert(digits@ =~= seq!['0', '1', '2', '3', '4', '5', '6', '7', '8', '9', 'a', 'b', 'c', 'd', 'e', 'f']);
    }
    digits[d as usize]
}

/// Appends `s` as a JSON string.
fn render_quoted(s: &str, out: &mut Vec<char>)
    ensures
        final(out)@ == old(out)@ + quoted(s@),
{
    let cs = chars_of(s);
    out.push('"');
    let ghost start = out@;
    let mut i: usize = 0;
    while i < cs.len()
        invariant
            i <= cs@.len(),
            cs@ == s@,
            out@ == start + escaped_text(cs@.take(i as int)),
        decreases cs@.len() - i,
    {
        let c = cs[i];
        let code = c as u32;
        assert(cs@.take(i + 1).drop_last() =~= cs@.take(i as int));
        let ghost before = out@;
        if c == '"' {
            out.push('\\');
            out.push('"');
        } else if c == '\\' {
            out.push('\\');
            out.push('\\');
        } else if c == '\n' {
            out.push('\\');
            out.push('n');
        } else if c == '\r' {
            out.push('\\');
            out.push('r');
        } else if c == '\t' {
            out.push('\\');
            out.push('t');
        } else if c == '\x08' {
            out.push('\\');
            out.push('b');
        } else if c == '\x0c' {
            out.push('\\');
            out.push('f');
        } else if code < 0x20 {
            out.push('\\');
            out.push('u');
            out.push('0');
            out.push('0');
            out.push(hex_char(code / 16));
            out.push(hex_char(code % 16));
        } else {
            out.push(c);
        }
        assert(out@ =~= before + escaped(c));
        assert(out@ =~= start + escaped_text(cs@.take(i + 1)));
        i = i + 1;
    }
    assert(cs@.take(cs@.len() as int) =~= s@);
    out.push('"');
    assert(final(out)@ =~= old(out)@ + quoted(s@));
}

/// What a schema found wrong with one field.
pub enum Problem {
    /// A required field is absent; `section` is the first part of its path.
    Missing { section: Seq<char>, field: Seq<char> },
    /// A check refused the field's value (given by its JSON text) for `reason`.
    Invalid { field: Seq<char>, value: Seq<char>, reason: Seq<char> },
}

/// The problem that a reported error stands for.
pub open spec fn problem_of(e: ConfigError) -> Option<Problem> {
    match e {
        ConfigError::MissingField { section, field, suggestion } => if suggestion is None {
            Some(Problem::Missing { section: section@, field: field@ })
        } else {
            None
        },
        ConfigError::InvalidValue { field, value, reason, location } => if location.line == 0 && location.column == 0 {
            Some(Problem::Invalid { field: field@, value: value@, reason: reason@ })
        } else {
            None
        },
        _ => None,
    }
}

/// The refusals among the outcomes of a field's checks, in order.
pub open spec fn refusals(field: Seq<char>, value: Seq<char>, outs: Seq<Result<(), String>>) -> Seq<Problem>
    decreases outs.len(),
{
    if outs.len() == 0 {
        Seq::empty()
    } else {
        refusals(field, value, outs.drop_last()) + match outs.last() {
            Ok(_) => Seq::<Problem>::empty(),
            Err(reason) => seq![Problem::Invalid { field, value, reason: reason@ }],
        }
    }
}

/// What is wrong with one field whose lookup gave `found` and whose checks gave
/// `outs`: a missing required field, or the refusals of its checks.
pub open spec fn field_problems(path: Seq<char>, required: bool, found: Option<JsonValue>, outs: Seq<Result<(), String>>) -> Seq<Problem> {
    match found {
        None => if required {
            seq![Problem::Missing { section: pieces(path, '.')[0], field: path }]
        } else {
            Seq::empty()
        },
        Some(v) => refusals(path, json_text(v), outs),
    }
}

/// The pieces of `path` between dots.
pub open spec fn path_keys(path: Seq<char>) -> Seq<Seq<char>> {
    pieces(path, '.')
}

/// The pieces of `s` between dots (`str::split('.')`).
fn split_dots(s: &[char]) -> (r: Vec<Vec<char>>)
    ensures
        r@.len() == path_keys(s@).len(),
        forall|k: int| 0 <= k < r@.len() ==> (#[trigger] r@[k])@ == path_keys(s@)[k],
{
    let n = s.len();
    let mut r: Vec<Vec<char>> = Vec::new();
    let mut cur: Vec<char> = Vec::new();
    let mut i: usize = 0;
    assert(s@.subrange(0, 0) =~= Seq::<char>::empty());
    proof {
        lemma_pieces_nonempty(s@.subrange(0, 0), '.');
    }
    while i < n
        invariant
            n == s@.len(),
            i <= n,
            pieces(s@.subrange(0, i as int), '.').len() == r@.len() + 1,
            forall|k: int| 0 <= k < r@.len() ==> (#[trigger] r@[k])@ == pieces(s@.subrange(0, i as int), '.')[k],
            pieces(s@.subrange(0, i as int), '.').last() == cur@,
        decreases n - i,
    {
        assert(s@.subrange(0, i + 1).drop_last() =~= s@.subrange(0, i as int));
        assert(s@.subrange(0, i + 1).last() == s@[i as int]);
        if s[i] == '.' {
            let done = cur;
            r.push(done);
            cur = Vec::new();
            assert(cur@ =~= Seq::<char>::empty());
        } else {
            cur.push(s[i]);
        }
        i = i + 1;
    }
    assert(s@.subrange(0, n as int) =~= s@);
    r.push(cur);
    r
}

/// A field of a schema: its dotted path, whether it must be present, and its checks;
/// a check answers `Err` with the reason when the value is not acceptable.
pub struct FieldSchema<F: Fn(&JsonValue) -> Result<(), String>> {
    pub path: String,
    pub required: bool,
    pub validators: Vec<F>,
}

/// The outcomes `outs` are ones the checks of `fields` can give on the values found at
/// their paths in `config`: none for an absent field.
pub open spec fn outcomes_fit<F: Fn(&JsonValue) -> Result<(), String>>(fields: Seq<FieldSchema<F>>, config: JsonValue, outs: Seq<Seq<Result<(), String>>>) -> bool {
    &&& outs.len() == fields.len()
    &&& forall|i: int| 0 <= i < fields.len() ==> match #[trigger] nested_get(config, path_keys(fields[i].path@)) {
        Some(v) => outs[i].len() == fields[i].validators@.len() && forall|k: int| 0 <= k < outs[i].len()
            ==> fields[i].validators@[k].ensures((&v,), #[trigger] outs[i][k]),
        None => outs[i].len() == 0,
    }
}

/// What a schema finds wrong with `config`, field after field, given the outcomes of
/// the checks.
pub open spec fn schema_problems<F: Fn(&JsonValue) -> Result<(), String>>(fields: Seq<FieldSchema<F>>, config: JsonValue, outs: Seq<Seq<Result<(), String>>>) -> Seq<Problem>
    decreases fields.len(),
{
    if fields.len() == 0 {
        Seq::empty()
    } else {
        let n = fields.len() - 1;
        schema_problems(fields.drop_last(), config, outs.take(n))
            + field_problems(fields[n].path@, fields[n].required, nested_get(config, path_keys(fields[n].path@)), outs[n])
    }
}

/// The checks may be run on any value.
pub open spec fn checks_callable<F: Fn(&JsonValue) -> Result<(), String>>(fields: Seq<FieldSchema<F>>) -> bool {
    forall|i: int, k: int, v: JsonValue| 0 <= i < fields.len() && 0 <= k < fields[i].validators@.len()
        ==> #[trigger] fields[i].validators@[k].requires((&v,))
}

/// A set of fields to check, each path once.
pub struct Schema<F: Fn(&JsonValue) -> Result<(), String>> {
    fields: Vec<FieldSchema<F>>,
}

impl<F: Fn(&JsonValue) -> Result<(), String>> Schema<F> {
    /// The fields, in the order they are checked.
    pub closed spec fn fields(&self) -> Seq<FieldSchema<F>> {
        self.fields@
    }

    /// The value at a dotted path: each part of the path looked up in turn.
    pub fn get_nested_value<'a>(config: &'a JsonValue, path: &str) -> (r: Option<&'a JsonValue>)
        ensures
            holds(r, nested_get(*config, path_keys(path@))),
    {
        let cs = chars_of(path);
        let parts = split_dots(cs.as_slice());
        let ghost keys = path_keys(path@);
        let mut current = config;
        let mut i: usize = 0;
        assert(keys.subrange(0, keys.len() as int) =~= keys);
        while i < parts.len()
            invariant
                i <= parts@.len(),
                parts@.len() == keys.len(),
                keys == path_keys(path@),
                forall|k: int| 0 <= k < parts@.len() ==> (#[trigger] parts@[k])@ == keys[k],
                nested_get(*config, keys) == nested_get(*current, keys.subrange(i as int, keys.len() as int)),
            decreases parts@.len() - i,
        {
            let key = string_from_chars(parts[i].as_slice());
            let ghost rest = keys.subrange(i as int, keys.len() as int);
            assert(rest[0] == keys[i as int]);
            assert(rest.drop_first() =~= keys.subrange(i + 1, keys.len() as int));
            assert(key@ == rest[0]);
            assert(rest.len() > 0);
            match current.get_key(&key) {
                Some(next) => {
                    current = next;
                },
                None => {
                    assert(nested_get(*current, rest) is None);
                    assert(nested_get(*config, keys) is None);
                    return None;
                },
            }
            i = i + 1;
        }
        assert(keys.subrange(i as int, keys.len() as int) =~= Seq::<Seq<char>>::empty());
        Some(current)
    }

    /// Checks `config`: each field in turn, a missing required field reported once and
    /// each check that refuses a present value reported with its reason; `Ok` when
    /// nothing is wrong.
    pub fn validate(&self, config: &JsonValue) -> (r: Result<(), Vec<ConfigError>>)
        requires
            checks_callable(self.fields()),
        ensures
            exists|outs: Seq<Seq<Result<(), String>>>| #[trigger] outcomes_fit(self.fields(), *config, outs) && {
                let ps = schema_problems(self.fields(), *config, outs);
                &&& r is Ok <==> ps.len() == 0
                &&& r matches Err(es) ==> es@.len() == ps.len() && forall|k: int| 0 <= k < ps.len() ==> problem_of(#[trigger] es@[k]) == Some(ps[k])
            },
    {
        let mut errors = ValidationErrors::new();
        let ghost mut outs: Seq<Seq<Result<(), String>>> = Seq::empty();
        let mut i: usize = 0;
        while i < self.fields.len()
            invariant
                i <= self.fields@.len(),
                checks_callable(self.fields()),
                outs.len() == i,
                outcomes_fit(self.fields@.take(i as int), *config, outs),
                errors.found().len() == schema_problems(self.fields@.take(i as int), *config, outs).len(),
                forall|k: int| 0 <= k < errors.found().len() ==> problem_of(#[trigger] errors.found()[k])
                    == Some(schema_problems(self.fields@.take(i as int), *config, outs)[k]),
            decreases self.fields@.len() - i,
        {
            let field = &self.fields[i];
            let ghost before = errors.found();
            let ghost found = nested_get(*config, path_keys(field.path@));
            let ghost mut row: Seq<Result<(), String>> = Seq::empty();
            match Self::get_nested_value(config, field.path.as_str()) {
                None => {
                    if field.required {
                        let cs = chars_of(field.path.as_str());
                        let parts = split_dots(cs.as_slice());
                        proof {
                            lemma_pieces_nonempty(field.path@, '.');
                        }
                        let section = string_from_chars(parts[0].as_slice());
                        let e = ConfigError::MissingField { section, field: owned(field.path.as_str()), suggestion: None };
                        errors.add(e);
                        assert(problem_of(e) == Some(field_problems(field.path@, field.required, found, row)[0]));
                    }
                    assert(errors.found().len() == before.len() + field_problems(field.path@, field.required, found, row).len());
                    assert(forall|a: int| 0 <= a < before.len() ==> errors.found()[a] == before[a]);
                    assert(forall|a: int| 0 <= a < field_problems(field.path@, field.required, found, row).len()
                        ==> problem_of(#[trigger] errors.found()[before.len() + a]) == Some(field_problems(field.path@, field.required, found, row)[a]));
                },
                Some(value) => {
                    let text = value.to_text();
                    let mut k: usize = 0;
                    while k < field.validators.len()
                        invariant
                            k <= field.validators@.len(),
                            checks_callable(self.fields()),
                            field == self.fields@[i as int],
                            i < self.fields@.len(),
                            *value == found->0,
                            found is Some,
                            text@ == json_text(*value),
                            row.len() == k,
                            forall|a: int| 0 <= a < k ==> field.validators@[a].ensures((value,), #[trigger] row[a]),
                            errors.found().len() == before.len() + refusals(field.path@, text@, row).len(),
                            forall|a: int| 0 <= a < before.len() ==> errors.found()[a] == before[a],
                            forall|a: int| 0 <= a < refusals(field.path@, text@, row).len() ==> problem_of(#[trigger] errors.found()[before.len() + a])
                                == Some(refusals(field.path@, text@, row)[a]),
                        decreases field.validators@.len() - k,
                    {
                        assert(field.validators@[k as int].requires((value,)));
                        let outcome = (field.validators[k])(value);
                        let ghost prev = errors.found();
                        let ghost oldrow = row;
                        match &outcome {
                            Ok(()) => {},
                            Err(reason) => {
                                errors.add(ConfigError::InvalidValue {
                                    field: owned(field.path.as_str()),
                                    value: string_from_chars(chars_of(text.as_str()).as_slice()),
                                    reason: owned(reason.as_str()),
                                    location: Location { line: 0, column: 0 },
                                });
                            },
                        }
                        proof {
                            row = row.push(outcome);
                            assert(row.drop_last() =~= oldrow);
                        }
                        k = k + 1;
                    }
                    assert(field_problems(field.path@, field.required, found, row) == refusals(field.path@, text@, row));
                },
            }
            proof {
                let nf = self.fields@.take(i + 1);
                let old_outs = outs;
                let fp = field_problems(field.path@, field.required, found, row);
                assert(nf.drop_last() =~= self.fields@.take(i as int));
                outs = outs.push(row);
                assert(outs.take(i as int) =~= old_outs);
                assert(nf[i as int] == self.fields@[i as int]);
                assert(schema_problems(nf, *config, outs) == schema_problems(self.fields@.take(i as int), *config, old_outs) + fp);
                assert forall|k: int| 0 <= k < errors.found().len() implies problem_of(#[trigger] errors.found()[k])
                    == Some(schema_problems(nf, *config, outs)[k]) by {
                    let sp = schema_problems(nf, *config, outs);
                    let sp0 = schema_problems(self.fields@.take(i as int), *config, old_outs);
                    assert(before.len() == sp0.len());
                    if k >= before.len() {
                        assert(problem_of(errors.found()[before.len() + (k - before.len())]) == Some(fp[k - before.len()]));
                        assert(sp[k] == fp[k - before.len()]);
                    } else {
                        assert(errors.found()[k] == before[k]);
                        assert(sp[k] == sp0[k]);
                    }
                }
                assert forall|j: int| 0 <= j < nf.len() implies match #[trigger] nested_get(*config, path_keys(nf[j].path@)) {
                    Some(v) => outs[j].len() == nf[j].validators@.len() && forall|k: int| 0 <= k < outs[j].len()
                        ==> nf[j].validators@[k].ensures((&v,), #[trigger] outs[j][k]),
                    None => outs[j].len() == 0,
                } by {
                    if j < i {
                        assert(nf[j] == self.fields@.take(i as int)[j]);
                        assert(outs[j] == old_outs[j]);
                    }
                }
            }
            i = i + 1;
        }
        assert(self.fields@.take(self.fields@.len() as int) =~= self.fields@);
        errors.into_result(())
    }
}

/// Collects the fields of a schema.
pub struct SchemaBuilder<F: Fn(&JsonValue) -> Result<(), String>> {
    fields: Vec<FieldSchema<F>>,
}

impl<F: Fn(&JsonValue) -> Result<(), String>> SchemaBuilder<F> {
    /// The fields collected so far, in order.
    pub closed spec fn pending(&self) -> Seq<FieldSchema<F>> {
        self.fields@
    }

    /// No field yet.
    pub fn new() -> (r: Self)
        ensures
            r.pending().len() == 0,
    {
        SchemaBuilder { fields: Vec::new() }
    }

    /// Adds a required field at `path` with one check.
    pub fn required_field(self, path: &str, validator: F) -> (r: Self)
        ensures
            r.pending().len() == self.pending().len() + 1,
            forall|k: int| 0 <= k < self.pending().len() ==> r.pending()[k] == self.pending()[k],
            r.pending().last().path@ == path@,
            r.pending().last().required,
            r.pending().last().validators@ == seq![validator],
    {
        let mut fields = self.fields;
        let mut validators: Vec<F> = Vec::new();
        validators.push(validator);
        fields.push(FieldSchema { path: owned(path), required: true, validators });
        SchemaBuilder { fields }
    }

    /// The schema: for each path the last field added with it (a later field replaces
    /// an earlier one with the same path), each path once, the latest first.
    pub fn build(self) -> (r: Schema<F>)
        ensures
            r.fields() == kept(self.pending(), 0),
    {
        let ghost all = self.fields@;
        let mut rest = self.fields;
        let mut out: Vec<FieldSchema<F>> = Vec::new();
        while rest.len() > 0
            invariant
                rest@.len() <= all.len(),
                rest@ == all.take(rest@.len() as int),
                out@ == kept(all, rest@.len() as int),
            decreases rest@.len(),
        {
            let ghost n = rest@.len() - 1;
            let f = rest.pop().unwrap();
            assert(f == all[n]);
            assert(rest@ =~= all.take(n));
            let mut seen = false;
            let mut j: usize = 0;
            while j < out.len()
                invariant
                    j <= out@.len(),
                    seen <==> exists|a: int| 0 <= a < j && (#[trigger] out@[a]).path@ == f.path@,
                decreases out@.len() - j,
            {
                if out[j].path == f.path {
                    seen = true;
                }
                j = j + 1;
            }
            if !seen {
                out.push(f);
            }
        }
        Schema { fields: out }
    }
}

/// Some field of `fs` has path `p`.
pub open spec fn has_path<F: Fn(&JsonValue) -> Result<(), String>>(fs: Seq<FieldSchema<F>>, p: Seq<char>) -> bool {
    exists|a: int| 0 <= a < fs.len() && (#[trigger] fs[a]).path@ == p
}

/// The fields from index `n` on that no later field replaces, taken from the last back:
/// a field is kept unless a field kept after it has its path.
pub open spec fn kept<F: Fn(&JsonValue) -> Result<(), String>>(fs: Seq<FieldSchema<F>>, n: int) -> Seq<FieldSchema<F>>
    decreases fs.len() - n,
{
    if n < 0 || n >= fs.len() {
        Seq::empty()
    } else {
        let r = kept(fs, n + 1);
        if has_path(r, fs[n].path@) {
            r
        } else {
            r.push(fs[n])
        }
    }
}

/// `s` wrapped in the terminal escape sequences that switch on the styles `codes` and
/// reset them after it.
pub open spec fn styled(s: Seq<char>, codes: Seq<char>) -> Seq<char> {
    "\x1B["@ + codes + "m"@ + s + "\x1B[0m"@
}

/// No escape character in `s`.
pub open spec fn plain_text(s: Seq<char>) -> bool {
    forall|k: int| 0 <= k < s.len() ==> s[k] != '\x1B'
}

/// `colored`'s `s.red().bold()` as displayed: the text as it is when colouring is
/// switched off (by the environment or because the output is no terminal), else wrapped
/// in the sequences for bold (`1`) and red (`31`). Which of the two comes back depends on
/// the environment and is not stated.
#[verifier::external_body]
fn red_bold(s: &str) -> (r: String)
    requires
        plain_text(s@),
    ensures
        r@ == s@ || r@ == styled(s@, "1;31"@),
{
    format!("{}", colored::Colorize::bold(colored::Colorize::red(s)))
}

/// `colored`'s `s.bold()` as displayed: the text as it is when colouring is switched
/// off, else wrapped in the sequences for bold (`1`).
#[verifier::external_body]
fn bold(s: &str) -> (r: String)
    requires
        plain_text(s@),
    ensures
        r@ == s@ || r@ == styled(s@, "1"@),
{
    format!("{}", colored::Colorize::bold(s))
}

/// `n` equals signs.
pub open spec fn rule_line(n: nat) -> Seq<char> {
    Seq::new(n, |k: int| '=')
}

/// The first `n` errors, each numbered from one and followed by a blank line.
pub open spec fn numbered(errors: Seq<ConfigError>, n: int) -> Seq<char>
    decreases n,
{
    if n <= 0 {
        Seq::empty()
    } else {
        numbered(errors, n - 1) + decimal(n as nat) + ". "@ + error_text(errors[n - 1]) + seq!['\n', '\n']
    }
}

/// The report on `errors` under the heading `heading`, with the summary line introduced
/// by `label`.
pub open spec fn report_text(errors: Seq<ConfigError>, heading: Seq<char>, label: Seq<char>) -> Seq<char> {
    seq!['\n'] + heading + seq!['\n'] + rule_line(60) + seq!['\n', '\n'] + numbered(errors, errors.len() as int) + label
        + seq![' '] + decimal(errors.len()) + " error"@ + (if errors.len() == 1 { Seq::<char>::empty() } else { seq!['s'] })
        + seq!['\n']
}

/// Formats validation errors.
pub struct ErrorFormatter;

impl ErrorFormatter {
    /// The report on `errors` with the given heading and summary label, as they stand.
    pub fn render_report(errors: &[ConfigError], heading: &str, label: &str) -> (r: String)
        ensures
            r@ == report_text(errors@, heading@, label@),
    {
        let mut out: Vec<char> = Vec::new();
        out.push('\n');
        append_str(&mut out, heading);
        out.push('\n');
        let mut k: usize = 0;
        let ghost start = out@;
        while k < 60
            invariant
                k <= 60,
                out@ == start + rule_line(k as nat),
            decreases 60 - k,
        {
            out.push('=');
            assert(rule_line((k + 1) as nat) =~= rule_line(k as nat).push('='));
            k = k + 1;
        }
        out.push('\n');
        out.push('\n');
        let ghost mid = out@;
        let mut i: usize = 0;
        while i < errors.len()
            invariant
                i <= errors@.len(),
                out@ == mid + numbered(errors@, i as int),
            decreases errors@.len() - i,
        {
            append_chars(&mut out, decimal_chars((i + 1) as u64).as_slice());
            append_str(&mut out, ". ");
            let text = errors[i].to_text();
            append_str(&mut out, text.as_str());
            out.push('\n');
            out.push('\n');
            assert(out@ =~= mid + numbered(errors@, i + 1));
            i = i + 1;
        }
        append_str(&mut out, label);
        out.push(' ');
        append_chars(&mut out, decimal_chars(errors.len() as u64).as_slice());
        append_str(&mut out, " error");
        if errors.len() != 1 {
            out.push('s');
        }
        out.push('\n');
        assert(out@ =~= report_text(errors@, heading@, label@));
        string_from_chars(out.as_slice())
    }

    /// The report on `errors`: a heading in bold red where the terminal shows colours, a
    /// rule, each error numbered with its message, and a summary line with the count.
    /// The configuration text is not quoted in the report.
    pub fn format_errors(errors: &[ConfigError], source: &str) -> (r: String)
        ensures
            exists|h: Seq<char>, b: Seq<char>| #![trigger report_text(errors@, h, b)] {
                &&& h == "Configuration Validation Errors:"@ || h == styled("Configuration Validation Errors:"@, "1;31"@)
                &&& b == "Summary:"@ || b == styled("Summary:"@, "1"@)
                &&& r@ == report_text(errors@, h, b)
            },
    {
        proof {
            reveal_strlit("Configuration Validation Errors:");
            reveal_strlit("Summary:");
        }
        let heading = red_bold("Configuration Validation Errors:");
        let label = bold("Summary:");
        let r = Self::render_report(errors, heading.as_str(), label.as_str());
        assert(r@ == report_text(errors@, heading@, label@));
        r
    }
}

} // verus!
