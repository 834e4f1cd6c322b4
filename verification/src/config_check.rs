//! Configuration checking: error values with their locations, a collector of
//! validation errors, the edit distance between two names and the suggestion of the
//! closest valid field name for a misspelt one.
use vstd::prelude::*;
use crate::text::{chars_of, owned, decimal, decimal_chars, append_chars, append_str, string_from_chars};

verus! {

/// A position in the configuration text.
#[derive(Debug, Clone, PartialEq, Eq, Structural)]
pub struct Location {
    pub line: usize,
    pub column: usize,
}

/// What is wrong with a configuration.
#[derive(Debug, Clone)]
pub enum ConfigError {
    ParseError { line: usize, col: usize, message: String },
    MissingField { section: String, field: String, suggestion: Option<String> },
    InvalidType { field: String, expected: String, actual: String, location: Location },
    InvalidValue { field: String, value: String, reason: String, location: Location },
    OutOfRange { field: String, value: i64, min: i64, max: i64 },
}

/// An integer in decimal, with a minus sign when negative.
pub open spec fn signed_text(v: int) -> Seq<char> {
    if v < 0 {
        seq!['-'] + decimal((-v) as nat)
    } else {
        decimal(v as nat)
    }
}

/// The message that describes an error.
pub open spec fn error_text(e: ConfigError) -> Seq<char> {
    match e {
        ConfigError::ParseError { line, col, message } => "Parse error at line "@ + decimal(line as nat) + ", column "@
            + decimal(col as nat) + ": "@ + message@,
        ConfigError::MissingField { section, field, .. } => "Missing required field '"@ + field@ + "' in section ["@
            + section@ + "]"@,
        ConfigError::InvalidType { field, expected, actual, .. } => "Invalid type for '"@ + field@ + "': expected "@
            + expected@ + ", got "@ + actual@,
        ConfigError::InvalidValue { field, reason, .. } => "Invalid value for '"@ + field@ + "': "@ + reason@,
        ConfigError::OutOfRange { field, value, min, max } => "Value "@ + signed_text(value as int) + " for '"@ + field@
            + "' out of range ("@ + signed_text(min as int) + ".."@ + signed_text(max as int) + ")"@,
    }
}

/// Appends `v` in decimal, with a minus sign when negative.
fn append_signed(out: &mut Vec<char>, v: i64)
    ensures
        final(out)@ == old(out)@ + signed_text(v as int),
{
    if v < 0 {
        out.push('-');
        let magnitude = (0i128 - v as i128) as u64;
        let ds = decimal_chars(magnitude);
        append_chars(out, ds.as_slice());
        assert(final(out)@ =~= old(out)@ + signed_text(v as int));
    } else {
        let ds = decimal_chars(v as u64);
        append_chars(out, ds.as_slice());
    }
}

impl ConfigError {
    /// The message that describes the error.
    pub fn to_text(&self) -> (r: String)
        ensures
            r@ == error_text(*self),
    {
        let mut out: Vec<char> = Vec::new();
        match self {
            ConfigError::ParseError { line, col, message } => {
                append_str(&mut out, "Parse error at line ");
                append_chars(&mut out, decimal_chars(*line as u64).as_slice());
                append_str(&mut out, ", column ");
                append_chars(&mut out, decimal_chars(*col as u64).as_slice());
                append_str(&mut out, ": ");
                append_str(&mut out, message.as_str());
            },
            ConfigError::MissingField { section, field, .. } => {
                append_str(&mut out, "Missing required field '");
                append_str(&mut out, field.as_str());
                append_str(&mut out, "' in section [");
                append_str(&mut out, section.as_str());
                append_str(&mut out, "]");
            },
            ConfigError::InvalidType { field, expected, actual, .. } => {
                append_str(&mut out, "Invalid type for '");
                append_str(&mut out, field.as_str());
                append_str(&mut out, "': expected ");
                append_str(&mut out, expected.as_str());
                append_str(&mut out, ", got ");
                append_str(&mut out, actual.as_str());
            },
            ConfigError::InvalidValue { field, reason, .. } => {
                append_str(&mut out, "Invalid value for '");
                append_str(&mut out, field.as_str());
                append_str(&mut out, "': ");
                append_str(&mut out, reason.as_str());
            },
            ConfigError::OutOfRange { field, value, min, max } => {
                append_str(&mut out, "Value ");
                append_signed(&mut out, *value);
                append_str(&mut out, " for '");
                append_str(&mut out, field.as_str());
                append_str(&mut out, "' out of range (");
                append_signed(&mut out, *min);
                append_str(&mut out, "..");
                append_signed(&mut out, *max);
                append_str(&mut out, ")");
            },
        }
        assert(out@ =~= error_text(*self));
        string_from_chars(out.as_slice())
    }
}

/// The errors found while validating, in the order found.
pub struct ValidationErrors {
    errors: Vec<ConfigError>,
}

impl ValidationErrors {
    /// The errors found so far.
    pub closed spec fn found(&self) -> Seq<ConfigError> {
        self.errors@
    }

    /// No error found yet.
    pub fn new() -> (r: Self)
        ensures
            r.found() == Seq::<ConfigError>::empty(),
    {
        ValidationErrors { errors: Vec::new() }
    }

    /// Records one more error.
    pub fn add(&mut self, error: ConfigError)
        ensures
            final(self).found() == old(self).found().push(error),
    {
        self.errors.push(error);
    }

    /// Whether any error was found.
    pub fn has_errors(&self) -> (r: bool)
        ensures
            r == (self.found().len() > 0),
    {
        self.errors.len() > 0
    }

    /// `value` when no error was found, else all the errors.
    pub fn into_result<T>(self, value: T) -> (r: Result<T, Vec<ConfigError>>)
        ensures
            self.found().len() == 0 ==> r == Ok::<T, Vec<ConfigError>>(value),
            self.found().len() > 0 ==> (r matches Err(es) && es@ == self.found()),
    {
        if self.has_errors() {
            Err(self.errors)
        } else {
            Ok(value)
        }
    }
}

impl Default for ValidationErrors {
    fn default() -> (r: Self)
        ensures
            r.found() == Seq::<ConfigError>::empty(),
    {
        ValidationErrors::new()
    }
}

/// The smaller of two numbers.
pub open spec fn min_nat(x: nat, y: nat) -> nat {
    if x <= y {
        x
    } else {
        y
    }
}

/// The edit distance (insertions, deletions and substitutions of one character)
/// between the first `i` characters of `a` and the first `j` characters of `b`.
pub open spec fn lev(a: Seq<char>, b: Seq<char>, i: nat, j: nat) -> nat
    decreases i + j,
{
    if i == 0 {
        j
    } else if j == 0 {
        i
    } else {
        let cost: nat = if a[i - 1] == b[j - 1] { 0 } else { 1 };
        min_nat(
            min_nat(lev(a, b, (i - 1) as nat, j) + 1, lev(a, b, i, (j - 1) as nat) + 1),
            lev(a, b, (i - 1) as nat, (j - 1) as nat) + cost,
        )
    }
}

/// The edit distance between `a` and `b`.
pub open spec fn edit_distance(a: Seq<char>, b: Seq<char>) -> nat {
    lev(a, b, a.len(), b.len())
}

/// An edit distance is at most the larger of the two lengths.
proof fn lemma_lev_bound(a: Seq<char>, b: Seq<char>, i: nat, j: nat)
    ensures
        lev(a, b, i, j) <= if i >= j { i } else { j },
    decreases i + j,
{
    if i > 0 && j > 0 {
        lemma_lev_bound(a, b, (i - 1) as nat, (j - 1) as nat);
    }
}

/// The number of single-character edits that turn `a` into `b`.
pub fn levenshtein_distance(a: &str, b: &str) -> (r: usize)
    requires
        a@.len() < usize::MAX,
        b@.len() < usize::MAX,
    ensures
        r == edit_distance(a@, b@),
{
    let a_chars = chars_of(a);
    let b_chars = chars_of(b);
    let a_len = a_chars.len();
    let b_len = b_chars.len();
    if a_len == 0 {
        return b_len;
    }
    if b_len == 0 {
        return a_len;
    }
    let ghost sa = a@;
    let ghost sb = b@;
    // `prev[j]` is the distance between the first `i - 1` characters of `a` and the
    // first `j` of `b`; `cur` fills the row for `i`.
    let mut prev: Vec<usize> = Vec::new();
    let mut j: usize = 0;
    while j <= b_len
        invariant
            j <= b_len + 1,
            b_len == sb.len(),
            b_len < usize::MAX,
            prev@.len() == j,
            forall|k: int| 0 <= k < j ==> prev@[k] == lev(sa, sb, 0, k as nat),
        decreases b_len + 1 - j,
    {
        prev.push(j);
        j = j + 1;
    }
    let mut i: usize = 1;
    while i <= a_len
        invariant
            1 <= i <= a_len + 1,
            a_len == sa.len(),
            b_len == sb.len(),
            a_len < usize::MAX,
            b_len < usize::MAX,
            a_chars@ == sa,
            b_chars@ == sb,
            prev@.len() == b_len + 1,
            forall|k: int| 0 <= k <= b_len ==> prev@[k] == lev(sa, sb, (i - 1) as nat, k as nat),
        decreases a_len + 1 - i,
    {
        let mut cur: Vec<usize> = Vec::new();
        cur.push(i);
        let mut j: usize = 1;
        while j <= b_len
            invariant
                1 <= i <= a_len,
                1 <= j <= b_len + 1,
                a_len == sa.len(),
                b_len == sb.len(),
                a_len < usize::MAX,
                b_len < usize::MAX,
                a_chars@ == sa,
                b_chars@ == sb,
                prev@.len() == b_len + 1,
                forall|k: int| 0 <= k <= b_len ==> prev@[k] == lev(sa, sb, (i - 1) as nat, k as nat),
                cur@.len() == j,
                forall|k: int| 0 <= k < j ==> cur@[k] == lev(sa, sb, i as nat, k as nat),
            decreases b_len + 1 - j,
        {
            proof {
                lemma_lev_bound(sa, sb, (i - 1) as nat, j as nat);
                lemma_lev_bound(sa, sb, i as nat, (j - 1) as nat);
                lemma_lev_bound(sa, sb, (i - 1) as nat, (j - 1) as nat);
            }
            let cost: usize = if a_chars[i - 1] == b_chars[j - 1] {
                0
            } else {
                1
            };
            let deletion = prev[j] + 1;
            let insertion = cur[j - 1] + 1;
            let substitution = prev[j - 1] + cost;
            let best0 = if deletion <= insertion {
                deletion
            } else {
                insertion
            };
            let best = if best0 <= substitution {
                best0
            } else {
                substitution
            };
            cur.push(best);
            j = j + 1;
        }
        prev = cur;
        i = i + 1;
    }
    prev[b_len]
}

/// The first of `fields` whose edit distance to `typo` is smallest, if that distance is
/// at most two.
pub open spec fn closest_within(typo: Seq<char>, fields: Seq<Seq<char>>, n: int) -> Option<(Seq<char>, nat)>
    decreases n,
{
    if n <= 0 {
        None
    } else {
        let prev = closest_within(typo, fields, n - 1);
        let d = edit_distance(typo, fields[n - 1]);
        match prev {
            Some((f, best)) => if d < best {
                Some((fields[n - 1], d))
            } else {
                prev
            },
            None => if d <= 2 {
                Some((fields[n - 1], d))
            } else {
                None
            },
        }
    }
}

/// The suggestion among the first `n` fields is a field at the smallest edit distance
/// from the typo, the first such, and at most two edits away; there is none only when
/// every one of them is more than two edits away.
pub proof fn lemma_closest_is_nearest(typo: Seq<char>, fields: Seq<Seq<char>>, n: int)
    requires
        0 <= n <= fields.len(),
    ensures
        match closest_within(typo, fields, n) {
            Some((f, d)) => exists|i: int| #![trigger fields[i]] 0 <= i < n && fields[i] == f && d == edit_distance(typo, f) && d <= 2
                && (forall|j: int| 0 <= j < n ==> edit_distance(typo, #[trigger] fields[j]) >= d)
                && (forall|j: int| 0 <= j < i ==> edit_distance(typo, #[trigger] fields[j]) > d),
            None => forall|j: int| 0 <= j < n ==> edit_distance(typo, #[trigger] fields[j]) > 2,
        },
    decreases n,
{
    if n > 0 {
        lemma_closest_is_nearest(typo, fields, n - 1);
        let d = edit_distance(typo, fields[n - 1]);
        match closest_within(typo, fields, n - 1) {
            Some((f, best)) => {
                let i = choose|i: int| #![trigger fields[i]] 0 <= i < n - 1 && fields[i] == f && best == edit_distance(typo, f) && best <= 2
                    && (forall|j: int| 0 <= j < n - 1 ==> edit_distance(typo, #[trigger] fields[j]) >= best)
                    && (forall|j: int| 0 <= j < i ==> edit_distance(typo, #[trigger] fields[j]) > best);
                if d < best {
                    assert(fields[n - 1] == fields[n - 1]);
                } else {
                    assert(fields[i] == f);
                }
            },
            None => {
                if d <= 2 {
                    assert(fields[n - 1] == fields[n - 1]);
                }
            },
        }
    }
}

/// Suggests the valid field closest to a misspelt one: the first with the smallest edit
/// distance, when that distance is at most two.
pub fn find_similar_field(typo: &str, valid_fields: &[&str]) -> (r: Option<String>)
    requires
        typo@.len() < usize::MAX,
        forall|i: int| 0 <= i < valid_fields@.len() ==> (#[trigger] valid_fields@[i])@.len() < usize::MAX,
    ensures
        match closest_within(typo@, valid_fields@.map_values(|f: &str| f@), valid_fields@.len() as int) {
            Some((f, _)) => r matches Some(s) && s@ == f,
            None => r is None,
        },
        r matches Some(s) ==> exists|i: int| #![trigger valid_fields@[i]] 0 <= i < valid_fields@.len() && s@ == valid_fields@[i]@
            && edit_distance(typo@, s@) <= 2
            && (forall|j: int| 0 <= j < valid_fields@.len() ==> edit_distance(typo@, s@) <= edit_distance(typo@, (#[trigger] valid_fields@[j])@))
            && (forall|j: int| 0 <= j < i ==> edit_distance(typo@, (#[trigger] valid_fields@[j])@) > edit_distance(typo@, s@)),
        r is None ==> forall|j: int| 0 <= j < valid_fields@.len() ==> edit_distance(typo@, (#[trigger] valid_fields@[j])@) > 2,
{
    let ghost fs = valid_fields@.map_values(|f: &str| f@);
    let mut best_match: Option<String> = None;
    let mut best_distance: usize = usize::MAX;
    let mut i: usize = 0;
    while i < valid_fields.len()
        invariant
            fs == valid_fields@.map_values(|f: &str| f@),
            i <= valid_fields@.len(),
            typo@.len() < usize::MAX,
            forall|i: int| 0 <= i < valid_fields@.len() ==> (#[trigger] valid_fields@[i])@.len() < usize::MAX,
            match closest_within(typo@, fs, i as int) {
                Some((f, d)) => best_match matches Some(s) && s@ == f && best_distance == d && d <= 2,
                None => best_match is None && best_distance == usize::MAX,
            },
        decreases valid_fields@.len() - i,
    {
        let field = valid_fields[i];
        let distance = levenshtein_distance(typo, field);
        if distance < best_distance && distance <= 2 {
            best_distance = distance;
            best_match = Some(owned(field));
        }
        i = i + 1;
    }
    proof {
        let n = valid_fields@.len() as int;
        lemma_closest_is_nearest(typo@, fs, n);
        assert forall|j: int| 0 <= j < n implies #[trigger] fs[j] == valid_fields@[j]@ by {}
        match closest_within(typo@, fs, n) {
            Some((f, d)) => {
                let k = choose|k: int| #![trigger fs[k]] 0 <= k < n && fs[k] == f && d == edit_distance(typo@, f) && d <= 2
                    && (forall|j: int| 0 <= j < n ==> edit_distance(typo@, #[trigger] fs[j]) >= d)
                    && (forall|j: int| 0 <= j < k ==> edit_distance(typo@, #[trigger] fs[j]) > d);
                assert(fs[k] == valid_fields@[k]@);
                assert forall|j: int| 0 <= j < n implies edit_distance(typo@, f) <= edit_distance(typo@, (#[trigger] valid_fields@[j])@) by {
                    assert(fs[j] == valid_fields@[j]@);
                }
                assert forall|j: int| 0 <= j < k implies edit_distance(typo@, (#[trigger] valid_fields@[j])@) > edit_distance(typo@, f) by {
                    assert(fs[j] == valid_fields@[j]@);
                }
            },
            None => {
                assert forall|j: int| 0 <= j < n implies edit_distance(typo@, (#[trigger] valid_fields@[j])@) > 2 by {
                    assert(fs[j] == valid_fields@[j]@);
                }
            },
        }
    }
    best_match
}

} // verus!
