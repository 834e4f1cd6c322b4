//! Importing user records from CSV rows: converting a row, keeping the rows that
//! convert, handing them out in chunks, counting allocations and batches, building the
//! batch insert statement, normalising and deduplicating records.
use vstd::prelude::*;
use vstd::std_specs::hash::group_hash_axioms;
use std::collections::HashSet;
use crate::text::{owned, lowercase, to_lower, push_char};
use crate::regex::digits_value;
use crate::csv_records::all_digits;
use crate::priority_queue::vec_capacity;

verus! {

broadcast use group_hash_axioms;

/// A user as one CSV row describes it.
#[derive(Debug, Clone)]
pub struct UserRecord {
    pub id: u64,
    pub name: String,
    pub email: String,
    pub age: u32,
    pub country: String,
}

/// What a user record holds: id, name, email, age and country.
pub type UserView = (u64, Seq<char>, Seq<char>, u32, Seq<char>);

impl View for UserRecord {
    type V = UserView;

    open spec fn view(&self) -> UserView {
        (self.id, self.name@, self.email@, self.age, self.country@)
    }
}

/// Records are equal when their ids are.
impl PartialEq for UserRecord {
    fn eq(&self, other: &Self) -> (r: bool) {
        self.id == other.id
    }
}

impl vstd::std_specs::cmp::PartialEqSpecImpl for UserRecord {
    open spec fn obeys_eq_spec() -> bool {
        true
    }

    open spec fn eq_spec(&self, other: &Self) -> bool {
        self.id == other.id
    }
}

impl Eq for UserRecord {}

impl UserRecord {
    /// A copy of the record.
    pub fn copy(&self) -> (r: UserRecord)
        ensures
            r@ == self@,
    {
        UserRecord {
            id: self.id,
            name: self.name.clone(),
            email: self.email.clone(),
            age: self.age,
            country: self.country.clone(),
        }
    }
}

/// Why a row is not a user record.
#[derive(Debug)]
pub enum ParseError {
    InvalidFormat(String),
    InvalidType { field: String, value: String },
    MissingField(String),
}

/// The number that `s` writes in decimal: an optional `+` followed by one or more ASCII
/// digits, and nothing else.
pub open spec fn decimal_nat(s: Seq<char>) -> Option<nat> {
    if s.len() > 0 && s[0] == '+' {
        let ds = s.drop_first();
        if ds.len() > 0 && all_digits(ds) {
            Some(digits_value(ds))
        } else {
            None
        }
    } else if s.len() > 0 && all_digits(s) {
        Some(digits_value(s))
    } else {
        None
    }
}

/// Whether `s` writes a number no greater than `max`.
pub open spec fn nat_text(s: Seq<char>, max: nat) -> bool {
    decimal_nat(s) matches Some(v) && v <= max
}

/// `str::parse::<u64>`: its documentation accepts exactly an optional `+` followed by
/// decimal digits, with no other characters, whose value fits in a `u64`.
#[verifier::external_body]
fn parse_u64(s: &str) -> (r: Result<u64, std::num::ParseIntError>)
    ensures
        r is Ok <==> nat_text(s@, u64::MAX as nat),
        r matches Ok(v) ==> decimal_nat(s@) == Some(v as nat),
{
    s.parse::<u64>()
}

/// `str::parse::<u32>`: its documentation accepts exactly an optional `+` followed by
/// decimal digits, with no other characters, whose value fits in a `u32`.
#[verifier::external_body]
fn parse_u32(s: &str) -> (r: Result<u32, std::num::ParseIntError>)
    ensures
        r is Ok <==> nat_text(s@, u32::MAX as nat),
        r matches Ok(v) ==> decimal_nat(s@) == Some(v as nat),
{
    s.parse::<u32>()
}

/// The message of an integer parse error (its `Display` text); the contract says nothing
/// of the text.
#[verifier::external_body]
fn int_error_text(e: &std::num::ParseIntError) -> String {
    e.to_string()
}

/// The `Debug` text of a list of fields.
pub uninterp spec fn debug_list(fields: Seq<Seq<char>>) -> Seq<char>;

/// `format!("{:?}", row)`: the fields written as a `Debug` list, which depends on the
/// fields alone; the contract names it.
#[verifier::external_body]
fn debug_fields(row: &[&str]) -> (r: String)
    ensures
        r@ == debug_list(row@.map_values(|f: &str| f@)),
{
    format!("{:?}", row)
}

/// The fields of a row as character sequences.
pub open spec fn row_view(row: Seq<&str>) -> Seq<Seq<char>> {
    row.map_values(|f: &str| f@)
}

/// The user that a row describes, if it converts: at least five fields, the first and
/// fourth decimal numbers that fit an id and an age.
pub open spec fn row_user(row: Seq<Seq<char>>) -> Option<UserView> {
    if row.len() >= 5 && nat_text(row[0], u64::MAX as nat) && nat_text(row[3], u32::MAX as nat) {
        Some(
            (
                decimal_nat(row[0]).unwrap() as u64,
                row[1],
                row[2],
                decimal_nat(row[3]).unwrap() as u32,
                row[4],
            ),
        )
    } else {
        None
    }
}

impl UserRecord {
    /// Converts a row: `InvalidFormat` (with the row's text) under five fields, then
    /// `InvalidType` naming `id` or `age` when that field is not a number that fits.
    pub fn from_csv_row(row: &[&str]) -> (r: Result<Self, ParseError>)
        ensures
            row_user(row_view(row@)) matches Some(u) ==> (r matches Ok(rec) && rec@ == u),
            row@.len() < 5 ==> (r matches Err(ParseError::InvalidFormat(t)) && t@ == debug_list(
                row_view(row@),
            )),
            row@.len() >= 5 && !nat_text(row@[0]@, u64::MAX as nat) ==> (r matches Err(
                ParseError::InvalidType { field, .. },
            ) && field@ == "id"@),
            row@.len() >= 5 && nat_text(row@[0]@, u64::MAX as nat) && !nat_text(
                row@[3]@,
                u32::MAX as nat,
            ) ==> (r matches Err(ParseError::InvalidType { field, .. }) && field@ == "age"@),
    {
        if row.len() < 5 {
            return Err(ParseError::InvalidFormat(debug_fields(row)));
        }
        let id = match parse_u64(row[0]) {
            Ok(v) => v,
            Err(e) => {
                return Err(ParseError::InvalidType { field: owned("id"), value: int_error_text(&e) });
            },
        };
        let age = match parse_u32(row[3]) {
            Ok(v) => v,
            Err(e) => {
                return Err(ParseError::InvalidType { field: owned("age"), value: int_error_text(&e) });
            },
        };
        Ok(UserRecord { id, name: owned(row[1]), email: owned(row[2]), age, country: owned(row[4]) })
    }
}

/// The users of the rows that convert, in order.
pub open spec fn kept_users(rows: Seq<Seq<Seq<char>>>) -> Seq<UserView>
    decreases rows.len(),
{
    if rows.len() == 0 {
        Seq::empty()
    } else {
        let p = kept_users(rows.drop_last());
        match row_user(rows.last()) {
            Some(u) => p.push(u),
            None => p,
        }
    }
}

/// The views of a list of records.
pub open spec fn views(v: Seq<UserRecord>) -> Seq<UserView> {
    v.map_values(|u: UserRecord| u@)
}

/// Converts each row and keeps the records of those that convert, in order.
pub fn records_from_rows(rows: &[Vec<&str>]) -> (r: Vec<UserRecord>)
    ensures
        views(r@) == kept_users(rows@.map_values(|row: Vec<&str>| row_view(row@))),
{
    let ghost all = rows@.map_values(|row: Vec<&str>| row_view(row@));
    let mut out: Vec<UserRecord> = Vec::new();
    let mut i: usize = 0;
    while i < rows.len()
        invariant
            i <= rows@.len(),
            all == rows@.map_values(|row: Vec<&str>| row_view(row@)),
            views(out@) == kept_users(all.subrange(0, i as int)),
        decreases rows@.len() - i,
    {
        assert(all.subrange(0, i + 1).drop_last() =~= all.subrange(0, i as int));
        assert(all.subrange(0, i + 1).last() == row_view(rows@[i as int]@));
        let ghost before = out@;
        match UserRecord::from_csv_row(rows[i].as_slice()) {
            Ok(u) => {
                out.push(u);
                assert(views(out@) =~= views(before).push(u@));
            },
            Err(_) => {},
        }
        i = i + 1;
    }
    assert(all.subrange(0, rows@.len() as int) =~= all);
    out
}

/// Collects records into chunks of a fixed size, handing out each chunk when it is full.
pub struct ChunkBuffer {
    chunk: Vec<UserRecord>,
    chunk_size: usize,
}

impl ChunkBuffer {
    /// The records waiting for their chunk to fill.
    pub closed spec fn pending(&self) -> Seq<UserView> {
        views(self.chunk@)
    }

    /// The chunk size.
    pub closed spec fn size(&self) -> nat {
        self.chunk_size as nat
    }

    /// An empty buffer for chunks of `chunk_size` records.
    pub fn new(chunk_size: usize) -> (r: Self)
        ensures
            r.pending() == Seq::<UserView>::empty(),
            r.size() == chunk_size,
    {
        let r = ChunkBuffer { chunk: Vec::new(), chunk_size };
        assert(views(r.chunk@) =~= Seq::<UserView>::empty());
        r
    }

    /// Adds a record; when that fills the chunk, the chunk is handed out and the buffer
    /// starts again empty.
    pub fn push(&mut self, record: UserRecord) -> (r: Option<Vec<UserRecord>>)
        ensures
            final(self).size() == old(self).size(),
            old(self).pending().len() + 1 == old(self).size() ==> (r matches Some(c) && views(c@)
                == old(self).pending().push(record@) && final(self).pending() == Seq::<UserView>::empty()),
            old(self).pending().len() + 1 != old(self).size() ==> (r is None && final(self).pending()
                == old(self).pending().push(record@)),
    {
        let ghost before = self.chunk@;
        let ghost rv = record@;
        self.chunk.push(record);
        assert(views(self.chunk@) =~= views(before).push(rv));
        if self.chunk.len() == self.chunk_size {
            let mut full: Vec<UserRecord> = Vec::new();
            std::mem::swap(&mut full, &mut self.chunk);
            assert(views(self.chunk@) =~= Seq::<UserView>::empty());
            Some(full)
        } else {
            None
        }
    }

    /// The last, partly filled chunk, if any record is waiting.
    pub fn finish(self) -> (r: Option<Vec<UserRecord>>)
        ensures
            self.pending().len() > 0 ==> (r matches Some(c) && views(c@) == self.pending()),
            self.pending().len() == 0 ==> r is None,
    {
        if self.chunk.len() > 0 {
            Some(self.chunk)
        } else {
            None
        }
    }
}

/// Counters of a vector that tracks its reallocations.
#[derive(Debug)]
pub struct AllocationStats {
    pub allocations: usize,
    pub reallocations: usize,
    pub bytes_copied: usize,
}

impl Default for AllocationStats {
    fn default() -> (r: Self)
        ensures
            r.allocations == 0 && r.reallocations == 0 && r.bytes_copied == 0,
    {
        AllocationStats { allocations: 0, reallocations: 0, bytes_copied: 0 }
    }
}

/// A vector that counts the pushes that found it full, and the bytes those moved.
pub struct TrackedVec<T> {
    vec: Vec<T>,
    stats: AllocationStats,
}

impl<T> TrackedVec<T> {
    /// The elements.
    pub closed spec fn items(&self) -> Seq<T> {
        self.vec@
    }

    /// The counters.
    pub closed spec fn counters(&self) -> (nat, nat, nat) {
        (
            self.stats.allocations as nat,
            self.stats.reallocations as nat,
            self.stats.bytes_copied as nat,
        )
    }

    /// An empty vector with room for `capacity` elements; one allocation.
    pub fn with_capacity(capacity: usize) -> (r: Self)
        ensures
            r.items() == Seq::<T>::empty(),
            r.counters() == (1nat, 0nat, 0nat),
    {
        TrackedVec {
            vec: Vec::with_capacity(capacity),
            stats: AllocationStats { allocations: 1, reallocations: 0, bytes_copied: 0 },
        }
    }

    /// Appends `value`; when the vector was full, one reallocation is counted, with the
    /// bytes of the elements it held.
    pub fn push(&mut self, value: T)
        requires
            old(self).counters().1 < usize::MAX,
            old(self).counters().2 + old(self).items().len() * vstd::layout::size_of::<T>()
                <= usize::MAX,
        ensures
            final(self).items() == old(self).items().push(value),
            final(self).counters().0 == old(self).counters().0,
            final(self).counters().1 == old(self).counters().1 || final(self).counters().1
                == old(self).counters().1 + 1,
            final(self).counters().1 == old(self).counters().1 + 1 ==> final(self).counters().2
                == old(self).counters().2 + old(self).items().len() * vstd::layout::size_of::<T>(),
            final(self).counters().1 == old(self).counters().1 ==> final(self).counters().2
                == old(self).counters().2,
    {
        let len = self.vec.len();
        if len == vec_capacity(&self.vec) {
            let size = std::mem::size_of::<T>();
            assert(len * size <= usize::MAX) by (nonlinear_arith)
                requires
                    len * size <= usize::MAX - self.stats.bytes_copied,
                    self.stats.bytes_copied >= 0,
            ;
            self.stats.reallocations = self.stats.reallocations + 1;
            self.stats.bytes_copied = self.stats.bytes_copied + len * size;
        }
        self.vec.push(value);
    }

    /// The counters.
    pub fn stats(&self) -> (r: &AllocationStats)
        ensures
            (r.allocations as nat, r.reallocations as nat, r.bytes_copied as nat) == self.counters(),
    {
        &self.stats
    }
}

/// Counters of a chunked pass.
#[derive(Debug)]
pub struct ChunkStats {
    pub total_chunks: usize,
    pub total_records: usize,
    pub peak_memory_bytes: usize,
}

impl Default for ChunkStats {
    fn default() -> (r: Self)
        ensures
            r.total_chunks == 0 && r.total_records == 0 && r.peak_memory_bytes == 0,
    {
        ChunkStats { total_chunks: 0, total_records: 0, peak_memory_bytes: 0 }
    }
}

impl ChunkStats {
    /// Counts one chunk of `count` records; the peak is the largest chunk in bytes.
    pub fn record_chunk(&mut self, count: usize)
        requires
            old(self).total_chunks < usize::MAX,
            old(self).total_records + count <= usize::MAX,
            count * vstd::layout::size_of::<UserRecord>() <= usize::MAX,
        ensures
            final(self).total_chunks == old(self).total_chunks + 1,
            final(self).total_records == old(self).total_records + count,
            final(self).peak_memory_bytes == if old(self).peak_memory_bytes >= count
                * vstd::layout::size_of::<UserRecord>() {
                old(self).peak_memory_bytes as int
            } else {
                count * vstd::layout::size_of::<UserRecord>()
            },
    {
        self.total_chunks = self.total_chunks + 1;
        self.total_records = self.total_records + count;
        let bytes = count * std::mem::size_of::<UserRecord>();
        if bytes > self.peak_memory_bytes {
            self.peak_memory_bytes = bytes;
        }
    }
}

/// Counters of an import into the database.
#[derive(Debug)]
pub struct ImportStats {
    pub records_imported: usize,
    pub records_failed: usize,
    pub batches_processed: usize,
    pub duration_ms: u64,
}

impl Default for ImportStats {
    fn default() -> (r: Self)
        ensures
            r.records_imported == 0 && r.records_failed == 0 && r.batches_processed == 0
                && r.duration_ms == 0,
    {
        ImportStats { records_imported: 0, records_failed: 0, batches_processed: 0, duration_ms: 0 }
    }
}

impl ImportStats {
    /// Counts a batch of `count` records: imported, with one batch more, when it was
    /// committed; failed otherwise.
    pub fn record_batch(&mut self, count: usize, committed: bool)
        requires
            committed ==> old(self).records_imported + count <= usize::MAX
                && old(self).batches_processed < usize::MAX,
            !committed ==> old(self).records_failed + count <= usize::MAX,
        ensures
            final(self).duration_ms == old(self).duration_ms,
            committed ==> final(self).records_imported == old(self).records_imported + count
                && final(self).batches_processed == old(self).batches_processed + 1
                && final(self).records_failed == old(self).records_failed,
            !committed ==> final(self).records_failed == old(self).records_failed + count
                && final(self).records_imported == old(self).records_imported
                && final(self).batches_processed == old(self).batches_processed,
    {
        if committed {
            self.records_imported = self.records_imported + count;
            self.batches_processed = self.batches_processed + 1;
        } else {
            self.records_failed = self.records_failed + count;
        }
    }
}

/// The placeholders of `n` rows, separated by commas.
pub open spec fn placeholder_rows(n: nat) -> Seq<char>
    decreases n,
{
    if n == 0 {
        Seq::empty()
    } else if n == 1 {
        "(?, ?, ?, ?, ?)"@
    } else {
        placeholder_rows((n - 1) as nat) + ", (?, ?, ?, ?, ?)"@
    }
}

/// The statement that inserts `n` users in one query.
pub open spec fn insert_statement_text(n: nat) -> Seq<char> {
    "INSERT INTO users (id, name, email, age, country) VALUES "@ + placeholder_rows(n)
}

/// Appends the characters of `src` to `dst`.
fn push_str_chars(dst: &mut String, src: &str)
    ensures
        final(dst)@ == old(dst)@ + src@,
{
    let cs = crate::text::chars_of(src);
    let mut i: usize = 0;
    while i < cs.len()
        invariant
            i <= cs@.len(),
            cs@ == src@,
            dst@ == old(dst)@ + src@.subrange(0, i as int),
        decreases cs@.len() - i,
    {
        push_char(dst, cs[i]);
        i = i + 1;
        assert(dst@ =~= old(dst)@ + src@.subrange(0, i as int));
    }
    assert(src@.subrange(0, cs@.len() as int) =~= src@);
}

/// The multi-row insert statement for `count` users, one placeholder row each.
pub fn insert_statement(count: usize) -> (r: String)
    ensures
        r@ == insert_statement_text(count as nat),
{
    let mut sql = owned("INSERT INTO users (id, name, email, age, country) VALUES ");
    let mut idx: usize = 0;
    while idx < count
        invariant
            idx <= count,
            sql@ == "INSERT INTO users (id, name, email, age, country) VALUES "@ + placeholder_rows(
                idx as nat,
            ),
        decreases count - idx,
    {
        let ghost before = sql@;
        if idx > 0 {
            push_str_chars(&mut sql, ", ");
        }
        push_str_chars(&mut sql, "(?, ?, ?, ?, ?)");
        proof {
            reveal_strlit(", ");
            reveal_strlit("(?, ?, ?, ?, ?)");
            reveal_strlit(", (?, ?, ?, ?, ?)");
            if idx == 0 {
                assert(placeholder_rows(0) =~= Seq::<char>::empty());
                assert(sql@ =~= "INSERT INTO users (id, name, email, age, country) VALUES "@
                    + placeholder_rows(1));
            } else {
                assert(sql@ =~= "INSERT INTO users (id, name, email, age, country) VALUES "@
                    + placeholder_rows((idx + 1) as nat));
            }
        }
        idx = idx + 1;
    }
    sql
}

/// The text in upper case, as `str::to_uppercase` computes it.
pub uninterp spec fn uppercase(s: Seq<char>) -> Seq<char>;

/// `str::to_uppercase`: the string in upper case, as Unicode defines it. The contract
/// names the result and says no more of it.
#[verifier::external_body]
fn to_upper(s: &str) -> (r: String)
    ensures
        r@ == uppercase(s@),
{
    s.to_uppercase()
}

/// Normalises a record: the email in lower case and the country in upper case.
pub fn transform_record(record: &mut UserRecord)
    ensures
        final(record).email@ == lowercase(old(record).email@),
        final(record).country@ == uppercase(old(record).country@),
        final(record).id == old(record).id,
        final(record).name@ == old(record).name@,
        final(record).age == old(record).age,
{
    record.email = to_lower(record.email.as_str());
    record.country = to_upper(record.country.as_str());
}

/// Whether the ids of `s` never decrease.
pub open spec fn ids_sorted(s: Seq<UserView>) -> bool {
    forall|i: int, j: int| 0 <= i <= j < s.len() ==> (#[trigger] s[i]).0 <= (#[trigger] s[j]).0
}

/// Whether the ids of `s` strictly increase.
pub open spec fn ids_increasing(s: Seq<UserView>) -> bool {
    forall|i: int, j: int| 0 <= i < j < s.len() ==> (#[trigger] s[i]).0 < (#[trigger] s[j]).0
}

/// Whether some record of `s` has the id `id`.
pub open spec fn has_id(s: Seq<UserView>, id: u64) -> bool {
    exists|j: int| 0 <= j < s.len() && (#[trigger] s[j]).0 == id
}

/// `slice::sort_unstable_by_key` with the id as the key: the same records, ordered by
/// id (which of several records with one id comes first is left open).
#[verifier::external_body]
fn sort_by_id(v: &mut Vec<UserRecord>)
    ensures
        views(final(v)@).to_multiset() == views(old(v)@).to_multiset(),
        ids_sorted(views(final(v)@)),
{
    v.sort_unstable_by_key(|r| r.id);
}

/// Deduplicates by sorting on the id and keeping the first record of each run: the
/// result holds records of the chunk, with strictly increasing ids, one for each id of
/// the chunk.
pub fn deduplicate_chunk(chunk: &mut Vec<UserRecord>)
    ensures
        ids_increasing(views(final(chunk)@)),
        forall|i: int| 0 <= i < final(chunk)@.len() ==> views(old(chunk)@).contains(
            #[trigger] views(final(chunk)@)[i],
        ),
        forall|k: int| 0 <= k < old(chunk)@.len() ==> has_id(
            views(final(chunk)@),
            (#[trigger] views(old(chunk)@)[k]).0,
        ),
{
    broadcast use vstd::seq_lib::group_to_multiset_ensures;

    let ghost orig = views(chunk@);
    sort_by_id(chunk);
    let ghost s = views(chunk@);
    let mut out: Vec<UserRecord> = Vec::new();
    let mut i: usize = 0;
    while i < chunk.len()
        invariant
            s == views(chunk@),
            ids_sorted(s),
            i <= s.len(),
            ids_increasing(views(out@)),
            forall|m: int| 0 <= m < out@.len() ==> s.contains(#[trigger] views(out@)[m]),
            i == 0 ==> out@.len() == 0,
            i > 0 ==> out@.len() > 0 && views(out@).last().0 == s[i - 1].0,
            i > 0 ==> forall|m: int| 0 <= m < out@.len() ==> (#[trigger] views(out@)[m]).0 <= s[i - 1].0,
            forall|k: int| 0 <= k < i ==> has_id(views(out@), (#[trigger] s[k]).0),
        decreases s.len() - i,
    {
        let ghost before = views(out@);
        if i == 0 || chunk[i].id != chunk[i - 1].id {
            let c = chunk[i].copy();
            out.push(c);
            assert(views(out@) =~= before.push(s[i as int]));
            assert(s.contains(s[i as int]));
            assert(has_id(views(out@), s[i as int].0)) by {
                assert(views(out@)[before.len() as int].0 == s[i as int].0);
            }
            assert forall|k: int| 0 <= k < i implies has_id(views(out@), (#[trigger] s[k]).0) by {
                assert(has_id(before, s[k].0));
                let j = choose|j: int| 0 <= j < before.len() && (#[trigger] before[j]).0 == s[k].0;
                assert(views(out@)[j] == before[j]);
            }
            if i > 0 {
                assert(s[i - 1].0 <= s[i as int].0);
                assert(s[i - 1].0 < s[i as int].0);
            }
            assert forall|m: int| 0 <= m < out@.len() implies (#[trigger] views(out@)[m]).0 <= s[i as int].0 by {
                if m < before.len() {
                    assert(views(out@)[m] == before[m]);
                }
            }
            assert forall|a: int, b: int| 0 <= a < b < out@.len() implies (#[trigger] views(out@)[a]).0
                < (#[trigger] views(out@)[b]).0 by {
                assert(views(out@)[a] == before[a]);
                if b < before.len() {
                    assert(views(out@)[b] == before[b]);
                }
            }
        } else {
            assert(s[i as int].0 == s[i - 1].0);
        }
        i = i + 1;
    }
    proof {
        assert forall|m: int| 0 <= m < out@.len() implies orig.contains(#[trigger] views(out@)[m]) by {
            assert(s.contains(views(out@)[m]));
            assert(s.to_multiset().count(views(out@)[m]) > 0);
        }
        assert forall|k: int| 0 <= k < orig.len() implies has_id(views(out@), (#[trigger] orig[k]).0) by {
            assert(orig.contains(orig[k]));
            assert(orig.to_multiset().count(orig[k]) > 0);
            assert(s.contains(orig[k]));
            let j = choose|j: int| 0 <= j < s.len() && s[j] == orig[k];
            assert(has_id(views(out@), s[j].0));
        }
    }
    *chunk = out;
}

/// The records of `s` whose id no earlier record has, in order.
pub open spec fn keep_first(s: Seq<UserView>) -> Seq<UserView>
    decreases s.len(),
{
    if s.len() == 0 {
        s
    } else {
        let p = keep_first(s.drop_last());
        if has_id(s.drop_last(), s.last().0) {
            p
        } else {
            p.push(s.last())
        }
    }
}

/// Deduplicates with a set of the ids seen so far: the first record of each id stays,
/// in the original order.
pub fn deduplicate_hashset(chunk: &mut Vec<UserRecord>)
    ensures
        views(final(chunk)@) == keep_first(views(old(chunk)@)),
{
    let ghost s = views(chunk@);
    let mut seen: HashSet<u64> = HashSet::new();
    let mut out: Vec<UserRecord> = Vec::new();
    let mut i: usize = 0;
    assert(s.subrange(0, 0) =~= Seq::<UserView>::empty());
    assert(seen@ =~= Set::new(|id: u64| has_id(s.subrange(0, 0), id)));
    while i < chunk.len()
        invariant
            s == views(chunk@),
            i <= s.len(),
            seen@ == Set::new(|id: u64| has_id(s.subrange(0, i as int), id)),
            views(out@) == keep_first(s.subrange(0, i as int)),
        decreases s.len() - i,
    {
        let ghost prefix = s.subrange(0, i as int);
        let ghost next = s.subrange(0, i + 1);
        assert(next.drop_last() =~= prefix);
        assert(next.last() == s[i as int]);
        let ghost before = views(out@);
        let id = chunk[i].id;
        let fresh = seen.insert(id);
        if fresh {
            let c = chunk[i].copy();
            out.push(c);
            assert(views(out@) =~= before.push(s[i as int]));
        }
        assert forall|x: u64| #[trigger] seen@.contains(x) == has_id(next, x) by {
            if has_id(prefix, x) {
                let j = choose|j: int| 0 <= j < prefix.len() && (#[trigger] prefix[j]).0 == x;
                assert(next[j] == prefix[j]);
            }
            if has_id(next, x) && x != id {
                let j = choose|j: int| 0 <= j < next.len() && (#[trigger] next[j]).0 == x;
                assert(j < prefix.len());
                assert(prefix[j] == next[j]);
            }
            if x == id {
                assert(next[i as int].0 == id);
            }
        }
        assert(seen@ =~= Set::new(|id: u64| has_id(next, id)));
        i = i + 1;
    }
    assert(s.subrange(0, s.len() as int) =~= s);
    *chunk = out;
}

} // verus!
