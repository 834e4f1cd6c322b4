//! Copy-on-write text cleanup and string interning: a set-like interner that hands out
//! references, and a symbol interner whose handles carry a generation so that stale
//! handles stop resolving.
use vstd::prelude::*;
use std::borrow::Cow;
use vstd::string::StringSliceAdditionalSpecFns;
use crate::text::{chars_of, string_from_chars, str_contains, chars_has, str_eq, owned, contains_seq};

verus! {

/// Unicode white space, as `char::is_whitespace` defines it.
pub open spec fn is_ws(c: char) -> bool {
    let v = c as u32;
    ||| 0x09 <= v <= 0x0D
    ||| v == 0x20
    ||| v == 0x85
    ||| v == 0xA0
    ||| v == 0x1680
    ||| 0x2000 <= v <= 0x200A
    ||| v == 0x2028
    ||| v == 0x2029
    ||| v == 0x202F
    ||| v == 0x205F
    ||| v == 0x3000
}

/// Whether `c` is Unicode white space (`char::is_whitespace`).
pub fn is_whitespace_char(c: char) -> (r: bool)
    ensures
        r == is_ws(c),
{
    let v = c as u32;
    (0x09 <= v && v <= 0x0D) || v == 0x20 || v == 0x85 || v == 0xA0 || v == 0x1680 || (0x2000 <= v && v
        <= 0x200A) || v == 0x2028 || v == 0x2029 || v == 0x202F || v == 0x205F || v == 0x3000
}

/// The words of `s`: its maximal runs of non-white-space characters, in order.
pub open spec fn words(s: Seq<char>) -> Seq<Seq<char>>
    decreases s.len(),
{
    if s.len() == 0 {
        Seq::empty()
    } else {
        let w = words(s.drop_last());
        let c = s.last();
        if is_ws(c) {
            w
        } else if s.len() > 1 && !is_ws(s[s.len() - 2]) {
            w.update(w.len() - 1, w.last().push(c))
        } else {
            w.push(seq![c])
        }
    }
}

/// The words joined by single spaces.
pub open spec fn joined(ws: Seq<Seq<char>>) -> Seq<char>
    decreases ws.len(),
{
    if ws.len() == 0 {
        Seq::empty()
    } else if ws.len() == 1 {
        ws[0]
    } else {
        joined(ws.drop_last()) + seq![' '] + ws.last()
    }
}

/// A non-empty prefix that ends inside a word has at least one word.
proof fn lemma_words_nonempty(s: Seq<char>)
    requires
        s.len() > 0,
        !is_ws(s.last()),
    ensures
        words(s).len() > 0,
    decreases s.len(),
{
    if s.len() > 1 && !is_ws(s[s.len() - 2]) {
        assert(s.drop_last().last() == s[s.len() - 2]);
        lemma_words_nonempty(s.drop_last());
    }
}

/// Whether normalising `text` changes it: it holds a double space or a tab.
pub open spec fn needs_normalizing(text: Seq<char>) -> bool {
    contains_seq(text, seq![' ', ' ']) || text.contains('\t')
}

/// Collapses white space: when the text holds a double space or a tab, its words are
/// rejoined by single spaces in a new string; otherwise the text is returned as it is.
pub fn normalize_whitespace(text: &str) -> (r: Cow<'_, str>)
    ensures
        needs_normalizing(text@) ==> r is Owned && r@ == joined(words(text@)),
        !needs_normalizing(text@) ==> r is Borrowed && r@ == text@,
{
    let t = chars_of(text);
    let double = str_contains(text, "  ");
    proof {
        reveal_strlit("  ");
        assert("  "@ =~= seq![' ', ' ']);
    }
    let tab = chars_has(t.as_slice(), '\t');
    if !(double || tab) {
        return Cow::Borrowed(text);
    }
    let mut out: Vec<char> = Vec::new();
    let mut in_word = false;
    let mut any_word = false;
    let mut i: usize = 0;
    assert(t@.subrange(0, 0) =~= Seq::<char>::empty());
    while i < t.len()
        invariant
            i <= t@.len(),
            out@ == joined(words(t@.subrange(0, i as int))),
            in_word == (i > 0 && !is_ws(t@[i - 1])),
            any_word == (words(t@.subrange(0, i as int)).len() > 0),
        decreases t@.len() - i,
    {
        let c = t[i];
        let ghost pre = t@.subrange(0, i as int);
        let ghost next = t@.subrange(0, i + 1);
        proof {
            assert(next.drop_last() =~= pre);
            assert(next.last() == c);
        }
        if is_whitespace_char(c) {
            in_word = false;
        } else {
            if in_word {
                proof {
                    assert(next[next.len() - 2] == t@[i - 1]);
                    lemma_words_nonempty(pre);
                    lemma_joined_extend_last(words(pre), c);
                }
                out.push(c);
            } else {
                if any_word {
                    out.push(' ');
                }
                out.push(c);
                proof {
                    if i > 0 {
                        assert(next[next.len() - 2] == t@[i - 1]);
                    }
                    lemma_joined_push_word(words(pre), c);
                }
            }
            in_word = true;
            any_word = true;
        }
        i = i + 1;
        proof {
            assert(out@ =~= joined(words(t@.subrange(0, i as int))));
        }
    }
    assert(t@.subrange(0, t@.len() as int) =~= t@);
    Cow::Owned(string_from_chars(out.as_slice()))
}

/// Extending the last word by `c` extends the joined text by `c`.
proof fn lemma_joined_extend_last(ws: Seq<Seq<char>>, c: char)
    requires
        ws.len() > 0,
    ensures
        joined(ws.update(ws.len() - 1, ws.last().push(c))) == joined(ws).push(c),
{
    let ws2 = ws.update(ws.len() - 1, ws.last().push(c));
    if ws.len() == 1 {
        assert(ws2[0] == ws[0].push(c));
    } else {
        assert(ws2.drop_last() =~= ws.drop_last());
        assert(joined(ws2) == joined(ws.drop_last()) + seq![' '] + ws.last().push(c));
        assert(joined(ws2) =~= joined(ws).push(c));
    }
}

/// Adding the word `c` adds a space (unless it is the first word) and `c`.
proof fn lemma_joined_push_word(ws: Seq<Seq<char>>, c: char)
    ensures
        joined(ws.push(seq![c])) == if ws.len() == 0 {
            seq![c]
        } else {
            joined(ws) + seq![' ', c]
        },
{
    let ws2 = ws.push(seq![c]);
    assert(ws2.drop_last() =~= ws);
    if ws.len() == 0 {
        assert(joined(ws2) == seq![c]);
    } else {
        assert(joined(ws2) =~= joined(ws) + seq![' ', c]);
    }
}

/// The HTML escape of one character: `&`, `<` and `>` become entities.
pub open spec fn escape_char(c: char) -> Seq<char> {
    if c == '&' {
        "&amp;"@
    } else if c == '<' {
        "&lt;"@
    } else if c == '>' {
        "&gt;"@
    } else {
        seq![c]
    }
}

/// The HTML escape of a text, character by character.
pub open spec fn escaped(s: Seq<char>) -> Seq<char>
    decreases s.len(),
{
    if s.len() == 0 {
        Seq::empty()
    } else {
        escaped(s.drop_last()) + escape_char(s.last())
    }
}

/// Whether the text holds a character that HTML escaping changes.
pub open spec fn has_html_special(s: Seq<char>) -> bool {
    s.contains('<') || s.contains('>') || s.contains('&')
}

/// Escapes `&`, `<` and `>` in a new string when the text holds any of them; otherwise
/// returns the text as it is.
pub fn maybe_escape_html(text: &str) -> (r: Cow<'_, str>)
    ensures
        has_html_special(text@) ==> r is Owned && r@ == escaped(text@),
        !has_html_special(text@) ==> r is Borrowed && r@ == text@,
{
    let t = chars_of(text);
    if !(chars_has(t.as_slice(), '<') || chars_has(t.as_slice(), '>') || chars_has(t.as_slice(), '&')) {
        return Cow::Borrowed(text);
    }
    let mut out: Vec<char> = Vec::new();
    let mut i: usize = 0;
    assert(t@.subrange(0, 0) =~= Seq::<char>::empty());
    while i < t.len()
        invariant
            i <= t@.len(),
            out@ == escaped(t@.subrange(0, i as int)),
        decreases t@.len() - i,
    {
        let c = t[i];
        let ghost before = out@;
        if c == '&' {
            crate::text::append_str(&mut out, "&amp;");
        } else if c == '<' {
            crate::text::append_str(&mut out, "&lt;");
        } else if c == '>' {
            crate::text::append_str(&mut out, "&gt;");
        } else {
            out.push(c);
        }
        proof {
            assert(t@.subrange(0, i + 1).drop_last() =~= t@.subrange(0, i as int));
            assert(out@ =~= before + escape_char(c));
        }
        i = i + 1;
    }
    assert(t@.subrange(0, t@.len() as int) =~= t@);
    Cow::Owned(string_from_chars(out.as_slice()))
}

/// Counters kept by a `StringInterner`.
#[derive(Debug, PartialEq, Clone)]
pub struct InternerStats {
    pub total_strings: usize,
    pub total_bytes: usize,
    pub allocations: usize,
    pub lookups: usize,
}

impl Default for InternerStats {
    fn default() -> (r: Self)
        ensures
            r == (InternerStats { total_strings: 0, total_bytes: 0, allocations: 0, lookups: 0 }),
    {
        InternerStats { total_strings: 0, total_bytes: 0, allocations: 0, lookups: 0 }
    }
}

/// A set of distinct strings that hands out references to its stored copy.
pub struct StringInterner {
    strings: Vec<String>,
    stats: InternerStats,
}

impl StringInterner {
    /// The stored strings, as character sequences, in insertion order.
    pub closed spec fn stored(&self) -> Seq<Seq<char>> {
        self.strings@.map_values(|s: String| s@)
    }

    /// The counters.
    pub closed spec fn counters(&self) -> InternerStats {
        self.stats
    }

    /// No string is stored twice, and the counters count the stored strings.
    pub closed spec fn wf(&self) -> bool {
        &&& forall|i: int, j: int| 0 <= i < j < self.strings@.len() ==> #[trigger] self.strings@[i]@ != #[trigger] self.strings@[j]@
        &&& self.stats.total_strings == self.strings@.len()
        &&& self.stats.allocations == self.strings@.len()
    }

    /// An empty interner with zeroed counters.
    pub fn new() -> (r: Self)
        ensures
            r.wf(),
            r.stored() == Seq::<Seq<char>>::empty(),
            r.counters() == (InternerStats { total_strings: 0, total_bytes: 0, allocations: 0, lookups: 0 }),
    {
        let r = StringInterner { strings: Vec::new(), stats: InternerStats::default() };
        assert(r.stored() =~= Seq::<Seq<char>>::empty());
        r
    }

    /// The index of the stored copy of `s`, if any.
    fn find(&self, s: &str) -> (r: Option<usize>)
        ensures
            r matches Some(i) ==> i < self.strings@.len() && self.strings@[i as int]@ == s@,
            r is None ==> !self.stored().contains(s@),
    {
        let mut i: usize = 0;
        while i < self.strings.len()
            invariant
                i <= self.strings@.len(),
                forall|k: int| 0 <= k < i ==> self.strings@[k]@ != s@,
            decreases self.strings@.len() - i,
        {
            if str_eq(self.strings[i].as_str(), s) {
                return Some(i);
            }
            i = i + 1;
        }
        proof {
            if self.stored().contains(s@) {
                let k = choose|k: int| 0 <= k < self.stored().len() && self.stored()[k] == s@;
                assert(self.strings@[k]@ == s@);
            }
        }
        None
    }

    /// Stores `s` unless an equal string is stored, and returns the stored copy. A new
    /// string counts as an allocation and adds its byte length; a repeat counts as a
    /// lookup.
    pub fn intern(&mut self, s: &str) -> (r: &str)
        requires
            old(self).wf(),
            old(self).counters().total_bytes + s.spec_bytes().len() <= usize::MAX,
            old(self).counters().lookups < usize::MAX,
            old(self).stored().len() < usize::MAX,
        ensures
            final(self).wf(),
            r@ == s@,
            old(self).stored().contains(s@) ==> final(self).stored() == old(self).stored()
                && final(self).counters() == (InternerStats { lookups: (old(self).counters().lookups + 1) as usize, ..old(self).counters() }),
            !old(self).stored().contains(s@) ==> final(self).stored() == old(self).stored().push(s@)
                && final(self).counters() == (InternerStats {
                    total_strings: (old(self).counters().total_strings + 1) as usize,
                    total_bytes: (old(self).counters().total_bytes + s.spec_bytes().len()) as usize,
                    allocations: (old(self).counters().allocations + 1) as usize,
                    lookups: old(self).counters().lookups,
                }),
    {
        let idx = self.insert_or_count(s);
        self.strings[idx].as_str()
    }

    /// Stores `s` if it is new (or counts a lookup) and returns its index.
    fn insert_or_count(&mut self, s: &str) -> (idx: usize)
        requires
            old(self).wf(),
            old(self).counters().total_bytes + s.spec_bytes().len() <= usize::MAX,
            old(self).counters().lookups < usize::MAX,
            old(self).stored().len() < usize::MAX,
        ensures
            final(self).wf(),
            idx < final(self).strings@.len(),
            final(self).strings@[idx as int]@ == s@,
            old(self).stored().contains(s@) ==> final(self).stored() == old(self).stored()
                && final(self).counters() == (InternerStats { lookups: (old(self).counters().lookups + 1) as usize, ..old(self).counters() }),
            !old(self).stored().contains(s@) ==> final(self).stored() == old(self).stored().push(s@)
                && final(self).counters() == (InternerStats {
                    total_strings: (old(self).counters().total_strings + 1) as usize,
                    total_bytes: (old(self).counters().total_bytes + s.spec_bytes().len()) as usize,
                    allocations: (old(self).counters().allocations + 1) as usize,
                    lookups: old(self).counters().lookups,
                }),
    {
        match self.find(s) {
            Some(i) => {
                proof {
                    assert(self.stored()[i as int] == s@);
                }
                self.stats.lookups = self.stats.lookups + 1;
                i
            },
            None => {
                let copy = owned(s);
                let ghost before = self.strings@;
                self.strings.push(copy);
                self.stats.total_strings = self.stats.total_strings + 1;
                self.stats.total_bytes = self.stats.total_bytes + s.len();
                self.stats.allocations = self.stats.allocations + 1;
                proof {
                    assert(self.stored() =~= old(self).stored().push(s@));
                    assert forall|i: int, j: int| 0 <= i < j < self.strings@.len() implies #[trigger] self.strings@[i]@ != #[trigger] self.strings@[j]@ by {
                        if j == before.len() {
                            assert(old(self).stored()[i] == before[i]@);
                        }
                    }
                }
                self.strings.len() - 1
            },
        }
    }

    /// Like `intern`, returning the stored copy as a borrowed `Cow`.
    pub fn get_or_intern(&mut self, s: &str) -> (r: Cow<'_, str>)
        requires
            old(self).wf(),
            old(self).counters().total_bytes + s.spec_bytes().len() <= usize::MAX,
            old(self).counters().lookups < usize::MAX,
            old(self).stored().len() < usize::MAX,
        ensures
            final(self).wf(),
            r is Borrowed,
            r@ == s@,
            old(self).stored().contains(s@) ==> final(self).stored() == old(self).stored()
                && final(self).counters() == (InternerStats { lookups: (old(self).counters().lookups + 1) as usize, ..old(self).counters() }),
            !old(self).stored().contains(s@) ==> final(self).stored() == old(self).stored().push(s@)
                && final(self).counters() == (InternerStats {
                    total_strings: (old(self).counters().total_strings + 1) as usize,
                    total_bytes: (old(self).counters().total_bytes + s.spec_bytes().len()) as usize,
                    allocations: (old(self).counters().allocations + 1) as usize,
                    lookups: old(self).counters().lookups,
                }),
    {
        let idx = self.insert_or_count(s);
        Cow::Borrowed(self.strings[idx].as_str())
    }

    /// Whether an equal string is stored.
    pub fn contains(&self, s: &str) -> (r: bool)
        ensures
            r == self.stored().contains(s@),
    {
        match self.find(s) {
            Some(i) => {
                proof {
                    assert(self.stored()[i as int] == s@);
                }
                true
            },
            None => false,
        }
    }

    /// The number of distinct strings stored.
    pub fn len(&self) -> (r: usize)
        ensures
            r == self.stored().len(),
    {
        self.strings.len()
    }

    /// Whether nothing is stored.
    pub fn is_empty(&self) -> (r: bool)
        ensures
            r == (self.stored().len() == 0),
    {
        self.strings.len() == 0
    }

    /// The total byte length of the strings stored.
    pub fn total_bytes(&self) -> (r: usize)
        ensures
            r == self.counters().total_bytes,
    {
        self.stats.total_bytes
    }

    /// The counters.
    pub fn statistics(&self) -> (r: &InternerStats)
        ensures
            *r == self.counters(),
    {
        &self.stats
    }

    /// Forgets every string and zeroes the counters.
    pub fn clear(&mut self)
        ensures
            final(self).wf(),
            final(self).stored() == Seq::<Seq<char>>::empty(),
            final(self).counters() == (InternerStats { total_strings: 0, total_bytes: 0, allocations: 0, lookups: 0 }),
    {
        self.strings.clear();
        self.stats = InternerStats::default();
        assert(self.stored() =~= Seq::<Seq<char>>::empty());
    }
}

/// A handle to an interned string: a slot index and the slot's generation when the
/// handle was made.
#[derive(Debug, Copy, Clone, PartialEq, Eq, Hash)]
pub struct Symbol {
    pub index: usize,
    pub generation: u32,
}

/// A slot of the symbol table: its string, if occupied, and its generation.
struct Slot {
    string: Option<String>,
    generation: u32,
}

/// Interns strings into numbered slots; freed slots are reused with a new generation,
/// so handles to the old contents stop resolving.
pub struct SymbolInterner {
    slots: Vec<Slot>,
    free_list: Vec<usize>,
}

/// What a slot holds, as a plain value.
pub struct SlotView {
    pub string: Option<Seq<char>>,
    pub generation: u32,
}

impl SymbolInterner {
    /// The slots, in index order.
    pub closed spec fn table(&self) -> Seq<SlotView> {
        self.slots@.map_values(|s: Slot| SlotView {
            string: match s.string {
                Some(x) => Some(x@),
                None => None,
            },
            generation: s.generation,
        })
    }

    /// The freed slots waiting for reuse; the last one is reused first.
    pub closed spec fn free(&self) -> Seq<usize> {
        self.free_list@
    }

    /// What `resolve` answers for a handle.
    pub open spec fn resolves_to(&self, sym: Symbol) -> Option<Seq<char>> {
        if sym.index < self.table().len() && self.table()[sym.index as int].generation == sym.generation {
            self.table()[sym.index as int].string
        } else {
            None
        }
    }

    /// Occupied slots hold distinct strings; the free list names each empty slot once.
    pub closed spec fn wf(&self) -> bool {
        let t = self.table();
        let f = self.free_list@;
        &&& forall|i: int, j: int|
            0 <= i < j < t.len() && t[i].string is Some && t[j].string is Some ==> #[trigger] t[i].string != #[trigger] t[j].string
        &&& forall|k: int| 0 <= k < f.len() ==> (#[trigger] f[k]) < t.len() && t[f[k] as int].string is None
        &&& forall|k: int, l: int| 0 <= k < l < f.len() ==> #[trigger] f[k] != #[trigger] f[l]
        &&& forall|i: int| 0 <= i < t.len() && (#[trigger] t[i]).string is None ==> f.contains(i as usize)
    }

    /// Two handles that resolve to the same string are the same handle: a string lives in
    /// one slot, so interning it again gives back the handle it already has.
    pub proof fn lemma_handles_unique(&self, h1: Symbol, h2: Symbol)
        requires
            self.wf(),
            self.resolves_to(h1) is Some,
            self.resolves_to(h1) == self.resolves_to(h2),
        ensures
            h1 == h2,
    {
        let t = self.table();
        if h1.index != h2.index {
            let (i, j) = if h1.index < h2.index { (h1.index as int, h2.index as int) } else { (h2.index as int, h1.index as int) };
            assert(t[i].string is Some && t[j].string is Some);
            assert(t[i].string != t[j].string);
        }
    }

    /// Interning a string that a current handle names again finds it in its slot, and
    /// the handle made from that slot and its generation is that same handle: the table
    /// and the free list stay as they are and the handle comes back unchanged.
    pub proof fn lemma_intern_again(&self, y: Symbol, s: Seq<char>)
        requires
            self.wf(),
            self.resolves_to(y) == Some(s),
        ensures
            exists|i: int| 0 <= i < self.table().len() && self.table()[i].string == Some(s),
            forall|r: Symbol| #![trigger self.resolves_to(r)] r.index < self.table().len() && self.table()[r.index as int].string == Some(s)
                && r.generation == self.table()[r.index as int].generation ==> r == y,
    {
        assert(self.table()[y.index as int].string == Some(s));
        assert forall|r: Symbol| #![trigger self.resolves_to(r)] r.index < self.table().len() && self.table()[r.index as int].string == Some(s)
            && r.generation == self.table()[r.index as int].generation implies r == y by {
            assert(self.resolves_to(r) == Some(s));
            self.lemma_handles_unique(r, y);
        }
    }

    /// The number of occupied slots.
    pub open spec fn occupied(t: Seq<SlotView>) -> nat
        decreases t.len(),
    {
        if t.len() == 0 {
            0
        } else {
            Self::occupied(t.drop_last()) + if t.last().string is Some { 1nat } else { 0nat }
        }
    }

    /// An empty table.
    pub fn new() -> (r: Self)
        ensures
            r.wf(),
            r.table() == Seq::<SlotView>::empty(),
            r.free() == Seq::<usize>::empty(),
    {
        let r = SymbolInterner { slots: Vec::new(), free_list: Vec::new() };
        assert(r.table() =~= Seq::<SlotView>::empty());
        r
    }

    /// Returns the handle of the slot holding `s`; otherwise stores `s` in the most
    /// recently freed slot (advancing its generation, wrapping) or in a new slot.
    pub fn intern(&mut self, s: &str) -> (r: Symbol)
        requires
            old(self).wf(),
            old(self).table().len() < usize::MAX,
        ensures
            final(self).wf(),
            final(self).resolves_to(r) == Some(s@),
            forall|h: Symbol| #[trigger] old(self).resolves_to(h) is Some ==> final(self).resolves_to(h) == old(self).resolves_to(h),
            (exists|i: int| 0 <= i < old(self).table().len() && old(self).table()[i].string == Some(s@)) ==> {
                &&& final(self).table() == old(self).table()
                &&& final(self).free() == old(self).free()
                &&& old(self).table()[r.index as int].string == Some(s@)
                &&& r.generation == old(self).table()[r.index as int].generation
            },
            !(exists|i: int| 0 <= i < old(self).table().len() && old(self).table()[i].string == Some(s@)) ==> {
                if old(self).free().len() > 0 {
                    let k = old(self).free().last();
                    &&& r.index == k
                    &&& r.generation == old(self).table()[k as int].generation.wrapping_add(1)
                    &&& final(self).table() == old(self).table().update(k as int, SlotView { string: Some(s@), generation: r.generation })
                    &&& final(self).free() == old(self).free().drop_last()
                } else {
                    &&& r.index == old(self).table().len()
                    &&& r.generation == 0
                    &&& final(self).table() == old(self).table().push(SlotView { string: Some(s@), generation: 0 })
                    &&& final(self).free() == old(self).free()
                }
            },
    {
        let mut index: usize = 0;
        while index < self.slots.len()
            invariant
                old(self).wf(),
                index <= self.slots@.len(),
                self.slots == old(self).slots,
                self.free_list == old(self).free_list,
                forall|i: int| 0 <= i < index ==> self.table()[i].string != Some(s@),
            decreases self.slots@.len() - index,
        {
            let found = match &self.slots[index].string {
                Some(existing) => str_eq(existing.as_str(), s),
                None => false,
            };
            if found {
                let g = self.slots[index].generation;
                proof {
                    assert(self.table() == old(self).table());
                    assert(self.free() == old(self).free());
                    assert(*self == *old(self));
                }
                return Symbol { index, generation: g };
            }
            index = index + 1;
        }
        let ghost before = self.table();
        match self.free_list.pop() {
            Some(k) => {
                let g = self.slots[k].generation.wrapping_add(1);
                let copy = owned(s);
                self.slots.set(k, Slot { string: Some(copy), generation: g });
                proof {
                    assert(self.table() =~= before.update(k as int, SlotView { string: Some(s@), generation: g }));
                    let f = self.free_list@;
                    let f0 = old(self).free_list@;
                    assert(f =~= f0.drop_last());
                    assert forall|i: int| 0 <= i < self.table().len() && (#[trigger] self.table()[i]).string is None implies f.contains(i as usize) by {
                        assert(before[i].string is None);
                        assert(f0.contains(i as usize));
                        let m = choose|m: int| 0 <= m < f0.len() && f0[m] == i as usize;
                        if m == f0.len() - 1 {
                            assert(i == k);
                        } else {
                            assert(f[m] == i as usize);
                        }
                    }
                    assert forall|a: int| 0 <= a < f.len() implies (#[trigger] f[a]) < self.table().len() && self.table()[f[a] as int].string is None by {
                        assert(f[a] == f0[a]);
                        assert(f0[a] != f0[f0.len() - 1]);
                    }
                }
                Symbol { index: k, generation: g }
            },
            None => {
                let copy = owned(s);
                let index = self.slots.len();
                self.slots.push(Slot { string: Some(copy), generation: 0 });
                proof {
                    assert(self.table() =~= before.push(SlotView { string: Some(s@), generation: 0 }));
                    assert forall|i: int| 0 <= i < self.table().len() && (#[trigger] self.table()[i]).string is None implies self.free_list@.contains(i as usize) by {
                        assert(i < before.len());
                        assert(before[i].string is None);
                    }
                }
                Symbol { index, generation: 0 }
            },
        }
    }

    /// The string a handle names, or `None` when the slot is gone, empty or has moved on
    /// to a later generation.
    pub fn resolve(&self, symbol: Symbol) -> (r: Option<&str>)
        ensures
            r matches Some(x) ==> self.resolves_to(symbol) == Some(x@),
            r is None ==> self.resolves_to(symbol) is None,
    {
        if symbol.index < self.slots.len() {
            let slot = &self.slots[symbol.index];
            if slot.generation == symbol.generation {
                match &slot.string {
                    Some(x) => Some(x.as_str()),
                    None => None,
                }
            } else {
                None
            }
        } else {
            None
        }
    }

    /// Empties the slot a handle names, if the handle is current and the slot occupied;
    /// the slot's generation advances (wrapping) and it joins the free list.
    pub fn remove(&mut self, symbol: Symbol)
        requires
            old(self).wf(),
        ensures
            final(self).wf(),
            old(self).resolves_to(symbol) is Some ==> {
                let i = symbol.index as int;
                &&& final(self).table() == old(self).table().update(i, SlotView { string: None, generation: symbol.generation.wrapping_add(1) })
                &&& final(self).free() == old(self).free().push(symbol.index)
            },
            old(self).resolves_to(symbol) is None ==> final(self).table() == old(self).table() && final(self).free() == old(self).free(),
            final(self).resolves_to(symbol) is None,
            forall|h: Symbol| h.index != symbol.index ==> #[trigger] final(self).resolves_to(h) == old(self).resolves_to(h),
    {
        if symbol.index < self.slots.len() {
            let occupied = self.slots[symbol.index].string.is_some();
            if self.slots[symbol.index].generation == symbol.generation && occupied {
                let ghost before = self.table();
                let g = self.slots[symbol.index].generation.wrapping_add(1);
                self.slots.set(symbol.index, Slot { string: None, generation: g });
                self.free_list.push(symbol.index);
                proof {
                    assert(self.table() =~= before.update(symbol.index as int, SlotView { string: None, generation: g }));
                    let f = self.free_list@;
                    let f0 = old(self).free_list@;
                    assert forall|a: int, b: int| 0 <= a < b < f.len() implies #[trigger] f[a] != #[trigger] f[b] by {
                        if b == f.len() - 1 {
                            assert(f[a] == f0[a]);
                            assert(before[f0[a] as int].string is None);
                        }
                    }
                    assert forall|i: int| 0 <= i < self.table().len() && (#[trigger] self.table()[i]).string is None implies f.contains(i as usize) by {
                        if i == symbol.index {
                            assert(f[f.len() - 1] == symbol.index);
                        } else {
                            assert(f0.contains(i as usize));
                            let m = choose|m: int| 0 <= m < f0.len() && f0[m] == i as usize;
                            assert(f[m] == i as usize);
                        }
                    }
                    assert(g != symbol.generation);
                }
            }
        }
    }

    /// Empties every occupied slot, advancing its generation (wrapping) and adding it to
    /// the free list; every handle made before stops resolving.
    pub fn clear(&mut self)
        requires
            old(self).wf(),
        ensures
            final(self).wf(),
            final(self).table().len() == old(self).table().len(),
            forall|i: int| 0 <= i < final(self).table().len() ==> (#[trigger] final(self).table()[i]).string is None,
            forall|i: int| 0 <= i < old(self).table().len() && (#[trigger] old(self).table()[i]).string is Some
                ==> final(self).table()[i].generation == old(self).table()[i].generation.wrapping_add(1),
            forall|i: int| 0 <= i < old(self).table().len() && (#[trigger] old(self).table()[i]).string is None
                ==> final(self).table()[i].generation == old(self).table()[i].generation,
    {
        let mut i: usize = 0;
        let ghost orig = self.table();
        while i < self.slots.len()
            invariant
                self.wf(),
                i <= self.slots@.len(),
                self.table().len() == orig.len(),
                forall|k: int| 0 <= k < i ==> (#[trigger] self.table()[k]).string is None,
                forall|k: int| 0 <= k < i && (#[trigger] orig[k]).string is Some ==> self.table()[k].generation == orig[k].generation.wrapping_add(1),
                forall|k: int| 0 <= k < i && (#[trigger] orig[k]).string is None ==> self.table()[k].generation == orig[k].generation,
                forall|k: int| i <= k < orig.len() ==> self.table()[k] == #[trigger] orig[k],
            decreases self.slots@.len() - i,
        {
            if self.slots[i].string.is_some() {
                let ghost before = self.table();
                let ghost f0 = self.free_list@;
                let g = self.slots[i].generation.wrapping_add(1);
                self.slots.set(i, Slot { string: None, generation: g });
                self.free_list.push(i);
                proof {
                    assert(self.table() =~= before.update(i as int, SlotView { string: None, generation: g }));
                    let f = self.free_list@;
                    assert forall|a: int, b: int| 0 <= a < b < f.len() implies #[trigger] f[a] != #[trigger] f[b] by {
                        if b == f.len() - 1 {
                            assert(f[a] == f0[a]);
                            assert(before[f0[a] as int].string is None);
                        }
                    }
                    assert forall|k: int| 0 <= k < self.table().len() && (#[trigger] self.table()[k]).string is None implies f.contains(k as usize) by {
                        if k == i {
                            assert(f[f.len() - 1] == i);
                        } else {
                            assert(f0.contains(k as usize));
                            let m = choose|m: int| 0 <= m < f0.len() && f0[m] == k as usize;
                            assert(f[m] == k as usize);
                        }
                    }
                }
            }
            i = i + 1;
        }
    }

    /// The number of occupied slots.
    pub fn len(&self) -> (r: usize)
        ensures
            r == Self::occupied(self.table()),
    {
        let mut count: usize = 0;
        let mut i: usize = 0;
        while i < self.slots.len()
            invariant
                i <= self.slots@.len(),
                count == Self::occupied(self.table().subrange(0, i as int)),
                count <= i,
            decreases self.slots@.len() - i,
        {
            proof {
                assert(self.table().subrange(0, i + 1).drop_last() =~= self.table().subrange(0, i as int));
            }
            if self.slots[i].string.is_some() {
                count = count + 1;
            }
            i = i + 1;
        }
        assert(self.table().subrange(0, self.slots@.len() as int) =~= self.table());
        count
    }

    /// Whether no slot is occupied.
    pub fn is_empty(&self) -> (r: bool)
        ensures
            r == (Self::occupied(self.table()) == 0),
    {
        self.len() == 0
    }
}

} // verus!
