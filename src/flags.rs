use vstd::prelude::*;

use crate::error::TestAnalyticsError;
use crate::validated_string::utf8_len;
use crate::string_table::{
    entries_distinct, is_entry, payload,
    checked_read, lemma_span_extend, string_at, string_span, table_bytes, table_insert, valid_ref,
    well_formed_table,
};
use vstd::utf8::{encode_utf8, valid_utf8};
use watto::StringTable;

verus! {

/// The largest number of words the flag-set table may hold, so that its byte length fits
/// a `u32`.
pub const MAX_FLAG_WORDS: usize = 0x3fff_ffff;

/// `s` is strictly increasing.
pub open spec fn sorted_strict(s: Seq<u32>) -> bool {
    forall|i: int, j: int| 0 <= i < j < s.len() ==> s[i] < s[j]
}

/// The room that interning `flags` may take in a string table: each string's bytes and a
/// length of at most nine bytes.
pub open spec fn strings_room(flags: Seq<String>) -> int
    decreases flags.len(),
{
    if flags.len() == 0 {
        0
    } else {
        strings_room(flags.drop_last()) + utf8_len(flags.last()@) + 9
    }
}

pub proof fn lemma_strings_room_mono(flags: Seq<String>, i: int)
    requires
        0 <= i <= flags.len(),
    ensures
        0 <= strings_room(flags.subrange(0, i)) <= strings_room(flags),
    decreases flags.len(),
{
    if i < flags.len() {
        lemma_strings_room_mono(flags.drop_last(), i);
        assert(flags.drop_last().subrange(0, i) =~= flags.subrange(0, i));
    } else {
        assert(flags.subrange(0, i) =~= flags);
    }
    if flags.len() > 0 {
        lemma_strings_room_mono(flags.drop_last(), flags.len() - 1);
        assert(flags.drop_last().subrange(0, flags.len() - 1) =~= flags.drop_last());
    }
}

/// Interning strings of at most `m` bytes each takes at most `m + 9` bytes apiece.
pub proof fn lemma_room_bound(flags: Seq<String>, m: int)
    requires
        0 <= m,
        forall|i: int| 0 <= i < flags.len() ==> utf8_len(#[trigger] flags[i]@) <= m,
    ensures
        strings_room(flags) <= flags.len() * (m + 9),
    decreases flags.len(),
{
    if flags.len() > 0 {
        assert forall|i: int| 0 <= i < flags.drop_last().len() implies utf8_len(#[trigger] flags.drop_last()[i]@) <= m by {
            assert(flags.drop_last()[i] == flags[i]);
        }
        lemma_room_bound(flags.drop_last(), m);
        assert(utf8_len(flags[flags.len() - 1]@) <= m);
        assert((flags.len() - 1) * (m + 9) + m + 9 == flags.len() * (m + 9)) by (nonlinear_arith);
    }
}

/// Each entry of the table ends where the next begins, or at the end of the table.
pub proof fn lemma_entry_next(t: Seq<u32>, starts: Seq<u32>, i: int)
    requires
        entries_cover(t, starts),
        0 <= i < starts.len(),
    ensures
        starts[i] + 1 + t[starts[i] as int] == if i + 1 < starts.len() { starts[i + 1] as int } else { t.len() as int },
        i == 0 ==> starts[i] == 0,
{
    reveal(entries_cover);
    let _ = starts[i];
}

/// Inserts `x` into the strictly increasing `v` unless it is there.
fn insert_sorted(v: &mut Vec<u32>, x: u32)
    requires
        sorted_strict(old(v)@),
    ensures
        sorted_strict(final(v)@),
        forall|y: u32| final(v)@.contains(y) <==> old(v)@.contains(y) || y == x,
        final(v)@.len() <= old(v)@.len() + 1,
{
    let mut i: usize = 0;
    while i < v.len() && v[i] < x
        invariant
            i <= v@.len(),
            forall|j: int| 0 <= j < i ==> v@[j] < x,
        decreases v@.len() - i,
    {
        i = i + 1;
    }
    if i < v.len() && v[i] == x {
        proof {
            assert(v@.contains(x));
        }
        return ;
    }
    let ghost before = v@;
    v.insert(i, x);
    proof {
        assert(v@ == before.insert(i as int, x));
        assert forall|a: int, b: int| 0 <= a < b < v@.len() implies v@[a] < v@[b] by {
            if i < before.len() {
                assert(before[i as int] > x);
            }
        }
        assert forall|y: u32| v@.contains(y) <==> before.contains(y) || y == x by {
            if v@.contains(y) {
                let k = choose|k: int| 0 <= k < v@.len() && v@[k] == y;
                if k < i {
                    assert(before[k] == y);
                } else if k > i {
                    assert(before[k - 1] == y);
                }
            }
            if before.contains(y) {
                let k = choose|k: int| 0 <= k < before.len() && before[k] == y;
                if k < i {
                    assert(v@[k] == y);
                } else {
                    assert(v@[k + 1] == y);
                }
            }
            if y == x {
                assert(v@[i as int] == x);
            }
        }
    }
}

/// The offsets of `offs` in ascending order, each once.
pub fn canonical_offsets(offs: &Vec<u32>) -> (r: Vec<u32>)
    ensures
        sorted_strict(r@),
        forall|y: u32| r@.contains(y) <==> offs@.contains(y),
        r@.len() <= offs@.len(),
{
    let mut out: Vec<u32> = Vec::new();
    let mut i: usize = 0;
    while i < offs.len()
        invariant
            i <= offs@.len(),
            sorted_strict(out@),
            out@.len() <= i,
            forall|y: u32| out@.contains(y) <==> offs@.subrange(0, i as int).contains(y),
        decreases offs@.len() - i,
    {
        insert_sorted(&mut out, offs[i]);
        proof {
            let ghost s1 = offs@.subrange(0, i + 1);
            let ghost s0 = offs@.subrange(0, i as int);
            assert forall|y: u32| s1.contains(y) <==> s0.contains(y) || y == offs@[i as int] by {
                if s1.contains(y) {
                    let k = choose|k: int| 0 <= k < s1.len() && s1[k] == y;
                    if k < i {
                        assert(s0[k] == y);
                    }
                }
                if s0.contains(y) {
                    let k = choose|k: int| 0 <= k < s0.len() && s0[k] == y;
                    assert(s1[k] == y);
                }
                if y == offs@[i as int] {
                    assert(s1[i as int] == y);
                }
            }
        }
        i = i + 1;
    }
    proof {
        assert(offs@.subrange(0, i as int) =~= offs@);
    }
    out
}

/// The strings at the offsets `set` are, as a set, the strings of `flags`.
#[verifier::opaque]
pub open spec fn set_matches(bytes: Seq<u8>, set: Seq<u32>, flags: Seq<String>) -> bool {
    &&& forall|j: int|
        0 <= j < set.len() ==> exists|i: int|
            0 <= i < flags.len() && string_at(bytes, #[trigger] set[j] as int) == flags[i]@
    &&& forall|i: int|
        0 <= i < flags.len() ==> exists|j: int|
            0 <= j < set.len() && string_at(bytes, set[j] as int) == #[trigger] flags[i]@
}

/// Some entry of `b` holds the string `s`.
pub open spec fn held(b: Seq<u8>, s: Seq<char>) -> bool {
    exists|o: int| is_entry(b, o) && valid_ref(b, o) && #[trigger] string_at(b, o) == s
}

/// Two strictly increasing sequences with the same elements are equal.
pub proof fn lemma_sorted_same_elements(a: Seq<u32>, b: Seq<u32>)
    requires
        sorted_strict(a),
        sorted_strict(b),
        forall|y: u32| a.contains(y) <==> b.contains(y),
    ensures
        a == b,
{
    assert forall|i: int| 0 <= i < a.len() && i < b.len() implies a[i] == b[i] by {
        lemma_sorted_prefix(a, b, i);
    }
    if a.len() < b.len() {
        let l = a.len() as int;
        assert(b.contains(b[l]));
        let j = choose|j: int| 0 <= j < a.len() && a[j] == b[l];
        lemma_sorted_prefix(a, b, j);
    } else if b.len() < a.len() {
        let l = b.len() as int;
        assert(a.contains(a[l]));
        let j = choose|j: int| 0 <= j < b.len() && b[j] == a[l];
        lemma_sorted_prefix(a, b, j);
    }
    assert(a =~= b);
}

proof fn lemma_sorted_prefix(a: Seq<u32>, b: Seq<u32>, i: int)
    requires
        sorted_strict(a),
        sorted_strict(b),
        forall|y: u32| a.contains(y) <==> b.contains(y),
        0 <= i < a.len(),
        i < b.len(),
    ensures
        a[i] == b[i],
    decreases i,
{
    if i > 0 {
        lemma_sorted_prefix(a, b, i - 1);
    }
    assert(a.contains(a[i]));
    let j = choose|j: int| 0 <= j < b.len() && b[j] == a[i];
    if j < i {
        lemma_sorted_prefix(a, b, j);
    }
    assert(b.contains(b[i]));
    let j2 = choose|j2: int| 0 <= j2 < a.len() && a[j2] == b[i];
    if j2 < i {
        lemma_sorted_prefix(a, b, j2);
    }
}

/// The strings that the offsets `set` name in `b`, in order.
pub open spec fn names(b: Seq<u8>, set: Seq<u32>) -> Seq<Seq<char>> {
    set.map_values(|o: u32| string_at(b, o as int))
}

/// The characters of each of `flags`.
pub open spec fn flag_chars(flags: Seq<String>) -> Seq<Seq<char>> {
    flags.map_values(|f: String| f@)
}

/// The sets at `s1` of `b1` and at `s0` of `b0` name the same strings.
pub open spec fn same_names(b1: Seq<u8>, s1: Seq<u32>, b0: Seq<u8>, s0: Seq<u32>) -> bool {
    names(b1, s1).to_set() == names(b0, s0).to_set()
}

/// A set that matches `flags` names exactly their strings.
pub proof fn lemma_matches_names(b: Seq<u8>, set: Seq<u32>, flags: Seq<String>)
    requires
        set_matches(b, set, flags),
    ensures
        names(b, set).to_set() == flag_chars(flags).to_set(),
{
    reveal(set_matches);
    let a = names(b, set);
    let c = flag_chars(flags);
    assert forall|x: Seq<char>| a.to_set().contains(x) implies c.to_set().contains(x) by {
        assert(a.contains(x));
        let j = choose|j: int| 0 <= j < a.len() && a[j] == x;
        assert(a[j] == string_at(b, set[j] as int));
        let i = choose|i: int| 0 <= i < flags.len() && string_at(b, #[trigger] set[j] as int) == flags[i]@;
        assert(c[i] == x);
        assert(c.contains(x));
    }
    assert forall|x: Seq<char>| c.to_set().contains(x) implies a.to_set().contains(x) by {
        assert(c.contains(x));
        let i = choose|i: int| 0 <= i < c.len() && c[i] == x;
        assert(c[i] == flags[i]@);
        let j = choose|j: int| 0 <= j < set.len() && string_at(b, set[j] as int) == #[trigger] flags[i]@;
        assert(a[j] == x);
        assert(a.contains(x));
    }
    assert(a.to_set() =~= c.to_set());
}

/// The strings a set names stay the same when the table grows, as long as they read.
pub proof fn lemma_names_extend(b0: Seq<u8>, b1: Seq<u8>, set: Seq<u32>)
    requires
        b0.is_prefix_of(b1),
        forall|j: int| 0 <= j < set.len() ==> valid_ref(b0, #[trigger] set[j] as int),
    ensures
        names(b1, set) == names(b0, set),
{
    let ext = b1.subrange(b0.len() as int, b1.len() as int);
    assert(b1 =~= b0 + ext);
    assert forall|j: int| 0 <= j < set.len() implies names(b1, set)[j] == names(b0, set)[j] by {
        lemma_span_extend(b0, ext, set[j] as int);
    }
    assert(names(b1, set) =~= names(b0, set));
}

/// The sets of a well-formed table name strings that read.
pub proof fn lemma_set_refs(f: FlagsSet, b: Seq<u8>, o: u32)
    requires
        f.refs_valid(b),
        f.has_set(o),
    ensures
        forall|j: int| 0 <= j < f.set_at(o).len() ==> valid_ref(b, #[trigger] f.set_at(o)[j] as int),
{
    let a = choose|a: int| 0 <= a < f.offsets().len() && f.offsets()[a] == o;
    assert forall|j: int| 0 <= j < f.set_at(o).len() implies valid_ref(b, #[trigger] f.set_at(o)[j] as int) by {
        assert(f.set_at(f.offsets()[a]) == f.set_at(o));
    }
}

/// The offsets of the entry that starts at word `start` of `t`.
pub open spec fn entry_of(t: Seq<u32>, start: int) -> Seq<u32> {
    t.subrange(start + 1, start + 1 + t[start] as int)
}

/// `starts` lists, in order, the first word of each entry of `t`, an entry being a count
/// followed by that many offsets, and the entries cover `t` exactly.
#[verifier::opaque]
pub open spec fn entries_cover(t: Seq<u32>, starts: Seq<u32>) -> bool {
    &&& starts.len() == 0 ==> t.len() == 0
    &&& starts.len() > 0 ==> starts[0] == 0
    &&& forall|i: int|
        #![trigger starts[i]]
        0 <= i < starts.len() ==> {
            let s = starts[i] as int;
            &&& s < t.len()
            &&& s + 1 + t[s] as int == if i + 1 < starts.len() {
                starts[i + 1] as int
            } else {
                t.len() as int
            }
        }
}

/// Each listed entry lies inside the table.
pub proof fn lemma_entry_inside(t: Seq<u32>, starts: Seq<u32>, i: int)
    requires
        entries_cover(t, starts),
        0 <= i < starts.len(),
    ensures
        starts[i] < t.len(),
        starts[i] + 1 + t[starts[i] as int] <= t.len(),
{
    reveal(entries_cover);
    let _ = starts[i];
    if i + 1 < starts.len() {
        lemma_starts_below(t, starts, i + 1);
    }
}

proof fn lemma_starts_below(t: Seq<u32>, starts: Seq<u32>, i: int)
    requires
        entries_cover(t, starts),
        0 <= i < starts.len(),
    ensures
        starts[i] < t.len(),
{
    reveal(entries_cover);
    let _ = starts[i];
}

/// The interned flag sets: a table of words in which each set is a count followed by the
/// string offsets of its flags, in ascending order.
pub struct FlagsSet {
    table: Vec<u32>,
    starts: Vec<u32>,
}

impl FlagsSet {
    /// The words of the table.
    pub closed spec fn words(&self) -> Seq<u32> {
        self.table@
    }

    /// The offset of each set, in the order of the table.
    pub closed spec fn offsets(&self) -> Seq<u32> {
        self.starts@
    }

    /// The table is a run of entries that [`Self::offsets`] lists, and it fits its bound.
    pub open spec fn wf(&self) -> bool {
        &&& entries_cover(self.words(), self.offsets())
        &&& self.words().len() <= MAX_FLAG_WORDS
    }

    /// No two sets hold the same offsets.
    pub open spec fn sets_distinct(&self) -> bool {
        forall|o1: u32, o2: u32|
            #![trigger self.has_set(o1), self.has_set(o2)]
            self.has_set(o1) && self.has_set(o2) && self.set_at(o1) == self.set_at(o2) ==> o1 == o2
    }

    /// Every set holds its offsets in ascending order, each once.
    pub open spec fn sets_canonical(&self) -> bool {
        forall|o: u32| #[trigger] self.has_set(o) ==> sorted_strict(self.set_at(o))
    }

    /// Every offset of every set is where an entry of `b` starts.
    pub open spec fn sets_in(&self, b: Seq<u8>) -> bool {
        forall|o: u32, j: int| self.has_set(o) && 0 <= j < self.set_at(o).len() ==> is_entry(b, #[trigger] self.set_at(o)[j] as int)
    }

    /// `o` is the offset of a set.
    pub open spec fn has_set(&self, o: u32) -> bool {
        self.offsets().contains(o)
    }

    /// The string offsets of the set at `o`.
    pub open spec fn set_at(&self, o: u32) -> Seq<u32> {
        entry_of(self.words(), o as int)
    }

    /// Every string offset of every set names a string of `bytes`.
    pub open spec fn refs_valid(&self, bytes: Seq<u8>) -> bool {
        forall|i: int, j: int|
            0 <= i < self.offsets().len() && 0 <= j < self.set_at(self.offsets()[i]).len()
                ==> valid_ref(bytes, #[trigger] self.set_at(self.offsets()[i])[j] as int)
    }

    /// A table that holds only the empty set, at offset 0.
    pub fn new() -> (r: FlagsSet)
        ensures
            r.wf(),
            r.words() == seq![0u32],
            r.offsets() == seq![0u32],
    {
        let mut table: Vec<u32> = Vec::new();
        table.push(0);
        let mut starts: Vec<u32> = Vec::new();
        starts.push(0);
        let r = FlagsSet { table, starts };
        proof {
            reveal(entries_cover);
            assert(r.words() =~= seq![0u32]);
            assert(r.offsets() =~= seq![0u32]);
        }
        r
    }

    /// The number of words in the table.
    pub fn num_words(&self) -> (r: usize)
        ensures
            r == self.words().len(),
    {
        self.table.len()
    }

    /// A copy of this table.
    pub fn duplicate(&self) -> (r: FlagsSet)
        ensures
            r.words() == self.words(),
            r.offsets() == self.offsets(),
    {
        let mut table: Vec<u32> = Vec::new();
        let mut i: usize = 0;
        while i < self.table.len()
            invariant
                i <= self.table@.len(),
                table@ == self.table@.subrange(0, i as int),
            decreases self.table@.len() - i,
        {
            table.push(self.table[i]);
            proof {
                assert(table@ =~= self.table@.subrange(0, i + 1));
            }
            i = i + 1;
        }
        let mut starts: Vec<u32> = Vec::new();
        let mut j: usize = 0;
        while j < self.starts.len()
            invariant
                j <= self.starts@.len(),
                starts@ == self.starts@.subrange(0, j as int),
            decreases self.starts@.len() - j,
        {
            starts.push(self.starts[j]);
            proof {
                assert(starts@ =~= self.starts@.subrange(0, j + 1));
            }
            j = j + 1;
        }
        proof {
            assert(table@ =~= self.table@);
            assert(starts@ =~= self.starts@);
        }
        FlagsSet { table, starts }
    }

    /// Whether every string offset of every set names a string of `bytes`.
    pub fn check_refs(&self, bytes: &[u8]) -> (r: bool)
        requires
            self.wf(),
        ensures
            r == self.refs_valid(bytes@),
    {
        let n = self.starts.len();
        let mut i: usize = 0;
        while i < n
            invariant
                self.wf(),
                n == self.offsets().len(),
                i <= n,
                forall|a: int, j: int|
                    0 <= a < i && 0 <= j < self.set_at(self.offsets()[a]).len()
                        ==> valid_ref(bytes@, #[trigger] self.set_at(self.offsets()[a])[j] as int),
            decreases n - i,
        {
            let s = self.starts[i] as usize;
            proof {
                lemma_entry_inside(self.words(), self.offsets(), i as int);
            }
            let count = self.table[s] as usize;
            let mut j: usize = 0;
            while j < count
                invariant
                    self.wf(),
                    i < n,
                    n == self.offsets().len(),
                    s == self.offsets()[i as int],
                    s + 1 + count <= self.words().len(),
                    self.words().len() <= MAX_FLAG_WORDS,
                    count == self.set_at(s as u32).len(),
                    count == self.words()[s as int],
                    j <= count,
                    forall|a: int, q: int|
                        0 <= a < i && 0 <= q < self.set_at(self.offsets()[a]).len()
                            ==> valid_ref(bytes@, #[trigger] self.set_at(self.offsets()[a])[q] as int),
                    forall|q: int| 0 <= q < j ==> valid_ref(bytes@, #[trigger] self.set_at(s as u32)[q] as int),
                decreases count - j,
            {
                let o = self.table[s + 1 + j];
                proof {
                    assert(o == self.set_at(s as u32)[j as int]);
                }
                if checked_read(bytes, o as usize).is_none() {
                    return false;
                }
                j = j + 1;
            }
            i = i + 1;
        }
        true
    }

    /// Whether `o` is the offset of a set.
    pub fn contains_set(&self, o: u32) -> (r: bool)
        ensures
            r == self.has_set(o),
    {
        let n = self.starts.len();
        let mut i: usize = 0;
        while i < n
            invariant
                n == self.offsets().len(),
                i <= n,
                forall|j: int| 0 <= j < i ==> #[trigger] self.offsets()[j] != o,
            decreases n - i,
        {
            if self.starts[i] == o {
                proof {
                    assert(self.offsets()[i as int] == o);
                }
                return true;
            }
            i = i + 1;
        }
        false
    }

    /// Word `i` of the table.
    pub fn word_at(&self, i: usize) -> (r: u32)
        requires
            i < self.words().len(),
        ensures
            r == self.words()[i as int],
    {
        self.table[i]
    }

    /// The number of sets.
    pub fn num_sets(&self) -> (r: usize)
        ensures
            r == self.offsets().len(),
    {
        self.starts.len()
    }

    /// The offset of the `i`-th set.
    pub fn offset_at(&self, i: usize) -> (r: u32)
        requires
            i < self.offsets().len(),
        ensures
            r == self.offsets()[i as int],
    {
        self.starts[i]
    }

    /// Reads a table, finding where its sets start; fails with `InvalidFormat` where the
    /// words are not a run of entries.
    pub fn load(words: Vec<u32>) -> (r: Result<FlagsSet, TestAnalyticsError>)
        ensures
            r is Ok <==> words@.len() <= MAX_FLAG_WORDS && exists|s: Seq<u32>|
                entries_cover(words@, s),
            r matches Ok(f) ==> f.wf() && f.words() == words@,
            r matches Err(e) ==> e == TestAnalyticsError::InvalidFormat,
    {
        reveal(entries_cover);
        let len = words.len();
        if len > MAX_FLAG_WORDS {
            return Err(TestAnalyticsError::InvalidFormat);
        }
        let mut starts: Vec<u32> = Vec::new();
        let mut pos: usize = 0;
        while pos < len
            invariant
                len == words@.len(),
                len <= MAX_FLAG_WORDS,
                pos <= len,
                starts@.len() == 0 ==> pos == 0,
                starts@.len() > 0 ==> starts@[0] == 0,
                forall|i: int|
                    #![trigger starts@[i]]
                    0 <= i < starts@.len() ==> {
                        let s = starts@[i] as int;
                        &&& s < len
                        &&& s + 1 + words@[s] as int == if i + 1 < starts@.len() {
                            starts@[i + 1] as int
                        } else {
                            pos as int
                        }
                    },
                forall|s: Seq<u32>| #[trigger]
                    entries_cover(words@, s) ==> s.subrange(0, starts@.len() as int)
                        == starts@ && (pos < len ==> s.len() > starts@.len() && s[starts@.len() as int] == pos),
            decreases len - pos,
        {
            let count = words[pos];
            let ghost old_starts = starts@;
            if count as usize >= len - pos {
                proof {
                    reveal(entries_cover);
                    assert forall|s: Seq<u32>| !entries_cover(words@, s) by {
                        if entries_cover(words@, s) {
                            let k = old_starts.len() as int;
                            assert(s.subrange(0, k) == old_starts);
                            assert(s[k] == pos);
                            assert(s[k] as int + 1 + words@[pos as int] as int > len);
                            if k + 1 < s.len() {
                                assert(s[k + 1] <= len) by {
                                    assert(s[k + 1] < len);
                                }
                            }
                        }
                    }
                }
                return Err(TestAnalyticsError::InvalidFormat);
            }
            starts.push(pos as u32);
            proof {
                reveal(entries_cover);
                assert forall|s: Seq<u32>| #[trigger]
                    entries_cover(words@, s) implies s.subrange(0, starts@.len() as int)
                        == starts@ && (pos + 1 + count < len ==> s.len() > starts@.len() && s[starts@.len() as int] == pos + 1 + count) by {
                    let k = old_starts.len() as int;
                    assert(s.subrange(0, k) == old_starts);
                    assert(s[k] == pos);
                    assert(s.subrange(0, k + 1) =~= starts@) by {
                        assert forall|i: int| 0 <= i < k implies s[i] == old_starts[i] by {
                            assert(s.subrange(0, k)[i] == s[i]);
                        }
                    }
                    if pos + 1 + count < len {
                        if k + 1 >= s.len() {
                            assert(s[k] as int + 1 + words@[s[k] as int] as int == len);
                        }
                    }
                }
            }
            pos = pos + 1 + count as usize;
        }
        let r = FlagsSet { table: words, starts };
        proof {
            assert(entries_cover(r.words(), r.offsets()));
        }
        Ok(r)
    }

    /// The offset of the set whose offsets are `canon`, if there is one.
    pub fn find_set(&self, canon: &Vec<u32>) -> (r: Option<u32>)
        requires
            self.wf(),
        ensures
            r matches Some(o) ==> self.has_set(o) && self.set_at(o) == canon@,
            r is None ==> forall|o: u32| self.has_set(o) ==> self.set_at(o) != canon@,
    {
        let n = self.starts.len();
        let mut i: usize = 0;
        while i < n
            invariant
                self.wf(),
                n == self.offsets().len(),
                i <= n,
                forall|j: int| 0 <= j < i ==> self.set_at(#[trigger] self.offsets()[j]) != canon@,
            decreases n - i,
        {
            let s = self.starts[i];
            proof {
                lemma_entry_inside(self.words(), self.offsets(), i as int);
            }
            let count = self.table[s as usize];
            if count as usize == canon.len() {
                let mut j: usize = 0;
                let mut same = true;
                while j < canon.len()
                    invariant
                        s + 1 + count <= self.words().len(),
                        self.words().len() <= MAX_FLAG_WORDS,
                        count == self.words()[s as int],
                        count == canon@.len(),
                        j <= canon@.len(),
                        same ==> forall|q: int| 0 <= q < j ==> self.words()[s + 1 + q] == canon@[q],
                        !same ==> self.set_at(s) != canon@,
                    decreases canon@.len() - j,
                {
                    if self.table[s as usize + 1 + j] != canon[j] {
                        proof {
                            assert(self.set_at(s)[j as int] != canon@[j as int]);
                        }
                        same = false;
                    }
                    j = j + 1;
                }
                if same {
                    proof {
                        assert(self.set_at(s) =~= canon@);
                        assert(self.offsets().contains(s));
                    }
                    return Some(s);
                }
            }
            i = i + 1;
        }
        proof {
            assert forall|o: u32| self.has_set(o) implies self.set_at(o) != canon@ by {
                let j = choose|j: int| 0 <= j < n && self.offsets()[j] == o;
                assert(self.set_at(self.offsets()[j]) != canon@);
            }
        }
        None
    }

    /// Finds the set whose offsets are `canon`, or adds it at the end; gives its offset.
    #[verifier::rlimit(40)]
    pub fn insert_offsets(&mut self, canon: &Vec<u32>) -> (r: u32)
        requires
            old(self).wf(),
            old(self).words().len() + 1 + canon@.len() <= MAX_FLAG_WORDS,
        ensures
            final(self).wf(),
            final(self).has_set(r),
            final(self).set_at(r) == canon@,
            old(self).words().is_prefix_of(final(self).words()),
            old(self).offsets().is_prefix_of(final(self).offsets()),
            forall|o: u32| old(self).has_set(o) ==> final(self).set_at(o) == old(self).set_at(o),
            (exists|o: u32| old(self).has_set(o) && old(self).set_at(o) == canon@)
                ==> final(self).words() == old(self).words() && final(self).offsets() == old(self).offsets(),
            final(self).words().len() <= old(self).words().len() + 1 + canon@.len(),
            forall|o: u32| #[trigger] final(self).has_set(o) ==> old(self).has_set(o) || final(self).set_at(o) == canon@,
            (exists|o: u32| old(self).has_set(o) && old(self).set_at(o) == canon@) ==> old(self).has_set(r),
            forall|o: u32| #[trigger] final(self).has_set(o) ==> old(self).has_set(o) || o == r,
            old(self).sets_distinct() ==> final(self).sets_distinct(),
    {
        match self.find_set(canon) {
            Some(s) => {
                return s;
            },
            None => {},
        }
        proof {
            reveal(entries_cover);
        }
        let start = self.table.len();
        let ghost old_words = self.words();
        let ghost old_starts = self.offsets();
        self.starts.push(start as u32);
        self.table.push(canon.len() as u32);
        let mut j: usize = 0;
        while j < canon.len()
            invariant
                self.table@.len() == start + 1 + j,
                self.table@.subrange(0, start as int) == old_words,
                self.table@[start as int] == canon@.len(),
                j <= canon@.len(),
                start == old_words.len(),
                start + 1 + canon@.len() <= MAX_FLAG_WORDS,
                forall|q: int| 0 <= q < j ==> self.table@[start + 1 + q] == canon@[q],
                self.starts@ == old_starts.push(start as u32),
            decreases canon@.len() - j,
        {
            self.table.push(canon[j]);
            proof {
                assert(self.table@.subrange(0, start as int) =~= old_words);
            }
            j = j + 1;
        }
        proof {
            assert(self.set_at(start as u32) =~= canon@);
            assert(old_words.is_prefix_of(self.words()));
            assert(old_starts.is_prefix_of(self.offsets()));
            assert(self.offsets()[old_starts.len() as int] == start as u32);
            assert forall|i: int|
                #![trigger self.offsets()[i]]
                0 <= i < self.offsets().len() implies {
                    let s = self.offsets()[i] as int;
                    &&& s < self.words().len()
                    &&& s + 1 + self.words()[s] as int == if i + 1 < self.offsets().len() {
                        self.offsets()[i + 1] as int
                    } else {
                        self.words().len() as int
                    }
                } by {
                if i < old_starts.len() {
                    assert(self.offsets()[i] == old_starts[i]);
                    let s = old_starts[i] as int;
                    assert(s < old_words.len());
                    assert(self.words()[s] == old_words[s]);
                    if i + 1 < old_starts.len() {
                        assert(old_starts[i + 1] == self.offsets()[i + 1]);
                    }
                }
            }
            assert forall|o: u32| old(self).has_set(o) implies self.set_at(o) == old(self).set_at(o) by {
                let i = choose|i: int| 0 <= i < old_starts.len() && old_starts[i] == o;
                let s = o as int;
                assert(s + 1 + old_words[s] as int <= old_words.len());
                assert(self.words()[s] == old_words[s]);
                assert(self.set_at(o) =~= old(self).set_at(o));
            }
            assert forall|o: u32| #[trigger] self.has_set(o) implies old(self).has_set(o) || self.set_at(o) == canon@ by {
                let i = choose|i: int| 0 <= i < self.offsets().len() && self.offsets()[i] == o;
                if i < old_starts.len() {
                    assert(old_starts[i] == o);
                }
            }
        }
        start as u32
    }

    /// The flags of the set at `offset`, read from `bytes`.
    pub fn resolve(&self, bytes: &[u8], offset: u32) -> (r: Result<Vec<String>, TestAnalyticsError>)
        requires
            self.wf(),
        ensures
            !self.has_set(offset) ==> r == Err::<Vec<String>, _>(TestAnalyticsError::InvalidFlagSetReference),
            self.has_set(offset) ==> ((forall|j: int| 0 <= j < self.set_at(offset).len() ==> valid_ref(bytes@, #[trigger] self.set_at(offset)[j] as int)) <==> r is Ok),
            self.has_set(offset) && r is Err ==> r == Err::<Vec<String>, _>(TestAnalyticsError::InvalidStringReference),
            r matches Ok(v) ==> v@.len() == self.set_at(offset).len() && forall|j: int| 0 <= j < v@.len() ==> #[trigger] v@[j]@ == string_at(bytes@, self.set_at(offset)[j] as int),
    {
        let n = self.starts.len();
        let mut i: usize = 0;
        while i < n
            invariant
                self.wf(),
                n == self.offsets().len(),
                i <= n,
                forall|j: int| 0 <= j < i ==> #[trigger] self.offsets()[j] != offset,
            decreases n - i,
        {
            if self.starts[i] == offset {
                return self.read_set(bytes, i);
            }
            i = i + 1;
        }
        Err(TestAnalyticsError::InvalidFlagSetReference)
    }

    fn read_set(&self, bytes: &[u8], i: usize) -> (r: Result<Vec<String>, TestAnalyticsError>)
        requires
            self.wf(),
            i < self.offsets().len(),
        ensures
            ({
                let offset = self.offsets()[i as int];
                &&& (forall|j: int| 0 <= j < self.set_at(offset).len() ==> valid_ref(bytes@, #[trigger] self.set_at(offset)[j] as int)) <==> r is Ok
                &&& r is Err ==> r == Err::<Vec<String>, _>(TestAnalyticsError::InvalidStringReference)
                &&& r matches Ok(v) ==> v@.len() == self.set_at(offset).len() && forall|j: int| 0 <= j < v@.len() ==> #[trigger] v@[j]@ == string_at(bytes@, self.set_at(offset)[j] as int)
            }),
    {
        let offset = self.starts[i];
        let s = offset as usize;
        proof {
            lemma_entry_inside(self.words(), self.offsets(), i as int);
        }
        let count = self.table[s] as usize;
        let mut out: Vec<String> = Vec::new();
        let mut j: usize = 0;
        while j < count
            invariant
                s + 1 + count <= self.words().len(),
                self.words().len() <= MAX_FLAG_WORDS,
                i < self.offsets().len(),
                self.offsets()[i as int] == offset,
                s == offset,
                count == self.words()[s as int],
                count == self.set_at(offset).len(),
                j <= count,
                out@.len() == j,
                forall|q: int| 0 <= q < j ==> valid_ref(bytes@, #[trigger] self.set_at(offset)[q] as int),
                forall|q: int| 0 <= q < j ==> #[trigger] out@[q]@ == string_at(bytes@, self.set_at(offset)[q] as int),
            decreases count - j,
        {
            let o = self.table[s + 1 + j];
            proof {
                assert(o == self.set_at(offset)[j as int]);
            }
            match checked_read(bytes, o as usize) {
                Some(st) => {
                    out.push(st);
                },
                None => {
                    proof {
                        assert(!valid_ref(bytes@, self.set_at(offset)[j as int] as int));
                        assert(!(forall|q: int| 0 <= q < self.set_at(offset).len() ==> valid_ref(bytes@, #[trigger] self.set_at(offset)[q] as int)));
                    }
                    return Err(TestAnalyticsError::InvalidStringReference);
                },
            }
            j = j + 1;
        }
        Ok(out)
    }
}

/// Interns each of `flags` into `strings`, giving their offsets in order.
fn intern_all(strings: &mut StringTable, flags: &Vec<String>) -> (offs: Vec<u32>)
    requires
        well_formed_table(table_bytes(*old(strings))),
        table_bytes(*old(strings)).len() + strings_room(flags@) <= u32::MAX,
    ensures
        offs@.len() == flags@.len(),
        well_formed_table(table_bytes(*final(strings))),
        table_bytes(*old(strings)).is_prefix_of(table_bytes(*final(strings))),
        table_bytes(*final(strings)).len() <= table_bytes(*old(strings)).len() + strings_room(flags@),
        forall|q: int| 0 <= q < flags@.len() ==> valid_ref(table_bytes(*final(strings)), #[trigger] offs@[q] as int)
            && string_at(table_bytes(*final(strings)), offs@[q] as int) == flags@[q]@,
        forall|o: int| is_entry(table_bytes(*old(strings)), o) ==> #[trigger] is_entry(table_bytes(*final(strings)), o),
        entries_distinct(table_bytes(*old(strings))) ==> entries_distinct(table_bytes(*final(strings))),
        forall|q: int| 0 <= q < flags@.len() ==> is_entry(table_bytes(*final(strings)), #[trigger] offs@[q] as int),
        entries_distinct(table_bytes(*old(strings))) ==> forall|q: int, o: int|
            #![trigger offs@[q], string_at(table_bytes(*old(strings)), o)]
            0 <= q < flags@.len() && is_entry(table_bytes(*old(strings)), o) && valid_ref(table_bytes(*old(strings)), o)
                && string_at(table_bytes(*old(strings)), o) == flags@[q]@ ==> offs@[q] == o,
        entries_distinct(table_bytes(*old(strings))) && (forall|q: int| 0 <= q < flags@.len() ==> #[trigger] held(table_bytes(*old(strings)), flags@[q]@))
            ==> table_bytes(*final(strings)) == table_bytes(*old(strings)),
{
        let ghost b0 = table_bytes(*strings);
        let mut offs: Vec<u32> = Vec::new();
        let mut i: usize = 0;
        while i < flags.len()
            invariant
                i <= flags@.len(),
                offs@.len() == i,
                well_formed_table(table_bytes(*strings)),
                b0.is_prefix_of(table_bytes(*strings)),
                table_bytes(*strings).len() <= b0.len() + strings_room(flags@.subrange(0, i as int)),
                b0.len() + strings_room(flags@) <= u32::MAX,
                forall|o: int| is_entry(b0, o) ==> #[trigger] is_entry(table_bytes(*strings), o),
                entries_distinct(b0) ==> entries_distinct(table_bytes(*strings)),
                forall|q: int| 0 <= q < i ==> is_entry(table_bytes(*strings), #[trigger] offs@[q] as int),
                entries_distinct(b0) ==> forall|q: int, o: int|
                    #![trigger offs@[q], string_at(b0, o)]
                    0 <= q < i && is_entry(b0, o) && valid_ref(b0, o) && string_at(b0, o) == flags@[q]@ ==> offs@[q] == o,
                entries_distinct(b0) && (forall|q: int| 0 <= q < flags@.len() ==> #[trigger] held(b0, flags@[q]@))
                    ==> table_bytes(*strings) == b0,
                forall|q: int| 0 <= q < i ==> valid_ref(table_bytes(*strings), #[trigger] offs@[q] as int)
                    && string_at(table_bytes(*strings), offs@[q] as int) == flags@[q]@
                    && (offs@[q] as int) < table_bytes(*strings).len(),
            decreases flags@.len() - i,
        {
            proof {
                lemma_strings_room_mono(flags@, i + 1);
                assert(flags@.subrange(0, i + 1).drop_last() =~= flags@.subrange(0, i as int));
            }
            let ghost before = table_bytes(*strings);
            let o = table_insert(strings, flags[i].as_str());
            proof {
                let after = table_bytes(*strings);
                assert(after =~= before + after.subrange(before.len() as int, after.len() as int));
                assert forall|q: int| 0 <= q < i implies valid_ref(after, #[trigger] offs@[q] as int)
                    && string_at(after, offs@[q] as int) == flags@[q]@
                    && (offs@[q] as int) < after.len() by {
                    lemma_span_extend(before, after.subrange(before.len() as int, after.len() as int), offs@[q] as int);
                }
                crate::string_table::lemma_span_after(after, o as int);
                let (a, e) = string_span(after, o as int)->Some_0;
                vstd::utf8::encode_utf8_valid_utf8(flags@[i as int]@);
                vstd::utf8::encode_utf8_decode_utf8(flags@[i as int]@);
                assert(valid_utf8(encode_utf8(flags@[i as int]@)));
                assert(b0.is_prefix_of(after)) by {
                    assert(after.subrange(0, b0.len() as int) =~= before.subrange(0, b0.len() as int));
                }
                crate::string_table::lemma_intern_entries(before, after, o as int, encode_utf8(flags@[i as int]@));
                assert forall|q: int| 0 <= q < i implies is_entry(after, #[trigger] offs@[q] as int) by {}
                if entries_distinct(b0) {
                    let ext = before.subrange(b0.len() as int, before.len() as int);
                    assert(before =~= b0 + ext);
                    assert forall|o2: int| is_entry(b0, o2) && valid_ref(b0, o2) && string_at(b0, o2) == flags@[i as int]@ implies o == o2 by {
                        lemma_span_extend(b0, ext, o2);
                        crate::string_table::lemma_intern_reuses(before, after, o as int, o2, flags@[i as int]@);
                    }
                    if forall|q: int| 0 <= q < flags@.len() ==> #[trigger] held(b0, flags@[q]@) {
                        assert(held(b0, flags@[i as int]@));
                        let o2 = choose|o2: int| is_entry(b0, o2) && valid_ref(b0, o2) && #[trigger] string_at(b0, o2) == flags@[i as int]@;
                        crate::string_table::lemma_intern_reuses(before, after, o as int, o2, flags@[i as int]@);
                    }
                }
            }
            offs.push(o as u32);
            i = i + 1;
        }
        proof {
            assert(flags@.subrange(0, i as int) =~= flags@);
        }
        offs
}

/// Valid references stay valid when the string table grows and the flag-set table gains
/// sets whose references are valid.
pub proof fn lemma_refs_extend(f0: FlagsSet, f1: FlagsSet, b0: Seq<u8>, b1: Seq<u8>, canon: Seq<u32>)
    requires
        f0.refs_valid(b0),
        b0.is_prefix_of(b1),
        forall|o: u32| #[trigger] f1.has_set(o) ==> f0.has_set(o) || f1.set_at(o) == canon,
        forall|o: u32| f0.has_set(o) ==> f1.set_at(o) == f0.set_at(o),
        forall|j: int| 0 <= j < canon.len() ==> valid_ref(b1, #[trigger] canon[j] as int),
    ensures
        f1.refs_valid(b1),
{
    assert(b1 =~= b0 + b1.subrange(b0.len() as int, b1.len() as int));
    assert forall|k: int, j: int|
        0 <= k < f1.offsets().len() && 0 <= j < f1.set_at(f1.offsets()[k]).len()
            implies valid_ref(b1, #[trigger] f1.set_at(f1.offsets()[k])[j] as int) by {
        let o = f1.offsets()[k];
        assert(f1.has_set(o));
        if f0.has_set(o) {
            let k0 = choose|k0: int| 0 <= k0 < f0.offsets().len() && f0.offsets()[k0] == o;
            assert(valid_ref(b0, f0.set_at(f0.offsets()[k0])[j] as int));
            lemma_span_extend(b0, b1.subrange(b0.len() as int, b1.len() as int), f1.set_at(o)[j] as int);
        }
    }
}

/// When the flags name exactly the strings of a stored set, all of them are held, and
/// interning them gives back exactly that set's offsets.
proof fn lemma_reinterned_set(b0: Seq<u8>, set: Seq<u32>, flags: Seq<String>, offs: Seq<u32>, canon: Seq<u32>)
    requires
        entries_distinct(b0),
        forall|j: int| 0 <= j < set.len() ==> is_entry(b0, #[trigger] set[j] as int) && valid_ref(b0, set[j] as int),
        sorted_strict(set),
        names(b0, set).to_set() == flag_chars(flags).to_set(),
        offs.len() == flags.len(),
        forall|q: int, o: int|
            #![trigger offs[q], string_at(b0, o)]
            0 <= q < flags.len() && is_entry(b0, o) && valid_ref(b0, o) && string_at(b0, o) == flags[q]@ ==> offs[q] == o,
        sorted_strict(canon),
        forall|y: u32| canon.contains(y) <==> offs.contains(y),
    ensures
        forall|q: int| 0 <= q < flags.len() ==> #[trigger] held(b0, flags[q]@),
        canon == set,
{
    let a = names(b0, set);
    let c = flag_chars(flags);
    assert forall|q: int| 0 <= q < flags.len() implies #[trigger] held(b0, flags[q]@) && set.contains(offs[q]) by {
        assert(c[q] == flags[q]@);
        assert(c.contains(c[q]));
        assert(c.to_set().contains(c[q]));
        assert(a.contains(c[q]));
        let j = choose|j: int| 0 <= j < a.len() && a[j] == c[q];
        assert(string_at(b0, set[j] as int) == flags[q]@);
        assert(offs[q] == set[j]);
    }
    assert forall|j: int| 0 <= j < set.len() implies offs.contains(set[j]) by {
        assert(a[j] == string_at(b0, set[j] as int));
        assert(a.contains(a[j]));
        assert(a.to_set().contains(a[j]));
        assert(c.contains(a[j]));
        let q = choose|q: int| 0 <= q < c.len() && c[q] == a[j];
        assert(offs[q] == set[j]);
    }
    assert forall|y: u32| canon.contains(y) <==> set.contains(y) by {
        if offs.contains(y) {
            let q = choose|q: int| 0 <= q < offs.len() && offs[q] == y;
            assert(held(b0, flags[q]@));
            assert(set.contains(offs[q]));
        }
        if set.contains(y) {
            let j = choose|j: int| 0 <= j < set.len() && set[j] == y;
            assert(offs.contains(set[j]));
        }
    }
    lemma_sorted_same_elements(canon, set);
}

impl FlagsSet {
    /// Interns each of `flags` into `strings` and the set of them into this table; gives
    /// the set's offset. Sets that hold the same flags, in any order, share an offset.
    pub fn insert(&mut self, strings: &mut StringTable, flags: &Vec<String>) -> (r: u32)
        requires
            old(self).wf(),
            old(self).refs_valid(table_bytes(*old(strings))),
            well_formed_table(table_bytes(*old(strings))),
            table_bytes(*old(strings)).len() + strings_room(flags@) <= u32::MAX,
            old(self).words().len() + 1 + flags@.len() <= MAX_FLAG_WORDS,
        ensures
            final(self).wf(),
            well_formed_table(table_bytes(*final(strings))),
            final(self).refs_valid(table_bytes(*final(strings))),
            table_bytes(*final(strings)).len() <= table_bytes(*old(strings)).len() + strings_room(flags@),
            table_bytes(*old(strings)).is_prefix_of(table_bytes(*final(strings))),
            old(self).words().is_prefix_of(final(self).words()),
            old(self).offsets().is_prefix_of(final(self).offsets()),
            final(self).words().len() <= old(self).words().len() + 1 + flags@.len(),
            forall|o: u32| old(self).has_set(o) ==> final(self).set_at(o) == old(self).set_at(o),
            final(self).has_set(r),
            set_matches(table_bytes(*final(strings)), final(self).set_at(r), flags@),
            sorted_strict(final(self).set_at(r)),
            forall|o: int| is_entry(table_bytes(*old(strings)), o) ==> #[trigger] is_entry(table_bytes(*final(strings)), o),
            entries_distinct(table_bytes(*old(strings))) ==> entries_distinct(table_bytes(*final(strings))),
            flags@.len() == 0 && (exists|o: u32| old(self).has_set(o) && old(self).set_at(o) == Seq::<u32>::empty())
                ==> final(self).words() == old(self).words() && final(self).offsets() == old(self).offsets()
                    && table_bytes(*final(strings)) == table_bytes(*old(strings)),
            old(self).sets_distinct() ==> final(self).sets_distinct(),
            forall|o: u32| #[trigger] final(self).has_set(o) ==> old(self).has_set(o) || o == r,
            old(self).sets_canonical() ==> final(self).sets_canonical(),
            old(self).sets_in(table_bytes(*old(strings))) ==> final(self).sets_in(table_bytes(*final(strings))),
            forall|o: u32|
                entries_distinct(table_bytes(*old(strings))) && old(self).sets_distinct() && old(self).sets_canonical()
                    && old(self).sets_in(table_bytes(*old(strings))) && #[trigger] old(self).has_set(o)
                    && names(table_bytes(*old(strings)), old(self).set_at(o)).to_set() == flag_chars(flags@).to_set()
                    ==> r == o && final(self).words() == old(self).words() && final(self).offsets() == old(self).offsets()
                        && table_bytes(*final(strings)) == table_bytes(*old(strings)),
    {
        let ghost b0 = table_bytes(*strings);
        let offs = intern_all(strings, flags);
        let canon = canonical_offsets(&offs);
        let ghost b1 = table_bytes(*strings);
        proof {
            if flags@.len() == 0 {
                assert(canon@ =~= Seq::<u32>::empty());
                assert(b1 =~= b0);
            }
        }
        let ghost before_self = *self;
        proof {
            assert forall|j: int| 0 <= j < canon@.len() implies valid_ref(b1, #[trigger] canon@[j] as int) by {
                assert(canon@.contains(canon@[j]));
                assert(offs@.contains(canon@[j]));
            }
        }
        proof {
            assert forall|o: u32|
                entries_distinct(b0) && before_self.sets_distinct() && before_self.sets_canonical()
                    && before_self.sets_in(b0) && #[trigger] before_self.has_set(o)
                    && names(b0, before_self.set_at(o)).to_set() == flag_chars(flags@).to_set()
                    implies canon@ == before_self.set_at(o) && b1 == b0 by {
                lemma_set_refs(before_self, b0, o);
                lemma_reinterned_set(b0, before_self.set_at(o), flags@, offs@, canon@);
            }
        }
        let r = self.insert_offsets(&canon);
        proof {
            assert forall|o: u32| #[trigger] self.has_set(o) && before_self.sets_canonical() implies sorted_strict(self.set_at(o)) by {
                if before_self.has_set(o) {
                    assert(self.set_at(o) == before_self.set_at(o));
                }
            }
            assert forall|o: u32, j: int| self.has_set(o) && 0 <= j < self.set_at(o).len() && before_self.sets_in(b0)
                implies is_entry(b1, #[trigger] self.set_at(o)[j] as int) by {
                if before_self.has_set(o) {
                    assert(self.set_at(o) == before_self.set_at(o));
                    assert(is_entry(b0, before_self.set_at(o)[j] as int));
                } else {
                    assert(canon@.contains(canon@[j]));
                    assert(offs@.contains(canon@[j]));
                }
            }
            assert forall|o: u32|
                entries_distinct(b0) && before_self.sets_distinct() && before_self.sets_canonical()
                    && before_self.sets_in(b0) && #[trigger] before_self.has_set(o)
                    && names(b0, before_self.set_at(o)).to_set() == flag_chars(flags@).to_set()
                    implies r == o by {
                assert(before_self.has_set(r));
                assert(before_self.set_at(r) == self.set_at(r));
            }
        }
        proof {
            reveal(set_matches);
            lemma_refs_extend(before_self, *self, b0, b1, canon@);
            assert forall|j: int| 0 <= j < self.set_at(r).len() implies exists|i: int| 0 <= i < flags@.len() && string_at(b1, #[trigger] self.set_at(r)[j] as int) == flags@[i]@ by {
                assert(canon@.contains(canon@[j]));
                assert(offs@.contains(canon@[j]));
            }
            assert forall|i: int| 0 <= i < flags@.len() implies exists|j: int| 0 <= j < self.set_at(r).len() && string_at(b1, self.set_at(r)[j] as int) == #[trigger] flags@[i]@ by {
                assert(offs@.contains(offs@[i]));
                assert(canon@.contains(offs@[i]));
            }
        }
        r
    }
}

} // verus!
