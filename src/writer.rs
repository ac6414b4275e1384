use vstd::prelude::*;

use std::collections::HashMap;

use indexmap::IndexSet;
use watto::StringTable;

use crate::error::TestAnalyticsError;
use crate::flags::{
    flag_chars, names, same_names,
    lemma_refs_extend, set_matches, sorted_strict, strings_room, FlagsSet, MAX_FLAG_WORDS,
};
use crate::format::TestAnalytics;
use crate::index::{index_get, index_insert_full, index_keys, index_len, new_index};
use crate::records::{
    bucket_words, data_words, empty_bucket, header_words, key_words, push_u32, words_bytes, Header,
    TestData, TA_MAGIC, TA_VERSION,
};
use crate::string_table::{
    check_table, checked_read, entries_distinct, is_entry, lemma_intern_entries,
    lemma_intern_reuses, lemma_span_extend, new_table, string_at, table_bytes, table_from_bytes,
    table_insert, valid_ref, well_formed_table,
};
use vstd::utf8::encode_utf8;
use crate::testrun::{duration_bits, Outcome, Testrun};
use crate::timestamps::{
    adjust_selection_range, day_offset, offset_from_today, overlap_len, shift_data,
};
use crate::validated_string::utf8_len;

verus! {

broadcast use vstd::utf8::group_utf8_lib, vstd::std_specs::hash::group_hash_axioms;

/// `a + b`, wrapping around at `2^32`.
pub open spec fn wadd(a: u32, b: u32) -> u32 {
    ((a as int + b as int) % 0x1_0000_0000) as u32
}

/// `a + b`, wrapping around at `2^32`.
pub fn add_count(a: u32, b: u32) -> (r: u32)
    ensures
        r == wadd(a, b),
{
    if a as u64 + b as u64 > u32::MAX as u64 {
        (a as u64 + b as u64 - 0x1_0000_0000u64) as u32
    } else {
        a + b
    }
}

/// The ring `ring` after "today" moved on by `d` days.
pub open spec fn shift_seq(ring: Seq<TestData>, d: int) -> Seq<TestData> {
    Seq::new(ring.len(), |k: int| if k < d { empty_bucket() } else { ring[k - d] })
}

/// A ring of `n` empty buckets.
pub open spec fn empty_ring(n: nat) -> Seq<TestData> {
    Seq::new(n, |k: int| empty_bucket())
}

/// The `n` buckets of test `i`.
pub open spec fn ring_of(data: Seq<TestData>, i: int, n: int) -> Seq<TestData> {
    data.subrange(i * n, i * n + n)
}

/// A bucket `k` days back that saw a run saw it `k` days before the first bucket's run,
/// and no bucket is later than `today`.
pub open spec fn ring_aligned(r: Seq<TestData>, today: u32) -> bool {
    forall|k: int|
        0 <= k < r.len() ==> {
            &&& (#[trigger] r[k]).last_timestamp <= today
            &&& r[k].last_timestamp != 0 ==> r[k].last_timestamp + k == r[0].last_timestamp
        }
}

/// The collector of per-day test statistics.
pub struct TestAnalyticsWriter {
    num_days: usize,
    string_table: StringTable,
    flags_set: FlagsSet,
    timestamp: u32,
    tests: IndexSet<(u32, u32, u32)>,
    testdata: Vec<TestData>,
}

/// A session of inserts that share a day and a flag set.
pub struct InsertSession {
    flag_set_offset: u32,
}

impl InsertSession {
    /// The offset of the session's flag set.
    pub closed spec fn flag_set(&self) -> u32 {
        self.flag_set_offset
    }
}

impl TestAnalyticsWriter {
    /// The number of days in each ring.
    pub closed spec fn days(&self) -> nat {
        self.num_days as nat
    }

    /// The writer's "today".
    pub closed spec fn today(&self) -> u32 {
        self.timestamp
    }

    /// The test keys, in index order.
    pub closed spec fn keys(&self) -> Seq<(u32, u32, u32)> {
        index_keys(self.tests)
    }

    /// All buckets, ring after ring.
    pub closed spec fn data(&self) -> Seq<TestData> {
        self.testdata@
    }

    /// The bytes of the string table.
    pub closed spec fn strings(&self) -> Seq<u8> {
        table_bytes(self.string_table)
    }

    /// The flag-set table.
    pub closed spec fn flags(&self) -> FlagsSet {
        self.flags_set
    }

    /// Bucket `k` (days ago) of test `i`.
    pub open spec fn bucket(&self, i: int, k: int) -> TestData {
        self.data()[i * self.days() + k]
    }

    /// The ring of test `i`.
    pub open spec fn ring(&self, i: int) -> Seq<TestData> {
        ring_of(self.data(), i, self.days() as int)
    }

    /// Key `k` names a suite, a name and a flag set of the tables.
    pub open spec fn key_valid(&self, k: (u32, u32, u32)) -> bool {
        &&& valid_ref(self.strings(), k.0 as int)
        &&& valid_ref(self.strings(), k.1 as int)
        &&& self.flags().has_set(k.2)
    }

    /// The writer's invariant: one ring of `days` buckets per test, distinct keys that name
    /// entries of the tables, and sizes that fit the artifact's 32-bit fields.
    pub open spec fn wf(&self) -> bool {
        &&& 1 <= self.days() <= u32::MAX
        &&& self.data().len() == self.keys().len() * self.days()
        &&& self.keys().no_duplicates()
        &&& self.keys().len() <= u32::MAX
        &&& well_formed_table(self.strings())
        &&& self.strings().len() <= u32::MAX
        &&& self.flags().wf()
        &&& self.flags().refs_valid(self.strings())
        &&& forall|i: int| 0 <= i < self.keys().len() ==> self.key_valid(#[trigger] self.keys()[i])
    }

    /// Every ring is anchored at its first bucket, as [`ring_aligned`] says.
    pub open spec fn rings_aligned(&self) -> bool {
        forall|i: int| 0 <= i < self.keys().len() ==> ring_aligned(#[trigger] self.ring(i), self.today())
    }

    /// The string table holds each string once, the flag-set table each set once, in
    /// ascending order of entries of the string table, and every key names entries of it, as
    /// interning alone leaves the tables.
    pub open spec fn interned(&self) -> bool {
        &&& entries_distinct(self.strings())
        &&& self.flags().sets_distinct()
        &&& self.flags().sets_canonical()
        &&& self.flags().sets_in(self.strings())
        &&& forall|i: int|
            0 <= i < self.keys().len() ==> is_entry(self.strings(), #[trigger] self.keys()[i].0 as int)
                && is_entry(self.strings(), self.keys()[i].1 as int)
    }

    /// Key `k` names the suite `suite`, the name `name` and the flag set `fs`.
    pub open spec fn key_names(&self, k: (u32, u32, u32), suite: Seq<char>, name: Seq<char>, fs: u32) -> bool {
        &&& string_at(self.strings(), k.0 as int) == suite
        &&& string_at(self.strings(), k.1 as int) == name
        &&& k.2 == fs
    }

    /// A writer with rings of `num_days` days and no tests.
    pub fn new(num_days: usize) -> (r: Self)
        requires
            1 <= num_days <= u32::MAX,
        ensures
            r.wf(),
            r.rings_aligned(),
            r.days() == num_days,
            r.today() == 0,
            r.keys().len() == 0,
            r.data().len() == 0,
            r.strings() == Seq::<u8>::empty(),
            r.interned(),
            forall|o: u32| #[trigger] r.flags().has_set(o) ==> o == 0,
            r.flags().words() == seq![0u32],
    {
        let r = TestAnalyticsWriter {
            num_days,
            string_table: new_table(),
            flags_set: FlagsSet::new(),
            timestamp: 0,
            tests: new_index(),
            testdata: Vec::new(),
        };
        proof {
            assert(well_formed_table(r.strings())) by {
                assert(r.strings().len() == 0);
            }
            assert forall|o: u32| #[trigger] r.flags().has_set(o) implies o == 0 && r.flags().set_at(o).len() == 0 by {
                assert(r.flags().offsets()[0] == 0);
            }
        }
        r
    }

    /// The number of days in each ring.
    pub fn num_days(&self) -> (r: usize)
        ensures
            r == self.days(),
    {
        self.num_days
    }

    /// The writer's "today".
    pub fn timestamp(&self) -> (r: u32)
        ensures
            r == self.today(),
    {
        self.timestamp
    }

    /// Whether `session` names a flag set of this writer, as one opened on it does.
    pub fn has_session(&self, session: &InsertSession) -> (r: bool)
        ensures
            r == self.flags().has_set(session.flag_set()),
    {
        self.flags_set.contains_set(session.flag_set_offset)
    }

    /// The number of tests.
    pub fn num_tests(&self) -> (r: usize)
        ensures
            r == self.keys().len(),
    {
        index_len(&self.tests)
    }

    /// Bucket `k` (days ago) of test `i`.
    pub fn get_bucket(&self, i: usize, k: usize) -> (r: TestData)
        requires
            self.wf(),
            i < self.keys().len(),
            k < self.days(),
        ensures
            r == self.bucket(i as int, k as int),
    {
        let _len = self.testdata.len();
        proof {
            lemma_index_in_ring(i as int, k as int, self.keys().len() as int, self.days() as int);
        }
        self.testdata[i * self.num_days + k]
    }

    /// How many more bytes the string table may take before its offsets outgrow 32 bits.
    pub fn string_room(&self) -> (r: usize)
        requires
            self.wf(),
        ensures
            r == u32::MAX - self.strings().len(),
    {
        let b = crate::string_table::table_as_bytes(&self.string_table);
        (u32::MAX as usize) - b.len()
    }

    /// How many more words the flag-set table may take.
    pub fn flag_room(&self) -> (r: usize)
        requires
            self.wf(),
        ensures
            r == MAX_FLAG_WORDS - self.flags().words().len(),
    {
        MAX_FLAG_WORDS - self.flags_set.num_words()
    }

    /// Opens a session of inserts: moves "today" on to `timestamp` when that is later, and
    /// interns `flags` as the session's flag set.
    pub fn start_session(&mut self, timestamp: u32, flags: &Vec<String>) -> (r: InsertSession)
        requires
            old(self).wf(),
            old(self).strings().len() + strings_room(flags@) <= u32::MAX,
            old(self).flags().words().len() + 1 + flags@.len() <= MAX_FLAG_WORDS,
        ensures
            final(self).wf(),
            old(self).rings_aligned() ==> final(self).rings_aligned(),
            final(self).today() == if timestamp > old(self).today() {
                timestamp
            } else {
                old(self).today()
            },
            final(self).days() == old(self).days(),
            final(self).keys() == old(self).keys(),
            final(self).data() == old(self).data(),
            final(self).flags().has_set(r.flag_set()),
            sorted_strict(final(self).flags().set_at(r.flag_set())),
            old(self).interned() ==> final(self).interned(),
            forall|o: u32| old(self).interned() && #[trigger] old(self).flags().has_set(o)
                && names(old(self).strings(), old(self).flags().set_at(o)).to_set() == flag_chars(flags@).to_set()
                ==> r.flag_set() == o,
            forall|o: u32| #[trigger] old(self).flags().has_set(o) ==> final(self).flags().has_set(o),
            set_matches(final(self).strings(), final(self).flags().set_at(r.flag_set()), flags@),
    {
        if timestamp > self.timestamp {
            self.timestamp = timestamp;
        }
        let ghost s0 = self.strings();
        let ghost f0 = self.flags();
        let flag_set_offset = self.flags_set.insert(&mut self.string_table, flags);
        proof {
            self.lemma_keys_stay_valid(s0, f0);
            if old(self).interned() {
                assert forall|i: int| 0 <= i < self.keys().len() implies is_entry(self.strings(), #[trigger] self.keys()[i].0 as int)
                    && is_entry(self.strings(), self.keys()[i].1 as int) by {
                    assert(is_entry(s0, self.keys()[i].0 as int));
                    assert(is_entry(s0, self.keys()[i].1 as int));
                }
            }
            if old(self).rings_aligned() {
                assert forall|i: int| 0 <= i < self.keys().len() implies ring_aligned(#[trigger] self.ring(i), self.today()) by {
                    assert(ring_aligned(old(self).ring(i), old(self).today()));
                }
            }
        }
        InsertSession { flag_set_offset }
    }
}

/// The position of bucket `k` of test `i` lies inside the buckets.
pub proof fn lemma_index_in_ring(i: int, k: int, len: int, n: int)
    requires
        0 <= i < len,
        0 <= k < n,
    ensures
        0 <= i * n + k < len * n,
        i * n + n <= len * n,
{
    assert(i * n + k < len * n) by (nonlinear_arith)
        requires
            0 <= i < len,
            0 <= k < n,
    ;
    assert(i * n + n <= len * n) by (nonlinear_arith)
        requires
            0 <= i < len,
            0 <= k < n,
    ;
    assert(0 <= i * n) by (nonlinear_arith)
        requires
            0 <= i,
            0 <= n,
    ;
}

impl TestAnalyticsWriter {
    /// The keys stay valid when the string table grows and the flag table gains sets.
    proof fn lemma_keys_stay_valid(&self, s0: Seq<u8>, f0: FlagsSet)
        requires
            s0.is_prefix_of(self.strings()),
            forall|o: u32| #[trigger] f0.has_set(o) ==> self.flags().has_set(o),
            forall|i: int| 0 <= i < self.keys().len() ==> {
                let k = #[trigger] self.keys()[i];
                &&& valid_ref(s0, k.0 as int)
                &&& valid_ref(s0, k.1 as int)
                &&& f0.has_set(k.2)
            },
        ensures
            forall|i: int| 0 <= i < self.keys().len() ==> self.key_valid(#[trigger] self.keys()[i]),
    {
        let ext = self.strings().subrange(s0.len() as int, self.strings().len() as int);
        assert(self.strings() =~= s0 + ext);
        assert forall|i: int| 0 <= i < self.keys().len() implies self.key_valid(#[trigger] self.keys()[i]) by {
            let k = self.keys()[i];
            lemma_span_extend(s0, ext, k.0 as int);
            lemma_span_extend(s0, ext, k.1 as int);
        }
    }
}

/// Test `i < j` has its ring before that of test `j`.
pub proof fn lemma_rings_apart(i: int, j: int, n: int)
    requires
        0 <= i < j,
        0 <= n,
    ensures
        i * n + n <= j * n,
{
    assert(i * n + n <= j * n) by (nonlinear_arith)
        requires
            0 <= i < j,
            0 <= n,
    ;
}

/// Room in the string table for two strings.
pub open spec fn pair_room(a: Seq<char>, b: Seq<char>) -> int {
    utf8_len(a) + utf8_len(b) + 18
}

/// Room in the string table for the suite and the name of `t`.
pub open spec fn run_room(t: Testrun) -> int {
    pair_room(t.testsuite.view(), t.name.view())
}

/// The bucket `b0` after a run of `t` on day `today`, given that `sum` summed the
/// durations into `total`.
pub open spec fn counted(b0: TestData, t: Testrun, today: u32, b1: TestData) -> bool {
    &&& b1.total_pass_count == if t.outcome == Outcome::Pass {
        wadd(b0.total_pass_count, 1)
    } else {
        b0.total_pass_count
    }
    &&& b1.total_fail_count == if t.outcome == Outcome::Failure || t.outcome == Outcome::Error {
        wadd(b0.total_fail_count, 1)
    } else {
        b0.total_fail_count
    }
    &&& b1.total_skip_count == if t.outcome == Outcome::Skip {
        wadd(b0.total_skip_count, 1)
    } else {
        b0.total_skip_count
    }
    &&& b1.total_flaky_fail_count == b0.total_flaky_fail_count
    &&& b1.reserved == b0.reserved
    &&& b1.last_timestamp == if b0.last_timestamp <= today {
        today
    } else {
        b0.last_timestamp
    }
    &&& b1.last_duration == if b0.last_timestamp <= today {
        duration_bits(t)
    } else {
        b0.last_duration
    }
}

impl TestAnalyticsWriter {
    /// Interns `suite` and `name`, giving their offsets.
    fn intern_pair(&mut self, suite: &str, name: &str) -> (r: (u32, u32))
        requires
            well_formed_table(old(self).strings()),
            old(self).flags().refs_valid(old(self).strings()),
            old(self).strings().len() + pair_room(suite@, name@) <= u32::MAX,
        ensures
            final(self).days() == old(self).days(),
            final(self).today() == old(self).today(),
            final(self).data() == old(self).data(),
            final(self).flags() == old(self).flags(),
            final(self).keys() == old(self).keys(),
            old(self).strings().is_prefix_of(final(self).strings()),
            final(self).strings().len() <= old(self).strings().len() + pair_room(suite@, name@),
            well_formed_table(final(self).strings()),
            final(self).flags().refs_valid(final(self).strings()),
            valid_ref(final(self).strings(), r.0 as int),
            valid_ref(final(self).strings(), r.1 as int),
            string_at(final(self).strings(), r.0 as int) == suite@,
            string_at(final(self).strings(), r.1 as int) == name@,
            is_entry(final(self).strings(), r.0 as int),
            is_entry(final(self).strings(), r.1 as int),
            forall|o: int| is_entry(old(self).strings(), o) ==> #[trigger] is_entry(final(self).strings(), o),
            entries_distinct(old(self).strings()) ==> entries_distinct(final(self).strings()),
            entries_distinct(old(self).strings()) ==> forall|o: int| is_entry(old(self).strings(), o)
                && valid_ref(old(self).strings(), o) && #[trigger] string_at(old(self).strings(), o) == suite@ ==> r.0 == o,
            entries_distinct(old(self).strings()) ==> forall|o: int| is_entry(old(self).strings(), o)
                && valid_ref(old(self).strings(), o) && #[trigger] string_at(old(self).strings(), o) == name@ ==> r.1 == o,
    {
        let ghost s0 = self.strings();
        let ts = table_insert(&mut self.string_table, suite);
        let ghost s1 = self.strings();
        let nm = table_insert(&mut self.string_table, name);
        let ghost s2 = self.strings();
        proof {
            assert(s1 =~= s0 + s1.subrange(s0.len() as int, s1.len() as int));
            assert(s2 =~= s1 + s2.subrange(s1.len() as int, s2.len() as int));
            crate::string_table::lemma_span_after(s1, ts as int);
            crate::string_table::lemma_span_after(s2, nm as int);
            lemma_span_extend(s1, s2.subrange(s1.len() as int, s2.len() as int), ts as int);
            assert(s0.is_prefix_of(s2)) by {
                assert(s2.subrange(0, s0.len() as int) =~= s1.subrange(0, s0.len() as int));
            }
            assert(s2 =~= s0 + s2.subrange(s0.len() as int, s2.len() as int));
            lemma_refs_extend(self.flags(), self.flags(), s0, s2, Seq::empty());
            lemma_intern_entries(s0, s1, ts as int, encode_utf8(suite@));
            lemma_intern_entries(s1, s2, nm as int, encode_utf8(name@));
            if entries_distinct(s0) {
                assert forall|o: int| is_entry(s0, o) && valid_ref(s0, o) && #[trigger] string_at(s0, o) == suite@ implies ts == o by {
                    lemma_intern_reuses(s0, s1, ts as int, o, suite@);
                }
                assert forall|o: int| is_entry(s0, o) && valid_ref(s0, o) && #[trigger] string_at(s0, o) == name@ implies nm == o by {
                    assert(is_entry(s1, o));
                    lemma_intern_entries(s0, s1, ts as int, encode_utf8(suite@));
                    lemma_span_extend(s0, s1.subrange(s0.len() as int, s1.len() as int), o);
                    assert(s1 =~= s0 + s1.subrange(s0.len() as int, s1.len() as int));
                    lemma_intern_reuses(s1, s2, nm as int, o, name@);
                }
            }
        }
        (ts as u32, nm as u32)
    }

    /// Interns `suite` and `name` and puts their key with flag set `fs` into the index;
    /// the buckets are not touched.
    fn upsert_key(&mut self, suite: &str, name: &str, fs: u32) -> (r: (usize, bool))
        requires
            old(self).wf(),
            old(self).flags().has_set(fs),
            old(self).strings().len() + pair_room(suite@, name@) <= u32::MAX,
            old(self).keys().len() < u32::MAX,
        ensures
            final(self).days() == old(self).days(),
            final(self).today() == old(self).today(),
            final(self).data() == old(self).data(),
            final(self).flags() == old(self).flags(),
            old(self).strings().is_prefix_of(final(self).strings()),
            final(self).strings().len() <= old(self).strings().len() + pair_room(suite@, name@),
            well_formed_table(final(self).strings()),
            final(self).flags().refs_valid(final(self).strings()),
            final(self).keys().no_duplicates(),
            forall|i: int| 0 <= i < final(self).keys().len() ==> final(self).key_valid(#[trigger] final(self).keys()[i]),
            r.0 < final(self).keys().len(),
            ({
                let k = final(self).keys()[r.0 as int];
                &&& string_at(final(self).strings(), k.0 as int) == suite@
                &&& string_at(final(self).strings(), k.1 as int) == name@
                &&& k.2 == fs
            }),
            !r.1 ==> final(self).keys() == old(self).keys(),
            r.1 ==> r.0 == old(self).keys().len() && final(self).keys() == old(self).keys().push(final(self).keys()[r.0 as int]),
            old(self).interned() ==> final(self).interned(),
            old(self).interned() && (exists|j: int| 0 <= j < old(self).keys().len() && #[trigger] old(self).key_names(old(self).keys()[j], suite@, name@, fs)) ==> !r.1,
    {
        let ghost s0 = self.strings();
        let (ts, nm) = self.intern_pair(suite, name);
        proof {
            self.lemma_keys_stay_valid(s0, self.flags());
        }
        let key = (ts, nm, fs);
        let ghost k0 = self.keys();
        proof {
            if old(self).interned() {
                if exists|j: int| 0 <= j < k0.len() && #[trigger] old(self).key_names(k0[j], suite@, name@, fs) {
                    let j = choose|j: int| 0 <= j < k0.len() && #[trigger] old(self).key_names(k0[j], suite@, name@, fs);
                    assert(old(self).key_valid(k0[j]));
                    assert(ts == k0[j].0);
                    assert(nm == k0[j].1);
                    assert(k0[j] == key);
                    assert(k0.contains(key));
                }
            }
        }
        let r = index_insert_full(&mut self.tests, key);
        proof {
            if old(self).interned() {
                assert forall|i: int| 0 <= i < self.keys().len() implies is_entry(self.strings(), #[trigger] self.keys()[i].0 as int)
                    && is_entry(self.strings(), self.keys()[i].1 as int) by {
                    if i < k0.len() {
                        assert(is_entry(old(self).strings(), k0[i].0 as int));
                        assert(is_entry(old(self).strings(), k0[i].1 as int));
                    }
                }
            }
            if r.1 {
                assert forall|a: int, b: int| 0 <= a < b < self.keys().len() implies self.keys()[a] != self.keys()[b] by {
                    if b == k0.len() {
                        assert(k0.contains(k0[a]));
                    }
                }
            }
        }
        r
    }

    /// Makes room for a run in the ring of test `idx`: a fresh ring when the test is new,
    /// else the ring moved on to today.
    fn prepare_ring(&mut self, idx: usize, inserted: bool)
        requires
            old(self).days() >= 1,
            idx < old(self).keys().len(),
            inserted ==> idx + 1 == old(self).keys().len() && old(self).data().len() == idx * old(self).days(),
            !inserted ==> old(self).data().len() == old(self).keys().len() * old(self).days(),
        ensures
            final(self).days() == old(self).days(),
            final(self).today() == old(self).today(),
            final(self).keys() == old(self).keys(),
            final(self).strings() == old(self).strings(),
            final(self).flags() == old(self).flags(),
            final(self).data().len() == final(self).keys().len() * final(self).days(),
            forall|j: int| 0 <= j < final(self).keys().len() && j != idx ==> #[trigger] final(self).ring(j) == old(self).ring(j),
            final(self).ring(idx as int) == if inserted {
                empty_ring(old(self).days())
            } else {
                shift_seq(old(self).ring(idx as int), day_offset(old(self).bucket(idx as int, 0).last_timestamp, old(self).today()))
            },
    {
        let n = self.num_days;
        let ghost d0 = self.data();
        let ghost len = self.keys().len() as int;
        if inserted {
            let mut j: usize = 0;
            while j < n
                invariant
                    self.num_days == n,
                    n >= 1,
                    self.data().len() == idx * n + j,
                    self.data().subrange(0, idx * n) == d0,
                    d0.len() == idx * n,
                    forall|q: int| idx * n <= q < idx * n + j ==> self.data()[q] == empty_bucket(),
                    self.keys() == old(self).keys(),
                    self.today() == old(self).today(),
                    self.strings() == old(self).strings(),
                    self.flags() == old(self).flags(),
                    j <= n,
                decreases n - j,
            {
                self.testdata.push(TestData::empty());
                proof {
                    assert(self.data().subrange(0, idx * n) =~= d0);
                }
                j = j + 1;
            }
            proof {
                assert(self.data().len() == len * n) by (nonlinear_arith)
                    requires
                        self.data().len() == idx * n + n,
                        idx + 1 == len,
                ;
                assert(self.ring(idx as int) =~= empty_ring(n as nat));
                assert forall|j: int| 0 <= j < len && j != idx implies #[trigger] self.ring(j) == old(self).ring(j) by {
                    lemma_rings_apart(j, idx as int, n as int);
                    assert(0 <= j * n) by (nonlinear_arith) requires 0 <= j, 0 <= n;
                    assert(self.ring(j) =~= old(self).ring(j)) by {
                        assert forall|q: int| 0 <= q < n implies self.ring(j)[q] == old(self).ring(j)[q] by {
                            assert(self.data()[j * n + q] == self.data().subrange(0, idx * n)[j * n + q]);
                        }
                    }
                }
            }
        } else {
            let _l = self.testdata.len();
            proof {
                lemma_index_in_ring(idx as int, 0, len, n as int);
            }
            let start = idx * n;
            let anchor = self.testdata[start].last_timestamp;
            let d = offset_from_today(anchor, self.timestamp);
            shift_data(&mut self.testdata, start, n, d);
            proof {
                assert(self.ring(idx as int) =~= shift_seq(old(self).ring(idx as int), d as int));
                assert forall|j: int| 0 <= j < len && j != idx implies #[trigger] self.ring(j) == old(self).ring(j) by {
                    if j < idx {
                        lemma_rings_apart(j, idx as int, n as int);
                    } else {
                        lemma_rings_apart(idx as int, j, n as int);
                    }
                    lemma_index_in_ring(j, 0, len, n as int);
                    assert(self.ring(j) =~= old(self).ring(j));
                }
            }
        }
    }
}

/// What one run of `t` under flag set `fs` did to the writer, test `i` being the one the
/// run was counted for: the key of the run is that test's, a new key went to the end, the
/// other rings stayed, and the test's ring moved on to today before its first bucket
/// counted the run.
pub open spec fn run_recorded<F: Fn(u32, u32) -> u32>(
    w0: TestAnalyticsWriter,
    w1: TestAnalyticsWriter,
    i: int,
    t: Testrun,
    fs: u32,
    sum: F,
) -> bool {
    let n = w0.days();
    let k = w1.keys()[i];
    let is_new = i == w0.keys().len();
    let base = if is_new {
        empty_ring(n)
    } else {
        w0.ring(i)
    };
    let d = if is_new {
        0
    } else {
        day_offset(w0.bucket(i, 0).last_timestamp, w0.today())
    };
    let sh = shift_seq(base, d);
    &&& 0 <= i < w1.keys().len()
    &&& string_at(w1.strings(), k.0 as int) == t.testsuite.view()
    &&& string_at(w1.strings(), k.1 as int) == t.name.view()
    &&& k.2 == fs
    &&& if is_new {
        w1.keys() == w0.keys().push(k)
    } else {
        w1.keys() == w0.keys()
    }
    &&& forall|j: int| 0 <= j < w0.keys().len() && j != i ==> #[trigger] w1.ring(j) == w0.ring(j)
    &&& w1.ring(i) == sh.update(0, w1.bucket(i, 0))
    &&& counted(sh[0], t, w0.today(), w1.bucket(i, 0))
    &&& call_ensures(sum, (sh[0].total_duration, duration_bits(t)), w1.bucket(i, 0).total_duration)
}

impl TestAnalyticsWriter {
    /// Counts a run of `t` in bucket 0 of test `idx`.
    fn record_run<F: Fn(u32, u32) -> u32>(&mut self, idx: usize, t: &Testrun, sum: &F)
        requires
            old(self).days() >= 1,
            idx < old(self).keys().len(),
            old(self).data().len() == old(self).keys().len() * old(self).days(),
            forall|a: u32, b: u32| sum.requires((a, b)),
        ensures
            final(self).days() == old(self).days(),
            final(self).today() == old(self).today(),
            final(self).keys() == old(self).keys(),
            final(self).strings() == old(self).strings(),
            final(self).flags() == old(self).flags(),
            final(self).data() == old(self).data().update(idx * old(self).days(), final(self).bucket(idx as int, 0)),
            counted(old(self).bucket(idx as int, 0), *t, old(self).today(), final(self).bucket(idx as int, 0)),
            call_ensures(*sum, (old(self).bucket(idx as int, 0).total_duration, duration_bits(*t)), final(self).bucket(idx as int, 0).total_duration),
    {
        let _l = self.testdata.len();
        proof {
            lemma_index_in_ring(idx as int, 0, self.keys().len() as int, self.days() as int);
        }
        let start = idx * self.num_days;
        let mut b = self.testdata[start];
        let dur = match t.duration {
            Some(d) => d,
            None => 0,
        };
        b.total_duration = sum(b.total_duration, dur);
        if b.last_timestamp <= self.timestamp {
            b.last_timestamp = self.timestamp;
            b.last_duration = dur;
        }
        match t.outcome {
            Outcome::Pass => {
                b.total_pass_count = add_count(b.total_pass_count, 1);
            },
            Outcome::Failure | Outcome::Error => {
                b.total_fail_count = add_count(b.total_fail_count, 1);
            },
            Outcome::Skip => {
                b.total_skip_count = add_count(b.total_skip_count, 1);
            },
        }
        self.testdata.set(start, b);
    }
}

impl InsertSession {
    /// Counts a run of `test` for today under the session's flag set, adding durations with
    /// `sum` (the sum of two single-precision numbers of seconds, given and taken as bits).
    pub fn insert<F: Fn(u32, u32) -> u32>(&self, writer: &mut TestAnalyticsWriter, test: &Testrun, sum: &F)
        requires
            old(writer).wf(),
            old(writer).flags().has_set(self.flag_set()),
            old(writer).strings().len() + run_room(*test) <= u32::MAX,
            old(writer).keys().len() < u32::MAX,
            forall|a: u32, b: u32| sum.requires((a, b)),
        ensures
            final(writer).wf(),
            old(writer).rings_aligned() ==> final(writer).rings_aligned(),
            final(writer).days() == old(writer).days(),
            final(writer).today() == old(writer).today(),
            final(writer).flags() == old(writer).flags(),
            old(writer).strings().is_prefix_of(final(writer).strings()),
            final(writer).strings().len() <= old(writer).strings().len() + run_room(*test),
            exists|i: int| run_recorded(*old(writer), *final(writer), i, *test, self.flag_set(), *sum),
            old(writer).interned() ==> final(writer).interned(),
            old(writer).interned() && (exists|j: int| 0 <= j < old(writer).keys().len() && #[trigger] old(writer).key_names(
                old(writer).keys()[j], test.testsuite.view(), test.name.view(), self.flag_set())) ==> final(writer).keys() == old(writer).keys(),
    {
        let ghost w0 = *writer;
        let (idx, inserted) = writer.upsert_key(test.testsuite.as_str(), test.name.as_str(), self.flag_set_offset);
        let ghost w1 = *writer;
        proof {
            if inserted {
                assert(w0.data().len() == idx * w0.days());
            }
        }
        writer.prepare_ring(idx, inserted);
        let ghost w2 = *writer;
        writer.record_run(idx, test, sum);
        proof {
            let n = w0.days() as int;
            let i = idx as int;
            lemma_index_in_ring(i, 0, writer.keys().len() as int, n);
            let base = if inserted { empty_ring(n as nat) } else { w0.ring(i) };
            let d = if inserted { 0 } else { day_offset(w0.bucket(i, 0).last_timestamp, w0.today()) };
            let sh = shift_seq(base, d);
            if inserted {
                assert(shift_seq(empty_ring(n as nat), 0) =~= empty_ring(n as nat));
            } else {
                assert(w1.ring(i) == w0.ring(i));
                assert(w1.bucket(i, 0) == w0.bucket(i, 0));
            }
            assert(w2.ring(i) == sh);
            assert(w2.bucket(i, 0) == sh[0]);
            assert(writer.ring(i) =~= sh.update(0, writer.bucket(i, 0)));
            assert forall|j: int| 0 <= j < w0.keys().len() && j != i implies #[trigger] writer.ring(j) == w0.ring(j) by {
                assert(w2.ring(j) == w1.ring(j));
                assert(w1.ring(j) == w0.ring(j));
                if j < i {
                    lemma_rings_apart(j, i, n);
                } else {
                    lemma_rings_apart(i, j, n);
                }
                lemma_index_in_ring(j, 0, writer.keys().len() as int, n);
                assert(writer.ring(j) =~= w2.ring(j));
            }
            assert(run_recorded(w0, *writer, i, *test, self.flag_set(), *sum));
            if w0.rings_aligned() {
                lemma_insert_keeps_aligned(w0, *writer, i, *test, self.flag_set(), *sum);
            }
        }
    }
}

/// Moving an anchored ring on to today and counting a run in its first bucket keeps it
/// anchored.
proof fn lemma_ring_run_aligned(r0: Seq<TestData>, d: int, b: TestData, t: Testrun, today: u32)
    requires
        ring_aligned(r0, today),
        r0.len() >= 1,
        d == day_offset(r0[0].last_timestamp, today) || (forall|k: int| 0 <= k < r0.len() ==> #[trigger] r0[k] == empty_bucket()),
        d >= 0,
        counted(shift_seq(r0, d)[0], t, today, b),
    ensures
        ring_aligned(shift_seq(r0, d).update(0, b), today),
{
    let sh = shift_seq(r0, d);
    let r1 = sh.update(0, b);
    assert forall|k: int| 0 <= k < r1.len() implies {
        &&& (#[trigger] r1[k]).last_timestamp <= today
        &&& r1[k].last_timestamp != 0 ==> r1[k].last_timestamp + k == r1[0].last_timestamp
    } by {
        assert(r0[0].last_timestamp <= today);
        if k >= 1 && k >= d {
            assert(r1[k] == r0[k - d]);
            assert(r0[k - d].last_timestamp <= today);
        }
        if d == 0 {
            assert(sh[0] == r0[0]);
        }
    }
}

/// A run keeps every ring anchored at its first bucket.
proof fn lemma_insert_keeps_aligned<F: Fn(u32, u32) -> u32>(
    w0: TestAnalyticsWriter,
    w1: TestAnalyticsWriter,
    i: int,
    t: Testrun,
    fs: u32,
    sum: F,
)
    requires
        w0.wf(),
        w0.rings_aligned(),
        w1.days() == w0.days(),
        w1.today() == w0.today(),
        w1.data().len() == w1.keys().len() * w1.days(),
        run_recorded(w0, w1, i, t, fs, sum),
    ensures
        w1.rings_aligned(),
{
    let n = w0.days() as int;
    let today = w0.today();
    let is_new = i == w0.keys().len();
    let base = if is_new { empty_ring(n as nat) } else { w0.ring(i) };
    let d = if is_new { 0 } else { day_offset(w0.bucket(i, 0).last_timestamp, today) };
    if is_new {
        assert(ring_aligned(base, today));
    } else {
        assert(ring_aligned(w0.ring(i), today));
        lemma_index_in_ring(i, 0, w0.keys().len() as int, n);
        assert(w0.ring(i)[0] == w0.bucket(i, 0));
    }
    lemma_index_in_ring(i, 0, w1.keys().len() as int, n);
    assert(w1.ring(i)[0] == w1.bucket(i, 0));
    lemma_ring_run_aligned(base, d, w1.bucket(i, 0), t, today);
    assert forall|j: int| 0 <= j < w1.keys().len() implies ring_aligned(#[trigger] w1.ring(j), w1.today()) by {
        if j != i {
            assert(w1.ring(j) == w0.ring(j));
            assert(ring_aligned(w0.ring(j), today));
        }
    }
}

/// Appends the bytes of `x` to those of the words `ws`.
proof fn lemma_push_word(ws: Seq<u32>, x: u32)
    ensures
        words_bytes(ws) + crate::records::le_bytes(x) == words_bytes(ws.push(x)),
{
    assert(ws.push(x).drop_last() =~= ws);
}

impl TestAnalyticsWriter {
    /// The header the artifact of this writer starts with.
    pub open spec fn header_spec(&self) -> Header {
        Header {
            magic: TA_MAGIC,
            version: crate::records::TA_VERSION,
            timestamp: self.today(),
            num_days: self.days() as u32,
            num_tests: self.keys().len() as u32,
            flags_set_len: (4 * self.flags().words().len()) as u32,
            string_bytes: self.strings().len() as u32,
        }
    }

    /// The words of the artifact of this writer, before its string table.
    pub open spec fn artifact_words(&self) -> Seq<u32> {
        header_words(self.header_spec()) + key_words(self.keys()) + data_words(self.data())
            + self.flags().words()
    }

    /// The artifact of this writer: header, keys, buckets and flag-set table as
    /// little-endian words, then the string table.
    pub open spec fn artifact(&self) -> Seq<u8> {
        words_bytes(self.artifact_words()) + self.strings()
    }

    /// Writes the artifact of this writer.
    pub fn serialize(self) -> (r: Vec<u8>)
        requires
            self.wf(),
        ensures
            r@ == self.artifact(),
    {
        let ghost me = self;
        let flags_len = self.flags_set.num_words();
        let strings = crate::string_table::table_into_bytes(self.string_table);
        let num_tests = index_len(&self.tests);
        let header = Header {
            magic: TA_MAGIC,
            version: TA_VERSION,
            timestamp: self.timestamp,
            num_days: self.num_days as u32,
            num_tests: num_tests as u32,
            flags_set_len: (4 * flags_len) as u32,
            string_bytes: strings.len() as u32,
        };
        proof {
            assert(header == me.header_spec());
        }
        let mut out: Vec<u8> = Vec::new();
        push_header(&mut out, &header);
        let ghost hw = header_words(header);
        push_keys(&mut out, &self.tests, Ghost(hw));
        let ghost kw = hw + key_words(me.keys());
        push_data(&mut out, &self.testdata, Ghost(kw));
        let ghost dw = kw + data_words(me.data());
        push_flag_words(&mut out, &self.flags_set, Ghost(dw));
        proof {
            assert(dw + me.flags().words() =~= me.artifact_words());
        }
        let ghost wb = out@;
        let mut k: usize = 0;
        while k < strings.len()
            invariant
                wb == words_bytes(me.artifact_words()),
                strings@ == me.strings(),
                k <= strings@.len(),
                out@ == wb + strings@.subrange(0, k as int),
            decreases strings@.len() - k,
        {
            out.push(strings[k]);
            proof {
                assert(out@ =~= wb + strings@.subrange(0, k + 1));
            }
            k = k + 1;
        }
        proof {
            assert(strings@.subrange(0, k as int) =~= strings@);
        }
        out
    }
}

fn push_header(out: &mut Vec<u8>, header: &Header)
    requires
        old(out)@.len() == 0,
    ensures
        final(out)@ == words_bytes(header_words(*header)),
{
    let ghost h = *header;
    push_u32(out, header.magic);
    push_u32(out, header.version);
    push_u32(out, header.timestamp);
    push_u32(out, header.num_days);
    push_u32(out, header.num_tests);
    push_u32(out, header.flags_set_len);
    push_u32(out, header.string_bytes);
    proof {
        let w0 = Seq::<u32>::empty();
        let w1 = w0.push(h.magic);
        let w2 = w1.push(h.version);
        let w3 = w2.push(h.timestamp);
        let w4 = w3.push(h.num_days);
        let w5 = w4.push(h.num_tests);
        let w6 = w5.push(h.flags_set_len);
        let w7 = w6.push(h.string_bytes);
        assert(words_bytes(w0) == Seq::<u8>::empty());
        lemma_push_word(w0, h.magic);
        lemma_push_word(w1, h.version);
        lemma_push_word(w2, h.timestamp);
        lemma_push_word(w3, h.num_days);
        lemma_push_word(w4, h.num_tests);
        lemma_push_word(w5, h.flags_set_len);
        lemma_push_word(w6, h.string_bytes);
        assert(w7 =~= header_words(h));
        assert(final(out)@ =~= words_bytes(w7));
    }
}

fn push_keys(out: &mut Vec<u8>, tests: &IndexSet<(u32, u32, u32)>, Ghost(pre): Ghost<Seq<u32>>)
    requires
        old(out)@ == words_bytes(pre),
    ensures
        final(out)@ == words_bytes(pre + key_words(index_keys(*tests))),
{
    let num_tests = index_len(tests);
    let ghost keys = index_keys(*tests);
    let mut i: usize = 0;
    while i < num_tests
        invariant
            num_tests == keys.len(),
            keys == index_keys(*tests),
            i <= num_tests,
            out@ == words_bytes(pre + key_words(keys.subrange(0, i as int))),
        decreases num_tests - i,
    {
        let k = index_get(tests, i);
        let ghost before = pre + key_words(keys.subrange(0, i as int));
        push_u32(out, k.0);
        push_u32(out, k.1);
        push_u32(out, k.2);
        proof {
            lemma_push_word(before, k.0);
            lemma_push_word(before.push(k.0), k.1);
            lemma_push_word(before.push(k.0).push(k.1), k.2);
            let ks = keys.subrange(0, i + 1);
            assert(ks.drop_last() =~= keys.subrange(0, i as int));
            assert(pre + key_words(ks) =~= before.push(k.0).push(k.1).push(k.2));
        }
        i = i + 1;
    }
    proof {
        assert(keys.subrange(0, num_tests as int) =~= keys);
    }
}

fn push_data(out: &mut Vec<u8>, data: &Vec<TestData>, Ghost(pre): Ghost<Seq<u32>>)
    requires
        old(out)@ == words_bytes(pre),
    ensures
        final(out)@ == words_bytes(pre + data_words(data@)),
{
    let nb = data.len();
    let mut j: usize = 0;
    while j < nb
        invariant
            nb == data@.len(),
            j <= nb,
            out@ == words_bytes(pre + data_words(data@.subrange(0, j as int))),
        decreases nb - j,
    {
        let d = data[j];
        let ghost before = pre + data_words(data@.subrange(0, j as int));
        push_bucket(out, &d, Ghost(before));
        proof {
            let ds = data@.subrange(0, j + 1);
            assert(ds.drop_last() =~= data@.subrange(0, j as int));
            assert(pre + data_words(ds) =~= before + bucket_words(d));
        }
        j = j + 1;
    }
    proof {
        assert(data@.subrange(0, nb as int) =~= data@);
    }
}

fn push_bucket(out: &mut Vec<u8>, d: &TestData, Ghost(pre): Ghost<Seq<u32>>)
    requires
        old(out)@ == words_bytes(pre),
    ensures
        final(out)@ == words_bytes(pre + bucket_words(*d)),
{
    push_u32(out, d.total_pass_count);
    push_u32(out, d.total_fail_count);
    push_u32(out, d.total_skip_count);
    push_u32(out, d.total_flaky_fail_count);
    push_u32(out, d.reserved);
    push_u32(out, d.last_timestamp);
    push_u32(out, d.total_duration);
    push_u32(out, d.last_duration);
    proof {
        let b1 = pre.push(d.total_pass_count);
        let b2 = b1.push(d.total_fail_count);
        let b3 = b2.push(d.total_skip_count);
        let b4 = b3.push(d.total_flaky_fail_count);
        let b5 = b4.push(d.reserved);
        let b6 = b5.push(d.last_timestamp);
        let b7 = b6.push(d.total_duration);
        let b8 = b7.push(d.last_duration);
        lemma_push_word(pre, d.total_pass_count);
        lemma_push_word(b1, d.total_fail_count);
        lemma_push_word(b2, d.total_skip_count);
        lemma_push_word(b3, d.total_flaky_fail_count);
        lemma_push_word(b4, d.reserved);
        lemma_push_word(b5, d.last_timestamp);
        lemma_push_word(b6, d.total_duration);
        lemma_push_word(b7, d.last_duration);
        assert(pre + bucket_words(*d) =~= b8);
    }
}

fn push_flag_words(out: &mut Vec<u8>, flags: &FlagsSet, Ghost(pre): Ghost<Seq<u32>>)
    requires
        old(out)@ == words_bytes(pre),
    ensures
        final(out)@ == words_bytes(pre + flags.words()),
{
    let n = flags.num_words();
    let mut w: usize = 0;
    while w < n
        invariant
            n == flags.words().len(),
            w <= n,
            out@ == words_bytes(pre + flags.words().subrange(0, w as int)),
        decreases n - w,
    {
        let x = flags.word_at(w);
        proof {
            lemma_push_word(pre + flags.words().subrange(0, w as int), x);
            assert((pre + flags.words().subrange(0, w as int)).push(x) =~= pre + flags.words().subrange(0, w + 1));
        }
        push_u32(out, x);
        w = w + 1;
    }
    proof {
        assert(flags.words().subrange(0, n as int) =~= flags.words());
    }
}

impl TestAnalyticsWriter {
    /// A writer that holds what the parsed artifact `data` holds. The artifact is checked
    /// first: its string table must read, and every key and flag set must name entries of
    /// it, so that the writer's invariant holds; duplicate keys are refused too.
    pub fn from_existing_format(data: &TestAnalytics) -> (r: Result<Self, TestAnalyticsError>)
        requires
            data.valid(),
        ensures
            r is Ok <==> data.consistent(),
            r matches Ok(w) ==> {
                &&& w.wf()
                &&& w.days() == data.header.num_days
                &&& w.today() == data.header.timestamp
                &&& w.keys() == data.keys()
                &&& w.data() == data.testdata@
                &&& w.flags().words() == data.flags_set.words()
                &&& w.flags().offsets() == data.flags_set.offsets()
                &&& w.strings() == data.string_bytes@
            },
            r == Err::<Self, _>(TestAnalyticsError::InvalidFormat) ==> !data.keys().no_duplicates(),
            !well_formed_table(data.string_bytes@) ==> r == Err::<Self, _>(TestAnalyticsError::InvalidStringReference),
            !data.flags_set.refs_valid(data.string_bytes@) ==> r == Err::<Self, _>(TestAnalyticsError::InvalidStringReference),
            r == Err::<Self, _>(TestAnalyticsError::InvalidFlagSetReference) ==> exists|i: int|
                0 <= i < data.keys().len() && !data.flags_set.has_set(#[trigger] data.keys()[i].2),
            r == Err::<Self, _>(TestAnalyticsError::InvalidStringReference) ==> !well_formed_table(data.string_bytes@)
                || !data.flags_set.refs_valid(data.string_bytes@)
                || exists|i: int| 0 <= i < data.keys().len() && !(valid_ref(data.string_bytes@, #[trigger] data.keys()[i].0 as int)
                    && valid_ref(data.string_bytes@, data.keys()[i].1 as int)),
    {
        if !check_table(data.string_bytes.as_slice()) {
            return Err(TestAnalyticsError::InvalidStringReference);
        }
        if !data.flags_set.check_refs(data.string_bytes.as_slice()) {
            return Err(TestAnalyticsError::InvalidStringReference);
        }
        let mut tests = new_index();
        let nt = data.tests.len();
        let mut i: usize = 0;
        while i < nt
            invariant
                data.valid(),
                nt == data.tests@.len(),
                i <= nt,
                well_formed_table(data.string_bytes@),
                data.flags_set.refs_valid(data.string_bytes@),
                index_keys(tests) == data.keys().subrange(0, i as int),
                index_keys(tests).no_duplicates(),
                forall|q: int|
                    0 <= q < i ==> {
                        let k = #[trigger] data.keys()[q];
                        &&& valid_ref(data.string_bytes@, k.0 as int)
                        &&& valid_ref(data.string_bytes@, k.1 as int)
                        &&& data.flags_set.has_set(k.2)
                    },
            decreases nt - i,
        {
            let k = data.tests[i].to_key();
            proof {
                assert(k == data.keys()[i as int]);
            }
            if checked_read(data.string_bytes.as_slice(), k.0 as usize).is_none()
                || checked_read(data.string_bytes.as_slice(), k.1 as usize).is_none() {
                proof {
                    assert(!(valid_ref(data.string_bytes@, data.keys()[i as int].0 as int) && valid_ref(data.string_bytes@, data.keys()[i as int].1 as int)));
                }
                return Err(TestAnalyticsError::InvalidStringReference);
            }
            if !data.flags_set.contains_set(k.2) {
                proof {
                    assert(!data.flags_set.has_set(data.keys()[i as int].2));
                }
                return Err(TestAnalyticsError::InvalidFlagSetReference);
            }
            let ghost before = index_keys(tests);
            let (_idx, inserted) = index_insert_full(&mut tests, k);
            if !inserted {
                proof {
                    let j = choose|j: int| 0 <= j < before.len() && before[j] == k;
                    assert(data.keys()[j] == data.keys()[i as int]);
                }
                return Err(TestAnalyticsError::InvalidFormat);
            }
            proof {
                assert(index_keys(tests) =~= data.keys().subrange(0, i + 1));
                assert forall|a: int, b: int| 0 <= a < b < index_keys(tests).len() implies index_keys(tests)[a] != index_keys(tests)[b] by {
                    if b == before.len() {
                        assert(before.contains(before[a]));
                    }
                }
            }
            i = i + 1;
        }
        proof {
            assert(data.keys().subrange(0, nt as int) =~= data.keys());
        }
        let string_table = match table_from_bytes(data.string_bytes.as_slice()) {
            Ok(t) => t,
            Err(_) => {
                return Err(TestAnalyticsError::InvalidStringReference);
            },
        };
        let mut testdata: Vec<TestData> = Vec::new();
        let nb = data.testdata.len();
        let mut j: usize = 0;
        while j < nb
            invariant
                nb == data.testdata@.len(),
                j <= nb,
                testdata@ == data.testdata@.subrange(0, j as int),
            decreases nb - j,
        {
            testdata.push(data.testdata[j]);
            proof {
                assert(testdata@ =~= data.testdata@.subrange(0, j + 1));
            }
            j = j + 1;
        }
        proof {
            assert(testdata@ =~= data.testdata@);
        }
        let w = TestAnalyticsWriter {
            num_days: data.header.num_days as usize,
            string_table,
            flags_set: data.flags_set.duplicate(),
            timestamp: data.header.timestamp,
            tests,
            testdata,
        };
        proof {
            let f = w.flags();
            let g = data.flags_set;
            assert forall|a: int, j: int|
                0 <= a < f.offsets().len() && 0 <= j < f.set_at(f.offsets()[a]).len()
                    implies valid_ref(w.strings(), #[trigger] f.set_at(f.offsets()[a])[j] as int) by {
                assert(f.set_at(f.offsets()[a]) == g.set_at(g.offsets()[a]));
                assert(valid_ref(data.string_bytes@, g.set_at(g.offsets()[a])[j] as int));
            }
            assert forall|i: int| 0 <= i < w.keys().len() implies w.key_valid(#[trigger] w.keys()[i]) by {
                assert(w.keys()[i] == data.keys()[i]);
            }
        }
        Ok(w)
    }
}

/// `r` is the bucket `l` with the bucket `s` of another artifact added in: counts summed,
/// durations summed by `sum`, and the most recent run taken from `s` when it is not older.
pub open spec fn bucket_merged<F: Fn(u32, u32) -> u32>(l: TestData, s: TestData, r: TestData, sum: F) -> bool {
    &&& r.total_pass_count == wadd(l.total_pass_count, s.total_pass_count)
    &&& r.total_fail_count == wadd(l.total_fail_count, s.total_fail_count)
    &&& r.total_skip_count == wadd(l.total_skip_count, s.total_skip_count)
    &&& r.total_flaky_fail_count == wadd(l.total_flaky_fail_count, s.total_flaky_fail_count)
    &&& r.reserved == l.reserved
    &&& call_ensures(sum, (l.total_duration, s.total_duration), r.total_duration)
    &&& if s.last_timestamp >= l.last_timestamp {
        r.last_timestamp == s.last_timestamp && r.last_duration == s.last_duration
    } else {
        r.last_timestamp == l.last_timestamp && r.last_duration == l.last_duration
    }
}

/// `r` is the ring `dst` with the ring `src` of another artifact added in: when `src` is
/// anchored later, `dst` first moves on to its anchor; then each day of `src` that falls
/// inside the ring is added to the bucket of the same day.
pub open spec fn ring_merged<F: Fn(u32, u32) -> u32>(dst: Seq<TestData>, src: Seq<TestData>, r: Seq<TestData>, sum: F) -> bool {
    let ts_s = src[0].last_timestamp;
    let ts_l = dst[0].last_timestamp;
    let base = if ts_s > ts_l {
        shift_seq(dst, ts_s - ts_l)
    } else {
        dst
    };
    let off = if ts_s > ts_l {
        0
    } else {
        ts_l - ts_s
    };
    let len = overlap_len(src.len() as int, dst.len() as int, off);
    &&& r.len() == dst.len()
    &&& forall|k: int|
        0 <= k < dst.len() ==> if off <= k < off + len {
            bucket_merged(base[k], src[k - off], #[trigger] r[k], sum)
        } else {
            r[k] == base[k]
        }
}

impl TestAnalyticsWriter {
    /// Whether `flags` fit the tables: their strings in the string table and their set in
    /// the flag-set table.
    fn room_for_flags(&self, flags: &Vec<String>) -> (r: bool)
        requires
            self.wf(),
        ensures
            r == (self.strings().len() + strings_room(flags@) <= u32::MAX
                && self.flags().words().len() + 1 + flags@.len() <= MAX_FLAG_WORDS),
    {
        let used = crate::string_table::table_as_bytes(&self.string_table).len() as u64;
        let words = self.flags_set.num_words();
        if flags.len() >= MAX_FLAG_WORDS - words {
            return false;
        }
        let mut acc: u64 = used;
        let mut i: usize = 0;
        while i < flags.len()
            invariant
                i <= flags@.len(),
                acc == self.strings().len() + strings_room(flags@.subrange(0, i as int)),
                acc <= u32::MAX,
            decreases flags@.len() - i,
        {
            let l = flags[i].as_str().len() as u64;
            proof {
                assert(flags@.subrange(0, i + 1).drop_last() =~= flags@.subrange(0, i as int));
            }
            if l > u32::MAX as u64 || acc + l + 9 > u32::MAX as u64 {
                proof {
                    crate::flags::lemma_strings_room_mono(flags@, i + 1);
                }
                return false;
            }
            acc = acc + l + 9;
            i = i + 1;
        }
        proof {
            assert(flags@.subrange(0, i as int) =~= flags@);
        }
        true
    }

    /// Re-interns each flag set of `smaller` into this writer; gives, for each of them, its
    /// offset there and here.
    fn merge_flags(&mut self, smaller: &TestAnalytics) -> (r: Result<HashMap<u32, u32>, TestAnalyticsError>)
        requires
            old(self).wf(),
            smaller.valid(),
        ensures
            r is Ok ==> final(self).wf(),
            r is Ok ==> final(self).days() == old(self).days(),
            r is Ok ==> final(self).today() == old(self).today(),
            r is Ok ==> final(self).keys() == old(self).keys(),
            r is Ok ==> final(self).data() == old(self).data(),
            r is Ok ==> old(self).rings_aligned() ==> final(self).rings_aligned(),
            r matches Ok(m) ==> forall|q: int| 0 <= q < smaller.flags_set.offsets().len() ==> m@.contains_key(#[trigger] smaller.flags_set.offsets()[q]),
            r is Ok ==> smaller.flags_set.refs_valid(smaller.string_bytes@),
            r matches Ok(m) ==> forall|o: u32| #[trigger] m@.contains_key(o) ==> smaller.flags_set.has_set(o),
            r matches Ok(m) ==> forall|o: u32| #[trigger] m@.contains_key(o) ==> final(self).flags().has_set(m@[o])
                && same_names(final(self).strings(), final(self).flags().set_at(m@[o]), smaller.string_bytes@, smaller.flags_set.set_at(o)),
            r is Ok ==> final(self).strings().len() <= old(self).strings().len() + smaller.flags_set.words().len() * (smaller.string_bytes@.len() + 18),
            r is Ok ==> final(self).flags().words().len() <= old(self).flags().words().len() + smaller.flags_set.words().len(),
            r is Ok ==> old(self).strings().is_prefix_of(final(self).strings()),
            r is Ok ==> old(self).interned() ==> final(self).interned(),
            r == Err::<HashMap<u32, u32>, _>(TestAnalyticsError::InvalidStringReference) || r == Err::<HashMap<u32, u32>, _>(TestAnalyticsError::InvalidFormat) || r is Ok,
            r == Err::<HashMap<u32, u32>, _>(TestAnalyticsError::InvalidStringReference) ==> !smaller.flags_set.refs_valid(smaller.string_bytes@),
            r == Err::<HashMap<u32, u32>, _>(TestAnalyticsError::InvalidFormat) ==> !flags_fit(*old(self), *smaller),
            smaller.flags_set.refs_valid(smaller.string_bytes@) && flags_fit(*old(self), *smaller) ==> r is Ok,
            (forall|q: int| 0 <= q < smaller.flags_set.offsets().len() ==> smaller.flags_set.set_at(#[trigger] smaller.flags_set.offsets()[q]).len() == 0)
                && (exists|o: u32| old(self).flags().has_set(o) && old(self).flags().set_at(o) == Seq::<u32>::empty())
                && old(self).flags().words().len() < MAX_FLAG_WORDS
                ==> r is Ok && final(self).flags().words() == old(self).flags().words()
                    && final(self).flags().offsets() == old(self).flags().offsets()
                    && final(self).strings() == old(self).strings(),
    {
        let mut map: HashMap<u32, u32> = HashMap::new();
        let n = smaller.flags_set.num_sets();
        let ghost w0 = *self;
        let ghost cond = (forall|q: int| 0 <= q < n ==> smaller.flags_set.set_at(#[trigger] smaller.flags_set.offsets()[q]).len() == 0)
            && (exists|o: u32| w0.flags().has_set(o) && w0.flags().set_at(o) == Seq::<u32>::empty())
            && w0.flags().words().len() < MAX_FLAG_WORDS;
        proof {
            if n > 0 {
                crate::flags::lemma_entry_next(smaller.flags_set.words(), smaller.flags_set.offsets(), 0);
            }
        }
        let mut i: usize = 0;
        while i < n
            invariant
                smaller.valid(),
                n == smaller.flags_set.offsets().len(),
                i <= n,
                self.wf(),
                self.days() == w0.days(),
                self.today() == w0.today(),
                self.keys() == w0.keys(),
                self.data() == w0.data(),
                w0.rings_aligned() ==> self.rings_aligned(),
                cond == ((forall|q: int| 0 <= q < n ==> smaller.flags_set.set_at(#[trigger] smaller.flags_set.offsets()[q]).len() == 0)
                    && (exists|o: u32| w0.flags().has_set(o) && w0.flags().set_at(o) == Seq::<u32>::empty())
                    && w0.flags().words().len() < MAX_FLAG_WORDS),
                w0 == *old(self),
                cond ==> forall|q: int| 0 <= q < n ==> smaller.flags_set.set_at(#[trigger] smaller.flags_set.offsets()[q]).len() == 0,
                cond ==> exists|o: u32| w0.flags().has_set(o) && w0.flags().set_at(o) == Seq::<u32>::empty(),
                cond ==> w0.flags().words().len() < MAX_FLAG_WORDS,
                smaller.string_bytes@.len() <= u32::MAX,
                self.strings().len() <= w0.strings().len() + next_set(smaller.flags_set, i as int) * (smaller.string_bytes@.len() + 18),
                self.flags().words().len() <= w0.flags().words().len() + next_set(smaller.flags_set, i as int),
                next_set(smaller.flags_set, i as int) <= smaller.flags_set.words().len(),
                w0.strings().is_prefix_of(self.strings()),
                w0.interned() ==> self.interned(),
                forall|q: int| 0 <= q < i ==> map@.contains_key(#[trigger] smaller.flags_set.offsets()[q]),
                forall|o2: u32| #[trigger] map@.contains_key(o2) ==> smaller.flags_set.has_set(o2),
                forall|a: int, j: int|
                    0 <= a < i && 0 <= j < smaller.flags_set.set_at(smaller.flags_set.offsets()[a]).len()
                        ==> valid_ref(smaller.string_bytes@, #[trigger] smaller.flags_set.set_at(smaller.flags_set.offsets()[a])[j] as int),
                forall|o: u32| #[trigger] map@.contains_key(o) ==> self.flags().has_set(map@[o])
                    && same_names(self.strings(), self.flags().set_at(map@[o]), smaller.string_bytes@, smaller.flags_set.set_at(o)),
                (forall|q: int| 0 <= q < n ==> smaller.flags_set.set_at(#[trigger] smaller.flags_set.offsets()[q]).len() == 0)
                    && (exists|o: u32| w0.flags().has_set(o) && w0.flags().set_at(o) == Seq::<u32>::empty())
                    ==> self.flags().words() == w0.flags().words() && self.flags().offsets() == w0.flags().offsets() && self.strings() == w0.strings(),
            decreases n - i,
        {
            let o = smaller.flags_set.offset_at(i);
            proof {
                assert(smaller.flags_set.has_set(o));
            }
            let flags = match smaller.flags_set.resolve(smaller.string_bytes.as_slice(), o) {
                Ok(f) => f,
                Err(e) => {
                    proof {
                        if cond {
                            assert(smaller.flags_set.set_at(smaller.flags_set.offsets()[i as int]).len() == 0);
                        }
                        let f = smaller.flags_set;
                        let j = choose|j: int| 0 <= j < f.set_at(o).len() && !valid_ref(smaller.string_bytes@, #[trigger] f.set_at(o)[j] as int);
                        assert(f.set_at(f.offsets()[i as int]) == f.set_at(o));
                    }
                    return Err(e);
                },
            };
            let ghost k = smaller.string_bytes@.len() as int;
            let ghost off = next_set(smaller.flags_set, i as int);
            proof {
                let f = smaller.flags_set;
                crate::flags::lemma_entry_next(f.words(), f.offsets(), i as int);
                crate::flags::lemma_entry_inside(f.words(), f.offsets(), i as int);
                assert(off == o);
                assert forall|j: int| 0 <= j < flags@.len() implies utf8_len(#[trigger] flags@[j]@) <= k by {
                    crate::string_table::lemma_string_len(smaller.string_bytes@, f.set_at(o)[j] as int);
                }
                crate::flags::lemma_room_bound(flags@, k);
                let c = flags@.len() as int;
                assert(next_set(f, i + 1) == off + 1 + c);
                assert(off * (k + 18) + c * (k + 9) <= (off + 1 + c) * (k + 18)) by (nonlinear_arith)
                    requires 0 <= off, 0 <= c, 0 <= k;
                assert((off + 1 + c) * (k + 18) <= f.words().len() * (k + 18)) by (nonlinear_arith)
                    requires off + 1 + c <= f.words().len(), 0 <= k;
            }
            proof {
                if (forall|q: int| 0 <= q < n ==> smaller.flags_set.set_at(#[trigger] smaller.flags_set.offsets()[q]).len() == 0) {
                    assert(smaller.flags_set.set_at(smaller.flags_set.offsets()[i as int]).len() == 0);
                    assert(flags@.len() == 0);
                    assert(strings_room(flags@) == 0);
                }
            }
            if !self.room_for_flags(&flags) {
                proof {
                    assert(!flags_fit(w0, *smaller));
                    if cond {
                        assert(smaller.flags_set.set_at(smaller.flags_set.offsets()[i as int]).len() == 0);
                        assert(flags@.len() == 0);
                        assert(strings_room(flags@) == 0);
                        assert(self.flags().words() == w0.flags().words());
                        assert(self.strings().len() + strings_room(flags@) <= u32::MAX);
                        assert(self.flags().words().len() + 1 + flags@.len() <= MAX_FLAG_WORDS);
                    }
                }
                return Err(TestAnalyticsError::InvalidFormat);
            }
            let ghost s0 = self.strings();
            let ghost f0 = self.flags();
            let ghost prev = *self;
            let new_o = self.flags_set.insert(&mut self.string_table, &flags);
            proof {
                self.lemma_keys_stay_valid(s0, f0);
                assert(w0.strings().is_prefix_of(self.strings())) by {
                    assert(self.strings().subrange(0, w0.strings().len() as int) =~= s0.subrange(0, w0.strings().len() as int));
                }
                if w0.interned() {
                    assert forall|j: int| 0 <= j < self.keys().len() implies is_entry(self.strings(), #[trigger] self.keys()[j].0 as int)
                        && is_entry(self.strings(), self.keys()[j].1 as int) by {
                        assert(is_entry(s0, self.keys()[j].0 as int));
                        assert(is_entry(s0, self.keys()[j].1 as int));
                    }
                }
                if (forall|q: int| 0 <= q < n ==> smaller.flags_set.set_at(#[trigger] smaller.flags_set.offsets()[q]).len() == 0)
                    && (exists|o: u32| w0.flags().has_set(o) && w0.flags().set_at(o) == Seq::<u32>::empty()) {
                    assert(smaller.flags_set.set_at(smaller.flags_set.offsets()[i as int]).len() == 0);
                    let e = choose|e: u32| w0.flags().has_set(e) && w0.flags().set_at(e) == Seq::<u32>::empty();
                    assert(prev.flags().has_set(e) && prev.flags().set_at(e) == Seq::<u32>::empty());
                }
                if prev.rings_aligned() {
                    assert forall|j: int| 0 <= j < self.keys().len() implies ring_aligned(#[trigger] self.ring(j), self.today()) by {
                        assert(self.ring(j) == prev.ring(j));
                    }
                }
            }
            proof {
                assert forall|o2: u32| #[trigger] map@.contains_key(o2) implies self.flags().has_set(map@[o2])
                    && same_names(self.strings(), self.flags().set_at(map@[o2]), smaller.string_bytes@, smaller.flags_set.set_at(o2)) by {
                    crate::flags::lemma_set_refs(prev.flags(), prev.strings(), map@[o2]);
                    crate::flags::lemma_names_extend(prev.strings(), self.strings(), prev.flags().set_at(map@[o2]));
                }
                crate::flags::lemma_set_refs(self.flags(), self.strings(), new_o);
                crate::flags::lemma_matches_names(self.strings(), self.flags().set_at(new_o), flags@);
                assert(crate::flags::flag_chars(flags@) =~= crate::flags::names(smaller.string_bytes@, smaller.flags_set.set_at(o)));
            }
            map.insert(o, new_o);
            proof {
                assert(smaller.flags_set.offsets()[i as int] == o);
            }
            i = i + 1;
        }
        proof {
            assert(next_set(smaller.flags_set, n as int) == smaller.flags_set.words().len());
        }
        Ok(map)
    }
}

/// Where the flag set after set `i` of `f` starts: the number of words the first `i` sets
/// take.
pub open spec fn next_set(f: FlagsSet, i: int) -> int {
    if 0 <= i < f.offsets().len() {
        f.offsets()[i] as int
    } else {
        f.words().len() as int
    }
}

/// Re-interning every flag set of `v` into `w` cannot outgrow the tables, however little
/// the strings are shared: each flag string is at most as long as `v`'s string table.
pub open spec fn flags_fit(w: TestAnalyticsWriter, v: TestAnalytics) -> bool {
    &&& w.strings().len() + v.flags_set.words().len() * (v.string_bytes@.len() + 18) <= u32::MAX
    &&& w.flags().words().len() + v.flags_set.words().len() <= MAX_FLAG_WORDS
}


/// What merging one test of another artifact did, test `i` being the one it went to: the
/// key holds the test's strings and mapped flag set, a new key went to the end, the other
/// rings stayed, and the test's ring has the other ring added in.
pub open spec fn test_merged<F: Fn(u32, u32) -> u32>(
    w0: TestAnalyticsWriter,
    w1: TestAnalyticsWriter,
    i: int,
    suite: Seq<char>,
    name: Seq<char>,
    fs: u32,
    src: Seq<TestData>,
    sum: F,
) -> bool {
    let k = w1.keys()[i];
    let is_new = i == w0.keys().len();
    let base = if is_new {
        empty_ring(w0.days())
    } else {
        w0.ring(i)
    };
    &&& 0 <= i < w1.keys().len()
    &&& string_at(w1.strings(), k.0 as int) == suite
    &&& string_at(w1.strings(), k.1 as int) == name
    &&& k.2 == fs
    &&& if is_new {
        w1.keys() == w0.keys().push(k)
    } else {
        w1.keys() == w0.keys()
    }
    &&& forall|j: int| 0 <= j < w0.keys().len() && j != i ==> #[trigger] w1.ring(j) == w0.ring(j)
    &&& ring_merged(base, src, w1.ring(i), sum)
}

impl TestAnalyticsWriter {
    /// Adds the `len` buckets of `src` from `from` on into the buckets from `at` on.
    fn accumulate<F: Fn(u32, u32) -> u32>(&mut self, at: usize, src: &Vec<TestData>, from: usize, len: usize, sum: &F)
        requires
            at + len <= old(self).data().len(),
            from + len <= src@.len(),
            forall|a: u32, b: u32| sum.requires((a, b)),
        ensures
            final(self).days() == old(self).days(),
            final(self).today() == old(self).today(),
            final(self).keys() == old(self).keys(),
            final(self).strings() == old(self).strings(),
            final(self).flags() == old(self).flags(),
            final(self).data().len() == old(self).data().len(),
            forall|p: int| 0 <= p < old(self).data().len() ==> if at <= p < at + len {
                bucket_merged(old(self).data()[p], src@[from + p - at], #[trigger] final(self).data()[p], *sum)
            } else {
                final(self).data()[p] == old(self).data()[p]
            },
    {
        let ghost d0 = self.data();
        let dlen = self.testdata.len();
        let slen = src.len();
        let mut q: usize = 0;
        while q < len
            invariant
                dlen == d0.len(),
                slen == src@.len(),
                at + len <= d0.len(),
                from + len <= src@.len(),
                forall|a: u32, b: u32| sum.requires((a, b)),
                q <= len,
                self.days() == old(self).days(),
                self.today() == old(self).today(),
                self.keys() == old(self).keys(),
                self.strings() == old(self).strings(),
                self.flags() == old(self).flags(),
                d0 == old(self).data(),
                self.data().len() == d0.len(),
                forall|p: int| 0 <= p < d0.len() ==> if at <= p < at + q {
                    bucket_merged(d0[p], src@[from + p - at], #[trigger] self.data()[p], *sum)
                } else {
                    self.data()[p] == d0[p]
                },
            decreases len - q,
        {
            let mut l = self.testdata[at + q];
            let s = src[from + q];
            l.total_pass_count = add_count(l.total_pass_count, s.total_pass_count);
            l.total_fail_count = add_count(l.total_fail_count, s.total_fail_count);
            l.total_skip_count = add_count(l.total_skip_count, s.total_skip_count);
            l.total_flaky_fail_count = add_count(l.total_flaky_fail_count, s.total_flaky_fail_count);
            l.total_duration = sum(l.total_duration, s.total_duration);
            if s.last_timestamp >= l.last_timestamp {
                l.last_timestamp = s.last_timestamp;
                l.last_duration = s.last_duration;
            }
            self.testdata.set(at + q, l);
            q = q + 1;
        }
    }

    /// Adds test `si` of `smaller` into this writer, its flag set mapped by `map`.
    #[verifier::rlimit(60)]
    fn merge_test<F: Fn(u32, u32) -> u32>(
        &mut self,
        smaller: &TestAnalytics,
        si: usize,
        map: &HashMap<u32, u32>,
        sum: &F,
    ) -> (r: Result<(), TestAnalyticsError>)
        requires
            old(self).wf(),
            smaller.valid(),
            si < smaller.tests@.len(),
            forall|o: u32| #[trigger] map@.contains_key(o) ==> old(self).flags().has_set(map@[o]),
            forall|a: u32, b: u32| sum.requires((a, b)),
        ensures
            r is Err ==> *final(self) == *old(self),
            r is Ok ==> final(self).wf(),
            r is Ok ==> final(self).days() == old(self).days(),
            r is Ok ==> final(self).today() == old(self).today(),
            r is Ok ==> final(self).flags() == old(self).flags(),
            r is Ok ==> old(self).keys().is_prefix_of(final(self).keys()),
            r is Ok ==> old(self).strings().is_prefix_of(final(self).strings()),
            r is Ok ==> final(self).keys().len() <= old(self).keys().len() + 1,
            r is Ok ==> final(self).strings().len() <= old(self).strings().len() + 2 * (smaller.string_bytes@.len() + 18),
            r is Ok ==> (old(self).interned() ==> final(self).interned()),
            r is Ok ==> (old(self).interned() && (exists|j: int| 0 <= j < old(self).keys().len() && #[trigger] old(self).key_names(old(self).keys()[j],
                string_at(smaller.string_bytes@, smaller.keys()[si as int].0 as int), string_at(smaller.string_bytes@, smaller.keys()[si as int].1 as int),
                map@[smaller.keys()[si as int].2])) ==> final(self).keys() == old(self).keys()),
            r is Ok ==> valid_ref(smaller.string_bytes@, smaller.keys()[si as int].0 as int)
                && valid_ref(smaller.string_bytes@, smaller.keys()[si as int].1 as int)
                && map@.contains_key(smaller.keys()[si as int].2),
            r is Err ==> r == Err::<(), _>(TestAnalyticsError::InvalidStringReference)
                || r == Err::<(), _>(TestAnalyticsError::InvalidFlagSetReference)
                || r == Err::<(), _>(TestAnalyticsError::InvalidFormat),
            r == Err::<(), _>(TestAnalyticsError::InvalidStringReference) ==> !valid_ref(smaller.string_bytes@, smaller.keys()[si as int].0 as int)
                || !valid_ref(smaller.string_bytes@, smaller.keys()[si as int].1 as int),
            r == Err::<(), _>(TestAnalyticsError::InvalidFlagSetReference) ==> !map@.contains_key(smaller.keys()[si as int].2),
            r == Err::<(), _>(TestAnalyticsError::InvalidFormat) ==> old(self).strings().len() + 2 * (smaller.string_bytes@.len() + 18) > u32::MAX
                || old(self).keys().len() >= u32::MAX,
            r is Ok ==> exists|i: int, fs: u32| #![trigger test_merged(*old(self), *final(self), i, string_at(smaller.string_bytes@, smaller.keys()[si as int].0 as int), string_at(smaller.string_bytes@, smaller.keys()[si as int].1 as int), fs, ring_of(smaller.testdata@, si as int, smaller.header.num_days as int), *sum)]
                test_merged(*old(self), *final(self), i, string_at(smaller.string_bytes@, smaller.keys()[si as int].0 as int), string_at(smaller.string_bytes@, smaller.keys()[si as int].1 as int), fs, ring_of(smaller.testdata@, si as int, smaller.header.num_days as int), *sum)
                && map@.contains_key(smaller.keys()[si as int].2) && map@[smaller.keys()[si as int].2] == fs,
    {
        let key = smaller.tests[si].to_key();
        proof {
            assert(key == smaller.keys()[si as int]);
        }
        let suite = match checked_read(smaller.string_bytes.as_slice(), key.0 as usize) {
            Some(x) => x,
            None => {
                return Err(TestAnalyticsError::InvalidStringReference);
            },
        };
        let name = match checked_read(smaller.string_bytes.as_slice(), key.1 as usize) {
            Some(x) => x,
            None => {
                return Err(TestAnalyticsError::InvalidStringReference);
            },
        };
        let fs = match map.get(&key.2) {
            Some(x) => *x,
            None => {
                return Err(TestAnalyticsError::InvalidFlagSetReference);
            },
        };
        let room = self.string_room();
        let sl = suite.as_str().len();
        let nl = name.as_str().len();
        proof {
            crate::string_table::lemma_string_len(smaller.string_bytes@, key.0 as int);
            crate::string_table::lemma_string_len(smaller.string_bytes@, key.1 as int);
        }
        if sl > room || nl > room - sl || 18 > room - sl - nl {
            return Err(TestAnalyticsError::InvalidFormat);
        }
        if index_len(&self.tests) >= u32::MAX as usize {
            return Err(TestAnalyticsError::InvalidFormat);
        }
        proof {
            assert(map@.contains_key(key.2) && map@[key.2] == fs);
            assert(self.flags().has_set(fs));
        }
        let ghost w0 = *self;
        let (idx, inserted) = self.upsert_key(suite.as_str(), name.as_str(), fs);
        let ghost w1 = *self;
        let n = self.num_days;
        proof {
            if inserted {
                assert(w0.data().len() == idx * w0.days());
            }
        }
        if inserted {
            self.prepare_ring(idx, true);
        }
        let ghost w2 = *self;
        let _l = self.testdata.len();
        let sn = smaller.header.num_days as usize;
        let _sl = smaller.testdata.len();
        proof {
            lemma_index_in_ring(si as int, 0, smaller.tests@.len() as int, sn as int);
            lemma_index_in_ring(idx as int, 0, self.keys().len() as int, n as int);
        }
        let sstart = si * sn;
        let dstart = idx * n;
        let ts_s = smaller.testdata[sstart].last_timestamp;
        let ts_l = self.testdata[dstart].last_timestamp;
        let ghost base = if inserted { empty_ring(n as nat) } else { w0.ring(idx as int) };
        proof {
            if inserted {
                assert(w2.ring(idx as int) == empty_ring(n as nat));
            } else {
                assert(w2.ring(idx as int) == w0.ring(idx as int));
            }
            assert(w2.ring(idx as int) == base);
            assert(base[0] == w2.data()[dstart as int]);
        }
        let (lo, hi) = if ts_s > ts_l {
            let d = offset_from_today(ts_l, ts_s);
            shift_data(&mut self.testdata, dstart, n, d);
            adjust_selection_range(sstart, sstart + sn, 0, n, 0)
        } else {
            let d = offset_from_today(ts_s, ts_l);
            adjust_selection_range(sstart, sstart + sn, 0, n, d)
        };
        let off: usize = if ts_s > ts_l {
            0
        } else {
            (ts_l - ts_s) as usize
        };
        let ghost w3 = *self;
        proof {
            assert(w3.ring(idx as int) =~= if ts_s > ts_l { shift_seq(base, ts_s - ts_l) } else { base });
        }
        let len = hi - lo;
        if len > 0 {
            proof {
                assert(off + len <= n);
                assert(dstart + off + len <= w3.data().len());
            }
            self.accumulate(dstart + off, &smaller.testdata, lo, len, sum);
        }
        proof {
            let i = idx as int;
            let src = ring_of(smaller.testdata@, si as int, sn as int);
            assert(src[0].last_timestamp == ts_s);
            assert forall|j: int| 0 <= j < w0.keys().len() && j != i implies #[trigger] self.ring(j) == w0.ring(j) by {
                assert(w2.ring(j) == w0.ring(j));
                if j < i {
                    lemma_rings_apart(j, i, n as int);
                } else {
                    lemma_rings_apart(i, j, n as int);
                }
                lemma_index_in_ring(j, 0, self.keys().len() as int, n as int);
                assert(w3.ring(j) =~= w2.ring(j));
                assert(self.ring(j) =~= w3.ring(j));
            }
            assert(ring_merged(base, src, self.ring(i), *sum)) by {
                let b2 = w3.ring(i);
                assert forall|k: int| 0 <= k < n implies if off <= k < off + len {
                    bucket_merged(b2[k], src[k - off], #[trigger] self.ring(i)[k], *sum)
                } else {
                    self.ring(i)[k] == b2[k]
                } by {
                    assert(self.ring(i)[k] == self.data()[dstart + k]);
                    assert(b2[k] == w3.data()[dstart + k]);
                    if off <= k < off + len {
                        assert(src[k - off] == smaller.testdata@[lo + k - off]);
                    }
                }
            }
            assert(test_merged(w0, *self, i, suite@, name@, fs, src, *sum));
            assert(w0.keys().is_prefix_of(self.keys()));
            assert(self.wf()) by {
                assert forall|j: int| 0 <= j < self.keys().len() implies self.key_valid(#[trigger] self.keys()[j]) by {
                    assert(w1.key_valid(w1.keys()[j]));
                }
            }
        }
        Ok(())
    }
}

/// The artifact merge seeds its writer from: the one with more tests, or with more days
/// when the tests are as many; `a` on a tie.
pub open spec fn larger_of(a: TestAnalytics, b: TestAnalytics) -> bool {
    b.header.num_tests > a.header.num_tests || (b.header.num_tests == a.header.num_tests
        && b.header.num_days > a.header.num_days)
}

/// `smaller` has no tests and only empty flag sets.
pub open spec fn adds_nothing(smaller: TestAnalytics) -> bool {
    &&& smaller.tests@.len() == 0
    &&& forall|q: int|
        0 <= q < smaller.flags_set.offsets().len() ==> smaller.flags_set.set_at(
            #[trigger] smaller.flags_set.offsets()[q],
        ).len() == 0
}

/// Every string reference of `v` reads: those of its flag sets and those of its tests.
pub open spec fn string_refs_ok(v: TestAnalytics) -> bool {
    &&& v.flags_set.refs_valid(v.string_bytes@)
    &&& forall|q: int|
        0 <= q < v.keys().len() ==> valid_ref(v.string_bytes@, #[trigger] v.keys()[q].0 as int)
            && valid_ref(v.string_bytes@, v.keys()[q].1 as int)
}

/// Every test of `v` names one of its flag sets.
pub open spec fn flag_refs_ok(v: TestAnalytics) -> bool {
    forall|q: int| 0 <= q < v.keys().len() ==> v.flags_set.has_set(#[trigger] v.keys()[q].2)
}

/// Every reference of `v` resolves.
pub open spec fn refs_ok(v: TestAnalytics) -> bool {
    string_refs_ok(v) && flag_refs_ok(v)
}

/// Merging `smaller` into `larger` cannot outgrow the artifact's tables, however little
/// the strings are shared: each string added is at most as long as `smaller`'s string
/// table, and each flag set and test adds at most its words and one key.
pub open spec fn merge_fits(larger: TestAnalytics, smaller: TestAnalytics) -> bool {
    &&& larger.string_bytes@.len() + (smaller.flags_set.words().len() + 2 * smaller.tests@.len())
        * (smaller.string_bytes@.len() + 18) <= u32::MAX
    &&& larger.flags_set.words().len() + smaller.flags_set.words().len() <= MAX_FLAG_WORDS
    &&& larger.tests@.len() + smaller.tests@.len() < u32::MAX
}

/// `seed` is the writer a merge starts from: the keys and buckets of `larger`, its string
/// table as a prefix of the seed's, with the flag sets of the other view interned.
pub open spec fn seeded_from(seed: TestAnalyticsWriter, larger: TestAnalytics) -> bool {
    &&& seed.keys() == larger.keys()
    &&& seed.data() == larger.testdata@
    &&& seed.days() == larger.header.num_days
    &&& larger.string_bytes@.is_prefix_of(seed.strings())
}

/// Step `q` of `ws` merged test `q` of `v` in, as [`test_merged`] says, under a flag set
/// that names the strings of the test's own flags; where the tables hold each string and
/// set once and a test with that suite, name and flag set is already there, the test
/// joins it and no key is added.
pub open spec fn step_holds<F: Fn(u32, u32) -> u32>(ws: Seq<TestAnalyticsWriter>, v: TestAnalytics, q: int, sum: F) -> bool {
    exists|i: int, fs: u32|
        #![trigger test_merged(ws[q], ws[q + 1], i, string_at(v.string_bytes@, v.keys()[q].0 as int), string_at(v.string_bytes@, v.keys()[q].1 as int), fs, ring_of(v.testdata@, q, v.header.num_days as int), sum)]
        test_merged(ws[q], ws[q + 1], i, string_at(v.string_bytes@, v.keys()[q].0 as int), string_at(v.string_bytes@, v.keys()[q].1 as int), fs, ring_of(v.testdata@, q, v.header.num_days as int), sum)
            && same_names(ws[q + 1].strings(), ws[q + 1].flags().set_at(fs), v.string_bytes@, v.flags_set.set_at(v.keys()[q].2))
            && (ws[q].interned() ==> ws[q + 1].interned())
            && (ws[q].interned() && (exists|j: int| 0 <= j < ws[q].keys().len() && #[trigger] ws[q].key_names(ws[q].keys()[j],
                string_at(v.string_bytes@, v.keys()[q].0 as int), string_at(v.string_bytes@, v.keys()[q].1 as int), fs))
                ==> ws[q + 1].keys() == ws[q].keys())
}

/// The first `n` steps of `ws` merged the first `n` tests of `v` in, one after the other.
pub open spec fn merged_prefix<F: Fn(u32, u32) -> u32>(ws: Seq<TestAnalyticsWriter>, v: TestAnalytics, n: int, sum: F) -> bool {
    forall|q: int| 0 <= q < n ==> #[trigger] step_holds(ws, v, q, sum)
}

/// `w` is `seed` with the tests of `v` merged in one after the other, in their order,
/// through the writers `ws`.
pub open spec fn merged_in_order<F: Fn(u32, u32) -> u32>(seed: TestAnalyticsWriter, w: TestAnalyticsWriter, v: TestAnalytics, ws: Seq<TestAnalyticsWriter>, sum: F) -> bool {
    &&& ws.len() == v.tests@.len() + 1
    &&& ws[0] == seed
    &&& ws.last() == w
    &&& merged_prefix(ws, v, v.tests@.len() as int, sum)
}

/// The artifact merge seeds its writer from.
pub open spec fn merge_larger(a: TestAnalytics, b: TestAnalytics) -> TestAnalytics {
    if larger_of(a, b) {
        b
    } else {
        a
    }
}

/// The artifact merge adds into the seeded writer.
pub open spec fn merge_smaller(a: TestAnalytics, b: TestAnalytics) -> TestAnalytics {
    if larger_of(a, b) {
        a
    } else {
        b
    }
}

/// Merging `smaller` into `larger` adds nothing: `larger` is consistent and has an empty
/// flag set and room for one more word, and `smaller` has no tests and only empty sets.
pub open spec fn merges_as_identity(larger: TestAnalytics, smaller: TestAnalytics) -> bool {
    &&& larger.consistent()
    &&& adds_nothing(smaller)
    &&& exists|o: u32| larger.flags_set.has_set(o) && larger.flags_set.set_at(o) == Seq::<u32>::empty()
    &&& larger.flags_set.words().len() < MAX_FLAG_WORDS
}

impl TestAnalyticsWriter {
    /// Merges two parsed artifacts into a new writer: the larger one is taken over, and
    /// each test of the other is added in, its ring aligned by its anchor day.
    pub fn merge<F: Fn(u32, u32) -> u32>(a: &TestAnalytics, b: &TestAnalytics, sum: &F) -> (r: Result<Self, TestAnalyticsError>)
        requires
            a.valid(),
            b.valid(),
            forall|x: u32, y: u32| sum.requires((x, y)),
        ensures
            merge_larger(*a, *b).consistent() && refs_ok(merge_smaller(*a, *b))
                && merge_fits(merge_larger(*a, *b), merge_smaller(*a, *b)) ==> r is Ok,
            r is Err ==> !merge_larger(*a, *b).consistent() || !refs_ok(merge_smaller(*a, *b))
                || !merge_fits(merge_larger(*a, *b), merge_smaller(*a, *b)),
            r == Err::<Self, _>(TestAnalyticsError::InvalidStringReference) ==> !merge_larger(*a, *b).consistent()
                || !string_refs_ok(merge_smaller(*a, *b)),
            r == Err::<Self, _>(TestAnalyticsError::InvalidFlagSetReference) ==> !merge_larger(*a, *b).consistent()
                || !flag_refs_ok(merge_smaller(*a, *b)),
            r == Err::<Self, _>(TestAnalyticsError::InvalidFormat) ==> !merge_larger(*a, *b).consistent()
                || !merge_fits(merge_larger(*a, *b), merge_smaller(*a, *b)),
            r is Ok ==> merge_larger(*a, *b).consistent(),
            r is Ok ==> refs_ok(merge_smaller(*a, *b)),
            r matches Ok(w) ==> w.wf() && w.days() == merge_larger(*a, *b).header.num_days
                && w.today() == (if a.header.timestamp >= b.header.timestamp { a.header.timestamp } else { b.header.timestamp })
                && merge_larger(*a, *b).keys().is_prefix_of(w.keys())
                && w.keys().len() <= merge_larger(*a, *b).keys().len() + merge_smaller(*a, *b).keys().len(),
            r matches Ok(w) ==> exists|seed: TestAnalyticsWriter, ws: Seq<TestAnalyticsWriter>|
                seeded_from(seed, merge_larger(*a, *b)) && #[trigger] merged_in_order(seed, w, merge_smaller(*a, *b), ws, *sum),
            merges_as_identity(merge_larger(*a, *b), merge_smaller(*a, *b)) ==> (r matches Ok(w)
                && w.keys() == merge_larger(*a, *b).keys() && w.data() == merge_larger(*a, *b).testdata@
                && w.strings() == merge_larger(*a, *b).string_bytes@
                && w.flags().words() == merge_larger(*a, *b).flags_set.words()),
    {
        let pick_b = b.header.num_tests > a.header.num_tests || (b.header.num_tests == a.header.num_tests
            && b.header.num_days > a.header.num_days);
        let (larger, smaller) = if pick_b {
            (b, a)
        } else {
            (a, b)
        };
        proof {
            assert(*larger == merge_larger(*a, *b));
            assert(*smaller == merge_smaller(*a, *b));
        }
        let mut writer = match Self::from_existing_format(larger) {
            Ok(w) => w,
            Err(e) => {
                return Err(e);
            },
        };
        writer.timestamp = if a.header.timestamp >= b.header.timestamp {
            a.header.timestamp
        } else {
            b.header.timestamp
        };
        let ghost w0 = writer;
        let ghost k = smaller.string_bytes@.len() + 18;
        proof {
            if merges_as_identity(*larger, *smaller) {
                let o = choose|o: u32| larger.flags_set.has_set(o) && larger.flags_set.set_at(o) == Seq::<u32>::empty();
                assert(w0.flags().has_set(o) && w0.flags().set_at(o) == Seq::<u32>::empty());
            }
            if merge_fits(*larger, *smaller) {
                assert(smaller.flags_set.words().len() * k <= (smaller.flags_set.words().len() + 2 * smaller.tests@.len()) * k) by (nonlinear_arith)
                    requires 0 <= k;
                assert(flags_fit(w0, *smaller));
            }
        }
        let map = match writer.merge_flags(smaller) {
            Ok(m) => m,
            Err(e) => {
                return Err(e);
            },
        };
        let ghost w1 = writer;
        let nt = smaller.tests.len();
        let ghost mut ws: Seq<TestAnalyticsWriter> = seq![w1];
        let mut si: usize = 0;
        while si < nt
            invariant
                smaller.valid(),
                nt == smaller.tests@.len(),
                si <= nt,
                writer.wf(),
                writer.days() == w0.days(),
                writer.today() == w0.today(),
                writer.flags() == w1.flags(),
                w0.keys().is_prefix_of(writer.keys()),
                writer.keys().len() <= w0.keys().len() + si,
                forall|o: u32| #[trigger] map@.contains_key(o) ==> writer.flags().has_set(map@[o])
                    && same_names(writer.strings(), writer.flags().set_at(map@[o]), smaller.string_bytes@, smaller.flags_set.set_at(o)),
                forall|q: int| 0 <= q < smaller.flags_set.offsets().len() ==> map@.contains_key(#[trigger] smaller.flags_set.offsets()[q]),
                forall|x: u32, y: u32| sum.requires((x, y)),
                merges_as_identity(*larger, *smaller) ==> nt == 0 && writer == w1,
                *larger == merge_larger(*a, *b),
                *smaller == merge_smaller(*a, *b),
                w0.keys() == larger.keys(),
                w0.strings() == larger.string_bytes@,
                k == smaller.string_bytes@.len() + 18,
                w1.strings().len() <= w0.strings().len() + smaller.flags_set.words().len() * k,
                writer.strings().len() <= w1.strings().len() + 2 * si * k,
                ws.len() == si + 1,
                ws[0] == w1,
                ws.last() == writer,
                merged_prefix(ws, *smaller, si as int, *sum),
                smaller.flags_set.refs_valid(smaller.string_bytes@),
                forall|o2: u32| #[trigger] map@.contains_key(o2) ==> smaller.flags_set.has_set(o2),
                forall|q: int| 0 <= q < si ==> valid_ref(smaller.string_bytes@, #[trigger] smaller.keys()[q].0 as int)
                    && valid_ref(smaller.string_bytes@, smaller.keys()[q].1 as int)
                    && smaller.flags_set.has_set(smaller.keys()[q].2),
            decreases nt - si,
        {
            let ghost before = writer;
            proof {
                if larger.consistent() && refs_ok(*smaller) && merge_fits(*larger, *smaller) {
                    assert(2 * si * k + 2 * k <= 2 * smaller.tests@.len() * k) by (nonlinear_arith)
                        requires si < smaller.tests@.len(), 0 <= k;
                    let kk = smaller.keys()[si as int];
                    assert(smaller.flags_set.has_set(kk.2));
                    let q = choose|q: int| 0 <= q < smaller.flags_set.offsets().len() && smaller.flags_set.offsets()[q] == kk.2;
                    assert(map@.contains_key(kk.2));
                }
            }
            match writer.merge_test(smaller, si, &map, sum) {
                Ok(()) => {},
                Err(e) => {
                    proof {
                        let kk = smaller.keys()[si as int];
                        if flag_refs_ok(*smaller) {
                            assert(smaller.flags_set.has_set(kk.2));
                            let q = choose|q: int| 0 <= q < smaller.flags_set.offsets().len() && smaller.flags_set.offsets()[q] == kk.2;
                            assert(map@.contains_key(kk.2));
                        }
                        if merge_fits(*larger, *smaller) {
                            let t = smaller.tests@.len() as int;
                            let sw = smaller.flags_set.words().len() as int;
                            assert(2 * si * k + 2 * k <= 2 * t * k) by (nonlinear_arith)
                                requires si < t, 0 <= k;
                            assert((sw + 2 * t) * k == sw * k + 2 * t * k) by (nonlinear_arith);
                            assert(larger.keys().len() == larger.tests@.len());
                        }
                    }
                    return Err(e);
                },
            }
            proof {
                assert(w0.keys().is_prefix_of(writer.keys())) by {
                    assert(before.keys().is_prefix_of(writer.keys()));
                    assert forall|j: int| 0 <= j < w0.keys().len() implies w0.keys()[j] == writer.keys()[j] by {
                        assert(w0.keys()[j] == before.keys()[j]);
                    }
                }
                assert(2 * si * k + 2 * k == 2 * (si + 1) * k) by (nonlinear_arith);
                assert forall|o2: u32| #[trigger] map@.contains_key(o2) implies writer.flags().has_set(map@[o2])
                    && same_names(writer.strings(), writer.flags().set_at(map@[o2]), smaller.string_bytes@, smaller.flags_set.set_at(o2)) by {
                    crate::flags::lemma_set_refs(before.flags(), before.strings(), map@[o2]);
                    crate::flags::lemma_names_extend(before.strings(), writer.strings(), before.flags().set_at(map@[o2]));
                }
                let ws2 = ws.push(writer);
                assert forall|q: int| 0 <= q < si + 1 implies #[trigger] step_holds(ws2, *smaller, q, *sum) by {
                    if q < si {
                        assert(step_holds(ws, *smaller, q, *sum));
                        assert(ws2[q] == ws[q] && ws2[q + 1] == ws[q + 1]);
                    } else {
                        let suite = string_at(smaller.string_bytes@, smaller.keys()[q].0 as int);
                        let name = string_at(smaller.string_bytes@, smaller.keys()[q].1 as int);
                        let src = ring_of(smaller.testdata@, q, smaller.header.num_days as int);
                        let (i, fs) = choose|i: int, fs: u32| #![trigger test_merged(before, writer, i, suite, name, fs, src, *sum)]
                            test_merged(before, writer, i, suite, name, fs, src, *sum)
                            && map@.contains_key(smaller.keys()[q].2) && map@[smaller.keys()[q].2] == fs;
                        assert(ws2[q] == before && ws2[q + 1] == writer);
                        assert(test_merged(ws2[q], ws2[q + 1], i, suite, name, fs, src, *sum));
                    }
                }
                ws = ws2;
            }
            si = si + 1;
        }
        proof {
            assert(smaller.keys().len() == nt);
            if adds_nothing(*smaller) {
                assert(writer.keys() == w0.keys()) by {
                    assert(writer.keys().len() <= w0.keys().len());
                    assert(writer.keys() =~= w0.keys());
                }
            }
            assert(seeded_from(w1, *larger));
            assert forall|q: int| 0 <= q < smaller.keys().len() implies valid_ref(smaller.string_bytes@, #[trigger] smaller.keys()[q].0 as int)
                && valid_ref(smaller.string_bytes@, smaller.keys()[q].1 as int) by {
                assert(smaller.keys().len() == nt);
                assert(0 <= q < si);
                assert(valid_ref(smaller.string_bytes@, smaller.keys()[q].0 as int));
            }
            assert forall|q: int| 0 <= q < smaller.keys().len() implies smaller.flags_set.has_set(#[trigger] smaller.keys()[q].2) by {
                assert(smaller.keys().len() == nt);
                assert(0 <= q < si);
                assert(valid_ref(smaller.string_bytes@, smaller.keys()[q].0 as int));
            }
            assert(refs_ok(*smaller));
            assert(seeded_from(w1, merge_larger(*a, *b)) && merged_in_order(w1, writer, merge_smaller(*a, *b), ws, *sum));
            assert(exists|seed: TestAnalyticsWriter, ws2: Seq<TestAnalyticsWriter>|
                seeded_from(seed, merge_larger(*a, *b)) && #[trigger] merged_in_order(seed, writer, merge_smaller(*a, *b), ws2, *sum));
            assert(merged_in_order(w1, writer, *smaller, ws, *sum));
        }
        Ok(writer)
    }
}

/// Some test of `out` has the suite, the name and the flags of test `i` of `w`.
pub open spec fn collides(w: TestAnalyticsWriter, i: int, out: TestAnalyticsWriter) -> bool {
    exists|j: int|
        0 <= j < out.keys().len() && #[trigger] string_at(out.strings(), out.keys()[j].0 as int) == string_at(
            w.strings(),
            w.keys()[i].0 as int,
        ) && string_at(out.strings(), out.keys()[j].1 as int) == string_at(w.strings(), w.keys()[i].1 as int)
            && same_names(out.strings(), out.flags().set_at(out.keys()[j].2), w.strings(), w.flags().set_at(w.keys()[i].2))
}

/// Rebuilding `w` cannot outgrow the artifact's tables, however little is shared: each
/// live test interns at most its flags, its suite and its name, none longer than `w`'s string
/// table, and adds at most a count and its flags to the flag-set table.
pub open spec fn rewrite_fits(w: TestAnalyticsWriter, today: u32, n: int) -> bool {
    let live = count_live(w, today, n, w.keys().len() as int);
    &&& live * ((w.flags().words().len() + 2) * (w.strings().len() + 18)) <= u32::MAX
    &&& 1 + live * (w.flags().words().len() + 1) <= MAX_FLAG_WORDS
}

/// No two tests of `w` that are live on `today` for `n` days have the same suite, name and
/// flags.
pub open spec fn live_tests_distinct(w: TestAnalyticsWriter, today: u32, n: int) -> bool {
    forall|a: int, b: int|
        #![trigger is_live(w, a, today, n), is_live(w, b, today, n)]
        0 <= a < b < w.keys().len() && is_live(w, a, today, n) && is_live(w, b, today, n) ==> string_at(
            w.strings(),
            w.keys()[a].0 as int,
        ) != string_at(w.strings(), w.keys()[b].0 as int) || string_at(w.strings(), w.keys()[a].1 as int)
            != string_at(w.strings(), w.keys()[b].1 as int) || names(w.strings(), w.flags().set_at(w.keys()[a].2)).to_set()
            != names(w.strings(), w.flags().set_at(w.keys()[b].2)).to_set()
}

proof fn lemma_count_live_mono(w: TestAnalyticsWriter, today: u32, n: int, a: int, b: int)
    requires
        0 <= a <= b,
    ensures
        count_live(w, today, n, a) <= count_live(w, today, n, b),
    decreases b - a,
{
    if a < b {
        lemma_count_live_mono(w, today, n, a, b - 1);
        lemma_count_live_step(w, today, n, b - 1);
    }
}

/// Every flag set of `w` but the reserved empty one at offset 0 is the set of some test.
pub open spec fn sets_referenced(w: TestAnalyticsWriter) -> bool {
    forall|o: u32| #[trigger] w.flags().has_set(o) ==> o == 0 || exists|i: int| 0 <= i < w.keys().len() && w.keys()[i].2 == o
}

/// Test `i` of `w` saw a run less than `n` days before `today`.
pub open spec fn is_live(w: TestAnalyticsWriter, i: int, today: u32, n: int) -> bool {
    day_offset(w.bucket(i, 0).last_timestamp, today) < n
}

/// How many of the first `m` tests of `w` are live.
pub open spec fn count_live(w: TestAnalyticsWriter, today: u32, n: int, m: int) -> int
    decreases m,
{
    if m <= 0 {
        0
    } else {
        count_live(w, today, n, m - 1) + if is_live(w, m - 1, today, n) {
            1int
        } else {
            0
        }
    }
}

/// Key `k1` of `w1` names the suite, the name and the flags that key `k0` of `w0` names.
pub open spec fn same_test(w0: TestAnalyticsWriter, k0: (u32, u32, u32), w1: TestAnalyticsWriter, k1: (u32, u32, u32)) -> bool {
    &&& string_at(w1.strings(), k1.0 as int) == string_at(w0.strings(), k0.0 as int)
    &&& string_at(w1.strings(), k1.1 as int) == string_at(w0.strings(), k0.1 as int)
    &&& w1.flags().has_set(k1.2)
    &&& same_names(w1.strings(), w1.flags().set_at(k1.2), w0.strings(), w0.flags().set_at(k0.2))
}

/// `w1` keeps, in their order, the tests `m` of `w0`: the same suite, name and flags, and
/// the first `n` days of each ring, with empty days after them.
pub open spec fn kept_as(w0: TestAnalyticsWriter, w1: TestAnalyticsWriter, m: Seq<int>) -> bool {
    &&& m.len() == w1.keys().len()
    &&& forall|a: int, b: int| 0 <= a < b < m.len() ==> m[a] < m[b]
    &&& forall|j: int| 0 <= j < m.len() ==> 0 <= #[trigger] m[j] < w0.keys().len()
    &&& forall|j: int| 0 <= j < m.len() ==> same_test(w0, w0.keys()[#[trigger] m[j]], w1, w1.keys()[j])
    &&& forall|j: int, k: int|
        0 <= j < m.len() && 0 <= k < w1.days() ==> #[trigger] w1.bucket(j, k) == if k < w0.days() {
            w0.bucket(m[j], k)
        } else {
            empty_bucket()
        }
}

/// A key keeps naming the same test when the tables only grow.
proof fn lemma_same_test_grow(w0: TestAnalyticsWriter, w1: TestAnalyticsWriter, k: (u32, u32, u32))
    requires
        w0.key_valid(k),
        w0.flags().wf(),
        w0.flags().refs_valid(w0.strings()),
        w0.strings().is_prefix_of(w1.strings()),
        w1.flags().has_set(k.2),
        w1.flags().set_at(k.2) == w0.flags().set_at(k.2),
    ensures
        same_test(w0, k, w1, k),
{
    crate::flags::lemma_set_refs(w0.flags(), w0.strings(), k.2);
    crate::flags::lemma_names_extend(w0.strings(), w1.strings(), w0.flags().set_at(k.2));
    let ext = w1.strings().subrange(w0.strings().len() as int, w1.strings().len() as int);
    assert(w1.strings() =~= w0.strings() + ext);
    lemma_span_extend(w0.strings(), ext, k.0 as int);
    lemma_span_extend(w0.strings(), ext, k.1 as int);
    assert(string_at(w1.strings(), k.0 as int) == string_at(w0.strings(), k.0 as int));
    assert(string_at(w1.strings(), k.1 as int) == string_at(w0.strings(), k.1 as int));
}

impl TestAnalyticsWriter {
    /// Which tests saw a run less than `n` days before today.
    fn liveness(&self, n: usize) -> (r: Vec<bool>)
        requires
            self.wf(),
        ensures
            r@.len() == self.keys().len(),
            forall|i: int| 0 <= i < r@.len() ==> #[trigger] r@[i] == is_live(*self, i, self.today(), n as int),
    {
        let len = index_len(&self.tests);
        let mut out: Vec<bool> = Vec::new();
        let mut i: usize = 0;
        while i < len
            invariant
                self.wf(),
                len == self.keys().len(),
                i <= len,
                out@.len() == i,
                forall|q: int| 0 <= q < i ==> #[trigger] out@[q] == is_live(*self, q, self.today(), n as int),
            decreases len - i,
        {
            let b = self.get_bucket(i, 0);
            out.push(offset_from_today(b.last_timestamp, self.timestamp) < n);
            i = i + 1;
        }
        out
    }

    /// Copies test `i` of `self` into `out`: its strings, its flags and the first days of
    /// its ring.
    #[verifier::rlimit(60)]
    fn copy_test(&self, out: &mut TestAnalyticsWriter, i: usize) -> (r: Result<(), TestAnalyticsError>)
        requires
            self.wf(),
            old(out).wf(),
            i < self.keys().len(),
        ensures
            r is Err ==> r == Err::<(), _>(TestAnalyticsError::InvalidFormat),
            r is Err ==> old(out).strings().len() + (self.flags().words().len() + 2) * (self.strings().len() + 18) > u32::MAX
                || old(out).flags().words().len() + 1 + self.flags().words().len() > MAX_FLAG_WORDS
                || old(out).keys().len() >= u32::MAX
                || collides(*self, i as int, *old(out)),
            r is Ok ==> final(out).strings().len() <= old(out).strings().len() + (self.flags().words().len() + 2) * (self.strings().len() + 18),
            r is Ok ==> final(out).flags().words().len() <= old(out).flags().words().len() + 1 + self.flags().words().len(),
            r is Ok ==> final(out).wf(),
            r is Ok ==> forall|o: u32| #[trigger] final(out).flags().has_set(o) ==> old(out).flags().has_set(o)
                || o == final(out).keys()[old(out).keys().len() as int].2,
            r is Ok ==> final(out).days() == old(out).days() && final(out).today() == old(out).today(),
            r is Ok ==> final(out).keys().len() == old(out).keys().len() + 1,
            r is Ok ==> final(out).keys().subrange(0, old(out).keys().len() as int) == old(out).keys(),
            r is Ok ==> forall|j: int| 0 <= j < old(out).keys().len() ==> #[trigger] same_test(*old(out), old(out).keys()[j], *final(out), final(out).keys()[j]),
            r is Ok ==> same_test(*self, self.keys()[i as int], *final(out), final(out).keys()[old(out).keys().len() as int]),
            r is Ok ==> forall|j: int, k: int| 0 <= j < old(out).keys().len() && 0 <= k < old(out).days() ==> #[trigger] final(out).bucket(j, k) == old(out).bucket(j, k),
            r is Ok ==> forall|k: int| 0 <= k < final(out).days() ==> #[trigger] final(out).bucket(old(out).keys().len() as int, k) == if k < self.days() {
                self.bucket(i as int, k)
            } else {
                empty_bucket()
            },
    {
        let key = index_get(&self.tests, i);
        let ghost big_s = self.strings().len() as int;
        let ghost big_w = self.flags().words().len() as int;
        let ghost kk = big_s + 18;
        proof {
            assert(self.key_valid(key));
            let a = choose|a: int| 0 <= a < self.flags().offsets().len() && self.flags().offsets()[a] == key.2;
            crate::flags::lemma_entry_inside(self.flags().words(), self.flags().offsets(), a);
            assert forall|j: int| 0 <= j < self.flags().set_at(key.2).len() implies valid_ref(self.strings(), #[trigger] self.flags().set_at(key.2)[j] as int) by {
                assert(self.flags().set_at(self.flags().offsets()[a]) == self.flags().set_at(key.2));
            }
        }
        let bytes = crate::string_table::table_as_bytes(&self.string_table);
        let flags = match self.flags_set.resolve(bytes, key.2) {
            Ok(f) => f,
            Err(_) => {
                return Err(TestAnalyticsError::InvalidFormat);
            },
        };
        let suite = match checked_read(bytes, key.0 as usize) {
            Some(x) => x,
            None => {
                return Err(TestAnalyticsError::InvalidFormat);
            },
        };
        let name = match checked_read(bytes, key.1 as usize) {
            Some(x) => x,
            None => {
                return Err(TestAnalyticsError::InvalidFormat);
            },
        };
        proof {
            assert forall|j: int| 0 <= j < flags@.len() implies utf8_len(#[trigger] flags@[j]@) <= big_s by {
                crate::string_table::lemma_string_len(self.strings(), self.flags().set_at(key.2)[j] as int);
            }
            crate::flags::lemma_room_bound(flags@, big_s);
            let c = flags@.len() as int;
            assert(c == self.flags().set_at(key.2).len());
            assert(c <= big_w);
            assert(c * (big_s + 9) <= big_w * kk) by (nonlinear_arith)
                requires c <= big_w, 0 <= c, 0 <= big_s, kk == big_s + 18;
            assert((big_w + 2) * kk == big_w * kk + 2 * kk) by (nonlinear_arith);
            crate::string_table::lemma_string_len(self.strings(), key.0 as int);
            crate::string_table::lemma_string_len(self.strings(), key.1 as int);
        }
        if !out.room_for_flags(&flags) {
            return Err(TestAnalyticsError::InvalidFormat);
        }
        let ghost o0 = *out;
        let fs = out.flags_set.insert(&mut out.string_table, &flags);
        proof {
            out.lemma_keys_stay_valid(o0.strings(), o0.flags());
        }
        let room = out.string_room();
        let sl = suite.as_str().len();
        let nl = name.as_str().len();
        if sl > room || nl > room - sl || 18 > room - sl - nl {
            return Err(TestAnalyticsError::InvalidFormat);
        }
        if index_len(&out.tests) >= u32::MAX as usize {
            return Err(TestAnalyticsError::InvalidFormat);
        }
        let ghost o1 = *out;
        let (idx, inserted) = out.upsert_key(suite.as_str(), name.as_str(), fs);
        if !inserted {
            proof {
                let k1 = out.keys()[idx as int];
                assert(o0.key_valid(o0.keys()[idx as int]));
                assert(o0.keys()[idx as int] == k1);
                let ext = out.strings().subrange(o0.strings().len() as int, out.strings().len() as int);
                assert(o0.strings().is_prefix_of(out.strings())) by {
                    assert(out.strings().subrange(0, o0.strings().len() as int) =~= o1.strings().subrange(0, o0.strings().len() as int));
                }
                assert(out.strings() =~= o0.strings() + ext);
                lemma_span_extend(o0.strings(), ext, k1.0 as int);
                lemma_span_extend(o0.strings(), ext, k1.1 as int);
                assert(o0.flags().has_set(fs));
                crate::flags::lemma_set_refs(o0.flags(), o0.strings(), fs);
                crate::flags::lemma_names_extend(o0.strings(), o1.strings(), o0.flags().set_at(fs));
                crate::flags::lemma_matches_names(o1.strings(), o1.flags().set_at(fs), flags@);
                assert(crate::flags::flag_chars(flags@) =~= names(self.strings(), self.flags().set_at(key.2)));
                assert(collides(*self, i as int, o0));
            }
            return Err(TestAnalyticsError::InvalidFormat);
        }
        let ghost o2 = *out;
        let old_n = self.num_days;
        let new_n = out.num_days;
        let keep = if old_n < new_n {
            old_n
        } else {
            new_n
        };
        let _l = self.testdata.len();
        proof {
            lemma_index_in_ring(i as int, 0, self.keys().len() as int, old_n as int);
        }
        let start = i * old_n;
        let dl = self.testdata.len();
        let mut k: usize = 0;
        while k < new_n
            invariant
                dl == self.data().len(),
                self.wf(),
                i < self.keys().len(),
                start == i * old_n,
                start + old_n <= self.data().len(),
                old_n == self.days(),
                keep <= old_n,
                keep <= new_n,
                keep == if old_n < new_n { old_n } else { new_n },
                new_n == out.days(),
                k <= new_n,
                out.days() == o2.days(),
                out.today() == o2.today(),
                out.keys() == o2.keys(),
                out.strings() == o2.strings(),
                out.flags() == o2.flags(),
                o2.data() == o1.data(),
                o1.data().len() == idx * new_n,
                out.data().len() == idx * new_n + k,
                out.data().subrange(0, idx * new_n) == o1.data(),
                forall|q: int| 0 <= q < k ==> #[trigger] out.data()[idx * new_n + q] == if q < old_n {
                    self.bucket(i as int, q)
                } else {
                    empty_bucket()
                },
            decreases new_n - k,
        {
            if k < keep {
                let b = self.testdata[start + k];
                out.testdata.push(b);
            } else {
                out.testdata.push(TestData::empty());
            }
            proof {
                assert(out.data().subrange(0, idx * new_n) =~= o1.data());
            }
            k = k + 1;
        }
        proof {
            assert(out.data().len() == out.keys().len() * new_n) by (nonlinear_arith)
                requires
                    out.data().len() == idx * new_n + new_n,
                    out.keys().len() == idx + 1,
            ;
            assert forall|j: int, q: int| 0 <= j < o0.keys().len() && 0 <= q < o0.days() implies #[trigger] out.bucket(j, q) == o0.bucket(j, q) by {
                lemma_index_in_ring(j, q, o0.keys().len() as int, new_n as int);
                assert(out.data()[j * new_n + q] == out.data().subrange(0, idx * new_n)[j * new_n + q]);
            }
            assert forall|q: int| 0 <= q < out.days() implies #[trigger] out.bucket(idx as int, q) == if q < self.days() {
                self.bucket(i as int, q)
            } else {
                empty_bucket()
            } by {
                assert(out.bucket(idx as int, q) == out.data()[idx * new_n + q]);
            }
            assert(out.keys().subrange(0, o0.keys().len() as int) =~= o0.keys());
            assert forall|j: int| 0 <= j < o0.keys().len() implies #[trigger] same_test(o0, o0.keys()[j], *out, out.keys()[j]) by {
                assert(o0.key_valid(o0.keys()[j]));
                assert(out.keys()[j] == o0.keys()[j]);
                assert(o0.flags().has_set(o0.keys()[j].2));
                lemma_same_test_grow(o0, *out, o0.keys()[j]);
            }
            let k1 = out.keys()[o0.keys().len() as int];
            assert(k1.2 == fs);
            crate::flags::lemma_set_refs(o1.flags(), o1.strings(), fs);
            crate::flags::lemma_matches_names(o1.strings(), o1.flags().set_at(fs), flags@);
            crate::flags::lemma_names_extend(o1.strings(), out.strings(), out.flags().set_at(fs));
            assert(crate::flags::flag_chars(flags@) =~= crate::flags::names(self.strings(), self.flags().set_at(key.2)));
        }
        Ok(())
    }
}

/// The threshold of dead tests up to which a rewrite that keeps the number of days does
/// nothing: the one given, or a quarter of the tests.
pub open spec fn dead_threshold(given: Option<usize>, num_tests: int) -> int {
    match given {
        Some(t) => t as int,
        None => num_tests / 4,
    }
}

/// What a rewrite to `n` days on day `today` kept: the live tests of `w0`, all of them and
/// in their order, in `w1`.
pub open spec fn rewritten(w0: TestAnalyticsWriter, w1: TestAnalyticsWriter, today: u32, n: int) -> bool {
    exists|m: Seq<int>|
        #![trigger kept_as(w0, w1, m)]
        kept_as(w0, w1, m) && (forall|j: int| 0 <= j < m.len() ==> is_live(w0, #[trigger] m[j], today, n))
            && (forall|i: int| 0 <= i < w0.keys().len() && is_live(w0, i, today, n) ==> m.contains(i))
}

proof fn lemma_count_live_step(w: TestAnalyticsWriter, today: u32, n: int, m: int)
    requires
        0 <= m,
    ensures
        count_live(w, today, n, m + 1) == count_live(w, today, n, m) + if is_live(w, m, today, n) { 1int } else { 0 },
        0 <= count_live(w, today, n, m) <= m,
    decreases m,
{
    if m > 0 {
        lemma_count_live_step(w, today, n, m - 1);
    }
}

impl TestAnalyticsWriter {
    /// Collects garbage and reshapes the rings: moves "today" on to `timestamp` when that is
    /// later, then, when the number of days changes or more tests than the threshold saw no
    /// run in the last `num_days` days, rebuilds the writer with rings of `num_days` days
    /// and only the tests that did, interning their strings and flags anew. Gives whether
    /// it rebuilt.
    pub fn rewrite(&mut self, num_days: usize, timestamp: u32, garbage_threshold: Option<usize>) -> (r: Result<bool, TestAnalyticsError>)
        requires
            old(self).wf(),
            1 <= num_days <= u32::MAX,
        ensures
            ({
                let today = if timestamp > old(self).today() { timestamp } else { old(self).today() };
                let len = old(self).keys().len() as int;
                let live = count_live(*old(self), today, num_days as int, len);
                let unchanged = num_days == old(self).days() && len - live <= dead_threshold(garbage_threshold, len);
                &&& final(self).wf()
                &&& final(self).today() == today
                &&& r matches Ok(b) ==> b == !unchanged
                &&& r is Err ==> r == Err::<bool, _>(TestAnalyticsError::InvalidFormat) && !unchanged
                &&& !unchanged && rewrite_fits(*old(self), today, num_days as int) && live_tests_distinct(*old(self), today, num_days as int)
                    ==> r == Ok::<bool, TestAnalyticsError>(true)
                &&& (r is Err || unchanged) ==> final(self).keys() == old(self).keys() && final(self).data() == old(self).data()
                    && final(self).days() == old(self).days() && final(self).strings() == old(self).strings()
                    && final(self).flags() == old(self).flags()
                &&& r == Ok::<bool, TestAnalyticsError>(true) ==> sets_referenced(*final(self))
                &&& r == Ok::<bool, TestAnalyticsError>(true) ==> final(self).days() == num_days
                    && final(self).keys().len() == live
                    && rewritten(*old(self), *final(self), today, num_days as int)
            }),
    {
        let ghost w_in = *self;
        if timestamp > self.timestamp {
            self.timestamp = timestamp;
        }
        let ghost w0 = *self;
        let ghost today = w0.today();
        let len = index_len(&self.tests);
        let live = self.liveness(num_days);
        proof {
            assert forall|q: int| 0 <= q < len implies #[trigger] live@[q] == is_live(w_in, q, today, num_days as int) by {
                assert(live@[q] == is_live(w0, q, today, num_days as int));
                assert(w0.bucket(q, 0) == w_in.bucket(q, 0));
            }
        }
        let mut live_count: usize = 0;
        let mut i: usize = 0;
        while i < len
            invariant
                len == w0.keys().len(),
                live@.len() == len,
                forall|q: int| 0 <= q < len ==> #[trigger] live@[q] == is_live(w_in, q, today, num_days as int),
                i <= len,
                live_count == count_live(w_in, today, num_days as int, i as int),
                live_count <= i,
            decreases len - i,
        {
            proof {
                lemma_count_live_step(w_in, today, num_days as int, i as int);
            }
            if live[i] {
                live_count = live_count + 1;
            }
            i = i + 1;
        }
        let threshold = match garbage_threshold {
            Some(t) => t,
            None => len / 4,
        };
        let dead = len - live_count;
        if num_days == self.num_days && dead <= threshold {
            proof {
                assert(w0.keys() == w_in.keys());
            }
            return Ok(false);
        }
        let mut out = TestAnalyticsWriter::new(num_days);
        out.timestamp = self.timestamp;
        let ghost mut m: Seq<int> = Seq::empty();
        let mut i: usize = 0;
        while i < len
            invariant
                *self == w0,
                w0.wf(),
                len == w0.keys().len(),
                live@.len() == len,
                forall|q: int| 0 <= q < len ==> #[trigger] live@[q] == is_live(w_in, q, today, num_days as int),
                i <= len,
                out.wf(),
                out.days() == num_days,
                out.today() == w0.today(),
                kept_as(w_in, out, m),
                w_in == *old(self),
                today == w0.today(),
                today == (if timestamp > w_in.today() { timestamp } else { w_in.today() }),
                w0.keys() == w_in.keys(),
                w0.data() == w_in.data(),
                w0.strings() == w_in.strings(),
                w0.flags() == w_in.flags(),
                w0.days() == w_in.days(),
                !(num_days == w_in.days() && len - count_live(w_in, today, num_days as int, len as int) <= dead_threshold(garbage_threshold, len as int)),
                forall|j: int| 0 <= j < m.len() ==> is_live(w_in, #[trigger] m[j], today, num_days as int),
                forall|j: int| 0 <= j < m.len() ==> #[trigger] m[j] < i,
                forall|q: int| 0 <= q < i && is_live(w_in, q, today, num_days as int) ==> m.contains(q),
                m.len() == count_live(w_in, today, num_days as int, i as int),
                m.len() <= i,
                sets_referenced(out),
                out.strings().len() <= m.len() * ((w_in.flags().words().len() + 2) * (w_in.strings().len() + 18)),
                out.flags().words().len() <= 1 + m.len() * (w_in.flags().words().len() + 1),
            decreases len - i,
        {
            proof {
                lemma_count_live_step(w_in, today, num_days as int, i as int);
            }
            if live[i] {
                let ghost o0 = out;
                match self.copy_test(&mut out, i) {
                    Ok(()) => {},
                    Err(e) => {
                        proof {
                            let bw = w_in.flags().words().len() as int;
                            let bk = w_in.strings().len() + 18;
                            let ml = m.len() as int;
                            let l = count_live(w_in, today, num_days as int, len as int);
                            lemma_count_live_step(w_in, today, num_days as int, i as int);
                            lemma_count_live_mono(w_in, today, num_days as int, i + 1, len as int);
                            if rewrite_fits(w_in, today, num_days as int) {
                                assert(ml < l);
                                assert(ml * ((bw + 2) * bk) + (bw + 2) * bk <= l * ((bw + 2) * bk)) by (nonlinear_arith)
                                    requires ml < l, 0 <= bw, 0 <= bk;
                                assert(1 + ml * (bw + 1) + 1 + bw <= 1 + l * (bw + 1)) by (nonlinear_arith)
                                    requires ml < l, 0 <= bw;
                                if live_tests_distinct(w_in, today, num_days as int) && collides(w0, i as int, o0) {
                                    let j = choose|j: int| 0 <= j < o0.keys().len() && #[trigger] string_at(o0.strings(), o0.keys()[j].0 as int) == string_at(
                                        w0.strings(), w0.keys()[i as int].0 as int) && string_at(o0.strings(), o0.keys()[j].1 as int) == string_at(w0.strings(), w0.keys()[i as int].1 as int)
                                        && same_names(o0.strings(), o0.flags().set_at(o0.keys()[j].2), w0.strings(), w0.flags().set_at(w0.keys()[i as int].2));
                                    assert(same_test(w_in, w_in.keys()[m[j]], o0, o0.keys()[j]));
                                    assert(m[j] < i);
                                    assert(is_live(w_in, m[j], today, num_days as int));
                                    assert(is_live(w_in, i as int, today, num_days as int));
                                }
                            }
                            assert(w0.keys() == w_in.keys());
                            assert(e == TestAnalyticsError::InvalidFormat);
                            assert(self.wf());
                            assert(self.today() == today);
                            assert(self.data() == w_in.data());
                            assert(self.strings() == w_in.strings());
                            assert(self.flags() == w_in.flags());
                            assert(self.days() == w_in.days());
                        }
                        return Err(e);
                    },
                }
                proof {
                    assert forall|o: u32| #[trigger] out.flags().has_set(o) implies o == 0 || exists|j: int| 0 <= j < out.keys().len() && out.keys()[j].2 == o by {
                        if o0.flags().has_set(o) && o != 0 {
                            let j = choose|j: int| 0 <= j < o0.keys().len() && o0.keys()[j].2 == o;
                            assert(out.keys()[j] == o0.keys()[j]);
                        } else if o != 0 {
                            assert(out.keys()[o0.keys().len() as int].2 == o);
                        }
                    }
                    let bw = w_in.flags().words().len() as int;
                    let bk = w_in.strings().len() + 18;
                    let ml = m.len() as int;
                    assert(ml * ((bw + 2) * bk) + (bw + 2) * bk == (ml + 1) * ((bw + 2) * bk)) by (nonlinear_arith);
                    assert(1 + ml * (bw + 1) + 1 + bw == 1 + (ml + 1) * (bw + 1)) by (nonlinear_arith);
                    let m2 = m.push(i as int);
                    assert forall|a: int, b: int| 0 <= a < b < m2.len() implies m2[a] < m2[b] by {
                        if b == m.len() {
                            assert(m[a] < i);
                        }
                    }
                    assert forall|j: int| 0 <= j < m2.len() implies same_test(w_in, w_in.keys()[#[trigger] m2[j]], out, out.keys()[j]) by {
                        if j < m.len() {
                            assert(same_test(w_in, w_in.keys()[m[j]], o0, o0.keys()[j]));
                            assert(same_test(o0, o0.keys()[j], out, out.keys()[j]));
                        } else {
                            assert(same_test(w0, w0.keys()[i as int], out, out.keys()[j]));
                        }
                    }
                    assert forall|q: int| 0 <= q < i + 1 && is_live(w_in, q, today, num_days as int) implies m2.contains(q) by {
                        if q < i {
                            assert(m.contains(q));
                            let k = choose|k: int| 0 <= k < m.len() && m[k] == q;
                            assert(m2[k] == q);
                        } else {
                            assert(m2[m.len() as int] == q);
                        }
                    }
                    assert forall|j: int, k: int| 0 <= j < m2.len() && 0 <= k < out.days() implies #[trigger] out.bucket(j, k) == if k < w_in.days() {
                        w_in.bucket(m2[j], k)
                    } else {
                        empty_bucket()
                    } by {
                        if j < m.len() {
                            assert(out.bucket(j, k) == o0.bucket(j, k));
                        }
                    }
                    m = m2;
                }
            }
            i = i + 1;
        }
        *self = out;
        Ok(true)
    }
}

} // verus!
