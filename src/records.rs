use vstd::prelude::*;

verus! {

/// The four bytes `_TA_` read as a little-endian `u32`: the first word of every artifact.
pub const TA_MAGIC: u32 = 0x5f41545f;

/// The version of the artifact layout written by this library.
pub const TA_VERSION: u32 = 1;

/// Byte length of the header.
pub const HEADER_SIZE: usize = 28;

/// The key of a test: offsets of its suite and name in the string table, and of its
/// flag set in the flag-set table.
#[derive(Clone, Copy, Debug, PartialEq, Eq, Structural)]
pub struct Test {
    pub testsuite_offset: u32,
    pub name_offset: u32,
    pub flag_set_offset: u32,
}

impl Test {
    /// The key as a triple, the form in which the index holds it.
    pub open spec fn key(self) -> (u32, u32, u32) {
        (self.testsuite_offset, self.name_offset, self.flag_set_offset)
    }

    /// Builds a test from its key triple.
    pub fn from_key(k: (u32, u32, u32)) -> (r: Test)
        ensures
            r.key() == k,
    {
        Test { testsuite_offset: k.0, name_offset: k.1, flag_set_offset: k.2 }
    }

    /// The key triple.
    pub fn to_key(&self) -> (r: (u32, u32, u32))
        ensures
            r == self.key(),
    {
        (self.testsuite_offset, self.name_offset, self.flag_set_offset)
    }
}

/// The aggregate of the runs of one test on one day.
///
/// The two durations are kept as the bit patterns of IEEE-754 single-precision numbers of
/// seconds; the library adds them only through the addition its caller hands in.
#[derive(Clone, Copy, Debug, PartialEq, Eq, Structural)]
pub struct TestData {
    pub total_pass_count: u32,
    pub total_fail_count: u32,
    pub total_skip_count: u32,
    pub total_flaky_fail_count: u32,
    /// A fifth counter word of the layout; carried along unchanged.
    pub reserved: u32,
    /// The day of the most recent run counted here; 0 when there was none.
    pub last_timestamp: u32,
    pub total_duration: u32,
    pub last_duration: u32,
}

/// An empty bucket: every field zero.
pub open spec fn empty_bucket() -> TestData {
    TestData {
        total_pass_count: 0,
        total_fail_count: 0,
        total_skip_count: 0,
        total_flaky_fail_count: 0,
        reserved: 0,
        last_timestamp: 0,
        total_duration: 0,
        last_duration: 0,
    }
}

impl TestData {
    /// An empty bucket.
    pub fn empty() -> (r: TestData)
        ensures
            r == empty_bucket(),
    {
        TestData {
            total_pass_count: 0,
            total_fail_count: 0,
            total_skip_count: 0,
            total_flaky_fail_count: 0,
            reserved: 0,
            last_timestamp: 0,
            total_duration: 0,
            last_duration: 0,
        }
    }
}

impl Default for TestData {
    fn default() -> (r: TestData)
        ensures
            r == empty_bucket(),
    {
        TestData::empty()
    }
}

/// The fixed-size header at the start of an artifact.
#[derive(Clone, Copy, Debug, PartialEq, Eq, Structural)]
pub struct Header {
    pub magic: u32,
    pub version: u32,
    pub timestamp: u32,
    pub num_days: u32,
    pub num_tests: u32,
    /// Byte length of the flag-set table.
    pub flags_set_len: u32,
    /// Byte length of the string table.
    pub string_bytes: u32,
}

/// The four little-endian bytes of `x`.
pub open spec fn le_bytes(x: u32) -> Seq<u8> {
    seq![
        (x % 256) as u8,
        ((x / 256) % 256) as u8,
        ((x / 65536) % 256) as u8,
        ((x / 16777216) % 256) as u8,
    ]
}

/// The `u32` whose little-endian bytes start `b` at `at`.
pub open spec fn le_word(b: Seq<u8>, at: int) -> u32 {
    (b[at] as int + b[at + 1] as int * 256 + b[at + 2] as int * 65536 + b[at + 3] as int
        * 16777216) as u32
}

/// Reading back the bytes of a word gives the word.
pub proof fn lemma_le_round_trip(x: u32, pre: Seq<u8>, post: Seq<u8>)
    ensures
        le_word(pre + le_bytes(x) + post, pre.len() as int) == x,
{
    let b = pre + le_bytes(x) + post;
    let at = pre.len() as int;
    assert(b[at] == (x % 256) as u8);
    assert(b[at + 1] == ((x / 256) % 256) as u8);
    assert(b[at + 2] == ((x / 65536) % 256) as u8);
    assert(b[at + 3] == ((x / 16777216) % 256) as u8);
    assert((x % 256) + ((x / 256) % 256) * 256 + ((x / 65536) % 256) * 65536 + ((x / 16777216)
        % 256) * 16777216 == x) by (nonlinear_arith);
}

/// Appends the little-endian bytes of `x`.
pub fn push_u32(out: &mut Vec<u8>, x: u32)
    ensures
        final(out)@ == old(out)@ + le_bytes(x),
{
    out.push((x % 256) as u8);
    out.push(((x / 256) % 256) as u8);
    out.push(((x / 65536) % 256) as u8);
    out.push(((x / 16777216) % 256) as u8);
    assert(final(out)@ =~= old(out)@ + le_bytes(x));
}

/// Reads the little-endian `u32` at `at`.
pub fn read_u32(b: &[u8], at: usize) -> (r: u32)
    requires
        at + 4 <= b@.len(),
    ensures
        r == le_word(b@, at as int),
{
    (b[at] as u32) + (b[at + 1] as u32) * 256 + (b[at + 2] as u32) * 65536 + (b[at + 3] as u32)
        * 16777216
}

/// The header at the start of `b`.
pub open spec fn header_at(b: Seq<u8>) -> Header {
    Header {
        magic: le_word(b, 0),
        version: le_word(b, 4),
        timestamp: le_word(b, 8),
        num_days: le_word(b, 12),
        num_tests: le_word(b, 16),
        flags_set_len: le_word(b, 20),
        string_bytes: le_word(b, 24),
    }
}

/// The little-endian bytes of `w`, word after word.
pub open spec fn words_bytes(w: Seq<u32>) -> Seq<u8>
    decreases w.len(),
{
    if w.len() == 0 {
        Seq::empty()
    } else {
        words_bytes(w.drop_last()) + le_bytes(w.last())
    }
}

/// The words of the test keys, three per key.
pub open spec fn key_words(keys: Seq<(u32, u32, u32)>) -> Seq<u32>
    decreases keys.len(),
{
    if keys.len() == 0 {
        Seq::empty()
    } else {
        key_words(keys.drop_last()) + seq![keys.last().0, keys.last().1, keys.last().2]
    }
}

/// The eight words of a bucket.
pub open spec fn bucket_words(d: TestData) -> Seq<u32> {
    seq![
        d.total_pass_count,
        d.total_fail_count,
        d.total_skip_count,
        d.total_flaky_fail_count,
        d.reserved,
        d.last_timestamp,
        d.total_duration,
        d.last_duration,
    ]
}

/// The words of the buckets, eight per bucket.
pub open spec fn data_words(data: Seq<TestData>) -> Seq<u32>
    decreases data.len(),
{
    if data.len() == 0 {
        Seq::empty()
    } else {
        data_words(data.drop_last()) + bucket_words(data.last())
    }
}

/// The seven words of a header.
pub open spec fn header_words(h: Header) -> Seq<u32> {
    seq![h.magic, h.version, h.timestamp, h.num_days, h.num_tests, h.flags_set_len, h.string_bytes]
}

/// The byte length of the words of `w`.
pub proof fn lemma_words_bytes_len(w: Seq<u32>)
    ensures
        words_bytes(w).len() == 4 * w.len(),
    decreases w.len(),
{
    if w.len() > 0 {
        lemma_words_bytes_len(w.drop_last());
    }
}

/// Word `j` of `w` reads back from its bytes, whatever follows them.
pub proof fn lemma_words_bytes_word(w: Seq<u32>, tail: Seq<u8>, j: int)
    requires
        0 <= j < w.len(),
    ensures
        le_word(words_bytes(w) + tail, 4 * j) == w[j],
    decreases w.len(),
{
    lemma_words_bytes_len(w);
    lemma_words_bytes_len(w.drop_last());
    if j == w.len() - 1 {
        lemma_le_round_trip(w[j], words_bytes(w.drop_last()), tail);
        assert(words_bytes(w) + tail =~= words_bytes(w.drop_last()) + le_bytes(w[j]) + tail);
    } else {
        let t2 = le_bytes(w.last()) + tail;
        lemma_words_bytes_word(w.drop_last(), t2, j);
        assert(words_bytes(w) + tail =~= words_bytes(w.drop_last()) + t2);
    }
}

/// The length of the key words.
pub proof fn lemma_key_words_len(keys: Seq<(u32, u32, u32)>)
    ensures
        key_words(keys).len() == 3 * keys.len(),
    decreases keys.len(),
{
    if keys.len() > 0 {
        lemma_key_words_len(keys.drop_last());
    }
}

/// The words of key `i` stand at `3 * i`.
pub proof fn lemma_key_words_at(keys: Seq<(u32, u32, u32)>, i: int)
    requires
        0 <= i < keys.len(),
    ensures
        key_words(keys)[3 * i] == keys[i].0,
        key_words(keys)[3 * i + 1] == keys[i].1,
        key_words(keys)[3 * i + 2] == keys[i].2,
    decreases keys.len(),
{
    lemma_key_words_len(keys.drop_last());
    if i < keys.len() - 1 {
        lemma_key_words_at(keys.drop_last(), i);
    }
}

/// The length of the bucket words.
pub proof fn lemma_data_words_len(data: Seq<TestData>)
    ensures
        data_words(data).len() == 8 * data.len(),
    decreases data.len(),
{
    if data.len() > 0 {
        lemma_data_words_len(data.drop_last());
    }
}

/// The words of bucket `i` stand at `8 * i`.
pub proof fn lemma_data_words_at(data: Seq<TestData>, i: int)
    requires
        0 <= i < data.len(),
    ensures
        data_words(data).subrange(8 * i, 8 * i + 8) == bucket_words(data[i]),
    decreases data.len(),
{
    lemma_data_words_len(data.drop_last());
    lemma_data_words_len(data);
    if i < data.len() - 1 {
        lemma_data_words_at(data.drop_last(), i);
        assert(data_words(data).subrange(8 * i, 8 * i + 8) =~= data_words(data.drop_last()).subrange(8 * i, 8 * i + 8));
    } else {
        assert(data_words(data).subrange(8 * i, 8 * i + 8) =~= bucket_words(data[i]));
    }
}

} // verus!
