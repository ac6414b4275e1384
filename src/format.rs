use vstd::prelude::*;

use crate::error::TestAnalyticsError;
use crate::flags::{entries_cover, FlagsSet, MAX_FLAG_WORDS};
use crate::string_table::{valid_ref, well_formed_table};
use crate::records::{
    bucket_words, header_at, le_word, read_u32, Header, Test, TestData, HEADER_SIZE, TA_MAGIC,
    TA_VERSION,
};

verus! {

/// Word `j` of `b`, counting four bytes to a word.
pub open spec fn word(b: Seq<u8>, j: int) -> u32 {
    le_word(b, 4 * j)
}

/// The `n` words of `b` that start at word `from`.
pub open spec fn words_from(b: Seq<u8>, from: int, n: int) -> Seq<u32> {
    Seq::new(n as nat, |w: int| word(b, from + w))
}

/// The byte length that the header of `b` announces.
pub open spec fn announced_len(h: Header) -> int {
    HEADER_SIZE + 12 * h.num_tests + 32 * h.num_tests * h.num_days + h.flags_set_len
        + h.string_bytes
}

/// Word where the buckets of `b` start.
pub open spec fn data_start(h: Header) -> int {
    7 + 3 * h.num_tests
}

/// Word where the flag-set table of `b` starts.
pub open spec fn flags_start(h: Header) -> int {
    7 + 3 * h.num_tests + 8 * h.num_tests * h.num_days
}

/// `b` is an artifact: a header of this format and version with at least one day, sections
/// of exactly the announced sizes, and a flag-set table that is a run of entries.
pub open spec fn framed(b: Seq<u8>) -> bool {
    let h = header_at(b);
    &&& b.len() >= HEADER_SIZE
    &&& h.magic == TA_MAGIC
    &&& h.version == TA_VERSION
    &&& h.num_days >= 1
    &&& h.flags_set_len % 4 == 0
    &&& h.flags_set_len / 4 <= MAX_FLAG_WORDS
    &&& announced_len(h) == b.len()
    &&& exists|s: Seq<u32>| #[trigger] entries_cover(words_from(b, flags_start(h), (h.flags_set_len / 4) as int), s)
}

/// A parsed artifact.
pub struct TestAnalytics {
    pub header: Header,
    pub tests: Vec<Test>,
    pub testdata: Vec<TestData>,
    pub flags_set: FlagsSet,
    pub string_bytes: Vec<u8>,
}

impl TestAnalytics {
    /// The view holds one ring of `num_days` buckets per test and a well-formed flag table.
    pub open spec fn valid(&self) -> bool {
        &&& self.header.num_days >= 1
        &&& self.tests@.len() == self.header.num_tests
        &&& self.testdata@.len() == self.tests@.len() * self.header.num_days
        &&& self.flags_set.wf()
        &&& self.string_bytes@.len() == self.header.string_bytes
    }

    /// The keys of the tests, in order.
    pub open spec fn keys(&self) -> Seq<(u32, u32, u32)> {
        self.tests@.map_values(|t: Test| t.key())
    }

    /// The artifact's tables agree with each other: the string table is a run of entries,
    /// the keys are distinct and name entries of the tables, and the flag sets name strings.
    pub open spec fn consistent(&self) -> bool {
        &&& well_formed_table(self.string_bytes@)
        &&& self.flags_set.refs_valid(self.string_bytes@)
        &&& self.keys().no_duplicates()
        &&& forall|i: int|
            0 <= i < self.keys().len() ==> {
                let k = #[trigger] self.keys()[i];
                &&& valid_ref(self.string_bytes@, k.0 as int)
                &&& valid_ref(self.string_bytes@, k.1 as int)
                &&& self.flags_set.has_set(k.2)
            }
    }

    /// This view is what `b` holds.
    pub open spec fn read_from(&self, b: Seq<u8>) -> bool {
        let h = header_at(b);
        let t = h.num_tests as int;
        let n = h.num_days as int;
        &&& self.header == h
        &&& self.tests@.len() == t
        &&& forall|i: int|
            0 <= i < t ==> (#[trigger] self.tests@[i]).key() == (
                word(b, 7 + 3 * i),
                word(b, 8 + 3 * i),
                word(b, 9 + 3 * i),
            )
        &&& self.testdata@.len() == t * n
        &&& forall|j: int|
            0 <= j < t * n ==> bucket_words(#[trigger] self.testdata@[j]) == words_from(
                b,
                data_start(h) + 8 * j,
                8,
            )
        &&& self.flags_set.words() == words_from(b, flags_start(h), (h.flags_set_len / 4) as int)
        &&& self.string_bytes@ == b.subrange(4 * flags_start(h) + h.flags_set_len, b.len() as int)
    }

    /// Reads an artifact; fails with `InvalidFormat` where `buf` is not one.
    pub fn parse(buf: &[u8]) -> (r: Result<TestAnalytics, TestAnalyticsError>)
        ensures
            r is Ok <==> framed(buf@),
            r matches Ok(v) ==> v.valid() && v.read_from(buf@),
            r matches Err(e) ==> e == TestAnalyticsError::InvalidFormat,
    {
        let len = buf.len();
        if len < HEADER_SIZE {
            return Err(TestAnalyticsError::InvalidFormat);
        }
        let header = Header {
            magic: read_u32(buf, 0),
            version: read_u32(buf, 4),
            timestamp: read_u32(buf, 8),
            num_days: read_u32(buf, 12),
            num_tests: read_u32(buf, 16),
            flags_set_len: read_u32(buf, 20),
            string_bytes: read_u32(buf, 24),
        };
        proof {
            assert(header == header_at(buf@));
        }
        if header.magic != TA_MAGIC || header.version != TA_VERSION || header.num_days == 0
            || header.flags_set_len % 4 != 0 || (header.flags_set_len / 4) as usize > MAX_FLAG_WORDS {
            return Err(TestAnalyticsError::InvalidFormat);
        }
        let t = header.num_tests as u128;
        let n = header.num_days as u128;
        proof {
            assert(t * n <= 0xffff_ffff * 0xffff_ffff) by (nonlinear_arith)
                requires
                    t <= 0xffff_ffff,
                    n <= 0xffff_ffff,
            ;
        }
        let total: u128 = 28 + 12 * t + 32 * (t * n) + header.flags_set_len as u128
            + header.string_bytes as u128;
        proof {
            assert(32 * (t * n) == 32 * t * n) by (nonlinear_arith);
        }
        if total != len as u128 {
            return Err(TestAnalyticsError::InvalidFormat);
        }
        let nt = header.num_tests as usize;
        let nd = header.num_days as usize;
        proof {
            assert(nt * nd <= len) by (nonlinear_arith)
                requires
                    28 + 12 * nt + 32 * (nt * nd) <= len,
                    nd >= 1,
            ;
        }
        let mut tests: Vec<Test> = Vec::new();
        let mut i: usize = 0;
        while i < nt
            invariant
                len == buf@.len(),
                len == 28 + 12 * nt + 32 * (nt * nd) + header.flags_set_len + header.string_bytes,
                nt == header.num_tests,
                i <= nt,
                tests@.len() == i,
                forall|q: int|
                    0 <= q < i ==> (#[trigger] tests@[q]).key() == (
                        word(buf@, 7 + 3 * q),
                        word(buf@, 8 + 3 * q),
                        word(buf@, 9 + 3 * q),
                    ),
            decreases nt - i,
        {
            let at = 28 + 12 * i;
            let tst = Test {
                testsuite_offset: read_u32(buf, at),
                name_offset: read_u32(buf, at + 4),
                flag_set_offset: read_u32(buf, at + 8),
            };
            tests.push(tst);
            i = i + 1;
        }
        let nb = nt * nd;
        let base = 28 + 12 * nt;
        let mut testdata: Vec<TestData> = Vec::new();
        let mut j: usize = 0;
        while j < nb
            invariant
                len == buf@.len(),
                len == 28 + 12 * nt + 32 * (nt * nd) + header.flags_set_len + header.string_bytes,
                nb == nt * nd,
                base == 28 + 12 * nt,
                j <= nb,
                testdata@.len() == j,
                forall|q: int|
                    0 <= q < j ==> bucket_words(#[trigger] testdata@[q]) == words_from(
                        buf@,
                        7 + 3 * nt + 8 * q,
                        8,
                    ),
            decreases nb - j,
        {
            let at = base + 32 * j;
            let d = TestData {
                total_pass_count: read_u32(buf, at),
                total_fail_count: read_u32(buf, at + 4),
                total_skip_count: read_u32(buf, at + 8),
                total_flaky_fail_count: read_u32(buf, at + 12),
                reserved: read_u32(buf, at + 16),
                last_timestamp: read_u32(buf, at + 20),
                total_duration: read_u32(buf, at + 24),
                last_duration: read_u32(buf, at + 28),
            };
            proof {
                assert(bucket_words(d) =~= words_from(buf@, 7 + 3 * nt + 8 * j, 8));
            }
            testdata.push(d);
            j = j + 1;
        }
        let fbase = base + 32 * nb;
        let nw = (header.flags_set_len / 4) as usize;
        let mut words: Vec<u32> = Vec::new();
        let mut w: usize = 0;
        while w < nw
            invariant
                len == buf@.len(),
                fbase == 28 + 12 * nt + 32 * nb,
                nb == nt * nd,
                len == fbase + header.flags_set_len + header.string_bytes,
                4 * nw == header.flags_set_len,
                w <= nw,
                words@.len() == w,
                forall|q: int| 0 <= q < w ==> #[trigger] words@[q] == word(buf@, 7 + 3 * nt + 8 * nb + q),
            decreases nw - w,
        {
            words.push(read_u32(buf, fbase + 4 * w));
            w = w + 1;
        }
        proof {
            assert(words@ =~= words_from(buf@, flags_start(header), (header.flags_set_len / 4) as int)) by {
                assert(8 * nb == 8 * nt * nd) by (nonlinear_arith) requires nb == nt * nd;
            }
        }
        let flags_set = match FlagsSet::load(words) {
            Ok(f) => f,
            Err(e) => {
                return Err(e);
            },
        };
        let sbase = fbase + 4 * nw;
        let mut string_bytes: Vec<u8> = Vec::new();
        let mut k: usize = sbase;
        while k < len
            invariant
                len == buf@.len(),
                sbase <= k <= len,
                string_bytes@ == buf@.subrange(sbase as int, k as int),
            decreases len - k,
        {
            string_bytes.push(buf[k]);
            proof {
                assert(string_bytes@ =~= buf@.subrange(sbase as int, k + 1));
            }
            k = k + 1;
        }
        let r = TestAnalytics { header, tests, testdata, flags_set, string_bytes };
        proof {
            assert(8 * nb == 8 * nt * nd) by (nonlinear_arith) requires nb == nt * nd;
            assert(r.testdata@.len() == r.tests@.len() * r.header.num_days);
        }
        Ok(r)
    }
}

} // verus!
