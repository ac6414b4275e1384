use vstd::prelude::*;

use crate::flags::MAX_FLAG_WORDS;
use crate::format::{data_start, flags_start, framed, word, words_from, TestAnalytics};
use crate::records::{
    bucket_words, data_words, empty_bucket, header_at, header_words, key_words, lemma_data_words_at,
    lemma_data_words_len, lemma_key_words_at, lemma_key_words_len, lemma_words_bytes_len,
    lemma_words_bytes_word, TestData,
};
use crate::string_table::lemma_span_after;
use crate::timestamps::day_offset;
use crate::writer::{is_live, kept_as, rewritten, TestAnalyticsWriter};

verus! {

/// Every writer holds exactly `days` buckets for each of its tests.
pub proof fn law_buckets_per_test(w: TestAnalyticsWriter)
    requires
        w.wf(),
    ensures
        w.data().len() == w.keys().len() * w.days(),
{
}

/// In a writer whose rings are anchored, no bucket is later than today, and in the ring of
/// a test that ran today a bucket `k` days back that saw a run saw it exactly `k` days ago.
pub proof fn law_bucket_age(w: TestAnalyticsWriter, i: int, k: int)
    requires
        w.wf(),
        w.rings_aligned(),
        0 <= i < w.keys().len(),
        0 <= k < w.days(),
        w.bucket(i, 0).last_timestamp == w.today(),
    ensures
        w.bucket(i, k).last_timestamp <= w.today(),
        w.bucket(i, k).last_timestamp != 0 ==> w.today() - w.bucket(i, k).last_timestamp == k,
{
    crate::writer::lemma_index_in_ring(i, k, w.keys().len() as int, w.days() as int);
    assert(crate::writer::ring_aligned(w.ring(i), w.today()));
    assert(w.ring(i)[k] == w.bucket(i, k));
    assert(w.ring(i)[0] == w.bucket(i, 0));
}

/// Every offset a key holds lies inside the tables: suite and name offsets name entries
/// of the string table, and the flag-set offset names a set whose strings are entries of it.
pub proof fn law_offsets_in_tables(w: TestAnalyticsWriter, i: int)
    requires
        w.wf(),
        0 <= i < w.keys().len(),
    ensures
        (w.keys()[i].0 as int) < w.strings().len(),
        (w.keys()[i].1 as int) < w.strings().len(),
        w.flags().has_set(w.keys()[i].2),
        forall|j: int|
            0 <= j < w.flags().set_at(w.keys()[i].2).len() ==> (#[trigger] w.flags().set_at(
                w.keys()[i].2,
            )[j] as int) < w.strings().len(),
{
    let k = w.keys()[i];
    assert(w.key_valid(k));
    lemma_span_after(w.strings(), k.0 as int);
    lemma_span_after(w.strings(), k.1 as int);
    let q = choose|q: int| 0 <= q < w.flags().offsets().len() && w.flags().offsets()[q] == k.2;
    assert forall|j: int| 0 <= j < w.flags().set_at(k.2).len() implies (#[trigger] w.flags().set_at(k.2)[j] as int) < w.strings().len() by {
        assert(crate::string_table::valid_ref(w.strings(), w.flags().set_at(w.flags().offsets()[q])[j] as int));
        lemma_span_after(w.strings(), w.flags().set_at(k.2)[j] as int);
    }
}

/// After a rewrite to `n` days, every test that is left saw a run less than `n` days
/// before the rewrite's day, and each of them is a test of the writer before the rewrite
/// that did.
pub proof fn law_rewrite_keeps_only_live(w0: TestAnalyticsWriter, w1: TestAnalyticsWriter, today: u32, n: int, j: int)
    requires
        w0.wf(),
        w1.wf(),
        rewritten(w0, w1, today, n),
        0 <= j < w1.keys().len(),
    ensures
        day_offset(w1.bucket(j, 0).last_timestamp, today) < n,
        exists|i: int| 0 <= i < w0.keys().len() && is_live(w0, i, today, n) && crate::writer::same_test(w0, w0.keys()[i], w1, w1.keys()[j]),
{
    let m = choose|m: Seq<int>|
        #![trigger kept_as(w0, w1, m)]
        kept_as(w0, w1, m) && (forall|q: int| 0 <= q < m.len() ==> is_live(w0, #[trigger] m[q], today, n))
            && (forall|i: int| 0 <= i < w0.keys().len() && is_live(w0, i, today, n) ==> m.contains(i));
    assert(w1.bucket(j, 0) == w0.bucket(m[j], 0));
    assert(is_live(w0, m[j], today, n));
}

proof fn lemma_increasing_is_identity(m: Seq<int>, len: int)
    requires
        m.len() == len,
        forall|a: int, b: int| 0 <= a < b < m.len() ==> m[a] < m[b],
        forall|j: int| 0 <= j < m.len() ==> 0 <= #[trigger] m[j] < len,
    ensures
        forall|j: int| 0 <= j < len ==> #[trigger] m[j] == j,
{
    assert forall|j: int| 0 <= j < len implies #[trigger] m[j] == j by {
        lemma_at_least(m, j);
        lemma_at_most(m, len, j);
    }
}

proof fn lemma_at_least(m: Seq<int>, j: int)
    requires
        0 <= j < m.len(),
        forall|a: int, b: int| 0 <= a < b < m.len() ==> m[a] < m[b],
        forall|q: int| 0 <= q < m.len() ==> 0 <= #[trigger] m[q],
    ensures
        m[j] >= j,
    decreases j,
{
    if j > 0 {
        lemma_at_least(m, j - 1);
    }
}

proof fn lemma_at_most(m: Seq<int>, len: int, j: int)
    requires
        m.len() == len,
        0 <= j < len,
        forall|a: int, b: int| 0 <= a < b < m.len() ==> m[a] < m[b],
        forall|q: int| 0 <= q < m.len() ==> #[trigger] m[q] < len,
    ensures
        m[j] <= j,
    decreases len - j,
{
    if j < len - 1 {
        lemma_at_most(m, len, j + 1);
    }
}

proof fn lemma_covering_is_identity(m: Seq<int>, len: int, j: int)
    requires
        0 <= len,
        forall|a: int, b: int| 0 <= a < b < m.len() ==> m[a] < m[b],
        forall|q: int| 0 <= q < m.len() ==> 0 <= #[trigger] m[q] < len,
        forall|i: int| 0 <= i < len ==> m.contains(i),
        0 <= j < m.len(),
        j < len,
    ensures
        m[j] == j,
    decreases j,
{
    if j > 0 {
        lemma_covering_is_identity(m, len, j - 1);
    }
    assert(m.contains(j));
    let q = choose|q: int| 0 <= q < m.len() && m[q] == j;
    if q < j {
        lemma_covering_is_identity(m, len, q);
    }
    if j > 0 {
        assert(m[j - 1] == j - 1);
    }
}

proof fn lemma_covering_len(m: Seq<int>, len: int)
    requires
        0 <= len,
        forall|a: int, b: int| 0 <= a < b < m.len() ==> m[a] < m[b],
        forall|q: int| 0 <= q < m.len() ==> 0 <= #[trigger] m[q] < len,
        forall|i: int| 0 <= i < len ==> m.contains(i),
    ensures
        m.len() == len,
{
    if m.len() > len {
        lemma_at_least(m, len);
    } else if m.len() < len {
        let l = m.len() as int;
        assert(m.contains(l));
        let q = choose|q: int| 0 <= q < m.len() && m[q] == l;
        lemma_covering_is_identity(m, len, q);
    }
}

/// A rewrite that keeps every test and does not shrink the rings keeps every bucket of
/// every test, counters and most recent run alike.
pub proof fn law_rewrite_conserves(w0: TestAnalyticsWriter, w1: TestAnalyticsWriter, today: u32, n: int)
    requires
        w0.wf(),
        w1.wf(),
        rewritten(w0, w1, today, n),
        w1.days() == n,
        n >= w0.days(),
        forall|i: int| 0 <= i < w0.keys().len() ==> #[trigger] is_live(w0, i, today, n),
    ensures
        w1.keys().len() == w0.keys().len(),
        forall|i: int, k: int|
            0 <= i < w0.keys().len() && 0 <= k < w1.days() ==> #[trigger] w1.bucket(i, k) == if k < w0.days() {
                w0.bucket(i, k)
            } else {
                empty_bucket()
            },
        forall|i: int| 0 <= i < w0.keys().len() ==> crate::writer::same_test(w0, w0.keys()[i], w1, #[trigger] w1.keys()[i]),
{
    let m = choose|m: Seq<int>|
        #![trigger kept_as(w0, w1, m)]
        kept_as(w0, w1, m) && (forall|q: int| 0 <= q < m.len() ==> is_live(w0, #[trigger] m[q], today, n))
            && (forall|i: int| 0 <= i < w0.keys().len() && is_live(w0, i, today, n) ==> m.contains(i));
    lemma_covering_len(m, w0.keys().len() as int);
    lemma_increasing_is_identity(m, w0.keys().len() as int);
    assert forall|i: int| 0 <= i < w0.keys().len() implies crate::writer::same_test(w0, w0.keys()[i], w1, #[trigger] w1.keys()[i]) by {
        assert(m[i] == i);
    }
    assert forall|i: int, k: int|
        0 <= i < w0.keys().len() && 0 <= k < w1.days() implies #[trigger] w1.bucket(i, k) == if k < w0.days() {
            w0.bucket(i, k)
        } else {
            empty_bucket()
        } by {
        assert(m[i] == i);
    }
}

proof fn lemma_artifact_words(w: TestAnalyticsWriter)
    requires
        w.wf(),
    ensures
        ({
            let aw = w.artifact_words();
            let t = w.keys().len() as int;
            let n = w.days() as int;
            let f = w.flags().words().len() as int;
            &&& aw.len() == 7 + 3 * t + 8 * (t * n) + f
            &&& forall|j: int| 0 <= j < 7 ==> #[trigger] aw[j] == header_words(w.header_spec())[j]
            &&& forall|i: int| 0 <= i < t ==> aw[7 + 3 * i] == w.keys()[i].0 && aw[8 + 3 * i] == w.keys()[i].1 && aw[9 + 3 * i] == w.keys()[i].2
            &&& forall|q: int| 0 <= q < t * n ==> aw.subrange(7 + 3 * t + 8 * q, 7 + 3 * t + 8 * q + 8) == bucket_words(#[trigger] w.data()[q])
            &&& aw.subrange(7 + 3 * t + 8 * (t * n), aw.len() as int) == w.flags().words()
        }),
{
    let t = w.keys().len() as int;
    let n = w.days() as int;
    let hw = header_words(w.header_spec());
    let kw = key_words(w.keys());
    let dw = data_words(w.data());
    let fw = w.flags().words();
    lemma_key_words_len(w.keys());
    lemma_data_words_len(w.data());
    let aw = w.artifact_words();
    assert(aw == hw + kw + dw + fw);
    assert forall|i: int| 0 <= i < t implies aw[7 + 3 * i] == w.keys()[i].0 && aw[8 + 3 * i] == w.keys()[i].1 && aw[9 + 3 * i] == w.keys()[i].2 by {
        lemma_key_words_at(w.keys(), i);
    }
    assert forall|q: int| 0 <= q < t * n implies aw.subrange(7 + 3 * t + 8 * q, 7 + 3 * t + 8 * q + 8) == bucket_words(#[trigger] w.data()[q]) by {
        lemma_data_words_at(w.data(), q);
        assert(aw.subrange(7 + 3 * t + 8 * q, 7 + 3 * t + 8 * q + 8) =~= dw.subrange(8 * q, 8 * q + 8));
    }
    assert(aw.subrange(7 + 3 * t + 8 * (t * n), aw.len() as int) =~= fw);
}

/// Writing a writer's artifact and reading it back gives the writer's header, keys,
/// buckets, flag-set table and string table: the artifact is well framed, and any view
/// read from it holds exactly these.
pub proof fn law_round_trip(w: TestAnalyticsWriter, v: TestAnalytics)
    requires
        w.wf(),
        v.read_from(w.artifact()),
    ensures
        framed(w.artifact()),
        v.header == w.header_spec(),
        v.header.num_days == w.days(),
        v.header.timestamp == w.today(),
        v.keys() == w.keys(),
        v.testdata@ == w.data(),
        v.flags_set.words() == w.flags().words(),
        v.string_bytes@ == w.strings(),
{
    let b = w.artifact();
    let aw = w.artifact_words();
    let s = w.strings();
    let t = w.keys().len() as int;
    let n = w.days() as int;
    let f = w.flags().words().len() as int;
    lemma_artifact_words(w);
    lemma_words_bytes_len(aw);
    assert forall|j: int| 0 <= j < aw.len() implies #[trigger] word(b, j) == aw[j] by {
        lemma_words_bytes_word(aw, s, j);
    }
    let h = w.header_spec();
    assert(header_at(b) == h) by {
        let hw = header_words(h);
        assert(word(b, 0) == aw[0] && word(b, 1) == aw[1] && word(b, 2) == aw[2] && word(b, 3) == aw[3]);
        assert(word(b, 4) == aw[4] && word(b, 5) == aw[5] && word(b, 6) == aw[6]);
        assert(aw[0] == hw[0] && aw[1] == hw[1] && aw[2] == hw[2] && aw[3] == hw[3]);
        assert(aw[4] == hw[4] && aw[5] == hw[5] && aw[6] == hw[6]);
    }
    assert(h.num_tests == t && h.num_days == n && h.flags_set_len == 4 * f && h.string_bytes == s.len());
    assert(b.len() == 4 * aw.len() + s.len());
    assert(crate::format::announced_len(h) == b.len()) by {
        assert(32 * h.num_tests * h.num_days == 4 * (8 * (t * n))) by (nonlinear_arith)
            requires
                h.num_tests == t,
                h.num_days == n,
        ;
    }
    assert(flags_start(h) == 7 + 3 * t + 8 * (t * n)) by {
        assert(8 * h.num_tests * h.num_days == 8 * (t * n)) by (nonlinear_arith)
            requires
                h.num_tests == t,
                h.num_days == n,
        ;
    }
    let fs = flags_start(h);
    assert(words_from(b, fs, (h.flags_set_len / 4) as int) =~= w.flags().words()) by {
        assert forall|q: int| 0 <= q < f implies words_from(b, fs, f)[q] == w.flags().words()[q] by {
            assert(word(b, fs + q) == aw[fs + q]);
            assert(aw.subrange(fs, aw.len() as int)[q] == aw[fs + q]);
        }
    }
    assert(crate::flags::entries_cover(words_from(b, fs, (h.flags_set_len / 4) as int), w.flags().offsets()));
    assert(framed(b));
    assert(v.keys() =~= w.keys()) by {
        assert forall|i: int| 0 <= i < t implies v.keys()[i] == w.keys()[i] by {
            assert(v.tests@[i].key() == (word(b, 7 + 3 * i), word(b, 8 + 3 * i), word(b, 9 + 3 * i)));
        }
    }
    assert(v.testdata@ =~= w.data()) by {
        assert forall|q: int| 0 <= q < t * n implies v.testdata@[q] == w.data()[q] by {
            let from = data_start(h) + 8 * q;
            assert(bucket_words(v.testdata@[q]) == words_from(b, from, 8));
            assert(words_from(b, from, 8) =~= aw.subrange(from, from + 8)) by {
                assert forall|r: int| 0 <= r < 8 implies words_from(b, from, 8)[r] == aw.subrange(from, from + 8)[r] by {
                    lemma_index_bound(t, n, q, r);
                    assert(word(b, from + r) == aw[from + r]);
                }
            }
            lemma_bucket_words_injective(v.testdata@[q], w.data()[q]);
        }
    }
    assert(v.string_bytes@ =~= s);
}

proof fn lemma_index_bound(t: int, n: int, q: int, r: int)
    requires
        0 <= q < t * n,
        0 <= r < 8,
    ensures
        7 + 3 * t + 8 * q + r < 7 + 3 * t + 8 * (t * n),
{
}

proof fn lemma_bucket_words_injective(a: TestData, b: TestData)
    requires
        bucket_words(a) == bucket_words(b),
    ensures
        a == b,
{
    assert(bucket_words(a)[0] == bucket_words(b)[0]);
    assert(bucket_words(a)[1] == bucket_words(b)[1]);
    assert(bucket_words(a)[2] == bucket_words(b)[2]);
    assert(bucket_words(a)[3] == bucket_words(b)[3]);
    assert(bucket_words(a)[4] == bucket_words(b)[4]);
    assert(bucket_words(a)[5] == bucket_words(b)[5]);
    assert(bucket_words(a)[6] == bucket_words(b)[6]);
    assert(bucket_words(a)[7] == bucket_words(b)[7]);
}

/// Adding two buckets together gives the same counters in either order.
pub proof fn law_bucket_merge_counts_commute<F: Fn(u32, u32) -> u32>(l: TestData, s: TestData, r1: TestData, r2: TestData, sum: F)
    requires
        crate::writer::bucket_merged(l, s, r1, sum),
        crate::writer::bucket_merged(s, l, r2, sum),
    ensures
        r1.total_pass_count == r2.total_pass_count,
        r1.total_fail_count == r2.total_fail_count,
        r1.total_skip_count == r2.total_skip_count,
        r1.total_flaky_fail_count == r2.total_flaky_fail_count,
{
}

/// Merging two rings of the same length gives, day by day, the same counters in either
/// order.
pub proof fn law_ring_merge_counts_commute<F: Fn(u32, u32) -> u32>(
    a: Seq<TestData>,
    b: Seq<TestData>,
    r1: Seq<TestData>,
    r2: Seq<TestData>,
    sum: F,
)
    requires
        a.len() == b.len(),
        a.len() >= 1,
        crate::writer::ring_merged(a, b, r1, sum),
        crate::writer::ring_merged(b, a, r2, sum),
    ensures
        forall|k: int|
            0 <= k < a.len() ==> {
                &&& (#[trigger] r1[k]).total_pass_count == r2[k].total_pass_count
                &&& r1[k].total_fail_count == r2[k].total_fail_count
                &&& r1[k].total_skip_count == r2[k].total_skip_count
                &&& r1[k].total_flaky_fail_count == r2[k].total_flaky_fail_count
            },
{
    let n = a.len() as int;
    let ta = a[0].last_timestamp;
    let tb = b[0].last_timestamp;
    assert forall|k: int| 0 <= k < n implies {
        &&& (#[trigger] r1[k]).total_pass_count == r2[k].total_pass_count
        &&& r1[k].total_fail_count == r2[k].total_fail_count
        &&& r1[k].total_skip_count == r2[k].total_skip_count
        &&& r1[k].total_flaky_fail_count == r2[k].total_flaky_fail_count
    } by {
        if tb > ta {
            let d = tb - ta;
            if k < d {
                assert(crate::writer::shift_seq(a, d)[k] == empty_bucket());
            } else {
                assert(crate::writer::shift_seq(a, d)[k] == a[k - d]);
            }
        } else if ta > tb {
            let d = ta - tb;
            if k < d {
                assert(crate::writer::shift_seq(b, d)[k] == empty_bucket());
            } else {
                assert(crate::writer::shift_seq(b, d)[k] == b[k - d]);
            }
        }
    }
}

proof fn lemma_cover_prefix(t: Seq<u32>, s1: Seq<u32>, s2: Seq<u32>, i: int)
    requires
        crate::flags::entries_cover(t, s1),
        crate::flags::entries_cover(t, s2),
        0 <= i < s1.len(),
        0 <= i < s2.len(),
    ensures
        s1[i] == s2[i],
    decreases i,
{
    reveal(crate::flags::entries_cover);
    if i > 0 {
        lemma_cover_prefix(t, s1, s2, i - 1);
        let _ = s1[i - 1];
        let _ = s2[i - 1];
    }
}

proof fn lemma_cover_unique(t: Seq<u32>, s1: Seq<u32>, s2: Seq<u32>)
    requires
        crate::flags::entries_cover(t, s1),
        crate::flags::entries_cover(t, s2),
    ensures
        s1 == s2,
{
    reveal(crate::flags::entries_cover);
    if s1.len() < s2.len() {
        if s1.len() == 0 {
            let _ = s2[0];
        } else {
            let i = s1.len() - 1;
            lemma_cover_prefix(t, s1, s2, i);
            let _ = s1[i];
            let _ = s2[i];
            let _ = s2[i + 1];
        }
    } else if s2.len() < s1.len() {
        if s2.len() == 0 {
            let _ = s1[0];
        } else {
            let i = s2.len() - 1;
            lemma_cover_prefix(t, s1, s2, i);
            let _ = s1[i];
            let _ = s2[i];
            let _ = s1[i + 1];
        }
    }
    assert forall|i: int| 0 <= i < s1.len() implies s1[i] == s2[i] by {
        lemma_cover_prefix(t, s1, s2, i);
    }
    assert(s1 =~= s2);
}

/// The view read back from a writer's artifact is consistent, and lists the writer's flag
/// sets at the writer's offsets.
pub proof fn law_view_consistent(w: TestAnalyticsWriter, v: TestAnalytics)
    requires
        w.wf(),
        v.valid(),
        v.read_from(w.artifact()),
    ensures
        v.consistent(),
        v.flags_set.offsets() == w.flags().offsets(),
{
    law_round_trip(w, v);
    lemma_cover_unique(v.flags_set.words(), v.flags_set.offsets(), w.flags().offsets());
    assert(v.flags_set.refs_valid(v.string_bytes@)) by {
        assert forall|i: int, j: int|
            0 <= i < v.flags_set.offsets().len() && 0 <= j < v.flags_set.set_at(v.flags_set.offsets()[i]).len()
                implies crate::string_table::valid_ref(v.string_bytes@, #[trigger] v.flags_set.set_at(v.flags_set.offsets()[i])[j] as int) by {
            assert(v.flags_set.set_at(v.flags_set.offsets()[i]) == w.flags().set_at(w.flags().offsets()[i]));
        }
    }
    assert forall|i: int| 0 <= i < v.keys().len() implies {
        let k = #[trigger] v.keys()[i];
        &&& crate::string_table::valid_ref(v.string_bytes@, k.0 as int)
        &&& crate::string_table::valid_ref(v.string_bytes@, k.1 as int)
        &&& v.flags_set.has_set(k.2)
    } by {
        assert(w.key_valid(w.keys()[i]));
    }
}

proof fn lemma_single_empty_set(f: crate::flags::FlagsSet)
    requires
        f.wf(),
        f.words() == seq![0u32],
    ensures
        forall|q: int| 0 <= q < f.offsets().len() ==> f.set_at(#[trigger] f.offsets()[q]).len() == 0,
{
    assert forall|q: int| 0 <= q < f.offsets().len() implies f.set_at(#[trigger] f.offsets()[q]).len() == 0 by {
        crate::flags::lemma_entry_inside(f.words(), f.offsets(), q);
    }
}

proof fn lemma_empty_view_adds_nothing(e_w: TestAnalyticsWriter, e: TestAnalytics)
    requires
        e_w.wf(),
        e_w.keys().len() == 0,
        e_w.flags().words() == seq![0u32],
        e.valid(),
        e.read_from(e_w.artifact()),
    ensures
        crate::writer::adds_nothing(e),
        e.header.num_tests == 0,
        e.header.num_days == e_w.days(),
{
    law_round_trip(e_w, e);
    assert(e.tests@.len() == e.keys().len());
    lemma_single_empty_set(e.flags_set);
}

/// Merging the view of a writer with the view of an empty writer of as many days adds
/// nothing: the merge takes the writer's view as the larger one and the empty one adds
/// nothing to it, so that the merge gives back the writer's keys, buckets and tables.
pub proof fn law_merge_with_empty(w: TestAnalyticsWriter, v: TestAnalytics, e_w: TestAnalyticsWriter, e: TestAnalytics)
    requires
        w.wf(),
        v.valid(),
        v.read_from(w.artifact()),
        e_w.wf(),
        e_w.keys().len() == 0,
        e_w.days() == w.days(),
        e_w.flags().words() == seq![0u32],
        e.valid(),
        e.read_from(e_w.artifact()),
        exists|o: u32| w.flags().has_set(o) && w.flags().set_at(o) == Seq::<u32>::empty(),
        w.flags().words().len() < MAX_FLAG_WORDS,
    ensures
        crate::writer::merge_larger(v, e) == v,
        crate::writer::merges_as_identity(v, crate::writer::merge_smaller(v, e)),
        v.keys() == w.keys(),
        v.testdata@ == w.data(),
        v.string_bytes@ == w.strings(),
        v.flags_set.words() == w.flags().words(),
{
    law_view_consistent(w, v);
    law_round_trip(w, v);
    lemma_empty_view_adds_nothing(e_w, e);
    assert(crate::writer::merge_larger(v, e) == v);
    assert(crate::writer::merge_smaller(v, e) == e);
    let o = choose|o: u32| w.flags().has_set(o) && w.flags().set_at(o) == Seq::<u32>::empty();
    assert(v.flags_set.has_set(o) && v.flags_set.set_at(o) == Seq::<u32>::empty());
}

} // verus!
