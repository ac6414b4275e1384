use vstd::prelude::*;

use crate::records::{empty_bucket, TestData};

verus! {

/// How many days `bucket_ts` lies before `today_ts`; 0 when it is not before.
pub open spec fn day_offset(bucket_ts: u32, today_ts: u32) -> int {
    if bucket_ts <= today_ts {
        today_ts - bucket_ts
    } else {
        0
    }
}

/// How many days `bucket_ts` lies before `today_ts`, clamped at 0.
pub fn offset_from_today(bucket_ts: u32, today_ts: u32) -> (r: usize)
    ensures
        r == day_offset(bucket_ts, today_ts),
{
    if bucket_ts <= today_ts {
        (today_ts - bucket_ts) as usize
    } else {
        0
    }
}

/// The ring `[start, start + n)` of `old` after "today" moved on by `shift` days: day `k`
/// now holds what day `k - shift` held, and the first `shift` days are empty.
pub open spec fn shifted(old: Seq<TestData>, start: int, n: int, shift: int) -> Seq<TestData> {
    Seq::new(
        old.len(),
        |i: int|
            if start <= i < start + n {
                if i - start < shift {
                    empty_bucket()
                } else {
                    old[i - shift]
                }
            } else {
                old[i]
            },
    )
}

/// Moves the ring of `n` buckets at `start` forward by `shift` days, in place.
pub fn shift_data(data: &mut Vec<TestData>, start: usize, n: usize, shift: usize)
    requires
        start + n <= old(data)@.len(),
    ensures
        final(data)@ == shifted(old(data)@, start as int, n as int, shift as int),
{
    if shift == 0 {
        proof {
            assert(final(data)@ =~= shifted(old(data)@, start as int, n as int, 0));
        }
        return ;
    }
    let ghost orig = data@;
    let len = data.len();
    let mut k: usize = n;
    while k > shift
        invariant
            start + n <= orig.len(),
            data@.len() == orig.len(),
            shift <= k <= n || (k < shift && k == n),
            orig.len() == len,
            forall|i: int|
                0 <= i < data@.len() ==> #[trigger] data@[i] == if start + k <= i < start + n {
                    orig[i - shift]
                } else {
                    orig[i]
                },
        decreases k,
    {
        k = k - 1;
        let moved = data[start + k - shift];
        data.set(start + k, moved);
    }
    let mut j: usize = 0;
    let first = if shift < n {
        shift
    } else {
        n
    };
    while j < first
        invariant
            start + n <= orig.len(),
            data@.len() == orig.len(),
            first <= n,
            orig.len() == len,
            first == if shift < n {
                shift
            } else {
                n
            },
            j <= first,
            k == if shift < n {
                shift
            } else {
                n
            },
            forall|i: int|
                0 <= i < data@.len() ==> #[trigger] data@[i] == if start <= i < start + j {
                    empty_bucket()
                } else if start + k <= i < start + n {
                    orig[i - shift]
                } else {
                    orig[i]
                },
        decreases first - j,
    {
        data.set(start + j, TestData::empty());
        j = j + 1;
    }
    proof {
        assert(data@ =~= shifted(orig, start as int, n as int, shift as int));
    }
}

/// The part of a source ring of `src_len` days that lands inside a destination ring of
/// `dst_len` days when day `k` of the source goes to day `k + shift`.
pub open spec fn overlap_len(src_len: int, dst_len: int, shift: int) -> int {
    if dst_len <= shift {
        0
    } else if src_len <= dst_len - shift {
        src_len
    } else {
        dst_len - shift
    }
}

/// The sub-range of `src_start .. src_end` whose days land inside `dst_start .. dst_end`
/// when the source is moved `shift` days back.
pub fn adjust_selection_range(
    src_start: usize,
    src_end: usize,
    dst_start: usize,
    dst_end: usize,
    shift: usize,
) -> (r: (usize, usize))
    requires
        src_start <= src_end,
        dst_start <= dst_end,
    ensures
        r.0 == src_start,
        r.1 - r.0 == overlap_len(src_end - src_start, dst_end - dst_start, shift as int),
        r.1 <= src_end,
{
    let src_len = src_end - src_start;
    let dst_len = dst_end - dst_start;
    let len = if dst_len <= shift {
        0
    } else if src_len <= dst_len - shift {
        src_len
    } else {
        dst_len - shift
    };
    (src_start, src_start + len)
}

} // verus!
