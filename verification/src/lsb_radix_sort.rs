//! The LSB driver: stable counting-scatter passes from the least
//! significant level upwards, two levels per round when possible, with a
//! ping-pong between the bucket and a temporary buffer.
//!
//! A pass whose level is already byte-sorted is skipped; otherwise the
//! scatter into the temporary buffer is fused with counting the next
//! level, and the scatter back consumes that histogram.

use vstd::prelude::*;
use crate::radix_key::RadixKey;
use crate::radix_key::sorted_between;
use crate::counts::CountManager;
use crate::counts::count_below;
use crate::counts::count_level;
use crate::counts::is_histogram;
use crate::counts::lemma_count_below_all;
use crate::counts::lemma_count_level_multiset;
use crate::counts::lemma_level_sorted_lift;
use crate::counts::lemma_scattered_multiset;
use crate::counts::lemma_scattered_sorted;
use crate::counts::lemma_sum_prefix_counts;
use crate::counts::sum_prefix;
use crate::sorts::out_of_place_sort::out_of_place_sort;
use crate::sorts::out_of_place_sort::out_of_place_sort_with_counts;

verus! {

/// A fresh buffer holding a copy of `bucket[lo..hi]`.
fn tmp_bucket_copy<T: RadixKey>(bucket: &Vec<T>, lo: usize, hi: usize) -> (r: Vec<T>)
    requires
        lo <= hi <= bucket.len(),
    ensures
        r@ == bucket@.subrange(lo as int, hi as int),
{
    let mut r: Vec<T> = Vec::new();
    let mut i: usize = lo;
    while i < hi
        invariant
            lo <= i <= hi <= bucket.len(),
            r@ =~= bucket@.subrange(lo as int, i as int),
        decreases hi - i,
    {
        r.push(bucket[i]);
        proof {
            assert(r@ =~= bucket@.subrange(lo as int, i + 1));
        }
        i += 1;
    }
    proof {
        assert(r@ =~= bucket@.subrange(lo as int, hi as int));
    }
    r
}

/// Overwrite `bucket[lo..lo + src.len()]` with the contents of `src`.
fn copy_back<T: RadixKey>(bucket: &mut Vec<T>, lo: usize, src: &Vec<T>)
    requires
        lo + src.len() <= old(bucket).len(),
    ensures
        final(bucket).len() == old(bucket).len(),
        final(bucket)@.subrange(lo as int, lo + src.len()) == src@,
        forall|q: int|
            0 <= q < old(bucket).len() && !(lo <= q < lo + src.len()) ==> final(bucket)@[q]
                == old(bucket)@[q],
{
    let mut i: usize = 0;
    while i < src.len()
        invariant
            i <= src.len(),
            lo + src.len() <= bucket.len(),
            bucket.len() == old(bucket).len(),
            forall|k: int| 0 <= k < i ==> bucket@[lo + k] == src@[k],
            forall|q: int|
                0 <= q < bucket.len() && !(lo <= q < lo + i) ==> bucket@[q] == old(bucket)@[q],
        decreases src.len() - i,
    {
        let x = src[i];
        bucket[lo + i] = x;
        i += 1;
    }
    proof {
        assert(bucket@.subrange(lo as int, lo + src.len()) =~= src@);
    }
}

/// One stable scatter pass at `level`, bucket to tmp and back.
fn lsb_radix_sort<T: RadixKey>(
    cm: &mut CountManager,
    bucket: &mut Vec<T>,
    lo: usize,
    hi: usize,
    tmp: &mut Vec<T>,
    level: usize,
    Ghost(end_lvl): Ghost<int>,
)
    requires
        lo <= hi <= old(bucket).len(),
        old(tmp).len() == hi - lo,
        level < T::spec_levels(),
        old(cm).wf(),
        0 <= end_lvl <= level,
        level > end_lvl ==> sorted_between(
            old(bucket)@.subrange(lo as int, hi as int),
            level - 1,
            end_lvl,
        ),
    ensures
        final(cm).wf(),
        final(bucket).len() == old(bucket).len(),
        final(tmp).len() == old(tmp).len(),
        sorted_between(final(bucket)@.subrange(lo as int, hi as int), level as int, end_lvl),
        final(bucket)@.subrange(lo as int, hi as int).to_multiset() == old(bucket)@.subrange(
            lo as int,
            hi as int,
        ).to_multiset(),
        forall|q: int|
            0 <= q < old(bucket).len() && !(lo <= q < hi) ==> final(bucket)@[q] == old(
                bucket,
            )@[q],
{
    let ghost s = bucket@.subrange(lo as int, hi as int);
    let (counts, _already_sorted) = cm.counts(bucket, lo, hi, level);
    proof {
        lemma_count_below_all(s, level as int);
        lemma_sum_prefix_counts(counts@, s, level as int, 256);
    }
    let mut prefix_sums = cm.prefix_sums(&counts);
    proof {
        assert forall|b: int| 0 <= b < 256 implies (#[trigger] prefix_sums@[b]) as int
            == count_below(s, level as int, b) by {
            lemma_sum_prefix_counts(counts@, s, level as int, b);
        }
    }
    out_of_place_sort(bucket, lo, hi, tmp, 0, level, &mut prefix_sums);
    cm.return_counts(prefix_sums);
    cm.return_counts(counts);
    proof {
        assert(tmp@.subrange(0, hi - lo) =~= tmp@);
        lemma_scattered_sorted(s, tmp@, level as int, end_lvl);
        lemma_scattered_multiset(s, tmp@, level as int);
    }
    copy_back(bucket, lo, tmp);
}

/// One fused round: scatter at `level` into tmp while counting
/// `level + 1`, then scatter back at `level + 1` with that histogram.
fn lsb_radix_sort_double<T: RadixKey>(
    cm: &mut CountManager,
    bucket: &mut Vec<T>,
    lo: usize,
    hi: usize,
    tmp: &mut Vec<T>,
    level: usize,
    Ghost(end_lvl): Ghost<int>,
)
    requires
        lo <= hi <= old(bucket).len(),
        old(tmp).len() == hi - lo,
        level + 1 < T::spec_levels(),
        level < usize::MAX,
        old(cm).wf(),
        0 <= end_lvl <= level,
        level > end_lvl ==> sorted_between(
            old(bucket)@.subrange(lo as int, hi as int),
            level - 1,
            end_lvl,
        ),
    ensures
        final(cm).wf(),
        final(bucket).len() == old(bucket).len(),
        final(tmp).len() == old(tmp).len(),
        sorted_between(final(bucket)@.subrange(lo as int, hi as int), level + 1, end_lvl),
        final(bucket)@.subrange(lo as int, hi as int).to_multiset() == old(bucket)@.subrange(
            lo as int,
            hi as int,
        ).to_multiset(),
        forall|q: int|
            0 <= q < old(bucket).len() && !(lo <= q < hi) ==> final(bucket)@[q] == old(
                bucket,
            )@[q],
{
    let ghost s = bucket@.subrange(lo as int, hi as int);
    let (counts, _already_sorted) = cm.counts(bucket, lo, hi, level);
    proof {
        lemma_count_below_all(s, level as int);
        lemma_sum_prefix_counts(counts@, s, level as int, 256);
    }
    let mut prefix_sums = cm.prefix_sums(&counts);
    proof {
        assert forall|b: int| 0 <= b < 256 implies (#[trigger] prefix_sums@[b]) as int
            == count_below(s, level as int, b) by {
            lemma_sum_prefix_counts(counts@, s, level as int, b);
        }
    }
    let mut next_counts = cm.get_empty_counts();
    let mut scratch_counts = cm.get_empty_counts();
    out_of_place_sort_with_counts(
        bucket,
        lo,
        hi,
        tmp,
        0,
        level,
        &mut prefix_sums,
        &mut next_counts,
        &mut scratch_counts,
    );
    cm.return_counts(prefix_sums);
    cm.return_counts(counts);
    cm.return_counts(scratch_counts);

    let ghost t = tmp@.subrange(0, hi - lo);
    proof {
        assert(t =~= tmp@);
        lemma_scattered_sorted(s, t, level as int, end_lvl);
        lemma_scattered_multiset(s, t, level as int);
        // the fused histogram of s at level + 1 is also the histogram of
        // the scattered buffer, which holds the same elements
        assert forall|b: int| 0 <= b < 256 implies (#[trigger] next_counts@[b]) as int
            == count_level(t, level + 1, b) by {
            lemma_count_level_multiset(s, t, level + 1, b);
        }
        assert(is_histogram(next_counts@, t, level + 1));
        lemma_count_below_all(t, level + 1);
        lemma_sum_prefix_counts(next_counts@, t, level + 1, 256);
    }
    let mut prefix_sums2 = cm.prefix_sums(&next_counts);
    proof {
        assert forall|b: int| 0 <= b < 256 implies (#[trigger] prefix_sums2@[b]) as int
            == count_below(t, level + 1, b) by {
            lemma_sum_prefix_counts(next_counts@, t, level + 1, b);
        }
    }
    out_of_place_sort(tmp, 0, hi - lo, bucket, lo, level + 1, &mut prefix_sums2);
    cm.return_counts(prefix_sums2);
    cm.return_counts(next_counts);
    proof {
        let d = bucket@.subrange(lo as int, hi as int);
        lemma_scattered_sorted(t, d, level + 1, end_lvl);
        lemma_scattered_multiset(t, d, level + 1);
    }
}

/// Sort `bucket[lo..hi]` with respect to the levels
/// `[end_level, start_level]`, least significant first, skipping levels
/// whose bytes are already in order and fusing rounds in pairs.
pub fn lsb_radix_sort_adapter<T: RadixKey>(
    cm: &mut CountManager,
    bucket: &mut Vec<T>,
    lo: usize,
    hi: usize,
    start_level: usize,
    end_level: usize,
)
    requires
        lo <= hi <= old(bucket).len(),
        end_level <= start_level,
        start_level < T::spec_levels(),
        start_level < usize::MAX,
        old(cm).wf(),
    ensures
        final(cm).wf(),
        final(bucket).len() == old(bucket).len(),
        sorted_between(
            final(bucket)@.subrange(lo as int, hi as int),
            start_level as int,
            end_level as int,
        ),
        final(bucket)@.subrange(lo as int, hi as int).to_multiset() == old(bucket)@.subrange(
            lo as int,
            hi as int,
        ).to_multiset(),
        forall|q: int|
            0 <= q < old(bucket).len() && !(lo <= q < hi) ==> final(bucket)@[q] == old(
                bucket,
            )@[q],
{
    let ghost s0 = bucket@.subrange(lo as int, hi as int);
    if hi - lo < 2 {
        return;
    }
    let mut tmp = tmp_bucket_copy(bucket, lo, hi);
    let mut l: usize = end_level;
    while l <= start_level
        invariant
            end_level <= l <= start_level + 1,
            start_level < usize::MAX,
            lo <= hi <= bucket.len(),
            hi - lo >= 2,
            start_level < T::spec_levels(),
            cm.wf(),
            tmp.len() == hi - lo,
            bucket.len() == old(bucket).len(),
            l > end_level ==> sorted_between(
                bucket@.subrange(lo as int, hi as int),
                l - 1,
                end_level as int,
            ),
            bucket@.subrange(lo as int, hi as int).to_multiset() == s0.to_multiset(),
            forall|q: int|
                0 <= q < bucket.len() && !(lo <= q < hi) ==> bucket@[q] == old(bucket)@[q],
        decreases start_level + 1 - l,
    {
        let ghost s_cur = bucket@.subrange(lo as int, hi as int);
        let (counts, already_sorted) = cm.counts(bucket, lo, hi, l);
        cm.return_counts(counts);
        if already_sorted {
            proof {
                lemma_level_sorted_lift(s_cur, l as int, end_level as int);
            }
            l += 1;
        } else if l < start_level {
            lsb_radix_sort_double(cm, bucket, lo, hi, &mut tmp, l, Ghost(end_level as int));
            l += 2;
        } else {
            lsb_radix_sort(cm, bucket, lo, hi, &mut tmp, l, Ghost(end_level as int));
            l += 1;
        }
    }
}

} // verus!
