//! The top-down driver: partition the bucket at its highest unsorted
//! level with the in-place ska kernel, then sort each byte class
//! recursively one level down.
//!
//! The same worker backs two surfaces: the tuner-driven adapter, which
//! hands every class back to the director, and the classic top-down
//! driver, which keeps large classes and sends the rest through LSB
//! passes.

use vstd::prelude::*;
use crate::radix_key::RadixKey;
use crate::radix_key::sorted_between;
use crate::counts::CountManager;
use crate::counts::byte_partitioned;
use crate::counts::constant_at;
use crate::counts::count_below;
use crate::counts::count_level;
use crate::counts::get_counts_and_level_descending;
use crate::counts::is_histogram;
use crate::counts::lemma_constant_at_multiset;
use crate::counts::lemma_constant_lift_range;
use crate::counts::lemma_constant_range_sorted;
use crate::counts::lemma_count_below_all;
use crate::counts::lemma_count_below_le_len;
use crate::counts::lemma_count_below_mono;
use crate::counts::lemma_partitioned_sorted;
use crate::counts::lemma_subrange_ms_patch;
use crate::counts::lemma_sum_prefix_counts;
use crate::counts::lemma_uniform_byte_multiset;
use crate::lsb_radix_sort::lsb_radix_sort_adapter;
use crate::sorts::ska_sort::ska_sort;
use crate::tuner::Tuner;

verus! {

/// Classes at most this large leave the top-down driver for LSB passes.
pub const SKA_SORT_THRESHOLD: usize = 10000;

/// Partition `bucket[lo..hi]` at the highest non-constant level with the
/// ska kernel and sort each byte class recursively one level down:
/// through the director when `via_director` is set, else staying
/// top-down for large classes and running LSB passes for the rest.
#[verifier::rlimit(100)]
pub(crate) fn msb_partition_recurse<T: RadixKey, Tu: Tuner>(
    cm: &mut CountManager,
    tuner: &Tu,
    in_place: bool,
    via_director: bool,
    bucket: &mut Vec<T>,
    lo: usize,
    hi: usize,
    level: usize,
)
    requires
        lo <= hi <= old(bucket).len(),
        level < T::spec_levels(),
        level < usize::MAX,
        old(cm).wf(),
    ensures
        final(cm).wf(),
        final(bucket).len() == old(bucket).len(),
        sorted_between(final(bucket)@.subrange(lo as int, hi as int), level as int, 0),
        final(bucket)@.subrange(lo as int, hi as int).to_multiset() == old(bucket)@.subrange(
            lo as int,
            hi as int,
        ).to_multiset(),
        forall|q: int|
            0 <= q < old(bucket).len() && !(lo <= q < hi) ==> final(bucket)@[q] == old(
                bucket,
            )@[q],
    decreases level, 0int,
{
    let ghost s_orig = bucket@.subrange(lo as int, hi as int);
    if hi - lo < 2 {
        return;
    }
    let r = get_counts_and_level_descending(cm, bucket, lo, hi, level, 0);
    match r {
        None => {
            proof {
                lemma_constant_range_sorted(s_orig, level as int);
            }
        },
        Some((counts, lvl)) => {
            let ghost s1 = bucket@.subrange(lo as int, hi as int);
            proof {
                lemma_count_below_all(s1, lvl as int);
                lemma_sum_prefix_counts(counts@, s1, lvl as int, 256);
            }
            let mut prefix_sums = cm.prefix_sums(&counts);
            proof {
                assert forall|b: int| 0 <= b < 256 implies (#[trigger] prefix_sums@[b]) as int
                    == count_below(s1, lvl as int, b) by {
                    lemma_sum_prefix_counts(counts@, s1, lvl as int, b);
                }
            }
            let end_offsets = cm.end_offsets(&counts, &prefix_sums);
            proof {
                assert forall|b: int| 0 <= b < 256 implies (#[trigger] end_offsets@[b]) as int
                    == count_below(s1, lvl as int, b) + count_level(s1, lvl as int, b) by {
                    lemma_sum_prefix_counts(counts@, s1, lvl as int, b);
                }
            }
            ska_sort(bucket, lo, hi, &mut prefix_sums, &end_offsets, lvl);
            cm.return_counts(prefix_sums);
            cm.return_counts(end_offsets);

            let ghost d_ska = bucket@;
            if lvl == 0 {
                cm.return_counts(counts);
                proof {
                    let d = bucket@.subrange(lo as int, hi as int);
                    lemma_partitioned_sorted(s1, d, 0, 0);
                    assert forall|l2: int| 0 < l2 <= level implies constant_at(d, l2) by {
                        lemma_constant_at_multiset(s1, d, l2);
                    }
                    lemma_constant_lift_range(d, level as int, 0);
                }
                return;
            }

            let mut b: usize = 0;
            let mut start: usize = lo;
            while b < 256
                invariant
                    b <= 256,
                    lo <= start <= hi <= bucket.len(),
                    bucket.len() == old(bucket).len(),
                    1 <= lvl <= level < T::spec_levels(),
                    level < usize::MAX,
                    cm.wf(),
                    counts.wf(),
                    is_histogram(counts@, s1, lvl as int),
                    s1.len() == hi - lo,
                    d_ska.len() == bucket.len(),
                    byte_partitioned(s1, d_ska.subrange(lo as int, hi as int), lvl as int),
                    start as int == lo + count_below(s1, lvl as int, b as int),
                    bucket@.subrange(lo as int, hi as int).to_multiset() == s1.to_multiset(),
                    forall|q: int| start <= q < hi ==> bucket@[q] == d_ska[q],
                    forall|b2: int|
                        0 <= b2 < b ==> sorted_between(
                            #[trigger] bucket@.subrange(
                                lo + count_below(s1, lvl as int, b2),
                                lo + count_below(s1, lvl as int, b2) + count_level(
                                    s1,
                                    lvl as int,
                                    b2,
                                ),
                            ),
                            lvl - 1,
                            0,
                        ),
                    forall|b2: int, k: int|
                        #![trigger bucket@[lo + k], count_below(s1, lvl as int, b2)]
                        0 <= b2 < b && count_below(s1, lvl as int, b2) <= k < count_below(
                            s1,
                            lvl as int,
                            b2,
                        ) + count_level(s1, lvl as int, b2) ==> bucket@[lo + k].spec_level(
                            lvl as int,
                        ) as int == b2,
                    forall|q: int|
                        0 <= q < bucket.len() && !(lo <= q < hi) ==> bucket@[q] == old(
                            bucket,
                        )@[q],
                decreases 256 - b,
            {
                let c = counts.get(b);
                proof {
                    lemma_count_below_le_len(s1, lvl as int, b as int);
                    lemma_count_below_le_len(s1, lvl as int, b + 1);
                    assert(count_below(s1, lvl as int, b + 1) == count_below(s1, lvl as int, b as int)
                        + count_level(s1, lvl as int, b as int));
                }
                let sub_hi = start + c;
                let ghost d_pre = bucket@;
                if c > 1 {
                    if via_director {
                        crate::director::director(cm, tuner, in_place, bucket, start, sub_hi, lvl - 1);
                    } else {
                        if c > SKA_SORT_THRESHOLD {
                            msb_partition_recurse(
                                cm,
                                tuner,
                                in_place,
                                false,
                                bucket,
                                start,
                                sub_hi,
                                lvl - 1,
                            );
                        } else {
                            lsb_radix_sort_adapter(cm, bucket, start, sub_hi, lvl - 1, 0);
                        }
                    }
                }
                proof {
                    let cb = count_below(s1, lvl as int, b as int);
                    let cl = count_level(s1, lvl as int, b as int);
                    let region_pre = d_pre.subrange(start as int, sub_hi as int);
                    let region_post = bucket@.subrange(start as int, sub_hi as int);
                    if c > 1 {
                        assert(region_post.to_multiset() == region_pre.to_multiset());
                    } else {
                        assert(region_post =~= region_pre);
                        assert(region_post.to_multiset() =~= region_pre.to_multiset());
                    }
                    // the class's region held only byte `b` before the call
                    assert forall|k: int| 0 <= k < region_pre.len() implies (#[trigger]
                    region_pre[k].spec_level(lvl as int)) as int == b as int by {
                        assert(region_pre[k] == d_pre[start + k]);
                        assert(d_pre[start + k] == d_ska[start + k]);
                        assert(d_ska.subrange(lo as int, hi as int)[start - lo + k] == d_ska[start
                            + k]);
                    }
                    lemma_uniform_byte_multiset(
                        region_pre,
                        region_post,
                        lvl as int,
                        b as int,
                    );
                    // the whole range's multiset is preserved
                    lemma_subrange_ms_patch(
                        d_pre,
                        bucket@,
                        lo as int,
                        start as int,
                        sub_hi as int,
                        hi as int,
                    );
                    // earlier regions are untouched by the call
                    assert forall|b2: int| 0 <= b2 < b + 1 implies sorted_between(
                        #[trigger] bucket@.subrange(
                            lo + count_below(s1, lvl as int, b2),
                            lo + count_below(s1, lvl as int, b2) + count_level(
                                s1,
                                lvl as int,
                                b2,
                            ),
                        ),
                        lvl - 1,
                        0,
                    ) by {
                        lemma_count_below_le_len(s1, lvl as int, b2);
                        lemma_count_below_le_len(s1, lvl as int, b2 + 1);
                        assert(count_below(s1, lvl as int, b2 + 1) == count_below(
                            s1,
                            lvl as int,
                            b2,
                        ) + count_level(s1, lvl as int, b2));
                        if b2 < b as int {
                            lemma_count_below_mono(s1, lvl as int, b2 + 1, b as int);
                            assert(bucket@.subrange(
                                lo + count_below(s1, lvl as int, b2),
                                lo + count_below(s1, lvl as int, b2) + count_level(
                                    s1,
                                    lvl as int,
                                    b2,
                                ),
                            ) =~= d_pre.subrange(
                                lo + count_below(s1, lvl as int, b2),
                                lo + count_below(s1, lvl as int, b2) + count_level(
                                    s1,
                                    lvl as int,
                                    b2,
                                ),
                            ));
                        } else {
                            assert(bucket@.subrange(
                                lo + count_below(s1, lvl as int, b2),
                                lo + count_below(s1, lvl as int, b2) + count_level(
                                    s1,
                                    lvl as int,
                                    b2,
                                ),
                            ) == region_post);
                        }
                    }
                    assert forall|b2: int, k: int|
                        #![trigger bucket@[lo + k], count_below(s1, lvl as int, b2)]
                        0 <= b2 < b + 1 && count_below(s1, lvl as int, b2) <= k < count_below(
                            s1,
                            lvl as int,
                            b2,
                        ) + count_level(s1, lvl as int, b2) implies bucket@[lo + k].spec_level(
                        lvl as int,
                    ) as int == b2 by {
                        lemma_count_below_le_len(s1, lvl as int, b2);
                        lemma_count_below_le_len(s1, lvl as int, b2 + 1);
                        assert(count_below(s1, lvl as int, b2 + 1) == count_below(
                            s1,
                            lvl as int,
                            b2,
                        ) + count_level(s1, lvl as int, b2));
                        if b2 < b as int {
                            lemma_count_below_mono(s1, lvl as int, b2 + 1, b as int);
                            assert(bucket@[lo + k] == d_pre[lo + k]);
                        } else {
                            assert(bucket@[lo + k] == region_post[k - cb]);
                        }
                    }
                }
                start = sub_hi;
                b += 1;
            }
            cm.return_counts(counts);
            proof {
                lemma_count_below_all(s1, lvl as int);
                assert(start as int == hi as int);
                let d = bucket@.subrange(lo as int, hi as int);
                assert(byte_partitioned(s1, d, lvl as int)) by {
                    assert forall|b2: int, k: int|
                        #![trigger d[k], count_below(s1, lvl as int, b2)]
                        0 <= b2 < 256 && count_below(s1, lvl as int, b2) <= k < count_below(
                            s1,
                            lvl as int,
                            b2,
                        ) + count_level(s1, lvl as int, b2) implies d[k].spec_level(lvl as int)
                        as int == b2 by {
                        lemma_count_below_le_len(s1, lvl as int, b2);
                        lemma_count_below_le_len(s1, lvl as int, b2 + 1);
                        assert(count_below(s1, lvl as int, b2 + 1) == count_below(
                            s1,
                            lvl as int,
                            b2,
                        ) + count_level(s1, lvl as int, b2));
                        assert(d[k] == bucket@[lo + k]);
                    }
                }
                assert forall|b2: int|
                    0 <= b2 < 256 && (lvl as int) > 0 implies sorted_between(
                    #[trigger] d.subrange(
                        count_below(s1, lvl as int, b2),
                        count_below(s1, lvl as int, b2) + count_level(s1, lvl as int, b2),
                    ),
                    lvl - 1,
                    0,
                ) by {
                    lemma_count_below_le_len(s1, lvl as int, b2);
                    lemma_count_below_le_len(s1, lvl as int, b2 + 1);
                    assert(count_below(s1, lvl as int, b2 + 1) == count_below(s1, lvl as int, b2)
                        + count_level(s1, lvl as int, b2));
                    assert(d.subrange(
                        count_below(s1, lvl as int, b2),
                        count_below(s1, lvl as int, b2) + count_level(s1, lvl as int, b2),
                    ) =~= bucket@.subrange(
                        lo + count_below(s1, lvl as int, b2),
                        lo + count_below(s1, lvl as int, b2) + count_level(s1, lvl as int, b2),
                    ));
                }
                lemma_partitioned_sorted(s1, d, lvl as int, 0);
                assert forall|l2: int| lvl < l2 <= level implies constant_at(d, l2) by {
                    lemma_constant_at_multiset(s1, d, l2);
                }
                lemma_constant_lift_range(d, level as int, lvl as int);
            }
        },
    }
}

/// Top-down ska driver: partition at the highest unsorted level, keep
/// large classes top-down and finish the rest with LSB passes.
pub fn msb_ska_sort<T: RadixKey>(
    cm: &mut CountManager,
    bucket: &mut Vec<T>,
    lo: usize,
    hi: usize,
    level: usize,
)
    requires
        lo <= hi <= old(bucket).len(),
        level < T::spec_levels(),
        level < usize::MAX,
        old(cm).wf(),
    ensures
        final(cm).wf(),
        final(bucket).len() == old(bucket).len(),
        sorted_between(final(bucket)@.subrange(lo as int, hi as int), level as int, 0),
        final(bucket)@.subrange(lo as int, hi as int).to_multiset() == old(bucket)@.subrange(
            lo as int,
            hi as int,
        ).to_multiset(),
        forall|q: int|
            0 <= q < old(bucket).len() && !(lo <= q < hi) ==> final(bucket)@[q] == old(
                bucket,
            )@[q],
{
    let tuner = crate::tuner::StandardTuner;
    msb_partition_recurse(cm, &tuner, true, false, bucket, lo, hi, level);
}

} // verus!
