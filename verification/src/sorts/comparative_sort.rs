//! The comparison fallback for tiny buckets: an insertion sort under the
//! byte-lexicographic order, comparing levels from `start_level`
//! downwards and resolving ties only at level 0.

use vstd::prelude::*;
use crate::radix_key::RadixKey;
use crate::radix_key::key_le_range;
use crate::radix_key::lemma_key_le_total;
use crate::radix_key::lemma_key_le_trans;
use crate::radix_key::sorted_between;
use crate::counts::lemma_swap_multiset;

verus! {

/// Compare two elements by their bytes, walking from `start_level` down;
/// equal comparisons terminate only at level 0.
fn key_le_exec<T: RadixKey>(a: &T, b: &T, start_level: usize) -> (r: bool)
    requires
        start_level < T::spec_levels(),
    ensures
        r == key_le_range(*a, *b, start_level as int, 0),
{
    let mut level = start_level;
    while level > 0
        invariant
            level <= start_level,
            start_level < T::spec_levels(),
            key_le_range(*a, *b, start_level as int, 0) == key_le_range(*a, *b, level as int, 0),
        decreases level,
    {
        let ba = a.get_level(level);
        let bb = b.get_level(level);
        if ba != bb {
            return ba < bb;
        }
        level -= 1;
    }
    let ba = a.get_level(0);
    let bb = b.get_level(0);
    ba <= bb
}

/// Sort `bucket[lo..hi]` by the byte-lexicographic order of levels
/// `[0, start_level]`, with an insertion sort.
pub fn comparative_sort<T: RadixKey>(
    bucket: &mut Vec<T>,
    lo: usize,
    hi: usize,
    start_level: usize,
)
    requires
        lo <= hi <= old(bucket).len(),
        start_level < T::spec_levels(),
    ensures
        final(bucket).len() == old(bucket).len(),
        sorted_between(
            final(bucket)@.subrange(lo as int, hi as int),
            start_level as int,
            0,
        ),
        final(bucket)@.subrange(lo as int, hi as int).to_multiset() == old(bucket)@.subrange(
            lo as int,
            hi as int,
        ).to_multiset(),
        forall|q: int|
            0 <= q < old(bucket).len() && !(lo <= q < hi) ==> final(bucket)@[q] == old(
                bucket,
            )@[q],
{
    let ghost s0 = bucket@.subrange(lo as int, hi as int);
    if hi - lo < 2 {
        return;
    }
    let mut i: usize = lo + 1;
    while i < hi
        invariant
            lo < i <= hi <= bucket.len(),
            start_level < T::spec_levels(),
            bucket.len() == old(bucket).len(),
            forall|k1: int, k2: int|
                lo <= k1 < k2 < i ==> #[trigger] key_le_range(
                    bucket@[k1],
                    bucket@[k2],
                    start_level as int,
                    0,
                ),
            bucket@.subrange(lo as int, hi as int).to_multiset() == s0.to_multiset(),
            forall|q: int|
                0 <= q < bucket.len() && !(lo <= q < hi) ==> bucket@[q] == old(bucket)@[q],
        decreases hi - i,
    {
        let mut j: usize = i;
        while j > lo && !key_le_exec(&bucket[j - 1], &bucket[j], start_level)
            invariant
                lo <= j <= i < hi <= bucket.len(),
                start_level < T::spec_levels(),
                bucket.len() == old(bucket).len(),
                forall|k1: int, k2: int|
                    lo <= k1 < k2 <= i && k2 != j ==> #[trigger] key_le_range(
                        bucket@[k1],
                        bucket@[k2],
                        start_level as int,
                        0,
                    ),
                forall|k: int|
                    j < k <= i ==> #[trigger] key_le_range(
                        bucket@[j as int],
                        bucket@[k],
                        start_level as int,
                        0,
                    ),
                bucket@.subrange(lo as int, hi as int).to_multiset() == s0.to_multiset(),
                forall|q: int|
                    0 <= q < bucket.len() && !(lo <= q < hi) ==> bucket@[q] == old(bucket)@[q],
            decreases j,
        {
            let x = bucket[j - 1];
            let y = bucket[j];
            proof {
                lemma_key_le_total::<T>(x, y, start_level as int, 0);
                let cur = bucket@.subrange(lo as int, hi as int);
                lemma_swap_multiset(cur, j - 1 - lo, j - lo);
                assert(bucket@.update(j - 1, y).update(j as int, x).subrange(
                    lo as int,
                    hi as int,
                ) =~= cur.update(j - lo, cur[j - 1 - lo]).update(j - 1 - lo, cur[j - lo]));
                assert(cur.update(j - lo, cur[j - 1 - lo]).update(j - 1 - lo, cur[j - lo])
                    =~= cur.update(j - 1 - lo, cur[j - lo]).update(j - lo, cur[j - 1 - lo]));
            }
            bucket[j - 1] = y;
            bucket[j] = x;
            j -= 1;
        }
        proof {
            let sl = start_level as int;
            assert forall|k1: int, k2: int| lo <= k1 < k2 <= i implies #[trigger] key_le_range(
                bucket@[k1],
                bucket@[k2],
                sl,
                0,
            ) by {
                if k2 == j {
                    if k1 < j - 1 {
                        assert(key_le_range(bucket@[k1], bucket@[j - 1], sl, 0));
                        assert(key_le_range(bucket@[j - 1], bucket@[j as int], sl, 0));
                        lemma_key_le_trans::<T>(
                            bucket@[k1],
                            bucket@[j - 1],
                            bucket@[j as int],
                            sl,
                            0,
                        );
                    }
                }
            }
        }
        i += 1;
    }
    proof {
        let d = bucket@.subrange(lo as int, hi as int);
        assert forall|i1: int, j1: int| 0 <= i1 < j1 < d.len() implies #[trigger] key_le_range(
            d[i1],
            d[j1],
            start_level as int,
            0,
        ) by {
            assert(d[i1] == bucket@[lo + i1]);
            assert(d[j1] == bucket@[lo + j1]);
        }
    }
}

} // verus!
