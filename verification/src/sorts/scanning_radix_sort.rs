//! The decision core of scanning sort: what a scanning worker computes
//! between taking and releasing a region's lock. A worker reads a slice
//! of a region into 256 per-byte stashes, publishes its own region's
//! stash into the region's already-read space, and partitions a fresh
//! region into its own byte class first. The try-locks, the cursor
//! scheduling and the worker pool stay outside the verified core; every
//! element they move goes through these kernels.

use vstd::prelude::*;
use crate::radix_key::RadixKey;
use crate::counts::filter_level;
use crate::counts::lemma_filter_level_push;
use crate::counts::lemma_swap_multiset;

verus! {

/// Read `bucket[read_lo..read_hi]` in order and append every element to
/// the stash of its byte at `level`: stash `b` is extended by exactly
/// the class-`b` subsequence of the range, in order.
pub fn stash_distribute<T: RadixKey>(
    stash: &mut Vec<Vec<T>>,
    bucket: &Vec<T>,
    read_lo: usize,
    read_hi: usize,
    level: usize,
)
    requires
        old(stash).len() == 256,
        read_lo <= read_hi <= bucket.len(),
        level < T::spec_levels(),
    ensures
        final(stash).len() == 256,
        forall|b: int|
            0 <= b < 256 ==> (#[trigger] final(stash)@[b])@ == old(stash)@[b]@ + filter_level(
                bucket@.subrange(read_lo as int, read_hi as int),
                level as int,
                b,
            ),
{
    let ghost s = bucket@.subrange(read_lo as int, read_hi as int);
    proof {
        assert(s.subrange(0, 0) =~= Seq::<T>::empty());
        assert forall|b: int| 0 <= b < 256 implies #[trigger] filter_level(
            s.subrange(0, 0),
            level as int,
            b,
        ) =~= Seq::<T>::empty() by {
            assert(filter_level(Seq::<T>::empty(), level as int, b) == Seq::<T>::empty());
        }
        assert forall|b: int| 0 <= b < 256 implies (#[trigger] stash@[b])@ =~= old(stash)@[b]@ + filter_level(s.subrange(0, 0), level as int, b) by {}
    }
    let mut i: usize = read_lo;
    while i < read_hi
        invariant
            read_lo <= i <= read_hi <= bucket.len(),
            level < T::spec_levels(),
            stash.len() == 256,
            s == bucket@.subrange(read_lo as int, read_hi as int),
            forall|b: int|
                0 <= b < 256 ==> (#[trigger] stash@[b])@ == old(stash)@[b]@ + filter_level(
                    s.subrange(0, i - read_lo),
                    level as int,
                    b,
                ),
        decreases read_hi - i,
    {
        let x = bucket[i];
        let bx = x.get_level(level);
        let ghost st_pre = stash@;
        let lane = vstd::std_specs::vec::vec_index_mut(stash, bx as usize);
        lane.push(x);
        proof {
            assert(s[i - read_lo] == bucket@[i as int]);
            assert(s.subrange(0, i - read_lo + 1) =~= s.subrange(0, i - read_lo).push(x));
            assert forall|b: int| 0 <= b < 256 implies (#[trigger] stash@[b])@ == old(stash)@[b]@ + filter_level(s.subrange(0, i - read_lo + 1), level as int, b) by {
                lemma_filter_level_push(s.subrange(0, i - read_lo), level as int, b, x);
                if b == bx as int {
                    assert(stash@[b]@ =~= st_pre[b]@.push(x));
                    assert(old(stash)@[b]@ + filter_level(
                        s.subrange(0, i - read_lo),
                        level as int,
                        b,
                    ).push(x) =~= (old(stash)@[b]@ + filter_level(
                        s.subrange(0, i - read_lo),
                        level as int,
                        b,
                    )).push(x));
                } else {
                    assert(stash@[b]@ == st_pre[b]@);
                }
            }
        }
        i += 1;
    }
    proof {
        assert(s.subrange(0, read_hi - read_lo) =~= s);
    }
}

/// Publish the last `k` stashed elements into the region's already-read
/// space: they are written in stash order at
/// `bucket[write_head..write_head + k]`, the stash shrinks by `k`, and
/// nothing else moves.
pub fn publish_stash<T: RadixKey>(
    bucket: &mut Vec<T>,
    write_head: usize,
    own_stash: &mut Vec<T>,
    k: usize,
)
    requires
        k <= old(own_stash).len(),
        write_head + k <= old(bucket).len(),
    ensures
        final(bucket).len() == old(bucket).len(),
        final(own_stash)@ == old(own_stash)@.subrange(0, old(own_stash).len() - k),
        final(bucket)@.subrange(write_head as int, write_head + k) == old(own_stash)@.subrange(
            old(own_stash).len() - k,
            old(own_stash).len() as int,
        ),
        forall|q: int|
            0 <= q < old(bucket).len() && !(write_head <= q < write_head + k) ==> final(bucket)@[q] == old(bucket)@[q],
{
    let base = own_stash.len() - k;
    let mut t: usize = 0;
    while t < k
        invariant
            t <= k,
            base == old(own_stash).len() - k,
            own_stash@ == old(own_stash)@,
            bucket.len() == old(bucket).len(),
            write_head + k <= bucket.len(),
            k <= own_stash.len(),
            forall|t2: int|
                0 <= t2 < t ==> #[trigger] bucket@[write_head + t2] == own_stash@[base + t2],
            forall|q: int|
                0 <= q < bucket.len() && !(write_head <= q < write_head + t) ==> bucket@[q] == old(bucket)@[q],
        decreases k - t,
    {
        let x = own_stash[base + t];
        bucket[write_head + t] = x;
        t += 1;
    }
    proof {
        assert forall|t2: int|
            0 <= t2 < k implies bucket@.subrange(write_head as int, write_head + k)[t2] == old(
            own_stash,
        )@.subrange(base as int, old(own_stash).len() as int)[t2] by {
            assert(bucket@[write_head + t2] == own_stash@[base + t2]);
        }
        assert(bucket@.subrange(write_head as int, write_head + k) =~= old(own_stash)@.subrange(
            base as int,
            old(own_stash).len() as int,
        ));
    }
    own_stash.truncate(base);
    proof {
        assert(own_stash@ =~= old(own_stash)@.subrange(0, base as int));
    }
}

/// Partition `bucket[lo..hi]` in place into the elements carrying `byte`
/// at `level` followed by the rest, and return the boundary relative to
/// `lo`. The range keeps its multiset; everything outside it is
/// untouched.
pub fn partition_region<T: RadixKey>(
    bucket: &mut Vec<T>,
    lo: usize,
    hi: usize,
    level: usize,
    byte: u8,
) -> (r: usize)
    requires
        lo <= hi <= old(bucket).len(),
        level < T::spec_levels(),
    ensures
        r <= hi - lo,
        final(bucket).len() == old(bucket).len(),
        final(bucket)@.subrange(lo as int, hi as int).to_multiset() == old(bucket)@.subrange(
            lo as int,
            hi as int,
        ).to_multiset(),
        forall|t: int|
            0 <= t < r ==> (#[trigger] final(bucket)@[lo + t]).spec_level(level as int) == byte,
        forall|t: int|
            r <= t < hi - lo ==> (#[trigger] final(bucket)@[lo + t]).spec_level(level as int)
                != byte,
        forall|q: int|
            0 <= q < old(bucket).len() && !(lo <= q < hi) ==> final(bucket)@[q] == old(bucket)@[q],
{
    let ghost s0 = bucket@.subrange(lo as int, hi as int);
    let mut w: usize = lo;
    let mut i: usize = lo;
    while i < hi
        invariant
            lo <= w <= i <= hi <= bucket.len(),
            level < T::spec_levels(),
            bucket.len() == old(bucket).len(),
            bucket@.subrange(lo as int, hi as int).to_multiset() == s0.to_multiset(),
            s0 == old(bucket)@.subrange(lo as int, hi as int),
            forall|t: int|
                lo <= t < w ==> (#[trigger] bucket@[t]).spec_level(level as int) == byte,
            forall|t: int|
                w <= t < i ==> (#[trigger] bucket@[t]).spec_level(level as int) != byte,
            forall|q: int|
                0 <= q < bucket.len() && !(lo <= q < hi) ==> bucket@[q] == old(bucket)@[q],
        decreases hi - i,
    {
        let x = bucket[i];
        let bx = x.get_level(level);
        if bx == byte {
            let y = bucket[w];
            let ghost d0 = bucket@;
            let ghost cur = bucket@.subrange(lo as int, hi as int);
            bucket[w] = x;
            bucket[i] = y;
            proof {
                assert(bucket@ == d0.update(w as int, x).update(i as int, y));
                let cur2 = bucket@.subrange(lo as int, hi as int);
                assert(cur2 =~= cur.update(w - lo, cur[i - lo]).update(i - lo, cur[w - lo]));
                lemma_swap_multiset(cur, i - lo, w - lo);
            }
            w += 1;
        }
        i += 1;
    }
    w - lo
}

} // verus!
