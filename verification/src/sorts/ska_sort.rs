//! The in-place ska kernel: a cyclic permutation that partitions a bucket
//! by the byte at one level, driven by a prefix-sum cursor and an
//! end-offset bound per byte class.
//!
//! Each swap moves one element to its class's cursor and advances that
//! cursor, so the total remaining work — the sum of the gaps between
//! cursors and end offsets — falls by one per swap. That sum starts at
//! the bucket length, which bounds the kernel by one full pass over the
//! elements and is the termination measure of the loops.

use vstd::prelude::*;
use crate::radix_key::RadixKey;
use crate::counts::EndOffsets;
use crate::counts::PrefixSums;
use crate::counts::byte_partitioned;
use crate::counts::count_below;
use crate::counts::count_level;
use crate::counts::lemma_count_below_all;
use crate::counts::lemma_count_below_le_len;
use crate::counts::lemma_count_below_mono;
use crate::counts::lemma_count_level_full;
use crate::counts::lemma_count_level_lower;
use crate::counts::lemma_count_level_multiset;
use crate::counts::lemma_swap_multiset;

verus! {

/// The gaps between the cursors and the end offsets of the byte classes
/// below `b`, added up: how much scattering work remains.
pub open spec fn rem_sum(p: Seq<usize>, e: Seq<usize>, b: int) -> int
    decreases b,
{
    if b <= 0 {
        0
    } else {
        rem_sum(p, e, b - 1) + (e[b - 1] - p[b - 1])
    }
}

/// How many of the first `b` classes are marked finished.
spec fn trues(m: Seq<bool>, b: int) -> int
    decreases b,
{
    if b <= 0 {
        0
    } else {
        trues(m, b - 1) + (if m[b - 1] {
            1int
        } else {
            0int
        })
    }
}

/// Advancing one cursor shrinks the remaining work by the advance.
proof fn lemma_rem_sum_update(p: Seq<usize>, e: Seq<usize>, bx: int, v: usize, b: int)
    requires
        0 <= bx < p.len(),
        0 <= b <= p.len(),
        p.len() == e.len(),
    ensures
        rem_sum(p.update(bx, v), e, b) == rem_sum(p, e, b) - (if bx < b {
            v - p[bx]
        } else {
            0int
        }),
    decreases b,
{
    if b > 0 {
        lemma_rem_sum_update(p, e, bx, v, b - 1);
    }
}

/// With every cursor at or below its end offset the remaining work is
/// non-negative.
proof fn lemma_rem_sum_nonneg(p: Seq<usize>, e: Seq<usize>, b: int)
    requires
        0 <= b <= p.len(),
        p.len() == e.len(),
        forall|k: int| 0 <= k < p.len() ==> (#[trigger] p[k]) <= e[k],
    ensures
        rem_sum(p, e, b) >= 0,
    decreases b,
{
    if b > 0 {
        lemma_rem_sum_nonneg(p, e, b - 1);
    }
}

/// When the cursors sit at the prefix sums and the end offsets at prefix
/// sum plus count, the remaining work is the number of elements below `b`.
proof fn lemma_rem_sum_initial<T: RadixKey>(
    p: Seq<usize>,
    e: Seq<usize>,
    s: Seq<T>,
    level: int,
    b: int,
)
    requires
        p.len() == 256,
        e.len() == 256,
        0 <= b <= 256,
        forall|k: int| 0 <= k < 256 ==> (#[trigger] p[k]) as int == count_below(s, level, k),
        forall|k: int|
            0 <= k < 256 ==> (#[trigger] e[k]) as int == count_below(s, level, k) + count_level(
                s,
                level,
                k,
            ),
    ensures
        rem_sum(p, e, b) == count_below(s, level, b),
    decreases b,
{
    if b > 0 {
        lemma_rem_sum_initial(p, e, s, level, b - 1);
    }
}

/// Marking one more class raises the finished tally by one.
proof fn lemma_trues_update(m: Seq<bool>, bx: int, b: int)
    requires
        0 <= bx < m.len(),
        0 <= b <= m.len(),
        !m[bx],
    ensures
        trues(m.update(bx, true), b) == trues(m, b) + (if bx < b {
            1int
        } else {
            0int
        }),
    decreases b,
{
    if b > 0 {
        lemma_trues_update(m, bx, b - 1);
    }
}

/// The finished tally never exceeds the number of classes, and reaches it
/// only with every class marked.
proof fn lemma_trues_all(m: Seq<bool>, b: int)
    requires
        0 <= b <= m.len(),
    ensures
        trues(m, b) <= b,
        trues(m, b) == b ==> forall|k: int| 0 <= k < b ==> m[k],
    decreases b,
{
    if b > 0 {
        lemma_trues_all(m, b - 1);
    }
}

/// The invariant of the ska kernel over `bucket[lo..hi]`:
/// every cursor sits between its class's region start and region end as
/// the counts of the original contents `s0` lay the regions out; the
/// bucket range is a permutation of `s0`; and everything behind a cursor
/// already carries its class's byte.
pub open spec fn ska_inv<T: RadixKey>(
    s0: Seq<T>,
    d: Seq<T>,
    lo: int,
    hi: int,
    p: Seq<usize>,
    e: Seq<usize>,
    level: int,
) -> bool {
    &&& p.len() == 256
    &&& e.len() == 256
    &&& s0.len() == hi - lo
    &&& 0 <= lo <= hi <= d.len()
    &&& forall|b: int|
        0 <= b < 256 ==> count_below(s0, level, b) <= (#[trigger] p[b]) as int <= e[b] as int
    &&& forall|b: int|
        0 <= b < 256 ==> (#[trigger] e[b]) as int == count_below(s0, level, b) + count_level(
            s0,
            level,
            b,
        )
    &&& d.subrange(lo, hi).to_multiset() == s0.to_multiset()
    &&& forall|b: int, k: int|
        #![trigger p[b], d[lo + k]]
        0 <= b < 256 && count_below(s0, level, b) <= k < p[b] ==> d[lo + k].spec_level(level)
            as int == b
}

/// Partition `bucket[lo..hi]` in place by the byte at `level`, given the
/// prefix sums and end offsets of that range's histogram, both relative
/// to `lo`.
///
/// Afterwards the range is a permutation of its old contents in which
/// each byte's region, as the counts lay the regions out, holds only
/// elements carrying that byte. The cursors in `prefix_sums` are consumed
/// by the pass. The class with the most elements is never walked: the
/// other classes' swaps fill it implicitly.
#[verifier::rlimit(100)]
pub fn ska_sort<T: RadixKey>(
    bucket: &mut Vec<T>,
    lo: usize,
    hi: usize,
    prefix_sums: &mut PrefixSums,
    end_offsets: &EndOffsets,
    level: usize,
)
    requires
        lo <= hi <= old(bucket).len(),
        level < T::spec_levels(),
        old(prefix_sums).wf(),
        end_offsets.wf(),
        forall|b: int|
            0 <= b < 256 ==> (#[trigger] old(prefix_sums)@[b]) as int == count_below(
                old(bucket)@.subrange(lo as int, hi as int),
                level as int,
                b,
            ),
        forall|b: int|
            0 <= b < 256 ==> (#[trigger] end_offsets@[b]) as int == count_below(
                old(bucket)@.subrange(lo as int, hi as int),
                level as int,
                b,
            ) + count_level(old(bucket)@.subrange(lo as int, hi as int), level as int, b),
    ensures
        final(bucket).len() == old(bucket).len(),
        final(prefix_sums).wf(),
        final(bucket)@.subrange(lo as int, hi as int).to_multiset() == old(bucket)@.subrange(
            lo as int,
            hi as int,
        ).to_multiset(),
        byte_partitioned(
            old(bucket)@.subrange(lo as int, hi as int),
            final(bucket)@.subrange(lo as int, hi as int),
            level as int,
        ),
        forall|q: int|
            0 <= q < old(bucket).len() && !(lo <= q < hi) ==> final(bucket)@[q] == old(
                bucket,
            )@[q],
{
    let ghost s0 = bucket@.subrange(lo as int, hi as int);
    let n = hi - lo;

    let mut finished_map: Vec<bool> = vec![false; 256];
    let mut finished: usize = 0;
    let mut largest: usize = 0;
    let mut largest_index: usize = 0;

    proof {
        lemma_trues_zero(finished_map@, 256);
    }
    let mut b0: usize = 0;
    while b0 < 256
        invariant
            b0 <= 256,
            finished_map.len() == 256,
            prefix_sums.wf(),
            end_offsets.wf(),
            n == hi - lo,
            s0 == bucket@.subrange(lo as int, hi as int),
            lo <= hi <= bucket.len(),
            forall|b: int|
                0 <= b < 256 ==> (#[trigger] prefix_sums@[b]) as int == count_below(
                    s0,
                    level as int,
                    b,
                ),
            forall|b: int|
                0 <= b < 256 ==> (#[trigger] end_offsets@[b]) as int == count_below(
                    s0,
                    level as int,
                    b,
                ) + count_level(s0, level as int, b),
            finished as int == trues(finished_map@, 256),
            forall|b: int|
                0 <= b < 256 ==> ((#[trigger] finished_map@[b]) <==> (b < b0 && prefix_sums@[b]
                    == end_offsets@[b])),
            largest_index < 256,
            largest > 0 ==> end_offsets@[largest_index as int] - prefix_sums@[largest_index as int]
                == largest,
            largest == 0 ==> forall|b: int|
                0 <= b < b0 ==> (#[trigger] prefix_sums@[b]) == end_offsets@[b],
            largest <= n,
        decreases 256 - b0,
    {
        let pv = prefix_sums.get(b0);
        let ev = end_offsets.get(b0);
        proof {
            lemma_count_below_le_len(s0, level as int, b0 as int);
            lemma_count_below_le_len(s0, level as int, b0 + 1);
        }
        let rem = ev - pv;
        if rem == 0 {
            proof {
                lemma_trues_update(finished_map@, b0 as int, 256);
                lemma_trues_all(finished_map@.update(b0 as int, true), 256);
            }
            finished_map[b0] = true;
            finished += 1;
        } else if rem > largest {
            largest = rem;
            largest_index = b0;
        }
        b0 += 1;
    }

    if n == 0 {
        proof {
            assert forall|b: int, k: int|
                #![trigger final(bucket)@.subrange(lo as int, hi as int)[k], count_below(s0, level as int, b)]
                0 <= b < 256 && count_below(s0, level as int, b) <= k < count_below(
                s0,
                level as int,
                b,
            ) + count_level(s0, level as int, b) implies final(bucket)@.subrange(
                lo as int,
                hi as int,
            )[k].spec_level(level as int) as int == b by {
                lemma_count_below_le_len(s0, level as int, b);
                lemma_count_below_le_len(s0, level as int, b + 1);
            }
        }
        return;
    }

    if largest == n {
        proof {
            assert(count_level(s0, level as int, largest_index as int) == n);
            assert forall|b: int, k: int|
                #![trigger bucket@.subrange(lo as int, hi as int)[k], count_below(s0, level as int, b)]
                0 <= b < 256 && count_below(s0, level as int, b) <= k < count_below(
                s0,
                level as int,
                b,
            ) + count_level(s0, level as int, b) implies bucket@.subrange(lo as int, hi as int)[
                k
            ].spec_level(level as int) as int == b by {
                lemma_count_below_le_len(s0, level as int, b);
                lemma_count_below_le_len(s0, level as int, b + 1);
                lemma_count_below_all(s0, level as int);
                if b != largest_index as int {
                    let li = largest_index as int;
                    if b < li {
                        lemma_count_below_mono(s0, level as int, 0, b);
                        lemma_count_below_mono(s0, level as int, b + 1, li);
                        lemma_count_below_mono(s0, level as int, li + 1, 256);
                    } else {
                        lemma_count_below_mono(s0, level as int, 0, li);
                        lemma_count_below_mono(s0, level as int, li + 1, b);
                        lemma_count_below_mono(s0, level as int, b + 1, 256);
                    }
                    assert(count_level(s0, level as int, b) == 0);
                } else {
                    lemma_count_level_full(s0, level as int, b, k);
                }
            }
        }
        return;
    }

    proof {
        if largest == 0 {
            lemma_rem_sum_initial(prefix_sums@, end_offsets@, s0, level as int, 256);
            lemma_count_below_all(s0, level as int);
            assert(rem_sum(prefix_sums@, end_offsets@, 256) == n);
            assert(forall|b: int|
                0 <= b < 256 ==> (#[trigger] prefix_sums@[b]) == end_offsets@[b]);
            lemma_rem_sum_zero(prefix_sums@, end_offsets@, 256);
            assert(false);
        }
        assert(!finished_map@[largest_index as int]);
        lemma_trues_update(finished_map@, largest_index as int, 256);
        lemma_trues_all(finished_map@, 256);
    }
    finished_map[largest_index] = true;
    finished += 1;

    while finished < 256
        invariant
            ska_inv(s0, bucket@, lo as int, hi as int, prefix_sums@, end_offsets@, level as int),
            level < T::spec_levels(),
            n == hi - lo,
            finished_map.len() == 256,
            largest_index < 256,
            finished_map@[largest_index as int],
            finished as int == trues(finished_map@, 256),
            finished <= 256,
            forall|b: int|
                0 <= b < 256 && (#[trigger] finished_map@[b]) && b != largest_index
                    ==> prefix_sums@[b] as int >= end_offsets@[b] as int,
            bucket.len() == old(bucket).len(),
            forall|q: int|
                0 <= q < bucket.len() && !(lo <= q < hi) ==> bucket@[q] == old(bucket)@[q],
        decreases rem_sum(prefix_sums@, end_offsets@, 256), 256 - finished,
    {
        let ghost phi_entry = rem_sum(prefix_sums@, end_offsets@, 256);
        let ghost fin_entry = finished as int;
        let mut b: usize = 0;
        while b < 256
            invariant
                ska_inv(
                    s0,
                    bucket@,
                    lo as int,
                    hi as int,
                    prefix_sums@,
                    end_offsets@,
                    level as int,
                ),
                level < T::spec_levels(),
                n == hi - lo,
                b <= 256,
                finished_map.len() == 256,
                largest_index < 256,
                finished_map@[largest_index as int],
                finished as int == trues(finished_map@, 256),
                finished <= 256,
                forall|bb: int|
                    0 <= bb < 256 && (#[trigger] finished_map@[bb]) && bb != largest_index
                        ==> prefix_sums@[bb] as int >= end_offsets@[bb] as int,
                rem_sum(prefix_sums@, end_offsets@, 256) <= phi_entry,
                finished as int >= fin_entry,
                rem_sum(prefix_sums@, end_offsets@, 256) < phi_entry || finished > fin_entry
                    || (forall|bb: int| 0 <= bb < b ==> finished_map@[bb]),
                bucket.len() == old(bucket).len(),
                forall|q: int|
                    0 <= q < bucket.len() && !(lo <= q < hi) ==> bucket@[q] == old(bucket)@[q],
            decreases 256 - b,
        {
            if finished_map[b] {
                b += 1;
                continue;
            }
            let pv = prefix_sums.get(b);
            let ev = end_offsets.get(b);
            if pv >= ev {
                proof {
                    lemma_trues_update(finished_map@, b as int, 256);
                }
                finished_map[b] = true;
                finished += 1;
                proof {
                    lemma_trues_all(finished_map@, 256);
                }
                b += 1;
                continue;
            }

            let ghost phi_walk = rem_sum(prefix_sums@, end_offsets@, 256);
            let stop = ev;
            let mut idx = pv;
            while idx < stop
                invariant
                    ska_inv(
                        s0,
                        bucket@,
                        lo as int,
                        hi as int,
                        prefix_sums@,
                        end_offsets@,
                        level as int,
                    ),
                    level < T::spec_levels(),
                    n == hi - lo,
                    b < 256,
                    pv <= idx <= stop,
                    stop == end_offsets@[b as int],
                    prefix_sums@[b as int] as int <= idx as int,
                    rem_sum(prefix_sums@, end_offsets@, 256) == phi_walk - (idx - pv),
                    finished_map.len() == 256,
                    largest_index < 256,
                    finished_map@[largest_index as int],
                    finished as int == trues(finished_map@, 256),
                    finished <= 256,
                    forall|bb: int|
                        0 <= bb < 256 && (#[trigger] finished_map@[bb]) && bb != largest_index
                            ==> prefix_sums@[bb] as int >= end_offsets@[bb] as int,
                    bucket.len() == old(bucket).len(),
                    forall|q: int|
                        0 <= q < bucket.len() && !(lo <= q < hi) ==> bucket@[q] == old(
                            bucket,
                        )@[q],
                decreases stop - idx,
            {
                proof {
                    lemma_count_below_le_len(s0, level as int, b as int);
                    lemma_count_below_le_len(s0, level as int, b + 1);
                }
                let x = bucket[lo + idx];
                let bx = x.get_level(level);
                let ghost bxi = bx as int;
                let ghost cur = bucket@.subrange(lo as int, hi as int);

                proof {
                    // position idx carries byte bx and lies outside the
                    // placed run of bx, so bx's cursor is not yet at its
                    // region end
                    lemma_count_below_le_len(s0, level as int, bxi);
                    lemma_count_below_le_len(s0, level as int, bxi + 1);
                    assert(cur[idx as int] == bucket@[lo + idx]);
                    if bxi != b as int {
                        if bxi < b as int {
                            lemma_count_below_mono(s0, level as int, bxi + 1, b as int);
                        } else {
                            lemma_count_below_mono(s0, level as int, b + 1, bxi);
                        }
                    }
                    assert(idx as int >= prefix_sums@[bxi] as int || idx
                        < count_below(s0, level as int, bxi));
                    assert forall|k: int|
                        count_below(s0, level as int, bxi) <= k < prefix_sums@[bxi] implies (
                    #[trigger] cur[k].spec_level(level as int)) as int == bxi by {
                        assert(cur[k] == bucket@[lo + k]);
                    }
                    lemma_count_level_multiset(cur, s0, level as int, bxi);
                    lemma_count_level_lower(
                        cur,
                        level as int,
                        bxi,
                        count_below(s0, level as int, bxi),
                        prefix_sums@[bxi] as int,
                        idx as int,
                    );
                    assert((prefix_sums@[bxi] as int) < (end_offsets@[bxi] as int));
                }

                let c = prefix_sums.get(bx as usize);
                let y = bucket[lo + c];
                let ghost d0 = bucket@;
                let ghost p0 = prefix_sums@;
                bucket[lo + c] = x;
                bucket[lo + idx] = y;
                prefix_sums.set(bx as usize, c + 1);

                proof {
                    let d2 = bucket@;
                    assert(prefix_sums@ == p0.update(bxi, (c + 1) as usize));
                    assert(d2 == d0.update(lo + c, x).update(lo + idx, y));
                    let cur2 = d2.subrange(lo as int, hi as int);
                    assert(cur2 =~= cur.update(c as int, x).update(idx as int, y));
                    assert(cur[idx as int] == x && cur[c as int] == y);
                    lemma_swap_multiset(cur, idx as int, c as int);
                    assert(cur.update(c as int, cur[idx as int]).update(idx as int, cur[c as int])
                        == cur.update(c as int, x).update(idx as int, y));
                    assert(cur2.to_multiset() == s0.to_multiset());

                    lemma_rem_sum_update(p0, end_offsets@, bxi, (c + 1) as usize, 256);

                    // the placed runs are intact: the two written
                    // positions lie outside every placed run but the new
                    // cursor slot of bx, which now holds x
                    assert forall|b2: int, k: int|
                        #![trigger prefix_sums@[b2], d2[lo as int + k]]
                        0 <= b2 < 256 && count_below(s0, level as int, b2) <= k
                            < prefix_sums@[b2] implies d2[lo as int + k].spec_level(level as int)
                        as int == b2 by {
                        lemma_count_below_le_len(s0, level as int, b2);
                        lemma_count_below_le_len(s0, level as int, b2 + 1);
                        if b2 != bxi {
                            if b2 < bxi {
                                lemma_count_below_mono(s0, level as int, b2 + 1, bxi);
                            } else {
                                lemma_count_below_mono(s0, level as int, bxi + 1, b2);
                            }
                            if b2 != b as int {
                                if b2 < b as int {
                                    lemma_count_below_mono(s0, level as int, b2 + 1, b as int);
                                } else {
                                    lemma_count_below_mono(s0, level as int, b + 1, b2);
                                }
                            }
                            assert(d2[lo as int + k] == d0[lo as int + k]);
                        } else {
                            if k < c as int {
                                if bxi != b as int {
                                    if bxi < b as int {
                                        lemma_count_below_mono(
                                            s0,
                                            level as int,
                                            bxi + 1,
                                            b as int,
                                        );
                                    } else {
                                        lemma_count_below_mono(s0, level as int, b + 1, bxi);
                                    }
                                }
                                assert(d2[lo as int + k] == d0[lo as int + k]);
                            } else {
                                assert(k == c as int);
                                if idx == c {
                                    assert(d2[lo as int + k] == y);
                                    assert(y == x);
                                } else {
                                    assert(d2[lo as int + k] == x);
                                }
                            }
                        }
                    }
                }
                idx += 1;
            }
            proof {
                lemma_rem_sum_nonneg(prefix_sums@, end_offsets@, 256);
            }
            b += 1;
        }
        proof {
            if rem_sum(prefix_sums@, end_offsets@, 256) == phi_entry && finished == fin_entry {
                lemma_trues_full(finished_map@, 256);
                assert(finished as int == 256);
            }
            lemma_rem_sum_nonneg(prefix_sums@, end_offsets@, 256);
        }
    }

    proof {
        lemma_trues_all(finished_map@, 256);
        let cur = bucket@.subrange(lo as int, hi as int);
        assert forall|b: int, k: int|
            #![trigger cur[k], count_below(s0, level as int, b)]
            0 <= b < 256 && count_below(s0, level as int, b) <= k < count_below(
            s0,
            level as int,
            b,
        ) + count_level(s0, level as int, b) implies cur[k].spec_level(level as int) as int
            == b by {
            lemma_count_below_le_len(s0, level as int, b);
            lemma_count_below_le_len(s0, level as int, b + 1);
            assert(count_below(s0, level as int, b + 1) == count_below(s0, level as int, b)
                + count_level(s0, level as int, b));
            assert(cur.len() == hi - lo);
            assert(0 <= k < hi - lo);
            assert(cur[k] == bucket@[lo + k]);
            if b != largest_index as int {
                assert(finished_map@[b]);
                assert(k < prefix_sums@[b]);
            } else {
                if k < prefix_sums@[b] {
                } else {
                    let b2 = cur[k].spec_level(level as int) as int;
                    if b2 != b {
                        lemma_count_below_le_len(s0, level as int, b2);
                        lemma_count_below_le_len(s0, level as int, b2 + 1);
                        if b2 < b {
                            lemma_count_below_mono(s0, level as int, b2 + 1, b);
                        } else {
                            lemma_count_below_mono(s0, level as int, b + 1, b2);
                        }
                        assert(finished_map@[b2]);
                        assert(prefix_sums@[b2] as int >= end_offsets@[b2] as int);
                        assert forall|m: int|
                            count_below(s0, level as int, b2) <= m < count_below(
                            s0,
                            level as int,
                            b2,
                        ) + count_level(s0, level as int, b2) implies (#[trigger] cur[
                        m].spec_level(level as int)) as int == b2 by {
                            assert(cur[m] == bucket@[lo + m]);
                            assert(m < prefix_sums@[b2]);
                        }
                        lemma_count_level_multiset(cur, s0, level as int, b2);
                        lemma_count_level_lower(
                            cur,
                            level as int,
                            b2,
                            count_below(s0, level as int, b2),
                            count_below(s0, level as int, b2) + count_level(
                                s0,
                                level as int,
                                b2,
                            ),
                            k,
                        );
                        assert(false);
                    }
                }
            }
        }
    }
}

/// Tuner-driven ska driver: partition at the highest non-constant level
/// with the ska kernel, then hand every byte class to the director one
/// level down.
pub fn ska_sort_adapter<T: RadixKey, Tu: crate::tuner::Tuner>(
    cm: &mut crate::counts::CountManager,
    tuner: &Tu,
    in_place: bool,
    bucket: &mut Vec<T>,
    lo: usize,
    hi: usize,
    level: usize,
)
    requires
        lo <= hi <= old(bucket).len(),
        level < T::spec_levels(),
        level < usize::MAX,
        old(cm).wf(),
    ensures
        final(cm).wf(),
        final(bucket).len() == old(bucket).len(),
        crate::radix_key::sorted_between(
            final(bucket)@.subrange(lo as int, hi as int),
            level as int,
            0,
        ),
        final(bucket)@.subrange(lo as int, hi as int).to_multiset() == old(bucket)@.subrange(
            lo as int,
            hi as int,
        ).to_multiset(),
        forall|q: int|
            0 <= q < old(bucket).len() && !(lo <= q < hi) ==> final(bucket)@[q] == old(
                bucket,
            )@[q],
{
    crate::msb_ska_sort::msb_partition_recurse(cm, tuner, in_place, true, bucket, lo, hi, level);
}

/// The kernel's work measure starts at the bucket's own length: with the
/// cursors at the prefix sums and the end offsets one count further, the
/// total gap is the element count. Every swap advances one cursor and so
/// shrinks the measure by one — the kernel therefore performs at most
/// one swap per element of the bucket, one full pass.
pub proof fn lemma_ska_work_bound<T: RadixKey>(p: Seq<usize>, e: Seq<usize>, s: Seq<T>, level: int)
    requires
        p.len() == 256,
        e.len() == 256,
        forall|b: int| 0 <= b < 256 ==> (#[trigger] p[b]) as int == count_below(s, level, b),
        forall|b: int|
            0 <= b < 256 ==> (#[trigger] e[b]) as int == count_below(s, level, b) + count_level(
                s,
                level,
                b,
            ),
    ensures
        rem_sum(p, e, 256) == s.len(),
{
    lemma_rem_sum_initial(p, e, s, level, 256);
    lemma_count_below_all(s, level);
}

/// With every class marked, the finished tally is the number of classes.
proof fn lemma_trues_full(m: Seq<bool>, b: int)
    requires
        0 <= b <= m.len(),
        forall|k: int| 0 <= k < m.len() ==> #[trigger] m[k],
    ensures
        trues(m, b) == b,
    decreases b,
{
    if b > 0 {
        lemma_trues_full(m, b - 1);
    }
}

/// With no class marked, the finished tally is zero.
proof fn lemma_trues_zero(m: Seq<bool>, b: int)
    requires
        0 <= b <= m.len(),
        forall|k: int| 0 <= k < m.len() ==> !(#[trigger] m[k]),
    ensures
        trues(m, b) == 0,
    decreases b,
{
    if b > 0 {
        lemma_trues_zero(m, b - 1);
    }
}

/// When the remaining work is zero, every cursor is at its end offset;
/// contrapositive helper for detecting an all-empty histogram.
proof fn lemma_rem_sum_zero(p: Seq<usize>, e: Seq<usize>, b: int)
    requires
        0 <= b <= p.len(),
        p.len() == e.len(),
        forall|k: int| 0 <= k < p.len() ==> (#[trigger] p[k]) == e[k],
    ensures
        rem_sum(p, e, b) == 0,
    decreases b,
{
    if b > 0 {
        lemma_rem_sum_zero(p, e, b - 1);
    }
}

} // verus!
