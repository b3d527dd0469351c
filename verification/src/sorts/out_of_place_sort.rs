//! Out-of-place counting scatter: the classic single-pass kernel of a
//! radix sort. Four variants are provided: a plain scatter, a scatter
//! fused with counting of the next level, and left-right (bidirectional)
//! versions of both.
//!
//! Every variant reads each side of the source monotonically, so each
//! byte class ends up in source order: the scatter is stable within a
//! class, which the contracts state through `filter_level`.

use vstd::prelude::*;
use crate::radix_key::RadixKey;
use crate::counts::Counts;
use crate::counts::PrefixSums;
use crate::counts::count_below;
use crate::counts::count_level;
use crate::counts::filter_level;
use crate::counts::is_prefix_sums;
use crate::counts::lemma_count_below_all;
use crate::counts::lemma_count_prefix_extend;
use crate::counts::lemma_count_prefix_extend4;
use crate::counts::lemma_count_prefix_extend8;
use crate::counts::lemma_count_suffix_extend;
use crate::counts::lemma_count_suffix_extend4;
use crate::counts::lemma_count_below_le_len;
use crate::counts::lemma_count_below_mono;
use crate::counts::lemma_count_level_le_len;
use crate::counts::lemma_count_level_split;
use crate::counts::lemma_filter_level_add;
use crate::counts::lemma_filter_level_cons;
use crate::counts::lemma_filter_level_push;
use crate::counts::scattered;

verus! {

/// The cursors of every byte class sit between the class's region start
/// and its region end: `prefix_sums[b]` has advanced by the number of
/// already scattered elements of class `b`.
pub open spec fn cursors_at<T: RadixKey>(
    p: Seq<usize>,
    s: Seq<T>,
    pre: Seq<T>,
    level: int,
) -> bool {
    &&& p.len() == 256
    &&& forall|b: int|
        0 <= b < 256 ==> (#[trigger] p[b]) as int == count_below(s, level, b) + count_level(
            pre,
            level,
            b,
        )
}

/// The already scattered prefix `pre` of `s` sits in `dst`: each class
/// region holds the class's elements of `pre`, in order, starting at the
/// region start.
pub open spec fn regions_filled<T: RadixKey>(
    d: Seq<T>,
    dst_lo: int,
    s: Seq<T>,
    pre: Seq<T>,
    level: int,
) -> bool {
    forall|b: int|
        0 <= b < 256 ==> #[trigger] d.subrange(
            dst_lo + count_below(s, level, b),
            dst_lo + count_below(s, level, b) + count_level(pre, level, b),
        ) == filter_level(pre, level, b)
}

/// Scatter one element into its class cursor and advance the cursor.
fn scatter_step<T: RadixKey>(
    x: T,
    dst: &mut Vec<T>,
    dst_lo: usize,
    level: usize,
    prefix_sums: &mut PrefixSums,
    Ghost(s): Ghost<Seq<T>>,
    Ghost(n_pre): Ghost<int>,
)
    requires
        level < T::spec_levels(),
        old(prefix_sums).wf(),
        0 <= n_pre < s.len(),
        x == s[n_pre],
        dst_lo + s.len() <= old(dst).len(),
        cursors_at(old(prefix_sums)@, s, s.subrange(0, n_pre), level as int),
        regions_filled(old(dst)@, dst_lo as int, s, s.subrange(0, n_pre), level as int),
    ensures
        final(dst).len() == old(dst).len(),
        final(prefix_sums).wf(),
        cursors_at(final(prefix_sums)@, s, s.subrange(0, n_pre + 1), level as int),
        regions_filled(final(dst)@, dst_lo as int, s, s.subrange(0, n_pre + 1), level as int),
        final(dst)@ == old(dst)@.update(
            dst_lo + count_below(s, level as int, x.spec_level(level as int) as int)
                + count_level(
                s.subrange(0, n_pre),
                level as int,
                x.spec_level(level as int) as int,
            ),
            x,
        ),
        forall|k: int|
            0 <= k < old(dst).len() && !(dst_lo <= k < dst_lo + s.len()) ==> final(dst)@[k]
                == old(dst)@[k],
{
    let ghost pre = s.subrange(0, n_pre);
    let ghost pre2 = s.subrange(0, n_pre + 1);
    let b = x.get_level(level);
    let ghost bb = b as int;

    proof {
        assert(pre2 =~= pre.push(x));
        lemma_count_level_split(s, level as int, bb, n_pre + 1);
        lemma_filter_level_push(pre, level as int, bb, x);
        lemma_count_below_all(s, level as int);
        lemma_count_below_mono(s, level as int, bb + 1, 256);
        assert(count_below(s, level as int, bb + 1) == count_below(s, level as int, bb)
            + count_level(s, level as int, bb));
        assert(count_level(pre2, level as int, bb) <= count_level(s, level as int, bb)) by {
            lemma_count_level_le_len(s.subrange(n_pre + 1, s.len() as int), level as int, bb);
        }
    }

    let cursor = prefix_sums.get(b as usize);
    proof {
        assert(cursor as int == count_below(s, level as int, bb) + count_level(
            pre,
            level as int,
            bb,
        ));
        assert(cursor < s.len());
    }
    let w = dst_lo + cursor;
    let ghost d0 = dst@;
    dst[w] = x;
    prefix_sums.set(b as usize, cursor + 1);

    proof {
        assert(dst@ == d0.update(w as int, x));
        assert(dst@.len() == d0.len());
        assert(w as int == dst_lo + count_below(s, level as int, bb) + count_level(
            pre,
            level as int,
            bb,
        ));
        assert forall|b2: int| 0 <= b2 < 256 implies (#[trigger] prefix_sums@[b2]) as int
            == count_below(s, level as int, b2) + count_level(pre2, level as int, b2) by {
            lemma_filter_level_push(pre, level as int, b2, x);
        }
        assert forall|b2: int| 0 <= b2 < 256 implies #[trigger] dst@.subrange(
            dst_lo + count_below(s, level as int, b2),
            dst_lo + count_below(s, level as int, b2) + count_level(pre2, level as int, b2),
        ) == filter_level(pre2, level as int, b2) by {
            lemma_filter_level_push(pre, level as int, b2, x);
            let cb2 = count_below(s, level as int, b2);
            let cl_pre = count_level(pre, level as int, b2);
            lemma_count_below_le_len(s, level as int, b2);
            lemma_count_level_split(s, level as int, b2, n_pre);
            lemma_count_level_le_len(s.subrange(n_pre, s.len() as int), level as int, b2);
            assert(cl_pre <= count_level(s, level as int, b2));
            assert(cb2 + count_level(s, level as int, b2) == count_below(s, level as int, b2 + 1));
            lemma_count_below_mono(s, level as int, b2 + 1, 256);
            if b2 == bb {
                assert(cl_pre + 1 <= count_level(s, level as int, b2));
                assert(dst_lo + cb2 + cl_pre + 1 <= dst@.len());
                assert(w as int == dst_lo + cb2 + cl_pre);
                let lhs = dst@.subrange(dst_lo + cb2, dst_lo + cb2 + cl_pre + 1);
                let rhs = d0.subrange(dst_lo + cb2, dst_lo + cb2 + cl_pre).push(x);
                assert(lhs.len() == rhs.len());
                assert forall|m: int| 0 <= m < lhs.len() implies lhs[m] == rhs[m] by {
                    if m < cl_pre {
                        assert(lhs[m] == dst@[dst_lo + cb2 + m]);
                        assert(dst@[dst_lo + cb2 + m] == d0[dst_lo + cb2 + m]);
                        assert(rhs[m] == d0[dst_lo + cb2 + m]);
                    } else {
                        assert(lhs[m] == dst@[w as int]);
                        assert(dst@[w as int] == x);
                        assert(rhs[m] == x);
                    }
                }
                assert(lhs =~= rhs);
            } else {
                assert(count_level(pre2, level as int, b2) == cl_pre);
                assert(count_level(pre2, level as int, bb) <= count_level(s, level as int, bb));
                if b2 < bb {
                    lemma_count_below_mono(s, level as int, b2 + 1, bb);
                    assert(cb2 + cl_pre <= count_below(s, level as int, bb));
                } else {
                    lemma_count_below_mono(s, level as int, bb + 1, b2);
                    assert(w < dst_lo + cb2);
                }
                assert(dst@.subrange(dst_lo + cb2, dst_lo + cb2 + cl_pre) =~= d0.subrange(
                    dst_lo + cb2,
                    dst_lo + cb2 + cl_pre,
                ));
            }
        }
    }
}

/// Scatter `src[src_lo..src_hi]` into `dst` starting at `dst_lo`, placing
/// every element at its class cursor for the byte at `level`.
///
/// The cursors must be the exclusive prefix sums of the source range's
/// histogram at `level`; afterwards each cursor has advanced by its
/// class's count, and the destination range holds each class's elements
/// contiguously, in source order.
pub fn out_of_place_sort<T: RadixKey>(
    src: &Vec<T>,
    src_lo: usize,
    src_hi: usize,
    dst: &mut Vec<T>,
    dst_lo: usize,
    level: usize,
    prefix_sums: &mut PrefixSums,
)
    requires
        src_lo <= src_hi <= src.len(),
        dst_lo + (src_hi - src_lo) <= old(dst).len(),
        level < T::spec_levels(),
        old(prefix_sums).wf(),
        is_prefix_sums(
            old(prefix_sums)@,
            src@.subrange(src_lo as int, src_hi as int),
            level as int,
        ),
    ensures
        final(dst).len() == old(dst).len(),
        final(prefix_sums).wf(),
        cursors_at(
            final(prefix_sums)@,
            src@.subrange(src_lo as int, src_hi as int),
            src@.subrange(src_lo as int, src_hi as int),
            level as int,
        ),
        scattered(
            src@.subrange(src_lo as int, src_hi as int),
            final(dst)@.subrange(dst_lo as int, dst_lo + (src_hi - src_lo)),
            level as int,
        ),
        forall|k: int|
            0 <= k < old(dst).len() && !(dst_lo <= k < dst_lo + (src_hi - src_lo))
                ==> final(dst)@[k] == old(dst)@[k],
{
    let ghost s = src@.subrange(src_lo as int, src_hi as int);
    proof {
        assert(s.subrange(0, 0) =~= Seq::<T>::empty());
        assert(cursors_at(prefix_sums@, s, s.subrange(0, 0), level as int));
        assert forall|b: int| 0 <= b < 256 implies #[trigger] dst@.subrange(
            dst_lo + count_below(s, level as int, b),
            dst_lo + count_below(s, level as int, b) + count_level(
                s.subrange(0, 0),
                level as int,
                b,
            ),
        ) == filter_level(s.subrange(0, 0), level as int, b) by {
            lemma_count_below_le_len(s, level as int, b);
            assert(count_level(s.subrange(0, 0), level as int, b) == 0);
            assert(dst@.subrange(
                dst_lo + count_below(s, level as int, b),
                dst_lo + count_below(s, level as int, b),
            ) =~= Seq::<T>::empty());
            assert(filter_level(s.subrange(0, 0), level as int, b) == Seq::<T>::empty());
        }
    }

    let mut i: usize = src_lo;
    while src_hi - i >= 8
        invariant
            src_lo <= i <= src_hi <= src.len(),
            dst_lo + (src_hi - src_lo) <= dst.len(),
            level < T::spec_levels(),
            prefix_sums.wf(),
            s == src@.subrange(src_lo as int, src_hi as int),
            cursors_at(prefix_sums@, s, s.subrange(0, i - src_lo), level as int),
            regions_filled(dst@, dst_lo as int, s, s.subrange(0, i - src_lo), level as int),
            forall|k: int|
                0 <= k < dst.len() && !(dst_lo <= k < dst_lo + (src_hi - src_lo))
                    ==> dst@[k] == old(dst)@[k],
            dst.len() == old(dst).len(),
        decreases src_hi - i,
    {
        let x0 = src[i];
        let x1 = src[i + 1];
        let x2 = src[i + 2];
        let x3 = src[i + 3];
        let x4 = src[i + 4];
        let x5 = src[i + 5];
        let x6 = src[i + 6];
        let x7 = src[i + 7];
        proof {
            assert(forall|k: int|
                0 <= k < s.len() ==> s[k] == src@[src_lo + k]);
        }
        scatter_step(x0, dst, dst_lo, level, prefix_sums, Ghost(s), Ghost(i - src_lo));
        scatter_step(x1, dst, dst_lo, level, prefix_sums, Ghost(s), Ghost(i - src_lo + 1));
        scatter_step(x2, dst, dst_lo, level, prefix_sums, Ghost(s), Ghost(i - src_lo + 2));
        scatter_step(x3, dst, dst_lo, level, prefix_sums, Ghost(s), Ghost(i - src_lo + 3));
        scatter_step(x4, dst, dst_lo, level, prefix_sums, Ghost(s), Ghost(i - src_lo + 4));
        scatter_step(x5, dst, dst_lo, level, prefix_sums, Ghost(s), Ghost(i - src_lo + 5));
        scatter_step(x6, dst, dst_lo, level, prefix_sums, Ghost(s), Ghost(i - src_lo + 6));
        scatter_step(x7, dst, dst_lo, level, prefix_sums, Ghost(s), Ghost(i - src_lo + 7));
        i += 8;
    }
    while i < src_hi
        invariant
            src_lo <= i <= src_hi <= src.len(),
            dst_lo + (src_hi - src_lo) <= dst.len(),
            level < T::spec_levels(),
            prefix_sums.wf(),
            s == src@.subrange(src_lo as int, src_hi as int),
            cursors_at(prefix_sums@, s, s.subrange(0, i - src_lo), level as int),
            regions_filled(dst@, dst_lo as int, s, s.subrange(0, i - src_lo), level as int),
            forall|k: int|
                0 <= k < dst.len() && !(dst_lo <= k < dst_lo + (src_hi - src_lo))
                    ==> dst@[k] == old(dst)@[k],
            dst.len() == old(dst).len(),
        decreases src_hi - i,
    {
        let x = src[i];
        proof {
            assert(s[i - src_lo] == src@[i as int]);
        }
        scatter_step(x, dst, dst_lo, level, prefix_sums, Ghost(s), Ghost(i - src_lo));
        i += 1;
    }
    proof {
        assert(s.subrange(0, i - src_lo) =~= s);
        lemma_regions_to_scattered(dst@, dst_lo as int, s, level as int);
    }
}

/// Scatter `src[src_lo..src_hi]` into `dst` for the byte at `level`, and
/// in the same pass tally the histogram of `level + 1` into `next_counts`.
///
/// Two destination histograms are used in alternation — `next_counts` for
/// even slots, `scratch_counts` for odd ones — to relax the dependency
/// chain; the scratch is folded into `next_counts` at the end, which then
/// holds the full histogram of the next level. The scratch comes back
/// dirty — it still holds its share of the tallies, already folded in —
/// so it must be zeroed before reuse, which the precondition demands of
/// every caller and the zeroing pool provides.
#[verifier::rlimit(100)]
pub fn out_of_place_sort_with_counts<T: RadixKey>(
    src: &Vec<T>,
    src_lo: usize,
    src_hi: usize,
    dst: &mut Vec<T>,
    dst_lo: usize,
    level: usize,
    prefix_sums: &mut PrefixSums,
    next_counts: &mut Counts,
    scratch_counts: &mut Counts,
)
    requires
        src_lo <= src_hi <= src.len(),
        dst_lo + (src_hi - src_lo) <= old(dst).len(),
        level + 1 < T::spec_levels(),
        level + 1 <= usize::MAX,
        old(prefix_sums).wf(),
        is_prefix_sums(
            old(prefix_sums)@,
            src@.subrange(src_lo as int, src_hi as int),
            level as int,
        ),
        old(next_counts).wf(),
        old(next_counts).zeroed(),
        old(scratch_counts).wf(),
        old(scratch_counts).zeroed(),
    ensures
        final(dst).len() == old(dst).len(),
        final(prefix_sums).wf(),
        final(next_counts).wf(),
        final(scratch_counts).wf(),
        scattered(
            src@.subrange(src_lo as int, src_hi as int),
            final(dst)@.subrange(dst_lo as int, dst_lo + (src_hi - src_lo)),
            level as int,
        ),
        crate::counts::is_histogram(
            final(next_counts)@,
            src@.subrange(src_lo as int, src_hi as int),
            level + 1,
        ),
        forall|k: int|
            0 <= k < old(dst).len() && !(dst_lo <= k < dst_lo + (src_hi - src_lo))
                ==> final(dst)@[k] == old(dst)@[k],
{
    let ghost s = src@.subrange(src_lo as int, src_hi as int);
    proof {
        assert(s.subrange(0, 0) =~= Seq::<T>::empty());
        assert(cursors_at(prefix_sums@, s, s.subrange(0, 0), level as int));
        assert forall|b: int| 0 <= b < 256 implies #[trigger] dst@.subrange(
            dst_lo + count_below(s, level as int, b),
            dst_lo + count_below(s, level as int, b) + count_level(
                s.subrange(0, 0),
                level as int,
                b,
            ),
        ) == filter_level(s.subrange(0, 0), level as int, b) by {
            lemma_count_below_le_len(s, level as int, b);
            assert(count_level(s.subrange(0, 0), level as int, b) == 0);
            assert(dst@.subrange(
                dst_lo + count_below(s, level as int, b),
                dst_lo + count_below(s, level as int, b),
            ) =~= Seq::<T>::empty());
            assert(filter_level(s.subrange(0, 0), level as int, b) == Seq::<T>::empty());
        }
    }

    let next_level = level + 1;
    let mut i: usize = src_lo;
    while src_hi - i >= 8
        invariant
            src_lo <= i <= src_hi <= src.len(),
            dst_lo + (src_hi - src_lo) <= dst.len(),
            level + 1 < T::spec_levels(),
            next_level == level + 1,
            prefix_sums.wf(),
            next_counts.wf(),
            scratch_counts.wf(),
            s == src@.subrange(src_lo as int, src_hi as int),
            cursors_at(prefix_sums@, s, s.subrange(0, i - src_lo), level as int),
            regions_filled(dst@, dst_lo as int, s, s.subrange(0, i - src_lo), level as int),
            forall|b: int|
                #![trigger next_counts@[b]]
                #![trigger scratch_counts@[b]]
                0 <= b < 256 ==> next_counts@[b] + scratch_counts@[b] == count_level(
                    s.subrange(0, i - src_lo),
                    level + 1,
                    b,
                ),
            forall|k: int|
                0 <= k < dst.len() && !(dst_lo <= k < dst_lo + (src_hi - src_lo))
                    ==> dst@[k] == old(dst)@[k],
            dst.len() == old(dst).len(),
        decreases src_hi - i,
    {
        let x0 = src[i];
        let x1 = src[i + 1];
        let x2 = src[i + 2];
        let x3 = src[i + 3];
        let x4 = src[i + 4];
        let x5 = src[i + 5];
        let x6 = src[i + 6];
        let x7 = src[i + 7];
        let bn0 = x0.get_level(next_level);
        let bn1 = x1.get_level(next_level);
        let bn2 = x2.get_level(next_level);
        let bn3 = x3.get_level(next_level);
        let bn4 = x4.get_level(next_level);
        let bn5 = x5.get_level(next_level);
        let bn6 = x6.get_level(next_level);
        let bn7 = x7.get_level(next_level);
        proof {
            assert(forall|k: int| 0 <= k < s.len() ==> s[k] == src@[src_lo + k]);
            lemma_count_prefix_extend8(s, 0, i - src_lo, level + 1);
            assert forall|b: int| 0 <= b < 256 implies #[trigger] count_level(
                s.subrange(0, i - src_lo),
                level + 1,
                b,
            ) <= i - src_lo by {
                lemma_count_level_le_len(s.subrange(0, i - src_lo), level + 1, b);
            }
        }
        scatter_step(x0, dst, dst_lo, level, prefix_sums, Ghost(s), Ghost(i - src_lo));
        scatter_step(x1, dst, dst_lo, level, prefix_sums, Ghost(s), Ghost(i - src_lo + 1));
        scatter_step(x2, dst, dst_lo, level, prefix_sums, Ghost(s), Ghost(i - src_lo + 2));
        scatter_step(x3, dst, dst_lo, level, prefix_sums, Ghost(s), Ghost(i - src_lo + 3));
        scatter_step(x4, dst, dst_lo, level, prefix_sums, Ghost(s), Ghost(i - src_lo + 4));
        scatter_step(x5, dst, dst_lo, level, prefix_sums, Ghost(s), Ghost(i - src_lo + 5));
        scatter_step(x6, dst, dst_lo, level, prefix_sums, Ghost(s), Ghost(i - src_lo + 6));
        scatter_step(x7, dst, dst_lo, level, prefix_sums, Ghost(s), Ghost(i - src_lo + 7));
        next_counts.inc(bn0 as usize);
        scratch_counts.inc(bn1 as usize);
        next_counts.inc(bn2 as usize);
        scratch_counts.inc(bn3 as usize);
        next_counts.inc(bn4 as usize);
        scratch_counts.inc(bn5 as usize);
        next_counts.inc(bn6 as usize);
        scratch_counts.inc(bn7 as usize);
        proof {
            assert(bn0 as int == s[i - src_lo].spec_level(level + 1));
            assert(bn1 as int == s[i - src_lo + 1].spec_level(level + 1));
            assert(bn2 as int == s[i - src_lo + 2].spec_level(level + 1));
            assert(bn3 as int == s[i - src_lo + 3].spec_level(level + 1));
            assert(bn4 as int == s[i - src_lo + 4].spec_level(level + 1));
            assert(bn5 as int == s[i - src_lo + 5].spec_level(level + 1));
            assert(bn6 as int == s[i - src_lo + 6].spec_level(level + 1));
            assert(bn7 as int == s[i - src_lo + 7].spec_level(level + 1));
            assert forall|b: int|
                #![trigger next_counts@[b]]
                #![trigger scratch_counts@[b]]
                0 <= b < 256 implies next_counts@[b] + scratch_counts@[b] == count_level(
                s.subrange(0, i - src_lo + 8),
                level + 1,
                b,
            ) by {
                assert(count_level(s.subrange(0, i - src_lo + 8), level + 1, b) == count_level(
                    s.subrange(0, i - src_lo),
                    level + 1,
                    b,
                ) + (if s[i - src_lo].spec_level(level + 1) as int == b {
                    1int
                } else {
                    0int
                }) + (if s[i - src_lo + 1].spec_level(level + 1) as int == b {
                    1int
                } else {
                    0int
                }) + (if s[i - src_lo + 2].spec_level(level + 1) as int == b {
                    1int
                } else {
                    0int
                }) + (if s[i - src_lo + 3].spec_level(level + 1) as int == b {
                    1int
                } else {
                    0int
                }) + (if s[i - src_lo + 4].spec_level(level + 1) as int == b {
                    1int
                } else {
                    0int
                }) + (if s[i - src_lo + 5].spec_level(level + 1) as int == b {
                    1int
                } else {
                    0int
                }) + (if s[i - src_lo + 6].spec_level(level + 1) as int == b {
                    1int
                } else {
                    0int
                }) + (if s[i - src_lo + 7].spec_level(level + 1) as int == b {
                    1int
                } else {
                    0int
                }));
            }
        }
        i += 8;
    }
    while i < src_hi
        invariant
            src_lo <= i <= src_hi <= src.len(),
            dst_lo + (src_hi - src_lo) <= dst.len(),
            level + 1 < T::spec_levels(),
            next_level == level + 1,
            prefix_sums.wf(),
            next_counts.wf(),
            scratch_counts.wf(),
            s == src@.subrange(src_lo as int, src_hi as int),
            cursors_at(prefix_sums@, s, s.subrange(0, i - src_lo), level as int),
            regions_filled(dst@, dst_lo as int, s, s.subrange(0, i - src_lo), level as int),
            forall|b: int|
                #![trigger next_counts@[b]]
                #![trigger scratch_counts@[b]]
                0 <= b < 256 ==> next_counts@[b] + scratch_counts@[b] == count_level(
                    s.subrange(0, i - src_lo),
                    level + 1,
                    b,
                ),
            forall|k: int|
                0 <= k < dst.len() && !(dst_lo <= k < dst_lo + (src_hi - src_lo))
                    ==> dst@[k] == old(dst)@[k],
            dst.len() == old(dst).len(),
        decreases src_hi - i,
    {
        let x = src[i];
        let bn = x.get_level(next_level);
        proof {
            assert(s[i - src_lo] == src@[i as int]);
            lemma_count_prefix_extend(s, 0, i - src_lo, level + 1);
            lemma_count_level_le_len(s.subrange(0, i - src_lo), level + 1, bn as int);
        }
        scatter_step(x, dst, dst_lo, level, prefix_sums, Ghost(s), Ghost(i - src_lo));
        next_counts.inc(bn as usize);
        i += 1;
    }
    proof {
        assert(s.subrange(0, i - src_lo) =~= s);
        lemma_regions_to_scattered(dst@, dst_lo as int, s, level as int);
    }

    let mut b: usize = 0;
    while b < 256
        invariant
            b <= 256,
            next_counts.wf(),
            scratch_counts.wf(),
            s.len() <= usize::MAX,
            forall|bb: int|
                0 <= bb < b ==> (#[trigger] next_counts@[bb]) as int == count_level(
                    s,
                    level + 1,
                    bb,
                ),
            forall|bb: int|
                b <= bb < 256 ==> (#[trigger] next_counts@[bb]) + scratch_counts@[bb]
                    == count_level(s, level + 1, bb),
        decreases 256 - b,
    {
        proof {
            lemma_count_level_le_len(s, level + 1, b as int);
        }
        let c = next_counts.get(b);
        let sc = scratch_counts.get(b);
        next_counts.set(b, c + sc);
        b += 1;
    }
}

/// The end cursors of every byte class: `ends[b]` has retreated from the
/// class's region end by the number of already scattered suffix elements
/// of class `b`.
pub open spec fn end_cursors_at<T: RadixKey>(
    e: Seq<usize>,
    s: Seq<T>,
    suf: Seq<T>,
    level: int,
) -> bool {
    &&& e.len() == 256
    &&& forall|b: int|
        0 <= b < 256 ==> (#[trigger] e[b]) as int == count_below(s, level, b) + count_level(
            s,
            level,
            b,
        ) - count_level(suf, level, b)
}

/// The already scattered suffix `suf` of `s` sits at the back of each
/// class region of `dst`, in order.
pub open spec fn tail_regions_filled<T: RadixKey>(
    d: Seq<T>,
    dst_lo: int,
    s: Seq<T>,
    suf: Seq<T>,
    level: int,
) -> bool {
    forall|b: int|
        0 <= b < 256 ==> #[trigger] d.subrange(
            dst_lo + count_below(s, level, b) + count_level(s, level, b) - count_level(
                suf,
                level,
                b,
            ),
            dst_lo + count_below(s, level, b) + count_level(s, level, b),
        ) == filter_level(suf, level, b)
}

/// The counts of a suffix never exceed the counts of the whole sequence,
/// and region ends stay within the sequence length.
proof fn lemma_suffix_count_facts<T: RadixKey>(s: Seq<T>, n_suf: int, level: int, b: int)
    requires
        0 <= n_suf <= s.len(),
        0 <= b < 256,
    ensures
        0 <= count_level(s.subrange(s.len() - n_suf, s.len() as int), level, b) <= count_level(
            s,
            level,
            b,
        ),
        0 <= count_below(s, level, b),
        count_below(s, level, b) + count_level(s, level, b) == count_below(s, level, b + 1),
        count_below(s, level, b + 1) <= s.len(),
{
    lemma_count_level_split(s, level, b, s.len() - n_suf);
    lemma_count_below_le_len(s, level, b);
    lemma_count_below_le_len(s, level, b + 1);
}

/// A prefix-side write lands strictly below every tail region, so the
/// scattered suffix is untouched by it.
proof fn lemma_left_write_preserves_tail<T: RadixKey>(
    s: Seq<T>,
    d0: Seq<T>,
    d1: Seq<T>,
    dst_lo: int,
    n_pre: int,
    n_suf: int,
    level: int,
)
    requires
        0 <= dst_lo,
        0 <= n_pre,
        0 <= n_suf,
        n_pre + n_suf < s.len(),
        dst_lo + s.len() <= d0.len(),
        d1 == d0.update(
            dst_lo + count_below(s, level, s[n_pre].spec_level(level) as int) + count_level(
                s.subrange(0, n_pre),
                level,
                s[n_pre].spec_level(level) as int,
            ),
            s[n_pre],
        ),
        tail_regions_filled(
            d0,
            dst_lo,
            s,
            s.subrange(s.len() - n_suf, s.len() as int),
            level,
        ),
    ensures
        tail_regions_filled(
            d1,
            dst_lo,
            s,
            s.subrange(s.len() - n_suf, s.len() as int),
            level,
        ),
{
    let x = s[n_pre];
    let bx = x.spec_level(level) as int;
    let pre = s.subrange(0, n_pre);
    let suf = s.subrange(s.len() - n_suf, s.len() as int);
    let w = dst_lo + count_below(s, level, bx) + count_level(pre, level, bx);
    assert(count_level(pre, level, bx) + count_level(suf, level, bx) < count_level(
        s,
        level,
        bx,
    )) by {
        lemma_count_level_split(s, level, bx, n_pre + 1);
        lemma_count_level_split(
            s.subrange(n_pre + 1, s.len() as int),
            level,
            bx,
            s.len() - n_suf - (n_pre + 1),
        );
        assert(s.subrange(n_pre + 1, s.len() as int).subrange(
            s.len() - n_suf - (n_pre + 1),
            s.subrange(n_pre + 1, s.len() as int).len() as int,
        ) =~= suf);
        assert(s.subrange(0, n_pre + 1) =~= pre.push(x));
        lemma_filter_level_push(pre, level, bx, x);
    }
    assert forall|b: int| 0 <= b < 256 implies #[trigger] d1.subrange(
        dst_lo + count_below(s, level, b) + count_level(s, level, b) - count_level(
            suf,
            level,
            b,
        ),
        dst_lo + count_below(s, level, b) + count_level(s, level, b),
    ) == filter_level(suf, level, b) by {
        lemma_suffix_count_facts(s, n_suf, level, b);
        lemma_suffix_count_facts(s, n_suf, level, bx);
        if b < bx {
            lemma_count_below_mono(s, level, b + 1, bx);
        }
        if b > bx {
            lemma_count_below_mono(s, level, bx + 1, b);
        }
        assert(d1.subrange(
            dst_lo + count_below(s, level, b) + count_level(s, level, b) - count_level(
                suf,
                level,
                b,
            ),
            dst_lo + count_below(s, level, b) + count_level(s, level, b),
        ) =~= d0.subrange(
            dst_lo + count_below(s, level, b) + count_level(s, level, b) - count_level(
                suf,
                level,
                b,
            ),
            dst_lo + count_below(s, level, b) + count_level(s, level, b),
        ));
    }
}

/// A suffix-side write lands at or above every head region's fill, so the
/// scattered prefix is untouched by it.
proof fn lemma_right_write_preserves_head<T: RadixKey>(
    s: Seq<T>,
    d0: Seq<T>,
    d1: Seq<T>,
    dst_lo: int,
    n_pre: int,
    n_suf: int,
    level: int,
)
    requires
        0 <= dst_lo,
        0 <= n_pre,
        0 <= n_suf,
        n_pre + n_suf < s.len(),
        dst_lo + s.len() <= d0.len(),
        d1 == d0.update(
            dst_lo + count_below(s, level, s[s.len() - n_suf - 1].spec_level(level) as int)
                + count_level(s, level, s[s.len() - n_suf - 1].spec_level(level) as int)
                - count_level(
                s.subrange(s.len() - n_suf, s.len() as int),
                level,
                s[s.len() - n_suf - 1].spec_level(level) as int,
            ) - 1,
            s[s.len() - n_suf - 1],
        ),
        regions_filled(d0, dst_lo, s, s.subrange(0, n_pre), level),
    ensures
        regions_filled(d1, dst_lo, s, s.subrange(0, n_pre), level),
{
    let x = s[s.len() - n_suf - 1];
    let bx = x.spec_level(level) as int;
    let pre = s.subrange(0, n_pre);
    let suf = s.subrange(s.len() - n_suf, s.len() as int);
    let w = dst_lo + count_below(s, level, bx) + count_level(s, level, bx) - count_level(
        suf,
        level,
        bx,
    ) - 1;
    assert(count_level(pre, level, bx) + count_level(suf, level, bx) < count_level(
        s,
        level,
        bx,
    )) by {
        lemma_count_level_split(s, level, bx, n_pre);
        lemma_count_level_split(
            s.subrange(n_pre, s.len() as int),
            level,
            bx,
            s.len() - n_suf - 1 - n_pre,
        );
        let mid = s.subrange(n_pre, s.len() as int).subrange(
            s.len() - n_suf - 1 - n_pre,
            s.subrange(n_pre, s.len() as int).len() as int,
        );
        assert(mid =~= seq![x] + suf);
        lemma_filter_level_cons(suf, level, bx, x);
    }
    assert forall|b: int| 0 <= b < 256 implies #[trigger] d1.subrange(
        dst_lo + count_below(s, level, b),
        dst_lo + count_below(s, level, b) + count_level(pre, level, b),
    ) == filter_level(pre, level, b) by {
        lemma_suffix_count_facts(s, n_suf, level, b);
        lemma_suffix_count_facts(s, n_suf, level, bx);
        lemma_count_level_split(s, level, b, n_pre);
        lemma_count_level_le_len(s.subrange(n_pre, s.len() as int), level, b);
        if b < bx {
            lemma_count_below_mono(s, level, b + 1, bx);
        }
        if b > bx {
            lemma_count_below_mono(s, level, bx + 1, b);
        }
        assert(d1.subrange(
            dst_lo + count_below(s, level, b),
            dst_lo + count_below(s, level, b) + count_level(pre, level, b),
        ) =~= d0.subrange(
            dst_lo + count_below(s, level, b),
            dst_lo + count_below(s, level, b) + count_level(pre, level, b),
        ));
    }
}

/// Scatter one element, read from just before the already scattered
/// suffix, to just before its class's end cursor, and retreat the cursor.
fn scatter_step_back<T: RadixKey>(
    x: T,
    dst: &mut Vec<T>,
    dst_lo: usize,
    level: usize,
    ends: &mut crate::counts::EndOffsets,
    Ghost(s): Ghost<Seq<T>>,
    Ghost(n_suf): Ghost<int>,
)
    requires
        level < T::spec_levels(),
        old(ends).wf(),
        0 <= n_suf < s.len(),
        x == s[s.len() - n_suf - 1],
        dst_lo + s.len() <= old(dst).len(),
        end_cursors_at(old(ends)@, s, s.subrange(s.len() - n_suf, s.len() as int), level as int),
        tail_regions_filled(
            old(dst)@,
            dst_lo as int,
            s,
            s.subrange(s.len() - n_suf, s.len() as int),
            level as int,
        ),
    ensures
        final(dst).len() == old(dst).len(),
        final(ends).wf(),
        end_cursors_at(
            final(ends)@,
            s,
            s.subrange(s.len() - (n_suf + 1), s.len() as int),
            level as int,
        ),
        tail_regions_filled(
            final(dst)@,
            dst_lo as int,
            s,
            s.subrange(s.len() - (n_suf + 1), s.len() as int),
            level as int,
        ),
        final(dst)@ == old(dst)@.update(
            dst_lo + count_below(s, level as int, x.spec_level(level as int) as int)
                + count_level(s, level as int, x.spec_level(level as int) as int)
                - count_level(
                s.subrange(s.len() - n_suf, s.len() as int),
                level as int,
                x.spec_level(level as int) as int,
            ) - 1,
            x,
        ),
        forall|k: int|
            0 <= k < old(dst).len() && !(dst_lo <= k < dst_lo + s.len()) ==> final(dst)@[k]
                == old(dst)@[k],
{
    let ghost suf = s.subrange(s.len() - n_suf, s.len() as int);
    let ghost suf2 = s.subrange(s.len() - (n_suf + 1), s.len() as int);
    let b = x.get_level(level);
    let ghost bb = b as int;

    proof {
        assert(suf2 =~= seq![x] + suf);
        lemma_filter_level_cons(suf, level as int, bb, x);
        lemma_suffix_count_facts(s, n_suf, level as int, bb);
        assert(count_level(suf, level as int, bb) + 1 <= count_level(s, level as int, bb)) by {
            lemma_count_level_split(s, level as int, bb, s.len() - n_suf - 1);
            assert(s.subrange(s.len() - n_suf - 1, s.len() as int) =~= suf2);
        }
        lemma_count_below_all(s, level as int);
        lemma_count_below_mono(s, level as int, bb + 1, 256);
    }

    let cursor = ends.get(b as usize);
    proof {
        assert(cursor as int == count_below(s, level as int, bb) + count_level(
            s,
            level as int,
            bb,
        ) - count_level(suf, level as int, bb));
        assert(cursor >= 1);
        assert(cursor <= s.len());
    }
    let w = dst_lo + (cursor - 1);
    let ghost d0 = dst@;
    dst[w] = x;
    ends.set(b as usize, cursor - 1);

    proof {
        assert(dst@ == d0.update(w as int, x));
        assert forall|b2: int| 0 <= b2 < 256 implies (#[trigger] ends@[b2]) as int == count_below(
            s,
            level as int,
            b2,
        ) + count_level(s, level as int, b2) - count_level(suf2, level as int, b2) by {
            lemma_filter_level_cons(suf, level as int, b2, x);
        }
        assert forall|b2: int| 0 <= b2 < 256 implies #[trigger] dst@.subrange(
            dst_lo + count_below(s, level as int, b2) + count_level(s, level as int, b2)
                - count_level(suf2, level as int, b2),
            dst_lo + count_below(s, level as int, b2) + count_level(s, level as int, b2),
        ) == filter_level(suf2, level as int, b2) by {
            lemma_filter_level_cons(suf, level as int, b2, x);
            lemma_suffix_count_facts(s, n_suf, level as int, b2);
            let cb2 = count_below(s, level as int, b2);
            let cl2 = count_level(s, level as int, b2);
            let cls = count_level(suf, level as int, b2);
            if b2 == bb {
                let lhs = dst@.subrange(dst_lo + cb2 + cl2 - cls - 1, dst_lo + cb2 + cl2);
                let rhs = seq![x] + d0.subrange(dst_lo + cb2 + cl2 - cls, dst_lo + cb2 + cl2);
                assert(lhs.len() == rhs.len());
                assert forall|m: int| 0 <= m < lhs.len() implies lhs[m] == rhs[m] by {
                    if m == 0 {
                        assert(lhs[0] == dst@[w as int]);
                    } else {
                        assert(lhs[m] == dst@[dst_lo + cb2 + cl2 - cls - 1 + m]);
                        assert(rhs[m] == d0[dst_lo + cb2 + cl2 - cls - 1 + m]);
                    }
                }
                assert(lhs =~= rhs);
            } else {
                if b2 < bb {
                    lemma_count_below_mono(s, level as int, b2 + 1, bb);
                } else {
                    lemma_count_below_mono(s, level as int, bb + 1, b2);
                }
                assert(dst@.subrange(dst_lo + cb2 + cl2 - cls, dst_lo + cb2 + cl2)
                    =~= d0.subrange(dst_lo + cb2 + cl2 - cls, dst_lo + cb2 + cl2));
            }
        }
    }
}

/// With nothing scattered yet, every head region and tail region is
/// empty.
proof fn lemma_no_elements_scattered<T: RadixKey>(d: Seq<T>, dst_lo: int, s: Seq<T>, level: int)
    requires
        0 <= dst_lo,
        dst_lo + s.len() <= d.len(),
    ensures
        regions_filled(d, dst_lo, s, s.subrange(0, 0), level),
        tail_regions_filled(d, dst_lo, s, s.subrange(s.len() as int, s.len() as int), level),
{
    assert(s.subrange(0, 0) =~= Seq::<T>::empty());
    assert(s.subrange(s.len() as int, s.len() as int) =~= Seq::<T>::empty());
    assert forall|b: int| 0 <= b < 256 implies #[trigger] count_level(
        Seq::<T>::empty(),
        level,
        b,
    ) == 0 by {
        assert(filter_level(Seq::<T>::empty(), level, b) == Seq::<T>::empty());
    }
    assert forall|b: int| 0 <= b < 256 implies #[trigger] d.subrange(
        dst_lo + count_below(s, level, b),
        dst_lo + count_below(s, level, b) + count_level(s.subrange(0, 0), level, b),
    ) == filter_level(s.subrange(0, 0), level, b) by {
        lemma_count_below_le_len(s, level, b);
        assert(d.subrange(dst_lo + count_below(s, level, b), dst_lo + count_below(s, level, b))
            =~= Seq::<T>::empty());
    }
    assert forall|b: int| 0 <= b < 256 implies #[trigger] d.subrange(
        dst_lo + count_below(s, level, b) + count_level(s, level, b) - count_level(
            s.subrange(s.len() as int, s.len() as int),
            level,
            b,
        ),
        dst_lo + count_below(s, level, b) + count_level(s, level, b),
    ) == filter_level(s.subrange(s.len() as int, s.len() as int), level, b) by {
        lemma_count_below_le_len(s, level, b);
        lemma_count_below_le_len(s, level, b + 1);
        assert(count_below(s, level, b) + count_level(s, level, b) == count_below(
            s,
            level,
            b + 1,
        ));
        assert(d.subrange(
            dst_lo + count_below(s, level, b + 1),
            dst_lo + count_below(s, level, b + 1),
        ) =~= Seq::<T>::empty());
    }
}

/// When the head and tail fills meet, each class region holds the class's
/// prefix part followed by its suffix part — together the class's whole
/// filtered subsequence.
proof fn lemma_fills_meet<T: RadixKey>(d: Seq<T>, dst_lo: int, s: Seq<T>, m: int, level: int)
    requires
        0 <= dst_lo,
        dst_lo + s.len() <= d.len(),
        0 <= m <= s.len(),
        regions_filled(d, dst_lo, s, s.subrange(0, m), level),
        tail_regions_filled(d, dst_lo, s, s.subrange(m, s.len() as int), level),
    ensures
        regions_filled(d, dst_lo, s, s, level),
{
    let pre = s.subrange(0, m);
    let suf = s.subrange(m, s.len() as int);
    assert(pre + suf =~= s);
    assert forall|b: int| 0 <= b < 256 implies #[trigger] d.subrange(
        dst_lo + count_below(s, level, b),
        dst_lo + count_below(s, level, b) + count_level(s, level, b),
    ) == filter_level(s, level, b) by {
        lemma_filter_level_add(pre, suf, level, b);
        lemma_count_below_le_len(s, level, b);
        lemma_count_below_le_len(s, level, b + 1);
        assert(count_below(s, level, b) + count_level(s, level, b) == count_below(
            s,
            level,
            b + 1,
        ));
        let cb = count_below(s, level, b);
        let clp = count_level(pre, level, b);
        let cls = count_level(suf, level, b);
        assert(count_level(s, level, b) == clp + cls);
        assert(d.subrange(dst_lo + cb, dst_lo + cb + clp + cls) =~= d.subrange(
            dst_lo + cb,
            dst_lo + cb + clp,
        ) + d.subrange(dst_lo + cb + clp, dst_lo + cb + clp + cls));
        assert(d.subrange(dst_lo + cb + count_level(s, level, b) - cls, dst_lo + cb
            + count_level(s, level, b)) == d.subrange(
            dst_lo + cb + clp,
            dst_lo + cb + clp + cls,
        ));
        assert(filter_level(pre, level, b) + filter_level(suf, level, b) == filter_level(
            s,
            level,
            b,
        ));
    }
}

/// Scatter `src[src_lo..src_hi]` into `dst` with two cursor families: a
/// left cursor reading the source from the front and placing at each
/// class's prefix-sum cursor, and a right cursor reading from the back
/// and placing before each class's end-offset cursor. A prologue of
/// `len % 8` elements runs on the right cursor, then the two sides
/// advance four elements each per iteration until they meet.
///
/// Both sides read monotonically, so the result is the same stable
/// scatter the one-sided kernel produces.
pub fn lr_out_of_place_sort<T: RadixKey>(
    src: &Vec<T>,
    src_lo: usize,
    src_hi: usize,
    dst: &mut Vec<T>,
    dst_lo: usize,
    level: usize,
    prefix_sums: &mut PrefixSums,
    ends: &mut crate::counts::EndOffsets,
)
    requires
        src_lo <= src_hi <= src.len(),
        dst_lo + (src_hi - src_lo) <= old(dst).len(),
        level < T::spec_levels(),
        old(prefix_sums).wf(),
        old(ends).wf(),
        is_prefix_sums(
            old(prefix_sums)@,
            src@.subrange(src_lo as int, src_hi as int),
            level as int,
        ),
        crate::counts::is_end_offsets(
            old(ends)@,
            src@.subrange(src_lo as int, src_hi as int),
            level as int,
        ),
    ensures
        final(dst).len() == old(dst).len(),
        final(prefix_sums).wf(),
        final(ends).wf(),
        scattered(
            src@.subrange(src_lo as int, src_hi as int),
            final(dst)@.subrange(dst_lo as int, dst_lo + (src_hi - src_lo)),
            level as int,
        ),
        forall|k: int|
            0 <= k < old(dst).len() && !(dst_lo <= k < dst_lo + (src_hi - src_lo))
                ==> final(dst)@[k] == old(dst)@[k],
{
    let ghost s = src@.subrange(src_lo as int, src_hi as int);
    let n = src_hi - src_lo;
    proof {
        assert(s.subrange(0, 0) =~= Seq::<T>::empty());
        lemma_no_elements_scattered(dst@, dst_lo as int, s, level as int);
        assert(s.subrange(s.len() - 0, s.len() as int) == s.subrange(
            s.len() as int,
            s.len() as int,
        ));
        assert forall|b: int| 0 <= b < 256 implies #[trigger] count_level(
            s.subrange(s.len() - 0, s.len() as int),
            level as int,
            b,
        ) == 0 && count_level(s.subrange(0, 0), level as int, b) == 0 by {
            assert(s.subrange(s.len() - 0, s.len() as int) =~= Seq::<T>::empty());
            assert(s.subrange(0, 0) =~= Seq::<T>::empty());
            assert(filter_level(Seq::<T>::empty(), level as int, b) == Seq::<T>::empty());
        }
    }

    let pre_cnt = n % 8;
    let mut j: usize = src_hi;
    let mut k: usize = 0;
    while k < pre_cnt
        invariant
            k <= pre_cnt,
            pre_cnt == n % 8,
            n == src_hi - src_lo,
            j == src_hi - k,
            src_lo <= j <= src_hi <= src.len(),
            dst_lo + n <= dst.len(),
            level < T::spec_levels(),
            prefix_sums.wf(),
            ends.wf(),
            s == src@.subrange(src_lo as int, src_hi as int),
            cursors_at(prefix_sums@, s, s.subrange(0, 0), level as int),
            end_cursors_at(ends@, s, s.subrange(s.len() - k, s.len() as int), level as int),
            regions_filled(dst@, dst_lo as int, s, s.subrange(0, 0), level as int),
            tail_regions_filled(
                dst@,
                dst_lo as int,
                s,
                s.subrange(s.len() - k, s.len() as int),
                level as int,
            ),
            forall|q: int|
                0 <= q < dst.len() && !(dst_lo <= q < dst_lo + n) ==> dst@[q] == old(dst)@[q],
            dst.len() == old(dst).len(),
        decreases pre_cnt - k,
    {
        let x = src[j - 1];
        proof {
            assert(s[s.len() - k - 1] == src@[j - 1]);
        }
        let ghost d0 = dst@;
        scatter_step_back(x, dst, dst_lo, level, ends, Ghost(s), Ghost(k as int));
        proof {
            lemma_right_write_preserves_head(s, d0, dst@, dst_lo as int, 0, k as int, level as int);
        }
        k += 1;
        j -= 1;
    }

    let mut i: usize = src_lo;
    while i < j
        invariant
            src_lo <= i <= j <= src_hi <= src.len(),
            (j - i) % 8 == 0,
            n == src_hi - src_lo,
            dst_lo + n <= dst.len(),
            level < T::spec_levels(),
            prefix_sums.wf(),
            ends.wf(),
            s == src@.subrange(src_lo as int, src_hi as int),
            cursors_at(prefix_sums@, s, s.subrange(0, i - src_lo), level as int),
            end_cursors_at(
                ends@,
                s,
                s.subrange(s.len() - (src_hi - j), s.len() as int),
                level as int,
            ),
            regions_filled(dst@, dst_lo as int, s, s.subrange(0, i - src_lo), level as int),
            tail_regions_filled(
                dst@,
                dst_lo as int,
                s,
                s.subrange(s.len() - (src_hi - j), s.len() as int),
                level as int,
            ),
            forall|q: int|
                0 <= q < dst.len() && !(dst_lo <= q < dst_lo + n) ==> dst@[q] == old(dst)@[q],
            dst.len() == old(dst).len(),
        decreases j - i,
    {
        proof {
            assert(j - i >= 8);
            assert(forall|q: int| 0 <= q < s.len() ==> s[q] == src@[src_lo + q]);
        }
        let x0 = src[i];
        let x1 = src[i + 1];
        let x2 = src[i + 2];
        let x3 = src[i + 3];

        let ghost da = dst@;
        scatter_step(x0, dst, dst_lo, level, prefix_sums, Ghost(s), Ghost(i - src_lo));
        proof {
            lemma_left_write_preserves_tail(
                s, da, dst@, dst_lo as int, i - src_lo, src_hi - j, level as int,
            );
        }
        let ghost db = dst@;
        scatter_step(x1, dst, dst_lo, level, prefix_sums, Ghost(s), Ghost(i - src_lo + 1));
        proof {
            lemma_left_write_preserves_tail(
                s, db, dst@, dst_lo as int, i - src_lo + 1, src_hi - j, level as int,
            );
        }
        let ghost dc = dst@;
        scatter_step(x2, dst, dst_lo, level, prefix_sums, Ghost(s), Ghost(i - src_lo + 2));
        proof {
            lemma_left_write_preserves_tail(
                s, dc, dst@, dst_lo as int, i - src_lo + 2, src_hi - j, level as int,
            );
        }
        let ghost dd = dst@;
        scatter_step(x3, dst, dst_lo, level, prefix_sums, Ghost(s), Ghost(i - src_lo + 3));
        proof {
            lemma_left_write_preserves_tail(
                s, dd, dst@, dst_lo as int, i - src_lo + 3, src_hi - j, level as int,
            );
        }

        let y0 = src[j - 1];
        let y1 = src[j - 2];
        let y2 = src[j - 3];
        let y3 = src[j - 4];

        let ghost de = dst@;
        scatter_step_back(y0, dst, dst_lo, level, ends, Ghost(s), Ghost(src_hi - j));
        proof {
            lemma_right_write_preserves_head(
                s, de, dst@, dst_lo as int, i - src_lo + 4, src_hi - j, level as int,
            );
        }
        let ghost df = dst@;
        scatter_step_back(y1, dst, dst_lo, level, ends, Ghost(s), Ghost(src_hi - j + 1));
        proof {
            lemma_right_write_preserves_head(
                s, df, dst@, dst_lo as int, i - src_lo + 4, src_hi - j + 1, level as int,
            );
        }
        let ghost dg = dst@;
        scatter_step_back(y2, dst, dst_lo, level, ends, Ghost(s), Ghost(src_hi - j + 2));
        proof {
            lemma_right_write_preserves_head(
                s, dg, dst@, dst_lo as int, i - src_lo + 4, src_hi - j + 2, level as int,
            );
        }
        let ghost dh = dst@;
        scatter_step_back(y3, dst, dst_lo, level, ends, Ghost(s), Ghost(src_hi - j + 3));
        proof {
            lemma_right_write_preserves_head(
                s, dh, dst@, dst_lo as int, i - src_lo + 4, src_hi - j + 3, level as int,
            );
        }

        i += 4;
        j -= 4;
    }

    proof {
        assert(i == j);
        assert(s.len() - (src_hi - j) == i - src_lo);
        lemma_fills_meet(dst@, dst_lo as int, s, i - src_lo, level as int);
        lemma_regions_to_scattered(dst@, dst_lo as int, s, level as int);
    }
}

/// When every class region is filled with the whole source's class
/// elements, the destination range is a scatter of the source.
proof fn lemma_regions_to_scattered<T: RadixKey>(d: Seq<T>, dst_lo: int, s: Seq<T>, level: int)
    requires
        0 <= dst_lo,
        dst_lo + s.len() <= d.len(),
        regions_filled(d, dst_lo, s, s, level),
    ensures
        scattered(s, d.subrange(dst_lo, dst_lo + s.len()), level),
{
    let dd = d.subrange(dst_lo, dst_lo + s.len());
    assert forall|b: int| 0 <= b < 256 implies #[trigger] dd.subrange(
        count_below(s, level, b),
        count_below(s, level, b) + count_level(s, level, b),
    ) == filter_level(s, level, b) by {
        lemma_count_below_le_len(s, level, b);
        assert(count_below(s, level, b) + count_level(s, level, b) == count_below(
            s,
            level,
            b + 1,
        ));
        lemma_count_below_le_len(s, level, b + 1);
        assert(dd.subrange(
            count_below(s, level, b),
            count_below(s, level, b) + count_level(s, level, b),
        ) =~= d.subrange(
            dst_lo + count_below(s, level, b),
            dst_lo + count_below(s, level, b) + count_level(s, level, b),
        ));
    }
}

/// The left-right scatter fused with counting of the next level: left
/// reads tally into `next_counts`, right reads into `counts_scratch`, and
/// the scratch is folded into `next_counts` at the end. As with the
/// one-sided variant, the scratch comes back dirty and the precondition
/// demands it zeroed on entry.
#[verifier::rlimit(100)]
pub fn lr_out_of_place_sort_with_counts<T: RadixKey>(
    src: &Vec<T>,
    src_lo: usize,
    src_hi: usize,
    dst: &mut Vec<T>,
    dst_lo: usize,
    level: usize,
    prefix_sums: &mut PrefixSums,
    ends: &mut crate::counts::EndOffsets,
    next_counts: &mut Counts,
    counts_scratch: &mut Counts,
)
    requires
        src_lo <= src_hi <= src.len(),
        dst_lo + (src_hi - src_lo) <= old(dst).len(),
        level + 1 < T::spec_levels(),
        level + 1 <= usize::MAX,
        old(prefix_sums).wf(),
        old(ends).wf(),
        is_prefix_sums(
            old(prefix_sums)@,
            src@.subrange(src_lo as int, src_hi as int),
            level as int,
        ),
        crate::counts::is_end_offsets(
            old(ends)@,
            src@.subrange(src_lo as int, src_hi as int),
            level as int,
        ),
        old(next_counts).wf(),
        old(next_counts).zeroed(),
        old(counts_scratch).wf(),
        old(counts_scratch).zeroed(),
    ensures
        final(dst).len() == old(dst).len(),
        final(prefix_sums).wf(),
        final(ends).wf(),
        final(next_counts).wf(),
        final(counts_scratch).wf(),
        scattered(
            src@.subrange(src_lo as int, src_hi as int),
            final(dst)@.subrange(dst_lo as int, dst_lo + (src_hi - src_lo)),
            level as int,
        ),
        crate::counts::is_histogram(
            final(next_counts)@,
            src@.subrange(src_lo as int, src_hi as int),
            level + 1,
        ),
        forall|k: int|
            0 <= k < old(dst).len() && !(dst_lo <= k < dst_lo + (src_hi - src_lo))
                ==> final(dst)@[k] == old(dst)@[k],
{
    let ghost s = src@.subrange(src_lo as int, src_hi as int);
    let n = src_hi - src_lo;
    proof {
        assert(s.subrange(0, 0) =~= Seq::<T>::empty());
        lemma_no_elements_scattered(dst@, dst_lo as int, s, level as int);
        assert(s.subrange(s.len() - 0, s.len() as int) == s.subrange(
            s.len() as int,
            s.len() as int,
        ));
        assert forall|b: int| 0 <= b < 256 implies #[trigger] count_level(
            s.subrange(s.len() - 0, s.len() as int),
            level as int,
            b,
        ) == 0 && count_level(s.subrange(0, 0), level as int, b) == 0 && count_level(
            s.subrange(s.len() - 0, s.len() as int),
            level + 1,
            b,
        ) == 0 && count_level(s.subrange(0, 0), level + 1, b) == 0 by {
            assert(s.subrange(s.len() - 0, s.len() as int) =~= Seq::<T>::empty());
            assert(s.subrange(0, 0) =~= Seq::<T>::empty());
            assert(filter_level(Seq::<T>::empty(), level as int, b) == Seq::<T>::empty());
            assert(filter_level(Seq::<T>::empty(), level + 1, b) == Seq::<T>::empty());
        }
    }

    let next_level = level + 1;
    let pre_cnt = n % 8;
    let mut j: usize = src_hi;
    let mut k: usize = 0;
    while k < pre_cnt
        invariant
            k <= pre_cnt,
            pre_cnt == n % 8,
            n == src_hi - src_lo,
            j == src_hi - k,
            src_lo <= j <= src_hi <= src.len(),
            dst_lo + n <= dst.len(),
            level + 1 < T::spec_levels(),
            next_level == level + 1,
            prefix_sums.wf(),
            ends.wf(),
            next_counts.wf(),
            counts_scratch.wf(),
            s == src@.subrange(src_lo as int, src_hi as int),
            cursors_at(prefix_sums@, s, s.subrange(0, 0), level as int),
            end_cursors_at(ends@, s, s.subrange(s.len() - k, s.len() as int), level as int),
            regions_filled(dst@, dst_lo as int, s, s.subrange(0, 0), level as int),
            tail_regions_filled(
                dst@,
                dst_lo as int,
                s,
                s.subrange(s.len() - k, s.len() as int),
                level as int,
            ),
            forall|b: int|
                #![trigger next_counts@[b]]
                #![trigger counts_scratch@[b]]
                0 <= b < 256 ==> next_counts@[b] + counts_scratch@[b] == count_level(
                    s.subrange(s.len() - k, s.len() as int),
                    level + 1,
                    b,
                ),
            forall|q: int|
                0 <= q < dst.len() && !(dst_lo <= q < dst_lo + n) ==> dst@[q] == old(dst)@[q],
            dst.len() == old(dst).len(),
        decreases pre_cnt - k,
    {
        let x = src[j - 1];
        let bn = x.get_level(next_level);
        proof {
            assert(s[s.len() - k - 1] == src@[j - 1]);
            lemma_count_suffix_extend(s, k as int, level + 1);
            lemma_count_level_le_len(
                s.subrange(s.len() - k, s.len() as int),
                level + 1,
                bn as int,
            );
        }
        let ghost d0 = dst@;
        scatter_step_back(x, dst, dst_lo, level, ends, Ghost(s), Ghost(k as int));
        proof {
            lemma_right_write_preserves_head(s, d0, dst@, dst_lo as int, 0, k as int, level as int);
        }
        next_counts.inc(bn as usize);
        k += 1;
        j -= 1;
    }

    let mut i: usize = src_lo;
    while i < j
        invariant
            src_lo <= i <= j <= src_hi <= src.len(),
            (j - i) % 8 == 0,
            n == src_hi - src_lo,
            dst_lo + n <= dst.len(),
            level + 1 < T::spec_levels(),
            next_level == level + 1,
            prefix_sums.wf(),
            ends.wf(),
            next_counts.wf(),
            counts_scratch.wf(),
            s == src@.subrange(src_lo as int, src_hi as int),
            cursors_at(prefix_sums@, s, s.subrange(0, i - src_lo), level as int),
            end_cursors_at(
                ends@,
                s,
                s.subrange(s.len() - (src_hi - j), s.len() as int),
                level as int,
            ),
            regions_filled(dst@, dst_lo as int, s, s.subrange(0, i - src_lo), level as int),
            tail_regions_filled(
                dst@,
                dst_lo as int,
                s,
                s.subrange(s.len() - (src_hi - j), s.len() as int),
                level as int,
            ),
            forall|b: int|
                #![trigger next_counts@[b]]
                #![trigger counts_scratch@[b]]
                0 <= b < 256 ==> next_counts@[b] + counts_scratch@[b] == count_level(
                    s.subrange(0, i - src_lo),
                    level + 1,
                    b,
                ) + count_level(
                    s.subrange(s.len() - (src_hi - j), s.len() as int),
                    level + 1,
                    b,
                ),
            forall|q: int|
                0 <= q < dst.len() && !(dst_lo <= q < dst_lo + n) ==> dst@[q] == old(dst)@[q],
            dst.len() == old(dst).len(),
        decreases j - i,
    {
        proof {
            assert(j - i >= 8);
            assert(forall|q: int| 0 <= q < s.len() ==> s[q] == src@[src_lo + q]);
        }
        let x0 = src[i];
        let x1 = src[i + 1];
        let x2 = src[i + 2];
        let x3 = src[i + 3];
        let bn0 = x0.get_level(next_level);
        let bn1 = x1.get_level(next_level);
        let bn2 = x2.get_level(next_level);
        let bn3 = x3.get_level(next_level);

        let ghost da = dst@;
        scatter_step(x0, dst, dst_lo, level, prefix_sums, Ghost(s), Ghost(i - src_lo));
        proof {
            lemma_left_write_preserves_tail(
                s, da, dst@, dst_lo as int, i - src_lo, src_hi - j, level as int,
            );
        }
        let ghost db = dst@;
        scatter_step(x1, dst, dst_lo, level, prefix_sums, Ghost(s), Ghost(i - src_lo + 1));
        proof {
            lemma_left_write_preserves_tail(
                s, db, dst@, dst_lo as int, i - src_lo + 1, src_hi - j, level as int,
            );
        }
        let ghost dc = dst@;
        scatter_step(x2, dst, dst_lo, level, prefix_sums, Ghost(s), Ghost(i - src_lo + 2));
        proof {
            lemma_left_write_preserves_tail(
                s, dc, dst@, dst_lo as int, i - src_lo + 2, src_hi - j, level as int,
            );
        }
        let ghost dd = dst@;
        scatter_step(x3, dst, dst_lo, level, prefix_sums, Ghost(s), Ghost(i - src_lo + 3));
        proof {
            lemma_left_write_preserves_tail(
                s, dd, dst@, dst_lo as int, i - src_lo + 3, src_hi - j, level as int,
            );
        }

        let y0 = src[j - 1];
        let y1 = src[j - 2];
        let y2 = src[j - 3];
        let y3 = src[j - 4];
        let bm0 = y0.get_level(next_level);
        let bm1 = y1.get_level(next_level);
        let bm2 = y2.get_level(next_level);
        let bm3 = y3.get_level(next_level);

        let ghost de = dst@;
        scatter_step_back(y0, dst, dst_lo, level, ends, Ghost(s), Ghost(src_hi - j));
        proof {
            lemma_right_write_preserves_head(
                s, de, dst@, dst_lo as int, i - src_lo + 4, src_hi - j, level as int,
            );
        }
        let ghost df = dst@;
        scatter_step_back(y1, dst, dst_lo, level, ends, Ghost(s), Ghost(src_hi - j + 1));
        proof {
            lemma_right_write_preserves_head(
                s, df, dst@, dst_lo as int, i - src_lo + 4, src_hi - j + 1, level as int,
            );
        }
        let ghost dg = dst@;
        scatter_step_back(y2, dst, dst_lo, level, ends, Ghost(s), Ghost(src_hi - j + 2));
        proof {
            lemma_right_write_preserves_head(
                s, dg, dst@, dst_lo as int, i - src_lo + 4, src_hi - j + 2, level as int,
            );
        }
        let ghost dh = dst@;
        scatter_step_back(y3, dst, dst_lo, level, ends, Ghost(s), Ghost(src_hi - j + 3));
        proof {
            lemma_right_write_preserves_head(
                s, dh, dst@, dst_lo as int, i - src_lo + 4, src_hi - j + 3, level as int,
            );
        }

        proof {
            lemma_count_prefix_extend4(s, 0, i - src_lo, level + 1);
            lemma_count_suffix_extend4(s, src_hi - j, level + 1);
            assert forall|b: int|
                #![trigger count_level(s.subrange(0, i - src_lo), level + 1, b)]
                0 <= b < 256 implies count_level(s.subrange(0, i - src_lo), level + 1, b) <= i
                - src_lo && count_level(
                s.subrange(s.len() - (src_hi - j), s.len() as int),
                level + 1,
                b,
            ) <= src_hi - j by {
                lemma_count_level_le_len(s.subrange(0, i - src_lo), level + 1, b);
                lemma_count_level_le_len(
                    s.subrange(s.len() - (src_hi - j), s.len() as int),
                    level + 1,
                    b,
                );
            }
        }
        next_counts.inc(bn0 as usize);
        next_counts.inc(bn1 as usize);
        next_counts.inc(bn2 as usize);
        next_counts.inc(bn3 as usize);
        counts_scratch.inc(bm0 as usize);
        counts_scratch.inc(bm1 as usize);
        counts_scratch.inc(bm2 as usize);
        counts_scratch.inc(bm3 as usize);
        proof {
            assert(bn0 as int == s[i - src_lo].spec_level(level + 1));
            assert(bn1 as int == s[i - src_lo + 1].spec_level(level + 1));
            assert(bn2 as int == s[i - src_lo + 2].spec_level(level + 1));
            assert(bn3 as int == s[i - src_lo + 3].spec_level(level + 1));
            assert(bm0 as int == s[s.len() - (src_hi - j) - 1].spec_level(level + 1));
            assert(bm1 as int == s[s.len() - (src_hi - j) - 2].spec_level(level + 1));
            assert(bm2 as int == s[s.len() - (src_hi - j) - 3].spec_level(level + 1));
            assert(bm3 as int == s[s.len() - (src_hi - j) - 4].spec_level(level + 1));
            assert forall|b: int|
                #![trigger next_counts@[b]]
                #![trigger counts_scratch@[b]]
                0 <= b < 256 implies next_counts@[b] + counts_scratch@[b] == count_level(
                s.subrange(0, i - src_lo + 4),
                level + 1,
                b,
            ) + count_level(
                s.subrange(s.len() - (src_hi - j + 4), s.len() as int),
                level + 1,
                b,
            ) by {
                assert(count_level(s.subrange(0, i - src_lo + 4), level + 1, b) == count_level(
                    s.subrange(0, i - src_lo),
                    level + 1,
                    b,
                ) + (if s[i - src_lo].spec_level(level + 1) as int == b {
                    1int
                } else {
                    0int
                }) + (if s[i - src_lo + 1].spec_level(level + 1) as int == b {
                    1int
                } else {
                    0int
                }) + (if s[i - src_lo + 2].spec_level(level + 1) as int == b {
                    1int
                } else {
                    0int
                }) + (if s[i - src_lo + 3].spec_level(level + 1) as int == b {
                    1int
                } else {
                    0int
                }));
                assert(count_level(
                    s.subrange(s.len() - (src_hi - j + 4), s.len() as int),
                    level + 1,
                    b,
                ) == count_level(
                    s.subrange(s.len() - (src_hi - j), s.len() as int),
                    level + 1,
                    b,
                ) + (if s[s.len() - (src_hi - j) - 1].spec_level(level + 1) as int == b {
                    1int
                } else {
                    0int
                }) + (if s[s.len() - (src_hi - j) - 2].spec_level(level + 1) as int == b {
                    1int
                } else {
                    0int
                }) + (if s[s.len() - (src_hi - j) - 3].spec_level(level + 1) as int == b {
                    1int
                } else {
                    0int
                }) + (if s[s.len() - (src_hi - j) - 4].spec_level(level + 1) as int == b {
                    1int
                } else {
                    0int
                }));
            }
        }

        i += 4;
        j -= 4;
    }

    proof {
        assert(i == j);
        assert(s.len() - (src_hi - j) == i - src_lo);
        lemma_fills_meet(dst@, dst_lo as int, s, i - src_lo, level as int);
        lemma_regions_to_scattered(dst@, dst_lo as int, s, level as int);
        let pre = s.subrange(0, i - src_lo);
        let suf = s.subrange(s.len() - (src_hi - j), s.len() as int);
        assert(pre + suf =~= s);
        assert forall|b: int|
            #![trigger next_counts@[b]]
            #![trigger counts_scratch@[b]]
            0 <= b < 256 implies next_counts@[b] + counts_scratch@[b] == count_level(
            s,
            level + 1,
            b,
        ) by {
            lemma_filter_level_add(pre, suf, level + 1, b);
        }
    }

    let mut b: usize = 0;
    while b < 256
        invariant
            b <= 256,
            next_counts.wf(),
            counts_scratch.wf(),
            s.len() <= usize::MAX,
            forall|bb: int|
                0 <= bb < b ==> (#[trigger] next_counts@[bb]) as int == count_level(
                    s,
                    level + 1,
                    bb,
                ),
            forall|bb: int|
                #![trigger next_counts@[bb]]
                #![trigger counts_scratch@[bb]]
                b <= bb < 256 ==> next_counts@[bb] + counts_scratch@[bb] == count_level(
                    s,
                    level + 1,
                    bb,
                ),
        decreases 256 - b,
    {
        proof {
            lemma_count_level_le_len(s, level + 1, b as int);
        }
        let c = next_counts.get(b);
        let sc = counts_scratch.get(b);
        next_counts.set(b, c + sc);
        b += 1;
    }
}

} // verus!
