//! Histograms over radix bytes: the `Counts` object, the 4-lane `Counter`
//! scratch, the `CountMeta` summary, and the `CountManager` that recycles
//! histogram allocations.
//!
//! The specification side describes a histogram slot as the length of the
//! subsequence of elements that carry the slot's byte at the counted level
//! (`filter_level` / `count_level`), prefix sums as partial sums of those
//! counts (`sum_prefix` / `count_below`), and the sortedness flag as
//! monotonicity of adjacent bytes (`level_sorted`).

use vstd::prelude::*;
use vstd::multiset::Multiset;
use crate::radix_key::RadixKey;
use crate::radix_key::key_le_range;
use crate::radix_key::sorted_between;

verus! {

/// The subsequence of `s` whose byte at `level` equals `b`, in order.
pub open spec fn filter_level<T: RadixKey>(s: Seq<T>, level: int, b: int) -> Seq<T>
    decreases s.len(),
{
    if s.len() == 0 {
        Seq::empty()
    } else {
        let rest = filter_level(s.drop_last(), level, b);
        if s.last().spec_level(level) as int == b {
            rest.push(s.last())
        } else {
            rest
        }
    }
}

/// How many elements of `s` carry byte `b` at `level`.
pub open spec fn count_level<T: RadixKey>(s: Seq<T>, level: int, b: int) -> int {
    filter_level(s, level, b).len() as int
}

/// How many elements of `s` carry a byte strictly below `b` at `level`.
pub open spec fn count_below<T: RadixKey>(s: Seq<T>, level: int, b: int) -> int
    decreases b,
{
    if b <= 0 {
        0
    } else {
        count_below(s, level, b - 1) + count_level(s, level, b - 1)
    }
}

/// The sum of the first `b` histogram slots.
pub open spec fn sum_prefix(c: Seq<usize>, b: int) -> int
    decreases b,
{
    if b <= 0 {
        0
    } else {
        sum_prefix(c, b - 1) + c[b - 1]
    }
}

/// The bytes of `s` at `level` are non-decreasing between adjacent elements.
pub open spec fn level_sorted<T: RadixKey>(s: Seq<T>, level: int) -> bool {
    forall|i: int|
        0 <= i < s.len() - 1 ==> (#[trigger] s[i].spec_level(level)) <= s[i + 1].spec_level(level)
}

/// `c` holds, slot by slot, the histogram of `s` at `level`.
pub open spec fn is_histogram<T: RadixKey>(c: Seq<usize>, s: Seq<T>, level: int) -> bool {
    &&& c.len() == 256
    &&& forall|b: int| 0 <= b < 256 ==> (#[trigger] c[b]) as int == count_level(s, level, b)
}

/// `p` holds, slot by slot, the exclusive prefix sums of the histogram of
/// `s` at `level`.
pub open spec fn is_prefix_sums<T: RadixKey>(p: Seq<usize>, s: Seq<T>, level: int) -> bool {
    &&& p.len() == 256
    &&& forall|b: int| 0 <= b < 256 ==> (#[trigger] p[b]) as int == count_below(s, level, b)
}

/// `e` holds, slot by slot, the end offsets of `s` at `level`: one past
/// the end of each byte's region, that is, prefix sum plus count.
pub open spec fn is_end_offsets<T: RadixKey>(e: Seq<usize>, s: Seq<T>, level: int) -> bool {
    &&& e.len() == 256
    &&& forall|b: int|
        0 <= b < 256 ==> (#[trigger] e[b]) as int == count_below(s, level, b) + count_level(
            s,
            level,
            b,
        )
}

/// Prepending an element extends the filtered subsequence at the front
/// exactly when the element carries the filtered byte.
pub proof fn lemma_filter_level_cons<T: RadixKey>(s: Seq<T>, level: int, b: int, x: T)
    ensures
        filter_level(seq![x] + s, level, b) == if x.spec_level(level) as int == b {
            seq![x] + filter_level(s, level, b)
        } else {
            filter_level(s, level, b)
        },
{
    lemma_filter_level_add(seq![x], s, level, b);
    assert(seq![x].len() == 1);
    assert(seq![x].last() == x);
    assert(seq![x].drop_last() =~= Seq::<T>::empty());
    assert(filter_level(seq![x].drop_last(), level, b) == filter_level(
        Seq::<T>::empty(),
        level,
        b,
    ));
    if x.spec_level(level) as int == b {
        assert(filter_level(seq![x], level, b) =~= seq![x]);
        assert(seq![x] + filter_level(s, level, b) =~= filter_level(seq![x], level, b)
            + filter_level(s, level, b));
    } else {
        assert(filter_level(seq![x], level, b) =~= Seq::<T>::empty());
        assert(filter_level(seq![x], level, b) + filter_level(s, level, b) =~= filter_level(
            s,
            level,
            b,
        ));
    }
}

/// Appending an element extends the filtered subsequence exactly when the
/// element carries the filtered byte.
pub proof fn lemma_filter_level_push<T: RadixKey>(s: Seq<T>, level: int, b: int, x: T)
    ensures
        filter_level(s.push(x), level, b) == if x.spec_level(level) as int == b {
            filter_level(s, level, b).push(x)
        } else {
            filter_level(s, level, b)
        },
{
    assert(s.push(x).drop_last() =~= s);
    assert(s.push(x).last() == x);
}

/// The count of any byte cannot exceed the sequence length.
pub proof fn lemma_count_level_le_len<T: RadixKey>(s: Seq<T>, level: int, b: int)
    ensures
        0 <= count_level(s, level, b) <= s.len(),
    decreases s.len(),
{
    if s.len() > 0 {
        lemma_count_level_le_len(s.drop_last(), level, b);
    }
}

/// The filtered subsequence distributes over concatenation.
pub proof fn lemma_filter_level_add<T: RadixKey>(s1: Seq<T>, s2: Seq<T>, level: int, b: int)
    ensures
        filter_level(s1 + s2, level, b) == filter_level(s1, level, b) + filter_level(
            s2,
            level,
            b,
        ),
    decreases s2.len(),
{
    if s2.len() == 0 {
        assert(s1 + s2 =~= s1);
        assert(filter_level(s1, level, b) + filter_level(s2, level, b) =~= filter_level(
            s1,
            level,
            b,
        ));
    } else {
        lemma_filter_level_add(s1, s2.drop_last(), level, b);
        assert((s1 + s2).drop_last() =~= s1 + s2.drop_last());
        assert((s1 + s2).last() == s2.last());
        if s2.last().spec_level(level) as int == b {
            assert(filter_level(s1, level, b) + filter_level(s2.drop_last(), level, b).push(
                s2.last(),
            ) =~= (filter_level(s1, level, b) + filter_level(s2.drop_last(), level, b)).push(
                s2.last(),
            ));
        }
        assert(s2.drop_last().push(s2.last()) =~= s2);
        lemma_filter_level_push(s2.drop_last(), level, b, s2.last());
    }
}

/// Every element of the filtered subsequence carries the filtered byte and
/// occurs in the original sequence.
pub proof fn lemma_filter_level_elem<T: RadixKey>(s: Seq<T>, level: int, b: int, k: int)
    requires
        0 <= k < filter_level(s, level, b).len(),
    ensures
        filter_level(s, level, b)[k].spec_level(level) as int == b,
        exists|i: int| 0 <= i < s.len() && filter_level(s, level, b)[k] == s[i],
    decreases s.len(),
{
    if s.len() > 0 {
        let rest = filter_level(s.drop_last(), level, b);
        if s.last().spec_level(level) as int == b && k == rest.len() {
            assert(filter_level(s, level, b)[k] == s[s.len() - 1]);
        } else {
            lemma_filter_level_elem(s.drop_last(), level, b, k);
            let i = choose|i: int|
                0 <= i < s.drop_last().len() && filter_level(s.drop_last(), level, b)[k]
                    == s.drop_last()[i];
            assert(filter_level(s, level, b)[k] == s[i]);
        }
    }
}

/// If all of `s` carries byte `b`, the count of `b` is the whole length.
pub proof fn lemma_count_level_all<T: RadixKey>(s: Seq<T>, level: int, b: int)
    requires
        forall|i: int| 0 <= i < s.len() ==> (#[trigger] s[i].spec_level(level)) as int == b,
    ensures
        count_level(s, level, b) == s.len(),
    decreases s.len(),
{
    if s.len() > 0 {
        lemma_count_level_all(s.drop_last(), level, b);
    }
}

/// A sequence that carries byte `b` nowhere has count 0 for `b`.
pub proof fn lemma_count_level_none<T: RadixKey>(s: Seq<T>, level: int, b: int)
    requires
        forall|i: int| 0 <= i < s.len() ==> (#[trigger] s[i].spec_level(level)) as int != b,
    ensures
        count_level(s, level, b) == 0,
    decreases s.len(),
{
    if s.len() > 0 {
        lemma_count_level_none(s.drop_last(), level, b);
    }
}

/// A position carrying byte `b` pushes the count of `b` to at least one.
pub proof fn lemma_count_level_pos<T: RadixKey>(s: Seq<T>, level: int, b: int, i: int)
    requires
        0 <= i < s.len(),
        s[i].spec_level(level) as int == b,
    ensures
        count_level(s, level, b) >= 1,
{
    assert(s =~= s.subrange(0, i) + s.subrange(i, i + 1) + s.subrange(i + 1, s.len() as int));
    lemma_filter_level_add(
        s.subrange(0, i) + s.subrange(i, i + 1),
        s.subrange(i + 1, s.len() as int),
        level,
        b,
    );
    lemma_filter_level_add(s.subrange(0, i), s.subrange(i, i + 1), level, b);
    lemma_count_level_all(s.subrange(i, i + 1), level, b);
    lemma_count_level_le_len(s.subrange(0, i), level, b);
    lemma_count_level_le_len(s.subrange(i + 1, s.len() as int), level, b);
}

/// Splitting a sequence splits each count.
pub proof fn lemma_count_level_split<T: RadixKey>(s: Seq<T>, level: int, b: int, mid: int)
    requires
        0 <= mid <= s.len(),
    ensures
        count_level(s, level, b) == count_level(s.subrange(0, mid), level, b) + count_level(
            s.subrange(mid, s.len() as int),
            level,
            b,
        ),
{
    assert(s =~= s.subrange(0, mid) + s.subrange(mid, s.len() as int));
    lemma_filter_level_add(s.subrange(0, mid), s.subrange(mid, s.len() as int), level, b);
}

/// The counts of all 256 bytes add up to the sequence length.
pub proof fn lemma_count_below_all<T: RadixKey>(s: Seq<T>, level: int)
    ensures
        count_below(s, level, 256) == s.len(),
{
    lemma_count_below_partial(s, level, 256);
    lemma_filter_below_full(s, level, 256);
}

/// The first `b` counts add up to the number of elements whose byte lies
/// below `b`; with `b` at 256 that is every element.
pub proof fn lemma_count_below_partial<T: RadixKey>(s: Seq<T>, level: int, b: int)
    requires
        0 <= b <= 256,
    ensures
        count_below(s, level, b) == filter_below(s, level, b).len(),
    decreases b,
{
    if b > 0 {
        lemma_count_below_partial(s, level, b - 1);
        lemma_filter_below_step(s, level, b);
    } else {
        lemma_filter_below_empty(s, level, b);
    }
}

/// With the bound at zero, everything is filtered away.
pub proof fn lemma_filter_below_empty<T: RadixKey>(s: Seq<T>, level: int, b: int)
    requires
        b <= 0,
    ensures
        filter_below(s, level, b).len() == 0,
    decreases s.len(),
{
    if s.len() > 0 {
        lemma_filter_below_empty(s.drop_last(), level, b);
    }
}

/// The subsequence of `s` whose byte at `level` lies strictly below `b`.
pub open spec fn filter_below<T: RadixKey>(s: Seq<T>, level: int, b: int) -> Seq<T>
    decreases s.len(),
{
    if s.len() == 0 {
        Seq::empty()
    } else {
        let rest = filter_below(s.drop_last(), level, b);
        if (s.last().spec_level(level) as int) < b {
            rest.push(s.last())
        } else {
            rest
        }
    }
}

/// Raising the bound by one admits exactly the elements carrying the new
/// byte.
pub proof fn lemma_filter_below_step<T: RadixKey>(s: Seq<T>, level: int, b: int)
    requires
        b >= 1,
    ensures
        filter_below(s, level, b).len() == filter_below(s, level, b - 1).len() + count_level(
            s,
            level,
            b - 1,
        ),
    decreases s.len(),
{
    if s.len() > 0 {
        lemma_filter_below_step(s.drop_last(), level, b);
    }
}

/// With the bound above every byte, nothing is filtered away.
pub proof fn lemma_filter_below_full<T: RadixKey>(s: Seq<T>, level: int, b: int)
    requires
        b >= 256,
    ensures
        filter_below(s, level, b).len() == s.len(),
    decreases s.len(),
{
    if s.len() > 0 {
        lemma_filter_below_full(s.drop_last(), level, b);
    }
}

/// When a histogram matches a sequence, its partial sums are the
/// `count_below` values of the sequence.
pub proof fn lemma_sum_prefix_counts<T: RadixKey>(c: Seq<usize>, s: Seq<T>, level: int, b: int)
    requires
        is_histogram(c, s, level),
        0 <= b <= 256,
    ensures
        sum_prefix(c, b) == count_below(s, level, b),
    decreases b,
{
    if b > 0 {
        lemma_sum_prefix_counts(c, s, level, b - 1);
    }
}

/// A histogram's slots add up to the length of the sequence it counts.
pub proof fn lemma_histogram_sums_to_len<T: RadixKey>(c: Seq<usize>, s: Seq<T>, level: int)
    requires
        is_histogram(c, s, level),
    ensures
        sum_prefix(c, 256) == s.len(),
{
    lemma_sum_prefix_counts(c, s, level, 256);
    lemma_count_below_all(s, level);
}

/// `count_below` grows with its bound.
pub proof fn lemma_count_below_mono<T: RadixKey>(s: Seq<T>, level: int, b1: int, b2: int)
    requires
        0 <= b1 <= b2,
    ensures
        count_below(s, level, b1) <= count_below(s, level, b2),
    decreases b2 - b1,
{
    if b1 < b2 {
        lemma_count_below_mono(s, level, b1, b2 - 1);
        lemma_count_level_le_len(s, level, b2 - 1);
    }
}

/// `count_below` at any bound stays within the sequence length.
pub proof fn lemma_count_below_le_len<T: RadixKey>(s: Seq<T>, level: int, b: int)
    requires
        0 <= b <= 256,
    ensures
        0 <= count_below(s, level, b) <= s.len(),
{
    lemma_count_below_mono(s, level, 0, b);
    lemma_count_below_mono(s, level, b, 256);
    lemma_count_below_all(s, level);
}

/// `d` is `s` rearranged so that each byte's region, as the counts of `s`
/// lay the regions out, holds only elements carrying that byte. Unlike
/// `scattered` nothing is said about the order within a region.
pub open spec fn byte_partitioned<T: RadixKey>(s: Seq<T>, d: Seq<T>, level: int) -> bool {
    &&& d.len() == s.len()
    &&& forall|b: int, k: int|
        #![trigger d[k], count_below(s, level, b)]
        0 <= b < 256 && count_below(s, level, b) <= k < count_below(s, level, b) + count_level(
            s,
            level,
            b,
        ) ==> d[k].spec_level(level) as int == b
}

/// A run of positions all carrying byte `b`, plus one more position with
/// `b` outside the run, force the count of `b` above the run's length.
pub proof fn lemma_count_level_lower<T: RadixKey>(
    s: Seq<T>,
    level: int,
    b: int,
    a: int,
    c: int,
    i: int,
)
    requires
        0 <= a <= c <= s.len(),
        forall|k: int| a <= k < c ==> (#[trigger] s[k].spec_level(level)) as int == b,
        0 <= i < s.len(),
        i < a || i >= c,
        s[i].spec_level(level) as int == b,
    ensures
        count_level(s, level, b) >= c - a + 1,
{
    assert(s =~= s.subrange(0, a) + s.subrange(a, c) + s.subrange(c, s.len() as int));
    lemma_filter_level_add(s.subrange(0, a) + s.subrange(a, c), s.subrange(c, s.len() as int), level, b);
    lemma_filter_level_add(s.subrange(0, a), s.subrange(a, c), level, b);
    lemma_count_level_all(s.subrange(a, c), level, b);
    lemma_count_level_le_len(s.subrange(0, a), level, b);
    lemma_count_level_le_len(s.subrange(c, s.len() as int), level, b);
    if i < a {
        lemma_count_level_pos(s.subrange(0, a), level, b, i);
    } else {
        lemma_count_level_pos(s.subrange(c, s.len() as int), level, b, i - c);
    }
}

/// When one byte's count covers the whole sequence, every element carries
/// that byte.
pub proof fn lemma_count_level_full<T: RadixKey>(s: Seq<T>, level: int, b: int, i: int)
    requires
        0 <= b < 256,
        count_level(s, level, b) == s.len(),
        0 <= i < s.len(),
    ensures
        s[i].spec_level(level) as int == b,
{
    let b2 = s[i].spec_level(level) as int;
    if b2 != b {
        lemma_count_level_pos(s, level, b2, i);
        lemma_count_below_all(s, level);
        if b2 < b {
            lemma_count_below_mono(s, level, 0, b2);
            lemma_count_below_mono(s, level, b2 + 1, b);
            lemma_count_below_mono(s, level, b + 1, 256);
        } else {
            lemma_count_below_mono(s, level, 0, b);
            lemma_count_below_mono(s, level, b + 1, b2);
            lemma_count_below_mono(s, level, b2 + 1, 256);
        }
        assert(false);
    }
}

/// Swapping two positions leaves the multiset of the sequence unchanged.
pub proof fn lemma_swap_multiset<T>(s: Seq<T>, i: int, j: int)
    requires
        0 <= i < s.len(),
        0 <= j < s.len(),
    ensures
        s.update(j, s[i]).update(i, s[j]).to_multiset() == s.to_multiset(),
{
    broadcast use vstd::seq_lib::group_to_multiset_ensures;
    broadcast use vstd::seq_lib::to_multiset_update;
    broadcast use vstd::multiset::group_multiset_axioms;

    let s1 = s.update(j, s[i]);
    let s2 = s1.update(i, s[j]);
    assert(s1.to_multiset() == s.to_multiset().remove(s[j]).insert(s[i]));
    assert(s2.to_multiset() == s1.to_multiset().remove(s1[i]).insert(s[j]));
    if i == j {
        assert(s2 =~= s);
        assert(s2.to_multiset() =~= s.to_multiset());
    } else {
        assert(s1[i] == s[i]);
        assert(s.to_multiset().contains(s[j])) by {
            to_multiset_contains_index(s, j);
        }
        assert(s.to_multiset().remove(s[j]).insert(s[i]).remove(s[i]).insert(s[j])
            =~= s.to_multiset());
    }
}

/// A sequence's multiset contains the element at any valid index.
proof fn to_multiset_contains_index<T>(s: Seq<T>, i: int)
    requires
        0 <= i < s.len(),
    ensures
        s.to_multiset().contains(s[i]),
{
    broadcast use vstd::seq_lib::group_to_multiset_ensures;

    assert(s.contains(s[i]));
}

/// A sequence whose byte is constant at every level of `[0, level]` is
/// sorted under those levels, whatever its order.
pub proof fn lemma_constant_range_sorted<T: RadixKey>(s: Seq<T>, level: int)
    requires
        0 <= level,
        forall|l2: int| 0 <= l2 <= level ==> constant_at(s, l2),
    ensures
        sorted_between(s, level, 0),
    decreases level,
{
    if level == 0 {
        lemma_constant_at_lift(s, 0, 0);
    } else {
        lemma_constant_range_sorted(s, level - 1);
        lemma_constant_at_lift(s, level, 0);
    }
}

/// Sortedness under `[0, lvl]` lifts to `[0, hi_lvl]` when every level in
/// between carries a constant byte.
pub proof fn lemma_constant_lift_range<T: RadixKey>(d: Seq<T>, hi_lvl: int, lvl: int)
    requires
        0 <= lvl <= hi_lvl,
        sorted_between(d, lvl, 0),
        forall|l2: int| lvl < l2 <= hi_lvl ==> constant_at(d, l2),
    ensures
        sorted_between(d, hi_lvl, 0),
    decreases hi_lvl - lvl,
{
    if hi_lvl > lvl {
        lemma_constant_lift_range(d, hi_lvl - 1, lvl);
        lemma_constant_at_lift(d, hi_lvl, 0);
    }
}

/// A byte carried by every element survives any permutation.
pub proof fn lemma_uniform_byte_multiset<T: RadixKey>(s: Seq<T>, d: Seq<T>, level: int, b: int)
    requires
        0 <= b < 256,
        forall|i: int| 0 <= i < s.len() ==> (#[trigger] s[i].spec_level(level)) as int == b,
        d.to_multiset() == s.to_multiset(),
    ensures
        forall|i: int| 0 <= i < d.len() ==> (#[trigger] d[i].spec_level(level)) as int == b,
{
    broadcast use vstd::seq_lib::group_to_multiset_ensures;

    lemma_count_level_all(s, level, b);
    lemma_count_level_multiset(s, d, level, b);
    assert(s.to_multiset().len() == s.len());
    assert(d.to_multiset().len() == d.len());
    assert forall|i: int| 0 <= i < d.len() implies (#[trigger] d[i].spec_level(level)) as int
        == b by {
        lemma_count_level_full(d, level, b, i);
    }
}

/// Sequences of at most one element with equal multisets are equal.
pub proof fn lemma_short_multiset_eq<T>(s: Seq<T>, d: Seq<T>)
    requires
        s.len() <= 1,
        d.to_multiset() == s.to_multiset(),
    ensures
        d == s,
{
    broadcast use vstd::seq_lib::group_to_multiset_ensures;

    assert(s.to_multiset().len() == s.len());
    assert(d.to_multiset().len() == d.len());
    if s.len() == 0 {
        assert(d =~= s);
    } else {
        assert(d.contains(d[0]));
        assert(s.to_multiset().count(d[0]) > 0);
        assert(s.contains(d[0]));
        assert(d =~= s);
    }
}

/// Replacing a middle slice of a range by a permutation of itself leaves
/// the range's multiset unchanged.
pub proof fn lemma_subrange_ms_patch<T>(d1: Seq<T>, d2: Seq<T>, lo: int, a: int, b: int, hi: int)
    requires
        0 <= lo <= a <= b <= hi <= d1.len(),
        d1.len() == d2.len(),
        forall|q: int| lo <= q < a ==> #[trigger] d2[q] == d1[q],
        forall|q: int| b <= q < hi ==> #[trigger] d2[q] == d1[q],
        d2.subrange(a, b).to_multiset() == d1.subrange(a, b).to_multiset(),
    ensures
        d2.subrange(lo, hi).to_multiset() == d1.subrange(lo, hi).to_multiset(),
{
    broadcast use vstd::seq_lib::lemma_multiset_commutative;

    assert(d1.subrange(lo, hi) =~= d1.subrange(lo, a) + d1.subrange(a, b) + d1.subrange(b, hi));
    assert(d2.subrange(lo, hi) =~= d2.subrange(lo, a) + d2.subrange(a, b) + d2.subrange(b, hi));
    assert(d2.subrange(lo, a) =~= d1.subrange(lo, a));
    assert(d2.subrange(b, hi) =~= d1.subrange(b, hi));
}

/// Adjacent monotonicity of bytes extends to any pair of positions.
pub proof fn lemma_level_sorted_pairwise<T: RadixKey>(s: Seq<T>, level: int, i: int, j: int)
    requires
        level_sorted(s, level),
        0 <= i <= j < s.len(),
    ensures
        s[i].spec_level(level) <= s[j].spec_level(level),
    decreases j - i,
{
    if i < j {
        lemma_level_sorted_pairwise(s, level, i, j - 1);
    }
}

/// A sequence already byte-sorted at `level` that is sorted under the
/// levels below is sorted with `level` included.
pub proof fn lemma_level_sorted_lift<T: RadixKey>(s: Seq<T>, level: int, lo_lvl: int)
    requires
        0 <= lo_lvl <= level,
        level_sorted(s, level),
        level > lo_lvl ==> sorted_between(s, level - 1, lo_lvl),
    ensures
        sorted_between(s, level, lo_lvl),
{
    assert forall|i: int, j: int| 0 <= i < j < s.len() implies #[trigger] key_le_range(
        s[i],
        s[j],
        level,
        lo_lvl,
    ) by {
        lemma_level_sorted_pairwise(s, level, i, j);
        if s[i].spec_level(level) < s[j].spec_level(level) {
            crate::radix_key::lemma_key_le_by_byte(s[i], s[j], level, lo_lvl);
        } else {
            if level > lo_lvl {
                crate::radix_key::lemma_key_le_step(s[i], s[j], level, lo_lvl);
            }
        }
    }
}

/// Every element of `s` carries the same byte at `level`.
pub open spec fn constant_at<T: RadixKey>(s: Seq<T>, level: int) -> bool {
    forall|i: int|
        0 <= i < s.len() ==> (#[trigger] s[i].spec_level(level)) == s[0].spec_level(level)
}

/// With a constant byte at `level`, sortedness under the levels below
/// lifts over `level`.
pub proof fn lemma_constant_at_lift<T: RadixKey>(s: Seq<T>, level: int, lo_lvl: int)
    requires
        0 <= lo_lvl <= level,
        constant_at(s, level),
        level > lo_lvl ==> sorted_between(s, level - 1, lo_lvl),
    ensures
        sorted_between(s, level, lo_lvl),
{
    assert(level_sorted(s, level));
    lemma_level_sorted_lift(s, level, lo_lvl);
}

/// A byte that is constant across a sequence is constant across any
/// permutation of it.
pub proof fn lemma_constant_at_multiset<T: RadixKey>(s: Seq<T>, d: Seq<T>, level: int)
    requires
        constant_at(s, level),
        d.to_multiset() == s.to_multiset(),
    ensures
        constant_at(d, level),
{
    if s.len() > 0 {
        broadcast use vstd::seq_lib::group_to_multiset_ensures;

        let c = s[0].spec_level(level) as int;
        lemma_count_level_all(s, level, c);
        lemma_count_level_multiset(s, d, level, c);
        assert(s.to_multiset().len() == s.len());
        assert(d.to_multiset().len() == d.len());
        assert(d.len() == s.len());
        assert forall|i: int| 0 <= i < d.len() implies (#[trigger] d[i].spec_level(level))
            == d[0].spec_level(level) by {
            lemma_count_level_full(d, level, c, i);
            lemma_count_level_full(d, level, c, 0);
        }
    } else {
        broadcast use vstd::seq_lib::group_to_multiset_ensures;

        assert(s.to_multiset().len() == s.len());
        assert(d.to_multiset().len() == d.len());
    }
}

/// Non-decreasing adjacent bytes with equal first and last byte force the
/// byte to be constant.
pub proof fn lemma_homogeneous<T: RadixKey>(s: Seq<T>, level: int)
    requires
        level_sorted(s, level),
        s.len() > 0 ==> s[0].spec_level(level) == s[s.len() - 1].spec_level(level),
    ensures
        constant_at(s, level),
{
    assert forall|i: int| 0 <= i < s.len() implies (#[trigger] s[i].spec_level(level)) == s[
    0].spec_level(level) by {
        lemma_level_sorted_pairwise(s, level, 0, i);
        lemma_level_sorted_pairwise(s, level, i, s.len() - 1);
    }
}

/// A partition whose regions are each sorted under the levels below is
/// sorted with the partitioning level included.
pub proof fn lemma_partitioned_sorted<T: RadixKey>(s: Seq<T>, d: Seq<T>, level: int, lo_lvl: int)
    requires
        0 <= lo_lvl <= level,
        byte_partitioned(s, d, level),
        forall|b: int|
            0 <= b < 256 && level > lo_lvl ==> sorted_between(
                #[trigger] d.subrange(
                    count_below(s, level, b),
                    count_below(s, level, b) + count_level(s, level, b),
                ),
                level - 1,
                lo_lvl,
            ),
    ensures
        sorted_between(d, level, lo_lvl),
{
    assert forall|i: int, j: int| 0 <= i < j < d.len() implies #[trigger] key_le_range(
        d[i],
        d[j],
        level,
        lo_lvl,
    ) by {
        let bi = find_class(s, level, i);
        let bj = find_class(s, level, j);
        assert(d[i].spec_level(level) as int == bi);
        assert(d[j].spec_level(level) as int == bj);
        if bi > bj {
            lemma_count_below_mono(s, level, bj + 1, bi);
            assert(false);
        }
        if bi < bj {
            crate::radix_key::lemma_key_le_by_byte(d[i], d[j], level, lo_lvl);
        } else {
            if level > lo_lvl {
                let r = d.subrange(
                    count_below(s, level, bi),
                    count_below(s, level, bi) + count_level(s, level, bi),
                );
                lemma_count_below_le_len(s, level, bi);
                lemma_count_below_le_len(s, level, bi + 1);
                assert(count_below(s, level, bi) + count_level(s, level, bi) == count_below(
                    s,
                    level,
                    bi + 1,
                ));
                assert(r[i - count_below(s, level, bi)] == d[i]);
                assert(r[j - count_below(s, level, bi)] == d[j]);
                assert(key_le_range(d[i], d[j], level - 1, lo_lvl));
                crate::radix_key::lemma_key_le_step(d[i], d[j], level, lo_lvl);
            } else {
                assert(key_le_range(d[i], d[j], level, lo_lvl));
            }
        }
    }
}

/// Two sequences with the same multiset have the same byte counts.
pub proof fn lemma_count_level_multiset<T: RadixKey>(s1: Seq<T>, s2: Seq<T>, level: int, b: int)
    requires
        s1.to_multiset() == s2.to_multiset(),
    ensures
        count_level(s1, level, b) == count_level(s2, level, b),
{
    lemma_count_level_as_multiset(s1, level, b);
    lemma_count_level_as_multiset(s2, level, b);
}

/// The predicate "carries byte `b` at `level`", as a value.
pub open spec fn level_pred<T: RadixKey>(level: int, b: int) -> spec_fn(T) -> bool {
    |x: T| x.spec_level(level) as int == b
}

/// A byte count is a function of the multiset alone.
pub proof fn lemma_count_level_as_multiset<T: RadixKey>(s: Seq<T>, level: int, b: int)
    ensures
        count_level(s, level, b) == s.to_multiset().filter(level_pred(level, b)).len(),
    decreases s.len(),
{
    broadcast use vstd::seq_lib::group_to_multiset_ensures;
    broadcast use vstd::multiset::group_multiset_axioms;
    broadcast use vstd::multiset::group_multiset_properties;

    if s.len() == 0 {
        assert(s.to_multiset().filter(level_pred(level, b)) =~= Multiset::<T>::empty());
    } else {
        let q = s.drop_last();
        let x = s.last();
        lemma_count_level_as_multiset(q, level, b);
        assert(q.push(x) =~= s);
        assert(s.to_multiset() =~= q.to_multiset().insert(x));
        if level_pred::<T>(level, b)(x) {
            assert(s.to_multiset().filter(level_pred(level, b)) =~= q.to_multiset().filter(
                level_pred(level, b),
            ).insert(x));
            lemma_filter_level_push(q, level, b, x);
        } else {
            assert(s.to_multiset().filter(level_pred(level, b)) =~= q.to_multiset().filter(
                level_pred(level, b),
            ));
            lemma_filter_level_push(q, level, b, x);
        }
    }
}

/// A 256-slot histogram. One object serves three roles: per-byte counts,
/// exclusive prefix sums, and end offsets (one past the end of each byte's
/// region).
pub struct Counts {
    data: Vec<usize>,
}

impl View for Counts {
    type V = Seq<usize>;

    closed spec fn view(&self) -> Seq<usize> {
        self.data@
    }
}

/// Prefix sums are held in a recycled `Counts` object.
pub type PrefixSums = Counts;

/// End offsets are held in a recycled `Counts` object.
pub type EndOffsets = Counts;

impl Counts {
    /// The histogram has exactly one slot per byte value.
    pub open spec fn wf(&self) -> bool {
        self@.len() == 256
    }

    /// Every slot is zero.
    pub open spec fn zeroed(&self) -> bool {
        forall|i: int| 0 <= i < self@.len() ==> self@[i] == 0
    }

    /// A fresh, zeroed histogram.
    pub fn new() -> (r: Counts)
        ensures
            r.wf(),
            r.zeroed(),
    {
        Counts { data: vec![0usize; 256] }
    }

    /// Reset every slot to zero.
    pub fn clear(&mut self)
        requires
            old(self).wf(),
        ensures
            final(self).wf(),
            final(self).zeroed(),
    {
        let mut i: usize = 0;
        while i < 256
            invariant
                self.wf(),
                i <= 256,
                forall|k: int| 0 <= k < i ==> self@[k] == 0,
            decreases 256 - i,
        {
            self.data[i] = 0;
            i += 1;
        }
    }

    /// Read one slot.
    pub fn get(&self, i: usize) -> (r: usize)
        requires
            self.wf(),
            i < 256,
        ensures
            r == self@[i as int],
    {
        self.data[i]
    }

    /// Overwrite one slot.
    pub fn set(&mut self, i: usize, v: usize)
        requires
            old(self).wf(),
            i < 256,
        ensures
            final(self)@ == old(self)@.update(i as int, v),
    {
        self.data[i] = v;
    }

    /// Add one to a slot.
    pub fn inc(&mut self, i: usize)
        requires
            old(self).wf(),
            i < 256,
            old(self)@[i as int] < usize::MAX,
        ensures
            final(self)@ == old(self)@.update(i as int, (old(self)@[i as int] + 1) as usize),
    {
        let v = self.data[i];
        self.data[i] = v + 1;
    }

    /// The raw slots.
    pub fn inner(&self) -> (r: &Vec<usize>)
        ensures
            r@ == self@,
    {
        &self.data
    }
}

/// The summary a counting pass produces besides the histogram: the first
/// and last byte seen, and whether the byte sequence at this level was
/// already non-decreasing.
#[derive(Clone, Copy)]
pub struct CountMeta {
    pub first: u8,
    pub last: u8,
    pub already_sorted: bool,
}

/// A fan-out scratch histogram with four accumulator lanes per byte, used
/// to relax the write-dependency chain of the dense counting loop.
pub struct Counter {
    data: Vec<usize>,
}

impl View for Counter {
    type V = Seq<usize>;

    closed spec fn view(&self) -> Seq<usize> {
        self.data@
    }
}

/// The four accumulator lanes of byte `b` added together.
pub open spec fn lane_sum(c: Seq<usize>, b: int) -> int {
    c[4 * b] + c[4 * b + 1] + c[4 * b + 2] + c[4 * b + 3]
}

impl Counter {
    /// Four lanes for each of the 256 byte values.
    pub open spec fn wf(&self) -> bool {
        self@.len() == 1024
    }

    /// A fresh, zeroed scratch counter.
    pub fn new() -> (r: Counter)
        ensures
            r.wf(),
            forall|k: int| 0 <= k < 1024 ==> r@[k] == 0,
    {
        Counter { data: vec![0usize; 1024] }
    }

    /// Reset every lane to zero.
    pub fn clear(&mut self)
        requires
            old(self).wf(),
        ensures
            final(self).wf(),
            forall|k: int| 0 <= k < 1024 ==> final(self)@[k] == 0,
    {
        let mut i: usize = 0;
        while i < 1024
            invariant
                self.wf(),
                i <= 1024,
                forall|k: int| 0 <= k < i ==> self@[k] == 0,
            decreases 1024 - i,
        {
            self.data[i] = 0;
            i += 1;
        }
    }

    /// Add one to the lane at `idx`.
    fn lane_inc(&mut self, idx: usize)
        requires
            old(self).wf(),
            idx < 1024,
            old(self)@[idx as int] < usize::MAX,
        ensures
            final(self)@ == old(self)@.update(idx as int, (old(self)@[idx as int] + 1) as usize),
    {
        let v = self.data[idx];
        self.data[idx] = v + 1;
    }
}

impl Counter {
    /// Count the bytes of `bucket[lo..hi]` at `level` into `counts`, and
    /// record in `meta` the first and last byte and whether the byte
    /// sequence was already non-decreasing.
    ///
    /// The pass counts element by element while the bytes stay ordered;
    /// once an out-of-order step is found it switches to a four-lane
    /// chunked loop and folds the lanes into `counts` at the end.
    pub fn count_into<T: RadixKey>(
        &mut self,
        counts: &mut Counts,
        meta: &mut CountMeta,
        bucket: &Vec<T>,
        lo: usize,
        hi: usize,
        level: usize,
    )
        requires
            old(self).wf(),
            old(counts).wf(),
            lo <= hi <= bucket.len(),
            level < T::spec_levels(),
        ensures
            final(self).wf(),
            final(counts).wf(),
            is_histogram(
                final(counts)@,
                bucket@.subrange(lo as int, hi as int),
                level as int,
            ),
            final(meta).already_sorted == level_sorted(
                bucket@.subrange(lo as int, hi as int),
                level as int,
            ),
            hi > lo ==> final(meta).first == bucket@[lo as int].spec_level(level as int)
                && final(meta).last == bucket@[hi - 1].spec_level(level as int),
            hi == lo ==> final(meta).first == 0 && final(meta).last == 0,
    {
        let ghost s = bucket@.subrange(lo as int, hi as int);
        self.clear();
        counts.clear();

        if hi == lo {
            meta.first = 0;
            meta.last = 0;
            meta.already_sorted = true;
            proof {
                assert(forall|b: int| 0 <= b < 256 ==> count_level(s, level as int, b) == 0);
            }
            return;
        }
        if hi - lo == 1 {
            let b = bucket[lo].get_level(level);
            counts.set(b as usize, 1);
            meta.first = b;
            meta.last = b;
            meta.already_sorted = true;
            proof {
                assert(s =~= Seq::empty().push(bucket@[lo as int]));
                assert forall|bb: int| 0 <= bb < 256 implies counts@[bb] as int == count_level(
                    s,
                    level as int,
                    bb,
                ) by {
                    lemma_filter_level_push(Seq::empty(), level as int, bb, bucket@[lo as int]);
                }
            }
            return;
        }

        let first = bucket[lo].get_level(level);
        let last = bucket[hi - 1].get_level(level);

        let mut i: usize = lo;
        let mut prev: u8 = 0;
        let mut sorted = true;
        while i < hi
            invariant_except_break
                sorted,
                lo <= i <= hi,
                hi <= bucket.len(),
                lo < hi,
                level < T::spec_levels(),
                counts.wf(),
                self.wf(),
                forall|k: int| 0 <= k < 1024 ==> self@[k] == 0,
                forall|b: int|
                    0 <= b < 256 ==> (#[trigger] counts@[b]) as int == count_level(
                        bucket@.subrange(lo as int, i as int),
                        level as int,
                        b,
                    ),
                i > lo ==> prev == bucket@[i - 1].spec_level(level as int),
                i == lo ==> prev == 0,
                forall|k: int|
                    lo <= k < i - 1 ==> (#[trigger] bucket@[k].spec_level(level as int))
                        <= bucket@[k + 1].spec_level(level as int),
            ensures
                lo <= i <= hi,
                counts.wf(),
                self.wf(),
                forall|k: int| 0 <= k < 1024 ==> self@[k] == 0,
                forall|b: int|
                    0 <= b < 256 ==> (#[trigger] counts@[b]) as int == count_level(
                        bucket@.subrange(lo as int, i as int),
                        level as int,
                        b,
                    ),
                sorted ==> i == hi,
                sorted ==> forall|k: int|
                    lo <= k < i - 1 ==> (#[trigger] bucket@[k].spec_level(level as int))
                        <= bucket@[k + 1].spec_level(level as int),
                !sorted ==> exists|k: int|
                    lo <= k < hi - 1 && (#[trigger] bucket@[k + 1].spec_level(level as int))
                        < bucket@[k].spec_level(level as int),
            decreases hi - i,
        {
            let b = bucket[i].get_level(level);
            proof {
                lemma_count_level_le_len(
                    bucket@.subrange(lo as int, i as int),
                    level as int,
                    b as int,
                );
                lemma_count_prefix_extend(bucket@, lo as int, i as int, level as int);
            }
            counts.inc(b as usize);
            i += 1;
            if b < prev {
                sorted = false;
                proof {
                    assert(bucket@[i - 1].spec_level(level as int) < bucket@[i - 2].spec_level(
                        level as int,
                    ));
                }
                break;
            }
            prev = b;
        }

        if sorted {
            meta.first = first;
            meta.last = last;
            meta.already_sorted = true;
            proof {
                assert(level_sorted(s, level as int)) by {
                    assert(forall|k: int|
                        0 <= k < s.len() - 1 ==> (#[trigger] s[k]) == bucket@[lo + k] && s[k + 1]
                            == bucket@[lo + k + 1]);
                }
            }
            return;
        }

        let mut j: usize = i;
        while hi - j >= 4
            invariant
                lo <= i <= j <= hi,
                hi <= bucket.len(),
                lo < hi,
                level < T::spec_levels(),
                counts.wf(),
                self.wf(),
                forall|b: int|
                    0 <= b < 256 ==> (#[trigger] counts@[b]) + lane_sum(self@, b) == count_level(
                        bucket@.subrange(lo as int, j as int),
                        level as int,
                        b,
                    ),
                forall|k: int| 0 <= k < 1024 ==> (#[trigger] self@[k]) <= j - i,
            decreases hi - j,
        {
            let b0 = bucket[j].get_level(level);
            let b1 = bucket[j + 1].get_level(level);
            let b2 = bucket[j + 2].get_level(level);
            let b3 = bucket[j + 3].get_level(level);

            let ghost c0 = self@;
            self.lane_inc(b0 as usize * 4);
            let ghost c1 = self@;
            self.lane_inc(1 + b1 as usize * 4);
            let ghost c2 = self@;
            self.lane_inc(2 + b2 as usize * 4);
            let ghost c3 = self@;
            self.lane_inc(3 + b3 as usize * 4);
            let ghost c4 = self@;

            proof {
                lemma_lane_sum_update(c0, c1, b0 as int, 0);
                lemma_lane_sum_update(c1, c2, b1 as int, 1);
                lemma_lane_sum_update(c2, c3, b2 as int, 2);
                lemma_lane_sum_update(c3, c4, b3 as int, 3);
                lemma_count_prefix_extend4(bucket@, lo as int, j as int, level as int);
                assert forall|b: int| 0 <= b < 256 implies counts@[b] + lane_sum(self@, b)
                    == count_level(
                    bucket@.subrange(lo as int, j + 4),
                    level as int,
                    b,
                ) by {
                    assert(lane_sum(c4, b) == lane_sum(c0, b) + (if b == b0 as int {
                        1int
                    } else {
                        0int
                    }) + (if b == b1 as int {
                        1int
                    } else {
                        0int
                    }) + (if b == b2 as int {
                        1int
                    } else {
                        0int
                    }) + (if b == b3 as int {
                        1int
                    } else {
                        0int
                    }));
                    assert(counts@[b] + lane_sum(c0, b) == count_level(
                        bucket@.subrange(lo as int, j as int),
                        level as int,
                        b,
                    ));
                }
            }
            j += 4;
        }

        while j < hi
            invariant
                lo <= i <= j <= hi,
                hi <= bucket.len(),
                lo < hi,
                level < T::spec_levels(),
                counts.wf(),
                self.wf(),
                forall|b: int|
                    0 <= b < 256 ==> (#[trigger] counts@[b]) + lane_sum(self@, b) == count_level(
                        bucket@.subrange(lo as int, j as int),
                        level as int,
                        b,
                    ),
                forall|k: int| 0 <= k < 1024 ==> (#[trigger] self@[k]) <= j - i,
            decreases hi - j,
        {
            let b = bucket[j].get_level(level);
            proof {
                lemma_count_prefix_extend(bucket@, lo as int, j as int, level as int);
                lemma_count_level_le_len(
                    bucket@.subrange(lo as int, j as int),
                    level as int,
                    b as int,
                );
                assert(lane_sum(self@, b as int) >= 0);
            }
            counts.inc(b as usize);
            j += 1;
        }

        let mut b: usize = 0;
        while b < 256
            invariant
                b <= 256,
                lo < hi <= bucket.len(),
                counts.wf(),
                self.wf(),
                forall|bb: int|
                    0 <= bb < b ==> (#[trigger] counts@[bb]) as int == count_level(
                        bucket@.subrange(lo as int, hi as int),
                        level as int,
                        bb,
                    ),
                forall|bb: int|
                    b <= bb < 256 ==> (#[trigger] counts@[bb]) + lane_sum(self@, bb)
                        == count_level(
                        bucket@.subrange(lo as int, hi as int),
                        level as int,
                        bb,
                    ),
            decreases 256 - b,
        {
            proof {
                lemma_count_level_le_len(
                    bucket@.subrange(lo as int, hi as int),
                    level as int,
                    b as int,
                );
            }
            let a0 = self.data[4 * b];
            let a1 = self.data[4 * b + 1];
            let a2 = self.data[4 * b + 2];
            let a3 = self.data[4 * b + 3];
            let c = counts.get(b);
            counts.set(b, c + a0 + a1 + a2 + a3);
            b += 1;
        }

        meta.first = first;
        meta.last = last;
        meta.already_sorted = false;
        proof {
            let k = choose|k: int|
                lo <= k < hi - 1 && (#[trigger] bucket@[k + 1].spec_level(level as int))
                    < bucket@[k].spec_level(level as int);
            assert(s[k - lo] == bucket@[k]);
            assert(s[k - lo + 1] == bucket@[k + 1]);
            assert(!level_sorted(s, level as int));
        }
    }
}

/// Bumping one lane of byte `byte` raises that byte's lane sum by one and
/// leaves every other lane sum unchanged.
proof fn lemma_lane_sum_update(c: Seq<usize>, d: Seq<usize>, byte: int, lane: int)
    requires
        c.len() == 1024,
        0 <= byte < 256,
        0 <= lane < 4,
        c[4 * byte + lane] < usize::MAX,
        d == c.update(4 * byte + lane, (c[4 * byte + lane] + 1) as usize),
    ensures
        forall|b: int|
            0 <= b < 256 ==> #[trigger] lane_sum(d, b) == lane_sum(c, b) + if b == byte {
                1int
            } else {
                0int
            },
{
}

/// Extending a counted prefix by one element raises exactly that element's
/// byte count.
pub proof fn lemma_count_prefix_extend<T: RadixKey>(s: Seq<T>, lo: int, j: int, level: int)
    requires
        0 <= lo <= j < s.len(),
    ensures
        forall|b: int|
            #[trigger] count_level(s.subrange(lo, j + 1), level, b) == count_level(
                s.subrange(lo, j),
                level,
                b,
            ) + if s[j].spec_level(level) as int == b {
                1int
            } else {
                0int
            },
{
    assert(s.subrange(lo, j + 1) =~= s.subrange(lo, j).push(s[j]));
    assert forall|b: int|
        #[trigger] count_level(s.subrange(lo, j + 1), level, b) == count_level(
            s.subrange(lo, j),
            level,
            b,
        ) + if s[j].spec_level(level) as int == b {
            1int
        } else {
            0int
        } by {
        lemma_filter_level_push(s.subrange(lo, j), level, b, s[j]);
    }
}

/// Partial histogram sums grow with the bound.
pub proof fn lemma_sum_prefix_mono(c: Seq<usize>, b1: int, b2: int)
    requires
        c.len() == 256,
        0 <= b1 <= b2 <= 256,
    ensures
        sum_prefix(c, b1) <= sum_prefix(c, b2),
    decreases b2 - b1,
{
    if b1 < b2 {
        lemma_sum_prefix_mono(c, b1, b2 - 1);
    }
}

/// Allocates, recycles and lends `Counts` objects, and derives prefix sums
/// and end offsets from them. The pool only ever holds zeroed histograms,
/// so a checkout never has to clear.
pub struct CountManager {
    counter: Counter,
    pool: Vec<Counts>,
}

impl CountManager {
    /// The scratch counter has its 1024 lanes and every pooled histogram
    /// is zeroed.
    pub closed spec fn wf(&self) -> bool {
        &&& self.counter.wf()
        &&& forall|k: int|
            0 <= k < self.pool@.len() ==> (#[trigger] self.pool@[k]).wf() && self.pool@[k].zeroed()
    }

    /// A manager with an empty pool.
    pub fn new() -> (r: CountManager)
        ensures
            r.wf(),
    {
        CountManager { counter: Counter::new(), pool: Vec::new() }
    }

    /// Check a zeroed histogram out of the pool, or allocate one.
    pub fn get_empty_counts(&mut self) -> (r: Counts)
        requires
            old(self).wf(),
        ensures
            final(self).wf(),
            r.wf(),
            r.zeroed(),
    {
        match self.pool.pop() {
            Some(c) => c,
            None => Counts::new(),
        }
    }

    /// Return a histogram to the pool; it is zeroed on the way in.
    pub fn return_counts(&mut self, counts: Counts)
        requires
            old(self).wf(),
            counts.wf(),
        ensures
            final(self).wf(),
    {
        let mut counts = counts;
        counts.clear();
        self.pool.push(counts);
    }

    /// Count `bucket[lo..hi]` at `level` into a caller-provided histogram.
    pub fn count_into<T: RadixKey>(
        &mut self,
        counts: &mut Counts,
        meta: &mut CountMeta,
        bucket: &Vec<T>,
        lo: usize,
        hi: usize,
        level: usize,
    )
        requires
            old(self).wf(),
            old(counts).wf(),
            lo <= hi <= bucket.len(),
            level < T::spec_levels(),
        ensures
            final(self).wf(),
            final(counts).wf(),
            is_histogram(
                final(counts)@,
                bucket@.subrange(lo as int, hi as int),
                level as int,
            ),
            final(meta).already_sorted == level_sorted(
                bucket@.subrange(lo as int, hi as int),
                level as int,
            ),
            hi > lo ==> final(meta).first == bucket@[lo as int].spec_level(level as int)
                && final(meta).last == bucket@[hi - 1].spec_level(level as int),
            hi == lo ==> final(meta).first == 0 && final(meta).last == 0,
    {
        self.counter.count_into(counts, meta, bucket, lo, hi, level);
    }

    /// Count `bucket[lo..hi]` at `level` into a pooled histogram and
    /// report whether the bytes were already non-decreasing.
    pub fn counts<T: RadixKey>(&mut self, bucket: &Vec<T>, lo: usize, hi: usize, level: usize) -> (r:
        (Counts, bool))
        requires
            old(self).wf(),
            lo <= hi <= bucket.len(),
            level < T::spec_levels(),
        ensures
            final(self).wf(),
            r.0.wf(),
            is_histogram(r.0@, bucket@.subrange(lo as int, hi as int), level as int),
            r.1 == level_sorted(bucket@.subrange(lo as int, hi as int), level as int),
    {
        let mut counts = self.get_empty_counts();
        let mut meta = CountMeta { first: 0, last: 0, already_sorted: false };
        self.counter.count_into(&mut counts, &mut meta, bucket, lo, hi, level);
        (counts, meta.already_sorted)
    }

    /// The exclusive prefix sums of a histogram.
    pub fn prefix_sums(&mut self, counts: &Counts) -> (r: PrefixSums)
        requires
            old(self).wf(),
            counts.wf(),
            sum_prefix(counts@, 256) <= usize::MAX,
        ensures
            final(self).wf(),
            r.wf(),
            forall|b: int| 0 <= b < 256 ==> (#[trigger] r@[b]) as int == sum_prefix(counts@, b),
    {
        let mut sums = self.get_empty_counts();
        let mut running: usize = 0;
        let mut i: usize = 0;
        while i < 256
            invariant
                sums.wf(),
                counts.wf(),
                i <= 256,
                sum_prefix(counts@, 256) <= usize::MAX,
                running as int == sum_prefix(counts@, i as int),
                forall|b: int| 0 <= b < i ==> (#[trigger] sums@[b]) as int == sum_prefix(counts@, b),
            decreases 256 - i,
        {
            sums.set(i, running);
            proof {
                lemma_sum_prefix_mono(counts@, i + 1, 256);
                assert(sum_prefix(counts@, i + 1) == sum_prefix(counts@, i as int) + counts@[i as int]);
            }
            running = running + counts.get(i);
            i += 1;
        }
        sums
    }

    /// The end offsets of a histogram: one past the end of each byte's
    /// region, that is, prefix sum plus count.
    pub fn end_offsets(&mut self, counts: &Counts, prefix_sums: &PrefixSums) -> (r: EndOffsets)
        requires
            old(self).wf(),
            counts.wf(),
            prefix_sums.wf(),
            forall|b: int|
                0 <= b < 256 ==> (#[trigger] prefix_sums@[b]) as int == sum_prefix(counts@, b),
            sum_prefix(counts@, 256) <= usize::MAX,
        ensures
            final(self).wf(),
            r.wf(),
            forall|b: int|
                0 <= b < 256 ==> (#[trigger] r@[b]) as int == sum_prefix(counts@, b) + counts@[b],
    {
        let mut eo = self.get_empty_counts();
        let mut i: usize = 0;
        while i < 255
            invariant
                eo.wf(),
                counts.wf(),
                prefix_sums.wf(),
                i <= 255,
                forall|b: int|
                    0 <= b < 256 ==> (#[trigger] prefix_sums@[b]) as int == sum_prefix(counts@, b),
                sum_prefix(counts@, 256) <= usize::MAX,
                forall|b: int|
                    0 <= b < i ==> (#[trigger] eo@[b]) as int == sum_prefix(counts@, b)
                        + counts@[b],
            decreases 255 - i,
        {
            let v = prefix_sums.get(i + 1);
            eo.set(i, v);
            proof {
                assert(sum_prefix(counts@, i + 1) == sum_prefix(counts@, i as int)
                    + counts@[i as int]);
            }
            i += 1;
        }
        proof {
            lemma_sum_prefix_mono(counts@, 255, 256);
            assert(sum_prefix(counts@, 256) == sum_prefix(counts@, 255) + counts@[255]);
        }
        let lastv = prefix_sums.get(255) + counts.get(255);
        eo.set(255, lastv);
        eo
    }
}

/// Extending a counted prefix by four elements raises the byte counts by
/// the four elements' contributions.
pub proof fn lemma_count_prefix_extend4<T: RadixKey>(s: Seq<T>, lo: int, j: int, level: int)
    requires
        0 <= lo <= j,
        j + 4 <= s.len(),
    ensures
        forall|b: int|
            #[trigger] count_level(s.subrange(lo, j + 4), level, b) == count_level(
                s.subrange(lo, j),
                level,
                b,
            ) + (if s[j].spec_level(level) as int == b {
                1int
            } else {
                0int
            }) + (if s[j + 1].spec_level(level) as int == b {
                1int
            } else {
                0int
            }) + (if s[j + 2].spec_level(level) as int == b {
                1int
            } else {
                0int
            }) + (if s[j + 3].spec_level(level) as int == b {
                1int
            } else {
                0int
            }),
{
    let t0 = s.subrange(lo, j);
    let t1 = s.subrange(lo, j + 1);
    let t2 = s.subrange(lo, j + 2);
    let t3 = s.subrange(lo, j + 3);
    let t4 = s.subrange(lo, j + 4);
    assert(t1 =~= t0.push(s[j]));
    assert(t2 =~= t1.push(s[j + 1]));
    assert(t3 =~= t2.push(s[j + 2]));
    assert(t4 =~= t3.push(s[j + 3]));
    assert forall|b: int|
        #[trigger] count_level(t4, level, b) == count_level(t0, level, b) + (if s[j].spec_level(
            level,
        ) as int == b {
            1int
        } else {
            0int
        }) + (if s[j + 1].spec_level(level) as int == b {
            1int
        } else {
            0int
        }) + (if s[j + 2].spec_level(level) as int == b {
            1int
        } else {
            0int
        }) + (if s[j + 3].spec_level(level) as int == b {
            1int
        } else {
            0int
        }) by {
        lemma_filter_level_push(t0, level, b, s[j]);
        lemma_filter_level_push(t1, level, b, s[j + 1]);
        lemma_filter_level_push(t2, level, b, s[j + 2]);
        lemma_filter_level_push(t3, level, b, s[j + 3]);
    }
}

/// `d` is `s` rearranged into byte order at `level`: for every byte `b`,
/// the region of `d` that the counts of `s` assign to `b` holds exactly
/// the elements of `s` carrying `b`, in their original order.
pub open spec fn scattered<T: RadixKey>(s: Seq<T>, d: Seq<T>, level: int) -> bool {
    &&& d.len() == s.len()
    &&& forall|b: int|
        0 <= b < 256 ==> #[trigger] d.subrange(
            count_below(s, level, b),
            count_below(s, level, b) + count_level(s, level, b),
        ) == filter_level(s, level, b)
}

/// The multisets of the filtered subsequences for bytes below `b`, added
/// together.
pub open spec fn ms_filters<T: RadixKey>(s: Seq<T>, level: int, b: int) -> Multiset<T>
    decreases b,
{
    if b <= 0 {
        Multiset::empty()
    } else {
        ms_filters(s, level, b - 1).add(filter_level(s, level, b - 1).to_multiset())
    }
}

/// Appending an element inserts it into the filter-multiset sum once its
/// byte is in range.
proof fn lemma_ms_filters_push<T: RadixKey>(s: Seq<T>, level: int, b: int, x: T)
    requires
        0 <= b,
    ensures
        ms_filters(s.push(x), level, b) == if (x.spec_level(level) as int) < b {
            ms_filters(s, level, b).insert(x)
        } else {
            ms_filters(s, level, b)
        },
    decreases b,
{
    broadcast use vstd::seq_lib::group_to_multiset_ensures;
    broadcast use vstd::multiset::group_multiset_axioms;

    if b > 0 {
        lemma_ms_filters_push(s, level, b - 1, x);
        lemma_filter_level_push(s, level, b - 1, x);
        if x.spec_level(level) as int == b - 1 {
            assert(filter_level(s.push(x), level, b - 1).to_multiset() == filter_level(
                s,
                level,
                b - 1,
            ).to_multiset().insert(x));
            assert(ms_filters(s, level, b - 1).add(
                filter_level(s, level, b - 1).to_multiset().insert(x),
            ) =~= ms_filters(s, level, b - 1).add(
                filter_level(s, level, b - 1).to_multiset(),
            ).insert(x));
        } else if (x.spec_level(level) as int) < b - 1 {
            assert(ms_filters(s, level, b - 1).insert(x).add(
                filter_level(s, level, b - 1).to_multiset(),
            ) =~= ms_filters(s, level, b - 1).add(
                filter_level(s, level, b - 1).to_multiset(),
            ).insert(x));
        }
    }
}

/// The filter-multiset sum over all 256 bytes is the multiset of the
/// sequence itself.
pub proof fn lemma_ms_filters_full<T: RadixKey>(s: Seq<T>, level: int)
    ensures
        ms_filters(s, level, 256) == s.to_multiset(),
    decreases s.len(),
{
    broadcast use vstd::seq_lib::group_to_multiset_ensures;

    if s.len() == 0 {
        lemma_ms_filters_empty::<T>(s, level, 256);
        assert(s.to_multiset() =~= Multiset::<T>::empty());
    } else {
        let q = s.drop_last();
        let x = s.last();
        lemma_ms_filters_full(q, level);
        assert(q.push(x) =~= s);
        lemma_ms_filters_push(q, level, 256, x);
        assert((x.spec_level(level) as int) < 256);
    }
}

/// The filter-multiset sum of an empty sequence is empty.
proof fn lemma_ms_filters_empty<T: RadixKey>(s: Seq<T>, level: int, b: int)
    requires
        s.len() == 0,
    ensures
        ms_filters(s, level, b) == Multiset::<T>::empty(),
    decreases b,
{
    broadcast use vstd::multiset::group_multiset_axioms;
    broadcast use vstd::seq_lib::group_to_multiset_ensures;

    if b > 0 {
        lemma_ms_filters_empty(s, level, b - 1);
        assert(filter_level(s, level, b - 1) == Seq::<T>::empty());
        assert(Seq::<T>::empty().to_multiset() =~= Multiset::<T>::empty());
        assert(ms_filters(s, level, b - 1).add(filter_level(s, level, b - 1).to_multiset())
            =~= Multiset::<T>::empty());
    }
}

/// A prefix of a scattered sequence carries the filter-multiset sum of the
/// bytes it covers.
proof fn lemma_scattered_prefix_multiset<T: RadixKey>(s: Seq<T>, d: Seq<T>, level: int, b: int)
    requires
        scattered(s, d, level),
        0 <= b <= 256,
    ensures
        d.subrange(0, count_below(s, level, b)).to_multiset() == ms_filters(s, level, b),
    decreases b,
{
    broadcast use vstd::seq_lib::group_to_multiset_ensures;

    lemma_count_below_le_len(s, level, b);
    if b == 0 {
        assert(d.subrange(0, 0) =~= Seq::<T>::empty());
        assert(Seq::<T>::empty().to_multiset() =~= Multiset::<T>::empty());
    } else {
        lemma_scattered_prefix_multiset(s, d, level, b - 1);
        lemma_count_below_le_len(s, level, b - 1);
        lemma_count_level_le_len(s, level, b - 1);
        let cb1 = count_below(s, level, b - 1);
        let cb2 = count_below(s, level, b);
        assert(cb2 == cb1 + count_level(s, level, b - 1));
        assert(d.subrange(0, cb2) =~= d.subrange(0, cb1) + d.subrange(cb1, cb2));
        vstd::seq_lib::lemma_multiset_commutative(d.subrange(0, cb1), d.subrange(cb1, cb2));
        assert(d.subrange(cb1, cb2) == filter_level(s, level, b - 1));
    }
}

/// A scattered sequence is a permutation of its source.
pub proof fn lemma_scattered_multiset<T: RadixKey>(s: Seq<T>, d: Seq<T>, level: int)
    requires
        scattered(s, d, level),
    ensures
        d.to_multiset() == s.to_multiset(),
{
    lemma_scattered_prefix_multiset(s, d, level, 256);
    lemma_count_below_all(s, level);
    lemma_ms_filters_full(s, level);
    assert(d.subrange(0, count_below(s, level, 256)) =~= d);
}

/// The byte whose region contains position `k` of a scattered sequence,
/// found by walking the regions upwards from `b0`.
proof fn find_class_from<T: RadixKey>(s: Seq<T>, level: int, k: int, b0: int) -> (b: int)
    requires
        0 <= b0 < 256,
        count_below(s, level, b0) <= k < s.len(),
    ensures
        b0 <= b < 256,
        count_below(s, level, b) <= k < count_below(s, level, b) + count_level(s, level, b),
    decreases 256 - b0,
{
    if k < count_below(s, level, b0) + count_level(s, level, b0) {
        b0
    } else {
        if b0 == 255 {
            lemma_count_below_all(s, level);
            assert(false);
            b0
        } else {
            find_class_from(s, level, k, b0 + 1)
        }
    }
}

/// The byte whose region contains position `k`.
pub proof fn find_class<T: RadixKey>(s: Seq<T>, level: int, k: int) -> (b: int)
    requires
        0 <= k < s.len(),
    ensures
        0 <= b < 256,
        count_below(s, level, b) <= k < count_below(s, level, b) + count_level(s, level, b),
{
    find_class_from(s, level, k, 0)
}

/// Every position of a scattered sequence carries its region's byte.
pub proof fn lemma_scattered_byte_at<T: RadixKey>(s: Seq<T>, d: Seq<T>, level: int, k: int, b: int)
    requires
        scattered(s, d, level),
        0 <= b < 256,
        count_below(s, level, b) <= k < count_below(s, level, b) + count_level(s, level, b),
        0 <= k < d.len(),
    ensures
        d[k].spec_level(level) as int == b,
        d[k] == filter_level(s, level, b)[k - count_below(s, level, b)],
{
    let cb = count_below(s, level, b);
    let cl = count_level(s, level, b);
    lemma_count_below_le_len(s, level, b);
    assert(cb + cl == count_below(s, level, b + 1));
    lemma_count_below_le_len(s, level, b + 1);
    assert(d.subrange(cb, cb + cl)[k - cb] == d[k]);
    lemma_filter_level_elem(s, level, b, k - cb);
}

/// Scattering partitions by the byte at `level`, and when the source was
/// sorted under the levels strictly below, the result is sorted with
/// `level` included.
pub proof fn lemma_scattered_sorted<T: RadixKey>(s: Seq<T>, d: Seq<T>, level: int, lo: int)
    requires
        scattered(s, d, level),
        0 <= lo <= level,
        level > lo ==> sorted_between(s, level - 1, lo),
    ensures
        sorted_between(d, level, lo),
{
    assert forall|i: int, j: int| 0 <= i < j < d.len() implies #[trigger] key_le_range(
        d[i],
        d[j],
        level,
        lo,
    ) by {
        let bi = find_class(s, level, i);
        let bj = find_class(s, level, j);
        lemma_scattered_byte_at(s, d, level, i, bi);
        lemma_scattered_byte_at(s, d, level, j, bj);
        if bi > bj {
            lemma_count_below_mono(s, level, bj + 1, bi);
            assert(false);
        }
        if bi < bj {
            crate::radix_key::lemma_key_le_by_byte(d[i], d[j], level, lo);
        } else {
            if level > lo {
                lemma_filter_level_sorted(s, level, bi, level - 1, lo);
                let f = filter_level(s, level, bi);
                assert(key_le_range(
                    f[i - count_below(s, level, bi)],
                    f[j - count_below(s, level, bi)],
                    level - 1,
                    lo,
                ));
                crate::radix_key::lemma_key_le_step(d[i], d[j], level, lo);
            } else {
                assert(key_le_range(d[i], d[j], level, lo));
            }
        }
    }
}

/// Extending a counted suffix by one element at the front raises exactly
/// that element's byte count.
pub proof fn lemma_count_suffix_extend<T: RadixKey>(s: Seq<T>, t: int, level: int)
    requires
        0 <= t,
        t + 1 <= s.len(),
    ensures
        forall|b: int|
            #[trigger] count_level(s.subrange(s.len() - (t + 1), s.len() as int), level, b)
                == count_level(s.subrange(s.len() - t, s.len() as int), level, b) + (if s[s.len()
                - (t + 1)].spec_level(level) as int == b {
                1int
            } else {
                0int
            }),
{
    let u0 = s.subrange(s.len() - t, s.len() as int);
    let u1 = s.subrange(s.len() - (t + 1), s.len() as int);
    let x = s[s.len() - (t + 1)];
    assert(u1 =~= seq![x] + u0);
    assert forall|b: int|
        #[trigger] count_level(u1, level, b) == count_level(u0, level, b) + (if x.spec_level(
            level,
        ) as int == b {
            1int
        } else {
            0int
        }) by {
        lemma_filter_level_cons(u0, level, b, x);
    }
}

/// Extending a counted suffix by four elements at the front raises the
/// byte counts by the four elements' contributions.
pub proof fn lemma_count_suffix_extend4<T: RadixKey>(s: Seq<T>, t: int, level: int)
    requires
        0 <= t,
        t + 4 <= s.len(),
    ensures
        forall|b: int|
            #[trigger] count_level(s.subrange(s.len() - (t + 4), s.len() as int), level, b)
                == count_level(s.subrange(s.len() - t, s.len() as int), level, b) + (if s[s.len()
                - t - 1].spec_level(level) as int == b {
                1int
            } else {
                0int
            }) + (if s[s.len() - t - 2].spec_level(level) as int == b {
                1int
            } else {
                0int
            }) + (if s[s.len() - t - 3].spec_level(level) as int == b {
                1int
            } else {
                0int
            }) + (if s[s.len() - t - 4].spec_level(level) as int == b {
                1int
            } else {
                0int
            }),
{
    let u0 = s.subrange(s.len() - t, s.len() as int);
    let u1 = s.subrange(s.len() - t - 1, s.len() as int);
    let u2 = s.subrange(s.len() - t - 2, s.len() as int);
    let u3 = s.subrange(s.len() - t - 3, s.len() as int);
    let u4 = s.subrange(s.len() - (t + 4), s.len() as int);
    let x1 = s[s.len() - t - 1];
    let x2 = s[s.len() - t - 2];
    let x3 = s[s.len() - t - 3];
    let x4 = s[s.len() - t - 4];
    assert(u1 =~= seq![x1] + u0);
    assert(u2 =~= seq![x2] + u1);
    assert(u3 =~= seq![x3] + u2);
    assert(u4 =~= seq![x4] + u3);
    assert forall|b: int|
        #[trigger] count_level(u4, level, b) == count_level(u0, level, b) + (if x1.spec_level(
            level,
        ) as int == b {
            1int
        } else {
            0int
        }) + (if x2.spec_level(level) as int == b {
            1int
        } else {
            0int
        }) + (if x3.spec_level(level) as int == b {
            1int
        } else {
            0int
        }) + (if x4.spec_level(level) as int == b {
            1int
        } else {
            0int
        }) by {
        lemma_filter_level_cons(u0, level, b, x1);
        lemma_filter_level_cons(u1, level, b, x2);
        lemma_filter_level_cons(u2, level, b, x3);
        lemma_filter_level_cons(u3, level, b, x4);
    }
}

/// Extending a counted prefix by eight elements raises the byte counts by
/// the eight elements' contributions.
pub proof fn lemma_count_prefix_extend8<T: RadixKey>(s: Seq<T>, lo: int, j: int, level: int)
    requires
        0 <= lo <= j,
        j + 8 <= s.len(),
    ensures
        forall|b: int|
            #[trigger] count_level(s.subrange(lo, j + 8), level, b) == count_level(
                s.subrange(lo, j),
                level,
                b,
            ) + (if s[j].spec_level(level) as int == b {
                1int
            } else {
                0int
            }) + (if s[j + 1].spec_level(level) as int == b {
                1int
            } else {
                0int
            }) + (if s[j + 2].spec_level(level) as int == b {
                1int
            } else {
                0int
            }) + (if s[j + 3].spec_level(level) as int == b {
                1int
            } else {
                0int
            }) + (if s[j + 4].spec_level(level) as int == b {
                1int
            } else {
                0int
            }) + (if s[j + 5].spec_level(level) as int == b {
                1int
            } else {
                0int
            }) + (if s[j + 6].spec_level(level) as int == b {
                1int
            } else {
                0int
            }) + (if s[j + 7].spec_level(level) as int == b {
                1int
            } else {
                0int
            }),
{
    lemma_count_prefix_extend4(s, lo, j, level);
    lemma_count_prefix_extend4(s, lo, j + 4, level);
    assert(s.subrange(lo, j + 4 + 4) =~= s.subrange(lo, j + 8));
    assert forall|b: int|
        #[trigger] count_level(s.subrange(lo, j + 8), level, b) == count_level(
            s.subrange(lo, j),
            level,
            b,
        ) + (if s[j].spec_level(level) as int == b {
            1int
        } else {
            0int
        }) + (if s[j + 1].spec_level(level) as int == b {
            1int
        } else {
            0int
        }) + (if s[j + 2].spec_level(level) as int == b {
            1int
        } else {
            0int
        }) + (if s[j + 3].spec_level(level) as int == b {
            1int
        } else {
            0int
        }) + (if s[j + 4].spec_level(level) as int == b {
            1int
        } else {
            0int
        }) + (if s[j + 5].spec_level(level) as int == b {
            1int
        } else {
            0int
        }) + (if s[j + 6].spec_level(level) as int == b {
            1int
        } else {
            0int
        }) + (if s[j + 7].spec_level(level) as int == b {
            1int
        } else {
            0int
        }) by {
        assert(count_level(s.subrange(lo, j + 4 + 4), level, b) == count_level(
            s.subrange(lo, j + 8),
            level,
            b,
        ));
    }
}

/// A filtered subsequence of a sorted sequence is sorted.
pub proof fn lemma_filter_level_sorted<T: RadixKey>(
    s: Seq<T>,
    level: int,
    b: int,
    hi: int,
    lo: int,
)
    requires
        sorted_between(s, hi, lo),
    ensures
        sorted_between(filter_level(s, level, b), hi, lo),
    decreases s.len(),
{
    if s.len() > 0 {
        let q = s.drop_last();
        let x = s.last();
        assert(sorted_between(q, hi, lo)) by {
            assert(forall|i: int, j: int| 0 <= i < j < q.len() ==> s[i] == q[i] && s[j] == q[j]);
        }
        lemma_filter_level_sorted(q, level, b, hi, lo);
        let f = filter_level(s, level, b);
        let fq = filter_level(q, level, b);
        if x.spec_level(level) as int == b {
            assert(f == fq.push(x));
            assert forall|i: int, j: int| 0 <= i < j < f.len() implies #[trigger] key_le_range(
                f[i],
                f[j],
                hi,
                lo,
            ) by {
                if j < fq.len() {
                    assert(key_le_range(fq[i], fq[j], hi, lo));
                } else {
                    lemma_filter_level_elem(q, level, b, i);
                    let w = choose|w: int| 0 <= w < q.len() && fq[i] == q[w];
                    assert(key_le_range(s[w], s[s.len() - 1], hi, lo));
                }
            }
        } else {
            assert(f == fq);
        }
    }
}

/// Count `bucket[lo..hi]` at `start_level` and walk downwards past every
/// level whose byte is constant across the range. Returns the histogram
/// and the first level that still needs sorting, or nothing when every
/// level down to `end_level` is constant.
pub fn get_counts_and_level_descending<T: RadixKey>(
    cm: &mut CountManager,
    bucket: &Vec<T>,
    lo: usize,
    hi: usize,
    start_level: usize,
    end_level: usize,
) -> (r: Option<(Counts, usize)>)
    requires
        lo <= hi <= bucket.len(),
        end_level <= start_level,
        start_level < T::spec_levels(),
        old(cm).wf(),
    ensures
        final(cm).wf(),
        ({
            let s = bucket@.subrange(lo as int, hi as int);
            match r {
                Some(p) => {
                    &&& end_level <= p.1 <= start_level
                    &&& p.0.wf()
                    &&& is_histogram(p.0@, s, p.1 as int)
                    &&& forall|l2: int| p.1 < l2 <= start_level ==> constant_at(s, l2)
                },
                None => forall|l2: int| end_level <= l2 <= start_level ==> constant_at(s, l2),
            }
        }),
{
    let ghost s = bucket@.subrange(lo as int, hi as int);
    let mut l = start_level;
    loop
        invariant
            end_level <= l <= start_level,
            lo <= hi <= bucket.len(),
            start_level < T::spec_levels(),
            cm.wf(),
            s == bucket@.subrange(lo as int, hi as int),
            forall|l2: int| l < l2 <= start_level ==> constant_at(s, l2),
        decreases l,
    {
        let mut counts = cm.get_empty_counts();
        let mut meta = CountMeta { first: 0, last: 0, already_sorted: false };
        cm.count_into(&mut counts, &mut meta, bucket, lo, hi, l);
        if !(meta.already_sorted && meta.first == meta.last) {
            return Some((counts, l));
        }
        cm.return_counts(counts);
        proof {
            if hi > lo {
                assert(s[0] == bucket@[lo as int]);
                assert(s[s.len() - 1] == bucket@[hi - 1]);
                lemma_homogeneous(s, l as int);
            } else {
                assert(constant_at(s, l as int));
            }
        }
        if l == end_level {
            return None;
        }
        l -= 1;
    }
}

} // verus!
