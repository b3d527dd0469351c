//! The radix-key contract and the byte-lexicographic order it induces.
//!
//! An element exposes `levels()` radix bytes; level 0 is the least
//! significant. The sort order of the crate is the lexicographic order of
//! the bytes read from the most significant level downwards.

use vstd::prelude::*;

verus! {

/// A fixed-size key that can be decomposed into radix bytes.
///
/// `spec_levels` and `spec_level` are the mathematical description of the
/// decomposition; `levels` and `get_level` are their executable versions.
/// Every element type must expose at least one level, and `get_level` must
/// be pure: equal elements yield equal bytes at every level.
pub trait RadixKey: Sized + Copy {
    /// The number of radix bytes, in specifications.
    spec fn spec_levels() -> int;

    /// The byte at `level`, in specifications.
    spec fn spec_level(self, level: int) -> u8;

    /// The number of radix bytes of this type.
    fn levels() -> (r: usize)
        ensures
            r as int == Self::spec_levels(),
            r >= 1,
    ;

    /// The radix byte of `self` at `level`.
    fn get_level(&self, level: usize) -> (r: u8)
        requires
            level < Self::spec_levels(),
        ensures
            r == self.spec_level(level as int),
    ;
}

/// `a` sorts at or before `b` when the bytes from `hi` down to `lo` are
/// compared lexicographically.
pub open spec fn key_le_range<T: RadixKey>(a: T, b: T, hi: int, lo: int) -> bool
    decreases hi - lo,
{
    if a.spec_level(hi) != b.spec_level(hi) {
        a.spec_level(hi) < b.spec_level(hi)
    } else if hi <= lo {
        true
    } else {
        key_le_range(a, b, hi - 1, lo)
    }
}

/// `a` sorts at or before `b` under the bytes from `level` down to 0.
pub open spec fn key_le<T: RadixKey>(a: T, b: T, level: int) -> bool {
    key_le_range(a, b, level, 0)
}

/// The sequence is non-decreasing under the byte order of levels
/// `[lo, hi]`.
pub open spec fn sorted_between<T: RadixKey>(s: Seq<T>, hi: int, lo: int) -> bool {
    forall|i: int, j: int| 0 <= i < j < s.len() ==> #[trigger] key_le_range(s[i], s[j], hi, lo)
}

/// The sequence is non-decreasing under the byte order of levels
/// `[0, level]`.
pub open spec fn sorted_below<T: RadixKey>(s: Seq<T>, level: int) -> bool {
    sorted_between(s, level, 0)
}

/// The byte order is total: any two elements are comparable.
pub proof fn lemma_key_le_total<T: RadixKey>(a: T, b: T, hi: int, lo: int)
    ensures
        key_le_range(a, b, hi, lo) || key_le_range(b, a, hi, lo),
    decreases hi - lo,
{
    if a.spec_level(hi) == b.spec_level(hi) && hi > lo {
        lemma_key_le_total::<T>(a, b, hi - 1, lo);
    }
}

/// The byte order is transitive.
pub proof fn lemma_key_le_trans<T: RadixKey>(a: T, b: T, c: T, hi: int, lo: int)
    requires
        key_le_range(a, b, hi, lo),
        key_le_range(b, c, hi, lo),
    ensures
        key_le_range(a, c, hi, lo),
    decreases hi - lo,
{
    if a.spec_level(hi) == b.spec_level(hi) && b.spec_level(hi) == c.spec_level(hi) && hi > lo {
        lemma_key_le_trans::<T>(a, b, c, hi - 1, lo);
    }
}

/// A strictly smaller byte at the top level decides the order.
pub proof fn lemma_key_le_by_byte<T: RadixKey>(a: T, b: T, hi: int, lo: int)
    requires
        a.spec_level(hi) < b.spec_level(hi),
    ensures
        key_le_range(a, b, hi, lo),
{
}

/// With equal top bytes the order is decided by the levels below.
pub proof fn lemma_key_le_step<T: RadixKey>(a: T, b: T, hi: int, lo: int)
    requires
        hi > lo,
        a.spec_level(hi) == b.spec_level(hi),
        key_le_range(a, b, hi - 1, lo),
    ensures
        key_le_range(a, b, hi, lo),
{
}

/// The byte order is reflexive.
pub proof fn lemma_key_le_refl<T: RadixKey>(a: T, hi: int, lo: int)
    ensures
        key_le_range(a, a, hi, lo),
    decreases hi - lo,
{
    if hi > lo {
        lemma_key_le_refl::<T>(a, hi - 1, lo);
    }
}

/// The decomposition tells the elements of `s` apart: two elements that
/// compare equal under every byte of `[0, level]` are the same element.
pub open spec fn key_faithful<T: RadixKey>(s: Seq<T>, level: int) -> bool {
    forall|x: T, y: T|
        #![trigger key_le_range(x, y, level, 0), key_le_range(y, x, level, 0)]
        s.contains(x) && s.contains(y) && key_le_range(x, y, level, 0) && key_le_range(
            y,
            x,
            level,
            0,
        ) ==> x == y
}

/// A sorted sequence is determined by its multiset: two sorted
/// permutations of the same elements are equal, when the decomposition
/// tells the elements apart.
///
/// In particular the sort is idempotent — sorting twice yields the same
/// sequence — since a second pass receives a sorted input and must
/// return a sorted permutation of it. For a decomposition that maps two
/// distinct elements to equal bytes the mutual order of those elements
/// is unspecified, and this law holds of the key bytes alone.
pub proof fn lemma_sorted_permutation_unique<T: RadixKey>(s: Seq<T>, t: Seq<T>, level: int)
    requires
        s.to_multiset() == t.to_multiset(),
        sorted_between(s, level, 0),
        sorted_between(t, level, 0),
        key_faithful(s, level),
    ensures
        t == s,
    decreases s.len(),
{
    broadcast use vstd::seq_lib::group_to_multiset_ensures;

    assert(s.to_multiset().len() == s.len());
    assert(t.to_multiset().len() == t.len());
    if s.len() == 0 {
        assert(t =~= s);
    } else {
        assert(s.contains(s[0]));
        assert(t.to_multiset().count(s[0]) > 0);
        assert(t.contains(s[0]));
        let j = choose|j: int| 0 <= j < t.len() && t[j] == s[0];
        assert(s.to_multiset().count(t[0]) > 0);
        assert(s.contains(t[0]));
        let i = choose|i: int| 0 <= i < s.len() && s[i] == t[0];
        assert(key_le_range(s[0], s[i], level, 0)) by {
            if i == 0 {
                lemma_key_le_refl::<T>(s[0], level, 0);
            }
        }
        assert(key_le_range(t[0], t[j], level, 0)) by {
            if j == 0 {
                lemma_key_le_refl::<T>(t[0], level, 0);
            }
        }
        assert(s[0] == t[0]);

        let s2 = s.drop_first();
        let t2 = t.drop_first();
        assert(s2 =~= s.remove(0));
        assert(t2 =~= t.remove(0));
        assert(s2.to_multiset() == s.to_multiset().remove(s[0]));
        assert(t2.to_multiset() == t.to_multiset().remove(t[0]));
        assert(s2.to_multiset() == t2.to_multiset());
        assert(sorted_between(s2, level, 0)) by {
            assert(forall|i1: int, j1: int|
                0 <= i1 < j1 < s2.len() ==> s2[i1] == s[i1 + 1] && s2[j1] == s[j1 + 1]);
        }
        assert(sorted_between(t2, level, 0)) by {
            assert(forall|i1: int, j1: int|
                0 <= i1 < j1 < t2.len() ==> t2[i1] == t[i1 + 1] && t2[j1] == t[j1 + 1]);
        }
        assert(key_faithful(s2, level)) by {
            assert(forall|x: T| s2.contains(x) ==> s.contains(x));
        }
        lemma_sorted_permutation_unique(s2, t2, level);
        assert forall|k: int| 0 <= k < t.len() implies t[k] == s[k] by {
            if k > 0 {
                assert(t2[k - 1] == t[k]);
                assert(s2[k - 1] == s[k]);
                assert(t2[k - 1] == s2[k - 1]);
            }
        }
        assert(t =~= s);
    }
}

} // verus!
