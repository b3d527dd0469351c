//! The director: ask the tuner which algorithm fits a sub-bucket and run
//! it. Whatever the tuner answers, the dispatched algorithm sorts the
//! sub-bucket, so any selection policy is safe.
//!
//! The crate's entry points live here as well: `sort` and
//! `sort_in_place`, each also available with a caller-supplied tuner.

use vstd::prelude::*;
use crate::radix_key::RadixKey;
use crate::radix_key::sorted_between;
use crate::counts::CountManager;
use crate::counts::lemma_short_multiset_eq;
use crate::lsb_radix_sort::lsb_radix_sort_adapter;
use crate::msb_ska_sort::msb_partition_recurse;
use crate::sorts::comparative_sort::comparative_sort;
use crate::tuner::Algorithm;
use crate::tuner::StandardTuner;
use crate::tuner::Tuner;
use crate::tuner::TuningParams;

verus! {

/// Sort `bucket[lo..hi]` with respect to the levels `[0, level]`, with
/// the algorithm the tuner picks for this sub-bucket.
pub fn director<T: RadixKey, Tu: Tuner>(
    cm: &mut CountManager,
    tuner: &Tu,
    in_place: bool,
    bucket: &mut Vec<T>,
    lo: usize,
    hi: usize,
    level: usize,
)
    requires
        lo <= hi <= old(bucket).len(),
        level < T::spec_levels(),
        level < usize::MAX,
        old(cm).wf(),
    ensures
        final(cm).wf(),
        final(bucket).len() == old(bucket).len(),
        sorted_between(final(bucket)@.subrange(lo as int, hi as int), level as int, 0),
        final(bucket)@.subrange(lo as int, hi as int).to_multiset() == old(bucket)@.subrange(
            lo as int,
            hi as int,
        ).to_multiset(),
        forall|q: int|
            0 <= q < old(bucket).len() && !(lo <= q < hi) ==> final(bucket)@[q] == old(
                bucket,
            )@[q],
    decreases level, 1int,
{
    let total_levels = T::levels();
    let params = TuningParams {
        input_len: hi - lo,
        level,
        total_levels,
        parallel: false,
        in_place,
    };
    let algorithm = tuner.pick_algorithm(&params);
    // The scanning, recombinating and regions strategies are layouts of
    // the multi-threaded frontend, whose worker pools and slice graphs
    // live outside the verified engine; here their sub-buckets are
    // partitioned by the same in-place kernel the ska strategy uses, so
    // every tuner answer sorts.
    match algorithm {
        Algorithm::Comparative => comparative_sort(bucket, lo, hi, level),
        Algorithm::Lsb => lsb_radix_sort_adapter(cm, bucket, lo, hi, level, 0),
        Algorithm::MtLsb => lsb_radix_sort_adapter(cm, bucket, lo, hi, level, 0),
        Algorithm::Ska => msb_partition_recurse(cm, tuner, in_place, true, bucket, lo, hi, level),
        Algorithm::Scanning => msb_partition_recurse(
            cm, tuner, in_place, true, bucket, lo, hi, level,
        ),
        Algorithm::Recombinating => msb_partition_recurse(
            cm, tuner, in_place, true, bucket, lo, hi, level,
        ),
        Algorithm::Regions => msb_partition_recurse(
            cm, tuner, in_place, true, bucket, lo, hi, level,
        ),
    }
}

/// Sort the whole vector by its radix bytes, allowing the engine a
/// scratch buffer up to the input's own size.
pub fn sort<T: RadixKey>(bucket: &mut Vec<T>)
    ensures
        final(bucket).len() == old(bucket).len(),
        sorted_between(final(bucket)@, T::spec_levels() - 1, 0),
        final(bucket)@.to_multiset() == old(bucket)@.to_multiset(),
        old(bucket).len() <= 1 ==> final(bucket)@ == old(bucket)@,
{
    let tuner = StandardTuner;
    sort_with_tuner(&tuner, bucket);
}

/// Sort the whole vector with strictly bounded auxiliary memory.
pub fn sort_in_place<T: RadixKey>(bucket: &mut Vec<T>)
    ensures
        final(bucket).len() == old(bucket).len(),
        sorted_between(final(bucket)@, T::spec_levels() - 1, 0),
        final(bucket)@.to_multiset() == old(bucket)@.to_multiset(),
        old(bucket).len() <= 1 ==> final(bucket)@ == old(bucket)@,
{
    let tuner = StandardTuner;
    sort_in_place_with_tuner(&tuner, bucket);
}

/// Sort the whole vector with a caller-supplied selection policy.
pub fn sort_with_tuner<T: RadixKey, Tu: Tuner>(tuner: &Tu, bucket: &mut Vec<T>)
    ensures
        final(bucket).len() == old(bucket).len(),
        sorted_between(final(bucket)@, T::spec_levels() - 1, 0),
        final(bucket)@.to_multiset() == old(bucket)@.to_multiset(),
        old(bucket).len() <= 1 ==> final(bucket)@ == old(bucket)@,
{
    let mut cm = CountManager::new();
    let levels = T::levels();
    let n = bucket.len();
    let ghost s0 = bucket@;
    director(&mut cm, tuner, false, bucket, 0, n, levels - 1);
    proof {
        assert(bucket@.subrange(0, n as int) =~= bucket@);
        assert(s0.subrange(0, n as int) =~= s0);
        if n <= 1 {
            lemma_short_multiset_eq(s0, bucket@);
        }
    }
}

/// Sort the whole vector in place with a caller-supplied selection
/// policy.
pub fn sort_in_place_with_tuner<T: RadixKey, Tu: Tuner>(tuner: &Tu, bucket: &mut Vec<T>)
    ensures
        final(bucket).len() == old(bucket).len(),
        sorted_between(final(bucket)@, T::spec_levels() - 1, 0),
        final(bucket)@.to_multiset() == old(bucket)@.to_multiset(),
        old(bucket).len() <= 1 ==> final(bucket)@ == old(bucket)@,
{
    let mut cm = CountManager::new();
    let levels = T::levels();
    let n = bucket.len();
    let ghost s0 = bucket@;
    director(&mut cm, tuner, true, bucket, 0, n, levels - 1);
    proof {
        assert(bucket@.subrange(0, n as int) =~= bucket@);
        assert(s0.subrange(0, n as int) =~= s0);
        if n <= 1 {
            lemma_short_multiset_eq(s0, bucket@);
        }
    }
}

} // verus!
