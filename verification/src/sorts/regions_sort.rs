//! Edge bookkeeping for regions sort, the parallel in-place MSB
//! partition. Each of the 256 byte values owns a contiguous "country" of
//! the bucket; after the per-tile ska passes, every maximal run of
//! same-byte elements sitting in a foreign country becomes an `Edge`
//! from its current country to the byte's own country. Pairing an
//! inbound edge with an outbound edge of one country yields an
//! `Operation`: two equal-length slices whose contents are swapped.
//!
//! The slices are carried as index plus length over the shared bucket,
//! so ownership of the two halves of a split stays explicit. The edge
//! generation, the pairing and the swap execution are all verified
//! here; only the tiling and the round scheduling of the parallel
//! driver live outside the verified core.

use vstd::prelude::*;
use crate::counts::Counts;

verus! {

/// A contiguous run of elements, resident in country `init`, that all
/// carry byte `dst` and therefore belong in country `dst`.
#[derive(Clone, Copy, Debug)]
pub struct Edge {
    /// The country whose byte value the run carries.
    pub dst: usize,
    /// The country whose region currently holds the run.
    pub init: usize,
    /// First index of the run in the bucket.
    pub start: usize,
    /// Number of elements in the run.
    pub len: usize,
}

/// A matched pair of equal-length runs whose contents are to be
/// swapped: the inbound edge first, the outbound edge second.
#[derive(Clone, Copy, Debug)]
pub struct Operation(pub Edge, pub Edge);

/// Every edge of `es` lies within the index range `[lo, hi)` and names
/// real countries.
pub open spec fn edges_within(es: Seq<Edge>, lo: int, hi: int) -> bool {
    forall|k: int|
        0 <= k < es.len() ==> {
            let e = #[trigger] es[k];
            &&& lo <= e.start
            &&& e.start + e.len <= hi
            &&& e.dst < 256
            &&& e.init < 256
        }
}

/// `e` is a piece of `w`: same destination and origin, with its run
/// inside `w`'s run.
pub open spec fn sub_run_of(e: Edge, w: Edge) -> bool {
    &&& e.dst == w.dst
    &&& e.init == w.init
    &&& w.start <= e.start
    &&& e.start + e.len <= w.start + w.len
}

/// `e` is a piece of some edge of `es`.
pub open spec fn sub_run_of_some(e: Edge, es: Seq<Edge>) -> bool {
    exists|w: int| 0 <= w < es.len() && sub_run_of(e, #[trigger] es[w])
}

/// The total run length of a list of edges.
pub open spec fn len_sum(es: Seq<Edge>) -> int
    decreases es.len(),
{
    if es.len() == 0 {
        0
    } else {
        len_sum(es.drop_last()) + es.last().len
    }
}

/// The total run length held by a list of operations, both sides added.
pub open spec fn ops_len_sum(ops: Seq<Operation>) -> int
    decreases ops.len(),
{
    if ops.len() == 0 {
        0
    } else {
        ops_len_sum(ops.drop_last()) + ops.last().0.len + ops.last().1.len
    }
}

/// Every edge's run end stays within the address space.
pub open spec fn edges_bounded(es: Seq<Edge>) -> bool {
    forall|k: int| 0 <= k < es.len() ==> (#[trigger] es[k]).start + es[k].len <= usize::MAX
}

/// Every edge of `es` still has somewhere to go: origin and destination
/// differ.
pub open spec fn edges_mobile(es: Seq<Edge>) -> bool {
    forall|k: int| 0 <= k < es.len() ==> (#[trigger] es[k]).dst != es[k].init
}

/// Removing one edge takes exactly its run length out of the total.
proof fn lemma_len_sum_remove(es: Seq<Edge>, j: int)
    requires
        0 <= j < es.len(),
    ensures
        len_sum(es.remove(j)) == len_sum(es) - es[j].len,
    decreases es.len(),
{
    if j == es.len() - 1 {
        assert(es.remove(j) =~= es.drop_last());
    } else {
        let d = es.drop_last();
        assert(es.remove(j).drop_last() =~= d.remove(j));
        assert(es.remove(j).last() == es.last());
        lemma_len_sum_remove(d, j);
    }
}

/// The total run length is a function of the edge multiset alone.
proof fn lemma_len_sum_multiset(s1: Seq<Edge>, s2: Seq<Edge>)
    requires
        s1.to_multiset() == s2.to_multiset(),
    ensures
        len_sum(s1) == len_sum(s2),
    decreases s1.len(),
{
    broadcast use vstd::seq_lib::group_to_multiset_ensures;

    assert(s1.to_multiset().len() == s1.len());
    assert(s2.to_multiset().len() == s2.len());
    if s1.len() == 0 {
        assert(s2 =~= Seq::<Edge>::empty());
    } else {
        let e = s1.last();
        assert(s1.contains(e));
        assert(s2.to_multiset().count(e) > 0);
        assert(s2.contains(e));
        let j = choose|j: int| 0 <= j < s2.len() && s2[j] == e;
        let s1p = s1.drop_last();
        assert(s1p =~= s1.remove(s1.len() - 1));
        let s2p = s2.remove(j);
        assert(s1p.to_multiset() == s1.to_multiset().remove(e));
        assert(s2p.to_multiset() == s2.to_multiset().remove(e));
        lemma_len_sum_multiset(s1p, s2p);
        lemma_len_sum_remove(s2, j);
    }
}

/// Run lengths add over concatenation.
proof fn lemma_len_sum_add(a: Seq<Edge>, b: Seq<Edge>)
    ensures
        len_sum(a + b) == len_sum(a) + len_sum(b),
    decreases b.len(),
{
    if b.len() == 0 {
        assert(a + b =~= a);
    } else {
        assert((a + b).drop_last() =~= a + b.drop_last());
        assert((a + b).last() == b.last());
        lemma_len_sum_add(a, b.drop_last());
    }
}

/// Every element of a permuted edge list is one of the original list's
/// edges.
proof fn lemma_multiset_element_source(es0: Seq<Edge>, es1: Seq<Edge>, k: int) -> (w: int)
    requires
        es1.to_multiset() == es0.to_multiset(),
        0 <= k < es1.len(),
    ensures
        0 <= w < es0.len(),
        es0[w] == es1[k],
{
    broadcast use vstd::seq_lib::group_to_multiset_ensures;

    assert(es1.contains(es1[k]));
    assert(es0.to_multiset().count(es1[k]) > 0);
    assert(es0.contains(es1[k]));
    choose|w: int| 0 <= w < es0.len() && es0[w] == es1[k]
}

/// Whether an edge's run is destined for `country`.
fn edge_dst_differs(e: &Edge, country: usize) -> (r: bool)
    ensures
        r == (e.dst != country),
{
    e.dst != country
}

/// Whether an edge's run currently sits outside `country`.
fn edge_init_differs(e: &Edge, country: usize) -> (r: bool)
    ensures
        r == (e.init != country),
{
    e.init != country
}

/// Relies on partition::partition_index: reorders the vector in place by
/// swaps so that the edges not destined for `country` come first, and
/// returns the index of the first edge destined for `country`.
#[verifier::external_body]
fn partition_index_by_dst(edges: &mut Vec<Edge>, country: usize) -> (r: usize)
    ensures
        r <= final(edges).len(),
        final(edges).len() == old(edges).len(),
        final(edges)@.to_multiset() == old(edges)@.to_multiset(),
        forall|k: int| 0 <= k < r ==> (#[trigger] final(edges)@[k]).dst != country,
        forall|k: int|
            r <= k < final(edges).len() ==> (#[trigger] final(edges)@[k]).dst == country,
{
    partition::partition_index(edges.as_mut_slice(), |e| edge_dst_differs(e, country))
}

/// Relies on partition::partition_index: reorders the vector in place by
/// swaps so that the edges not originating in `country` come first, and
/// returns the index of the first edge originating in `country`.
#[verifier::external_body]
fn partition_index_by_init(edges: &mut Vec<Edge>, country: usize) -> (r: usize)
    ensures
        r <= final(edges).len(),
        final(edges).len() == old(edges).len(),
        final(edges)@.to_multiset() == old(edges)@.to_multiset(),
        forall|k: int| 0 <= k < r ==> (#[trigger] final(edges)@[k]).init != country,
        forall|k: int|
            r <= k < final(edges).len() ==> (#[trigger] final(edges)@[k]).init == country,
{
    partition::partition_index(edges.as_mut_slice(), |e| edge_init_differs(e, country))
}

/// Move the elements of `src` from position `from` on to the end of
/// `dst`, emptying that tail of `src`.
fn drain_tail(src: &mut Vec<Edge>, from: usize, dst: &mut Vec<Edge>)
    requires
        from <= old(src).len(),
    ensures
        final(src)@ == old(src)@.subrange(0, from as int),
        final(dst)@ == old(dst)@ + old(src)@.subrange(from as int, old(src).len() as int),
{
    let ghost src0 = src@;
    let mut i: usize = from;
    while i < src.len()
        invariant
            from <= i <= src.len(),
            src@ == src0,
            dst@ == old(dst)@ + src0.subrange(from as int, i as int),
        decreases src.len() - i,
    {
        let e = src[i];
        dst.push(e);
        proof {
            assert(old(dst)@ + src0.subrange(from as int, i + 1) =~= (old(dst)@ + src0.subrange(
                from as int,
                i as int,
            )).push(e));
        }
        i += 1;
    }
    src.truncate(from);
    proof {
        assert(src@ =~= src0.subrange(0, from as int));
    }
}

/// For one country, pull its inbound and outbound edges out of the
/// shared list, pair them greedily into equal-length operations —
/// splitting the longer edge of an uneven pair and keeping the
/// remainder — and return whatever could not be paired to the shared
/// list.
///
/// Each appended operation pairs an inbound of the country with an
/// outbound of it, both pieces of input edges. The scratch lists come
/// back empty, every edge left in the shared list is a piece of an
/// input edge, the country is exhausted on at least one side, and the
/// total run length is conserved: what left the shared list is held,
/// run for run, by the new operations.
#[verifier::rlimit(60)]
pub fn list_operations(
    country: usize,
    outbounds: &mut Vec<Edge>,
    operations: &mut Vec<Operation>,
    inbounds_scratch: &mut Vec<Edge>,
    outbounds_scratch: &mut Vec<Edge>,
)
    requires
        edges_bounded(old(outbounds)@),
        edges_mobile(old(outbounds)@),
        old(inbounds_scratch).len() == 0,
        old(outbounds_scratch).len() == 0,
        forall|k: int|
            0 <= k < old(operations).len() ==> {
                let op = #[trigger] old(operations)@[k];
                &&& op.0.len == op.1.len
                &&& op.0.start + op.0.len <= usize::MAX
                &&& op.1.start + op.1.len <= usize::MAX
            },
    ensures
        final(inbounds_scratch).len() == 0,
        final(outbounds_scratch).len() == 0,
        final(operations).len() >= old(operations).len(),
        final(operations)@.subrange(0, old(operations).len() as int) == old(operations)@,
        forall|k: int|
            0 <= k < final(operations).len() ==> {
                let op = #[trigger] final(operations)@[k];
                &&& op.0.len == op.1.len
                &&& op.0.start + op.0.len <= usize::MAX
                &&& op.1.start + op.1.len <= usize::MAX
            },
        forall|k: int|
            old(operations).len() <= k < final(operations).len() ==> {
                let op = #[trigger] final(operations)@[k];
                &&& op.0.dst == country
                &&& op.1.init == country
                &&& op.0.len == op.1.len
                &&& sub_run_of_some(op.0, old(outbounds)@)
                &&& sub_run_of_some(op.1, old(outbounds)@)
            },
        forall|k: int|
            0 <= k < final(outbounds).len() ==> sub_run_of_some(
                #[trigger] final(outbounds)@[k],
                old(outbounds)@,
            ),
        edges_bounded(final(outbounds)@),
        edges_mobile(final(outbounds)@),
        (forall|k: int|
            0 <= k < final(outbounds).len() ==> (#[trigger] final(outbounds)@[k]).dst != country)
            || (forall|k: int|
            0 <= k < final(outbounds).len() ==> (#[trigger] final(outbounds)@[k]).init
                != country),
        len_sum(final(outbounds)@) + ops_len_sum(final(operations)@) == len_sum(
            old(outbounds)@,
        ) + ops_len_sum(old(operations)@),
{
    let ghost all0 = old(outbounds)@;
    let ghost ops0 = old(operations)@;

    let ib = partition_index_by_dst(outbounds, country);
    proof {
        lemma_len_sum_multiset(all0, outbounds@);
        assert forall|k: int| 0 <= k < outbounds@.len() implies {
            let e = #[trigger] outbounds@[k];
            &&& e.start + e.len <= usize::MAX
            &&& e.dst != e.init
            &&& sub_run_of_some(e, all0)
        } by {
            let w = lemma_multiset_element_source(all0, outbounds@, k);
            assert(sub_run_of(outbounds@[k], all0[w]));
        }
    }
    let ghost p1 = outbounds@;
    drain_tail(outbounds, ib, inbounds_scratch);
    let ghost kept1 = outbounds@;
    proof {
        assert(p1 =~= p1.subrange(0, ib as int) + p1.subrange(ib as int, p1.len() as int));
        lemma_len_sum_add(p1.subrange(0, ib as int), p1.subrange(ib as int, p1.len() as int));
        assert(inbounds_scratch@ =~= p1.subrange(ib as int, p1.len() as int));
        assert(len_sum(p1) == len_sum(kept1) + len_sum(inbounds_scratch@));
    }

    let ob = partition_index_by_init(outbounds, country);
    let ghost p2 = outbounds@;
    proof {
        lemma_len_sum_multiset(kept1, p2);
        assert forall|k: int| 0 <= k < p2.len() implies {
            let e = #[trigger] p2[k];
            &&& e.start + e.len <= usize::MAX
            &&& e.dst != e.init
            &&& e.dst != country
            &&& sub_run_of_some(e, all0)
        } by {
            let w = lemma_multiset_element_source(kept1, p2, k);
            assert(p2[k] == kept1[w]);
        }
    }
    drain_tail(outbounds, ob, outbounds_scratch);
    proof {
        assert(p2 =~= p2.subrange(0, ob as int) + p2.subrange(ob as int, p2.len() as int));
        lemma_len_sum_add(p2.subrange(0, ob as int), p2.subrange(ob as int, p2.len() as int));
        assert(outbounds_scratch@ =~= p2.subrange(ob as int, p2.len() as int));
        assert(len_sum(all0) == len_sum(outbounds@) + len_sum(inbounds_scratch@) + len_sum(
            outbounds_scratch@,
        ));
    }

    loop
        invariant
            edges_bounded(outbounds@),
            edges_bounded(inbounds_scratch@),
            edges_bounded(outbounds_scratch@),
            forall|k: int|
                0 <= k < outbounds@.len() ==> {
                    let e = #[trigger] outbounds@[k];
                    &&& e.dst != country
                    &&& e.init != country
                    &&& e.dst != e.init
                    &&& sub_run_of_some(e, all0)
                },
            forall|k: int|
                0 <= k < inbounds_scratch@.len() ==> {
                    let e = #[trigger] inbounds_scratch@[k];
                    &&& e.dst == country
                    &&& e.init != country
                    &&& e.dst != e.init
                    &&& sub_run_of_some(e, all0)
                },
            forall|k: int|
                0 <= k < outbounds_scratch@.len() ==> {
                    let e = #[trigger] outbounds_scratch@[k];
                    &&& e.init == country
                    &&& e.dst != country
                    &&& e.dst != e.init
                    &&& sub_run_of_some(e, all0)
                },
            all0 == old(outbounds)@,
            ops0 == old(operations)@,
            operations@.len() >= ops0.len(),
            operations@.subrange(0, ops0.len() as int) == ops0,
            forall|k: int|
                0 <= k < operations@.len() ==> {
                    let op = #[trigger] operations@[k];
                    &&& op.0.len == op.1.len
                    &&& op.0.start + op.0.len <= usize::MAX
                    &&& op.1.start + op.1.len <= usize::MAX
                },
            forall|k: int|
                ops0.len() <= k < operations@.len() ==> {
                    let op = #[trigger] operations@[k];
                    &&& op.0.dst == country
                    &&& op.1.init == country
                    &&& op.0.len == op.1.len
                    &&& sub_run_of_some(op.0, all0)
                    &&& sub_run_of_some(op.1, all0)
                },
            len_sum(outbounds@) + len_sum(inbounds_scratch@) + len_sum(outbounds_scratch@)
                + ops_len_sum(operations@) == len_sum(all0) + ops_len_sum(ops0),
        decreases inbounds_scratch.len() + outbounds_scratch.len(),
    {
        let ghost ins_pre = inbounds_scratch@;
        let i_edge = match inbounds_scratch.pop() {
            Some(i_edge) => i_edge,
            None => {
                let ghost out_pre = outbounds@;
                let ghost outs_pre = outbounds_scratch@;
                drain_tail(outbounds_scratch, 0, outbounds);
                proof {
                    assert(outs_pre.subrange(0, outs_pre.len() as int) =~= outs_pre);
                    lemma_len_sum_add(out_pre, outs_pre);
                    assert(outbounds@ == out_pre + outs_pre);
                    assert forall|k: int| 0 <= k < outbounds@.len() implies (
                    #[trigger] outbounds@[k]).dst != country by {
                        if k < out_pre.len() {
                            assert(outbounds@[k] == out_pre[k]);
                        } else {
                            assert(outbounds@[k] == outs_pre[k - out_pre.len()]);
                        }
                    }
                    assert forall|k: int| 0 <= k < outbounds@.len() implies {
                        let e = #[trigger] outbounds@[k];
                        &&& e.start + e.len <= usize::MAX
                        &&& e.dst != e.init
                        &&& sub_run_of_some(e, all0)
                    } by {
                        if k < out_pre.len() {
                            assert(outbounds@[k] == out_pre[k]);
                        } else {
                            assert(outbounds@[k] == outs_pre[k - out_pre.len()]);
                        }
                    }
                }
                return;
            },
        };
        proof {
            assert(ins_pre.drop_last() =~= inbounds_scratch@);
            assert(len_sum(ins_pre) == len_sum(inbounds_scratch@) + i_edge.len);
        }

        let ghost outs_pre2 = outbounds_scratch@;
        let o_edge = match outbounds_scratch.pop() {
            Some(o_edge) => o_edge,
            None => {
                let ghost out_pre = outbounds@;
                outbounds.push(i_edge);
                proof {
                    assert(outbounds@.drop_last() =~= out_pre);
                    assert(len_sum(outbounds@) == len_sum(out_pre) + i_edge.len);
                }
                let ghost out_mid = outbounds@;
                let ghost ins_rest = inbounds_scratch@;
                drain_tail(inbounds_scratch, 0, outbounds);
                proof {
                    assert(ins_rest.subrange(0, ins_rest.len() as int) =~= ins_rest);
                    lemma_len_sum_add(out_mid, ins_rest);
                    assert(outbounds@ == out_mid + ins_rest);
                    assert forall|k: int| 0 <= k < outbounds@.len() implies (
                    #[trigger] outbounds@[k]).init != country by {
                        if k < out_pre.len() {
                            assert(outbounds@[k] == out_pre[k]);
                        } else if k < out_mid.len() {
                            assert(outbounds@[k] == i_edge);
                        } else {
                            assert(outbounds@[k] == ins_rest[k - out_mid.len()]);
                        }
                    }
                    assert forall|k: int| 0 <= k < outbounds@.len() implies {
                        let e = #[trigger] outbounds@[k];
                        &&& e.start + e.len <= usize::MAX
                        &&& e.dst != e.init
                        &&& sub_run_of_some(e, all0)
                    } by {
                        if k < out_pre.len() {
                            assert(outbounds@[k] == out_pre[k]);
                        } else if k < out_mid.len() {
                            assert(outbounds@[k] == i_edge);
                        } else {
                            assert(outbounds@[k] == ins_rest[k - out_mid.len()]);
                        }
                    }
                }
                return;
            },
        };
        proof {
            assert(outs_pre2.drop_last() =~= outbounds_scratch@);
            assert(len_sum(outs_pre2) == len_sum(outbounds_scratch@) + o_edge.len);
        }

        if i_edge.len == o_edge.len {
            let ghost ops_pre = operations@;
            operations.push(Operation(i_edge, o_edge));
            proof {
                assert(operations@.drop_last() =~= ops_pre);
                assert(operations@.subrange(0, ops0.len() as int) =~= ops_pre.subrange(
                    0,
                    ops0.len() as int,
                ));
            }
        } else if i_edge.len < o_edge.len {
            let keep = Edge {
                dst: o_edge.dst,
                init: o_edge.init,
                start: o_edge.start + i_edge.len,
                len: o_edge.len - i_edge.len,
            };
            let ghost outs_mid = outbounds_scratch@;
            outbounds_scratch.push(keep);
            let o_head = Edge {
                dst: o_edge.dst,
                init: o_edge.init,
                start: o_edge.start,
                len: i_edge.len,
            };
            let ghost ops_pre = operations@;
            operations.push(Operation(i_edge, o_head));
            proof {
                assert(outbounds_scratch@.drop_last() =~= outs_mid);
                assert(operations@.drop_last() =~= ops_pre);
                assert(operations@.subrange(0, ops0.len() as int) =~= ops_pre.subrange(
                    0,
                    ops0.len() as int,
                ));
                let w = choose|w: int|
                    0 <= w < all0.len() && sub_run_of(o_edge, #[trigger] all0[w]);
                assert(sub_run_of(keep, all0[w]));
                assert(sub_run_of(o_head, all0[w]));
            }
        } else {
            let keep = Edge {
                dst: i_edge.dst,
                init: i_edge.init,
                start: i_edge.start + o_edge.len,
                len: i_edge.len - o_edge.len,
            };
            let ghost ins_mid = inbounds_scratch@;
            inbounds_scratch.push(keep);
            let i_head = Edge {
                dst: i_edge.dst,
                init: i_edge.init,
                start: i_edge.start,
                len: o_edge.len,
            };
            let ghost ops_pre = operations@;
            operations.push(Operation(i_head, o_edge));
            proof {
                assert(inbounds_scratch@.drop_last() =~= ins_mid);
                assert(operations@.drop_last() =~= ops_pre);
                assert(operations@.subrange(0, ops0.len() as int) =~= ops_pre.subrange(
                    0,
                    ops0.len() as int,
                ));
                let w = choose|w: int|
                    0 <= w < all0.len() && sub_run_of(i_edge, #[trigger] all0[w]);
                assert(sub_run_of(keep, all0[w]));
                assert(sub_run_of(i_head, all0[w]));
            }
        }
    }
}

/// The total element count of the tiles below `t`.
pub open spec fn tiles_total(lcs: Seq<Counts>, t: int) -> int
    decreases t,
{
    if t <= 0 {
        0
    } else {
        tiles_total(lcs, t - 1) + crate::counts::sum_prefix(lcs[t - 1]@, 256)
    }
}

/// Tile totals grow with the tile index.
proof fn lemma_tiles_total_mono(lcs: Seq<Counts>, t1: int, t2: int)
    requires
        0 <= t1 <= t2 <= lcs.len(),
        forall|t: int| 0 <= t < lcs.len() ==> (#[trigger] lcs[t]).wf(),
    ensures
        tiles_total(lcs, t1) <= tiles_total(lcs, t2),
    decreases t2 - t1,
{
    if t1 < t2 {
        lemma_tiles_total_mono(lcs, t1, t2 - 1);
        crate::counts::lemma_sum_prefix_mono(lcs[t2 - 1]@, 0, 256);
    }
}

/// The country that relative position `x` belongs to, as a histogram
/// lays the regions out: the first country whose region end lies beyond
/// `x`, walking up from `b`.
pub open spec fn country_of_from(c: Seq<usize>, x: int, b: int) -> int
    decreases 256 - b,
{
    if b >= 255 {
        255
    } else if x < crate::counts::sum_prefix(c, b + 1) {
        b
    } else {
        country_of_from(c, x, b + 1)
    }
}

/// The country of relative position `x` under histogram `c`.
pub open spec fn country_of(c: Seq<usize>, x: int) -> int {
    country_of_from(c, x, 0)
}

/// A position inside country `g`'s region is assigned country `g`.
proof fn lemma_country_of_unique(c: Seq<usize>, x: int, g: int, b: int)
    requires
        c.len() == 256,
        0 <= b <= g < 256,
        crate::counts::sum_prefix(c, g) <= x < crate::counts::sum_prefix(c, g + 1),
    ensures
        country_of_from(c, x, b) == g,
    decreases g - b,
{
    if b < g {
        crate::counts::lemma_sum_prefix_mono(c, b + 1, g);
        lemma_country_of_unique(c, x, g, b + 1);
    }
}

/// The tile that holds relative position `x`, walking up from `t`.
pub open spec fn tile_of_from(lcs: Seq<Counts>, x: int, t: int) -> int
    decreases lcs.len() - t,
{
    if t >= lcs.len() - 1 {
        lcs.len() - 1
    } else if x < tiles_total(lcs, t + 1) {
        t
    } else {
        tile_of_from(lcs, x, t + 1)
    }
}

/// The byte class that relative position `x` belongs to under the tile
/// layout: the country of `x` within its tile's histogram.
pub open spec fn local_country_of(lcs: Seq<Counts>, x: int) -> int {
    let t = tile_of_from(lcs, x, 0);
    country_of(lcs[t]@, x - tiles_total(lcs, t))
}

/// A position inside tile `tb` is assigned tile `tb`.
proof fn lemma_tile_of_unique(lcs: Seq<Counts>, x: int, tb: int, t: int)
    requires
        forall|t2: int| 0 <= t2 < lcs.len() ==> (#[trigger] lcs[t2]).wf(),
        0 <= t <= tb < lcs.len(),
        tiles_total(lcs, tb) <= x < tiles_total(lcs, tb + 1),
    ensures
        tile_of_from(lcs, x, t) == tb,
    decreases tb - t,
{
    if t < tb {
        lemma_tiles_total_mono(lcs, t + 1, tb);
        lemma_tile_of_unique(lcs, x, tb, t + 1);
    }
}

/// A position inside tile `tb`'s run of country `lc` is assigned class
/// `lc`.
proof fn lemma_local_country_unique(lcs: Seq<Counts>, x: int, tb: int, lc: int)
    requires
        forall|t2: int| 0 <= t2 < lcs.len() ==> (#[trigger] lcs[t2]).wf(),
        lcs.len() >= 1,
        0 <= tb < lcs.len(),
        0 <= lc < 256,
        tiles_total(lcs, tb) + crate::counts::sum_prefix(lcs[tb]@, lc) <= x,
        x < tiles_total(lcs, tb) + crate::counts::sum_prefix(lcs[tb]@, lc + 1),
    ensures
        local_country_of(lcs, x) == lc,
{
    crate::counts::lemma_sum_prefix_mono(lcs[tb]@, 0, lc);
    crate::counts::lemma_sum_prefix_mono(lcs[tb]@, lc + 1, 256);
    assert(tiles_total(lcs, tb + 1) == tiles_total(lcs, tb) + crate::counts::sum_prefix(
        lcs[tb]@,
        256,
    ));
    lemma_tile_of_unique(lcs, x, tb, 0);
    lemma_country_of_unique(lcs[tb]@, x - tiles_total(lcs, tb), lc, 0);
}

/// Position `p` lies inside one of the edges' runs.
pub open spec fn covered_by_edges(es: Seq<Edge>, p: int) -> bool {
    exists|k: int| 0 <= k < es.len() && (#[trigger] es[k]).start <= p < es[k].start + es[k].len
}

/// Walk the bucket range left to right with the per-tile histograms and
/// the global histogram in lockstep, and emit one edge for every maximal
/// same-tile same-byte run that lies outside its own country. Runs that
/// already sit in their destination country are dropped.
///
/// Every emitted edge goes between two distinct countries, lies inside
/// its origin country's region as the global histogram lays the regions
/// out, lies inside one tile's run of its destination byte, and the
/// edges are disjoint, emitted left to right.
#[verifier::rlimit(60)]
pub fn generate_outbounds(
    lo: usize,
    hi: usize,
    local_counts: &Vec<Counts>,
    global_counts: &Counts,
) -> (r: Vec<Edge>)
    requires
        lo <= hi,
        local_counts@.len() >= 1,
        forall|t: int| 0 <= t < local_counts@.len() ==> (#[trigger] local_counts@[t]).wf(),
        global_counts.wf(),
        crate::counts::sum_prefix(global_counts@, 256) == hi - lo,
        tiles_total(local_counts@, local_counts@.len() as int) == hi - lo,
    ensures
        edges_within(r@, lo as int, hi as int),
        edges_mobile(r@),
        forall|k: int|
            0 <= k < r@.len() ==> {
                let e = #[trigger] r@[k];
                &&& e.len >= 1
                &&& crate::counts::sum_prefix(global_counts@, e.init as int) <= e.start - lo
                &&& e.start - lo + e.len <= crate::counts::sum_prefix(
                    global_counts@,
                    e.init + 1,
                )
                &&& exists|t: int|
                    0 <= t < local_counts@.len() && tiles_total(local_counts@, t)
                        + crate::counts::sum_prefix(#[trigger] local_counts@[t]@, e.dst as int)
                        <= e.start - lo && e.start - lo + e.len <= tiles_total(local_counts@, t)
                        + crate::counts::sum_prefix(local_counts@[t]@, e.dst + 1)
            },
        forall|k1: int, k2: int|
            0 <= k1 < k2 < r@.len() ==> (#[trigger] r@[k1]).start + r@[k1].len <= (
            #[trigger] r@[k2]).start,
        forall|x: int|
            #![trigger covered_by_edges(r@, x)]
            lo <= x < hi ==> (covered_by_edges(r@, x) <==> local_country_of(local_counts@, x - lo)
                != country_of(global_counts@, x - lo)),
{
    let ghost lcs = local_counts@;
    let ghost gc = global_counts@;
    let n_tiles = local_counts.len();
    let mut outbounds: Vec<Edge> = Vec::new();
    let mut pos: usize = lo;
    let mut local_bucket: usize = 0;
    let mut local_country: usize = 0;
    let mut global_country: usize = 0;
    let mut target_global_dist = global_counts.get(0);
    let mut target_local_dist = local_counts[0].get(0);
    proof {
        assert(crate::counts::sum_prefix(gc, 0) == 0);
        assert(crate::counts::sum_prefix(gc, 1) == gc[0]);
        assert(tiles_total(lcs, 0) == 0);
        assert(crate::counts::sum_prefix(lcs[0]@, 0) == 0);
        assert(crate::counts::sum_prefix(lcs[0]@, 1) == lcs[0]@[0]);
    }

    while !(global_country == 255 && local_country == 255 && local_bucket == n_tiles - 1)
        invariant
            lo <= pos <= hi,
            local_bucket < n_tiles,
            local_country < 256,
            global_country < 256,
            n_tiles == lcs.len(),
            n_tiles >= 1,
            lcs == local_counts@,
            gc == global_counts@,
            forall|t: int| 0 <= t < lcs.len() ==> (#[trigger] lcs[t]).wf(),
            global_counts.wf(),
            crate::counts::sum_prefix(gc, 256) == hi - lo,
            tiles_total(lcs, lcs.len() as int) == hi - lo,
            pos - lo + target_global_dist == crate::counts::sum_prefix(
                gc,
                global_country + 1,
            ),
            crate::counts::sum_prefix(gc, global_country as int) <= pos - lo,
            pos - lo + target_local_dist == tiles_total(lcs, local_bucket as int)
                + crate::counts::sum_prefix(lcs[local_bucket as int]@, local_country + 1),
            tiles_total(lcs, local_bucket as int) + crate::counts::sum_prefix(
                lcs[local_bucket as int]@,
                local_country as int,
            ) <= pos - lo,
            edges_within(outbounds@, lo as int, hi as int),
            edges_mobile(outbounds@),
            forall|k: int|
                0 <= k < outbounds@.len() ==> {
                    let e = #[trigger] outbounds@[k];
                    &&& e.len >= 1
                    &&& crate::counts::sum_prefix(gc, e.init as int) <= e.start - lo
                    &&& e.start - lo + e.len <= crate::counts::sum_prefix(gc, e.init + 1)
                    &&& e.start + e.len <= pos
                    &&& exists|t: int|
                        0 <= t < lcs.len() && tiles_total(lcs, t) + crate::counts::sum_prefix(
                            #[trigger] lcs[t]@,
                            e.dst as int,
                        ) <= e.start - lo && e.start - lo + e.len <= tiles_total(lcs, t)
                            + crate::counts::sum_prefix(lcs[t]@, e.dst + 1)
                },
            forall|k1: int, k2: int|
                0 <= k1 < k2 < outbounds@.len() ==> (#[trigger] outbounds@[k1]).start
                    + outbounds@[k1].len <= (#[trigger] outbounds@[k2]).start,
            forall|x: int|
                #![trigger covered_by_edges(outbounds@, x)]
                lo <= x < pos ==> (covered_by_edges(outbounds@, x) <==> local_country_of(
                    lcs,
                    x - lo,
                ) != country_of(gc, x - lo)),
        decreases hi - pos, 256 - global_country, n_tiles - local_bucket, 256 - local_country,
    {
        let mut progressed = false;
        let step = if target_global_dist < target_local_dist {
            target_global_dist
        } else {
            target_local_dist
        };
        proof {
            crate::counts::lemma_sum_prefix_mono(gc, global_country + 1, 256);
            assert(step <= hi - pos);
        }

        if step != 0 {
            progressed = true;
            let ghost pos0 = pos as int;
            let ghost out_pre0 = outbounds@;
            if local_country != global_country {
                let ghost out_pre = outbounds@;
                outbounds.push(
                    Edge { dst: local_country, init: global_country, start: pos, len: step },
                );
                proof {
                    assert(outbounds@.drop_last() =~= out_pre);
                    assert forall|k: int| 0 <= k < outbounds@.len() implies {
                        let e = #[trigger] outbounds@[k];
                        &&& e.len >= 1
                        &&& crate::counts::sum_prefix(gc, e.init as int) <= e.start - lo
                        &&& e.start - lo + e.len <= crate::counts::sum_prefix(gc, e.init + 1)
                        &&& exists|t: int|
                            0 <= t < lcs.len() && tiles_total(lcs, t)
                                + crate::counts::sum_prefix(#[trigger] lcs[t]@, e.dst as int)
                                <= e.start - lo && e.start - lo + e.len <= tiles_total(lcs, t)
                                + crate::counts::sum_prefix(lcs[t]@, e.dst + 1)
                    } by {
                        if k < out_pre.len() {
                            assert(outbounds@[k] == out_pre[k]);
                        } else {
                            let e = outbounds@[k];
                            assert(e == outbounds@.last());
                            let tb = local_bucket as int;
                            assert(tiles_total(lcs, tb) + crate::counts::sum_prefix(
                                lcs[tb]@,
                                e.dst as int,
                            ) <= e.start - lo && e.start - lo + e.len <= tiles_total(lcs, tb)
                                + crate::counts::sum_prefix(lcs[tb]@, e.dst + 1));
                        }
                    }
                }
            }
            pos += step;
            proof {
                assert forall|x: int|
                    #![trigger covered_by_edges(outbounds@, x)]
                    lo <= x < pos implies (covered_by_edges(outbounds@, x)
                    <==> local_country_of(lcs, x - lo) != country_of(gc, x - lo)) by {
                    if x < pos0 {
                        if local_country != global_country {
                            if covered_by_edges(out_pre0, x) {
                                let k = choose|k: int|
                                    0 <= k < out_pre0.len() && (#[trigger] out_pre0[k]).start <= x
                                        < out_pre0[k].start + out_pre0[k].len;
                                assert(outbounds@[k] == out_pre0[k]);
                                assert(covered_by_edges(outbounds@, x));
                            }
                            if covered_by_edges(outbounds@, x) {
                                let k = choose|k: int|
                                    0 <= k < outbounds@.len() && (#[trigger] outbounds@[k]).start
                                        <= x < outbounds@[k].start + outbounds@[k].len;
                                if k < out_pre0.len() {
                                    assert(covered_by_edges(out_pre0, x));
                                } else {
                                    assert(outbounds@[k].start == pos0);
                                    assert(false);
                                }
                            }
                        } else {
                            assert(outbounds@ == out_pre0);
                        }
                    } else {
                        lemma_country_of_unique(gc, x - lo, global_country as int, 0);
                        lemma_local_country_unique(
                            lcs,
                            x - lo,
                            local_bucket as int,
                            local_country as int,
                        );
                        if local_country != global_country {
                            assert(outbounds@.last().start <= x < outbounds@.last().start
                                + outbounds@.last().len);
                            assert(covered_by_edges(outbounds@, x));
                        } else {
                            if covered_by_edges(outbounds@, x) {
                                let k = choose|k: int|
                                    0 <= k < outbounds@.len() && (#[trigger] outbounds@[k]).start
                                        <= x < outbounds@[k].start + outbounds@[k].len;
                                assert(outbounds@[k].start + outbounds@[k].len <= pos0);
                                assert(false);
                            }
                        }
                    }
                }
            }
        }

        if step == target_global_dist && global_country < 255 {
            global_country += 1;
            target_global_dist = global_counts.get(global_country);
            progressed = true;
            proof {
                assert(crate::counts::sum_prefix(gc, global_country + 1)
                    == crate::counts::sum_prefix(gc, global_country as int) + gc[
                global_country as int]);
            }
        } else {
            target_global_dist = target_global_dist - step;
        }

        if step == target_local_dist && !(local_bucket == n_tiles - 1 && local_country == 255) {
            if local_country < 255 {
                local_country += 1;
                proof {
                    assert(crate::counts::sum_prefix(lcs[local_bucket as int]@, local_country + 1)
                        == crate::counts::sum_prefix(
                        lcs[local_bucket as int]@,
                        local_country as int,
                    ) + lcs[local_bucket as int]@[local_country as int]);
                }
            } else {
                local_bucket += 1;
                local_country = 0;
                proof {
                    assert(tiles_total(lcs, local_bucket as int) == tiles_total(
                        lcs,
                        local_bucket - 1,
                    ) + crate::counts::sum_prefix(lcs[local_bucket - 1]@, 256));
                    assert(crate::counts::sum_prefix(lcs[local_bucket as int]@, 0) == 0);
                    assert(crate::counts::sum_prefix(lcs[local_bucket as int]@, 1) == lcs[
                    local_bucket as int]@[0]);
                }
            }
            target_local_dist = local_counts[local_bucket].get(local_country);
            progressed = true;
        } else {
            target_local_dist = target_local_dist - step;
        }

        if !progressed {
            // a no-progress round would mean one side's histogram ran
            // out before the other, which the equal-totals premises rule
            // out
            proof {
                assert(step == 0);
                if target_local_dist == 0 {
                    assert(local_bucket == n_tiles - 1 && local_country == 255);
                    assert(pos - lo == tiles_total(lcs, n_tiles - 1) + crate::counts::sum_prefix(
                        lcs[n_tiles - 1]@,
                        256,
                    ));
                    assert(pos - lo == tiles_total(lcs, n_tiles as int));
                    assert(target_global_dist > 0);
                    crate::counts::lemma_sum_prefix_mono(gc, global_country + 1, 256);
                    assert(false);
                } else {
                    assert(target_global_dist == 0);
                    assert(global_country == 255);
                    assert(pos - lo == crate::counts::sum_prefix(gc, 256));
                    lemma_tiles_total_mono(lcs, local_bucket + 1, lcs.len() as int);
                    crate::counts::lemma_sum_prefix_mono(
                        lcs[local_bucket as int]@,
                        local_country + 1,
                        256,
                    );
                    assert(tiles_total(lcs, local_bucket + 1) == tiles_total(
                        lcs,
                        local_bucket as int,
                    ) + crate::counts::sum_prefix(lcs[local_bucket as int]@, 256));
                    assert(false);
                }
            }
        }
    }
    proof {
        assert(tiles_total(lcs, n_tiles as int) == tiles_total(lcs, n_tiles - 1)
            + crate::counts::sum_prefix(lcs[n_tiles - 1]@, 256));
        assert forall|x: int|
            #![trigger covered_by_edges(outbounds@, x)]
            lo <= x < hi implies (covered_by_edges(outbounds@, x) <==> local_country_of(
            lcs,
            x - lo,
        ) != country_of(gc, x - lo)) by {
            if x >= pos {
                lemma_country_of_unique(gc, x - lo, 255, 0);
                lemma_local_country_unique(lcs, x - lo, n_tiles - 1, 255);
                if covered_by_edges(outbounds@, x) {
                    let k = choose|k: int|
                        0 <= k < outbounds@.len() && (#[trigger] outbounds@[k]).start <= x
                            < outbounds@[k].start + outbounds@[k].len;
                    assert(outbounds@[k].start + outbounds@[k].len <= pos);
                    assert(false);
                }
            }
        }
    }
    outbounds
}

/// The operation's two runs have equal length and lie inside a bucket of
/// `n` elements.
pub open spec fn op_in_range(op: Operation, n: int) -> bool {
    &&& op.0.len == op.1.len
    &&& op.0.start + op.0.len <= n
    &&& op.1.start + op.1.len <= n
}

/// The two runs do not overlap.
pub open spec fn runs_disjoint(a: Edge, b: Edge) -> bool {
    a.start + a.len <= b.start || b.start + b.len <= a.start
}

/// No two runs of the batch overlap: each operation's own two runs are
/// disjoint, and so is every run of one operation from every run of
/// another.
pub open spec fn ops_disjoint(ops: Seq<Operation>) -> bool {
    &&& forall|k: int| 0 <= k < ops.len() ==> runs_disjoint((#[trigger] ops[k]).0, ops[k].1)
    &&& forall|k1: int, k2: int|
        0 <= k1 < ops.len() && 0 <= k2 < ops.len() && k1 != k2 ==> {
            &&& runs_disjoint((#[trigger] ops[k1]).0, (#[trigger] ops[k2]).0)
            &&& runs_disjoint(ops[k1].0, ops[k2].1)
            &&& runs_disjoint(ops[k1].1, ops[k2].0)
            &&& runs_disjoint(ops[k1].1, ops[k2].1)
        }
}

/// Position `q` lies in one of the batch's runs.
pub open spec fn covered_by_ops(ops: Seq<Operation>, q: int) -> bool {
    exists|k: int|
        0 <= k < ops.len() && ((#[trigger] ops[k]).0.start <= q < ops[k].0.start + ops[k].0.len
            || ops[k].1.start <= q < ops[k].1.start + ops[k].1.len)
}

/// The edges a batch leaves behind once executed: for each operation
/// whose outbound destination is not the inbound's origin, the swap has
/// put the outbound's old contents — still foreign — into the inbound's
/// run, so that run goes back on the list under the outbound's
/// destination.
pub open spec fn requeued(ops: Seq<Operation>) -> Seq<Edge>
    decreases ops.len(),
{
    if ops.len() == 0 {
        Seq::empty()
    } else {
        requeued(ops.drop_last()) + (if ops.last().1.dst != ops.last().0.init {
            seq![
                Edge {
                    dst: ops.last().1.dst,
                    init: ops.last().0.init,
                    start: ops.last().0.start,
                    len: ops.last().0.len,
                },
            ]
        } else {
            Seq::empty()
        })
    }
}

/// Execute a batch of matched operations: swap each pair's runs element
/// by element, then requeue the edge of every pair whose contents moved
/// closer but not home.
///
/// Each operation's two runs are exchanged, every other position is
/// untouched, the bucket's multiset is preserved, and exactly the
/// `requeued` edges are appended to the shared list.
#[verifier::rlimit(60)]
pub fn execute_operations<T: crate::radix_key::RadixKey>(
    bucket: &mut Vec<T>,
    operations: &Vec<Operation>,
    outbounds: &mut Vec<Edge>,
)
    requires
        forall|k: int|
            0 <= k < operations@.len() ==> op_in_range(
                #[trigger] operations@[k],
                old(bucket).len() as int,
            ),
        ops_disjoint(operations@),
    ensures
        final(bucket).len() == old(bucket).len(),
        final(bucket)@.to_multiset() == old(bucket)@.to_multiset(),
        forall|k: int, t: int|
            #![trigger operations@[k].0.start + t]
            0 <= k < operations@.len() && 0 <= t < operations@[k].0.len ==> {
                &&& final(bucket)@[operations@[k].0.start + t] == old(bucket)@[operations@[k].1.start + t]
                &&& final(bucket)@[operations@[k].1.start + t] == old(bucket)@[operations@[k].0.start + t]
            },
        forall|q: int|
            0 <= q < old(bucket).len() && !covered_by_ops(operations@, q) ==> final(bucket)@[q]
                == old(bucket)@[q],
        final(outbounds)@ == old(outbounds)@ + requeued(operations@),
{
    let n_ops = operations.len();
    let mut i: usize = 0;
    while i < n_ops
        invariant
            i <= n_ops,
            n_ops == operations@.len(),
            bucket.len() == old(bucket).len(),
            forall|k: int|
                0 <= k < operations@.len() ==> op_in_range(
                    #[trigger] operations@[k],
                    old(bucket).len() as int,
                ),
            ops_disjoint(operations@),
            bucket@.to_multiset() == old(bucket)@.to_multiset(),
            forall|k: int, t: int|
                #![trigger operations@[k].0.start + t]
                0 <= k < i && 0 <= t < operations@[k].0.len ==> {
                    &&& bucket@[operations@[k].0.start + t] == old(bucket)@[operations@[k].1.start + t]
                    &&& bucket@[operations@[k].1.start + t] == old(bucket)@[operations@[k].0.start + t]
                },
            forall|q: int|
                0 <= q < old(bucket).len() && !covered_by_ops(operations@.subrange(0, i as int), q)
                    ==> bucket@[q] == old(bucket)@[q],
        decreases n_ops - i,
    {
        let op = operations[i];
        let ghost d_i = bucket@;
        let mut t: usize = 0;
        while t < op.0.len
            invariant
                t <= op.0.len,
                bucket.len() == d_i.len(),
                op_in_range(op, bucket.len() as int),
                runs_disjoint(op.0, op.1),
                bucket@.to_multiset() == d_i.to_multiset(),
                forall|t2: int|
                    #![trigger bucket@[op.0.start + t2]]
                    #![trigger bucket@[op.1.start + t2]]
                    0 <= t2 < t ==> {
                        &&& bucket@[op.0.start + t2] == d_i[op.1.start + t2]
                        &&& bucket@[op.1.start + t2] == d_i[op.0.start + t2]
                    },
                forall|q: int|
                    0 <= q < d_i.len() && !(op.0.start <= q < op.0.start + t) && !(op.1.start
                        <= q < op.1.start + t) ==> bucket@[q] == d_i[q],
            decreases op.0.len - t,
        {
            let a = op.0.start + t;
            let b = op.1.start + t;
            let ghost d_cur = bucket@;
            let x = bucket[a];
            let y = bucket[b];
            bucket[a] = y;
            bucket[b] = x;
            proof {
                assert(a != b);
                assert(bucket@ == d_cur.update(a as int, d_cur[b as int]).update(
                    b as int,
                    d_cur[a as int],
                ));
                crate::counts::lemma_swap_multiset(d_cur, b as int, a as int);
            }
            t += 1;
        }
        proof {
            assert forall|q: int|
                (op.0.start <= q < op.0.start + op.0.len || op.1.start <= q < op.1.start
                    + op.1.len) implies d_i[q] == old(bucket)@[q] by {
                assert(!covered_by_ops(operations@.subrange(0, i as int), q)) by {
                    assert forall|k: int| 0 <= k < i implies !((#[trigger] operations@.subrange(
                        0,
                        i as int,
                    )[k]).0.start <= q < operations@.subrange(0, i as int)[k].0.start
                        + operations@.subrange(0, i as int)[k].0.len || operations@.subrange(
                        0,
                        i as int,
                    )[k].1.start <= q < operations@.subrange(0, i as int)[k].1.start
                        + operations@.subrange(0, i as int)[k].1.len) by {
                        assert(operations@.subrange(0, i as int)[k] == operations@[k]);
                        assert(runs_disjoint(operations@[k].0, op.0));
                        assert(runs_disjoint(operations@[k].0, op.1));
                        assert(runs_disjoint(operations@[k].1, op.0));
                        assert(runs_disjoint(operations@[k].1, op.1));
                    }
                }
            }
            assert forall|q: int|
                0 <= q < old(bucket).len() && !covered_by_ops(
                    operations@.subrange(0, i + 1),
                    q,
                ) implies bucket@[q] == old(bucket)@[q] by {
                assert(!covered_by_ops(operations@.subrange(0, i as int), q)) by {
                    if covered_by_ops(operations@.subrange(0, i as int), q) {
                        let k = choose|k: int|
                            0 <= k < i && ((#[trigger] operations@.subrange(0, i as int)[k]).0.start
                                <= q < operations@.subrange(0, i as int)[k].0.start
                                + operations@.subrange(0, i as int)[k].0.len
                                || operations@.subrange(0, i as int)[k].1.start <= q
                                < operations@.subrange(0, i as int)[k].1.start
                                + operations@.subrange(0, i as int)[k].1.len);
                        assert(operations@.subrange(0, i + 1)[k] == operations@[k]);
                        assert(covered_by_ops(operations@.subrange(0, i + 1), q));
                    }
                }
                assert(operations@.subrange(0, i + 1)[i as int] == operations@[i as int]);
                assert(!(op.0.start <= q < op.0.start + op.0.len) && !(op.1.start <= q
                    < op.1.start + op.1.len));
            }
            assert forall|k: int, t2: int|
                #![trigger operations@[k].0.start + t2]
                0 <= k < i + 1 && 0 <= t2 < operations@[k].0.len implies {
                &&& bucket@[operations@[k].0.start + t2] == old(bucket)@[operations@[k].1.start
                    + t2]
                &&& bucket@[operations@[k].1.start + t2] == old(bucket)@[operations@[k].0.start
                    + t2]
            } by {
                if k < i {
                    assert(runs_disjoint(operations@[k].0, op.0));
                    assert(runs_disjoint(operations@[k].0, op.1));
                    assert(runs_disjoint(operations@[k].1, op.0));
                    assert(runs_disjoint(operations@[k].1, op.1));
                } else {
                    assert(bucket@[op.0.start + t2] == d_i[op.1.start + t2]);
                    assert(bucket@[op.1.start + t2] == d_i[op.0.start + t2]);
                }
            }
        }
        i += 1;
    }

    let ghost out0 = outbounds@;
    let mut j: usize = 0;
    while j < n_ops
        invariant
            j <= n_ops,
            n_ops == operations@.len(),
            outbounds@ == out0 + requeued(operations@.subrange(0, j as int)),
        decreases n_ops - j,
    {
        let op = operations[j];
        proof {
            assert(operations@.subrange(0, j + 1).drop_last() =~= operations@.subrange(
                0,
                j as int,
            ));
            assert(operations@.subrange(0, j + 1).last() == operations@[j as int]);
        }
        if op.1.dst != op.0.init {
            outbounds.push(
                Edge { dst: op.1.dst, init: op.0.init, start: op.0.start, len: op.0.len },
            );
            proof {
                assert(outbounds@ =~= out0 + requeued(operations@.subrange(0, j + 1)));
            }
        } else {
            proof {
                assert(outbounds@ =~= out0 + requeued(operations@.subrange(0, j + 1)));
            }
        }
        j += 1;
    }
    proof {
        assert(operations@.subrange(0, n_ops as int) =~= operations@);
    }
}

} // verus!
