//! Unit tests of the individual kernels: counting, prefix sums, end
//! offsets, the scatter passes and their stability, the in-place ska
//! kernel, the LSB and MSB drivers, and the regions-sort edge
//! bookkeeping.

use rdst::counts::CountManager;
use rdst::counts::CountMeta;
use rdst::counts::Counts;
use rdst::lsb_radix_sort::lsb_radix_sort_adapter;
use rdst::msb_ska_sort::msb_ska_sort;
use rdst::sorts::out_of_place_sort::lr_out_of_place_sort;
use rdst::sorts::out_of_place_sort::lr_out_of_place_sort_with_counts;
use rdst::sorts::out_of_place_sort::out_of_place_sort;
use rdst::sorts::out_of_place_sort::out_of_place_sort_with_counts;
use rdst::sorts::regions_sort::execute_operations;
use rdst::sorts::regions_sort::generate_outbounds;
use rdst::sorts::regions_sort::list_operations;
use rdst::sorts::regions_sort::Edge;
use rdst::sorts::regions_sort::Operation;
use rdst::sorts::scanning_radix_sort::partition_region;
use rdst::sorts::scanning_radix_sort::publish_stash;
use rdst::sorts::scanning_radix_sort::stash_distribute;
use rdst::sorts::ska_sort::ska_sort;
use rdst::tuner::standard_pick_algorithm;
use rdst::tuner::Algorithm;
use rdst::tuner::TuningParams;

#[test]
fn test_counts_histogram_and_meta() {
    let mut cm = CountManager::new();
    let bucket: Vec<u8> = vec![3, 3, 7, 0, 7, 7];
    let (counts, already_sorted) = cm.counts(&bucket, 0, 6, 0);
    assert_eq!(counts.get(3), 2);
    assert_eq!(counts.get(7), 3);
    assert_eq!(counts.get(0), 1);
    assert_eq!(counts.get(1), 0);
    assert!(!already_sorted);
    let total: usize = (0..256).map(|b| counts.get(b)).sum();
    assert_eq!(total, bucket.len());
    cm.return_counts(counts);

    let sorted_bucket: Vec<u8> = vec![1, 2, 2, 9];
    let (counts2, already_sorted2) = cm.counts(&sorted_bucket, 0, 4, 0);
    assert!(already_sorted2);
    cm.return_counts(counts2);
}

#[test]
fn test_count_into_meta_first_last() {
    let mut cm = CountManager::new();
    let mut counts = Counts::new();
    let mut meta = CountMeta { first: 0, last: 0, already_sorted: false };
    let bucket: Vec<u8> = vec![5, 1, 9];
    cm.count_into(&mut counts, &mut meta, &bucket, 0, 3, 0);
    assert_eq!(meta.first, 5);
    assert_eq!(meta.last, 9);
    assert!(!meta.already_sorted);

    // a long already-sorted run must be recognised
    let run: Vec<u8> = (0..200).map(|i| (i / 2) as u8).collect();
    cm.count_into(&mut counts, &mut meta, &run, 0, 200, 0);
    assert!(meta.already_sorted);
    assert_eq!(meta.first, 0);
    assert_eq!(meta.last, 99);
    assert_eq!(counts.get(0), 2);
    assert_eq!(counts.get(99), 2);
    assert_eq!(counts.get(100), 0);
}

#[test]
fn test_prefix_sums_and_end_offsets() {
    let mut cm = CountManager::new();
    let bucket: Vec<u8> = vec![2, 0, 2, 1, 2];
    let (counts, _) = cm.counts(&bucket, 0, 5, 0);
    let prefix_sums = cm.prefix_sums(&counts);
    assert_eq!(prefix_sums.get(0), 0);
    assert_eq!(prefix_sums.get(1), 1);
    assert_eq!(prefix_sums.get(2), 2);
    assert_eq!(prefix_sums.get(3), 5);
    assert_eq!(prefix_sums.get(255), 5);
    let end_offsets = cm.end_offsets(&counts, &prefix_sums);
    assert_eq!(end_offsets.get(0), 1);
    assert_eq!(end_offsets.get(1), 2);
    assert_eq!(end_offsets.get(2), 5);
    assert_eq!(end_offsets.get(255), 5);
    cm.return_counts(counts);
    cm.return_counts(prefix_sums);
    cm.return_counts(end_offsets);
}

#[test]
fn test_out_of_place_sort_is_stable_within_class() {
    let mut cm = CountManager::new();
    // all elements share the low byte, so the scatter at level 0 must
    // keep their original order
    let src: Vec<u16> = vec![0x0201, 0x0101, 0x0301];
    let mut dst: Vec<u16> = vec![0; 3];
    let (counts, _) = cm.counts(&src, 0, 3, 0);
    let mut prefix_sums = cm.prefix_sums(&counts);
    out_of_place_sort(&src, 0, 3, &mut dst, 0, 0, &mut prefix_sums);
    assert_eq!(dst, vec![0x0201, 0x0101, 0x0301]);

    // two classes, order kept within each
    let src2: Vec<u16> = vec![0x0102, 0x0201, 0x0101, 0x0202, 0x0301];
    let mut dst2: Vec<u16> = vec![0; 5];
    let (counts2, _) = cm.counts(&src2, 0, 5, 0);
    let mut prefix_sums2 = cm.prefix_sums(&counts2);
    out_of_place_sort(&src2, 0, 5, &mut dst2, 0, 0, &mut prefix_sums2);
    assert_eq!(dst2, vec![0x0201, 0x0101, 0x0301, 0x0102, 0x0202]);
}

#[test]
fn test_lr_out_of_place_sort_matches_stable_scatter() {
    let mut cm = CountManager::new();
    let src: Vec<u16> = vec![0x0102, 0x0201, 0x0101, 0x0202, 0x0301, 0x0401, 0x0302, 0x0501];
    let n = src.len();
    let (counts, _) = cm.counts(&src, 0, n, 0);
    let mut prefix_sums = cm.prefix_sums(&counts);
    let mut ends = cm.end_offsets(&counts, &prefix_sums);

    let mut dst_lr: Vec<u16> = vec![0; n];
    lr_out_of_place_sort(&src, 0, n, &mut dst_lr, 0, 0, &mut prefix_sums, &mut ends);

    let mut prefix_sums2 = cm.prefix_sums(&counts);
    let mut dst_plain: Vec<u16> = vec![0; n];
    out_of_place_sort(&src, 0, n, &mut dst_plain, 0, 0, &mut prefix_sums2);

    assert_eq!(dst_lr, dst_plain);
}

#[test]
fn test_scatter_with_counts_tallies_next_level() {
    let mut cm = CountManager::new();
    let src: Vec<u16> = vec![0x0102, 0x0201, 0x0101, 0x0202, 0x0301];
    let n = src.len();
    let (counts, _) = cm.counts(&src, 0, n, 0);
    let mut prefix_sums = cm.prefix_sums(&counts);
    let mut next_counts = Counts::new();
    let mut scratch = Counts::new();
    let mut dst: Vec<u16> = vec![0; n];
    out_of_place_sort_with_counts(
        &src, 0, n, &mut dst, 0, 0, &mut prefix_sums, &mut next_counts, &mut scratch,
    );
    // histogram of the high bytes
    assert_eq!(next_counts.get(1), 2);
    assert_eq!(next_counts.get(2), 2);
    assert_eq!(next_counts.get(3), 1);
    assert_eq!(next_counts.get(0), 0);

    let mut prefix_sums2 = cm.prefix_sums(&counts);
    let mut ends = cm.end_offsets(&counts, &prefix_sums2);
    let mut next_counts2 = Counts::new();
    let mut scratch2 = Counts::new();
    let mut dst2: Vec<u16> = vec![0; n];
    lr_out_of_place_sort_with_counts(
        &src, 0, n, &mut dst2, 0, 0, &mut prefix_sums2, &mut ends, &mut next_counts2,
        &mut scratch2,
    );
    assert_eq!(dst2, dst);
    assert_eq!(next_counts2.get(1), 2);
    assert_eq!(next_counts2.get(2), 2);
    assert_eq!(next_counts2.get(3), 1);
}

#[test]
fn test_ska_sort_partitions_in_place() {
    let mut cm = CountManager::new();
    let mut bucket: Vec<u8> = vec![9, 1, 9, 1, 5, 9, 1, 5];
    let n = bucket.len();
    let (counts, _) = cm.counts(&bucket, 0, n, 0);
    let mut prefix_sums = cm.prefix_sums(&counts);
    let end_offsets = cm.end_offsets(&counts, &prefix_sums);
    ska_sort(&mut bucket, 0, n, &mut prefix_sums, &end_offsets, 0);
    assert_eq!(bucket, vec![1, 1, 1, 5, 5, 9, 9, 9]);
}

#[test]
fn test_ska_sort_on_subrange_leaves_rest() {
    let mut cm = CountManager::new();
    let mut bucket: Vec<u8> = vec![42, 3, 1, 2, 42];
    let (counts, _) = cm.counts(&bucket, 1, 4, 0);
    let mut prefix_sums = cm.prefix_sums(&counts);
    let end_offsets = cm.end_offsets(&counts, &prefix_sums);
    ska_sort(&mut bucket, 1, 4, &mut prefix_sums, &end_offsets, 0);
    assert_eq!(bucket, vec![42, 1, 2, 3, 42]);
}

#[test]
fn test_lsb_radix_sort_adapter_ranges() {
    let mut cm = CountManager::new();
    let mut bucket: Vec<u32> = vec![0xDEAD, 0x00030201, 0x00010203, 0x00020202, 0xBEEF];
    lsb_radix_sort_adapter(&mut cm, &mut bucket, 1, 4, 3, 0);
    assert_eq!(bucket, vec![0xDEAD, 0x00010203, 0x00020202, 0x00030201, 0xBEEF]);

    // sorting only the low two levels orders by the low 16 bits
    let mut partial: Vec<u32> = vec![0x00020001, 0x00010002];
    lsb_radix_sort_adapter(&mut cm, &mut partial, 0, 2, 1, 0);
    assert_eq!(partial, vec![0x00020001, 0x00010002]);
}

#[test]
fn test_msb_ska_sort_sorts() {
    let mut cm = CountManager::new();
    let mut bucket: Vec<u32> = vec![7, 0xFFFFFFFF, 0, 0x80000000, 7, 1];
    let n = bucket.len();
    msb_ska_sort(&mut cm, &mut bucket, 0, n, 3);
    assert_eq!(bucket, vec![0, 1, 7, 7, 0x80000000, 0xFFFFFFFF]);
}

#[test]
fn test_generate_outbounds_homogeneous_tiles() {
    // one tile whose layout equals the global layout: nothing to move
    let mut tile = Counts::new();
    tile.set(0, 2);
    tile.set(1, 2);
    let mut global = Counts::new();
    global.set(0, 2);
    global.set(1, 2);
    let tiles = vec![tile];
    let edges = generate_outbounds(0, 4, &tiles, &global);
    assert_eq!(edges.len(), 0);
}

#[test]
fn test_generate_outbounds_two_tiles() {
    // tile one holds a byte-1 element, tile two a byte-0 element: both
    // sit in the other's country
    let mut tile1 = Counts::new();
    tile1.set(1, 1);
    let mut tile2 = Counts::new();
    tile2.set(0, 1);
    let mut global = Counts::new();
    global.set(0, 1);
    global.set(1, 1);
    let tiles = vec![tile1, tile2];
    let edges = generate_outbounds(0, 2, &tiles, &global);
    assert_eq!(edges.len(), 2);
    assert_eq!(edges[0].dst, 1);
    assert_eq!(edges[0].init, 0);
    assert_eq!(edges[0].start, 0);
    assert_eq!(edges[0].len, 1);
    assert_eq!(edges[1].dst, 0);
    assert_eq!(edges[1].init, 1);
    assert_eq!(edges[1].start, 1);
    assert_eq!(edges[1].len, 1);
}

#[test]
fn test_list_operations_pairs_and_splits() {
    // country 5 has one inbound run of 3 and one outbound run of 2: the
    // pairing must swap 2 elements and keep an inbound remainder
    let inbound = Edge { dst: 5, init: 2, start: 10, len: 3 };
    let other = Edge { dst: 1, init: 3, start: 40, len: 4 };
    let outbound = Edge { dst: 7, init: 5, start: 20, len: 2 };
    let mut outbounds = vec![inbound, other, outbound];
    let mut operations = Vec::new();
    let mut inbounds_scratch = Vec::new();
    let mut outbounds_scratch = Vec::new();
    list_operations(
        5,
        &mut outbounds,
        &mut operations,
        &mut inbounds_scratch,
        &mut outbounds_scratch,
    );
    assert_eq!(operations.len(), 1);
    let op = &operations[0];
    assert_eq!(op.0.len, op.1.len);
    assert_eq!(op.0.len, 2);
    assert_eq!(op.0.dst, 5);
    assert_eq!(op.1.init, 5);
    assert_eq!(op.1.start, 20);
    // the unpaired inbound remainder and the untouched edge returned
    assert_eq!(outbounds.len(), 2);
    let total_len: usize = outbounds.iter().map(|e| e.len).sum();
    assert_eq!(total_len, 4 + 1);
}

#[test]
fn test_execute_operations_swaps_and_requeues() {
    let mut bucket: Vec<u8> = vec![9, 9, 1, 1, 5, 5];
    // inbound: two byte-9 elements sitting in country 1's area;
    // outbound: country 1's area holds two byte-5 elements
    let inbound = Edge { dst: 9, init: 1, start: 0, len: 2 };
    let outbound = Edge { dst: 5, init: 9, start: 4, len: 2 };
    let ops = vec![Operation(inbound, outbound)];
    let mut outbounds: Vec<Edge> = Vec::new();
    execute_operations(&mut bucket, &ops, &mut outbounds);
    assert_eq!(bucket, vec![5, 5, 1, 1, 9, 9]);
    // the outbound's contents (dst 5) landed in the inbound's run, which
    // sits in country 1, so one edge is requeued
    assert_eq!(outbounds.len(), 1);
    assert_eq!(outbounds[0].dst, 5);
    assert_eq!(outbounds[0].init, 1);
    assert_eq!(outbounds[0].start, 0);
    assert_eq!(outbounds[0].len, 2);

    // a pair that lands home requeues nothing
    let mut bucket2: Vec<u8> = vec![7, 3];
    let ops2 = vec![
        Operation(
            Edge { dst: 7, init: 3, start: 0, len: 1 },
            Edge { dst: 3, init: 7, start: 1, len: 1 },
        ),
    ];
    let mut outbounds2: Vec<Edge> = Vec::new();
    execute_operations(&mut bucket2, &ops2, &mut outbounds2);
    assert_eq!(bucket2, vec![3, 7]);
    assert_eq!(outbounds2.len(), 0);
}

#[test]
fn test_scanning_kernels() {
    // classification into per-byte stashes keeps order
    let mut stash: Vec<Vec<u8>> = (0..256).map(|_| Vec::new()).collect();
    let bucket: Vec<u8> = vec![2, 7, 2, 9, 7, 2];
    stash_distribute(&mut stash, &bucket, 1, 5, 0);
    assert_eq!(stash[7], vec![7, 7]);
    assert_eq!(stash[2], vec![2]);
    assert_eq!(stash[9], vec![9]);
    assert_eq!(stash[0].len(), 0);

    // publishing writes the stash tail in order and truncates it
    let mut region: Vec<u8> = vec![0, 0, 0, 0];
    let mut own: Vec<u8> = vec![1, 2, 3];
    publish_stash(&mut region, 1, &mut own, 2);
    assert_eq!(region, vec![0, 2, 3, 0]);
    assert_eq!(own, vec![1]);

    // the local partition puts the region's own byte first
    let mut chunk: Vec<u8> = vec![4, 8, 4, 1, 4];
    let boundary = partition_region(&mut chunk, 0, 5, 0, 4);
    assert_eq!(boundary, 3);
    assert!(chunk[..3].iter().all(|v| *v == 4));
    let mut rest: Vec<u8> = chunk[3..].to_vec();
    rest.sort_unstable();
    assert_eq!(rest, vec![1, 8]);
}

#[test]
fn test_standard_tuner_choices() {
    let p = |input_len: usize, level: usize, total_levels: usize, in_place: bool| TuningParams {
        input_len,
        level,
        total_levels,
        parallel: false,
        in_place,
    };
    assert!(matches!(standard_pick_algorithm(&p(100, 3, 4, false)), Algorithm::Comparative));
    assert!(matches!(standard_pick_algorithm(&p(1000, 0, 4, false)), Algorithm::Lsb));
    assert!(matches!(standard_pick_algorithm(&p(400_000, 3, 4, false)), Algorithm::MtLsb));
    assert!(matches!(standard_pick_algorithm(&p(300_000, 2, 4, true)), Algorithm::Regions));
    assert!(matches!(standard_pick_algorithm(&p(1000, 2, 4, true)), Algorithm::Ska));
    assert!(matches!(standard_pick_algorithm(&p(900_000, 2, 4, false)), Algorithm::Scanning));
    assert!(matches!(
        standard_pick_algorithm(&p(60_000, 2, 4, false)),
        Algorithm::Recombinating
    ));
    assert!(matches!(standard_pick_algorithm(&p(1000, 2, 4, false)), Algorithm::Ska));
}
