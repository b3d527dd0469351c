//! End-to-end tests of the sort entry points: concrete scenarios, edge
//! cases, and a large randomized comparison against the standard sort.

use rdst::director::sort;
use rdst::director::sort_in_place;
use rdst::director::sort_with_tuner;
use rdst::tuner::Algorithm;
use rdst::tuner::Tuner;
use rdst::tuner::TuningParams;

fn lcg(state: &mut u64) -> u64 {
    *state = state
        .wrapping_mul(6364136223846793005)
        .wrapping_add(1442695040888963407);
    *state
}

#[test]
fn test_sort_small_u32() {
    let mut values: Vec<u32> = vec![3, 1, 2];
    sort(&mut values);
    assert_eq!(values, vec![1, 2, 3]);
}

#[test]
fn test_sort_empty_and_singleton_u64() {
    let mut empty: Vec<u64> = vec![];
    sort(&mut empty);
    assert_eq!(empty, Vec::<u64>::new());

    let mut single: Vec<u64> = vec![42];
    sort(&mut single);
    assert_eq!(single, vec![42]);

    let mut empty2: Vec<u64> = vec![];
    sort_in_place(&mut empty2);
    assert_eq!(empty2, Vec::<u64>::new());

    let mut single2: Vec<u64> = vec![42];
    sort_in_place(&mut single2);
    assert_eq!(single2, vec![42]);
}

#[test]
fn test_sort_u32_extremes() {
    let mut values: Vec<u32> = vec![0xFFFFFFFF, 0, 0x80000000, 1];
    sort(&mut values);
    assert_eq!(values, vec![0, 1, 0x80000000, 0xFFFFFFFF]);
}

#[test]
fn test_sort_i32_signed_order() {
    let mut values: Vec<i32> = vec![-1, 2, -3, 0];
    sort(&mut values);
    assert_eq!(values, vec![-3, -1, 0, 2]);
}

/// The IEEE-754 total-ordering transform: flip the sign bit of
/// non-negative floats, flip all bits of negative ones. Floating-point
/// keys are sorted through this map onto u32.
fn f32_to_ordered_bits(f: f32) -> u32 {
    let b = f.to_bits();
    if b & 0x8000_0000 == 0 { b ^ 0x8000_0000 } else { !b }
}

fn ordered_bits_to_f32(b: u32) -> f32 {
    if b & 0x8000_0000 != 0 {
        f32::from_bits(b ^ 0x8000_0000)
    } else {
        f32::from_bits(!b)
    }
}

#[test]
fn test_sort_f32_total_order() {
    let input: Vec<f32> = vec![f32::NAN, 1.0, -1.0, 0.0, -0.0, f32::NEG_INFINITY, f32::INFINITY];
    let mut keys: Vec<u32> = input.iter().map(|f| f32_to_ordered_bits(*f)).collect();
    sort(&mut keys);
    let sorted: Vec<f32> = keys.iter().map(|b| ordered_bits_to_f32(*b)).collect();

    assert_eq!(sorted[0], f32::NEG_INFINITY);
    assert_eq!(sorted[1], -1.0);
    assert!(sorted[2] == 0.0 && sorted[2].is_sign_negative());
    assert!(sorted[3] == 0.0 && sorted[3].is_sign_positive());
    assert_eq!(sorted[4], 1.0);
    assert_eq!(sorted[5], f32::INFINITY);
    assert!(sorted[6].is_nan());
}

#[test]
fn test_sort_million_u64_shifted() {
    let mut state: u64 = 0x9E3779B97F4A7C15;
    let n = 1_000_000;
    let mut values: Vec<u64> = Vec::with_capacity(n);
    for i in 0..n {
        let v = lcg(&mut state);
        if i < n / 2 {
            values.push(v >> 32);
        } else {
            values.push(v << 32);
        }
    }
    let mut reference = values.clone();
    reference.sort_unstable();
    sort(&mut values);
    assert_eq!(values, reference);
}

#[test]
fn test_sort_idempotent() {
    let mut state: u64 = 7;
    let mut values: Vec<u32> = (0..3000).map(|_| lcg(&mut state) as u32).collect();
    sort(&mut values);
    let first = values.clone();
    sort(&mut values);
    assert_eq!(values, first);
}

#[test]
fn test_sort_in_place_patterns_u32() {
    let patterns: Vec<Vec<u32>> = vec![
        vec![5; 2000],
        (0..2000).collect(),
        (0..2000).rev().collect(),
        (0..2000).map(|i| if i % 2 == 0 { 7 } else { 0x01020304 }).collect(),
    ];
    for p in patterns {
        let mut reference = p.clone();
        reference.sort_unstable();
        let mut values = p.clone();
        sort_in_place(&mut values);
        assert_eq!(values, reference);
        let mut values2 = p;
        sort(&mut values2);
        assert_eq!(values2, reference);
    }
}

#[test]
fn test_sort_preserves_counts() {
    let mut state: u64 = 99;
    let values: Vec<u8> = (0..5000).map(|_| lcg(&mut state) as u8).collect();
    let mut histogram = [0usize; 256];
    for v in &values {
        histogram[*v as usize] += 1;
    }
    let mut sorted = values.clone();
    sort(&mut sorted);
    let mut histogram2 = [0usize; 256];
    for v in &sorted {
        histogram2[*v as usize] += 1;
    }
    assert_eq!(histogram.to_vec(), histogram2.to_vec());
}

struct EveryAlgorithmTuner {
    choice: Algorithm,
}

impl Tuner for EveryAlgorithmTuner {
    fn pick_algorithm(&self, p: &TuningParams) -> Algorithm {
        if p.input_len < 2 {
            return Algorithm::Comparative;
        }
        self.choice
    }
}

#[test]
fn test_sort_under_every_tuner_choice() {
    let choices = vec![
        Algorithm::Comparative,
        Algorithm::Lsb,
        Algorithm::MtLsb,
        Algorithm::Ska,
        Algorithm::Scanning,
        Algorithm::Recombinating,
        Algorithm::Regions,
    ];
    let mut state: u64 = 123;
    let base: Vec<u16> = (0..4000).map(|_| lcg(&mut state) as u16).collect();
    let mut reference = base.clone();
    reference.sort_unstable();
    for choice in choices {
        let tuner = EveryAlgorithmTuner { choice };
        let mut values = base.clone();
        sort_with_tuner(&tuner, &mut values);
        assert_eq!(values, reference);
    }
}

#[test]
fn test_sort_signed_and_wide_types() {
    let mut a: Vec<i64> = vec![9, -9, 0, i64::MIN, i64::MAX, -1];
    sort(&mut a);
    assert_eq!(a, vec![i64::MIN, -9, -1, 0, 9, i64::MAX]);

    let mut b: Vec<i8> = vec![1, -1, 0, i8::MIN, i8::MAX];
    sort_in_place(&mut b);
    assert_eq!(b, vec![i8::MIN, -1, 0, 1, i8::MAX]);

    let mut c: Vec<u128> = vec![u128::MAX, 0, 1 << 100, 1 << 30];
    sort(&mut c);
    assert_eq!(c, vec![0, 1 << 30, 1 << 100, u128::MAX]);

    let mut d: Vec<i128> = vec![-(1 << 100), 1 << 99, -5, 5];
    sort(&mut d);
    assert_eq!(d, vec![-(1 << 100), -5, 5, 1 << 99]);

    let mut e: Vec<isize> = vec![3, -3, 0];
    sort(&mut e);
    assert_eq!(e, vec![-3, 0, 3]);

    let mut f: Vec<u16> = vec![0xFFFF, 0, 0x8000, 0x00FF];
    sort(&mut f);
    assert_eq!(f, vec![0, 0x00FF, 0x8000, 0xFFFF]);
}
