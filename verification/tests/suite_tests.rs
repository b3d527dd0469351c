//! Comparison suites for the comparison fallback and the tuner-driven
//! ska driver, one per primitive unsigned type: a deterministic
//! pseudorandom input with half the values shifted right and half
//! shifted left — so that the byte distribution is skewed at both ends
//! — must sort exactly as the standard library's sort.

use rdst::counts::CountManager;
use rdst::sorts::comparative_sort::comparative_sort;
use rdst::sorts::ska_sort::ska_sort_adapter;
use rdst::tuner::StandardTuner;

fn lcg(state: &mut u64) -> u64 {
    *state = state
        .wrapping_mul(6364136223846793005)
        .wrapping_add(1442695040888963407);
    *state
}

fn raw(n: usize, seed: u64) -> Vec<u64> {
    let mut state = seed;
    (0..n).map(|_| lcg(&mut state)).collect()
}

const COMPARATIVE_N: usize = 2000;
const SKA_N: usize = 20000;

#[test]
fn comparative_sort_test_u8() {
    let mut v: Vec<u8> = raw(COMPARATIVE_N, 1).iter().map(|x| *x as u8).collect();
    let mut reference = v.clone();
    reference.sort_unstable();
    let n = v.len();
    comparative_sort(&mut v, 0, n, 0);
    assert_eq!(v, reference);
}

#[test]
fn comparative_sort_test_u16() {
    let mut v: Vec<u16> = raw(COMPARATIVE_N, 2).iter().map(|x| *x as u16).collect();
    let half = v.len() / 2;
    for x in v[..half].iter_mut() {
        *x >>= 8;
    }
    for x in v[half..].iter_mut() {
        *x <<= 8;
    }
    let mut reference = v.clone();
    reference.sort_unstable();
    let n = v.len();
    comparative_sort(&mut v, 0, n, 1);
    assert_eq!(v, reference);
}

#[test]
fn comparative_sort_test_u32() {
    let mut v: Vec<u32> = raw(COMPARATIVE_N, 3).iter().map(|x| *x as u32).collect();
    let half = v.len() / 2;
    for x in v[..half].iter_mut() {
        *x >>= 16;
    }
    for x in v[half..].iter_mut() {
        *x <<= 16;
    }
    let mut reference = v.clone();
    reference.sort_unstable();
    let n = v.len();
    comparative_sort(&mut v, 0, n, 3);
    assert_eq!(v, reference);
}

#[test]
fn comparative_sort_test_u64() {
    let mut v: Vec<u64> = raw(COMPARATIVE_N, 4);
    let half = v.len() / 2;
    for x in v[..half].iter_mut() {
        *x >>= 32;
    }
    for x in v[half..].iter_mut() {
        *x <<= 32;
    }
    let mut reference = v.clone();
    reference.sort_unstable();
    let n = v.len();
    comparative_sort(&mut v, 0, n, 7);
    assert_eq!(v, reference);
}

#[test]
fn comparative_sort_test_u128() {
    let mut v: Vec<u128> = raw(COMPARATIVE_N, 5)
        .iter()
        .map(|x| (*x as u128) << 64 | (*x as u128).rotate_left(17))
        .collect();
    let half = v.len() / 2;
    for x in v[..half].iter_mut() {
        *x >>= 64;
    }
    for x in v[half..].iter_mut() {
        *x <<= 64;
    }
    let mut reference = v.clone();
    reference.sort_unstable();
    let n = v.len();
    comparative_sort(&mut v, 0, n, 15);
    assert_eq!(v, reference);
}

#[test]
fn comparative_sort_test_usize() {
    let mut v: Vec<usize> = raw(COMPARATIVE_N, 6).iter().map(|x| *x as usize).collect();
    let half = v.len() / 2;
    for x in v[..half].iter_mut() {
        *x >>= 32;
    }
    for x in v[half..].iter_mut() {
        *x <<= 32;
    }
    let mut reference = v.clone();
    reference.sort_unstable();
    let n = v.len();
    comparative_sort(&mut v, 0, n, 7);
    assert_eq!(v, reference);
}

#[test]
fn ska_sort_test_u8() {
    let mut v: Vec<u8> = raw(SKA_N, 11).iter().map(|x| *x as u8).collect();
    let mut reference = v.clone();
    reference.sort_unstable();
    let n = v.len();
    let mut cm = CountManager::new();
    ska_sort_adapter(&mut cm, &StandardTuner, true, &mut v, 0, n, 0);
    assert_eq!(v, reference);
}

#[test]
fn ska_sort_test_u16() {
    let mut v: Vec<u16> = raw(SKA_N, 12).iter().map(|x| *x as u16).collect();
    let half = v.len() / 2;
    for x in v[..half].iter_mut() {
        *x >>= 8;
    }
    for x in v[half..].iter_mut() {
        *x <<= 8;
    }
    let mut reference = v.clone();
    reference.sort_unstable();
    let n = v.len();
    let mut cm = CountManager::new();
    ska_sort_adapter(&mut cm, &StandardTuner, true, &mut v, 0, n, 1);
    assert_eq!(v, reference);
}

#[test]
fn ska_sort_test_u32() {
    let mut v: Vec<u32> = raw(SKA_N, 13).iter().map(|x| *x as u32).collect();
    let half = v.len() / 2;
    for x in v[..half].iter_mut() {
        *x >>= 16;
    }
    for x in v[half..].iter_mut() {
        *x <<= 16;
    }
    let mut reference = v.clone();
    reference.sort_unstable();
    let n = v.len();
    let mut cm = CountManager::new();
    ska_sort_adapter(&mut cm, &StandardTuner, true, &mut v, 0, n, 3);
    assert_eq!(v, reference);
}

#[test]
fn ska_sort_test_u64() {
    let mut v: Vec<u64> = raw(SKA_N, 14);
    let half = v.len() / 2;
    for x in v[..half].iter_mut() {
        *x >>= 32;
    }
    for x in v[half..].iter_mut() {
        *x <<= 32;
    }
    let mut reference = v.clone();
    reference.sort_unstable();
    let n = v.len();
    let mut cm = CountManager::new();
    ska_sort_adapter(&mut cm, &StandardTuner, true, &mut v, 0, n, 7);
    assert_eq!(v, reference);
}

#[test]
fn ska_sort_test_u128() {
    let mut v: Vec<u128> = raw(SKA_N, 15)
        .iter()
        .map(|x| (*x as u128) << 64 | (*x as u128).rotate_left(29))
        .collect();
    let half = v.len() / 2;
    for x in v[..half].iter_mut() {
        *x >>= 64;
    }
    for x in v[half..].iter_mut() {
        *x <<= 64;
    }
    let mut reference = v.clone();
    reference.sort_unstable();
    let n = v.len();
    let mut cm = CountManager::new();
    ska_sort_adapter(&mut cm, &StandardTuner, true, &mut v, 0, n, 15);
    assert_eq!(v, reference);
}

#[test]
fn ska_sort_test_usize() {
    let mut v: Vec<usize> = raw(SKA_N, 16).iter().map(|x| *x as usize).collect();
    let half = v.len() / 2;
    for x in v[..half].iter_mut() {
        *x >>= 32;
    }
    for x in v[half..].iter_mut() {
        *x <<= 32;
    }
    let mut reference = v.clone();
    reference.sort_unstable();
    let n = v.len();
    let mut cm = CountManager::new();
    ska_sort_adapter(&mut cm, &StandardTuner, true, &mut v, 0, n, 7);
    assert_eq!(v, reference);
}

#[test]
fn test_empty() {
    // This is expected not to panic
    let mut empty: Vec<usize> = Vec::new();
    comparative_sort(&mut empty, 0, 0, 0);
    assert_eq!(empty.len(), 0);
}
