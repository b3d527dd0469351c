//! Algorithm selection: the director asks a `Tuner` which algorithm to
//! run on a sub-bucket, given its size, level and the caller's intent.

use vstd::prelude::*;

verus! {

/// The algorithms the director can dispatch.
#[derive(Clone, Copy, Debug)]
pub enum Algorithm {
    Comparative,
    Lsb,
    MtLsb,
    Ska,
    Scanning,
    Recombinating,
    Regions,
}

/// What a tuner sees of the sub-bucket it must pick an algorithm for.
#[derive(Clone, Copy, Debug)]
pub struct TuningParams {
    /// Elements in the current sub-bucket.
    pub input_len: usize,
    /// The level about to be sorted; 0 is the least significant.
    pub level: usize,
    /// The element type's total number of levels.
    pub total_levels: usize,
    /// Whether the caller asked for parallel work.
    pub parallel: bool,
    /// Whether the caller asked for bounded auxiliary memory.
    pub in_place: bool,
}

/// An algorithm-selection policy. Every choice is safe: the director
/// sorts correctly whatever a tuner returns, so implementations only
/// steer performance.
pub trait Tuner {
    /// Pick the algorithm for one sub-bucket.
    fn pick_algorithm(&self, p: &TuningParams) -> Algorithm;
}

/// Buckets smaller than this go to the comparison fallback.
pub const COMPARATIVE_THRESHOLD: usize = 256;

/// In-place buckets at least this large go to regions sort.
pub const REGIONS_SORT_THRESHOLD: usize = 260000;

/// Out-of-place buckets at least this large go to scanning sort.
pub const SCANNING_SORT_THRESHOLD: usize = 800000;

/// Out-of-place buckets at least this large go to recombinating sort.
pub const RECOMBINATING_SORT_THRESHOLD: usize = 50000;

/// Deepest-level buckets at least this large use the tiled LSB variant.
pub const MT_LSB_THRESHOLD: usize = 350000;

/// The standard rule-of-thumb policy over bucket size, level and depth.
pub struct StandardTuner;

/// The choice the standard policy makes: tiny buckets fall back to
/// comparison; a lowest-level out-of-place bucket runs LSB passes; a
/// large deepest-level bucket the tiled LSB variant; large in-place
/// buckets regions sort and the rest of the in-place ones ska; large
/// out-of-place buckets scanning, middling ones recombinating, and the
/// rest ska.
pub open spec fn standard_choice(p: TuningParams) -> Algorithm {
    if p.input_len < COMPARATIVE_THRESHOLD {
        Algorithm::Comparative
    } else if p.level == 0 && !p.in_place {
        Algorithm::Lsb
    } else if p.total_levels <= p.level + 1 && p.input_len >= MT_LSB_THRESHOLD {
        Algorithm::MtLsb
    } else if p.in_place {
        if p.input_len >= REGIONS_SORT_THRESHOLD {
            Algorithm::Regions
        } else {
            Algorithm::Ska
        }
    } else if p.input_len >= SCANNING_SORT_THRESHOLD {
        Algorithm::Scanning
    } else if p.input_len >= RECOMBINATING_SORT_THRESHOLD {
        Algorithm::Recombinating
    } else {
        Algorithm::Ska
    }
}

/// The standard policy as an executable function, pinned to
/// `standard_choice`.
pub fn standard_pick_algorithm(p: &TuningParams) -> (r: Algorithm)
    ensures
        r == standard_choice(*p),
{
    if p.input_len < COMPARATIVE_THRESHOLD {
        return Algorithm::Comparative;
    }
    if p.level == 0 && !p.in_place {
        return Algorithm::Lsb;
    }
    let depth_is_zero = p.total_levels <= p.level || p.total_levels - p.level == 1;
    if depth_is_zero && p.input_len >= MT_LSB_THRESHOLD {
        return Algorithm::MtLsb;
    }
    if p.in_place {
        if p.input_len >= REGIONS_SORT_THRESHOLD {
            Algorithm::Regions
        } else {
            Algorithm::Ska
        }
    } else if p.input_len >= SCANNING_SORT_THRESHOLD {
        Algorithm::Scanning
    } else if p.input_len >= RECOMBINATING_SORT_THRESHOLD {
        Algorithm::Recombinating
    } else {
        Algorithm::Ska
    }
}

impl Tuner for StandardTuner {
    fn pick_algorithm(&self, p: &TuningParams) -> Algorithm {
        standard_pick_algorithm(p)
    }
}

} // verus!
