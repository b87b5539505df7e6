//! Scan options and per-stage timing records.
use vstd::prelude::*;

verus! {

/// Options controlling a scan's working-resolution budget and subpixel
/// corner refinement.
#[derive(Clone, Copy, Debug, PartialEq, Eq, Structural)]
pub struct ScanOptions {
    /// Cap on the working view's longest side, in source pixels; `0`
    /// disables downscaling.
    pub max_working_dim: u32,
    /// Whether decoded codes get subpixel-refined corners.
    pub refine: bool,
}

/// Per-stage wall-clock time in nanoseconds.
#[derive(Clone, Copy, Debug, PartialEq, Eq, Structural)]
pub struct StageTimings {
    /// Tile thresholding.
    pub tiles_ns: u64,
    /// Finder candidate search.
    pub finders_ns: u64,
    /// Triplet grouping.
    pub triplets_ns: u64,
    /// Timing cross-check and version-bits reading, summed over attempts.
    pub version_ns: u64,
    /// Alignment-pattern location, summed over attempts.
    pub alignment_ns: u64,
    /// Grid sampling and bit decoding, summed over attempts.
    pub sample_decode_ns: u64,
}

impl Default for StageTimings {
    fn default() -> (r: Self)
        ensures
            r == (StageTimings {
                tiles_ns: 0,
                finders_ns: 0,
                triplets_ns: 0,
                version_ns: 0,
                alignment_ns: 0,
                sample_decode_ns: 0,
            }),
    {
        StageTimings {
            tiles_ns: 0,
            finders_ns: 0,
            triplets_ns: 0,
            version_ns: 0,
            alignment_ns: 0,
            sample_decode_ns: 0,
        }
    }
}

} // verus!
