//! Per-stage debug trace records.
use vstd::prelude::*;

verus! {

/// The tile-threshold surface captured after the tiles stage.
#[derive(Clone, Debug, PartialEq, Eq)]
pub struct TileTrace {
    /// Number of tiles along the X axis.
    pub tiles_x: usize,
    /// Number of tiles along the Y axis.
    pub tiles_y: usize,
    /// Per-tile thresholds in row-major tile order.
    pub thresholds: Vec<u8>,
    /// Per-tile low-contrast skip flags in row-major tile order.
    pub skip: Vec<bool>,
}

/// The sampled bit matrix of a decoded code, packed as in the bit matrix:
/// `ceil(dim/32)` words per row.
#[derive(Clone, Debug, PartialEq, Eq)]
pub struct BitsTrace {
    /// Module dimension of the sampled square bit matrix.
    pub dim: u32,
    /// Row-major packed words (`ceil(dim/32)` words per row).
    pub words: Vec<u32>,
}

/// Diagnostics for one edge of subpixel corner refinement.
#[derive(Clone, Copy, Debug, PartialEq, Eq, Structural)]
pub struct EdgeRefineTrace {
    /// Edge samples considered during refinement.
    pub points_probed: u32,
    /// Samples retained for the total-least-squares fit.
    pub points_fit: u32,
    /// Samples rejected as outliers.
    pub dropped_outliers: u32,
    /// Whether this edge produced a usable line.
    pub valid: bool,
}

impl Default for EdgeRefineTrace {
    fn default() -> (r: Self)
        ensures
            r == (EdgeRefineTrace { points_probed: 0, points_fit: 0, dropped_outliers: 0, valid: false }),
    {
        EdgeRefineTrace { points_probed: 0, points_fit: 0, dropped_outliers: 0, valid: false }
    }
}

/// Subpixel corner refinement diagnostics: per-edge statistics in
/// top/right/bottom/left order and per-corner success flags in
/// TL/TR/BR/BL order.
#[derive(Clone, Copy, Debug, PartialEq, Eq)]
pub struct RefineTrace {
    /// Per-edge diagnostics in top/right/bottom/left order.
    pub edges: [EdgeRefineTrace; 4],
    /// Per-corner refinement success flags in TL/TR/BR/BL order.
    pub corner_refined: [bool; 4],
}

} // verus!
