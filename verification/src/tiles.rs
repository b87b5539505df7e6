//! The QR scanner's binarization grid: fixed 16-pixel tiles over the
//! reusable tile threshold surface.
use crate::image::Gray8View;
use crate::trace::TileTrace;
use crate::tile_threshold::{
    lemma_tile_count_pos, lemma_tile_of_pixel, lemma_tiling, midrange, neighborhood_stats, threshold_from_base,
    tile_count, tile_config_error, clamp_u8, TileStats, TileThresholdConfig, TileThresholdGrid,
};
use vstd::prelude::*;

verus! {

/// Tile edge in pixels.
pub const TILE: usize = 16;

/// Default minimum (max − min) tile contrast: 6σ of a σ≈2 sensor-noise model.
pub const CONTRAST_FLOOR: u8 = 12;

/// Binarization parameters for [`TileGrid::build_with`]. The default is the
/// plain midrange rule of [`TileGrid::build`].
#[derive(Clone, Copy, Debug, PartialEq, Eq, Structural)]
pub struct BinarizeSpec {
    /// Additive offset applied to each tile threshold.
    pub threshold_offset: i16,
    /// Minimum (max − min) contrast before a tile is marked skip.
    pub contrast_floor: u8,
    /// Use a Sauvola base threshold instead of the midrange when `true`.
    pub sauvola: bool,
}

impl Default for BinarizeSpec {
    fn default() -> (r: Self)
        ensures
            r == (BinarizeSpec { threshold_offset: 0, contrast_floor: CONTRAST_FLOOR, sauvola: false }),
    {
        BinarizeSpec { threshold_offset: 0, contrast_floor: CONTRAST_FLOOR, sauvola: false }
    }
}

/// The tile threshold configuration a [`BinarizeSpec`] stands for.
pub open spec fn spec_config(spec: BinarizeSpec) -> TileThresholdConfig {
    TileThresholdConfig {
        tile_width: TILE,
        tile_height: TILE,
        neighborhood_radius: 1,
        threshold_offset: spec.threshold_offset,
        contrast_floor: spec.contrast_floor,
    }
}

/// `r` is what [`TileGrid::build_with`] builds for `view` under `spec`:
/// tile counts covering the view, and for every tile the neighborhood
/// midrange (or, with `spec.sauvola`, a base `sauvola_base` may return on
/// the neighborhood statistics, clamped to a byte) plus the offset, clamped
/// to a byte, with
/// the skip flag set below the contrast floor.
pub open spec fn built_with<F: Fn(TileStats) -> i16>(
    r: TileGrid,
    view: Gray8View,
    spec: BinarizeSpec,
    sauvola_base: F,
) -> bool {
    &&& r.wf()
    &&& r.columns() == tile_count(view.w() as int, TILE as int)
    &&& r.rows() == tile_count(view.h() as int, TILE as int)
    &&& forall|i: int|
        0 <= i < r.columns() * r.rows() ==> {
            let stats = neighborhood_stats(
                view,
                spec_config(spec),
                i % r.columns() as int,
                i / r.columns() as int,
                spec.sauvola,
            );
            &&& !spec.sauvola ==> #[trigger] r.surface().threshold_seq()[i] == clamp_u8(
                midrange(stats) + spec.threshold_offset,
            )
            &&& spec.sauvola ==> threshold_from_base(
                sauvola_base,
                stats,
                r.surface().threshold_seq()[i],
                spec.threshold_offset,
            )
            &&& r.surface().skip_seq()[i] == (stats.maximum - stats.minimum < spec.contrast_floor)
        }
}

/// Tile thresholds and low-contrast flags of a frame, on 16-pixel tiles.
pub struct TileGrid {
    /// Number of tiles along the X axis.
    pub tiles_x: usize,
    /// Number of tiles along the Y axis.
    pub tiles_y: usize,
    inner: TileThresholdGrid,
}

impl TileGrid {
    /// The underlying threshold surface.
    pub closed spec fn surface(&self) -> TileThresholdGrid {
        self.inner
    }

    /// Number of tile columns.
    pub closed spec fn columns(&self) -> nat {
        self.tiles_x as nat
    }

    /// Number of tile rows.
    pub closed spec fn rows(&self) -> nat {
        self.tiles_y as nat
    }

    /// The surface is well formed, on 16-pixel tiles, with matching counts.
    pub open spec fn wf(&self) -> bool {
        &&& self.surface().wf()
        &&& self.surface().tw() == TILE
        &&& self.surface().th() == TILE
        &&& self.columns() == self.surface().columns()
        &&& self.rows() == self.surface().rows()
    }

    /// Build a tile grid with the default binarization specification.
    pub fn build(view: &Gray8View) -> (r: Self)
        requires
            view.wf(),
        ensures
            r.wf(),
            r.columns() == tile_count(view.w() as int, TILE as int),
            r.rows() == tile_count(view.h() as int, TILE as int),
            forall|i: int|
                0 <= i < r.columns() * r.rows() ==> {
                    let stats = neighborhood_stats(
                        *view,
                        spec_config(BinarizeSpec { threshold_offset: 0, contrast_floor: CONTRAST_FLOOR, sauvola: false }),
                        i % r.columns() as int,
                        i / r.columns() as int,
                        false,
                    );
                    &&& #[trigger] r.surface().threshold_seq()[i] == clamp_u8(midrange(stats))
                    &&& r.surface().skip_seq()[i] == (stats.maximum - stats.minimum
                        < CONTRAST_FLOOR)
                },
    {
        let spec = BinarizeSpec::default();
        Self::build_midrange(view, spec)
    }

    /// Midrange construction shared by [`Self::build`] and
    /// [`Self::build_with`].
    fn build_midrange(view: &Gray8View, spec: BinarizeSpec) -> (r: Self)
        requires
            view.wf(),
        ensures
            r.wf(),
            r.columns() == tile_count(view.w() as int, TILE as int),
            r.rows() == tile_count(view.h() as int, TILE as int),
            forall|i: int|
                0 <= i < r.columns() * r.rows() ==> {
                    let stats = neighborhood_stats(
                        *view,
                        spec_config(spec),
                        i % r.columns() as int,
                        i / r.columns() as int,
                        false,
                    );
                    &&& #[trigger] r.surface().threshold_seq()[i] == clamp_u8(
                        midrange(stats) + spec.threshold_offset,
                    )
                    &&& r.surface().skip_seq()[i] == (stats.maximum - stats.minimum
                        < spec.contrast_floor)
                },
    {
        proof {
            lemma_config_valid(*view, spec);
        }
        let config = TileThresholdConfig {
            tile_width: TILE,
            tile_height: TILE,
            neighborhood_radius: 1,
            threshold_offset: spec.threshold_offset,
            contrast_floor: spec.contrast_floor,
        };
        match TileThresholdGrid::build(*view, config) {
            Ok(inner) => TileGrid { tiles_x: inner.tiles_x(), tiles_y: inner.tiles_y(), inner },
            Err(_) => vstd::pervasive::unreached(),
        }
    }

    /// Build a tile grid with an explicit [`BinarizeSpec`]. With
    /// `spec.sauvola`, each tile's base threshold is what `sauvola_base`
    /// returns on its neighborhood statistics (moments included), clamped
    /// to `0..=255` before the offset is added; otherwise
    /// it is the neighborhood midrange and `sauvola_base` is not called.
    pub fn build_with<F: Fn(TileStats) -> i16>(view: &Gray8View, spec: BinarizeSpec, sauvola_base: F) -> (r:
        Self)
        requires
            view.wf(),
            spec.sauvola ==> view.w() * view.h() * 65025 <= u64::MAX,
            forall|s: TileStats| #[trigger] sauvola_base.requires((s,)),
        ensures
            built_with(r, *view, spec, sauvola_base),
    {
        if !spec.sauvola {
            return Self::build_midrange(view, spec);
        }
        proof {
            lemma_config_valid(*view, spec);
        }
        let config = TileThresholdConfig {
            tile_width: TILE,
            tile_height: TILE,
            neighborhood_radius: 1,
            threshold_offset: spec.threshold_offset,
            contrast_floor: spec.contrast_floor,
        };
        match TileThresholdGrid::build_with_base(*view, config, sauvola_base) {
            Ok(inner) => TileGrid { tiles_x: inner.tiles_x(), tiles_y: inner.tiles_y(), inner },
            Err(_) => vstd::pervasive::unreached(),
        }
    }

    /// Number of tile columns.
    pub fn tile_columns(&self) -> (r: usize)
        ensures
            r == self.columns(),
    {
        self.tiles_x
    }

    /// Number of tile rows.
    pub fn tile_rows(&self) -> (r: usize)
        ensures
            r == self.rows(),
    {
        self.tiles_y
    }

    /// Threshold for the tile containing pixel `(x, y)`.
    pub fn threshold_at(&self, x: usize, y: usize) -> (r: u8)
        requires
            self.wf(),
            (x as int) / (TILE as int) < self.columns(),
            (y as int) / (TILE as int) < self.rows(),
        ensures
            r == self.surface().threshold_seq()[self.surface().tile_index(x as int, y as int)],
    {
        self.inner.threshold_at(x, y)
    }

    /// Whether the tile containing pixel `(x, y)` is low-contrast.
    pub fn is_skip(&self, x: usize, y: usize) -> (r: bool)
        requires
            self.wf(),
            (x as int) / (TILE as int) < self.columns(),
            (y as int) / (TILE as int) < self.rows(),
        ensures
            r == self.surface().skip_seq()[self.surface().tile_index(x as int, y as int)],
    {
        self.inner.is_skip(x, y)
    }

    /// The grid as a debug trace record.
    pub fn to_trace(&self) -> (r: TileTrace)
        requires
            self.wf(),
        ensures
            r.tiles_x == self.columns(),
            r.tiles_y == self.rows(),
            r.thresholds@ == self.surface().threshold_seq(),
            r.skip@ == self.surface().skip_seq(),
    {
        let mut thresholds: Vec<u8> = Vec::new();
        thresholds.extend_from_slice(self.inner.thresholds());
        let mut skip: Vec<bool> = Vec::new();
        skip.extend_from_slice(self.inner.skip_mask());
        assert(thresholds@ =~= self.surface().threshold_seq());
        assert(skip@ =~= self.surface().skip_seq());
        TileTrace { tiles_x: self.tiles_x, tiles_y: self.tiles_y, thresholds, skip }
    }

    /// True when every tile on the tile row containing `y` is marked skip.
    pub fn row_all_skip(&self, y: usize) -> (r: bool)
        requires
            self.wf(),
            (y as int) / (TILE as int) < self.rows(),
        ensures
            r == (forall|tx: int|
                0 <= tx < self.columns() ==> #[trigger] self.surface().skip_seq()[(y as int
                    / TILE as int) * self.columns() + tx]),
    {
        self.inner.row_all_skip(y)
    }
}

/// The scanner's tile configuration is always accepted: a view never has
/// more tiles than pixels.
proof fn lemma_config_valid(view: Gray8View, spec: BinarizeSpec)
    requires
        view.wf(),
    ensures
        tile_config_error(view, spec_config(spec)) is None,
{
    let (w, h, s) = (view.w() as int, view.h() as int, view.s() as int);
    lemma_tile_count_pos(w, TILE as int);
    lemma_tile_count_pos(h, TILE as int);
    lemma_tiling(w, TILE as int, 0);
    lemma_tiling(h, TILE as int, 0);
    let (cx, cy) = (tile_count(w, TILE as int), tile_count(h, TILE as int));
    assert(cx * cy <= w * h) by (nonlinear_arith)
        requires
            0 <= cx <= w,
            0 <= cy <= h,
    ;
    assert(w * h <= s * (h - 1) + w) by (nonlinear_arith)
        requires
            1 <= w <= s,
            1 <= h,
    ;
}

/// The threshold offset shifts every tile threshold and nothing else: two
/// grids built for the same view, one with offset 0 and one with offset
/// `d`, have the same tiles and skip flags, and the second's threshold at
/// every pixel is the first's plus `d`, clamped to a byte. With
/// `spec.sauvola` this holds for a base function that returns one value
/// per neighborhood.
pub proof fn lemma_threshold_offset<F: Fn(TileStats) -> i16>(
    view: Gray8View,
    s0: BinarizeSpec,
    d: i16,
    sauvola_base: F,
    g0: TileGrid,
    g1: TileGrid,
    x: int,
    y: int,
)
    requires
        view.wf(),
        s0.threshold_offset == 0,
        built_with(g0, view, s0, sauvola_base),
        built_with(g1, view, BinarizeSpec { threshold_offset: d, ..s0 }, sauvola_base),
        0 <= x < view.w(),
        0 <= y < view.h(),
        s0.sauvola ==> forall|s: TileStats, b1: i16, b2: i16|
            #[trigger] sauvola_base.ensures((s,), b1) && #[trigger] sauvola_base.ensures((s,), b2) ==> b1
                == b2,
    ensures
        g1.columns() == g0.columns(),
        g1.rows() == g0.rows(),
        g1.surface().threshold_seq()[g1.surface().tile_index(x, y)] == clamp_u8(
            g0.surface().threshold_seq()[g0.surface().tile_index(x, y)] + d,
        ),
        g1.surface().skip_seq()[g1.surface().tile_index(x, y)] == g0.surface().skip_seq()[g0.surface().tile_index(
            x,
            y,
        )],
{
    let s1 = BinarizeSpec { threshold_offset: d, ..s0 };
    let (c, r) = (g0.columns() as int, g0.rows() as int);
    lemma_tile_of_pixel(view.w() as int, TILE as int, x);
    lemma_tile_of_pixel(view.h() as int, TILE as int, y);
    crate::image::lemma_grid_slot(x / TILE as int, y / TILE as int, c, r);
    let i = g0.surface().tile_index(x, y);
    assert(g1.surface().tile_index(x, y) == i);
    let stats = neighborhood_stats(view, spec_config(s0), i % c, i / c, s0.sauvola);
    assert(neighborhood_stats(view, spec_config(s1), i % c, i / c, s1.sauvola) == stats);
    let t0 = g0.surface().threshold_seq()[i];
    let t1 = g1.surface().threshold_seq()[i];
    if s0.sauvola {
        assert(threshold_from_base(sauvola_base, stats, t0, 0));
        assert(threshold_from_base(sauvola_base, stats, t1, d));
        let b0 = choose|b: i16| #[trigger] sauvola_base.ensures((stats,), b) && t0 == clamp_u8(
            clamp_u8(b as int) + 0,
        );
        let b1 = choose|b: i16| #[trigger] sauvola_base.ensures((stats,), b) && t1 == clamp_u8(
            clamp_u8(b as int) + d,
        );
        assert(b0 == b1);
    } else {
        assert(t0 == clamp_u8(midrange(stats) + 0));
        assert(t1 == clamp_u8(midrange(stats) + d));
    }
}

} // verus!
