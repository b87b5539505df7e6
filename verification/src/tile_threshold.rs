//! Tile-local adaptive threshold surface usable by arbitrary detectors.
//!
//! The image is cut into `tile_width × tile_height` tiles (the last column and
//! row of tiles may be narrower). Each tile gets the statistics of the pixel
//! rectangle covered by its neighborhood of tiles, a threshold derived from
//! them, and a low-contrast skip flag.
use crate::image::{lemma_grid_slot, Gray8View};
use crate::imgproc::ImgProcError;
use crate::threshold::{
    lemma_rect_bounds, lemma_rect_empty_x, lemma_rect_extreme_bounds, lemma_rect_extreme_split_x,
    lemma_rect_extreme_split_y, lemma_rect_split_x, lemma_rect_split_y, lemma_row_bounds,
    lemma_row_extreme_bounds, pick, pick_identity, rect_extreme, rect_total, row_extreme,
    row_total, window_hi, window_lo,
};
use vstd::prelude::*;

verus! {

/// Configuration for a tile-local adaptive threshold surface.
#[derive(Clone, Copy, Debug, PartialEq, Eq, Structural)]
pub struct TileThresholdConfig {
    /// Tile width in pixels.
    pub tile_width: usize,
    /// Tile height in pixels.
    pub tile_height: usize,
    /// Neighborhood radius in tiles for the min/max (and moment) aggregation.
    pub neighborhood_radius: usize,
    /// Additive offset applied after the base threshold is computed.
    pub threshold_offset: i16,
    /// Minimum (max − min) contrast; lower-contrast tiles are marked skip.
    pub contrast_floor: u8,
}

impl Default for TileThresholdConfig {
    fn default() -> (r: Self)
        ensures
            r == (TileThresholdConfig {
                tile_width: 16,
                tile_height: 16,
                neighborhood_radius: 1,
                threshold_offset: 0,
                contrast_floor: 12,
            }),
    {
        TileThresholdConfig {
            tile_width: 16,
            tile_height: 16,
            neighborhood_radius: 1,
            threshold_offset: 0,
            contrast_floor: 12,
        }
    }
}

/// Pixel statistics of one tile neighborhood.
#[derive(Clone, Copy, Debug, PartialEq, Eq, Structural)]
pub struct TileStats {
    /// Darkest sample.
    pub minimum: u8,
    /// Brightest sample.
    pub maximum: u8,
    /// Sum of the samples (zero unless moments were requested).
    pub sum: u64,
    /// Sum of the squared samples (zero unless moments were requested).
    pub sum_sq: u64,
    /// Number of samples.
    pub count: u64,
}

/// Number of `size`-wide tiles needed to cover `n` pixels.
pub open spec fn tile_count(n: int, size: int) -> int {
    (n + size - 1) / size
}

/// First pixel of tile `t`.
pub open spec fn tile_lo(t: int, size: int) -> int {
    t * size
}

/// One past the last pixel of tile `t`, clipped to `n`.
pub open spec fn tile_hi(t: int, size: int, n: int) -> int {
    if (t + 1) * size <= n {
        (t + 1) * size
    } else {
        n
    }
}

/// First pixel covered by the radius-`r` tile neighborhood of tile `t`.
pub open spec fn nbr_lo(t: int, r: int, size: int) -> int {
    tile_lo(window_lo(t, r), size)
}

/// One past the last pixel covered by the radius-`r` tile neighborhood of
/// tile `t`.
pub open spec fn nbr_hi(t: int, r: int, size: int, n: int) -> int {
    tile_hi(window_hi(t, r, tile_count(n, size)) - 1, size, n)
}

/// Statistics of the pixel rectangle covered by the neighborhood of tile
/// `(tx, ty)`; the moments are zero unless `moments`.
pub open spec fn neighborhood_stats(
    v: Gray8View,
    config: TileThresholdConfig,
    tx: int,
    ty: int,
    moments: bool,
) -> TileStats {
    let r = config.neighborhood_radius as int;
    let x0 = nbr_lo(tx, r, config.tile_width as int);
    let x1 = nbr_hi(tx, r, config.tile_width as int, v.w() as int);
    let y0 = nbr_lo(ty, r, config.tile_height as int);
    let y1 = nbr_hi(ty, r, config.tile_height as int, v.h() as int);
    TileStats {
        minimum: rect_extreme(v, x0, x1, y0, y1, true) as u8,
        maximum: rect_extreme(v, x0, x1, y0, y1, false) as u8,
        sum: if moments {
            rect_total(v, x0, x1, y0, y1, false) as u64
        } else {
            0
        },
        sum_sq: if moments {
            rect_total(v, x0, x1, y0, y1, true) as u64
        } else {
            0
        },
        count: ((x1 - x0) * (y1 - y0)) as u64,
    }
}

/// `v` clamped to `[0, 255]`.
pub open spec fn clamp_u8(v: int) -> u8 {
    if v < 0 {
        0
    } else if v > 255 {
        255
    } else {
        v as u8
    }
}

/// `t` is `clamp(clamp(b) + offset)` for some base `b` that `base` may
/// return on `stats`: the base is clamped to a byte before the offset is
/// added.
pub open spec fn threshold_from_base<F: Fn(TileStats) -> i16>(
    base: F,
    stats: TileStats,
    t: u8,
    offset: i16,
) -> bool {
    exists|b: i16| #[trigger] base.ensures((stats,), b) && t == clamp_u8(clamp_u8(b as int) + offset)
}

/// `v` is `clamp(b)` for some base `b` that `base` may return on `stats`.
pub open spec fn clamped_base<F: Fn(TileStats) -> i16>(base: F, stats: TileStats, v: i16) -> bool {
    exists|b: i16| #[trigger] base.ensures((stats,), b) && v == clamp_u8(b as int) as i16
}

/// Midrange base threshold of a neighborhood.
pub open spec fn midrange(stats: TileStats) -> int {
    (stats.minimum as int + stats.maximum as int) / 2
}

/// What [`TileThresholdGrid::build`] rejects, if anything.
pub open spec fn tile_config_error(v: Gray8View, config: TileThresholdConfig) -> Option<ImgProcError> {
    if config.tile_width == 0 || config.tile_height == 0 {
        Some(ImgProcError::InvalidConfiguration)
    } else if tile_count(v.w() as int, config.tile_width as int) * tile_count(
        v.h() as int,
        config.tile_height as int,
    ) > usize::MAX {
        Some(ImgProcError::InvalidConfiguration)
    } else {
        None
    }
}

/// A non-empty range needs at least one tile.
pub proof fn lemma_tile_count_pos(n: int, size: int)
    requires
        n >= 1,
        size >= 1,
    ensures
        tile_count(n, size) >= 1,
{
    vstd::arithmetic::div_mod::lemma_div_is_ordered(size, n + size - 1, size);
    vstd::arithmetic::div_mod::lemma_div_by_self(size);
}

/// Tiles of width `size` cover `[0, n)` without gaps: every tile starts inside
/// the image, is non-empty, and ends where the next begins (the last one at
/// `n`).
pub proof fn lemma_tiling(n: int, size: int, t: int)
    requires
        n >= 1,
        size >= 1,
        0 <= t < tile_count(n, size),
    ensures
        tile_lo(t, size) < tile_hi(t, size, n) <= n,
        t + 1 < tile_count(n, size) ==> tile_hi(t, size, n) == tile_lo(t + 1, size),
        t + 1 == tile_count(n, size) ==> tile_hi(t, size, n) == n,
        tile_count(n, size) <= n,
{
    let tc = tile_count(n, size);
    vstd::arithmetic::div_mod::lemma_fundamental_div_mod(n + size - 1, size);
    let rem = (n + size - 1) % size;
    assert(tc * size == n + size - 1 - rem);
    assert(0 <= rem < size) by {
        vstd::arithmetic::div_mod::lemma_mod_pos_bound(n + size - 1, size);
    }
    assert(t * size <= (tc - 1) * size) by (nonlinear_arith)
        requires
            t <= tc - 1,
            size >= 1,
    ;
    assert((tc - 1) * size == tc * size - size) by (nonlinear_arith);
    assert((t + 1) * size == t * size + size) by (nonlinear_arith);
    if t + 1 < tc {
        assert((t + 1) * size <= (tc - 1) * size) by (nonlinear_arith)
            requires
                t + 1 <= tc - 1,
                size >= 1,
        ;
    }
    if t + 1 == tc {
        assert((t + 1) * size == tc * size);
    }
    assert(tc - 1 <= (tc - 1) * size) by (nonlinear_arith)
        requires
            size >= 1,
            tc >= 1,
    ;
}

/// Extreme (`lo`: minimum) of tile `(tx, ty)` alone.
pub open spec fn tile_extreme(v: Gray8View, tw: int, th: int, tx: int, ty: int, lo: bool) -> int {
    rect_extreme(
        v,
        tile_lo(tx, tw),
        tile_hi(tx, tw, v.w() as int),
        tile_lo(ty, th),
        tile_hi(ty, th, v.h() as int),
        lo,
    )
}

/// Sum (of squares when `squared`) over tile `(tx, ty)` alone.
pub open spec fn tile_total(v: Gray8View, tw: int, th: int, tx: int, ty: int, squared: bool) -> int {
    rect_total(
        v,
        tile_lo(tx, tw),
        tile_hi(tx, tw, v.w() as int),
        tile_lo(ty, th),
        tile_hi(ty, th, v.h() as int),
        squared,
    )
}

proof fn lemma_rect_extreme_empty_x(v: Gray8View, x0: int, x1: int, y0: int, y1: int, lo: bool)
    requires
        x1 <= x0,
    ensures
        rect_extreme(v, x0, x1, y0, y1, lo) == pick_identity(lo),
    decreases y1 - y0,
{
    if y1 > y0 {
        lemma_rect_extreme_empty_x(v, x0, x1, y0, y1 - 1, lo);
    }
}

/// A sub-rectangle's sum fits wherever the whole image's does.
proof fn lemma_sub_total_fits(v: Gray8View, x0: int, x1: int, y0: int, y1: int, squared: bool)
    requires
        0 <= x0 <= x1 <= v.w(),
        0 <= y0 <= y1 <= v.h(),
        v.w() * v.h() * 65025 <= u64::MAX,
    ensures
        0 <= rect_total(v, x0, x1, y0, y1, squared) <= u64::MAX,
{
    lemma_rect_bounds(v, x0, x1, y0, y1, squared);
    assert(65025 * ((x1 - x0) * (y1 - y0)) <= v.w() * v.h() * 65025) by (nonlinear_arith)
        requires
            0 <= x1 - x0 <= v.w(),
            0 <= y1 - y0 <= v.h(),
    ;
}

/// End of tile `t` (clipped to `n`), computed without overflow.
fn tile_end(t: usize, size: usize, n: usize) -> (r: usize)
    requires
        size >= 1,
        t * size < n,
    ensures
        r == tile_hi(t as int, size as int, n as int),
{
    proof {
        assert((t + 1) * size == t * size + size) by (nonlinear_arith);
    }
    let start = t * size;
    if size <= n - start {
        start + size
    } else {
        n
    }
}

/// `ceil(n / size)` without overflow.
fn count_tiles(n: usize, size: usize) -> (r: usize)
    requires
        size >= 1,
    ensures
        r == tile_count(n as int, size as int),
{
    let q = n / size;
    proof {
        vstd::arithmetic::div_mod::lemma_fundamental_div_mod(n as int, size as int);
        vstd::arithmetic::div_mod::lemma_mod_pos_bound(n as int, size as int);
        let rm = n as int % size as int;
        assert(size * q == q * size) by (nonlinear_arith);
        assert((q + 1) * size == q * size + size) by (nonlinear_arith);
        assert(q <= q * size) by (nonlinear_arith)
            requires
                size >= 1,
                q >= 0,
        ;
        if rm == 0 {
            vstd::arithmetic::div_mod::lemma_fundamental_div_mod_converse(
                n + size - 1,
                size as int,
                q as int,
                size - 1,
            );
        } else {
            vstd::arithmetic::div_mod::lemma_fundamental_div_mod_converse(
                n + size - 1,
                size as int,
                q + 1,
                rm - 1,
            );
        }
    }
    if n % size == 0 {
        q
    } else {
        q + 1
    }
}

/// Minimum, maximum and (when `moments`) sum and squared sum over
/// `[x0, x1) × [y0, y1)`.
fn rect_stats(src: &Gray8View, x0: usize, x1: usize, y0: usize, y1: usize, moments: bool) -> (r: (
    u8,
    u8,
    u64,
    u64,
))
    requires
        src.wf(),
        x0 <= x1 <= src.w(),
        y0 <= y1 <= src.h(),
        moments ==> src.w() * src.h() * 65025 <= u64::MAX,
    ensures
        r.0 == rect_extreme(*src, x0 as int, x1 as int, y0 as int, y1 as int, true),
        r.1 == rect_extreme(*src, x0 as int, x1 as int, y0 as int, y1 as int, false),
        r.2 == (if moments {
            rect_total(*src, x0 as int, x1 as int, y0 as int, y1 as int, false)
        } else {
            0
        }),
        r.3 == (if moments {
            rect_total(*src, x0 as int, x1 as int, y0 as int, y1 as int, true)
        } else {
            0
        }),
{
    let ghost v = *src;
    let mut mn: u8 = 255;
    let mut mx: u8 = 0;
    let mut s1: u64 = 0;
    let mut s2: u64 = 0;
    let mut y = y0;
    while y < y1
        invariant
            v == *src,
            src.wf(),
            x0 <= x1 <= v.w(),
            y0 <= y <= y1 <= v.h(),
            moments ==> v.w() * v.h() * 65025 <= u64::MAX,
            mn == rect_extreme(v, x0 as int, x1 as int, y0 as int, y as int, true),
            mx == rect_extreme(v, x0 as int, x1 as int, y0 as int, y as int, false),
            s1 == (if moments {
                rect_total(v, x0 as int, x1 as int, y0 as int, y as int, false)
            } else {
                0
            }),
            s2 == (if moments {
                rect_total(v, x0 as int, x1 as int, y0 as int, y as int, true)
            } else {
                0
            }),
        decreases y1 - y,
    {
        let mut rmn: u8 = 255;
        let mut rmx: u8 = 0;
        let mut r1: u64 = 0;
        let mut r2: u64 = 0;
        let mut x = x0;
        while x < x1
            invariant
                v == *src,
                src.wf(),
                x0 <= x <= x1 <= v.w(),
                y0 <= y < y1 <= v.h(),
                moments ==> v.w() * v.h() * 65025 <= u64::MAX,
                rmn == row_extreme(v, y as int, x0 as int, x as int, true),
                rmx == row_extreme(v, y as int, x0 as int, x as int, false),
                r1 == (if moments {
                    row_total(v, y as int, x0 as int, x as int, false)
                } else {
                    0
                }),
                r2 == (if moments {
                    row_total(v, y as int, x0 as int, x as int, true)
                } else {
                    0
                }),
            decreases x1 - x,
        {
            let p = src.get(x, y);
            if p < rmn {
                rmn = p;
            }
            if p > rmx {
                rmx = p;
            }
            if moments {
                proof {
                    lemma_row_bounds(v, y as int, x0 as int, x + 1, false);
                    lemma_row_bounds(v, y as int, x0 as int, x + 1, true);
                    assert(65025 * (x + 1 - x0) <= v.w() * v.h() * 65025) by (nonlinear_arith)
                        requires
                            x + 1 - x0 <= v.w(),
                            1 <= v.h(),
                    ;
                }
                r1 = r1 + p as u64;
                r2 = r2 + p as u64 * p as u64;
            }
            x += 1;
        }
        proof {
            lemma_row_extreme_bounds(v, y as int, x0 as int, x1 as int, true);
            lemma_row_extreme_bounds(v, y as int, x0 as int, x1 as int, false);
            lemma_rect_extreme_bounds(v, x0 as int, x1 as int, y0 as int, y as int, true);
            lemma_rect_extreme_bounds(v, x0 as int, x1 as int, y0 as int, y as int, false);
        }
        if rmn < mn {
            mn = rmn;
        }
        if rmx > mx {
            mx = rmx;
        }
        if moments {
            proof {
                lemma_sub_total_fits(v, x0 as int, x1 as int, y0 as int, y + 1, false);
                lemma_sub_total_fits(v, x0 as int, x1 as int, y0 as int, y + 1, true);
            }
            s1 = s1 + r1;
            s2 = s2 + r2;
        }
        y += 1;
    }
    (mn, mx, s1, s2)
}

/// The per-tile tables hold, at row-major index `i`, the extremes and (when
/// `moments`) the sums of tile `(i % tiles_x, i / tiles_x)`.
pub open spec fn tables_hold(
    v: Gray8View,
    tw: int,
    th: int,
    tiles_x: int,
    n: int,
    moments: bool,
    minima: Seq<u8>,
    maxima: Seq<u8>,
    sums: Seq<u64>,
    sums_sq: Seq<u64>,
) -> bool {
    &&& minima.len() == n
    &&& maxima.len() == n
    &&& sums.len() == n
    &&& sums_sq.len() == n
    &&& forall|i: int|
        0 <= i < n ==> #[trigger] minima[i] == tile_extreme(v, tw, th, i % tiles_x, i / tiles_x, true)
    &&& forall|i: int|
        0 <= i < n ==> #[trigger] maxima[i] == tile_extreme(v, tw, th, i % tiles_x, i / tiles_x, false)
    &&& forall|i: int|
        0 <= i < n ==> #[trigger] sums[i] == (if moments {
            tile_total(v, tw, th, i % tiles_x, i / tiles_x, false)
        } else {
            0
        })
    &&& forall|i: int|
        0 <= i < n ==> #[trigger] sums_sq[i] == (if moments {
            tile_total(v, tw, th, i % tiles_x, i / tiles_x, true)
        } else {
            0
        })
}

/// Per-tile minima, maxima and (when `moments`) sums, in row-major tile order.
fn tile_table(
    src: &Gray8View,
    tw: usize,
    th: usize,
    tiles_x: usize,
    tiles_y: usize,
    moments: bool,
) -> (r: (Vec<u8>, Vec<u8>, Vec<u64>, Vec<u64>))
    requires
        src.wf(),
        tw >= 1,
        th >= 1,
        tiles_x == tile_count(src.w() as int, tw as int),
        tiles_y == tile_count(src.h() as int, th as int),
        tiles_x * tiles_y <= usize::MAX,
        moments ==> src.w() * src.h() * 65025 <= u64::MAX,
    ensures
        tables_hold(
            *src,
            tw as int,
            th as int,
            tiles_x as int,
            tiles_x * tiles_y,
            moments,
            r.0@,
            r.1@,
            r.2@,
            r.3@,
        ),
{
    let ghost v = *src;
    let w = src.width();
    let h = src.height();
    let mut minima: Vec<u8> = Vec::new();
    let mut maxima: Vec<u8> = Vec::new();
    let mut sums: Vec<u64> = Vec::new();
    let mut sums_sq: Vec<u64> = Vec::new();
    let mut ty: usize = 0;
    while ty < tiles_y
        invariant
            v == *src,
            src.wf(),
            w == v.w(),
            h == v.h(),
            tw >= 1,
            th >= 1,
            tiles_x == tile_count(w as int, tw as int),
            tiles_y == tile_count(h as int, th as int),
            tiles_x * tiles_y <= usize::MAX,
            moments ==> v.w() * v.h() * 65025 <= u64::MAX,
            ty <= tiles_y,
            tables_hold(
                v,
                tw as int,
                th as int,
                tiles_x as int,
                ty * tiles_x,
                moments,
                minima@,
                maxima@,
                sums@,
                sums_sq@,
            ),
        decreases tiles_y - ty,
    {
        proof {
            lemma_tiling(h as int, th as int, ty as int);
        }
        let y0 = ty * th;
        let y1 = tile_end(ty, th, h);
        let mut tx: usize = 0;
        while tx < tiles_x
            invariant
                v == *src,
                src.wf(),
                w == v.w(),
                h == v.h(),
                tw >= 1,
                th >= 1,
                tiles_x == tile_count(w as int, tw as int),
                tiles_y == tile_count(h as int, th as int),
                tiles_x * tiles_y <= usize::MAX,
                moments ==> v.w() * v.h() * 65025 <= u64::MAX,
                ty < tiles_y,
                tx <= tiles_x,
                y0 == tile_lo(ty as int, th as int),
                y1 == tile_hi(ty as int, th as int, h as int),
                y0 < y1 <= h,
                tables_hold(
                    v,
                    tw as int,
                    th as int,
                    tiles_x as int,
                    ty * tiles_x + tx,
                    moments,
                    minima@,
                    maxima@,
                    sums@,
                    sums_sq@,
                ),
            decreases tiles_x - tx,
        {
            proof {
                lemma_tiling(w as int, tw as int, tx as int);
                lemma_grid_slot(tx as int, ty as int, tiles_x as int, tiles_y as int);
            }
            let x0 = tx * tw;
            let x1 = tile_end(tx, tw, w);
            let (mn, mx, s1, s2) = rect_stats(src, x0, x1, y0, y1, moments);
            let ghost j = ty * tiles_x + tx;
            let ghost (m0, m1, m2, m3) = (minima@, maxima@, sums@, sums_sq@);
            minima.push(mn);
            maxima.push(mx);
            sums.push(s1);
            sums_sq.push(s2);
            proof {
                assert forall|i: int| 0 <= i < j + 1 implies #[trigger] minima@[i] == tile_extreme(
                    v,
                    tw as int,
                    th as int,
                    i % tiles_x as int,
                    i / tiles_x as int,
                    true,
                ) && maxima@[i] == tile_extreme(
                    v,
                    tw as int,
                    th as int,
                    i % tiles_x as int,
                    i / tiles_x as int,
                    false,
                ) && sums@[i] == (if moments {
                    tile_total(v, tw as int, th as int, i % tiles_x as int, i / tiles_x as int, false)
                } else {
                    0
                }) && sums_sq@[i] == (if moments {
                    tile_total(v, tw as int, th as int, i % tiles_x as int, i / tiles_x as int, true)
                } else {
                    0
                }) by {
                    if i < j {
                        assert(minima@[i] == m0[i] && maxima@[i] == m1[i] && sums@[i] == m2[i]
                            && sums_sq@[i] == m3[i]);
                    }
                }
            }
            tx += 1;
        }
        proof {
            assert((ty + 1) * tiles_x == ty * tiles_x + tiles_x) by (nonlinear_arith);
        }
        ty += 1;
    }
    assert(tiles_y * tiles_x == tiles_x * tiles_y) by (nonlinear_arith);
    (minima, maxima, sums, sums_sq)
}

/// Combine the per-tile tables over the neighborhood of tile `(tx, ty)`.
#[verifier::rlimit(40)]
fn aggregate(
    Ghost(v): Ghost<Gray8View>,
    width: usize,
    height: usize,
    config: TileThresholdConfig,
    tiles_x: usize,
    tiles_y: usize,
    minima: &Vec<u8>,
    maxima: &Vec<u8>,
    sums: &Vec<u64>,
    sums_sq: &Vec<u64>,
    moments: bool,
    tx: usize,
    ty: usize,
) -> (r: TileStats)
    requires
        v.wf(),
        width == v.w(),
        height == v.h(),
        config.tile_width >= 1,
        config.tile_height >= 1,
        tiles_x == tile_count(width as int, config.tile_width as int),
        tiles_y == tile_count(height as int, config.tile_height as int),
        tiles_x * tiles_y <= usize::MAX,
        tx < tiles_x,
        ty < tiles_y,
        moments ==> v.w() * v.h() * 65025 <= u64::MAX,
        tables_hold(
            v,
            config.tile_width as int,
            config.tile_height as int,
            tiles_x as int,
            tiles_x * tiles_y,
            moments,
            minima@,
            maxima@,
            sums@,
            sums_sq@,
        ),
    ensures
        r == neighborhood_stats(v, config, tx as int, ty as int, moments),
{
    let tw = config.tile_width;
    let th = config.tile_height;
    let rad = config.neighborhood_radius;
    let mx0 = if tx >= rad {
        tx - rad
    } else {
        0
    };
    let mx1 = if rad < tiles_x - tx {
        tx + rad + 1
    } else {
        tiles_x
    };
    let my0 = if ty >= rad {
        ty - rad
    } else {
        0
    };
    let my1 = if rad < tiles_y - ty {
        ty + rad + 1
    } else {
        tiles_y
    };
    proof {
        lemma_tiling(width as int, tw as int, mx0 as int);
        lemma_tiling(width as int, tw as int, mx1 - 1);
        lemma_tiling(height as int, th as int, my0 as int);
        lemma_tiling(height as int, th as int, my1 - 1);
        assert(mx0 * tw <= (mx1 - 1) * tw) by (nonlinear_arith)
            requires
                mx0 <= mx1 - 1,
                tw >= 1,
        ;
        assert(my0 * th <= (my1 - 1) * th) by (nonlinear_arith)
            requires
                my0 <= my1 - 1,
                th >= 1,
        ;
    }
    let px0 = mx0 * tw;
    let px1 = tile_end(mx1 - 1, tw, width);
    let py0 = my0 * th;
    let py1 = tile_end(my1 - 1, th, height);
    let mut mn: u8 = 255;
    let mut mx: u8 = 0;
    let mut s1: u64 = 0;
    let mut s2: u64 = 0;
    let mut ny = my0;
    let ghost mut ye: int = py0 as int;
    while ny < my1
        invariant
            v.wf(),
            width == v.w(),
            height == v.h(),
            tw == config.tile_width,
            th == config.tile_height,
            tw >= 1,
            th >= 1,
            tiles_x == tile_count(width as int, tw as int),
            tiles_y == tile_count(height as int, th as int),
            tiles_x * tiles_y <= usize::MAX,
            moments ==> v.w() * v.h() * 65025 <= u64::MAX,
            tables_hold(
                v,
                tw as int,
                th as int,
                tiles_x as int,
                tiles_x * tiles_y,
                moments,
                minima@,
                maxima@,
                sums@,
                sums_sq@,
            ),
            mx0 < mx1 <= tiles_x,
            my0 <= ny <= my1 <= tiles_y,
            px0 == tile_lo(mx0 as int, tw as int),
            px1 == tile_hi(mx1 - 1, tw as int, width as int),
            py0 == tile_lo(my0 as int, th as int),
            py1 == tile_hi(my1 - 1, th as int, height as int),
            px0 < px1 <= width,
            py0 < py1 <= height,
            ny < my1 ==> ye == tile_lo(ny as int, th as int),
            ny == my1 ==> ye == py1,
            py0 <= ye <= py1,
            mn == rect_extreme(v, px0 as int, px1 as int, py0 as int, ye, true),
            mx == rect_extreme(v, px0 as int, px1 as int, py0 as int, ye, false),
            s1 == (if moments {
                rect_total(v, px0 as int, px1 as int, py0 as int, ye, false)
            } else {
                0
            }),
            s2 == (if moments {
                rect_total(v, px0 as int, px1 as int, py0 as int, ye, true)
            } else {
                0
            }),
        decreases my1 - ny,
    {
        proof {
            lemma_tiling(height as int, th as int, ny as int);
            lemma_rect_extreme_empty_x(v, px0 as int, px0 as int, ye, tile_hi(ny as int, th as int, height as int), true);
            lemma_rect_extreme_empty_x(v, px0 as int, px0 as int, ye, tile_hi(ny as int, th as int, height as int), false);
            lemma_rect_empty_x(v, px0 as int, px0 as int, ye, tile_hi(ny as int, th as int, height as int), false);
            lemma_rect_empty_x(v, px0 as int, px0 as int, ye, tile_hi(ny as int, th as int, height as int), true);
            lemma_rect_extreme_bounds(v, px0 as int, px1 as int, py0 as int, ye, true);
            lemma_rect_extreme_bounds(v, px0 as int, px1 as int, py0 as int, ye, false);
            if ny + 1 < my1 {
                assert(tile_hi(ny as int, th as int, height as int) <= tile_hi(my1 - 1, th as int, height as int)) by {
                    assert((ny + 1) * th <= (my1 - 1) * th) by (nonlinear_arith)
                        requires
                            ny + 1 <= my1 - 1,
                            th >= 1,
                    ;
                    assert(my1 * th == (my1 - 1) * th + th) by (nonlinear_arith);
                }
            }
        }
        let ghost yh: int = tile_hi(ny as int, th as int, height as int);
        let mut nx = mx0;
        let ghost mut xe: int = px0 as int;
        while nx < mx1
            invariant
                v.wf(),
                width == v.w(),
                height == v.h(),
                tw == config.tile_width,
                th == config.tile_height,
                tw >= 1,
                th >= 1,
                tiles_x == tile_count(width as int, tw as int),
                tiles_y == tile_count(height as int, th as int),
                tiles_x * tiles_y <= usize::MAX,
                moments ==> v.w() * v.h() * 65025 <= u64::MAX,
                tables_hold(
                    v,
                    tw as int,
                    th as int,
                    tiles_x as int,
                    tiles_x * tiles_y,
                    moments,
                    minima@,
                    maxima@,
                    sums@,
                    sums_sq@,
                ),
                mx0 <= nx <= mx1 <= tiles_x,
                my0 <= ny < my1 <= tiles_y,
                px0 == tile_lo(mx0 as int, tw as int),
                px1 == tile_hi(mx1 - 1, tw as int, width as int),
                px0 < px1 <= width,
                py0 < py1 <= height,
                ye == tile_lo(ny as int, th as int),
                yh == tile_hi(ny as int, th as int, height as int),
                py0 <= ye < yh <= py1,
                nx < mx1 ==> xe == tile_lo(nx as int, tw as int),
                nx == mx1 ==> xe == px1,
                px0 <= xe <= px1,
                mn == pick(
                    rect_extreme(v, px0 as int, px1 as int, py0 as int, ye, true),
                    rect_extreme(v, px0 as int, xe, ye, yh, true),
                    true,
                ),
                mx == pick(
                    rect_extreme(v, px0 as int, px1 as int, py0 as int, ye, false),
                    rect_extreme(v, px0 as int, xe, ye, yh, false),
                    false,
                ),
                s1 == (if moments {
                    rect_total(v, px0 as int, px1 as int, py0 as int, ye, false) + rect_total(
                        v,
                        px0 as int,
                        xe,
                        ye,
                        yh,
                        false,
                    )
                } else {
                    0
                }),
                s2 == (if moments {
                    rect_total(v, px0 as int, px1 as int, py0 as int, ye, true) + rect_total(
                        v,
                        px0 as int,
                        xe,
                        ye,
                        yh,
                        true,
                    )
                } else {
                    0
                }),
            decreases mx1 - nx,
        {
            proof {
                lemma_tiling(width as int, tw as int, nx as int);
                lemma_grid_slot(nx as int, ny as int, tiles_x as int, tiles_y as int);
                if nx + 1 < mx1 {
                    assert((nx + 1) * tw <= (mx1 - 1) * tw) by (nonlinear_arith)
                        requires
                            nx + 1 <= mx1 - 1,
                            tw >= 1,
                    ;
                    assert(mx1 * tw == (mx1 - 1) * tw + tw) by (nonlinear_arith);
                }
            }
            let idx = ny * tiles_x + nx;
            let t_mn = minima[idx];
            let t_mx = maxima[idx];
            let t_s1 = sums[idx];
            let t_s2 = sums_sq[idx];
            let ghost xn: int = tile_hi(nx as int, tw as int, width as int);
            proof {
                lemma_rect_extreme_split_x(v, px0 as int, xe, xn, ye, yh, true);
                lemma_rect_extreme_split_x(v, px0 as int, xe, xn, ye, yh, false);
                lemma_rect_extreme_bounds(v, px0 as int, xe, ye, yh, true);
                lemma_rect_extreme_bounds(v, px0 as int, xe, ye, yh, false);
                lemma_rect_extreme_bounds(v, px0 as int, px1 as int, py0 as int, ye, true);
                lemma_rect_extreme_bounds(v, px0 as int, px1 as int, py0 as int, ye, false);
                if moments {
                    lemma_rect_split_x(v, px0 as int, xe, xn, ye, yh, false);
                    lemma_rect_split_x(v, px0 as int, xe, xn, ye, yh, true);
                    lemma_rect_split_x(v, px0 as int, xn, px1 as int, ye, yh, false);
                    lemma_rect_split_x(v, px0 as int, xn, px1 as int, ye, yh, true);
                    lemma_rect_split_y(v, px0 as int, px1 as int, py0 as int, ye, yh, false);
                    lemma_rect_split_y(v, px0 as int, px1 as int, py0 as int, ye, yh, true);
                    lemma_rect_bounds(v, xn, px1 as int, ye, yh, false);
                    lemma_rect_bounds(v, xn, px1 as int, ye, yh, true);
                    lemma_rect_bounds(v, px0 as int, px1 as int, py0 as int, ye, false);
                    lemma_rect_bounds(v, px0 as int, px1 as int, py0 as int, ye, true);
                    lemma_rect_bounds(v, px0 as int, xe, ye, yh, false);
                    lemma_rect_bounds(v, px0 as int, xe, ye, yh, true);
                    lemma_rect_bounds(v, xe, xn, ye, yh, false);
                    lemma_rect_bounds(v, xe, xn, ye, yh, true);
                    lemma_sub_total_fits(v, px0 as int, px1 as int, py0 as int, yh, false);
                    lemma_sub_total_fits(v, px0 as int, px1 as int, py0 as int, yh, true);
                }
            }
            if t_mn < mn {
                mn = t_mn;
            }
            if t_mx > mx {
                mx = t_mx;
            }
            if moments {
                s1 = s1 + t_s1;
                s2 = s2 + t_s2;
            }
            proof {
                xe = xn;
            }
            nx += 1;
        }
        proof {
            lemma_rect_extreme_split_y(v, px0 as int, px1 as int, py0 as int, ye, yh, true);
            lemma_rect_extreme_split_y(v, px0 as int, px1 as int, py0 as int, ye, yh, false);
            lemma_rect_split_y(v, px0 as int, px1 as int, py0 as int, ye, yh, false);
            lemma_rect_split_y(v, px0 as int, px1 as int, py0 as int, ye, yh, true);
            ye = yh;
        }
        ny += 1;
    }
    proof {
        lemma_rect_extreme_bounds(v, px0 as int, px1 as int, py0 as int, py1 as int, true);
        lemma_rect_extreme_bounds(v, px0 as int, px1 as int, py0 as int, py1 as int, false);
        assert((px1 - px0) * (py1 - py0) <= width * height) by (nonlinear_arith)
            requires
                0 <= px1 - px0 <= width,
                0 <= py1 - py0 <= height,
        ;
        let s = v.s() as int;
        assert(width * height <= s * (height - 1) + width) by (nonlinear_arith)
            requires
                1 <= width <= s,
                1 <= height,
        ;
    }
    let count = ((px1 - px0) * (py1 - py0)) as u64;
    TileStats { minimum: mn, maximum: mx, sum: s1, sum_sq: s2, count }
}

/// Statistics of every tile neighborhood of `src`, in row-major tile order,
/// together with the number of tile columns and rows.
///
/// The moments (`sum`, `sum_sq`) are gathered only when `moments` is set; the
/// minimum, maximum and count always are.
pub fn tile_neighborhood_stats(src: Gray8View, config: TileThresholdConfig, moments: bool) -> (r:
    Result<(usize, usize, Vec<TileStats>), ImgProcError>)
    requires
        src.wf(),
        moments ==> src.w() * src.h() * 65025 <= u64::MAX,
    ensures
        match r {
            Ok((tiles_x, tiles_y, stats)) => {
                &&& tile_config_error(src, config) is None
                &&& tiles_x == tile_count(src.w() as int, config.tile_width as int)
                &&& tiles_y == tile_count(src.h() as int, config.tile_height as int)
                &&& tiles_x >= 1
                &&& tiles_y >= 1
                &&& stats@.len() == tiles_x * tiles_y
                &&& forall|i: int|
                    0 <= i < stats@.len() ==> #[trigger] stats@[i] == neighborhood_stats(
                        src,
                        config,
                        i % tiles_x as int,
                        i / tiles_x as int,
                        moments,
                    )
            },
            Err(e) => tile_config_error(src, config) == Some(e),
        },
{
    if config.tile_width == 0 || config.tile_height == 0 {
        return Err(ImgProcError::InvalidConfiguration);
    }
    let width = src.width();
    let height = src.height();
    let tiles_x = count_tiles(width, config.tile_width);
    let tiles_y = count_tiles(height, config.tile_height);
    if tiles_x.checked_mul(tiles_y).is_none() {
        return Err(ImgProcError::InvalidConfiguration);
    }
    proof {
        lemma_tile_count_pos(width as int, config.tile_width as int);
        lemma_tile_count_pos(height as int, config.tile_height as int);
    }
    let (minima, maxima, sums, sums_sq) = tile_table(
        &src,
        config.tile_width,
        config.tile_height,
        tiles_x,
        tiles_y,
        moments,
    );
    let mut stats: Vec<TileStats> = Vec::new();
    let mut ty: usize = 0;
    while ty < tiles_y
        invariant
            src.wf(),
            width == src.w(),
            height == src.h(),
            config.tile_width >= 1,
            config.tile_height >= 1,
            tiles_x == tile_count(width as int, config.tile_width as int),
            tiles_y == tile_count(height as int, config.tile_height as int),
            tiles_x * tiles_y <= usize::MAX,
            moments ==> src.w() * src.h() * 65025 <= u64::MAX,
            tables_hold(
                src,
                config.tile_width as int,
                config.tile_height as int,
                tiles_x as int,
                tiles_x * tiles_y,
                moments,
                minima@,
                maxima@,
                sums@,
                sums_sq@,
            ),
            ty <= tiles_y,
            stats@.len() == ty * tiles_x,
            forall|i: int|
                0 <= i < stats@.len() ==> #[trigger] stats@[i] == neighborhood_stats(
                    src,
                    config,
                    i % tiles_x as int,
                    i / tiles_x as int,
                    moments,
                ),
        decreases tiles_y - ty,
    {
        let mut tx: usize = 0;
        while tx < tiles_x
            invariant
                src.wf(),
                width == src.w(),
                height == src.h(),
                config.tile_width >= 1,
                config.tile_height >= 1,
                tiles_x == tile_count(width as int, config.tile_width as int),
                tiles_y == tile_count(height as int, config.tile_height as int),
                tiles_x * tiles_y <= usize::MAX,
                moments ==> src.w() * src.h() * 65025 <= u64::MAX,
                tables_hold(
                    src,
                    config.tile_width as int,
                    config.tile_height as int,
                    tiles_x as int,
                    tiles_x * tiles_y,
                    moments,
                    minima@,
                    maxima@,
                    sums@,
                    sums_sq@,
                ),
                ty < tiles_y,
                tx <= tiles_x,
                stats@.len() == ty * tiles_x + tx,
                forall|i: int|
                    0 <= i < stats@.len() ==> #[trigger] stats@[i] == neighborhood_stats(
                        src,
                        config,
                        i % tiles_x as int,
                        i / tiles_x as int,
                        moments,
                    ),
            decreases tiles_x - tx,
        {
            let t = aggregate(
                Ghost(src),
                width,
                height,
                config,
                tiles_x,
                tiles_y,
                &minima,
                &maxima,
                &sums,
                &sums_sq,
                moments,
                tx,
                ty,
            );
            proof {
                lemma_grid_slot(tx as int, ty as int, tiles_x as int, tiles_y as int);
            }
            let ghost before = stats@;
            stats.push(t);
            proof {
                assert forall|i: int| 0 <= i < stats@.len() implies #[trigger] stats@[i]
                    == neighborhood_stats(src, config, i % tiles_x as int, i / tiles_x as int, moments) by {
                    if i < before.len() {
                        assert(stats@[i] == before[i]);
                    }
                }
            }
            tx += 1;
        }
        proof {
            assert((ty + 1) * tiles_x == ty * tiles_x + tiles_x) by (nonlinear_arith);
        }
        ty += 1;
    }
    assert(tiles_y * tiles_x == tiles_x * tiles_y) by (nonlinear_arith);
    Ok((tiles_x, tiles_y, stats))
}

/// A neighborhood is never empty, so its minimum is at most its maximum.
pub proof fn lemma_neighborhood_ordered(v: Gray8View, config: TileThresholdConfig, tx: int, ty: int)
    requires
        v.wf(),
        config.tile_width >= 1,
        config.tile_height >= 1,
        0 <= tx < tile_count(v.w() as int, config.tile_width as int),
        0 <= ty < tile_count(v.h() as int, config.tile_height as int),
    ensures
        neighborhood_stats(v, config, tx, ty, false).minimum <= neighborhood_stats(
            v,
            config,
            tx,
            ty,
            false,
        ).maximum,
{
    let r = config.neighborhood_radius as int;
    let tw = config.tile_width as int;
    let th = config.tile_height as int;
    let w = v.w() as int;
    let h = v.h() as int;
    let mx0 = window_lo(tx, r);
    let mx1 = window_hi(tx, r, tile_count(w, tw));
    let my0 = window_lo(ty, r);
    let my1 = window_hi(ty, r, tile_count(h, th));
    lemma_tiling(w, tw, mx0);
    lemma_tiling(w, tw, mx1 - 1);
    lemma_tiling(h, th, my0);
    lemma_tiling(h, th, my1 - 1);
    assert(mx0 * tw <= (mx1 - 1) * tw) by (nonlinear_arith)
        requires
            mx0 <= mx1 - 1,
            tw >= 1,
    ;
    assert(my0 * th <= (my1 - 1) * th) by (nonlinear_arith)
        requires
            my0 <= my1 - 1,
            th >= 1,
    ;
    let x0 = nbr_lo(tx, r, tw);
    let x1 = nbr_hi(tx, r, tw, w);
    let y0 = nbr_lo(ty, r, th);
    let y1 = nbr_hi(ty, r, th, h);
    lemma_rect_nonempty_ordered(v, x0, x1, y0, y1);
    lemma_rect_extreme_bounds(v, x0, x1, y0, y1, true);
    lemma_rect_extreme_bounds(v, x0, x1, y0, y1, false);
}

/// Over a non-empty rectangle the minimum is at most the maximum.
proof fn lemma_rect_nonempty_ordered(v: Gray8View, x0: int, x1: int, y0: int, y1: int)
    requires
        x0 < x1,
        y0 < y1,
    ensures
        rect_extreme(v, x0, x1, y0, y1, true) <= rect_extreme(v, x0, x1, y0, y1, false),
    decreases y1 - y0,
{
    lemma_row_nonempty_ordered(v, y1 - 1, x0, x1);
    lemma_row_extreme_bounds(v, y1 - 1, x0, x1, true);
    lemma_row_extreme_bounds(v, y1 - 1, x0, x1, false);
    if y1 - 1 > y0 {
        lemma_rect_nonempty_ordered(v, x0, x1, y0, y1 - 1);
    }
}

proof fn lemma_row_nonempty_ordered(v: Gray8View, y: int, x0: int, x1: int)
    requires
        x0 < x1,
    ensures
        row_extreme(v, y, x0, x1, true) <= row_extreme(v, y, x0, x1, false),
    decreases x1 - x0,
{
    lemma_row_extreme_bounds(v, y, x0, x1 - 1, true);
    lemma_row_extreme_bounds(v, y, x0, x1 - 1, false);
    if x1 - 1 > x0 {
        lemma_row_nonempty_ordered(v, y, x0, x1 - 1);
    }
}

/// Per-pixel thresholds and low-contrast flags, one per tile.
#[derive(Clone, Debug)]
pub struct TileThresholdGrid {
    tiles_x: usize,
    tiles_y: usize,
    tile_width: usize,
    tile_height: usize,
    thresholds: Vec<u8>,
    skip: Vec<bool>,
}

impl TileThresholdGrid {
    /// Number of tile columns.
    pub closed spec fn columns(&self) -> nat {
        self.tiles_x as nat
    }

    /// Number of tile rows.
    pub closed spec fn rows(&self) -> nat {
        self.tiles_y as nat
    }

    /// Tile width in pixels.
    pub closed spec fn tw(&self) -> nat {
        self.tile_width as nat
    }

    /// Tile height in pixels.
    pub closed spec fn th(&self) -> nat {
        self.tile_height as nat
    }

    /// Thresholds in row-major tile order.
    pub closed spec fn threshold_seq(&self) -> Seq<u8> {
        self.thresholds@
    }

    /// Skip flags in row-major tile order.
    pub closed spec fn skip_seq(&self) -> Seq<bool> {
        self.skip@
    }

    /// One threshold and one flag per tile, non-empty tiles.
    pub open spec fn wf(&self) -> bool {
        &&& self.tw() >= 1
        &&& self.th() >= 1
        &&& self.columns() >= 1
        &&& self.rows() >= 1
        &&& self.threshold_seq().len() == self.columns() * self.rows()
        &&& self.skip_seq().len() == self.columns() * self.rows()
        &&& self.columns() * self.rows() <= usize::MAX
    }

    /// Row-major index of the tile holding pixel `(x, y)`.
    pub open spec fn tile_index(&self, x: int, y: int) -> int {
        (y / self.th() as int) * self.columns() as int + x / self.tw() as int
    }

    /// Assemble a grid from per-tile neighborhood statistics and base
    /// thresholds: tile `i` gets `clamp(bases[i] + offset)` and is skipped when
    /// its contrast `maximum − minimum` is below the floor.
    pub fn from_bases(
        config: TileThresholdConfig,
        tiles_x: usize,
        tiles_y: usize,
        stats: &Vec<TileStats>,
        bases: &Vec<i16>,
    ) -> (r: Self)
        requires
            config.tile_width >= 1,
            config.tile_height >= 1,
            tiles_x >= 1,
            tiles_y >= 1,
            tiles_x * tiles_y <= usize::MAX,
            stats@.len() == tiles_x * tiles_y,
            bases@.len() == tiles_x * tiles_y,
            forall|i: int| 0 <= i < stats@.len() ==> #[trigger] stats@[i].minimum <= stats@[i].maximum,
        ensures
            r.wf(),
            r.columns() == tiles_x,
            r.rows() == tiles_y,
            r.tw() == config.tile_width,
            r.th() == config.tile_height,
            forall|i: int|
                0 <= i < stats@.len() ==> #[trigger] r.threshold_seq()[i] == clamp_u8(
                    bases@[i] + config.threshold_offset,
                ),
            forall|i: int|
                0 <= i < stats@.len() ==> #[trigger] r.skip_seq()[i] == (stats@[i].maximum
                    - stats@[i].minimum < config.contrast_floor),
    {
        let n = stats.len();
        let mut thresholds: Vec<u8> = Vec::new();
        let mut skip: Vec<bool> = Vec::new();
        let mut i: usize = 0;
        while i < n
            invariant
                n == stats@.len(),
                n == bases@.len(),
                i <= n,
                thresholds@.len() == i,
                skip@.len() == i,
                forall|j: int| 0 <= j < stats@.len() ==> #[trigger] stats@[j].minimum <= stats@[j].maximum,
                forall|j: int|
                    0 <= j < i ==> #[trigger] thresholds@[j] == clamp_u8(
                        bases@[j] + config.threshold_offset,
                    ),
                forall|j: int|
                    0 <= j < i ==> #[trigger] skip@[j] == (stats@[j].maximum - stats@[j].minimum
                        < config.contrast_floor),
            decreases n - i,
        {
            let value = bases[i] as i32 + config.threshold_offset as i32;
            let t: u8 = if value < 0 {
                0
            } else if value > 255 {
                255
            } else {
                value as u8
            };
            thresholds.push(t);
            let s = stats[i];
            assert(s.minimum <= s.maximum);
            skip.push(s.maximum - s.minimum < config.contrast_floor);
            i += 1;
        }
        TileThresholdGrid {
            tiles_x,
            tiles_y,
            tile_width: config.tile_width,
            tile_height: config.tile_height,
            thresholds,
            skip,
        }
    }

    /// Build a midrange tile threshold grid for `src`: each tile's threshold is
    /// `clamp((min + max) / 2 + offset)` over its neighborhood, and it is
    /// skipped when `max − min` is below the contrast floor.
    pub fn build(src: Gray8View, config: TileThresholdConfig) -> (r: Result<Self, ImgProcError>)
        requires
            src.wf(),
        ensures
            match r {
                Ok(grid) => {
                    &&& tile_config_error(src, config) is None
                    &&& grid.wf()
                    &&& grid.columns() == tile_count(src.w() as int, config.tile_width as int)
                    &&& grid.rows() == tile_count(src.h() as int, config.tile_height as int)
                    &&& grid.tw() == config.tile_width
                    &&& grid.th() == config.tile_height
                    &&& forall|i: int|
                        0 <= i < grid.columns() * grid.rows() ==> {
                            let stats = neighborhood_stats(
                                src,
                                config,
                                i % grid.columns() as int,
                                i / grid.columns() as int,
                                false,
                            );
                            &&& #[trigger] grid.threshold_seq()[i] == clamp_u8(
                                midrange(stats) + config.threshold_offset,
                            )
                            &&& grid.skip_seq()[i] == (stats.maximum - stats.minimum
                                < config.contrast_floor)
                        }
                },
                Err(e) => tile_config_error(src, config) == Some(e),
            },
    {
        let (tiles_x, tiles_y, stats) = match tile_neighborhood_stats(src, config, false) {
            Ok(t) => t,
            Err(e) => return Err(e),
        };
        let mut bases: Vec<i16> = Vec::new();
        let mut i: usize = 0;
        while i < stats.len()
            invariant
                i <= stats@.len(),
                bases@.len() == i,
                forall|j: int| 0 <= j < i ==> #[trigger] bases@[j] == midrange(stats@[j]),
            decreases stats@.len() - i,
        {
            let s = stats[i];
            bases.push(((s.minimum as u16 + s.maximum as u16) / 2) as i16);
            i += 1;
        }
        proof {
            assert forall|j: int| 0 <= j < stats@.len() implies #[trigger] stats@[j].minimum
                <= stats@[j].maximum by {
                let tx = j % tiles_x as int;
                let ty = j / tiles_x as int;
                vstd::arithmetic::div_mod::lemma_fundamental_div_mod(j, tiles_x as int);
                vstd::arithmetic::div_mod::lemma_mod_pos_bound(j, tiles_x as int);
                assert(ty < tiles_y) by {
                    if ty >= tiles_y {
                        assert(tiles_x * ty >= tiles_x * tiles_y) by (nonlinear_arith)
                            requires
                                ty >= tiles_y,
                                tiles_x >= 1,
                        ;
                    }
                }
                assert(0 <= ty) by {
                    vstd::arithmetic::div_mod::lemma_div_pos_is_pos(j, tiles_x as int);
                }
                lemma_neighborhood_ordered(src, config, tx, ty);
            }
        }
        Ok(Self::from_bases(config, tiles_x, tiles_y, &stats, &bases))
    }

    /// Build a tile threshold grid whose base thresholds come from `base`,
    /// applied to each tile's neighborhood statistics (moments included):
    /// tile `i` gets `clamp(clamp(b) + offset)` for the `b` that `base`
    /// returned on its statistics (the base is clamped to a byte first), and
    /// the midrange skip rule.
    pub fn build_with_base<F: Fn(TileStats) -> i16>(
        src: Gray8View,
        config: TileThresholdConfig,
        base: F,
    ) -> (r: Result<Self, ImgProcError>)
        requires
            src.wf(),
            src.w() * src.h() * 65025 <= u64::MAX,
            forall|s: TileStats| #[trigger] base.requires((s,)),
        ensures
            match r {
                Ok(grid) => {
                    &&& tile_config_error(src, config) is None
                    &&& grid.wf()
                    &&& grid.columns() == tile_count(src.w() as int, config.tile_width as int)
                    &&& grid.rows() == tile_count(src.h() as int, config.tile_height as int)
                    &&& grid.tw() == config.tile_width
                    &&& grid.th() == config.tile_height
                    &&& forall|i: int|
                        0 <= i < grid.columns() * grid.rows() ==> {
                            let stats = neighborhood_stats(
                                src,
                                config,
                                i % grid.columns() as int,
                                i / grid.columns() as int,
                                true,
                            );
                            &&& threshold_from_base(
                                base,
                                stats,
                                #[trigger] grid.threshold_seq()[i],
                                config.threshold_offset,
                            )
                            &&& grid.skip_seq()[i] == (stats.maximum - stats.minimum
                                < config.contrast_floor)
                        }
                },
                Err(e) => tile_config_error(src, config) == Some(e),
            },
    {
        let (tiles_x, tiles_y, stats) = match tile_neighborhood_stats(src, config, true) {
            Ok(t) => t,
            Err(e) => return Err(e),
        };
        let mut bases: Vec<i16> = Vec::new();
        let mut i: usize = 0;
        while i < stats.len()
            invariant
                i <= stats@.len(),
                bases@.len() == i,
                forall|s: TileStats| #[trigger] base.requires((s,)),
                forall|j: int| 0 <= j < i ==> clamped_base(base, stats@[j], #[trigger] bases@[j]),
            decreases stats@.len() - i,
        {
            let s = stats[i];
            let b = base(s);
            let clamped: i16 = if b < 0 {
                0
            } else if b > 255 {
                255
            } else {
                b
            };
            let ghost prev = bases@;
            bases.push(clamped);
            proof {
                assert(base.ensures((stats@[i as int],), b));
                assert(clamped_base(base, stats@[i as int], bases@[i as int]));
                assert forall|j: int| 0 <= j < i + 1 implies clamped_base(base, stats@[j], #[trigger] bases@[j]) by {
                    if j < i {
                        assert(bases@[j] == prev[j]);
                    }
                }
            }
            i += 1;
        }
        proof {
            assert forall|j: int| 0 <= j < stats@.len() implies #[trigger] stats@[j].minimum
                <= stats@[j].maximum by {
                let tx = j % tiles_x as int;
                let ty = j / tiles_x as int;
                vstd::arithmetic::div_mod::lemma_fundamental_div_mod(j, tiles_x as int);
                vstd::arithmetic::div_mod::lemma_mod_pos_bound(j, tiles_x as int);
                assert(ty < tiles_y) by {
                    if ty >= tiles_y {
                        assert(tiles_x * ty >= tiles_x * tiles_y) by (nonlinear_arith)
                            requires
                                ty >= tiles_y,
                                tiles_x >= 1,
                        ;
                    }
                }
                assert(0 <= ty) by {
                    vstd::arithmetic::div_mod::lemma_div_pos_is_pos(j, tiles_x as int);
                }
                lemma_neighborhood_ordered(src, config, tx, ty);
                assert(neighborhood_stats(src, config, tx, ty, true).minimum == neighborhood_stats(
                    src,
                    config,
                    tx,
                    ty,
                    false,
                ).minimum);
            }
        }
        let grid = Self::from_bases(config, tiles_x, tiles_y, &stats, &bases);
        proof {
            assert forall|i: int| 0 <= i < grid.columns() * grid.rows() implies threshold_from_base(
                base,
                neighborhood_stats(
                    src,
                    config,
                    i % grid.columns() as int,
                    i / grid.columns() as int,
                    true,
                ),
                #[trigger] grid.threshold_seq()[i],
                config.threshold_offset,
            ) by {
                assert(clamped_base(base, stats@[i], bases@[i]));
                let b = choose|b: i16| #[trigger] base.ensures((stats@[i],), b) && bases@[i] == clamp_u8(
                    b as int,
                ) as i16;
                assert(base.ensures((stats@[i],), b));
            }
        }
        Ok(grid)
    }

    /// Number of tiles along the X axis.
    pub fn tiles_x(&self) -> (r: usize)
        ensures
            r == self.columns(),
    {
        self.tiles_x
    }

    /// Number of tiles along the Y axis.
    pub fn tiles_y(&self) -> (r: usize)
        ensures
            r == self.rows(),
    {
        self.tiles_y
    }

    /// Per-tile thresholds in row-major tile order.
    pub fn thresholds(&self) -> (r: &[u8])
        ensures
            r@ == self.threshold_seq(),
    {
        self.thresholds.as_slice()
    }

    /// Per-tile low-contrast skip flags in row-major tile order.
    pub fn skip_mask(&self) -> (r: &[bool])
        ensures
            r@ == self.skip_seq(),
    {
        self.skip.as_slice()
    }

    /// Threshold for the tile containing pixel `(x, y)`.
    pub fn threshold_at(&self, x: usize, y: usize) -> (r: u8)
        requires
            self.wf(),
            (x as int) / (self.tw() as int) < self.columns(),
            (y as int) / (self.th() as int) < self.rows(),
        ensures
            r == self.threshold_seq()[self.tile_index(x as int, y as int)],
    {
        proof {
            lemma_grid_slot(
                x as int / self.tw() as int,
                y as int / self.th() as int,
                self.columns() as int,
                self.rows() as int,
            );
        }
        self.thresholds[(y / self.tile_height) * self.tiles_x + x / self.tile_width]
    }

    /// Whether the tile containing pixel `(x, y)` is low-contrast.
    pub fn is_skip(&self, x: usize, y: usize) -> (r: bool)
        requires
            self.wf(),
            (x as int) / (self.tw() as int) < self.columns(),
            (y as int) / (self.th() as int) < self.rows(),
        ensures
            r == self.skip_seq()[self.tile_index(x as int, y as int)],
    {
        proof {
            lemma_grid_slot(
                x as int / self.tw() as int,
                y as int / self.th() as int,
                self.columns() as int,
                self.rows() as int,
            );
        }
        self.skip[(y / self.tile_height) * self.tiles_x + x / self.tile_width]
    }

    /// True when every tile on the tile row containing `y` is marked skip.
    pub fn row_all_skip(&self, y: usize) -> (r: bool)
        requires
            self.wf(),
            (y as int) / (self.th() as int) < self.rows(),
        ensures
            r == (forall|tx: int|
                0 <= tx < self.columns() ==> #[trigger] self.skip_seq()[(y as int / self.th() as int) * self.columns()
                    + tx]),
    {
        proof {
            lemma_grid_slot(0, y as int / self.th() as int, self.columns() as int, self.rows() as int);
        }
        let base = (y / self.tile_height) * self.tiles_x;
        let mut tx: usize = 0;
        while tx < self.tiles_x
            invariant
                self.wf(),
                (y as int) / (self.th() as int) < self.rows(),
                base == (y as int / self.th() as int) * self.columns(),
                tx <= self.columns(),
                forall|k: int| 0 <= k < tx ==> #[trigger] self.skip_seq()[base + k],
            decreases self.tiles_x - tx,
        {
            proof {
                lemma_grid_slot(tx as int, y as int / self.th() as int, self.columns() as int, self.rows() as int);
            }
            if !self.skip[base + tx] {
                return false;
            }
            tx += 1;
        }
        true
    }
}

/// Every pixel of `[0, n)` lies in one of the `tile_count(n, size)` tiles.
pub proof fn lemma_tile_of_pixel(n: int, size: int, x: int)
    requires
        size >= 1,
        0 <= x < n,
    ensures
        0 <= x / size < tile_count(n, size),
{
    vstd::arithmetic::div_mod::lemma_div_pos_is_pos(x, size);
    vstd::arithmetic::div_mod::lemma_fundamental_div_mod(x, size);
    vstd::arithmetic::div_mod::lemma_fundamental_div_mod(n + size - 1, size);
    vstd::arithmetic::div_mod::lemma_mod_pos_bound(x, size);
    vstd::arithmetic::div_mod::lemma_mod_pos_bound(n + size - 1, size);
    let (qx, qc) = (x / size, (n + size - 1) / size);
    assert(qx < qc) by (nonlinear_arith)
        requires
            x == size * qx + x % size,
            n + size - 1 == size * qc + (n + size - 1) % size,
            0 <= x % size,
            (n + size - 1) % size < size,
            x < n,
            size >= 1,
    ;
}

/// On a grid whose tile columns cover an image `w` pixels wide, every tile
/// of the tile row holding `y` is skipped exactly when every pixel of row
/// `y` lies in a skipped tile: the tile-row check agrees with the per-pixel
/// lookup over the row.
pub proof fn lemma_row_all_skip_is_per_pixel(g: TileThresholdGrid, w: int, y: int)
    requires
        g.wf(),
        w >= 1,
        g.columns() == tile_count(w, g.tw() as int),
        0 <= y,
        y / (g.th() as int) < g.rows(),
    ensures
        (forall|tx: int|
            0 <= tx < g.columns() ==> #[trigger] g.skip_seq()[(y / g.th() as int) * g.columns() + tx])
            <==> (forall|x: int| 0 <= x < w ==> #[trigger] g.skip_seq()[g.tile_index(x, y)]),
{
    let tw = g.tw() as int;
    let c = g.columns() as int;
    let ty = y / g.th() as int;
    if forall|tx: int| 0 <= tx < c ==> #[trigger] g.skip_seq()[ty * c + tx] {
        assert forall|x: int| 0 <= x < w implies #[trigger] g.skip_seq()[g.tile_index(x, y)] by {
            lemma_tile_of_pixel(w, tw, x);
            let qx = x / tw;
            assert(g.skip_seq()[ty * c + qx]);
        }
    }
    if forall|x: int| 0 <= x < w ==> #[trigger] g.skip_seq()[g.tile_index(x, y)] {
        assert forall|tx: int| 0 <= tx < c implies #[trigger] g.skip_seq()[ty * c + tx] by {
            lemma_tiling(w, tw, tx);
            vstd::arithmetic::div_mod::lemma_div_multiples_vanish(tx, tw);
            assert(tw * tx == tx * tw) by (nonlinear_arith);
            assert(g.skip_seq()[g.tile_index(tx * tw, y)]);
        }
    }
}

} // verus!
