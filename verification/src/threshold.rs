//! Tile-local adaptive thresholds and whole-image Sauvola binarization.
use crate::image::{
    layout_span,
    lemma_grid_slot, lemma_paint_pixel, lemma_paint_row_done, lemma_paint_step, lemma_paint_tight,
    lemma_tight_layout, paint, paint_upto, pixel_offset, transposed, Gray8Image, Gray8View, Gray8ViewMut,
    Size,
};
use crate::imgproc::ImgProcError;
use vstd::prelude::*;

verus! {

/// `r` is the integer square root of `v`: the largest `r` with `r² ≤ v`.
pub open spec fn is_isqrt(v: int, r: int) -> bool {
    0 <= r && r * r <= v && v < (r + 1) * (r + 1)
}

/// `t²`.
pub open spec fn sq(t: int) -> int {
    t * t
}

/// One Newton step never undershoots any `t` with `t² ≤ v`.
proof fn lemma_newton_step_bounds(x: int, v: int, t: int)
    requires
        x >= 1,
        0 <= t,
        t * t <= v,
    ensures
        (x + v / x) / 2 >= t,
{
    let q = v / x;
    assert(v < x * (q + 1)) by (nonlinear_arith)
        requires
            x >= 1,
            q == v / x,
    ;
    if x + q + 1 <= 2 * t {
        assert(4 * x * (q + 1) <= (x + q + 1) * (x + q + 1)) by (nonlinear_arith);
        assert((x + q + 1) * (x + q + 1) <= 4 * t * t) by (nonlinear_arith)
            requires
                0 <= x + q + 1 <= 2 * t,
        ;
        assert(false) by (nonlinear_arith)
            requires
                4 * x * (q + 1) <= 4 * t * t,
                t * t <= v,
                v < x * (q + 1),
        ;
    }
}

/// A Newton step from an `x` with `x² > v` strictly decreases.
proof fn lemma_newton_step_decreases(x: int, v: int)
    requires
        x >= 1,
        x * x > v,
        v >= 0,
    ensures
        (x + v / x) / 2 < x,
{
    let q = v / x;
    assert(x * q <= v) by (nonlinear_arith)
        requires
            x >= 1,
            q == v / x,
            v >= 0,
    ;
    if q >= x {
        assert(x * q >= x * x) by (nonlinear_arith)
            requires
                q >= x,
                x >= 1,
        ;
    }
}

/// Integer square root by Newton's iteration.
pub fn integer_sqrt(value: u64) -> (r: u64)
    ensures
        is_isqrt(value as int, r as int),
{
    if value < 2 {
        assert(is_isqrt(value as int, value as int)) by (nonlinear_arith)
            requires
                value < 2,
        ;
        return value;
    }
    let mut x = value;
    let mut y = value / 2 + value % 2;
    proof {
        assert forall|t: int| 0 <= t && #[trigger] sq(t) <= value implies t <= x by {
            if t > x {
                assert(t * t > value) by (nonlinear_arith)
                    requires
                        t > x,
                        x >= 2,
                        x == value,
                ;
            }
        }
        assert forall|t: int| 0 <= t && #[trigger] sq(t) <= value implies t <= y by {
            lemma_newton_step_bounds(value as int, value as int, t);
            assert(value as int / value as int == 1) by (nonlinear_arith)
                requires
                    value >= 2,
            ;
        }
        assert(value as int / value as int == 1) by (nonlinear_arith)
            requires
                value >= 2,
        ;
    }
    while y < x
        invariant
            value >= 2,
            x >= 1,
            y as int == (x as int + value as int / x as int) / 2,
            y < x ==> y <= value / 2 + value % 2,
            x <= value,
            forall|t: int| 0 <= t && #[trigger] sq(t) <= value ==> t <= y,
            forall|t: int| 0 <= t && #[trigger] sq(t) <= value ==> t <= x,
        decreases x,
    {
        proof {
            assert(sq(1) <= value);
        }
        x = y;
        proof {
            // x is now at least every t with t² ≤ value, so (x+1)² > value.
            let q = value as int / x as int;
            assert(sq(x as int + 1) > value);
            assert(x as int * q <= value) by (nonlinear_arith)
                requires
                    x >= 1,
                    q == value as int / x as int,
            ;
            assert(q <= x + 2) by (nonlinear_arith)
                requires
                    x >= 1,
                    x * q <= value,
                    value < (x + 1) * (x + 1),
            ;
            assert(x + q <= u64::MAX) by (nonlinear_arith)
                requires
                    x >= 1,
                    x <= value / 2 + value % 2,
                    value <= u64::MAX,
                    q <= x + 2,
                    x * q <= value,
            ;
        }
        y = (x + value / x) / 2;
        proof {
            assert forall|t: int| 0 <= t && #[trigger] sq(t) <= value implies t <= y by {
                lemma_newton_step_bounds(x as int, value as int, t);
            }
        }
    }
    proof {
        if (x as int) * (x as int) > value {
            lemma_newton_step_decreases(x as int, value as int);
        }
        assert(sq(x as int + 1) > value);
    }
    x
}


/// The integer square roots of a value agree.
proof fn lemma_isqrt_unique(v: int, a: int, b: int)
    requires
        is_isqrt(v, a),
        is_isqrt(v, b),
    ensures
        a == b,
{
    if a < b {
        assert((a + 1) * (a + 1) <= b * b) by (nonlinear_arith)
            requires
                0 <= a < b,
        ;
    } else if b < a {
        assert((b + 1) * (b + 1) <= a * a) by (nonlinear_arith)
            requires
                0 <= b < a,
        ;
    }
}

/// The integer square root of `v`.
pub open spec fn isqrt(v: int) -> int {
    choose|r: int| is_isqrt(v, r)
}

// ---------------------------------------------------------------------------
// Window sums
// ---------------------------------------------------------------------------
/// Pixel `(x, y)` of `v`, or its square.
pub open spec fn sample(v: Gray8View, x: int, y: int, squared: bool) -> int {
    if squared {
        v.pixel(x, y) as int * v.pixel(x, y) as int
    } else {
        v.pixel(x, y) as int
    }
}

/// Sum of `sample` over row `y`, columns `[x0, x1)`.
pub open spec fn row_total(v: Gray8View, y: int, x0: int, x1: int, squared: bool) -> int
    decreases x1 - x0,
{
    if x1 <= x0 {
        0
    } else {
        row_total(v, y, x0, x1 - 1, squared) + sample(v, x1 - 1, y, squared)
    }
}

/// Sum of `sample` over `[x0, x1) × [y0, y1)`.
pub open spec fn rect_total(v: Gray8View, x0: int, x1: int, y0: int, y1: int, squared: bool) -> int
    decreases y1 - y0,
{
    if y1 <= y0 {
        0
    } else {
        rect_total(v, x0, x1, y0, y1 - 1, squared) + row_total(v, y1 - 1, x0, x1, squared)
    }
}

pub proof fn lemma_row_split(v: Gray8View, y: int, x0: int, xm: int, x1: int, squared: bool)
    requires
        x0 <= xm <= x1,
    ensures
        row_total(v, y, x0, x1, squared) == row_total(v, y, x0, xm, squared) + row_total(
            v,
            y,
            xm,
            x1,
            squared,
        ),
    decreases x1 - xm,
{
    if x1 > xm {
        lemma_row_split(v, y, x0, xm, x1 - 1, squared);
    }
}

pub proof fn lemma_row_bounds(v: Gray8View, y: int, x0: int, x1: int, squared: bool)
    requires
        x0 <= x1,
    ensures
        0 <= row_total(v, y, x0, x1, squared) <= 65025 * (x1 - x0),
    decreases x1 - x0,
{
    if x1 > x0 {
        lemma_row_bounds(v, y, x0, x1 - 1, squared);
        let p = v.pixel(x1 - 1, y) as int;
        assert(0 <= p * p <= 65025) by (nonlinear_arith)
            requires
                0 <= p <= 255,
        ;
    }
}

pub proof fn lemma_rect_split_x(v: Gray8View, x0: int, xm: int, x1: int, y0: int, y1: int, squared: bool)
    requires
        x0 <= xm <= x1,
    ensures
        rect_total(v, x0, x1, y0, y1, squared) == rect_total(v, x0, xm, y0, y1, squared)
            + rect_total(v, xm, x1, y0, y1, squared),
    decreases y1 - y0,
{
    if y1 > y0 {
        lemma_rect_split_x(v, x0, xm, x1, y0, y1 - 1, squared);
        lemma_row_split(v, y1 - 1, x0, xm, x1, squared);
    }
}

pub proof fn lemma_rect_split_y(v: Gray8View, x0: int, x1: int, y0: int, ym: int, y1: int, squared: bool)
    requires
        y0 <= ym <= y1,
    ensures
        rect_total(v, x0, x1, y0, y1, squared) == rect_total(v, x0, x1, y0, ym, squared)
            + rect_total(v, x0, x1, ym, y1, squared),
    decreases y1 - ym,
{
    if y1 > ym {
        lemma_rect_split_y(v, x0, x1, y0, ym, y1 - 1, squared);
    }
}

pub proof fn lemma_rect_bounds(v: Gray8View, x0: int, x1: int, y0: int, y1: int, squared: bool)
    requires
        x0 <= x1,
        y0 <= y1,
    ensures
        0 <= rect_total(v, x0, x1, y0, y1, squared) <= 65025 * ((x1 - x0) * (y1 - y0)),
    decreases y1 - y0,
{
    if y1 > y0 {
        lemma_rect_bounds(v, x0, x1, y0, y1 - 1, squared);
        lemma_row_bounds(v, y1 - 1, x0, x1, squared);
        assert((x1 - x0) * (y1 - 1 - y0) + (x1 - x0) == (x1 - x0) * (y1 - y0)) by (nonlinear_arith);
    }
}

/// The smaller (`lo`) or larger of two values.
pub open spec fn pick(a: int, b: int, lo: bool) -> int {
    if lo == (a <= b) {
        a
    } else {
        b
    }
}

/// What [`pick`] starts from: above every sample for a minimum, below every
/// sample for a maximum.
pub open spec fn pick_identity(lo: bool) -> int {
    if lo {
        255
    } else {
        0
    }
}

/// Minimum (`lo`) or maximum of row `y` over columns `[x0, x1)`; the identity
/// when the range is empty.
pub open spec fn row_extreme(v: Gray8View, y: int, x0: int, x1: int, lo: bool) -> int
    decreases x1 - x0,
{
    if x1 <= x0 {
        pick_identity(lo)
    } else {
        pick(row_extreme(v, y, x0, x1 - 1, lo), v.pixel(x1 - 1, y) as int, lo)
    }
}

/// Minimum (`lo`) or maximum over `[x0, x1) × [y0, y1)`; the identity when
/// the rectangle is empty.
pub open spec fn rect_extreme(v: Gray8View, x0: int, x1: int, y0: int, y1: int, lo: bool) -> int
    decreases y1 - y0,
{
    if y1 <= y0 {
        pick_identity(lo)
    } else {
        pick(rect_extreme(v, x0, x1, y0, y1 - 1, lo), row_extreme(v, y1 - 1, x0, x1, lo), lo)
    }
}

pub proof fn lemma_row_extreme_split(v: Gray8View, y: int, x0: int, xm: int, x1: int, lo: bool)
    requires
        x0 <= xm <= x1,
    ensures
        row_extreme(v, y, x0, x1, lo) == pick(
            row_extreme(v, y, x0, xm, lo),
            row_extreme(v, y, xm, x1, lo),
            lo,
        ),
        0 <= row_extreme(v, y, x0, x1, lo) <= 255,
    decreases x1 - xm,
{
    if x1 > xm {
        lemma_row_extreme_split(v, y, x0, xm, x1 - 1, lo);
    } else {
        lemma_row_extreme_bounds(v, y, x0, x1, lo);
    }
}

pub proof fn lemma_row_extreme_bounds(v: Gray8View, y: int, x0: int, x1: int, lo: bool)
    ensures
        0 <= row_extreme(v, y, x0, x1, lo) <= 255,
    decreases x1 - x0,
{
    if x1 > x0 {
        lemma_row_extreme_bounds(v, y, x0, x1 - 1, lo);
    }
}

pub proof fn lemma_rect_extreme_bounds(v: Gray8View, x0: int, x1: int, y0: int, y1: int, lo: bool)
    ensures
        0 <= rect_extreme(v, x0, x1, y0, y1, lo) <= 255,
    decreases y1 - y0,
{
    if y1 > y0 {
        lemma_rect_extreme_bounds(v, x0, x1, y0, y1 - 1, lo);
        lemma_row_extreme_bounds(v, y1 - 1, x0, x1, lo);
    }
}

pub proof fn lemma_rect_extreme_split_x(
    v: Gray8View,
    x0: int,
    xm: int,
    x1: int,
    y0: int,
    y1: int,
    lo: bool,
)
    requires
        x0 <= xm <= x1,
    ensures
        rect_extreme(v, x0, x1, y0, y1, lo) == pick(
            rect_extreme(v, x0, xm, y0, y1, lo),
            rect_extreme(v, xm, x1, y0, y1, lo),
            lo,
        ),
    decreases y1 - y0,
{
    if y1 > y0 {
        lemma_rect_extreme_split_x(v, x0, xm, x1, y0, y1 - 1, lo);
        lemma_row_extreme_split(v, y1 - 1, x0, xm, x1, lo);
        lemma_rect_extreme_bounds(v, x0, xm, y0, y1 - 1, lo);
        lemma_rect_extreme_bounds(v, xm, x1, y0, y1 - 1, lo);
        lemma_row_extreme_bounds(v, y1 - 1, x0, xm, lo);
        lemma_row_extreme_bounds(v, y1 - 1, xm, x1, lo);
    }
}

pub proof fn lemma_rect_extreme_split_y(
    v: Gray8View,
    x0: int,
    x1: int,
    y0: int,
    ym: int,
    y1: int,
    lo: bool,
)
    requires
        y0 <= ym <= y1,
    ensures
        rect_extreme(v, x0, x1, y0, y1, lo) == pick(
            rect_extreme(v, x0, x1, y0, ym, lo),
            rect_extreme(v, x0, x1, ym, y1, lo),
            lo,
        ),
    decreases y1 - ym,
{
    lemma_rect_extreme_bounds(v, x0, x1, y0, ym, lo);
    if y1 > ym {
        lemma_rect_extreme_split_y(v, x0, x1, y0, ym, y1 - 1, lo);
        lemma_rect_extreme_bounds(v, x0, x1, ym, y1 - 1, lo);
        lemma_row_extreme_bounds(v, y1 - 1, x0, x1, lo);
    }
}

// ---------------------------------------------------------------------------
// Sauvola
// ---------------------------------------------------------------------------
/// Configuration for whole-image Sauvola binarization.
#[derive(Clone, Copy, Debug, PartialEq, Eq, Structural)]
pub struct SauvolaConfig {
    /// Half-window radius in pixels.
    pub radius: usize,
    /// Sauvola `k` scaled by 1000 (e.g. 200 → 0.2).
    pub k_milli: u32,
    /// Dynamic range used to normalize the local stddev.
    pub dynamic_range: u32,
    /// Output value for pixels classified as dark.
    pub dark_value: u8,
    /// Output value for pixels classified as light.
    pub light_value: u8,
}

impl Default for SauvolaConfig {
    fn default() -> (r: Self)
        ensures
            r == (SauvolaConfig {
                radius: 8,
                k_milli: 200,
                dynamic_range: 128,
                dark_value: 0,
                light_value: 255,
            }),
    {
        SauvolaConfig { radius: 8, k_milli: 200, dynamic_range: 128, dark_value: 0, light_value: 255 }
    }
}

/// Reusable integral-image scratch storage for Sauvola.
#[derive(Debug)]
pub struct ThresholdWorkspace {
    sum: Vec<u64>,
    sum_sq: Vec<u64>,
}

impl Default for ThresholdWorkspace {
    fn default() -> (r: Self) {
        ThresholdWorkspace { sum: Vec::new(), sum_sq: Vec::new() }
    }
}

/// The window of radius `r` around coordinate `c`, clipped to `[0, n)`.
pub open spec fn window_lo(c: int, r: int) -> int {
    if c >= r {
        c - r
    } else {
        0
    }
}

/// Exclusive upper end of the window of radius `r` around `c`, clipped to `n`.
pub open spec fn window_hi(c: int, r: int, n: int) -> int {
    if c + r + 1 <= n {
        c + r + 1
    } else {
        n
    }
}

/// Sauvola threshold of a window from its sample sum, squared-sample sum and
/// pixel count: `mean · (1000 − k + k·σ/R) / 1000`, all in integer arithmetic.
pub open spec fn sauvola_from_sums(sum: int, sum_sq: int, count: int, config: SauvolaConfig) -> int {
    let mean = sum / count;
    let raw_variance = sum_sq / count - mean * mean;
    let variance = if raw_variance > 0 {
        raw_variance
    } else {
        0
    };
    let k = config.k_milli as int;
    mean * (1000 - k + k * isqrt(variance) / config.dynamic_range as int) / 1000
}

/// Sauvola threshold at `(x, y)` over the clipped `(2r+1)²` window.
pub open spec fn sauvola_threshold(v: Gray8View, config: SauvolaConfig, x: int, y: int) -> int {
    let x0 = window_lo(x, config.radius as int);
    let x1 = window_hi(x, config.radius as int, v.w() as int);
    let y0 = window_lo(y, config.radius as int);
    let y1 = window_hi(y, config.radius as int, v.h() as int);
    sauvola_from_sums(
        rect_total(v, x0, x1, y0, y1, false),
        rect_total(v, x0, x1, y0, y1, true),
        (x1 - x0) * (y1 - y0),
        config,
    )
}

/// Sauvola output at `(x, y)`: dark where the pixel is at or below the
/// local threshold.
pub open spec fn sauvola_value(v: Gray8View, config: SauvolaConfig, x: int, y: int) -> u8 {
    if v.pixel(x, y) as int <= sauvola_threshold(v, config, x, y) {
        config.dark_value
    } else {
        config.light_value
    }
}

/// Sauvola output for every pixel of `v`.
pub open spec fn sauvola_fn(v: Gray8View, config: SauvolaConfig) -> spec_fn(int, int) -> u8 {
    |x: int, y: int| sauvola_value(v, config, x, y)
}

/// What [`sauvola_into`] rejects, if anything.
pub open spec fn sauvola_error(src_size: (int, int), dst_size: (int, int), config: SauvolaConfig) -> Option<
    ImgProcError,
> {
    if src_size != dst_size {
        Some(ImgProcError::DimensionMismatch)
    } else if config.radius == 0 || config.k_milli > 1000 || config.dynamic_range == 0 {
        Some(ImgProcError::InvalidConfiguration)
    } else if (src_size.0 + 1) * (src_size.1 + 1) > usize::MAX {
        Some(ImgProcError::InvalidConfiguration)
    } else {
        None
    }
}

/// Integral-image entry `(c, r)`: the sum over `[0, c) × [0, r)`.
pub open spec fn prefix_total(v: Gray8View, c: int, r: int, squared: bool) -> int {
    rect_total(v, 0, c, 0, r, squared)
}

/// Entry `(c, r)` of a row-major table with row pitch `pitch`.
pub open spec fn table_at(t: Seq<u64>, c: int, r: int, pitch: int) -> u64 {
    t[r * pitch + c]
}

/// `t` is the `(w+1)×(h+1)` integral image of `v`: entry `(c, r)` is the sum
/// over `[0, c) × [0, r)`.
pub open spec fn is_integral(t: Seq<u64>, v: Gray8View, squared: bool) -> bool {
    &&& t.len() == (v.w() + 1) * (v.h() + 1)
    &&& forall|c: int, r: int|
        0 <= c <= v.w() && 0 <= r <= v.h() ==> #[trigger] table_at(t, c, r, v.w() as int + 1)
            == prefix_total(v, c, r, squared)
}

pub proof fn lemma_rect_empty_x(v: Gray8View, x0: int, x1: int, y0: int, y1: int, squared: bool)
    requires
        x1 <= x0,
    ensures
        rect_total(v, x0, x1, y0, y1, squared) == 0,
    decreases y1 - y0,
{
    if y1 > y0 {
        lemma_rect_empty_x(v, x0, x1, y0, y1 - 1, squared);
    }
}

/// A `c×r` corner of an image whose every sum fits in `u64` fits too.
proof fn lemma_prefix_fits(v: Gray8View, c: int, r: int, squared: bool)
    requires
        0 <= c <= v.w(),
        0 <= r <= v.h(),
        v.w() * v.h() * 65025 <= u64::MAX,
    ensures
        0 <= prefix_total(v, c, r, squared) <= u64::MAX,
{
    lemma_rect_bounds(v, 0, c, 0, r, squared);
    assert(65025 * (c * r) <= v.w() * v.h() * 65025) by (nonlinear_arith)
        requires
            0 <= c <= v.w(),
            0 <= r <= v.h(),
    ;
}

/// Build the integral image of `src` (of squared samples when `squared`).
fn build_integral(src: &Gray8View, squared: bool) -> (t: Vec<u64>)
    requires
        src.wf(),
        (src.w() + 1) * (src.h() + 1) <= usize::MAX,
        src.w() * src.h() * 65025 <= u64::MAX,
    ensures
        is_integral(t@, *src, squared),
{
    let w = src.width();
    let h = src.height();
    proof {
        assert(w + 1 <= (w + 1) * (h + 1) && h + 1 <= (w + 1) * (h + 1)) by (nonlinear_arith)
            requires
                h >= 1,
                w >= 1,
        ;
    }
    let iw = w + 1;
    let n = iw * (h + 1);
    let mut t: Vec<u64> = vec![0u64; n];
    let ghost v = *src;
    proof {
        assert forall|c: int, r: int|
            0 <= c <= w && 0 <= r <= h && (r <= 0 || c == 0) implies #[trigger] table_at(
            t@,
            c,
            r,
            iw as int,
        ) == prefix_total(v, c, r, squared) by {
            lemma_grid_slot(c, r, iw as int, h + 1);
            if c == 0 {
                lemma_rect_empty_x(v, 0, 0, 0, r, squared);
            }
        }
    }
    let mut y: usize = 0;
    while y < h
        invariant
            v == *src,
            src.wf(),
            w == v.w(),
            h == v.h(),
            iw == w + 1,
            n == iw * (h + 1),
            n <= usize::MAX,
            v.w() * v.h() * 65025 <= u64::MAX,
            t@.len() == n,
            y <= h,
            forall|c: int, r: int|
                0 <= c <= w && 0 <= r <= h && (r <= y || c == 0) ==> #[trigger] table_at(
                    t@,
                    c,
                    r,
                    iw as int,
                ) == prefix_total(v, c, r, squared),
        decreases h - y,
    {
        let mut row: u64 = 0;
        let mut x: usize = 0;
        while x < w
            invariant
                v == *src,
                src.wf(),
                w == v.w(),
                h == v.h(),
                iw == w + 1,
                n == iw * (h + 1),
                n <= usize::MAX,
                v.w() * v.h() * 65025 <= u64::MAX,
                t@.len() == n,
                y < h,
                x <= w,
                row == row_total(v, y as int, 0, x as int, squared),
                forall|c: int, r: int|
                    0 <= c <= w && 0 <= r <= h && (r <= y || c == 0 || (r == y + 1 && c <= x))
                        ==> #[trigger] table_at(t@, c, r, iw as int) == prefix_total(
                        v,
                        c,
                        r,
                        squared,
                    ),
            decreases w - x,
        {
            let p = src.get(x, y) as u64;
            proof {
                lemma_row_bounds(v, y as int, 0, x + 1, squared);
                assert(65025 * (x + 1) <= v.w() * v.h() * 65025) by (nonlinear_arith)
                    requires
                        x + 1 <= v.w(),
                        1 <= v.h(),
                ;
                assert(p * p <= 65025) by (nonlinear_arith)
                    requires
                        p <= 255,
                ;
            }
            row = if squared {
                row + p * p
            } else {
                row + p
            };
            proof {
                lemma_grid_slot(x + 1, y + 1, iw as int, h + 1);
                lemma_grid_slot(x + 1, y as int, iw as int, h + 1);
                assert((y + 1) * iw == y * iw + iw) by (nonlinear_arith);
                assert(table_at(t@, x + 1, y as int, iw as int) == prefix_total(
                    v,
                    x + 1,
                    y as int,
                    squared,
                ));
                lemma_prefix_fits(v, x + 1, y + 1, squared);
            }
            let index = (y + 1) * iw + x + 1;
            let above = t[index - iw];
            let ghost before = t@;
            t.set(index, above + row);
            proof {
                assert forall|c: int, r: int|
                    0 <= c <= w && 0 <= r <= h && (r <= y || c == 0 || (r == y + 1 && c <= x + 1))
                        implies #[trigger] table_at(t@, c, r, iw as int) == prefix_total(
                    v,
                    c,
                    r,
                    squared,
                ) by {
                    lemma_grid_slot(c, r, iw as int, h + 1);
                    if r * iw + c != index {
                        assert(table_at(t@, c, r, iw as int) == table_at(
                            before,
                            c,
                            r,
                            iw as int,
                        ));
                    }
                }
            }
            x += 1;
        }
        y += 1;
    }
    t
}

/// Sum of the samples over `[x0, x1) × [y0, y1)`, read off an integral image
/// in four lookups.
fn window_sum(
    t: &Vec<u64>,
    Ghost(v): Ghost<Gray8View>,
    Ghost(squared): Ghost<bool>,
    iw: usize,
    x0: usize,
    y0: usize,
    x1: usize,
    y1: usize,
) -> (r: u64)
    requires
        is_integral(t@, v, squared),
        iw == v.w() + 1,
        x0 <= x1 <= v.w(),
        y0 <= y1 <= v.h(),
        (v.w() + 1) * (v.h() + 1) <= usize::MAX,
        v.w() * v.h() * 65025 <= u64::MAX,
    ensures
        r == rect_total(v, x0 as int, x1 as int, y0 as int, y1 as int, squared),
{
    proof {
        let rows: int = v.h() as int + 1;
        assert(rows * iw == (v.w() + 1) * (v.h() + 1)) by (nonlinear_arith)
            requires
                rows == v.h() + 1,
                iw == v.w() + 1,
        ;
        lemma_grid_slot(x1 as int, y1 as int, iw as int, rows);
        lemma_grid_slot(x0 as int, y1 as int, iw as int, rows);
        lemma_grid_slot(x1 as int, y0 as int, iw as int, rows);
        lemma_grid_slot(x0 as int, y0 as int, iw as int, rows);
        assert(table_at(t@, x1 as int, y1 as int, iw as int) == prefix_total(v, x1 as int, y1 as int, squared));
        assert(table_at(t@, x0 as int, y1 as int, iw as int) == prefix_total(v, x0 as int, y1 as int, squared));
        assert(table_at(t@, x1 as int, y0 as int, iw as int) == prefix_total(v, x1 as int, y0 as int, squared));
        assert(table_at(t@, x0 as int, y0 as int, iw as int) == prefix_total(v, x0 as int, y0 as int, squared));
        lemma_rect_split_x(v, 0, x0 as int, x1 as int, 0, y1 as int, squared);
        lemma_rect_split_x(v, 0, x0 as int, x1 as int, 0, y0 as int, squared);
        lemma_rect_split_y(v, x0 as int, x1 as int, 0, y0 as int, y1 as int, squared);
        lemma_rect_bounds(v, x0 as int, x1 as int, 0, y0 as int, squared);
        lemma_rect_bounds(v, x0 as int, x1 as int, y0 as int, y1 as int, squared);
    }
    let a = t[y1 * iw + x1];
    let b = t[y1 * iw + x0];
    let c = t[y0 * iw + x1];
    let d = t[y0 * iw + x0];
    assert(a == prefix_total(v, x1 as int, y1 as int, squared));
    assert(b == prefix_total(v, x0 as int, y1 as int, squared));
    assert(c == prefix_total(v, x1 as int, y0 as int, squared));
    assert(d == prefix_total(v, x0 as int, y0 as int, squared));
    assert(a - b == rect_total(v, x0 as int, x1 as int, 0, y1 as int, squared));
    assert(c - d == rect_total(v, x0 as int, x1 as int, 0, y0 as int, squared));
    assert(c - d >= 0);
    assert(a - b >= c - d);
    (a - b) - (c - d)
}

/// [`sauvola_from_sums`] on machine integers.
fn threshold_from_sums(sum: u64, sum_sq: u64, count: u64, config: &SauvolaConfig) -> (t: u64)
    requires
        count >= 1,
        sum <= 65025 * count,
        config.k_milli <= 1000,
        config.dynamic_range >= 1,
    ensures
        t == sauvola_from_sums(sum as int, sum_sq as int, count as int, *config),
{
    let mean = sum / count;
    proof {
        assert(mean <= 65025) by (nonlinear_arith)
            requires
                mean == sum / count,
                count >= 1,
                sum <= 65025 * count,
        ;
    }
    let second = sum_sq / count;
    proof {
        assert(mean * mean <= 65025 * 65025) by (nonlinear_arith)
            requires
                mean <= 65025,
        ;
    }
    let variance = if second > mean * mean {
        second - mean * mean
    } else {
        0
    };
    let stddev = integer_sqrt(variance);
    proof {
        assert(is_isqrt(variance as int, isqrt(variance as int)));
        lemma_isqrt_unique(variance as int, stddev as int, isqrt(variance as int));
        assert(stddev < 0x1_0000_0000) by (nonlinear_arith)
            requires
                stddev * stddev <= variance,
                variance <= u64::MAX,
        ;
    }
    let k = config.k_milli as u64;
    proof {
        assert(k * stddev <= 1000 * 0x1_0000_0000) by (nonlinear_arith)
            requires
                k <= 1000,
                stddev < 0x1_0000_0000,
        ;
    }
    let scale = 1000 - k + k * stddev / config.dynamic_range as u64;
    proof {
        let d = config.dynamic_range as int;
        assert((k * stddev) / d <= k * stddev) by (nonlinear_arith)
            requires
                d >= 1,
                k * stddev >= 0,
        ;
        assert(mean * scale <= 65025 * (1000 + 1000 * 0x1_0000_0000)) by (nonlinear_arith)
            requires
                mean <= 65025,
                scale <= 1000 + k * stddev,
                k <= 1000,
                stddev < 0x1_0000_0000,
        ;
    }
    mean * scale / 1000
}

/// Overwrite every pixel of `dst` with the Sauvola output of `src`, given the
/// integral images of `src`.
fn paint_sauvola(
    src: &Gray8View,
    dst: &mut Gray8ViewMut,
    config: &SauvolaConfig,
    sum: &Vec<u64>,
    sum_sq: &Vec<u64>,
)
    requires
        src.wf(),
        old(dst).wf(),
        old(dst).w() == src.w(),
        old(dst).h() == src.h(),
        is_integral(sum@, *src, false),
        is_integral(sum_sq@, *src, true),
        (src.w() + 1) * (src.h() + 1) <= usize::MAX,
        src.w() * src.h() * 65025 <= u64::MAX,
        config.k_milli <= 1000,
        config.dynamic_range >= 1,
    ensures
        final(dst).wf(),
        final(dst).w() == old(dst).w(),
        final(dst).h() == old(dst).h(),
        final(dst).s() == old(dst).s(),
        final(final(dst).data)@ == final(old(dst).data)@,
        final(dst).bytes() == paint(
            old(dst).bytes(),
            old(dst).s() as int,
            src.w() as int,
            src.h() as int,
            sauvola_fn(*src, *config),
        ),
{
    let w = src.width();
    let h = src.height();
    proof {
        assert(w + 1 <= (w + 1) * (h + 1) && w * h <= (w + 1) * (h + 1)) by (nonlinear_arith)
            requires
                h >= 1,
                w >= 1,
        ;
    }
    let iw = w + 1;
    let r = config.radius;
    let ghost f = sauvola_fn(*src, *config);
    let ghost start = old(dst).bytes();
    let ghost stride = old(dst).s() as int;
    let mut y: usize = 0;
    while y < h
        invariant
            src.wf(),
            dst.wf(),
            w == src.w(),
            h == src.h(),
            iw == w + 1,
            r == config.radius,
            dst.w() == w,
            dst.h() == h,
            dst.s() == stride,
            start == old(dst).bytes(),
            stride == old(dst).s(),
            f == sauvola_fn(*src, *config),
            is_integral(sum@, *src, false),
            is_integral(sum_sq@, *src, true),
            (src.w() + 1) * (src.h() + 1) <= usize::MAX,
            src.w() * src.h() * 65025 <= u64::MAX,
            config.k_milli <= 1000,
            config.dynamic_range >= 1,
            y <= h,
            final(dst.data)@ == final(old(dst).data)@,
            dst.bytes() == paint_upto(start, stride, w as int, f, 0, y as int),
        decreases h - y,
    {
        let y0 = if y >= r {
            y - r
        } else {
            0
        };
        let y1 = if r < h - y {
            y + r + 1
        } else {
            h
        };
        let mut x: usize = 0;
        while x < w
            invariant
                src.wf(),
                dst.wf(),
                w == src.w(),
                h == src.h(),
                iw == w + 1,
                r == config.radius,
                dst.w() == w,
                dst.h() == h,
                dst.s() == stride,
                start == old(dst).bytes(),
                stride == old(dst).s(),
                f == sauvola_fn(*src, *config),
                is_integral(sum@, *src, false),
                is_integral(sum_sq@, *src, true),
                (src.w() + 1) * (src.h() + 1) <= usize::MAX,
                src.w() * src.h() * 65025 <= u64::MAX,
                config.k_milli <= 1000,
                config.dynamic_range >= 1,
                y < h,
                x <= w,
                y0 == window_lo(y as int, r as int),
                y1 == window_hi(y as int, r as int, h as int),
                final(dst.data)@ == final(old(dst).data)@,
                dst.bytes() == paint_upto(start, stride, w as int, f, x as int, y as int),
            decreases w - x,
        {
            let x0 = if x >= r {
                x - r
            } else {
                0
            };
            let x1 = if r < w - x {
                x + r + 1
            } else {
                w
            };
            proof {
                assert((x1 - x0) * (y1 - y0) <= w * h) by (nonlinear_arith)
                    requires
                        0 <= x1 - x0 <= w,
                        0 <= y1 - y0 <= h,
                ;
                assert(w * h <= (w + 1) * (h + 1)) by (nonlinear_arith)
                    requires
                        h >= 1,
                        w >= 1,
                ;
                assert((x1 - x0) * (y1 - y0) >= 1) by (nonlinear_arith)
                    requires
                        x1 - x0 >= 1,
                        y1 - y0 >= 1,
                ;
                lemma_rect_bounds(*src, x0 as int, x1 as int, y0 as int, y1 as int, false);
            }
            let count = ((x1 - x0) * (y1 - y0)) as u64;
            let s1 = window_sum(sum, Ghost(*src), Ghost(false), iw, x0, y0, x1, y1);
            let s2 = window_sum(sum_sq, Ghost(*src), Ghost(true), iw, x0, y0, x1, y1);
            let threshold = threshold_from_sums(s1, s2, count, config);
            let value = if src.get(x, y) as u64 <= threshold {
                config.dark_value
            } else {
                config.light_value
            };
            proof {
                lemma_paint_step(start, stride, w as int, h as int, f, x as int, y as int);
            }
            dst.set(x, y, value);
            x += 1;
        }
        proof {
            lemma_paint_row_done(start, stride, w as int, f, y as int);
        }
        y += 1;
    }
}

/// Binarize `src` with Sauvola into caller-owned storage.
///
/// Pixel `(x, y)` becomes `config.dark_value` when it is at or below
/// [`sauvola_threshold`], else `config.light_value`; padding bytes of `dst`
/// are left alone. Mismatched sizes and invalid configurations are rejected
/// before anything is written.
pub fn sauvola_into(
    src: Gray8View,
    dst: Gray8ViewMut,
    config: &SauvolaConfig,
    workspace: &mut ThresholdWorkspace,
) -> (r: Result<(), ImgProcError>)
    requires
        src.wf(),
        dst.wf(),
        src.w() * src.h() * 65025 <= u64::MAX,
    ensures
        r == match sauvola_error(
            (src.w() as int, src.h() as int),
            (dst.w() as int, dst.h() as int),
            *config,
        ) {
            Some(e) => Err::<(), ImgProcError>(e),
            None => Ok(()),
        },
        r is Ok ==> final(dst.data)@ == paint(
            dst.bytes(),
            dst.s() as int,
            dst.w() as int,
            dst.h() as int,
            sauvola_fn(src, *config),
        ),
        r is Err ==> final(dst.data)@ == dst.bytes(),
{
    let mut dst = dst;
    if src.width() != dst.width() || src.height() != dst.height() {
        return Err(ImgProcError::DimensionMismatch);
    }
    if config.radius == 0 || config.k_milli > 1_000 || config.dynamic_range == 0 {
        return Err(ImgProcError::InvalidConfiguration);
    }
    let (iw, ih) = match (src.width().checked_add(1), src.height().checked_add(1)) {
        (Some(iw), Some(ih)) => (iw, ih),
        _ => {
            proof {
                assert((src.w() + 1) * (src.h() + 1) > usize::MAX) by (nonlinear_arith)
                    requires
                        src.w() + 1 > usize::MAX || src.h() + 1 > usize::MAX,
                        src.w() >= 1,
                        src.h() >= 1,
                ;
            }
            return Err(ImgProcError::InvalidConfiguration);
        },
    };
    if iw.checked_mul(ih).is_none() {
        return Err(ImgProcError::InvalidConfiguration);
    }
    workspace.sum = build_integral(&src, false);
    workspace.sum_sq = build_integral(&src, true);
    paint_sauvola(&src, &mut dst, config, &workspace.sum, &workspace.sum_sq);
    Ok(())
}

/// Binarize `src` with Sauvola into a newly allocated image.
pub fn sauvola(src: Gray8View, config: &SauvolaConfig) -> (r: Result<Gray8Image, ImgProcError>)
    requires
        src.wf(),
        src.w() * src.h() * 65025 <= u64::MAX,
    ensures
        match r {
            Ok(img) => {
                &&& sauvola_error(
                    (src.w() as int, src.h() as int),
                    (src.w() as int, src.h() as int),
                    *config,
                ) is None
                &&& img.wf()
                &&& img.dims() == (Size { width: src.w() as usize, height: src.h() as usize })
                &&& img.pixels() == Seq::new(
                    src.w() * src.h(),
                    |k: int| sauvola_value(src, *config, k % src.w() as int, k / src.w() as int),
                )
            },
            Err(e) => sauvola_error(
                (src.w() as int, src.h() as int),
                (src.w() as int, src.h() as int),
                *config,
            ) == Some(e),
        },
{
    proof {
        let (w, h, s) = (src.w() as int, src.h() as int, src.s() as int);
        assert(w * h <= layout_span(w, h, s)) by (nonlinear_arith)
            requires
                1 <= w <= s,
                1 <= h,
        ;
    }
    let mut output = match Gray8Image::new(src.size()) {
        Ok(img) => img,
        Err(e) => return Err(ImgProcError::from(e)),
    };
    let mut workspace = ThresholdWorkspace::default();
    let ghost zeros = output.pixels();
    let view = output.view_mut();
    let result = sauvola_into(src, view, config, &mut workspace);
    match result {
        Ok(()) => {
            proof {
                lemma_paint_tight(zeros, src.w() as int, src.h() as int, sauvola_fn(src, *config));
            }
            Ok(output)
        },
        Err(e) => Err(e),
    }
}

/// Two views that agree on every pixel of the row range have the same row
/// sums there.
proof fn lemma_row_total_congruent(a: Gray8View, b: Gray8View, y: int, x0: int, x1: int, squared: bool)
    requires
        forall|x: int| x0 <= x < x1 ==> #[trigger] a.pixel(x, y) == b.pixel(x, y),
    ensures
        row_total(a, y, x0, x1, squared) == row_total(b, y, x0, x1, squared),
    decreases x1 - x0,
{
    if x1 > x0 {
        lemma_row_total_congruent(a, b, y, x0, x1 - 1, squared);
        assert(a.pixel(x1 - 1, y) == b.pixel(x1 - 1, y));
    }
}

/// Two views that agree on every pixel of a rectangle have the same sums
/// over it.
proof fn lemma_rect_total_congruent(
    a: Gray8View,
    b: Gray8View,
    x0: int,
    x1: int,
    y0: int,
    y1: int,
    squared: bool,
)
    requires
        forall|x: int, y: int| x0 <= x < x1 && y0 <= y < y1 ==> #[trigger] a.pixel(x, y) == b.pixel(x, y),
    ensures
        rect_total(a, x0, x1, y0, y1, squared) == rect_total(b, x0, x1, y0, y1, squared),
    decreases y1 - y0,
{
    if y1 > y0 {
        lemma_rect_total_congruent(a, b, x0, x1, y0, y1 - 1, squared);
        assert forall|x: int| x0 <= x < x1 implies #[trigger] a.pixel(x, y1 - 1) == b.pixel(x, y1 - 1) by {}
        lemma_row_total_congruent(a, b, y1 - 1, x0, x1, squared);
    }
}

/// Sauvola binarization depends on the pixel values alone: two views of the
/// same size that agree on every pixel, whatever their strides and padding
/// bytes, give the same output image.
pub proof fn lemma_sauvola_ignores_stride(a: Gray8View, b: Gray8View, config: SauvolaConfig)
    requires
        a.w() == b.w(),
        a.h() == b.h(),
        forall|x: int, y: int| 0 <= x < a.w() && 0 <= y < a.h() ==> #[trigger] a.pixel(x, y) == b.pixel(x, y),
    ensures
        forall|x: int, y: int|
            0 <= x < a.w() && 0 <= y < a.h() ==> #[trigger] sauvola_value(a, config, x, y) == sauvola_value(
                b,
                config,
                x,
                y,
            ),
        Seq::new(a.w() * a.h(), |k: int| sauvola_value(a, config, k % a.w() as int, k / a.w() as int))
            == Seq::new(b.w() * b.h(), |k: int| sauvola_value(b, config, k % b.w() as int, k / b.w() as int)),
{
    let (w, h) = (a.w() as int, a.h() as int);
    let r = config.radius as int;
    assert forall|x: int, y: int|
        0 <= x < w && 0 <= y < h implies #[trigger] sauvola_value(a, config, x, y) == sauvola_value(
            b,
            config,
            x,
            y,
        ) by {
        let (x0, x1) = (window_lo(x, r), window_hi(x, r, w));
        let (y0, y1) = (window_lo(y, r), window_hi(y, r, h));
        assert forall|xx: int, yy: int| x0 <= xx < x1 && y0 <= yy < y1 implies #[trigger] a.pixel(xx, yy)
            == b.pixel(xx, yy) by {}
        lemma_rect_total_congruent(a, b, x0, x1, y0, y1, false);
        lemma_rect_total_congruent(a, b, x0, x1, y0, y1, true);
    }
    let sa = Seq::new(a.w() * a.h(), |k: int| sauvola_value(a, config, k % w, k / w));
    let sb = Seq::new(b.w() * b.h(), |k: int| sauvola_value(b, config, k % w, k / w));
    assert forall|k: int| 0 <= k < sa.len() implies sa[k] == sb[k] by {
        assert(w >= 1) by (nonlinear_arith)
            requires
                0 <= k < w * h,
                h >= 0,
        ;
        vstd::arithmetic::div_mod::lemma_fundamental_div_mod(k, w);
        vstd::arithmetic::div_mod::lemma_mod_pos_bound(k, w);
        vstd::arithmetic::div_mod::lemma_div_pos_is_pos(k, w);
        assert(k / w < h) by (nonlinear_arith)
            requires
                k == w * (k / w) + k % w,
                0 <= k % w,
                k < w * h,
                w >= 1,
        ;
        assert(sauvola_value(a, config, k % w, k / w) == sauvola_value(b, config, k % w, k / w));
    }
    assert(sa =~= sb);
}

/// A column sum of an image is the matching row sum of its transpose.
proof fn lemma_column_total_transpose(a: Gray8View, b: Gray8View, x: int, y0: int, y1: int, squared: bool)
    requires
        transposed(a, b),
        0 <= x < a.w(),
        0 <= y0,
        y1 <= a.h(),
    ensures
        rect_total(a, x, x + 1, y0, y1, squared) == row_total(b, x, y0, y1, squared),
    decreases y1 - y0,
{
    if y1 > y0 {
        lemma_column_total_transpose(a, b, x, y0, y1 - 1, squared);
        assert(a.pixel(x, y1 - 1) == b.pixel(y1 - 1, x));
        assert(row_total(a, y1 - 1, x, x, squared) == 0);
        assert(row_total(a, y1 - 1, x, x + 1, squared) == sample(a, x, y1 - 1, squared));
    }
}

/// Summing a rectangle of an image equals summing the transposed rectangle
/// of its transpose.
pub proof fn lemma_rect_total_transpose(
    a: Gray8View,
    b: Gray8View,
    x0: int,
    x1: int,
    y0: int,
    y1: int,
    squared: bool,
)
    requires
        transposed(a, b),
        0 <= x0,
        x1 <= a.w(),
        0 <= y0,
        y1 <= a.h(),
    ensures
        rect_total(a, x0, x1, y0, y1, squared) == rect_total(b, y0, y1, x0, x1, squared),
    decreases x1 - x0,
{
    if x1 > x0 {
        lemma_rect_total_transpose(a, b, x0, x1 - 1, y0, y1, squared);
        lemma_rect_split_x(a, x0, x1 - 1, x1, y0, y1, squared);
        lemma_column_total_transpose(a, b, x1 - 1, y0, y1, squared);
    } else {
        lemma_rect_empty_x(a, x0, x1, y0, y1, squared);
    }
}

/// Sauvola binarization treats both axes alike: binarizing the transposed
/// image gives the transposed result. The threshold window is the same
/// square along rows and along columns, so a thin dark line is judged the
/// same whether it runs horizontally or vertically.
pub proof fn lemma_sauvola_transpose(a: Gray8View, b: Gray8View, config: SauvolaConfig, x: int, y: int)
    requires
        transposed(a, b),
        0 <= x < a.w(),
        0 <= y < a.h(),
    ensures
        sauvola_value(a, config, x, y) == sauvola_value(b, config, y, x),
{
    let r = config.radius as int;
    let (x0, x1) = (window_lo(x, r), window_hi(x, r, a.w() as int));
    let (y0, y1) = (window_lo(y, r), window_hi(y, r, a.h() as int));
    lemma_rect_total_transpose(a, b, x0, x1, y0, y1, false);
    lemma_rect_total_transpose(a, b, x0, x1, y0, y1, true);
    assert((x1 - x0) * (y1 - y0) == (y1 - y0) * (x1 - x0)) by (nonlinear_arith);
    assert(a.pixel(x, y) == b.pixel(y, x));
}

/// A row segment of a constant row sums to its length times the row's
/// sample.
proof fn lemma_row_total_constant(v: Gray8View, y: int, x0: int, x1: int, squared: bool)
    requires
        0 <= x0 <= x1 <= v.w(),
        forall|i: int, j: int| 0 <= i < v.w() && 0 <= j < v.h() ==> #[trigger] v.pixel(i, j) == v.pixel(0, j),
        0 <= y < v.h(),
    ensures
        row_total(v, y, x0, x1, squared) == (x1 - x0) * sample(v, 0, y, squared),
    decreases x1 - x0,
{
    if x1 > x0 {
        lemma_row_total_constant(v, y, x0, x1 - 1, squared);
        assert(v.pixel(x1 - 1, y) == v.pixel(0, y));
        assert(sample(v, x1 - 1, y, squared) == sample(v, 0, y, squared));
        assert((x1 - 1 - x0) * sample(v, 0, y, squared) + sample(v, 0, y, squared) == (x1 - x0) * sample(
            v,
            0,
            y,
            squared,
        )) by (nonlinear_arith);
    } else {
        assert((x1 - x0) * sample(v, 0, y, squared) == 0) by (nonlinear_arith)
            requires
                x1 == x0,
        ;
    }
}

/// On an image whose rows are each constant, a rectangle sums to its width
/// times the matching segment of column 0.
proof fn lemma_rect_total_row_constant(v: Gray8View, x0: int, x1: int, y0: int, y1: int, squared: bool)
    requires
        0 <= x0 <= x1 <= v.w(),
        v.w() >= 1,
        0 <= y0,
        y1 <= v.h(),
        forall|i: int, j: int| 0 <= i < v.w() && 0 <= j < v.h() ==> #[trigger] v.pixel(i, j) == v.pixel(0, j),
    ensures
        rect_total(v, x0, x1, y0, y1, squared) == (x1 - x0) * rect_total(v, 0, 1, y0, y1, squared),
    decreases y1 - y0,
{
    if y1 > y0 {
        lemma_rect_total_row_constant(v, x0, x1, y0, y1 - 1, squared);
        lemma_row_total_constant(v, y1 - 1, x0, x1, squared);
        lemma_row_total_constant(v, y1 - 1, 0, 1, squared);
        let a = rect_total(v, 0, 1, y0, y1 - 1, squared);
        let b = sample(v, 0, y1 - 1, squared);
        assert((x1 - x0) * a + (x1 - x0) * b == (x1 - x0) * (a + b)) by (nonlinear_arith);
    } else {
        assert((x1 - x0) * 0 == 0) by (nonlinear_arith);
    }
}

/// On an image whose rows are each constant, the Sauvola threshold at
/// `(x, y)` is the one of column 0's samples over rows `y − r ..= y + r`
/// (clipped to the image), with both sums and the count weighted by the
/// width of the clipped columns `x − r ..= x + r`: the window reaches `r`
/// rows above and below the pixel as well as `r` columns to each side.
pub proof fn lemma_sauvola_row_constant(v: Gray8View, config: SauvolaConfig, x: int, y: int)
    requires
        0 <= x < v.w(),
        0 <= y < v.h(),
        forall|i: int, j: int| 0 <= i < v.w() && 0 <= j < v.h() ==> #[trigger] v.pixel(i, j) == v.pixel(0, j),
    ensures
        ({
            let r = config.radius as int;
            let y0 = if y >= r {
                y - r
            } else {
                0
            };
            let y1 = if y + r + 1 <= v.h() {
                y + r + 1
            } else {
                v.h() as int
            };
            let x0 = if x >= r {
                x - r
            } else {
                0
            };
            let x1 = if x + r + 1 <= v.w() {
                x + r + 1
            } else {
                v.w() as int
            };
            sauvola_threshold(v, config, x, y) == sauvola_from_sums(
                (x1 - x0) * rect_total(v, 0, 1, y0, y1, false),
                (x1 - x0) * rect_total(v, 0, 1, y0, y1, true),
                (x1 - x0) * (y1 - y0),
                config,
            )
        }),
{
    let r = config.radius as int;
    let (x0, x1) = (window_lo(x, r), window_hi(x, r, v.w() as int));
    let (y0, y1) = (window_lo(y, r), window_hi(y, r, v.h() as int));
    lemma_rect_total_row_constant(v, x0, x1, y0, y1, false);
    lemma_rect_total_row_constant(v, x0, x1, y0, y1, true);
}

} // verus!
