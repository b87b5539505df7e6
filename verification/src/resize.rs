//! Nearest-neighbor luma downscale to a working resolution, and the resize
//! configuration types.
//!
//! The working resolution scales the longest side to at most `max_dim`:
//! each output dimension is `round(dim · max_dim / max(w, h))` (halves round
//! up), clamped to at least one pixel.
use crate::image::{lemma_grid_slot, Gray8View};
use crate::kernels::{grid_of, lemma_grid_push};
use vstd::prelude::*;

verus! {

/// Behavior when a sample falls outside the integer-center pixel domain.
#[derive(Clone, Copy, Debug, PartialEq, Eq, Structural)]
pub enum BorderMode {
    /// Reject samples outside `[0, width - 1] x [0, height - 1]`.
    Reject,
    /// Clamp the continuous coordinate to the nearest image edge.
    Clamp,
    /// Return a fixed value for an out-of-domain coordinate.
    Constant(u8),
}

impl Default for BorderMode {
    fn default() -> (r: Self)
        ensures
            r == BorderMode::Reject,
    {
        BorderMode::Reject
    }
}

/// Resampling filter for resizing.
#[derive(Clone, Copy, Debug, PartialEq, Eq, Structural)]
pub enum ResizeFilter {
    /// Nearest-neighbor sampling (matches the scanner downscale path).
    Nearest,
    /// Bilinear sampling at integer-center coordinates.
    Bilinear,
}

impl Default for ResizeFilter {
    fn default() -> (r: Self)
        ensures
            r == ResizeFilter::Nearest,
    {
        ResizeFilter::Nearest
    }
}

/// Filter and border-mode configuration for resizing.
#[derive(Clone, Copy, Debug, PartialEq, Eq, Structural)]
pub struct ResizeConfig {
    /// Resampling filter.
    pub filter: ResizeFilter,
    /// Out-of-domain behavior for bilinear samples.
    pub border: BorderMode,
}

impl Default for ResizeConfig {
    fn default() -> (r: Self)
        ensures
            r == (ResizeConfig { filter: ResizeFilter::Nearest, border: BorderMode::Clamp }),
    {
        ResizeConfig { filter: ResizeFilter::Nearest, border: BorderMode::Clamp }
    }
}

/// `round(dim · max_dim / longest)` with halves rounded up, at least 1.
pub open spec fn scaled_dim(dim: int, max_dim: int, longest: int) -> int {
    let r = (2 * dim * max_dim + longest) / (2 * longest);
    if r < 1 {
        1
    } else {
        r
    }
}

/// The working dimensions of a `width × height` source capped at `max_dim`,
/// or `None` when no downscale is needed (`max_dim == 0`: cap disabled, or
/// the longest side already fits).
pub open spec fn spec_downscaled_dims(width: int, height: int, max_dim: int) -> Option<(int, int)> {
    let longest = if width >= height {
        width
    } else {
        height
    };
    if max_dim == 0 || longest <= max_dim {
        None
    } else {
        Some((scaled_dim(width, max_dim, longest), scaled_dim(height, max_dim, longest)))
    }
}

/// A scaled dimension never exceeds the source dimension.
proof fn lemma_scaled_dim_bounds(dim: int, max_dim: int, longest: int)
    requires
        1 <= dim <= longest,
        0 <= max_dim < longest,
    ensures
        1 <= scaled_dim(dim, max_dim, longest) <= dim,
{
    let n = 2 * dim * max_dim + longest;
    let d = 2 * longest;
    vstd::arithmetic::div_mod::lemma_fundamental_div_mod(n, d);
    vstd::arithmetic::div_mod::lemma_mod_pos_bound(n, d);
    let q = n / d;
    assert(2 * dim * max_dim <= 2 * dim * (longest - 1)) by (nonlinear_arith)
        requires
            max_dim <= longest - 1,
            dim >= 1,
    ;
    assert(2 * dim * (longest - 1) + longest < d * (dim + 1)) by (nonlinear_arith)
        requires
            d == 2 * longest,
            dim >= 1,
            longest >= 1,
    ;
    assert(d * q < d * (dim + 1));
    assert(q <= dim) by (nonlinear_arith)
        requires
            d * q < d * (dim + 1),
            d >= 1,
    ;
}

/// The `(dst_w, dst_h)` [`downscale_luma`] produces for a `width × height`
/// source capped at `max_dim`, or `None` on the no-op case. Pure dimension
/// arithmetic: each side is `round(dim · max_dim / max(w, h))`, at least 1.
pub fn downscaled_dims(width: usize, height: usize, max_dim: u32) -> (r: Option<(usize, usize)>)
    ensures
        match r {
            Some((w, h)) => spec_downscaled_dims(width as int, height as int, max_dim as int) == Some(
                (w as int, h as int),
            ),
            None => spec_downscaled_dims(width as int, height as int, max_dim as int) is None,
        },
{
    let longest = if width >= height {
        width
    } else {
        height
    };
    if max_dim == 0 || longest <= max_dim as usize {
        return None;
    }
    let m = max_dim as u128;
    let l = longest as u128;
    proof {
        assert(2 * width * max_dim + longest <= 4 * (usize::MAX as int) * (u32::MAX as int))
            by (nonlinear_arith)
            requires
                width <= longest <= usize::MAX,
                max_dim <= u32::MAX,
        ;
        assert(2 * height * max_dim + longest <= 4 * (usize::MAX as int) * (u32::MAX as int))
            by (nonlinear_arith)
            requires
                height <= longest <= usize::MAX,
                max_dim <= u32::MAX,
        ;
        assert(usize::MAX <= u64::MAX);
        if width >= 1 {
            lemma_scaled_dim_bounds(width as int, max_dim as int, longest as int);
        }
        if height >= 1 {
            lemma_scaled_dim_bounds(height as int, max_dim as int, longest as int);
        }
    }
    let w = (2 * width as u128 * m + l) / (2 * l);
    let h = (2 * height as u128 * m + l) / (2 * l);
    proof {
        let li = l as int;
        if width == 0 {
            assert(2 * (width as u128) * m == 0) by (nonlinear_arith)
                requires
                    width == 0,
            ;
            assert(w == li / (2 * li));
            assert(w == 0) by (nonlinear_arith)
                requires
                    w == li / (2 * li),
                    li >= 1,
            ;
        }
        if height == 0 {
            assert(2 * (height as u128) * m == 0) by (nonlinear_arith)
                requires
                    height == 0,
            ;
            assert(h == li / (2 * li));
            assert(h == 0) by (nonlinear_arith)
                requires
                    h == li / (2 * li),
                    li >= 1,
            ;
        }
    }
    let dst_w = if w < 1 {
        1
    } else {
        w as usize
    };
    let dst_h = if h < 1 {
        1
    } else {
        h as usize
    };
    Some((dst_w, dst_h))
}

/// Source pixel read for destination coordinate `x` of `d` over `n`:
/// `min(floor(x · n / d), n − 1)`.
pub open spec fn nearest_index(x: int, n: int, d: int) -> int {
    if x * n / d < n - 1 {
        x * n / d
    } else {
        n - 1
    }
}

/// Output pixel `(x, y)` of the nearest-neighbor downscale of `v` to
/// `dw × dh`.
pub open spec fn nearest_fn(v: Gray8View, dw: int, dh: int) -> spec_fn(int, int) -> u8 {
    |x: int, y: int|
        v.pixel(nearest_index(x, v.w() as int, dw), nearest_index(y, v.h() as int, dh))
}

fn nearest(x: usize, n: usize, d: usize) -> (r: usize)
    requires
        1 <= n,
        1 <= d,
    ensures
        r == nearest_index(x as int, n as int, d as int),
        r < n,
{
    proof {
        assert((x as int) * (n as int) <= (usize::MAX as int) * (usize::MAX as int)) by (nonlinear_arith)
            requires
                x <= usize::MAX,
                n <= usize::MAX,
        ;
        assert(usize::MAX <= u64::MAX);
        assert((usize::MAX as int) * (usize::MAX as int) <= (u64::MAX as int) * (u64::MAX as int))
            by (nonlinear_arith)
            requires
                usize::MAX <= u64::MAX,
        ;
    }
    let q = (x as u128 * n as u128) / d as u128;
    if q < (n - 1) as u128 {
        q as usize
    } else {
        n - 1
    }
}

/// Nearest-neighbor-downscale `src` to at most `max_dim` on its longest
/// side. Returns `None`, rather than an identity copy, when no resize is
/// needed (see [`downscaled_dims`]). Destination pixel `(x, y)` reads source
/// pixel `(min(⌊x·w/dw⌋, w−1), min(⌊y·h/dh⌋, h−1))`.
pub fn downscale_luma(src: &Gray8View, max_dim: u32) -> (r: Option<(Vec<u8>, usize, usize)>)
    requires
        src.wf(),
    ensures
        match r {
            None => spec_downscaled_dims(src.w() as int, src.h() as int, max_dim as int) is None,
            Some((out, dw, dh)) => {
                &&& spec_downscaled_dims(src.w() as int, src.h() as int, max_dim as int) == Some(
                    (dw as int, dh as int),
                )
                &&& out@ == grid_of(dw as int, dh as int, nearest_fn(*src, dw as int, dh as int))
            },
        },
{
    let w = src.width();
    let h = src.height();
    let (dw, dh) = match downscaled_dims(w, h, max_dim) {
        Some(d) => d,
        None => return None,
    };
    proof {
        let longest = if w >= h {
            w as int
        } else {
            h as int
        };
        lemma_scaled_dim_bounds(w as int, max_dim as int, longest);
        lemma_scaled_dim_bounds(h as int, max_dim as int, longest);
        let s = src.s() as int;
        assert(dw * dh <= w * h) by (nonlinear_arith)
            requires
                1 <= dw <= w,
                1 <= dh <= h,
        ;
        assert(w * h <= s * (h - 1) + w) by (nonlinear_arith)
            requires
                1 <= w <= s,
                1 <= h,
        ;
    }
    let ghost f = nearest_fn(*src, dw as int, dh as int);
    let mut out: Vec<u8> = Vec::new();
    let mut y: usize = 0;
    while y < dh
        invariant
            src.wf(),
            w == src.w(),
            h == src.h(),
            1 <= dw,
            1 <= dh,
            dw * dh <= usize::MAX,
            f == nearest_fn(*src, dw as int, dh as int),
            y <= dh,
            out@.len() == y * dw,
            forall|k: int| 0 <= k < out@.len() ==> #[trigger] out@[k] == f(k % dw as int, k / dw as int),
        decreases dh - y,
    {
        let sy = nearest(y, h, dh);
        let mut x: usize = 0;
        while x < dw
            invariant
                src.wf(),
                w == src.w(),
                h == src.h(),
                1 <= dw,
                1 <= dh,
                dw * dh <= usize::MAX,
                f == nearest_fn(*src, dw as int, dh as int),
                y < dh,
                sy == nearest_index(y as int, h as int, dh as int),
                sy < h,
                x <= dw,
                out@.len() == y * dw + x,
                forall|k: int|
                    0 <= k < out@.len() ==> #[trigger] out@[k] == f(k % dw as int, k / dw as int),
            decreases dw - x,
        {
            let sx = nearest(x, w, dw);
            let value = src.get(sx, sy);
            proof {
                lemma_grid_push(out@, dw as int, dh as int, f, x as int, y as int);
            }
            assert(value == f(x as int, y as int));
            out.push(value);
            x += 1;
        }
        proof {
            assert((y + 1) * dw == y * dw + dw) by (nonlinear_arith);
        }
        y += 1;
    }
    proof {
        assert(dh * dw == dw * dh) by (nonlinear_arith);
        assert(out@ =~= grid_of(dw as int, dh as int, f));
    }
    Some((out, dw, dh))
}

} // verus!
