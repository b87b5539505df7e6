//! One-dimensional restoration along a raster direction.
//!
//! Camera-shake blur smears along a line. Once the blur angle has been
//! snapped to one of the four raster steps (east, south-east, south,
//! south-west), restoration runs with integer taps only: a directional
//! unsharp mask and a directional Van Cittert deconvolution.
use crate::image::{lemma_grid_slot, Gray8View};
use crate::kernels::{clamp_index, grid_of, lemma_grid_push};
use crate::morph::{odd, odd_up};
use vstd::prelude::*;

verus! {

/// `(dx, dy)` is one of the four raster steps a blur angle snaps to:
/// east `(1, 0)`, south-east `(1, 1)`, south `(0, 1)`, south-west `(-1, 1)`.
pub open spec fn is_raster_step(dx: int, dy: int) -> bool {
    ||| dx == 1 && dy == 0
    ||| dx == 1 && dy == 1
    ||| dx == 0 && dy == 1
    ||| dx == -1 && dy == 1
}

/// Window length used for a requested `len`: at least 3 and odd.
pub open spec fn window_len(len: int) -> int {
    odd_up(
        if len < 3 {
            3
        } else {
            len
        },
    )
}

fn window(len: usize) -> (r: usize)
    ensures
        r == window_len(len as int),
        r >= 3,
        r % 2 == 1,
{
    let m = if len < 3 {
        3
    } else {
        len
    };
    odd(m)
}

// ---------------------------------------------------------------------------
// Directional unsharp mask
// ---------------------------------------------------------------------------
/// Sample `k` steps from `(x, y)` along `(dx, dy)`, each coordinate clamped
/// to the image.
pub open spec fn clamped_tap(v: Gray8View, dx: int, dy: int, x: int, y: int, k: int) -> int {
    v.pixel(clamp_index(x + k * dx, v.w() as int), clamp_index(y + k * dy, v.h() as int)) as int
}

/// Sum of the clamped taps `k` for `lo <= k < lo + n`.
pub open spec fn clamped_sum(v: Gray8View, dx: int, dy: int, x: int, y: int, lo: int, n: nat) -> int
    decreases n,
{
    if n == 0 {
        0
    } else {
        clamped_sum(v, dx, dy, x, y, lo, (n - 1) as nat) + clamped_tap(v, dx, dy, x, y, lo + n - 1)
    }
}

/// `d / 2` rounded toward zero.
pub open spec fn half_toward_zero(d: int) -> int {
    if d >= 0 {
        d / 2
    } else {
        -((-d) / 2)
    }
}

/// `t` saturated to a byte.
pub open spec fn saturate(t: int) -> u8 {
    if t < 0 {
        0
    } else if t > 255 {
        255
    } else {
        t as u8
    }
}

/// Output pixel `(x, y)` of the directional unsharp mask: with `L` the
/// window length and `mean` the floor of the mean of the `L` clamped taps
/// centred on `(x, y)`, `I + (3·(I − mean)) / 2` (division toward zero),
/// saturated to a byte.
pub open spec fn directional_unsharp_value(
    v: Gray8View,
    dx: int,
    dy: int,
    len: int,
    x: int,
    y: int,
) -> u8 {
    let l = window_len(len);
    let mean = clamped_sum(v, dx, dy, x, y, -(l / 2), l as nat) / l;
    let i = v.pixel(x, y) as int;
    saturate(i + half_toward_zero(3 * (i - mean)))
}

/// The directional unsharp mask of `v`.
pub open spec fn directional_unsharp_fn(v: Gray8View, dx: int, dy: int, len: int) -> spec_fn(
    int,
    int,
) -> u8 {
    |x: int, y: int| directional_unsharp_value(v, dx, dy, len, x, y)
}

/// `clamp_index(x + (k − half)·d, n)` on machine integers.
fn clamped_coord(x: usize, n: usize, d: isize, k: usize, half: usize) -> (r: usize)
    requires
        x < n,
        -1 <= d <= 1,
    ensures
        r == clamp_index(x + (k - half) * d, n as int),
        r < n,
{
    if d == 0 {
        return x;
    }
    let ahead = (d == 1) == (k >= half);
    let mag = if k >= half {
        k - half
    } else {
        half - k
    };
    proof {
        assert((k - half) * d == if ahead {
            mag as int
        } else {
            -(mag as int)
        }) by (nonlinear_arith)
            requires
                d == 1 || d == -1,
                ahead == ((d == 1) == (k >= half)),
                mag == if k >= half {
                    k - half
                } else {
                    half - k
                },
        ;
    }
    if ahead {
        if mag < n - x {
            x + mag
        } else {
            n - 1
        }
    } else {
        if mag <= x {
            x - mag
        } else {
            0
        }
    }
}

/// Directional unsharp mask along the raster step `(dx, dy)`: each output
/// pixel is `clamp(I + (3·(I − mean)) / 2)` where `mean` is the floor of the
/// mean of the window of `window_len(len)` samples centred on it along the
/// step, each coordinate clamped to the image. Output has the source's
/// dimensions, tightly packed.
pub fn directional_unsharp_along(src: &Gray8View, dir: (isize, isize), len: usize) -> (r: (
    Vec<u8>,
    usize,
    usize,
))
    requires
        src.wf(),
        is_raster_step(dir.0 as int, dir.1 as int),
        window_len(len as int) * 255 <= u32::MAX,
    ensures
        r.1 == src.w(),
        r.2 == src.h(),
        r.0@ == grid_of(
            r.1 as int,
            r.2 as int,
            directional_unsharp_fn(*src, dir.0 as int, dir.1 as int, len as int),
        ),
{
    let w = src.width();
    let h = src.height();
    let (dx, dy) = dir;
    let l = window(len);
    let half = l / 2;
    proof {
        let s = src.s() as int;
        assert(w * h <= s * (h - 1) + w) by (nonlinear_arith)
            requires
                1 <= w <= s,
                1 <= h,
        ;
    }
    let ghost v = *src;
    let ghost f = directional_unsharp_fn(v, dx as int, dy as int, len as int);
    let mut out: Vec<u8> = Vec::new();
    let mut y: usize = 0;
    while y < h
        invariant
            v == *src,
            src.wf(),
            w == v.w(),
            h == v.h(),
            w * h <= usize::MAX,
            is_raster_step(dx as int, dy as int),
            l == window_len(len as int),
            l * 255 <= u32::MAX,
            half == l / 2,
            f == directional_unsharp_fn(v, dx as int, dy as int, len as int),
            y <= h,
            out@.len() == y * w,
            forall|k: int| 0 <= k < out@.len() ==> #[trigger] out@[k] == f(k % w as int, k / w as int),
        decreases h - y,
    {
        let mut x: usize = 0;
        while x < w
            invariant
                v == *src,
                src.wf(),
                w == v.w(),
                h == v.h(),
                w * h <= usize::MAX,
                is_raster_step(dx as int, dy as int),
                l == window_len(len as int),
                l * 255 <= u32::MAX,
                half == l / 2,
                f == directional_unsharp_fn(v, dx as int, dy as int, len as int),
                y < h,
                x <= w,
                out@.len() == y * w + x,
                forall|k: int|
                    0 <= k < out@.len() ==> #[trigger] out@[k] == f(k % w as int, k / w as int),
            decreases w - x,
        {
            let mut sum: u32 = 0;
            let mut k: usize = 0;
            while k < l
                invariant
                    v == *src,
                    src.wf(),
                    w == v.w(),
                    h == v.h(),
                    is_raster_step(dx as int, dy as int),
                    l * 255 <= u32::MAX,
                    half == l / 2,
                    x < w,
                    y < h,
                    k <= l,
                    sum == clamped_sum(v, dx as int, dy as int, x as int, y as int, -half, k as nat),
                    sum <= k * 255,
                decreases l - k,
            {
                let sx = clamped_coord(x, w, dx, k, half);
                let sy = clamped_coord(y, h, dy, k, half);
                let p = src.get(sx, sy);
                proof {
                    assert(-half + (k + 1) - 1 == k - half);
                }
                sum = sum + p as u32;
                k += 1;
            }
            proof {
                assert(sum as int / l as int <= 255) by (nonlinear_arith)
                    requires
                        sum <= l * 255,
                        l >= 1,
                ;
            }
            let mean = (sum / l as u32) as i32;
            let i = src.get(x, y) as i32;
            let d = 3 * (i - mean);
            let half_d: i32 = if d >= 0 {
                d / 2
            } else {
                -((-d) / 2)
            };
            let sharp = i + half_d;
            let value: u8 = if sharp < 0 {
                0
            } else if sharp > 255 {
                255
            } else {
                sharp as u8
            };
            proof {
                lemma_grid_push(out@, w as int, h as int, f, x as int, y as int);
            }
            assert(value == f(x as int, y as int));
            out.push(value);
            x += 1;
        }
        proof {
            assert((y + 1) * w == y * w + w) by (nonlinear_arith);
        }
        y += 1;
    }
    proof {
        assert(h * w == w * h) by (nonlinear_arith);
        assert(out@ =~= grid_of(w as int, h as int, f));
    }
    (out, w, h)
}

// ---------------------------------------------------------------------------
// Box mean along raster lines
// ---------------------------------------------------------------------------
/// The lesser of `a` and `b`.
pub open spec fn lesser(a: int, b: int) -> int {
    if a <= b {
        a
    } else {
        b
    }
}

/// `p` moved `m` steps along the axis step `d ∈ {−1, 0, 1}`.
pub open spec fn advance(p: int, d: int, m: int) -> int {
    if d == 1 {
        p + m
    } else if d == -1 {
        p - m
    } else {
        p
    }
}

/// Steps that can be taken from `(x, y)` along `(dx, dy)` without leaving a
/// `w × h` image.
pub open spec fn steps_ahead(w: int, h: int, dx: int, dy: int, x: int, y: int) -> int {
    if dy == 0 {
        w - 1 - x
    } else if dx == 0 {
        h - 1 - y
    } else if dx == 1 {
        lesser(w - 1 - x, h - 1 - y)
    } else {
        lesser(x, h - 1 - y)
    }
}

/// Steps that can be taken from `(x, y)` against `(dx, dy)` without leaving
/// a `w × h` image: the position of `(x, y)` on its raster line.
pub open spec fn steps_behind(w: int, h: int, dx: int, dy: int, x: int, y: int) -> int {
    if dy == 0 {
        x
    } else if dx == 0 {
        y
    } else if dx == 1 {
        lesser(x, y)
    } else {
        lesser(w - 1 - x, y)
    }
}

/// Column of the first pixel of the raster line through `(x, y)`.
pub open spec fn origin_x(w: int, h: int, dx: int, dy: int, x: int, y: int) -> int {
    advance(x, dx, -steps_behind(w, h, dx, dy, x, y))
}

/// Row of the first pixel of the raster line through `(x, y)`.
pub open spec fn origin_y(w: int, h: int, dx: int, dy: int, x: int, y: int) -> int {
    advance(y, dy, -steps_behind(w, h, dx, dy, x, y))
}

/// Offset `k` along the raster line through `(x, y)`, clamped to the line's
/// two ends.
pub open spec fn line_offset(w: int, h: int, dx: int, dy: int, x: int, y: int, k: int) -> int {
    if k >= 0 {
        lesser(k, steps_ahead(w, h, dx, dy, x, y))
    } else {
        -lesser(-k, steps_behind(w, h, dx, dy, x, y))
    }
}

/// Sample `k` steps from `(x, y)` on its raster line of the row-major
/// `w × h` plane `s`, the line's end samples repeated past its ends.
pub open spec fn line_tap(s: Seq<i32>, w: int, h: int, dx: int, dy: int, x: int, y: int, k: int) -> int {
    let m = line_offset(w, h, dx, dy, x, y, k);
    s[advance(y, dy, m) * w + advance(x, dx, m)] as int
}

/// Sum of the line taps `k` for `lo <= k < lo + n`.
pub open spec fn line_sum(
    s: Seq<i32>,
    w: int,
    h: int,
    dx: int,
    dy: int,
    x: int,
    y: int,
    lo: int,
    n: nat,
) -> int
    decreases n,
{
    if n == 0 {
        0
    } else {
        line_sum(s, w, h, dx, dy, x, y, lo, (n - 1) as nat) + line_tap(s, w, h, dx, dy, x, y, lo + n - 1)
    }
}

/// Floor of the mean of the `l` line taps centred on `(x, y)`.
pub open spec fn line_mean(s: Seq<i32>, w: int, h: int, dx: int, dy: int, l: int, x: int, y: int) -> int {
    line_sum(s, w, h, dx, dy, x, y, -(l / 2), l as nat) / l
}

/// The `l`-tap box mean of the plane `s` along `(dx, dy)`.
pub open spec fn box_mean_plane(s: Seq<i32>, w: int, h: int, dx: int, dy: int, l: int) -> Seq<i32> {
    Seq::new((w * h) as nat, |p: int| line_mean(s, w, h, dx, dy, l, p % w, p / w) as i32)
}

/// Geometry of a raster line walked from its first pixel `(sx, sy)`: the
/// pixel `i` steps on is in the image, sits `i` steps from the line's start
/// and `steps_ahead(start) − i` steps from its end, and has `(sx, sy)` as
/// its origin.
proof fn lemma_line_point(w: int, h: int, dx: int, dy: int, sx: int, sy: int, i: int)
    requires
        is_raster_step(dx, dy),
        0 <= sx < w,
        0 <= sy < h,
        steps_behind(w, h, dx, dy, sx, sy) == 0,
        0 <= i <= steps_ahead(w, h, dx, dy, sx, sy),
    ensures
        ({
            let x = advance(sx, dx, i);
            let y = advance(sy, dy, i);
            &&& 0 <= x < w
            &&& 0 <= y < h
            &&& steps_behind(w, h, dx, dy, x, y) == i
            &&& steps_ahead(w, h, dx, dy, x, y) == steps_ahead(w, h, dx, dy, sx, sy) - i
            &&& origin_x(w, h, dx, dy, x, y) == sx
            &&& origin_y(w, h, dx, dy, x, y) == sy
        }),
{
}

/// Every pixel lies on the raster line of its origin, `steps_behind` steps
/// from it, and the origin is a line start on the image's border.
proof fn lemma_origin(w: int, h: int, dx: int, dy: int, x: int, y: int)
    requires
        is_raster_step(dx, dy),
        0 <= x < w,
        0 <= y < h,
    ensures
        ({
            let ox = origin_x(w, h, dx, dy, x, y);
            let oy = origin_y(w, h, dx, dy, x, y);
            let b = steps_behind(w, h, dx, dy, x, y);
            &&& 0 <= ox < w
            &&& 0 <= oy < h
            &&& steps_behind(w, h, dx, dy, ox, oy) == 0
            &&& 0 <= b <= steps_ahead(w, h, dx, dy, ox, oy)
            &&& advance(ox, dx, b) == x
            &&& advance(oy, dy, b) == y
            &&& (dy == 0 ==> ox == 0)
            &&& (dx == 0 ==> oy == 0)
            &&& (dx == 1 && dy == 1 ==> ox == 0 || oy == 0)
            &&& (dx == -1 ==> ox == w - 1 || oy == 0)
        }),
{
}

/// A clamped line offset stays on the line, inside the image.
proof fn lemma_line_offset(w: int, h: int, dx: int, dy: int, x: int, y: int, k: int)
    requires
        is_raster_step(dx, dy),
        0 <= x < w,
        0 <= y < h,
    ensures
        ({
            let m = line_offset(w, h, dx, dy, x, y, k);
            &&& -steps_behind(w, h, dx, dy, x, y) <= m <= steps_ahead(w, h, dx, dy, x, y)
            &&& 0 <= advance(x, dx, m) < w
            &&& 0 <= advance(y, dy, m) < h
        }),
{
}

/// Magnitude bound on the planes the box mean runs on.
pub open spec fn plane_bound() -> int {
    0x10_0000
}

/// Entry `j` of the line buffer `idx`, clamped to the buffer, read from `s`.
pub open spec fn idx_tap(s: Seq<i32>, idx: Seq<usize>, j: int) -> int {
    s[idx[clamp_index(j, idx.len() as int)] as int] as int
}

/// Sum of the buffer taps `j` for `lo <= j < lo + n`.
pub open spec fn idx_sum(s: Seq<i32>, idx: Seq<usize>, lo: int, n: nat) -> int
    decreases n,
{
    if n == 0 {
        0
    } else {
        idx_sum(s, idx, lo, (n - 1) as nat) + idx_tap(s, idx, lo + n - 1)
    }
}

/// Sliding the window one tap forward drops its first tap and adds the one
/// past its end.
proof fn lemma_idx_slide(s: Seq<i32>, idx: Seq<usize>, lo: int, n: nat)
    ensures
        idx_sum(s, idx, lo + 1, n) == idx_sum(s, idx, lo, n) - idx_tap(s, idx, lo) + idx_tap(
            s,
            idx,
            lo + n,
        ),
    decreases n,
{
    if n > 0 {
        lemma_idx_slide(s, idx, lo, (n - 1) as nat);
    }
}

/// A window of `n` taps of magnitude at most `b` sums to at most `n·b` in
/// magnitude.
proof fn lemma_idx_sum_bound(s: Seq<i32>, idx: Seq<usize>, lo: int, n: nat, b: int)
    requires
        idx.len() >= 1,
        forall|j: int| 0 <= j < idx.len() ==> (#[trigger] idx[j]) < s.len(),
        forall|p: int| 0 <= p < s.len() ==> -b <= #[trigger] s[p] <= b,
    ensures
        -(n * b) <= idx_sum(s, idx, lo, n) <= n * b,
    decreases n,
{
    if n > 0 {
        lemma_idx_sum_bound(s, idx, lo, (n - 1) as nat, b);
        let j = clamp_index(lo + n - 1, idx.len() as int);
        assert(idx[j] < s.len());
        assert((n - 1) * b + b == n * b) by (nonlinear_arith);
    }
}

/// `clamp_index(k − half, n)` on machine integers.
fn clamp_back(k: usize, half: usize, n: usize) -> (r: usize)
    requires
        n >= 1,
    ensures
        r == clamp_index(k - half, n as int),
        r < n,
{
    if k < half {
        0
    } else if k - half < n {
        k - half
    } else {
        n - 1
    }
}

/// `clamp_index(i + d, n)` on machine integers.
fn clamp_ahead(i: usize, d: usize, n: usize) -> (r: usize)
    requires
        i < n,
    ensures
        r == clamp_index(i + d, n as int),
        r < n,
{
    if d < n - i {
        i + d
    } else {
        n - 1
    }
}

/// Running box mean along one line buffer: entry `idx[j]` of `dst` becomes
/// the floor of the mean of the `l` buffer taps centred on `j` (ends
/// repeated); entries of `dst` outside the buffer are untouched.
fn run_line(idx: &Vec<usize>, src: &Vec<i32>, dst: &mut Vec<i32>, l: usize)
    requires
        idx@.len() >= 1,
        l >= 3,
        l % 2 == 1,
        l <= u32::MAX,
        old(dst)@.len() == src@.len(),
        forall|j: int| 0 <= j < idx@.len() ==> (#[trigger] idx@[j]) < src@.len(),
        forall|j: int, k: int| 0 <= j < k < idx@.len() ==> idx@[j] < idx@[k],
        forall|p: int| 0 <= p < src@.len() ==> -plane_bound() <= #[trigger] src@[p] <= plane_bound(),
    ensures
        final(dst)@.len() == old(dst)@.len(),
        forall|j: int|
            0 <= j < idx@.len() ==> #[trigger] final(dst)@[idx@[j] as int] as int == idx_sum(
                src@,
                idx@,
                j - l / 2,
                l as nat,
            ) / l as int,
        forall|p: int|
            0 <= p < old(dst)@.len() && !idx@.contains(p as usize) ==> #[trigger] final(dst)@[p]
                == old(dst)@[p],
{
    let n = idx.len();
    let half = l / 2;
    let ghost s = src@;
    let ghost ix = idx@;
    let ghost b = plane_bound();
    let mut sum: i64 = 0;
    let mut k: usize = 0;
    while k < l
        invariant
            s == src@,
            ix == idx@,
            b == plane_bound(),
            n == ix.len(),
            n >= 1,
            half == l / 2,
            l <= u32::MAX,
            forall|j: int| 0 <= j < ix.len() ==> (#[trigger] ix[j]) < s.len(),
            forall|p: int| 0 <= p < s.len() ==> -b <= #[trigger] s[p] <= b,
            k <= l,
            sum == idx_sum(s, ix, -(half as int), k as nat),
        decreases l - k,
    {
        proof {
            lemma_idx_sum_bound(s, ix, -(half as int), k as nat, b);
            assert(k * b <= 0x1_0000_0000 * 0x10_0000) by (nonlinear_arith)
                requires
                    k <= u32::MAX,
                    b == 0x10_0000,
            ;
        }
        let j = clamp_back(k, half, n);
        proof {
            assert(-(half as int) + (k + 1) - 1 == k - half);
        }
        sum = sum + src[idx[j]] as i64;
        k += 1;
    }
    let ghost old_dst = dst@;
    let mut i: usize = 0;
    while i < n
        invariant
            s == src@,
            ix == idx@,
            b == plane_bound(),
            n == ix.len(),
            n >= 1,
            half == l / 2,
            l == 2 * half + 1,
            l <= u32::MAX,
            forall|j: int| 0 <= j < ix.len() ==> (#[trigger] ix[j]) < s.len(),
            forall|j: int, k: int| 0 <= j < k < ix.len() ==> ix[j] < ix[k],
            forall|p: int| 0 <= p < s.len() ==> -b <= #[trigger] s[p] <= b,
            dst@.len() == old_dst.len(),
            old_dst.len() == s.len(),
            i <= n,
            sum == idx_sum(s, ix, i - half, l as nat),
            forall|j: int|
                0 <= j < i ==> #[trigger] dst@[ix[j] as int] as int == idx_sum(
                    s,
                    ix,
                    j - half,
                    l as nat,
                ) / l as int,
            forall|p: int|
                0 <= p < old_dst.len() ==> #[trigger] dst@[p] == old_dst[p] || exists|j: int|
                    0 <= j < i && ix[j] == p,
        decreases n - i,
    {
        proof {
            lemma_idx_sum_bound(s, ix, i - half, l as nat, b);
            assert(l * b <= 0x1_0000_0000 * 0x10_0000) by (nonlinear_arith)
                requires
                    l <= u32::MAX,
                    b == 0x10_0000,
            ;
            assert(-b <= sum as int / l as int <= b) by (nonlinear_arith)
                requires
                    -(l * b) <= sum <= l * b,
                    l >= 1,
                    b >= 0,
            ;
        }
        let q = sum.checked_div_euclid(l as i64).unwrap();
        let ghost before = dst@;
        dst[idx[i]] = q as i32;
        proof {
            assert forall|j: int| 0 <= j < i + 1 implies #[trigger] dst@[ix[j] as int] as int
                == idx_sum(s, ix, j - half, l as nat) / l as int by {
                if j < i {
                    assert(ix[j] < ix[i as int]);
                }
            }
            assert forall|p: int| 0 <= p < old_dst.len() implies #[trigger] dst@[p] == old_dst[p]
                || exists|j: int| 0 <= j < i + 1 && ix[j] == p by {
                if p != ix[i as int] {
                    assert(dst@[p] == before[p]);
                    if before[p] != old_dst[p] {
                        let j = choose|j: int| 0 <= j < i && ix[j] == p;
                        assert(0 <= j < i + 1 && ix[j] == p);
                    }
                } else {
                    assert(0 <= i < i + 1 && ix[i as int] == p);
                }
            }
        }
        let a = clamp_ahead(i, half + 1, n);
        let c = clamp_back(i, half, n);
        proof {
            lemma_idx_slide(s, ix, i - half, l as nat);
            assert(i - half + l == i + (half + 1));
        }
        sum = sum + src[idx[a]] as i64 - src[idx[c]] as i64;
        i += 1;
    }
    proof {
        assert forall|p: int| 0 <= p < old_dst.len() && !ix.contains(p as usize) implies #[trigger] dst@[p]
            == old_dst[p] by {
            if dst@[p] != old_dst[p] {
                let j = choose|j: int| 0 <= j < n && ix[j] == p;
                assert(ix[j] == p as usize);
            }
        }
    }
}

/// `steps_ahead` on machine integers.
fn ahead_steps(w: usize, h: usize, dx: isize, dy: isize, x: usize, y: usize) -> (r: usize)
    requires
        is_raster_step(dx as int, dy as int),
        x < w,
        y < h,
    ensures
        r == steps_ahead(w as int, h as int, dx as int, dy as int, x as int, y as int),
{
    if dy == 0 {
        w - 1 - x
    } else if dx == 0 {
        h - 1 - y
    } else if dx == 1 {
        let a = w - 1 - x;
        let b = h - 1 - y;
        if a <= b {
            a
        } else {
            b
        }
    } else {
        let b = h - 1 - y;
        if x <= b {
            x
        } else {
            b
        }
    }
}

/// Fill `idx` with the row-major positions of the raster line that starts
/// at `(sx, sy)` and runs along `(dx, dy)` to the image's border.
fn walk_line(w: usize, h: usize, dx: isize, dy: isize, sx: usize, sy: usize, idx: &mut Vec<usize>)
    requires
        is_raster_step(dx as int, dy as int),
        sx < w,
        sy < h,
        w * h <= usize::MAX,
    ensures
        final(idx)@.len() == steps_ahead(w as int, h as int, dx as int, dy as int, sx as int, sy as int)
            + 1,
        forall|j: int|
            0 <= j < final(idx)@.len() ==> #[trigger] final(idx)@[j] == advance(sy as int, dy as int, j)
                * w + advance(sx as int, dx as int, j),
        forall|j: int| 0 <= j < final(idx)@.len() ==> #[trigger] final(idx)@[j] < w * h,
        forall|j: int, k: int| 0 <= j < k < final(idx)@.len() ==> final(idx)@[j] < final(idx)@[k],
{
    idx.clear();
    let n = ahead_steps(w, h, dx, dy, sx, sy) + 1;
    let ghost a = n - 1;
    let mut j: usize = 0;
    let mut x = sx;
    let mut y = sy;
    while j < n
        invariant
            is_raster_step(dx as int, dy as int),
            sx < w,
            sy < h,
            w * h <= usize::MAX,
            a == steps_ahead(w as int, h as int, dx as int, dy as int, sx as int, sy as int),
            n == a + 1,
            j <= n,
            j < n ==> x == advance(sx as int, dx as int, j as int),
            j < n ==> y == advance(sy as int, dy as int, j as int),
            j < n ==> x < w && y < h,
            idx@.len() == j,
            forall|i: int|
                0 <= i < idx@.len() ==> #[trigger] idx@[i] == advance(sy as int, dy as int, i) * w
                    + advance(sx as int, dx as int, i),
            forall|i: int| 0 <= i < idx@.len() ==> #[trigger] idx@[i] < w * h,
            forall|i: int, k: int| 0 <= i < k < idx@.len() ==> idx@[i] < idx@[k],
        decreases n - j,
    {
        proof {
            lemma_grid_slot(x as int, y as int, w as int, h as int);
            assert(h * w == w * h) by (nonlinear_arith);
            if j > 0 {
                let px = advance(sx as int, dx as int, j - 1);
                let py = advance(sy as int, dy as int, j - 1);
                lemma_line_offset(w as int, h as int, dx as int, dy as int, sx as int, sy as int, j - 1);
                assert(idx@[j - 1] == py * w + px);
                assert((py + 1) * w == py * w + w) by (nonlinear_arith);
            }
        }
        let p = y * w + x;
        idx.push(p);
        j += 1;
        if j < n {
            proof {
                lemma_line_offset(w as int, h as int, dx as int, dy as int, sx as int, sy as int, j as int);
            }
            if dx == 1 {
                x = x + 1;
            } else if dx == -1 {
                x = x - 1;
            }
            if dy == 1 {
                y = y + 1;
            }
        }
    }
}

/// Row-major index `p` of a `w × h` plane splits into column `p % w` and
/// row `p / w`.
proof fn lemma_split_index(p: int, w: int, h: int)
    requires
        0 <= p < w * h,
        w >= 1,
    ensures
        0 <= p % w < w,
        0 <= p / w < h,
        (p / w) * w + p % w == p,
{
    vstd::arithmetic::div_mod::lemma_fundamental_div_mod(p, w);
    vstd::arithmetic::div_mod::lemma_mod_pos_bound(p, w);
    assert(w * (p / w) == (p / w) * w) by (nonlinear_arith);
    assert(0 <= p / w < h) by (nonlinear_arith)
        requires
            0 <= p < w * h,
            p == (p / w) * w + p % w,
            0 <= p % w < w,
            w >= 1,
    ;
}

/// On the raster line walked from `(sx, sy)` into `idx`, buffer tap `i + k`
/// is line tap `k` of the line's `i`-th pixel, and so are their window sums.
proof fn lemma_buffer_sum(
    s: Seq<i32>,
    idx: Seq<usize>,
    w: int,
    h: int,
    dx: int,
    dy: int,
    sx: int,
    sy: int,
    i: int,
    lo: int,
    c: nat,
)
    requires
        is_raster_step(dx, dy),
        0 <= sx < w,
        0 <= sy < h,
        steps_behind(w, h, dx, dy, sx, sy) == 0,
        idx.len() == steps_ahead(w, h, dx, dy, sx, sy) + 1,
        forall|j: int|
            0 <= j < idx.len() ==> #[trigger] idx[j] == advance(sy, dy, j) * w + advance(sx, dx, j),
        0 <= i < idx.len(),
    ensures
        idx_sum(s, idx, i + lo, c) == line_sum(
            s,
            w,
            h,
            dx,
            dy,
            advance(sx, dx, i),
            advance(sy, dy, i),
            lo,
            c,
        ),
    decreases c,
{
    if c > 0 {
        lemma_buffer_sum(s, idx, w, h, dx, dy, sx, sy, i, lo, (c - 1) as nat);
        let k = lo + c - 1;
        lemma_line_point(w, h, dx, dy, sx, sy, i);
        let x = advance(sx, dx, i);
        let y = advance(sy, dy, i);
        let m = line_offset(w, h, dx, dy, x, y, k);
        assert(clamp_index(i + k, idx.len() as int) == i + m);
        assert(idx[i + m] == advance(sy, dy, i + m) * w + advance(sx, dx, i + m));
        assert(advance(y, dy, m) == advance(sy, dy, i + m));
        assert(advance(x, dx, m) == advance(sx, dx, i + m));
        assert(i + lo + c - 1 == i + k);
    }
}

/// Box mean along the raster line starting at `(sx, sy)`: every pixel whose
/// line starts there gets its line mean; every other pixel is untouched.
fn box_mean_line(
    src: &Vec<i32>,
    w: usize,
    h: usize,
    dx: isize,
    dy: isize,
    sx: usize,
    sy: usize,
    l: usize,
    idx: &mut Vec<usize>,
    dst: &mut Vec<i32>,
)
    requires
        is_raster_step(dx as int, dy as int),
        w >= 1,
        h >= 1,
        w * h <= usize::MAX,
        src@.len() == w * h,
        old(dst)@.len() == w * h,
        sx < w,
        sy < h,
        steps_behind(w as int, h as int, dx as int, dy as int, sx as int, sy as int) == 0,
        l >= 3,
        l % 2 == 1,
        l <= u32::MAX,
        forall|p: int| 0 <= p < src@.len() ==> -plane_bound() <= #[trigger] src@[p] <= plane_bound(),
    ensures
        final(dst)@.len() == w * h,
        forall|p: int|
            0 <= p < w * h ==> #[trigger] final(dst)@[p] == if origin_x(
                w as int,
                h as int,
                dx as int,
                dy as int,
                p % w as int,
                p / w as int,
            ) == sx && origin_y(w as int, h as int, dx as int, dy as int, p % w as int, p / w as int)
                == sy {
                line_mean(src@, w as int, h as int, dx as int, dy as int, l as int, p % w as int, p / w as int) as i32
            } else {
                old(dst)@[p]
            },
{
    let ghost before = dst@;
    walk_line(w, h, dx, dy, sx, sy, idx);
    run_line(idx, src, dst, l);
    proof {
        let (wi, hi, dxi, dyi) = (w as int, h as int, dx as int, dy as int);
        let half = l / 2;
        assert forall|p: int| 0 <= p < w * h implies #[trigger] dst@[p] == if origin_x(
            wi,
            hi,
            dxi,
            dyi,
            p % wi,
            p / wi,
        ) == sx && origin_y(wi, hi, dxi, dyi, p % wi, p / wi) == sy {
            line_mean(src@, wi, hi, dxi, dyi, l as int, p % wi, p / wi) as i32
        } else {
            before[p]
        } by {
            lemma_split_index(p, wi, hi);
            let x = p % wi;
            let y = p / wi;
            lemma_origin(wi, hi, dxi, dyi, x, y);
            if origin_x(wi, hi, dxi, dyi, x, y) == sx && origin_y(wi, hi, dxi, dyi, x, y) == sy {
                let b = steps_behind(wi, hi, dxi, dyi, x, y);
                assert(idx@[b] == advance(sy as int, dyi, b) * w + advance(sx as int, dxi, b));
                assert(idx@[b] == p);
                lemma_buffer_sum(src@, idx@, wi, hi, dxi, dyi, sx as int, sy as int, b, -(half as int), l as nat);
                assert(b + -(half as int) == b - l / 2);
                assert(dst@[idx@[b] as int] as int == line_mean(src@, wi, hi, dxi, dyi, l as int, x, y));
            } else {
                if idx@.contains(p as usize) {
                    let j = choose|j: int| 0 <= j < idx@.len() && idx@[j] == p as usize;
                    let ax = advance(sx as int, dxi, j);
                    let ay = advance(sy as int, dyi, j);
                    assert(idx@[j] == ay * w + ax);
                    lemma_line_point(wi, hi, dxi, dyi, sx as int, sy as int, j);
                    lemma_grid_slot(ax, ay, wi, hi);
                    assert(false);
                }
            }
        }
    }
}

/// Column of the origin of pixel `p`'s raster line.
pub open spec fn pixel_origin_x(w: int, h: int, dx: int, dy: int, p: int) -> int {
    origin_x(w, h, dx, dy, p % w, p / w)
}

/// Row of the origin of pixel `p`'s raster line.
pub open spec fn pixel_origin_y(w: int, h: int, dx: int, dy: int, p: int) -> int {
    origin_y(w, h, dx, dy, p % w, p / w)
}

/// Entry `p` of the box mean plane.
pub open spec fn mean_at(s: Seq<i32>, w: int, h: int, dx: int, dy: int, l: int, p: int) -> i32 {
    line_mean(s, w, h, dx, dy, l, p % w, p / w) as i32
}

/// `l`-tap box mean of the row-major `w × h` plane `src` along the raster
/// step `dir`, into `dst`: each pixel gets the floor of the mean of the `l`
/// samples centred on it along its raster line, the line's end samples
/// repeated past its ends. Lines are walked from their first pixel on the
/// image border with a running window sum.
fn directional_box_mean(
    src: &Vec<i32>,
    w: usize,
    h: usize,
    dir: (isize, isize),
    l: usize,
    dst: &mut Vec<i32>,
)
    requires
        is_raster_step(dir.0 as int, dir.1 as int),
        w >= 1,
        h >= 1,
        w * h <= usize::MAX,
        src@.len() == w * h,
        old(dst)@.len() == w * h,
        l >= 3,
        l % 2 == 1,
        l <= u32::MAX,
        forall|p: int| 0 <= p < src@.len() ==> -plane_bound() <= #[trigger] src@[p] <= plane_bound(),
    ensures
        final(dst)@ == box_mean_plane(src@, w as int, h as int, dir.0 as int, dir.1 as int, l as int),
{
    let (dx, dy) = dir;
    let mut idx: Vec<usize> = Vec::new();
    if dy == 0 {
        let mut y0: usize = 0;
        while y0 < h
            invariant
                is_raster_step(dx as int, dy as int),
                w >= 1,
                h >= 1,
                w * h <= usize::MAX,
                src@.len() == w * h,
                dst@.len() == w * h,
                l >= 3,
                l % 2 == 1,
                l <= u32::MAX,
                forall|p: int| 0 <= p < src@.len() ==> -plane_bound() <= #[trigger] src@[p] <= plane_bound(),
                dy == 0,
                0 <= y0 <= h,
                forall|p: int|
                    0 <= p < w * h && (pixel_origin_y(w as int, h as int, dx as int, dy as int, p) < y0) ==> #[trigger] dst@[p] == mean_at(src@, w as int, h as int, dx as int, dy as int, l as int, p),
            decreases h - y0,
        {
            box_mean_line(src, w, h, dx, dy, 0, y0, l, &mut idx, dst);
            y0 += 1;
        }
    } else if dx == 0 {
        let mut x0: usize = 0;
        while x0 < w
            invariant
                is_raster_step(dx as int, dy as int),
                w >= 1,
                h >= 1,
                w * h <= usize::MAX,
                src@.len() == w * h,
                dst@.len() == w * h,
                l >= 3,
                l % 2 == 1,
                l <= u32::MAX,
                forall|p: int| 0 <= p < src@.len() ==> -plane_bound() <= #[trigger] src@[p] <= plane_bound(),
                dx == 0 && dy == 1,
                0 <= x0 <= w,
                forall|p: int|
                    0 <= p < w * h && (pixel_origin_x(w as int, h as int, dx as int, dy as int, p) < x0) ==> #[trigger] dst@[p] == mean_at(src@, w as int, h as int, dx as int, dy as int, l as int, p),
            decreases w - x0,
        {
            box_mean_line(src, w, h, dx, dy, x0, 0, l, &mut idx, dst);
            x0 += 1;
        }
    } else if dx == 1 {
        let mut x0: usize = 0;
        while x0 < w
            invariant
                is_raster_step(dx as int, dy as int),
                w >= 1,
                h >= 1,
                w * h <= usize::MAX,
                src@.len() == w * h,
                dst@.len() == w * h,
                l >= 3,
                l % 2 == 1,
                l <= u32::MAX,
                forall|p: int| 0 <= p < src@.len() ==> -plane_bound() <= #[trigger] src@[p] <= plane_bound(),
                dx == 1 && dy == 1,
                0 <= x0 <= w,
                forall|p: int|
                    0 <= p < w * h && (pixel_origin_y(w as int, h as int, dx as int, dy as int, p) == 0 && pixel_origin_x(w as int, h as int, dx as int, dy as int, p) < x0) ==> #[trigger] dst@[p] == mean_at(src@, w as int, h as int, dx as int, dy as int, l as int, p),
            decreases w - x0,
        {
            box_mean_line(src, w, h, dx, dy, x0, 0, l, &mut idx, dst);
            x0 += 1;
        }
        proof {
            assert forall|p: int| 0 <= p < w * h && (pixel_origin_y(w as int, h as int, dx as int, dy as int, p) == 0 || (pixel_origin_x(w as int, h as int, dx as int, dy as int, p) == 0 && pixel_origin_y(w as int, h as int, dx as int, dy as int, p) < 1)) implies #[trigger] dst@[p] == mean_at(src@, w as int, h as int, dx as int, dy as int, l as int, p) by {
                lemma_split_index(p, w as int, h as int);
                lemma_origin(w as int, h as int, dx as int, dy as int, p % w as int, p / w as int);
            }
        }
        let mut y0: usize = 1;
        while y0 < h
            invariant
                is_raster_step(dx as int, dy as int),
                w >= 1,
                h >= 1,
                w * h <= usize::MAX,
                src@.len() == w * h,
                dst@.len() == w * h,
                l >= 3,
                l % 2 == 1,
                l <= u32::MAX,
                forall|p: int| 0 <= p < src@.len() ==> -plane_bound() <= #[trigger] src@[p] <= plane_bound(),
                dx == 1 && dy == 1,
                1 <= y0 <= h,
                forall|p: int|
                    0 <= p < w * h && (pixel_origin_y(w as int, h as int, dx as int, dy as int, p) == 0 || (pixel_origin_x(w as int, h as int, dx as int, dy as int, p) == 0 && pixel_origin_y(w as int, h as int, dx as int, dy as int, p) < y0)) ==> #[trigger] dst@[p] == mean_at(src@, w as int, h as int, dx as int, dy as int, l as int, p),
            decreases h - y0,
        {
            box_mean_line(src, w, h, dx, dy, 0, y0, l, &mut idx, dst);
            y0 += 1;
        }
    } else {
        let mut x0: usize = 0;
        while x0 < w
            invariant
                is_raster_step(dx as int, dy as int),
                w >= 1,
                h >= 1,
                w * h <= usize::MAX,
                src@.len() == w * h,
                dst@.len() == w * h,
                l >= 3,
                l % 2 == 1,
                l <= u32::MAX,
                forall|p: int| 0 <= p < src@.len() ==> -plane_bound() <= #[trigger] src@[p] <= plane_bound(),
                dx == -1 && dy == 1,
                0 <= x0 <= w,
                forall|p: int|
                    0 <= p < w * h && (pixel_origin_y(w as int, h as int, dx as int, dy as int, p) == 0 && pixel_origin_x(w as int, h as int, dx as int, dy as int, p) < x0) ==> #[trigger] dst@[p] == mean_at(src@, w as int, h as int, dx as int, dy as int, l as int, p),
            decreases w - x0,
        {
            box_mean_line(src, w, h, dx, dy, x0, 0, l, &mut idx, dst);
            x0 += 1;
        }
        proof {
            assert forall|p: int| 0 <= p < w * h && (pixel_origin_y(w as int, h as int, dx as int, dy as int, p) == 0 || (pixel_origin_x(w as int, h as int, dx as int, dy as int, p) == w - 1 && pixel_origin_y(w as int, h as int, dx as int, dy as int, p) < 1)) implies #[trigger] dst@[p] == mean_at(src@, w as int, h as int, dx as int, dy as int, l as int, p) by {
                lemma_split_index(p, w as int, h as int);
                lemma_origin(w as int, h as int, dx as int, dy as int, p % w as int, p / w as int);
            }
        }
        let mut y0: usize = 1;
        while y0 < h
            invariant
                is_raster_step(dx as int, dy as int),
                w >= 1,
                h >= 1,
                w * h <= usize::MAX,
                src@.len() == w * h,
                dst@.len() == w * h,
                l >= 3,
                l % 2 == 1,
                l <= u32::MAX,
                forall|p: int| 0 <= p < src@.len() ==> -plane_bound() <= #[trigger] src@[p] <= plane_bound(),
                dx == -1 && dy == 1,
                1 <= y0 <= h,
                forall|p: int|
                    0 <= p < w * h && (pixel_origin_y(w as int, h as int, dx as int, dy as int, p) == 0 || (pixel_origin_x(w as int, h as int, dx as int, dy as int, p) == w - 1 && pixel_origin_y(w as int, h as int, dx as int, dy as int, p) < y0)) ==> #[trigger] dst@[p] == mean_at(src@, w as int, h as int, dx as int, dy as int, l as int, p),
            decreases h - y0,
        {
            box_mean_line(src, w, h, dx, dy, w - 1, y0, l, &mut idx, dst);
            y0 += 1;
        }
    }
    proof {
        let (wi, hi, dxi, dyi) = (w as int, h as int, dx as int, dy as int);
        assert forall|p: int| 0 <= p < w * h implies #[trigger] dst@[p] == mean_at(
            src@,
            wi,
            hi,
            dxi,
            dyi,
            l as int,
            p,
        ) by {
            lemma_split_index(p, wi, hi);
            lemma_origin(wi, hi, dxi, dyi, p % wi, p / wi);
        }
        assert(dst@ =~= box_mean_plane(src@, wi, hi, dxi, dyi, l as int));
    }
}

// ---------------------------------------------------------------------------
// Directional Van Cittert deconvolution
// ---------------------------------------------------------------------------
/// Van Cittert iteration count.
pub const VAN_CITTERT_ITERATIONS: usize = 3;

/// The view's samples as a row-major `i32` plane.
pub open spec fn source_plane(v: Gray8View) -> Seq<i32> {
    Seq::new(v.w() * v.h(), |p: int| v.pixel(p % v.w() as int, p / v.w() as int) as i32)
}

/// One Van Cittert step with relaxation 1: `cur + (b − box(cur))`.
pub open spec fn van_cittert_step(
    b: Seq<i32>,
    cur: Seq<i32>,
    w: int,
    h: int,
    dx: int,
    dy: int,
    l: int,
) -> Seq<i32> {
    let m = box_mean_plane(cur, w, h, dx, dy, l);
    Seq::new(cur.len(), |p: int| (cur[p] + (b[p] - m[p])) as i32)
}

/// `n` Van Cittert steps from the blurred plane `b`.
pub open spec fn van_cittert_iterate(
    b: Seq<i32>,
    w: int,
    h: int,
    dx: int,
    dy: int,
    l: int,
    n: nat,
) -> Seq<i32>
    decreases n,
{
    if n == 0 {
        b
    } else {
        van_cittert_step(b, van_cittert_iterate(b, w, h, dx, dy, l, (n - 1) as nat), w, h, dx, dy, l)
    }
}

/// The restored image: [`VAN_CITTERT_ITERATIONS`] steps from the source
/// along `(dx, dy)` with the window of `window_len(len)` taps, saturated to
/// bytes.
pub open spec fn van_cittert_plane(v: Gray8View, dx: int, dy: int, len: int) -> Seq<u8> {
    let x = van_cittert_iterate(
        source_plane(v),
        v.w() as int,
        v.h() as int,
        dx,
        dy,
        window_len(len),
        VAN_CITTERT_ITERATIONS as nat,
    );
    Seq::new(v.w() * v.h(), |p: int| saturate(x[p] as int))
}

/// Magnitude bound of the `k`-th iterate: `b` is within `[0, 255]` and each
/// step at most doubles the magnitude and adds 255.
pub open spec fn iterate_bound(k: nat) -> int
    decreases k,
{
    if k == 0 {
        255
    } else {
        2 * iterate_bound((k - 1) as nat) + 255
    }
}

/// Line sums of a plane bounded by `b` are bounded by `n·b`.
proof fn lemma_line_sum_bound(
    s: Seq<i32>,
    w: int,
    h: int,
    dx: int,
    dy: int,
    x: int,
    y: int,
    lo: int,
    n: nat,
    b: int,
)
    requires
        is_raster_step(dx, dy),
        0 <= x < w,
        0 <= y < h,
        s.len() == w * h,
        forall|p: int| 0 <= p < s.len() ==> -b <= #[trigger] s[p] <= b,
    ensures
        -(n * b) <= line_sum(s, w, h, dx, dy, x, y, lo, n) <= n * b,
    decreases n,
{
    if n > 0 {
        lemma_line_sum_bound(s, w, h, dx, dy, x, y, lo, (n - 1) as nat, b);
        let k = lo + n - 1;
        lemma_line_offset(w, h, dx, dy, x, y, k);
        let m = line_offset(w, h, dx, dy, x, y, k);
        lemma_grid_slot(advance(x, dx, m), advance(y, dy, m), w, h);
        assert(h * w == w * h) by (nonlinear_arith);
        assert((n - 1) * b + b == n * b) by (nonlinear_arith);
    }
}

/// The box mean of a plane bounded by `b` is bounded by `b`.
proof fn lemma_box_mean_bound(s: Seq<i32>, w: int, h: int, dx: int, dy: int, l: int, b: int)
    requires
        is_raster_step(dx, dy),
        w >= 1,
        h >= 1,
        l >= 1,
        0 <= b <= 0x10_0000,
        s.len() == w * h,
        forall|p: int| 0 <= p < s.len() ==> -b <= #[trigger] s[p] <= b,
    ensures
        forall|p: int|
            0 <= p < w * h ==> -b <= #[trigger] box_mean_plane(s, w, h, dx, dy, l)[p] <= b,
        forall|p: int|
            0 <= p < w * h ==> #[trigger] box_mean_plane(s, w, h, dx, dy, l)[p] as int == line_mean(
                s,
                w,
                h,
                dx,
                dy,
                l,
                p % w,
                p / w,
            ),
{
    assert forall|p: int| 0 <= p < w * h implies -b <= #[trigger] box_mean_plane(s, w, h, dx, dy, l)[p]
        <= b && box_mean_plane(s, w, h, dx, dy, l)[p] as int == line_mean(s, w, h, dx, dy, l, p % w, p / w) by {
        lemma_split_index(p, w, h);
        let sum = line_sum(s, w, h, dx, dy, p % w, p / w, -(l / 2), l as nat);
        lemma_line_sum_bound(s, w, h, dx, dy, p % w, p / w, -(l / 2), l as nat, b);
        assert(-b <= sum / l <= b) by (nonlinear_arith)
            requires
                -(l * b) <= sum <= l * b,
                l >= 1,
                b >= 0,
        ;
    }
}

/// Every iterate up to `k` has `w·h` samples bounded by `iterate_bound(k)`.
proof fn lemma_iterate_bound(b: Seq<i32>, w: int, h: int, dx: int, dy: int, l: int, k: nat)
    requires
        is_raster_step(dx, dy),
        w >= 1,
        h >= 1,
        l >= 1,
        k <= VAN_CITTERT_ITERATIONS,
        b.len() == w * h,
        forall|p: int| 0 <= p < b.len() ==> 0 <= #[trigger] b[p] <= 255,
    ensures
        van_cittert_iterate(b, w, h, dx, dy, l, k).len() == w * h,
        forall|p: int|
            0 <= p < w * h ==> -iterate_bound(k) <= #[trigger] van_cittert_iterate(
                b,
                w,
                h,
                dx,
                dy,
                l,
                k,
            )[p] <= iterate_bound(k),
    decreases k,
{
    reveal_with_fuel(iterate_bound, 4);
    if k > 0 {
        let k1 = (k - 1) as nat;
        lemma_iterate_bound(b, w, h, dx, dy, l, k1);
        let cur = van_cittert_iterate(b, w, h, dx, dy, l, k1);
        lemma_box_mean_bound(cur, w, h, dx, dy, l, iterate_bound(k1));
    }
}

/// Directional Van Cittert deconvolution along the raster step `dir` with
/// relaxation 1: starting from the source plane `B`, each of
/// [`VAN_CITTERT_ITERATIONS`] steps replaces `I` by `I + (B − box(I))`,
/// where `box` is the running box mean of `window_len(len)` taps along each
/// raster line (line ends repeated). Intermediate planes may leave
/// `[0, 255]`; only the result is saturated to bytes. Output has the
/// source's dimensions, tightly packed.
pub fn van_cittert_along(src: &Gray8View, dir: (isize, isize), len: usize) -> (r: (
    Vec<u8>,
    usize,
    usize,
))
    requires
        src.wf(),
        is_raster_step(dir.0 as int, dir.1 as int),
        window_len(len as int) <= u32::MAX,
    ensures
        r.1 == src.w(),
        r.2 == src.h(),
        r.0@ == van_cittert_plane(*src, dir.0 as int, dir.1 as int, len as int),
{
    let w = src.width();
    let h = src.height();
    let l = window(len);
    let (dx, dy) = dir;
    proof {
        let s = src.s() as int;
        assert(w * h <= s * (h - 1) + w) by (nonlinear_arith)
            requires
                1 <= w <= s,
                1 <= h,
        ;
    }
    let ghost v = *src;
    let ghost bp = source_plane(v);
    let mut b: Vec<i32> = Vec::new();
    let mut y: usize = 0;
    while y < h
        invariant
            v == *src,
            src.wf(),
            w == v.w(),
            h == v.h(),
            w * h <= usize::MAX,
            bp == source_plane(v),
            y <= h,
            b@.len() == y * w,
            forall|k: int| 0 <= k < b@.len() ==> #[trigger] b@[k] == bp[k],
        decreases h - y,
    {
        let mut x: usize = 0;
        while x < w
            invariant
                v == *src,
                src.wf(),
                w == v.w(),
                h == v.h(),
                w * h <= usize::MAX,
                bp == source_plane(v),
                y < h,
                x <= w,
                b@.len() == y * w + x,
                forall|k: int| 0 <= k < b@.len() ==> #[trigger] b@[k] == bp[k],
            decreases w - x,
        {
            proof {
                lemma_grid_slot(x as int, y as int, w as int, h as int);
                assert(h * w == w * h) by (nonlinear_arith);
            }
            b.push(src.get(x, y) as i32);
            x += 1;
        }
        proof {
            assert((y + 1) * w == y * w + w) by (nonlinear_arith);
        }
        y += 1;
    }
    proof {
        assert(h * w == w * h) by (nonlinear_arith);
        assert(b@ =~= bp);
    }
    let n = w * h;
    let mut cur: Vec<i32> = Vec::new();
    let mut i: usize = 0;
    while i < n
        invariant
            n == b@.len(),
            i <= n,
            cur@ == b@.subrange(0, i as int),
        decreases n - i,
    {
        cur.push(b[i]);
        i += 1;
        proof {
            assert(cur@ =~= b@.subrange(0, i as int));
        }
    }
    proof {
        assert(cur@ =~= b@);
    }
    let mut mean: Vec<i32> = vec![0i32; n];
    let ghost (wi, hi, dxi, dyi, li) = (w as int, h as int, dx as int, dy as int, l as int);
    let mut it: usize = 0;
    while it < VAN_CITTERT_ITERATIONS
        invariant
            is_raster_step(dxi, dyi),
            wi == w,
            hi == h,
            dxi == dx,
            dyi == dy,
            li == l,
            w >= 1,
            h >= 1,
            n == w * h,
            w * h <= usize::MAX,
            l >= 3,
            l % 2 == 1,
            l <= u32::MAX,
            b@ == bp,
            bp == source_plane(v),
            bp.len() == n,
            forall|p: int| 0 <= p < bp.len() ==> 0 <= #[trigger] bp[p] <= 255,
            mean@.len() == n,
            cur@.len() == n,
            it <= VAN_CITTERT_ITERATIONS,
            cur@ == van_cittert_iterate(bp, wi, hi, dxi, dyi, li, it as nat),
        decreases VAN_CITTERT_ITERATIONS - it,
    {
        proof {
            lemma_iterate_bound(bp, wi, hi, dxi, dyi, li, it as nat);
            reveal_with_fuel(iterate_bound, 4);
            assert(iterate_bound(it as nat) <= 3825);
        }
        directional_box_mean(&cur, w, h, (dx, dy), l, &mut mean);
        let ghost before = cur@;
        proof {
            lemma_box_mean_bound(before, wi, hi, dxi, dyi, li, iterate_bound(it as nat));
        }
        let mut j: usize = 0;
        while j < n
            invariant
                n == cur@.len(),
                n == before.len(),
                n == b@.len(),
                n == mean@.len(),
                j <= n,
                mean@ == box_mean_plane(before, wi, hi, dxi, dyi, li),
                forall|p: int| 0 <= p < n ==> -3825 <= #[trigger] before[p] <= 3825,
                forall|p: int| 0 <= p < n ==> -3825 <= #[trigger] mean@[p] <= 3825,
                forall|p: int| 0 <= p < n ==> 0 <= #[trigger] b@[p] <= 255,
                forall|p: int| 0 <= p < j ==> #[trigger] cur@[p] == (before[p] + (b@[p] - mean@[p])) as i32,
                forall|p: int| j <= p < n ==> #[trigger] cur@[p] == before[p],
            decreases n - j,
        {
            let value = cur[j] + (b[j] - mean[j]);
            cur.set(j, value);
            j += 1;
        }
        proof {
            assert(cur@ =~= van_cittert_step(bp, before, wi, hi, dxi, dyi, li));
        }
        it += 1;
    }
    let ghost fin = cur@;
    let mut out: Vec<u8> = Vec::new();
    let mut k: usize = 0;
    while k < n
        invariant
            n == cur@.len(),
            fin == cur@,
            k <= n,
            out@.len() == k,
            forall|p: int| 0 <= p < k ==> #[trigger] out@[p] == saturate(fin[p] as int),
        decreases n - k,
    {
        let t = cur[k];
        let value: u8 = if t < 0 {
            0
        } else if t > 255 {
            255
        } else {
            t as u8
        };
        out.push(value);
        k += 1;
    }
    proof {
        assert(out@ =~= van_cittert_plane(v, dxi, dyi, len as int));
    }
    (out, w, h)
}

// ---------------------------------------------------------------------------
// Laws
// ---------------------------------------------------------------------------
/// Every raster line of `v` along `(dx, dy)` is constant.
pub open spec fn constant_along(v: Gray8View, dx: int, dy: int) -> bool {
    forall|x: int, y: int, m: int|
        0 <= x < v.w() && 0 <= y < v.h() && 0 <= advance(x, dx, m) < v.w() && 0 <= advance(y, dy, m)
            < v.h() ==> #[trigger] v.pixel(advance(x, dx, m), advance(y, dy, m)) == v.pixel(x, y)
}

/// A window of `n` clamped taps along an axis on which the image is
/// constant sums to `n` times the centre sample.
proof fn lemma_clamped_sum_constant(v: Gray8View, dx: int, dy: int, x: int, y: int, lo: int, n: nat)
    requires
        (dx == 1 && dy == 0) || (dx == 0 && dy == 1),
        constant_along(v, dx, dy),
        0 <= x < v.w(),
        0 <= y < v.h(),
    ensures
        clamped_sum(v, dx, dy, x, y, lo, n) == n * (v.pixel(x, y) as int),
    decreases n,
{
    if n > 0 {
        lemma_clamped_sum_constant(v, dx, dy, x, y, lo, (n - 1) as nat);
        let k = lo + n - 1;
        let cx = clamp_index(x + k * dx, v.w() as int);
        let cy = clamp_index(y + k * dy, v.h() as int);
        if dx == 1 {
            assert(k * dx == k);
            assert(k * dy == 0);
            assert(cy == y);
            assert(v.pixel(advance(x, dx, cx - x), advance(y, dy, cx - x)) == v.pixel(x, y));
            assert(clamped_tap(v, dx, dy, x, y, k) == v.pixel(cx, y) as int);
        } else {
            assert(k * dx == 0);
            assert(k * dy == k);
            assert(cx == x);
            assert(v.pixel(advance(x, dx, cy - y), advance(y, dy, cy - y)) == v.pixel(x, y));
            assert(clamped_tap(v, dx, dy, x, y, k) == v.pixel(x, cy) as int);
        }
        let q = v.pixel(x, y) as int;
        assert(clamped_sum(v, dx, dy, x, y, lo, n) == clamped_sum(v, dx, dy, x, y, lo, (n - 1) as nat) + q);
        assert((n - 1) * q + q == n * q) by (nonlinear_arith);
    } else {
        assert(n * (v.pixel(x, y) as int) == 0) by (nonlinear_arith)
            requires
                n == 0,
        ;
    }
}

/// Sharpening along an axis on which the image is constant leaves every
/// pixel unchanged: the window mean equals the pixel itself.
pub proof fn lemma_directional_unsharp_constant_axis(v: Gray8View, dx: int, dy: int, len: int, x: int, y: int)
    requires
        (dx == 1 && dy == 0) || (dx == 0 && dy == 1),
        constant_along(v, dx, dy),
        0 <= x < v.w(),
        0 <= y < v.h(),
    ensures
        directional_unsharp_value(v, dx, dy, len, x, y) == v.pixel(x, y),
{
    let l = window_len(len);
    let p = v.pixel(x, y) as int;
    lemma_clamped_sum_constant(v, dx, dy, x, y, -(l / 2), l as nat);
    assert((l * p) / l == p) by (nonlinear_arith)
        requires
            l >= 1,
    ;
}

/// A window of `n` taps that all fall inside the image, along a raster
/// step on which the image is constant, sums to `n` times the centre sample.
proof fn lemma_clamped_sum_on_line(v: Gray8View, dx: int, dy: int, x: int, y: int, lo: int, n: nat)
    requires
        is_raster_step(dx, dy),
        constant_along(v, dx, dy),
        0 <= x < v.w(),
        0 <= y < v.h(),
        dx != 0 ==> 0 <= x + lo * dx < v.w() && 0 <= x + (lo + n - 1) * dx < v.w(),
        dy != 0 ==> 0 <= y + lo * dy < v.h() && 0 <= y + (lo + n - 1) * dy < v.h(),
    ensures
        clamped_sum(v, dx, dy, x, y, lo, n) == n * (v.pixel(x, y) as int),
    decreases n,
{
    if n > 0 {
        let k = lo + n - 1;
        if n > 1 {
            assert((lo + n - 2) * dx == (lo + n - 1) * dx - dx && lo * dx == advance(0, dx, lo) && (lo + n - 1)
                * dx == advance(0, dx, lo + n - 1)) by (nonlinear_arith)
                requires
                    dx == 1 || dx == 0 || dx == -1,
            ;
            assert((lo + n - 2) * dy == (lo + n - 1) * dy - dy && lo * dy == advance(0, dy, lo) && (lo + n - 1)
                * dy == advance(0, dy, lo + n - 1)) by (nonlinear_arith)
                requires
                    dy == 1 || dy == 0 || dy == -1,
            ;
            lemma_clamped_sum_on_line(v, dx, dy, x, y, lo, (n - 1) as nat);
        } else {
            assert(clamped_sum(v, dx, dy, x, y, lo, 0) == 0);
            assert((n - 1) * (v.pixel(x, y) as int) == 0) by (nonlinear_arith)
                requires
                    n == 1,
            ;
        }
        assert(k * dx == advance(0, dx, k)) by (nonlinear_arith)
            requires
                dx == 1 || dx == 0 || dx == -1,
        ;
        assert(k * dy == advance(0, dy, k)) by (nonlinear_arith)
            requires
                dy == 1 || dy == 0 || dy == -1,
        ;
        let ax = advance(x, dx, k);
        let ay = advance(y, dy, k);
        assert(x + k * dx == ax);
        assert(y + k * dy == ay);
        assert(0 <= ax < v.w() && 0 <= ay < v.h());
        assert(v.pixel(advance(x, dx, k), advance(y, dy, k)) == v.pixel(x, y));
        assert(clamped_tap(v, dx, dy, x, y, k) == v.pixel(x, y) as int);
        let q = v.pixel(x, y) as int;
        assert(clamped_sum(v, dx, dy, x, y, lo, n) == clamped_sum(v, dx, dy, x, y, lo, (n - 1) as nat)
            + clamped_tap(v, dx, dy, x, y, k));
        assert((n - 1) * q + q == n * q) by (nonlinear_arith);
    } else {
        assert(n * (v.pixel(x, y) as int) == 0) by (nonlinear_arith)
            requires
                n == 0,
        ;
    }
}

/// Sharpening along any raster step, diagonals included, on which the image
/// is constant leaves every pixel whose whole window lies inside the image
/// unchanged: the window runs along the line, whose mean is the pixel.
pub proof fn lemma_directional_unsharp_constant_line(v: Gray8View, dx: int, dy: int, len: int, x: int, y: int)
    requires
        is_raster_step(dx, dy),
        constant_along(v, dx, dy),
        0 <= x < v.w(),
        0 <= y < v.h(),
        dx != 0 ==> window_len(len) / 2 <= x && x + window_len(len) / 2 < v.w(),
        dy != 0 ==> window_len(len) / 2 <= y && y + window_len(len) / 2 < v.h(),
    ensures
        directional_unsharp_value(v, dx, dy, len, x, y) == v.pixel(x, y),
{
    let l = window_len(len);
    let p = v.pixel(x, y) as int;
    let half = l / 2;
    assert(l >= 3 && l % 2 == 1);
    assert(-half + l - 1 == half);
    assert(-half * dx == -(half * dx) && half * dx == advance(0, dx, half)) by (nonlinear_arith)
        requires
            dx == 1 || dx == 0 || dx == -1,
    ;
    assert(-half * dy == -(half * dy) && half * dy == advance(0, dy, half)) by (nonlinear_arith)
        requires
            dy == 1 || dy == 0 || dy == -1,
    ;
    lemma_clamped_sum_on_line(v, dx, dy, x, y, -half, l as nat);
    assert((l * p) / l == p) by (nonlinear_arith)
        requires
            l >= 1,
    ;
}

/// A line sum over a plane whose raster lines are constant is `n` times the
/// centre sample.
proof fn lemma_line_sum_constant(v: Gray8View, dx: int, dy: int, x: int, y: int, lo: int, n: nat)
    requires
        v.wf(),
        is_raster_step(dx, dy),
        constant_along(v, dx, dy),
        0 <= x < v.w(),
        0 <= y < v.h(),
    ensures
        line_sum(source_plane(v), v.w() as int, v.h() as int, dx, dy, x, y, lo, n) == n * (v.pixel(
            x,
            y,
        ) as int),
    decreases n,
{
    if n > 0 {
        let (w, h) = (v.w() as int, v.h() as int);
        lemma_line_sum_constant(v, dx, dy, x, y, lo, (n - 1) as nat);
        let k = lo + n - 1;
        lemma_line_offset(w, h, dx, dy, x, y, k);
        let m = line_offset(w, h, dx, dy, x, y, k);
        let ax = advance(x, dx, m);
        let ay = advance(y, dy, m);
        lemma_grid_slot(ax, ay, w, h);
        assert(h * w == w * h) by (nonlinear_arith);
        assert(v.pixel(advance(x, dx, m), advance(y, dy, m)) == v.pixel(x, y));
        assert(source_plane(v)[ay * w + ax] == v.pixel(ax, ay) as i32);
        let q = v.pixel(x, y) as int;
        assert(line_tap(source_plane(v), w, h, dx, dy, x, y, k) == q);
        assert((n - 1) * q + q == n * q) by (nonlinear_arith);
    } else {
        assert(n * (v.pixel(x, y) as int) == 0) by (nonlinear_arith)
            requires
                n == 0,
        ;
    }
}

/// Deconvolving along a raster step on which every line of the image is
/// constant returns the image unchanged: the box mean reproduces each line,
/// so every Van Cittert step is a fixed point.
pub proof fn lemma_van_cittert_constant_lines(v: Gray8View, dx: int, dy: int, len: int)
    requires
        v.wf(),
        is_raster_step(dx, dy),
        constant_along(v, dx, dy),
    ensures
        van_cittert_plane(v, dx, dy, len) == v.packed(),
{
    let (w, h) = (v.w() as int, v.h() as int);
    let l = window_len(len);
    let b = source_plane(v);
    assert forall|p: int| 0 <= p < w * h implies #[trigger] box_mean_plane(b, w, h, dx, dy, l)[p]
        == b[p] by {
        lemma_split_index(p, w, h);
        let (x, y) = (p % w, p / w);
        lemma_line_sum_constant(v, dx, dy, x, y, -(l / 2), l as nat);
        let q = v.pixel(x, y) as int;
        assert((l * q) / l == q) by (nonlinear_arith)
            requires
                l >= 1,
        ;
    }
    assert(van_cittert_step(b, b, w, h, dx, dy, l) =~= b);
    assert(van_cittert_iterate(b, w, h, dx, dy, l, 0) == b);
    assert(van_cittert_iterate(b, w, h, dx, dy, l, 1) == b);
    assert(van_cittert_iterate(b, w, h, dx, dy, l, 2) == b);
    assert(van_cittert_iterate(b, w, h, dx, dy, l, 3) == b);
    assert(van_cittert_plane(v, dx, dy, len) =~= v.packed());
}

// ---------------------------------------------------------------------------
// Raster lines and their monotonic runs (edge-rise measurement)
// ---------------------------------------------------------------------------
/// Number of raster lines along `(dx, dy)` in a `w × h` image: one per row
/// for east, one per column for south, `w + h − 1` for the diagonals.
pub open spec fn raster_line_count(w: int, h: int, dx: int, dy: int) -> int {
    if dy == 0 {
        h
    } else if dx == 0 {
        w
    } else {
        w + h - 1
    }
}

/// Column of the first pixel of raster line `j`: lines start along the top
/// row first (left to right), then down the left column (south-east) or the
/// right column (south-west); east lines start on the left column.
pub open spec fn raster_start_x(w: int, h: int, dx: int, dy: int, j: int) -> int {
    if dy == 0 {
        0
    } else if j < w {
        j
    } else if dx == 1 {
        0
    } else {
        w - 1
    }
}

/// Row of the first pixel of raster line `j`.
pub open spec fn raster_start_y(w: int, h: int, dx: int, dy: int, j: int) -> int {
    if dy == 0 {
        j
    } else if j < w {
        0
    } else {
        j - w + 1
    }
}

/// The samples of raster line `j` of `v` along `(dx, dy)`, from its first
/// pixel to the image border.
pub open spec fn raster_line(v: Gray8View, dx: int, dy: int, j: int) -> Seq<u8> {
    let (w, h) = (v.w() as int, v.h() as int);
    let sx = raster_start_x(w, h, dx, dy, j);
    let sy = raster_start_y(w, h, dx, dy, j);
    Seq::new(
        (steps_ahead(w, h, dx, dy, sx, sy) + 1) as nat,
        |i: int| v.pixel(advance(sx, dx, i), advance(sy, dy, i)),
    )
}

/// Number of raster lines of a `w × h` image along `dir`.
pub fn raster_lines(w: usize, h: usize, dir: (isize, isize)) -> (r: usize)
    requires
        is_raster_step(dir.0 as int, dir.1 as int),
        w >= 1,
        h >= 1,
        w * h <= usize::MAX,
    ensures
        r == raster_line_count(w as int, h as int, dir.0 as int, dir.1 as int),
{
    let (dx, dy) = dir;
    if dy == 0 {
        h
    } else if dx == 0 {
        w
    } else {
        proof {
            assert(w + h - 1 <= w * h) by (nonlinear_arith)
                requires
                    w >= 1,
                    h >= 1,
            ;
        }
        (w - 1) + h
    }
}

/// The samples of raster line `j` of `src` along `dir`, walked from the
/// line's first pixel to the image border.
pub fn raster_line_samples(src: &Gray8View, dir: (isize, isize), j: usize) -> (r: Vec<u8>)
    requires
        src.wf(),
        is_raster_step(dir.0 as int, dir.1 as int),
        j < raster_line_count(src.w() as int, src.h() as int, dir.0 as int, dir.1 as int),
    ensures
        r@ == raster_line(*src, dir.0 as int, dir.1 as int, j as int),
{
    let w = src.width();
    let h = src.height();
    let (dx, dy) = dir;
    let sx: usize = if dy == 0 {
        0
    } else if j < w {
        j
    } else if dx == 1 {
        0
    } else {
        w - 1
    };
    let sy: usize = if dy == 0 {
        j
    } else if j < w {
        0
    } else {
        j - w + 1
    };
    let n = ahead_steps(w, h, dx, dy, sx, sy) + 1;
    let ghost line = raster_line(*src, dx as int, dy as int, j as int);
    let mut out: Vec<u8> = Vec::new();
    let mut i: usize = 0;
    let mut x = sx;
    let mut y = sy;
    while i < n
        invariant
            src.wf(),
            w == src.w(),
            h == src.h(),
            is_raster_step(dx as int, dy as int),
            sx < w,
            sy < h,
            sx == raster_start_x(w as int, h as int, dx as int, dy as int, j as int),
            sy == raster_start_y(w as int, h as int, dx as int, dy as int, j as int),
            n == steps_ahead(w as int, h as int, dx as int, dy as int, sx as int, sy as int) + 1,
            line == raster_line(*src, dx as int, dy as int, j as int),
            i <= n,
            i < n ==> x == advance(sx as int, dx as int, i as int),
            i < n ==> y == advance(sy as int, dy as int, i as int),
            out@ == line.subrange(0, i as int),
        decreases n - i,
    {
        proof {
            lemma_line_offset(w as int, h as int, dx as int, dy as int, sx as int, sy as int, i as int);
        }
        out.push(src.get(x, y));
        i += 1;
        proof {
            assert(out@ =~= line.subrange(0, i as int));
        }
        if i < n {
            proof {
                lemma_line_offset(w as int, h as int, dx as int, dy as int, sx as int, sy as int, i as int);
            }
            if dx == 1 {
                x = x + 1;
            } else if dx == -1 {
                x = x - 1;
            }
            if dy == 1 {
                y = y + 1;
            }
        }
    }
    proof {
        assert(out@ =~= line);
    }
    out
}

/// Direction of the step into sample `i`: `1` rising, `−1` falling, `0` flat.
pub open spec fn step_sign(line: Seq<u8>, i: int) -> int {
    if line[i] > line[i - 1] {
        1
    } else if line[i] < line[i - 1] {
        -1
    } else {
        0
    }
}

/// Direction of the last non-flat step among steps `1 .. i − 1` (`0` when
/// all of them are flat).
pub open spec fn trend_before(line: Seq<u8>, i: int) -> int
    decreases i,
{
    if i <= 1 {
        0
    } else if step_sign(line, i - 1) != 0 {
        step_sign(line, i - 1)
    } else {
        trend_before(line, i - 1)
    }
}

/// Step `i` reverses the direction of the last non-flat step before it.
pub open spec fn is_turn(line: Seq<u8>, i: int) -> bool {
    step_sign(line, i) != 0 && trend_before(line, i) == -step_sign(line, i)
}

/// The turning steps among steps `1 .. i − 1`, ascending.
pub open spec fn turns_before(line: Seq<u8>, i: int) -> Seq<int>
    decreases i,
{
    if i <= 1 {
        seq![]
    } else if is_turn(line, i - 1) {
        turns_before(line, i - 1).push(i - 1)
    } else {
        turns_before(line, i - 1)
    }
}

/// First samples of the runs found before step `i`: `0`, then the sample
/// before each turning step.
pub open spec fn run_starts(line: Seq<u8>, i: int) -> Seq<int> {
    seq![0int] + turns_before(line, i).map_values(|t: int| t - 1)
}

/// The maximal monotonic runs `(first, last)` of `line`: a run ends, and
/// the next one starts, at the sample before each turning step; flat steps
/// extend the current run, so a ramp keeps its flanking plateaus. A line of
/// fewer than three samples, or without a non-flat step, has no runs.
pub open spec fn monotonic_runs_of(line: Seq<u8>) -> Seq<(int, int)> {
    let n = line.len() as int;
    if n < 3 || trend_before(line, n) == 0 {
        seq![]
    } else {
        let s = run_starts(line, n);
        Seq::new(
            s.len(),
            |j: int|
                (
                    s[j],
                    if j + 1 < s.len() {
                        s[j + 1]
                    } else {
                        n - 1
                    },
                ),
        )
    }
}

/// The maximal monotonic runs of `line` as `(first, last)` sample indices
/// (see [`monotonic_runs_of`]).
pub fn monotonic_runs(line: &[u8]) -> (r: Vec<(usize, usize)>)
    ensures
        r@.len() == monotonic_runs_of(line@).len(),
        forall|j: int|
            0 <= j < r@.len() ==> (#[trigger] r@[j]).0 == monotonic_runs_of(line@)[j].0 && r@[j].1
                == monotonic_runs_of(line@)[j].1,
{
    let n = line.len();
    let mut out: Vec<(usize, usize)> = Vec::new();
    if n < 3 {
        return out;
    }
    let ghost l = line@;
    let mut start: usize = 0;
    let mut dir: i32 = 0;
    let mut i: usize = 1;
    while i < n
        invariant
            l == line@,
            n == l.len(),
            n >= 3,
            1 <= i <= n,
            dir == trend_before(l, i as int),
            -1 <= dir <= 1,
            dir == 0 ==> out@.len() == 0,
            start == run_starts(l, i as int).last(),
            start < i,
            out@.len() + 1 == run_starts(l, i as int).len(),
            forall|j: int|
                0 <= j < out@.len() ==> (#[trigger] out@[j]).0 == run_starts(l, i as int)[j] && out@[j].1
                    == run_starts(l, i as int)[j + 1],
        decreases n - i,
    {
        let ghost rs = run_starts(l, i as int);
        let d: i32 = if line[i] > line[i - 1] {
            1
        } else if line[i] < line[i - 1] {
            -1
        } else {
            0
        };
        proof {
            assert(d == step_sign(l, i as int));
            assert(trend_before(l, i + 1) == if d != 0 {
                d as int
            } else {
                dir as int
            });
        }
        if d != 0 {
            if dir != 0 && d != dir {
                proof {
                    assert(is_turn(l, i as int));
                    assert(turns_before(l, i + 1) == turns_before(l, i as int).push(i as int));
                    assert(run_starts(l, i + 1) =~= rs.push(i - 1));
                }
                out.push((start, i - 1));
                start = i - 1;
            } else {
                proof {
                    assert(!is_turn(l, i as int));
                    assert(run_starts(l, i + 1) =~= rs);
                }
            }
            dir = d;
        } else {
            proof {
                assert(!is_turn(l, i as int));
                assert(run_starts(l, i + 1) =~= rs);
            }
        }
        i += 1;
    }
    if dir != 0 {
        out.push((start, n - 1));
    }
    proof {
        let spec = monotonic_runs_of(l);
        if dir != 0 {
            assert forall|j: int| 0 <= j < out@.len() implies (#[trigger] out@[j]).0 == spec[j].0
                && out@[j].1 == spec[j].1 by {}
        }
    }
    out
}

/// Directions are `−1`, `0` or `1`.
proof fn lemma_trend_values(line: Seq<u8>, i: int)
    ensures
        -1 <= trend_before(line, i) <= 1,
    decreases i,
{
    if i > 1 {
        lemma_trend_values(line, i - 1);
    }
}

/// The turning steps before `m` are strictly increasing, lie in `[1, m)`,
/// and include every turning step there.
proof fn lemma_turns_sorted(line: Seq<u8>, m: int)
    ensures
        forall|a: int, b: int|
            0 <= a < b < turns_before(line, m).len() ==> turns_before(line, m)[a] < turns_before(
                line,
                m,
            )[b],
        forall|a: int| 0 <= a < turns_before(line, m).len() ==> 1 <= #[trigger] turns_before(line, m)[a] < m,
        forall|a: int| 0 <= a < turns_before(line, m).len() ==> is_turn(line, #[trigger] turns_before(line, m)[a]),
        forall|i: int|
            1 <= i < m && #[trigger] is_turn(line, i) ==> exists|a: int|
                0 <= a < turns_before(line, m).len() && turns_before(line, m)[a] == i,
    decreases m,
{
    if m > 1 {
        lemma_turns_sorted(line, m - 1);
        let prev = turns_before(line, m - 1);
        if is_turn(line, m - 1) {
            let cur = prev.push(m - 1);
            assert(turns_before(line, m) == cur);
            assert forall|i: int| 1 <= i < m && #[trigger] is_turn(line, i) implies exists|a: int|
                0 <= a < cur.len() && cur[a] == i by {
                if i == m - 1 {
                    assert(cur[prev.len() as int] == i);
                } else {
                    let a = choose|a: int| 0 <= a < prev.len() && prev[a] == i;
                    assert(cur[a] == i);
                }
            }
        } else {
            assert(turns_before(line, m) == prev);
            assert forall|i: int| 1 <= i < m && #[trigger] is_turn(line, i) implies exists|a: int|
                0 <= a < prev.len() && prev[a] == i by {
                assert(i != m - 1);
            }
        }
    }
}

/// Without a turning step in `(p, q]`, every non-flat step there follows the
/// trend reached after step `q`, and a trend already set before `p + 1`
/// persists.
proof fn lemma_no_turn_steps(line: Seq<u8>, p: int, q: int)
    requires
        0 <= p <= q < line.len(),
        forall|i: int| p < i <= q ==> !#[trigger] is_turn(line, i),
    ensures
        forall|i: int|
            p < i <= q ==> #[trigger] step_sign(line, i) == 0 || step_sign(line, i) == trend_before(
                line,
                q + 1,
            ),
        trend_before(line, p + 1) != 0 ==> trend_before(line, q + 1) == trend_before(line, p + 1),
    decreases q - p,
{
    if q > p {
        lemma_no_turn_steps(line, p, q - 1);
        lemma_trend_values(line, q);
        assert(!is_turn(line, q));
    }
}

/// Every monotonic run is monotone in the direction `d` of its last
/// non-flat step — non-decreasing for `d = 1`, non-increasing for `d = −1`
/// — spans at least two samples, and the next run goes the other way.
pub proof fn lemma_monotonic_runs_are_monotone(line: Seq<u8>, j: int)
    requires
        0 <= j < monotonic_runs_of(line).len(),
    ensures
        ({
            let (a, b) = monotonic_runs_of(line)[j];
            let d = trend_before(line, b + 1);
            &&& 0 <= a < b < line.len()
            &&& d == 1 || d == -1
            &&& forall|i: int|
                a <= i < b ==> if d == 1 {
                    #[trigger] line[i] <= line[i + 1]
                } else {
                    line[i] >= line[i + 1]
                }
        }),
        j + 1 < monotonic_runs_of(line).len() ==> trend_before(line, monotonic_runs_of(line)[j + 1].1 + 1)
            == -trend_before(line, monotonic_runs_of(line)[j].1 + 1),
{
    let n = line.len() as int;
    let t = turns_before(line, n);
    let k = t.len() as int;
    lemma_turns_sorted(line, n);
    let runs = monotonic_runs_of(line);
    assert(n >= 3 && trend_before(line, n) != 0);
    lemma_trend_values(line, n);
    assert(run_starts(line, n).len() == k + 1);
    // Bounds of run `r`: from the sample before turn `r` (or 0) to the
    // sample before turn `r + 1` (or the last sample).
    assert forall|r: int| 0 <= r <= k implies #[trigger] runs[r].0 == (if r == 0 {
        0
    } else {
        t[r - 1] - 1
    }) && runs[r].1 == (if r < k {
        t[r] - 1
    } else {
        n - 1
    }) by {
        let rs = run_starts(line, n);
        if r > 0 {
            assert(rs[r] == t[r - 1] - 1);
        }
        if r < k {
            assert(rs[r + 1] == t[r] - 1);
        }
    }
    assert forall|r: int| #![trigger runs[r]] 0 <= r <= k implies ({
        let (a, b) = runs[r];
        let d = trend_before(line, b + 1);
        &&& 0 <= a < b < n
        &&& (d == 1 || d == -1)
        &&& (r > 0 ==> d == step_sign(line, t[r - 1]))
        &&& (r < k ==> d == -step_sign(line, t[r]))
        &&& forall|i: int| a < i <= b ==> #[trigger] step_sign(line, i) == 0 || step_sign(line, i) == d
    }) by {
        let (a, b) = runs[r];
        // No turning step strictly inside the run.
        assert forall|i: int| a + 1 < i <= b implies !#[trigger] is_turn(line, i) by {
            if is_turn(line, i) {
                let l = choose|l: int| 0 <= l < k && t[l] == i;
                if r > 0 {
                    assert(t[r - 1] < t[l]);
                }
                if r < k {
                    assert(t[l] < t[r]);
                }
            }
        }
        if r == 0 {
            assert forall|i: int| 0 < i <= b implies !#[trigger] is_turn(line, i) by {
                if is_turn(line, i) {
                    let l = choose|l: int| 0 <= l < k && t[l] == i;
                    assert(t[0] <= t[l]);
                }
            }
            lemma_no_turn_steps(line, 0, b);
            if r < k {
                assert(is_turn(line, t[0]));
                lemma_trend_values(line, t[0]);
            }
        } else {
            let t0 = t[r - 1];
            assert(is_turn(line, t0));
            lemma_no_turn_steps(line, t0, b);
            lemma_trend_values(line, t0);
            assert(trend_before(line, t0 + 1) == step_sign(line, t0));
            if r < k {
                assert(is_turn(line, t[r]));
            }
        }
    }
    let (a, b) = runs[j];
    let d = trend_before(line, b + 1);
    assert forall|i: int| a <= i < b implies if d == 1 {
        #[trigger] line[i] <= line[i + 1]
    } else {
        line[i] >= line[i + 1]
    } by {
        assert(step_sign(line, i + 1) == 0 || step_sign(line, i + 1) == d);
    }
    if j + 1 < runs.len() {
        assert(runs[j + 1].0 == t[j] - 1);
    }
}

/// The monotonic runs tile the line: the first starts at sample 0, the last
/// ends at the last sample, and each run starts where the previous ended.
pub proof fn lemma_monotonic_runs_tile(line: Seq<u8>)
    ensures
        ({
            let runs = monotonic_runs_of(line);
            &&& runs.len() > 0 ==> runs[0].0 == 0 && runs[runs.len() - 1].1 == line.len() - 1
            &&& forall|j: int| 0 <= j < runs.len() - 1 ==> (#[trigger] runs[j]).1 == runs[j + 1].0
        }),
{
}

} // verus!
