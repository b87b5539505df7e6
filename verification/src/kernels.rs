//! Pixel-level enhancement kernels on grayscale views.
//!
//! Every kernel is a pure function producing a fresh, tightly packed buffer
//! together with its dimensions. All arithmetic is integer or fixed-point, so
//! identical input produces identical output bytes on every host.
use crate::image::{lemma_grid_slot, transposed, Gray8View};
use vstd::prelude::*;

verus! {

/// Row-major sequence of `f` over a `cols × rows` grid.
pub open spec fn grid_of(cols: int, rows: int, f: spec_fn(int, int) -> u8) -> Seq<u8> {
    Seq::new((cols * rows) as nat, |k: int| f(k % cols, k / cols))
}

/// `i` clamped to `[0, n)`.
pub open spec fn clamp_index(i: int, n: int) -> int {
    if i < 0 {
        0
    } else if i >= n {
        n - 1
    } else {
        i
    }
}

/// Pushing `f(c, r)` for slot `r·cols + c` extends a row-major prefix of
/// `grid_of(cols, rows, f)` by one.
pub proof fn lemma_grid_push<A>(
    prefix: Seq<A>,
    cols: int,
    rows: int,
    f: spec_fn(int, int) -> A,
    c: int,
    r: int,
)
    requires
        0 <= c < cols,
        0 <= r < rows,
        prefix.len() == r * cols + c,
        forall|k: int| 0 <= k < prefix.len() ==> #[trigger] prefix[k] == f(k % cols, k / cols),
    ensures
        forall|k: int|
            0 <= k < prefix.len() + 1 ==> #[trigger] prefix.push(f(c, r))[k] == f(k % cols, k / cols),
        prefix.len() + 1 <= cols * rows,
{
    lemma_grid_slot(c, r, cols, rows);
    assert(rows * cols == cols * rows) by (nonlinear_arith);
    assert forall|k: int| 0 <= k < prefix.len() + 1 implies #[trigger] prefix.push(f(c, r))[k] == f(
        k % cols,
        k / cols,
    ) by {
        if k < prefix.len() {
            assert(prefix.push(f(c, r))[k] == prefix[k]);
        }
    }
}

// ---------------------------------------------------------------------------
// 2×2 box downscale
// ---------------------------------------------------------------------------
/// Rounded mean of the 2×2 quad whose top-left is `(2x, 2y)`.
pub open spec fn box_half_value(v: Gray8View, x: int, y: int) -> u8 {
    ((v.pixel(2 * x, 2 * y) + v.pixel(2 * x + 1, 2 * y) + v.pixel(2 * x, 2 * y + 1) + v.pixel(
        2 * x + 1,
        2 * y + 1,
    ) + 2) / 4) as u8
}

/// The half-resolution image of `v`.
pub open spec fn box_half_fn(v: Gray8View) -> spec_fn(int, int) -> u8 {
    |x: int, y: int| box_half_value(v, x, y)
}

/// 2×2 box-averaged half-resolution downscale: each output pixel is the
/// round-to-nearest mean `(sum + 2) >> 2` of a source quad; an odd trailing
/// row or column is dropped. Returns `None` when the source is too small to
/// halve.
pub fn box_downscale_half(src: &Gray8View) -> (r: Option<(Vec<u8>, usize, usize)>)
    requires
        src.wf(),
    ensures
        match r {
            None => src.w() < 2 || src.h() < 2,
            Some((out, dw, dh)) => {
                &&& src.w() >= 2 && src.h() >= 2
                &&& dw == src.w() / 2
                &&& dh == src.h() / 2
                &&& out@ == grid_of(dw as int, dh as int, box_half_fn(*src))
            },
        },
{
    let w = src.width();
    let h = src.height();
    if w < 2 || h < 2 {
        return None;
    }
    let dw = w / 2;
    let dh = h / 2;
    let ghost f = box_half_fn(*src);
    proof {
        let s = src.s() as int;
        assert(dw * dh <= s * (h - 1) + w) by (nonlinear_arith)
            requires
                1 <= dw <= w <= s,
                1 <= dh <= h,
        ;
    }
    let mut out: Vec<u8> = Vec::new();
    let mut y: usize = 0;
    while y < dh
        invariant
            src.wf(),
            w == src.w(),
            h == src.h(),
            dw == w / 2,
            dh == h / 2,
            dw >= 1,
            dh >= 1,
            y <= dh,
            f == box_half_fn(*src),
            out@.len() == y * dw,
            forall|k: int| 0 <= k < out@.len() ==> #[trigger] out@[k] == f(k % dw as int, k / dw as int),
        decreases dh - y,
    {
        let mut x: usize = 0;
        while x < dw
            invariant
                src.wf(),
                w == src.w(),
                h == src.h(),
                dw == w / 2,
                dh == h / 2,
                y < dh,
                x <= dw,
                f == box_half_fn(*src),
                out@.len() == y * dw + x,
                forall|k: int|
                    0 <= k < out@.len() ==> #[trigger] out@[k] == f(k % dw as int, k / dw as int),
            decreases dw - x,
        {
            let s = src.get(2 * x, 2 * y) as u16 + src.get(2 * x + 1, 2 * y) as u16 + src.get(
                2 * x,
                2 * y + 1,
            ) as u16 + src.get(2 * x + 1, 2 * y + 1) as u16;
            let value = ((s + 2) / 4) as u8;
            proof {
                assert(value == f(x as int, y as int));
                lemma_grid_push(out@, dw as int, dh as int, f, x as int, y as int);
            }
            out.push(value);
            x += 1;
        }
        proof {
            assert((y + 1) * dw == y * dw + dw) by (nonlinear_arith);
        }
        y += 1;
    }
    proof {
        assert(dh * dw == dw * dh) by (nonlinear_arith);
        assert(out@ =~= grid_of(dw as int, dh as int, f));
    }
    Some((out, dw, dh))
}

// ---------------------------------------------------------------------------
// Co-sited bilinear upscales
// ---------------------------------------------------------------------------
/// Sample `i` of `s` between neighbors `a` (at `i = 0`) and `b`, rounded to
/// nearest with the fixed-point weights of the `s`× bilinear kernels.
pub open spec fn lerp_at(s: int, i: int, a: int, b: int) -> int {
    if i == 0 {
        a
    } else if s == 2 {
        (a + b + 1) / 2
    } else if s == 3 {
        if i == 1 {
            (2 * a + b + 1) / 3
        } else {
            (a + 2 * b + 1) / 3
        }
    } else if i == 1 {
        (3 * a + b + 2) / 4
    } else if i == 2 {
        (a + b + 1) / 2
    } else {
        (a + 3 * b + 2) / 4
    }
}

/// Horizontal pass: output column `xx` of source row `y`.
pub open spec fn bilinear_h(v: Gray8View, s: int, xx: int, y: int) -> int {
    lerp_at(
        s,
        xx % s,
        v.pixel(xx / s, y) as int,
        v.pixel(clamp_index(xx / s + 1, v.w() as int), y) as int,
    )
}

/// Output pixel `(xx, yy)` of the `s`× bilinear upscale of `v`.
pub open spec fn bilinear_value(v: Gray8View, s: int, xx: int, yy: int) -> u8 {
    lerp_at(
        s,
        yy % s,
        bilinear_h(v, s, xx, yy / s),
        bilinear_h(v, s, xx, clamp_index(yy / s + 1, v.h() as int)),
    ) as u8
}

/// The `s`× bilinear upscale of `v`.
pub open spec fn bilinear_fn(v: Gray8View, s: int) -> spec_fn(int, int) -> u8 {
    |xx: int, yy: int| bilinear_value(v, s, xx, yy)
}

fn lerp(s: usize, i: usize, a: u8, b: u8) -> (r: u8)
    requires
        2 <= s <= 4,
        i < s,
    ensures
        r == lerp_at(s as int, i as int, a as int, b as int),
{
    let (a, b) = (a as u16, b as u16);
    if i == 0 {
        a as u8
    } else if s == 2 {
        ((a + b + 1) / 2) as u8
    } else if s == 3 {
        if i == 1 {
            ((2 * a + b + 1) / 3) as u8
        } else {
            ((a + 2 * b + 1) / 3) as u8
        }
    } else if i == 1 {
        ((3 * a + b + 2) / 4) as u8
    } else if i == 2 {
        ((a + b + 1) / 2) as u8
    } else {
        ((a + 3 * b + 2) / 4) as u8
    }
}

/// Co-sited `s`× bilinear upscale shared by the fixed-factor kernels.
fn bilinear_upscale(src: &Gray8View, s: usize) -> (r: (Vec<u8>, usize, usize))
    requires
        src.wf(),
        2 <= s <= 4,
        (src.w() * s) * (src.h() * s) <= usize::MAX,
    ensures
        r.1 == src.w() * s,
        r.2 == src.h() * s,
        r.0@ == grid_of(r.1 as int, r.2 as int, bilinear_fn(*src, s as int)),
{
    let w = src.width();
    let h = src.height();
    proof {
        assert(w * s <= (w * s) * (h * s) && h * s <= (w * s) * (h * s) && w * s * h <= (w * s)
            * (h * s)) by (nonlinear_arith)
            requires
                w >= 1,
                h >= 1,
                s >= 2,
        ;
    }
    let dw = w * s;
    let dh = h * s;
    let ghost v = *src;
    let ghost hf = |xx: int, y: int| bilinear_h(v, s as int, xx, y) as u8;
    // Horizontal pass: one interpolated row of `dw` samples per source row.
    let mut hrows: Vec<u8> = Vec::new();
    let mut y: usize = 0;
    while y < h
        invariant
            v == *src,
            src.wf(),
            w == v.w(),
            h == v.h(),
            2 <= s <= 4,
            dw == w * s,
            dh == h * s,
            dw * h <= usize::MAX,
            y <= h,
            hf == (|xx: int, y: int| bilinear_h(v, s as int, xx, y) as u8),
            hrows@.len() == y * dw,
            forall|k: int|
                0 <= k < hrows@.len() ==> #[trigger] hrows@[k] == hf(k % dw as int, k / dw as int),
        decreases h - y,
    {
        let mut xx: usize = 0;
        while xx < dw
            invariant
                v == *src,
                src.wf(),
                w == v.w(),
                h == v.h(),
                2 <= s <= 4,
                dw == w * s,
                dh == h * s,
                dw * h <= usize::MAX,
                y < h,
                xx <= dw,
                hf == (|xx: int, y: int| bilinear_h(v, s as int, xx, y) as u8),
                hrows@.len() == y * dw + xx,
                forall|k: int|
                    0 <= k < hrows@.len() ==> #[trigger] hrows@[k] == hf(k % dw as int, k / dw as int),
            decreases dw - xx,
        {
            let x = xx / s;
            proof {
                assert(x < w) by (nonlinear_arith)
                    requires
                        x == xx / s,
                        xx < w * s,
                        s >= 2,
                ;
            }
            let right = if x + 1 < w {
                x + 1
            } else {
                w - 1
            };
            let value = lerp(s, xx % s, src.get(x, y), src.get(right, y));
            proof {
                lemma_grid_push(hrows@, dw as int, h as int, hf, xx as int, y as int);
                let a = v.pixel(x as int, y as int) as int;
                let b = v.pixel(right as int, y as int) as int;
                assert(0 <= lerp_at(s as int, (xx % s) as int, a, b) <= 255) by {
                    lemma_lerp_bounds(s as int, (xx % s) as int, a, b);
                }
                assert(value == hf(xx as int, y as int));
            }
            hrows.push(value);
            xx += 1;
        }
        proof {
            assert((y + 1) * dw == y * dw + dw) by (nonlinear_arith);
        }
        y += 1;
    }
    // Vertical pass.
    let ghost f = bilinear_fn(*src, s as int);
    let mut out: Vec<u8> = Vec::new();
    let mut yy: usize = 0;
    while yy < dh
        invariant
            v == *src,
            src.wf(),
            w == v.w(),
            h == v.h(),
            2 <= s <= 4,
            dw == w * s,
            dh == h * s,
            dw * dh <= usize::MAX,
            dw * h <= usize::MAX,
            hf == (|xx: int, y: int| bilinear_h(v, s as int, xx, y) as u8),
            hrows@.len() == h * dw,
            forall|k: int|
                0 <= k < hrows@.len() ==> #[trigger] hrows@[k] == hf(k % dw as int, k / dw as int),
            f == bilinear_fn(v, s as int),
            yy <= dh,
            out@.len() == yy * dw,
            forall|k: int| 0 <= k < out@.len() ==> #[trigger] out@[k] == f(k % dw as int, k / dw as int),
        decreases dh - yy,
    {
        let y = yy / s;
        let j = yy % s;
        proof {
            assert(y < h) by (nonlinear_arith)
                requires
                    y == yy / s,
                    yy < h * s,
                    s >= 2,
            ;
        }
        let below = if y + 1 < h {
            y + 1
        } else {
            h - 1
        };
        let mut xx: usize = 0;
        while xx < dw
            invariant
                v == *src,
                src.wf(),
                w == v.w(),
                h == v.h(),
                2 <= s <= 4,
                dw == w * s,
                dh == h * s,
                dw * dh <= usize::MAX,
                dw * h <= usize::MAX,
                hf == (|xx: int, y: int| bilinear_h(v, s as int, xx, y) as u8),
                hrows@.len() == h * dw,
                forall|k: int|
                    0 <= k < hrows@.len() ==> #[trigger] hrows@[k] == hf(k % dw as int, k / dw as int),
                f == bilinear_fn(v, s as int),
                yy < dh,
                y == yy / s,
                j == yy % s,
                y < h,
                below == clamp_index(y + 1, h as int),
                xx <= dw,
                out@.len() == yy * dw + xx,
                forall|k: int|
                    0 <= k < out@.len() ==> #[trigger] out@[k] == f(k % dw as int, k / dw as int),
            decreases dw - xx,
        {
            proof {
                lemma_grid_slot(xx as int, y as int, dw as int, h as int);
                lemma_grid_slot(xx as int, below as int, dw as int, h as int);
                assert(h * dw == dw * h) by (nonlinear_arith);
            }
            let a = hrows[y * dw + xx];
            let b = hrows[below * dw + xx];
            let value = lerp(s, j, a, b);
            proof {
                lemma_grid_push(out@, dw as int, dh as int, f, xx as int, yy as int);
                let x = xx / s;
                let r = clamp_index(x + 1, w as int);
                assert(x < w) by (nonlinear_arith)
                    requires
                        x == xx / s,
                        xx < w * s,
                        s >= 2,
                ;
                lemma_lerp_bounds(s as int, (xx % s) as int, v.pixel(x as int, y as int) as int, v.pixel(r, y as int) as int);
                lemma_lerp_bounds(s as int, (xx % s) as int, v.pixel(x as int, below as int) as int, v.pixel(r, below as int) as int);
            }
            assert(value == f(xx as int, yy as int));
            out.push(value);
            xx += 1;
        }
        proof {
            assert((yy + 1) * dw == yy * dw + dw) by (nonlinear_arith);
        }
        yy += 1;
    }
    proof {
        assert(dh * dw == dw * dh) by (nonlinear_arith);
        assert(out@ =~= grid_of(dw as int, dh as int, f));
    }
    (out, dw, dh)
}

/// Interpolating between two bytes stays within a byte.
proof fn lemma_lerp_bounds(s: int, i: int, a: int, b: int)
    requires
        2 <= s <= 4,
        0 <= i < s,
        0 <= a <= 255,
        0 <= b <= 255,
    ensures
        0 <= lerp_at(s, i, a, b) <= 255,
{
}

/// Fixed-2× co-sited bilinear upscale: `out[2i] = in[i]`,
/// `out[2i+1] = (in[i] + in[i+1] + 1) / 2` per axis, the last column and row
/// clamping their missing neighbor, so `x_src = x_up / 2` exactly.
pub fn bilinear_upscale_2x(src: &Gray8View) -> (r: (Vec<u8>, usize, usize))
    requires
        src.wf(),
        (src.w() * 2) * (src.h() * 2) <= usize::MAX,
    ensures
        r.1 == src.w() * 2,
        r.2 == src.h() * 2,
        r.0@ == grid_of(r.1 as int, r.2 as int, bilinear_fn(*src, 2)),
{
    bilinear_upscale(src, 2)
}

/// Fixed-3× co-sited bilinear upscale: `out[3i] = in[i]`,
/// `out[3i+1] = (2a + b + 1) / 3`, `out[3i+2] = (a + 2b + 1) / 3` per axis.
pub fn bilinear_upscale_3x(src: &Gray8View) -> (r: (Vec<u8>, usize, usize))
    requires
        src.wf(),
        (src.w() * 3) * (src.h() * 3) <= usize::MAX,
    ensures
        r.1 == src.w() * 3,
        r.2 == src.h() * 3,
        r.0@ == grid_of(r.1 as int, r.2 as int, bilinear_fn(*src, 3)),
{
    bilinear_upscale(src, 3)
}

/// Fixed-4× co-sited bilinear upscale: `out[4i+k] = round(((4−k)·a + k·b)/4)`
/// per axis.
pub fn bilinear_upscale_4x(src: &Gray8View) -> (r: (Vec<u8>, usize, usize))
    requires
        src.wf(),
        (src.w() * 4) * (src.h() * 4) <= usize::MAX,
    ensures
        r.1 == src.w() * 4,
        r.2 == src.h() * 4,
        r.0@ == grid_of(r.1 as int, r.2 as int, bilinear_fn(*src, 4)),
{
    bilinear_upscale(src, 4)
}

// ---------------------------------------------------------------------------
// Catmull-Rom 2× upscale
// ---------------------------------------------------------------------------
/// Catmull-Rom at `t = ½` over `(a, b, c, d)` in fixed point:
/// `⌊(9·(b+c) − (a+d) + 8) / 16⌋` clamped to `0..=255`.
pub open spec fn catmull_rom_at(a: int, b: int, c: int, d: int) -> int {
    let t = 9 * (b + c) - (a + d) + 8;
    if t < 0 {
        0
    } else if t / 16 > 255 {
        255
    } else {
        t / 16
    }
}

/// Horizontal pass of the Catmull-Rom upscale: output column `xx` of source
/// row `y` (even columns replicate the source).
pub open spec fn catmull_rom_h(v: Gray8View, xx: int, y: int) -> int {
    let x = xx / 2;
    let n = v.w() as int;
    if xx % 2 == 0 {
        v.pixel(x, y) as int
    } else {
        catmull_rom_at(
            v.pixel(clamp_index(x - 1, n), y) as int,
            v.pixel(x, y) as int,
            v.pixel(clamp_index(x + 1, n), y) as int,
            v.pixel(clamp_index(x + 2, n), y) as int,
        )
    }
}

/// Output pixel `(xx, yy)` of the Catmull-Rom 2× upscale of `v`.
pub open spec fn catmull_rom_value(v: Gray8View, xx: int, yy: int) -> u8 {
    let y = yy / 2;
    let n = v.h() as int;
    if yy % 2 == 0 {
        catmull_rom_h(v, xx, y) as u8
    } else {
        catmull_rom_at(
            catmull_rom_h(v, xx, clamp_index(y - 1, n)),
            catmull_rom_h(v, xx, y),
            catmull_rom_h(v, xx, clamp_index(y + 1, n)),
            catmull_rom_h(v, xx, clamp_index(y + 2, n)),
        ) as u8
    }
}

/// The Catmull-Rom 2× upscale of `v`.
pub open spec fn catmull_rom_fn(v: Gray8View) -> spec_fn(int, int) -> u8 {
    |xx: int, yy: int| catmull_rom_value(v, xx, yy)
}

fn catmull_rom(a: u8, b: u8, c: u8, d: u8) -> (r: u8)
    ensures
        r == catmull_rom_at(a as int, b as int, c as int, d as int),
{
    let t = 9 * (b as i32 + c as i32) - (a as i32 + d as i32) + 8;
    if t < 0 {
        0
    } else if t / 16 > 255 {
        255
    } else {
        (t / 16) as u8
    }
}

/// `i` clamped to `[0, n)` on machine integers (`i` may be two below zero).
fn clamp_offset(x: usize, delta: i8, n: usize) -> (r: usize)
    requires
        x < n,
        -2 <= delta <= 2,
    ensures
        r == clamp_index(x + delta, n as int),
        r < n,
{
    if delta < 0 {
        let back = (-delta) as usize;
        if x >= back {
            x - back
        } else {
            0
        }
    } else {
        let fwd = delta as usize;
        if fwd < n - x {
            x + fwd
        } else {
            n - 1
        }
    }
}

/// Fixed-2× Catmull-Rom (bicubic, a = −0.5) upscale on the co-sited grid:
/// even samples replicate the source, odd samples interpolate with the
/// weights `(−1, 9, 9, −1)/16`, clamped to a byte; edges clamp their missing
/// neighbors and each separable pass rounds to a byte.
pub fn catmull_rom_upscale_2x(src: &Gray8View) -> (r: (Vec<u8>, usize, usize))
    requires
        src.wf(),
        (src.w() * 2) * (src.h() * 2) <= usize::MAX,
    ensures
        r.1 == src.w() * 2,
        r.2 == src.h() * 2,
        r.0@ == grid_of(r.1 as int, r.2 as int, catmull_rom_fn(*src)),
{
    let w = src.width();
    let h = src.height();
    proof {
        assert(w * 2 <= (w * 2) * (h * 2) && h * 2 <= (w * 2) * (h * 2) && w * 2 * h <= (w * 2)
            * (h * 2)) by (nonlinear_arith)
            requires
                w >= 1,
                h >= 1,
        ;
    }
    let dw = w * 2;
    let dh = h * 2;
    let ghost v = *src;
    let ghost hf = |xx: int, y: int| catmull_rom_h(v, xx, y) as u8;
    let mut hrows: Vec<u8> = Vec::new();
    let mut y: usize = 0;
    while y < h
        invariant
            v == *src,
            src.wf(),
            w == v.w(),
            h == v.h(),
            dw == w * 2,
            dh == h * 2,
            dw * h <= usize::MAX,
            y <= h,
            hf == (|xx: int, y: int| catmull_rom_h(v, xx, y) as u8),
            hrows@.len() == y * dw,
            forall|k: int|
                0 <= k < hrows@.len() ==> #[trigger] hrows@[k] == hf(k % dw as int, k / dw as int),
        decreases h - y,
    {
        let mut xx: usize = 0;
        while xx < dw
            invariant
                v == *src,
                src.wf(),
                w == v.w(),
                h == v.h(),
                dw == w * 2,
                dh == h * 2,
                dw * h <= usize::MAX,
                y < h,
                xx <= dw,
                hf == (|xx: int, y: int| catmull_rom_h(v, xx, y) as u8),
                hrows@.len() == y * dw + xx,
                forall|k: int|
                    0 <= k < hrows@.len() ==> #[trigger] hrows@[k] == hf(k % dw as int, k / dw as int),
            decreases dw - xx,
        {
            let x = xx / 2;
            let value = if xx % 2 == 0 {
                src.get(x, y)
            } else {
                catmull_rom(
                    src.get(clamp_offset(x, -1, w), y),
                    src.get(x, y),
                    src.get(clamp_offset(x, 1, w), y),
                    src.get(clamp_offset(x, 2, w), y),
                )
            };
            proof {
                lemma_grid_push(hrows@, dw as int, h as int, hf, xx as int, y as int);
                assert(value == hf(xx as int, y as int));
            }
            hrows.push(value);
            xx += 1;
        }
        proof {
            assert((y + 1) * dw == y * dw + dw) by (nonlinear_arith);
        }
        y += 1;
    }
    let ghost f = catmull_rom_fn(*src);
    let mut out: Vec<u8> = Vec::new();
    let mut yy: usize = 0;
    while yy < dh
        invariant
            v == *src,
            src.wf(),
            w == v.w(),
            h == v.h(),
            dw == w * 2,
            dh == h * 2,
            dw * dh <= usize::MAX,
            dw * h <= usize::MAX,
            hf == (|xx: int, y: int| catmull_rom_h(v, xx, y) as u8),
            hrows@.len() == h * dw,
            forall|k: int|
                0 <= k < hrows@.len() ==> #[trigger] hrows@[k] == hf(k % dw as int, k / dw as int),
            f == catmull_rom_fn(v),
            yy <= dh,
            out@.len() == yy * dw,
            forall|k: int| 0 <= k < out@.len() ==> #[trigger] out@[k] == f(k % dw as int, k / dw as int),
        decreases dh - yy,
    {
        let y = yy / 2;
        let ya = clamp_offset(y, -1, h);
        let yc = clamp_offset(y, 1, h);
        let yd = clamp_offset(y, 2, h);
        let mut xx: usize = 0;
        while xx < dw
            invariant
                v == *src,
                src.wf(),
                w == v.w(),
                h == v.h(),
                dw == w * 2,
                dh == h * 2,
                dw * dh <= usize::MAX,
                dw * h <= usize::MAX,
                hf == (|xx: int, y: int| catmull_rom_h(v, xx, y) as u8),
                hrows@.len() == h * dw,
                forall|k: int|
                    0 <= k < hrows@.len() ==> #[trigger] hrows@[k] == hf(k % dw as int, k / dw as int),
                f == catmull_rom_fn(v),
                yy < dh,
                y == yy / 2,
                y < h,
                ya == clamp_index(y - 1, h as int),
                yc == clamp_index(y + 1, h as int),
                yd == clamp_index(y + 2, h as int),
                ya < h && yc < h && yd < h,
                xx <= dw,
                out@.len() == yy * dw + xx,
                forall|k: int|
                    0 <= k < out@.len() ==> #[trigger] out@[k] == f(k % dw as int, k / dw as int),
            decreases dw - xx,
        {
            proof {
                lemma_grid_slot(xx as int, y as int, dw as int, h as int);
                lemma_grid_slot(xx as int, ya as int, dw as int, h as int);
                lemma_grid_slot(xx as int, yc as int, dw as int, h as int);
                lemma_grid_slot(xx as int, yd as int, dw as int, h as int);
                assert(h * dw == dw * h) by (nonlinear_arith);
                lemma_catmull_rom_h_bounds(v, xx as int, y as int);
                lemma_catmull_rom_h_bounds(v, xx as int, ya as int);
                lemma_catmull_rom_h_bounds(v, xx as int, yc as int);
                lemma_catmull_rom_h_bounds(v, xx as int, yd as int);
            }
            let b = hrows[y * dw + xx];
            let value = if yy % 2 == 0 {
                b
            } else {
                catmull_rom(hrows[ya * dw + xx], b, hrows[yc * dw + xx], hrows[yd * dw + xx])
            };
            proof {
                lemma_grid_push(out@, dw as int, dh as int, f, xx as int, yy as int);
            }
            assert(value == f(xx as int, yy as int));
            out.push(value);
            xx += 1;
        }
        proof {
            assert((yy + 1) * dw == yy * dw + dw) by (nonlinear_arith);
        }
        yy += 1;
    }
    proof {
        assert(dh * dw == dw * dh) by (nonlinear_arith);
        assert(out@ =~= grid_of(dw as int, dh as int, f));
    }
    (out, dw, dh)
}

proof fn lemma_catmull_rom_h_bounds(v: Gray8View, xx: int, y: int)
    ensures
        0 <= catmull_rom_h(v, xx, y) <= 255,
{
}

// ---------------------------------------------------------------------------
// Unsharp mask
// ---------------------------------------------------------------------------
/// Horizontal `[1, 4, 6, 4, 1]` binomial sum at `(x, y)`, edges clamped.
pub open spec fn unsharp_h(v: Gray8View, x: int, y: int) -> int {
    let n = v.w() as int;
    v.pixel(clamp_index(x - 2, n), y) + 4 * v.pixel(clamp_index(x - 1, n), y) + 6 * v.pixel(x, y)
        + 4 * v.pixel(clamp_index(x + 1, n), y) + v.pixel(clamp_index(x + 2, n), y)
}

/// Output pixel `(x, y)` of the unsharp mask: `clamp(2·I − blur)` with the
/// separable 5-tap binomial blur rounded to nearest.
pub open spec fn unsharp_value(v: Gray8View, x: int, y: int) -> u8 {
    let n = v.h() as int;
    let blur = (unsharp_h(v, x, clamp_index(y - 2, n)) + 4 * unsharp_h(v, x, clamp_index(y - 1, n))
        + 6 * unsharp_h(v, x, y) + 4 * unsharp_h(v, x, clamp_index(y + 1, n)) + unsharp_h(
        v,
        x,
        clamp_index(y + 2, n),
    ) + 128) / 256;
    let sharp = 2 * v.pixel(x, y) - blur;
    if sharp < 0 {
        0
    } else if sharp > 255 {
        255
    } else {
        sharp as u8
    }
}

/// The unsharp mask of `v`.
pub open spec fn unsharp_fn(v: Gray8View) -> spec_fn(int, int) -> u8 {
    |x: int, y: int| unsharp_value(v, x, y)
}

/// Unsharp mask with the 5-tap binomial kernel `[1,4,6,4,1]/16` and amount
/// 1: `out = clamp(2·I − blur)`, edges clamped. Output has the source's
/// dimensions, tightly packed.
pub fn unsharp_mask(src: &Gray8View) -> (r: (Vec<u8>, usize, usize))
    requires
        src.wf(),
    ensures
        r.1 == src.w(),
        r.2 == src.h(),
        r.0@ == grid_of(r.1 as int, r.2 as int, unsharp_fn(*src)),
{
    let w = src.width();
    let h = src.height();
    proof {
        let s = src.s() as int;
        assert(w * h <= s * (h - 1) + w) by (nonlinear_arith)
            requires
                1 <= w <= s,
                1 <= h,
        ;
    }
    let ghost v = *src;
    let ghost hf = |x: int, y: int| unsharp_h(v, x, y) as u16;
    let mut hpass: Vec<u16> = Vec::new();
    let mut y: usize = 0;
    while y < h
        invariant
            v == *src,
            src.wf(),
            w == v.w(),
            h == v.h(),
            w * h <= usize::MAX,
            y <= h,
            hf == (|x: int, y: int| unsharp_h(v, x, y) as u16),
            hpass@.len() == y * w,
            forall|k: int|
                0 <= k < hpass@.len() ==> #[trigger] hpass@[k] == hf(k % w as int, k / w as int),
        decreases h - y,
    {
        let mut x: usize = 0;
        while x < w
            invariant
                v == *src,
                src.wf(),
                w == v.w(),
                h == v.h(),
                w * h <= usize::MAX,
                y < h,
                x <= w,
                hf == (|x: int, y: int| unsharp_h(v, x, y) as u16),
                hpass@.len() == y * w + x,
                forall|k: int|
                    0 <= k < hpass@.len() ==> #[trigger] hpass@[k] == hf(k % w as int, k / w as int),
            decreases w - x,
        {
            let value = src.get(clamp_offset(x, -2, w), y) as u16 + 4 * src.get(
                clamp_offset(x, -1, w),
                y,
            ) as u16 + 6 * src.get(x, y) as u16 + 4 * src.get(clamp_offset(x, 1, w), y) as u16
                + src.get(clamp_offset(x, 2, w), y) as u16;
            proof {
                lemma_grid_push(hpass@, w as int, h as int, hf, x as int, y as int);
                assert(value == hf(x as int, y as int));
            }
            hpass.push(value);
            x += 1;
        }
        proof {
            assert((y + 1) * w == y * w + w) by (nonlinear_arith);
        }
        y += 1;
    }
    let ghost f = unsharp_fn(*src);
    let mut out: Vec<u8> = Vec::new();
    let mut y: usize = 0;
    while y < h
        invariant
            v == *src,
            src.wf(),
            w == v.w(),
            h == v.h(),
            w * h <= usize::MAX,
            hf == (|x: int, y: int| unsharp_h(v, x, y) as u16),
            hpass@.len() == h * w,
            forall|k: int|
                0 <= k < hpass@.len() ==> #[trigger] hpass@[k] == hf(k % w as int, k / w as int),
            f == unsharp_fn(v),
            y <= h,
            out@.len() == y * w,
            forall|k: int| 0 <= k < out@.len() ==> #[trigger] out@[k] == f(k % w as int, k / w as int),
        decreases h - y,
    {
        let ya = clamp_offset(y, -2, h);
        let yb = clamp_offset(y, -1, h);
        let yd = clamp_offset(y, 1, h);
        let ye = clamp_offset(y, 2, h);
        let mut x: usize = 0;
        while x < w
            invariant
                v == *src,
                src.wf(),
                w == v.w(),
                h == v.h(),
                w * h <= usize::MAX,
                hf == (|x: int, y: int| unsharp_h(v, x, y) as u16),
                hpass@.len() == h * w,
                forall|k: int|
                    0 <= k < hpass@.len() ==> #[trigger] hpass@[k] == hf(k % w as int, k / w as int),
                f == unsharp_fn(v),
                y < h,
                ya == clamp_index(y - 2, h as int),
                yb == clamp_index(y - 1, h as int),
                yd == clamp_index(y + 1, h as int),
                ye == clamp_index(y + 2, h as int),
                ya < h && yb < h && yd < h && ye < h,
                x <= w,
                out@.len() == y * w + x,
                forall|k: int|
                    0 <= k < out@.len() ==> #[trigger] out@[k] == f(k % w as int, k / w as int),
            decreases w - x,
        {
            proof {
                lemma_grid_slot(x as int, y as int, w as int, h as int);
                lemma_grid_slot(x as int, ya as int, w as int, h as int);
                lemma_grid_slot(x as int, yb as int, w as int, h as int);
                lemma_grid_slot(x as int, yd as int, w as int, h as int);
                lemma_grid_slot(x as int, ye as int, w as int, h as int);
                assert(h * w == w * h) by (nonlinear_arith);
            }
            let blur = (hpass[ya * w + x] as u32 + 4 * hpass[yb * w + x] as u32 + 6 * hpass[y * w
                + x] as u32 + 4 * hpass[yd * w + x] as u32 + hpass[ye * w + x] as u32 + 128) / 256;
            let sharp = 2 * src.get(x, y) as i32 - blur as i32;
            let value: u8 = if sharp < 0 {
                0
            } else if sharp > 255 {
                255
            } else {
                sharp as u8
            };
            proof {
                lemma_grid_push(out@, w as int, h as int, f, x as int, y as int);
            }
            assert(value == f(x as int, y as int));
            out.push(value);
            x += 1;
        }
        proof {
            assert((y + 1) * w == y * w + w) by (nonlinear_arith);
        }
        y += 1;
    }
    proof {
        assert(h * w == w * h) by (nonlinear_arith);
        assert(out@ =~= grid_of(w as int, h as int, f));
    }
    (out, w, h)
}

// ---------------------------------------------------------------------------
// Area-average downscale
// ---------------------------------------------------------------------------
/// Edge `k` of `d` equal cells over `n` source pixels, in 1/256 pixel units.
pub open spec fn cell_edge(n: int, d: int, k: int) -> int {
    n * 256 * k / d
}

/// First source pixel touched by the cell `[e0, e1)` (1/256 units).
pub open spec fn cell_lo(e0: int) -> int {
    e0 / 256
}

/// One past the last source pixel touched by the cell `[e0, e1)`, clipped
/// to `n`.
pub open spec fn cell_hi(e1: int, n: int) -> int {
    if (e1 + 255) / 256 < n {
        (e1 + 255) / 256
    } else {
        n
    }
}

/// How much of source pixel `s` the cell `[e0, e1)` covers, in 1/256 units.
pub open spec fn cover_of(e0: int, e1: int, s: int) -> int {
    let right = if (s + 1) * 256 < e1 {
        (s + 1) * 256
    } else {
        e1
    };
    let left = if s * 256 > e0 {
        s * 256
    } else {
        e0
    };
    right - left
}

/// Total coverage of source pixels `[a, b)` by the cell `[e0, e1)`.
pub open spec fn cover_total(e0: int, e1: int, a: int, b: int) -> int
    decreases b - a,
{
    if b <= a {
        0
    } else {
        cover_total(e0, e1, a, b - 1) + cover_of(e0, e1, b - 1)
    }
}

/// Coverage-weighted sum of row `y` over columns `[a, b)` for the cell
/// `[e0, e1)`.
pub open spec fn weighted_row(v: Gray8View, y: int, e0: int, e1: int, a: int, b: int) -> int
    decreases b - a,
{
    if b <= a {
        0
    } else {
        weighted_row(v, y, e0, e1, a, b - 1) + v.pixel(b - 1, y) * cover_of(e0, e1, b - 1)
    }
}

/// Horizontal pass: row `y` shrunk into the column cell `[e0, e1)`.
pub open spec fn shrunk(v: Gray8View, y: int, e0: int, e1: int) -> int {
    weighted_row(v, y, e0, e1, cell_lo(e0), cell_hi(e1, v.w() as int))
}

/// Vertical pass: rows `[a, b)` of the shrunk column combined with the
/// coverage of the row cell `[f0, f1)`.
pub open spec fn weighted_column(
    v: Gray8View,
    e0: int,
    e1: int,
    f0: int,
    f1: int,
    a: int,
    b: int,
) -> int
    decreases b - a,
{
    if b <= a {
        0
    } else {
        weighted_column(v, e0, e1, f0, f1, a, b - 1) + shrunk(v, b - 1, e0, e1) * cover_of(
            f0,
            f1,
            b - 1,
        )
    }
}

/// Output pixel `(ox, oy)` of the `dw × dh` area-average downscale of `v`:
/// the coverage-weighted mean of the exact fractional source rectangle the
/// cell covers (weights in 1/256 per axis), rounded to nearest.
pub open spec fn area_value(v: Gray8View, dw: int, dh: int, ox: int, oy: int) -> u8 {
    let (w, h) = (v.w() as int, v.h() as int);
    let (e0, e1) = (cell_edge(w, dw, ox), cell_edge(w, dw, ox + 1));
    let (f0, f1) = (cell_edge(h, dh, oy), cell_edge(h, dh, oy + 1));
    let weight = cover_total(e0, e1, cell_lo(e0), cell_hi(e1, w)) * cover_total(
        f0,
        f1,
        cell_lo(f0),
        cell_hi(f1, h),
    );
    let acc = weighted_column(v, e0, e1, f0, f1, cell_lo(f0), cell_hi(f1, h));
    if weight == 0 {
        0
    } else {
        ((acc + weight / 2) / weight) as u8
    }
}

/// The `dw × dh` area-average downscale of `v`.
pub open spec fn area_fn(v: Gray8View, dw: int, dh: int) -> spec_fn(int, int) -> u8 {
    |ox: int, oy: int| area_value(v, dw, dh, ox, oy)
}

/// Facts about the cell `k` of `d` over `n` pixels: its edges are ordered,
/// fit in `[0, 256·n]`, and every source pixel it touches is covered by
/// between 0 and 256 units.
proof fn lemma_cell(n: int, d: int, k: int)
    requires
        1 <= d <= n,
        0 <= k < d,
    ensures
        0 <= cell_edge(n, d, k) <= cell_edge(n, d, k + 1) <= n * 256,
        0 <= cell_lo(cell_edge(n, d, k)) <= cell_hi(cell_edge(n, d, k + 1), n) <= n,
        forall|s: int|
            cell_lo(cell_edge(n, d, k)) <= s < cell_hi(cell_edge(n, d, k + 1), n) ==> 0 <= #[trigger] cover_of(
                cell_edge(n, d, k),
                cell_edge(n, d, k + 1),
                s,
            ) <= 256,
{
    let m = n * 256;
    assert(0 <= m * k <= m * (k + 1) <= m * d) by (nonlinear_arith)
        requires
            0 <= k < d,
            m >= 0,
    ;
    vstd::arithmetic::div_mod::lemma_div_is_ordered(m * k, m * (k + 1), d);
    vstd::arithmetic::div_mod::lemma_div_pos_is_pos(m * k, d);
    vstd::arithmetic::div_mod::lemma_div_is_ordered(m * (k + 1), m * d, d);
    assert(m * d / d == m) by {
        vstd::arithmetic::div_mod::lemma_div_by_multiple(m, d);
    }
    let e0 = cell_edge(n, d, k);
    let e1 = cell_edge(n, d, k + 1);
    vstd::arithmetic::div_mod::lemma_fundamental_div_mod(e0, 256);
    vstd::arithmetic::div_mod::lemma_fundamental_div_mod(e1 + 255, 256);
    assert(e0 / 256 <= n) by {
        vstd::arithmetic::div_mod::lemma_div_is_ordered(e0, m, 256);
        vstd::arithmetic::div_mod::lemma_div_by_multiple(n, 256);
    }
    assert(e0 / 256 <= (e1 + 255) / 256) by {
        vstd::arithmetic::div_mod::lemma_div_is_ordered(e0, e1 + 255, 256);
    }
    assert forall|s: int|
        cell_lo(e0) <= s < cell_hi(e1, n) implies 0 <= #[trigger] cover_of(e0, e1, s) <= 256 by {
        vstd::arithmetic::div_mod::lemma_mod_pos_bound(e0, 256);
        vstd::arithmetic::div_mod::lemma_mod_pos_bound(e1 + 255, 256);
        assert((s + 1) * 256 > e0) by (nonlinear_arith)
            requires
                s >= e0 / 256,
                e0 == 256 * (e0 / 256) + e0 % 256,
                e0 % 256 < 256,
        ;
        assert(s * 256 < e1) by (nonlinear_arith)
            requires
                s < (e1 + 255) / 256,
                e1 + 255 == 256 * ((e1 + 255) / 256) + (e1 + 255) % 256,
                0 <= (e1 + 255) % 256,
        ;
        assert((s + 1) * 256 == s * 256 + 256) by (nonlinear_arith);
    }
}

/// Partial coverage totals are between 0 and 256 per pixel.
proof fn lemma_cover_total_bounds(e0: int, e1: int, lo: int, a: int, b: int)
    requires
        lo <= a <= b,
        forall|s: int| lo <= s < b ==> 0 <= #[trigger] cover_of(e0, e1, s) <= 256,
    ensures
        0 <= cover_total(e0, e1, a, b) <= 256 * (b - a),
    decreases b - a,
{
    if b > a {
        lemma_cover_total_bounds(e0, e1, lo, a, b - 1);
    }
}

/// Partial weighted row sums are between 0 and `255·256` per pixel.
proof fn lemma_weighted_row_bounds(v: Gray8View, y: int, e0: int, e1: int, lo: int, a: int, b: int)
    requires
        lo <= a <= b,
        forall|s: int| lo <= s < b ==> 0 <= #[trigger] cover_of(e0, e1, s) <= 256,
    ensures
        0 <= weighted_row(v, y, e0, e1, a, b) <= 65280 * (b - a),
    decreases b - a,
{
    if b > a {
        lemma_weighted_row_bounds(v, y, e0, e1, lo, a, b - 1);
        let p = v.pixel(b - 1, y) as int;
        let c = cover_of(e0, e1, b - 1);
        assert(0 <= p * c <= 65280) by (nonlinear_arith)
            requires
                0 <= p <= 255,
                0 <= c <= 256,
        ;
    }
}

/// `area_downscale`'s machine-size preconditions.
pub open spec fn area_fits(v: Gray8View, dw: int, dh: int) -> bool {
    &&& 1 <= dw <= v.w()
    &&& 1 <= dh <= v.h()
    &&& v.w() * 256 * dw <= u64::MAX
    &&& v.h() * 256 * dh <= u64::MAX
    &&& v.w() * v.h() * 65536 * 256 <= u64::MAX
}

/// Source span and coverage edges of destination cell `k` of `d` over `n`
/// pixels: `(e0, e1, first, end)`.
fn cell_span(n: usize, d: usize, k: usize) -> (r: (u64, u64, usize, usize))
    requires
        1 <= d <= n,
        k < d,
        n * 256 * d <= u64::MAX,
    ensures
        r.0 == cell_edge(n as int, d as int, k as int),
        r.1 == cell_edge(n as int, d as int, k + 1),
        r.2 == cell_lo(r.0 as int),
        r.3 == cell_hi(r.1 as int, n as int),
{
    proof {
        lemma_cell(n as int, d as int, k as int);
        assert(n * 256 * (k + 1) <= n * 256 * d) by (nonlinear_arith)
            requires
                k + 1 <= d,
        ;
        assert(n * 256 <= n * 256 * d) by (nonlinear_arith)
            requires
                1 <= d,
        ;
    }
    let m = n as u64 * 256;
    proof {
        assert(m * k <= m * (k + 1) <= m * d) by (nonlinear_arith)
            requires
                k + 1 <= d,
                m >= 0,
        ;
    }
    let e0 = m * k as u64 / d as u64;
    let e1 = m * (k as u64 + 1) / d as u64;
    let c = (e1 + 255) / 256;
    let end = if c < n as u64 {
        c as usize
    } else {
        n
    };
    (e0, e1, (e0 / 256) as usize, end)
}

/// Coverage of source pixel `s` by the cell `[e0, e1)`.
fn coverage(e0: u64, e1: u64, s: usize) -> (r: u64)
    requires
        0 <= cover_of(e0 as int, e1 as int, s as int) <= 256,
        (s + 1) * 256 <= u64::MAX,
    ensures
        r == cover_of(e0 as int, e1 as int, s as int),
{
    let left0 = s as u64 * 256;
    let right0 = left0 + 256;
    let right = if right0 < e1 {
        right0
    } else {
        e1
    };
    let left = if left0 > e0 {
        left0
    } else {
        e0
    };
    right - left
}

/// Partial vertical sums stay within the per-row bound.
proof fn lemma_weighted_column_bounds(
    v: Gray8View,
    e0: int,
    e1: int,
    f0: int,
    f1: int,
    lo: int,
    a: int,
    b: int,
)
    requires
        lo <= a <= b,
        forall|s: int| lo <= s < b ==> 0 <= #[trigger] cover_of(f0, f1, s) <= 256,
        forall|s: int| lo <= s < b ==> 0 <= #[trigger] shrunk(v, s, e0, e1) <= 65280 * v.w(),
    ensures
        0 <= weighted_column(v, e0, e1, f0, f1, a, b) <= 65280 * 256 * v.w() * (b - a),
    decreases b - a,
{
    if b > a {
        lemma_weighted_column_bounds(v, e0, e1, f0, f1, lo, a, b - 1);
        let p = shrunk(v, b - 1, e0, e1);
        let c = cover_of(f0, f1, b - 1);
        let w = v.w() as int;
        assert(0 <= p * c <= 65280 * 256 * w) by (nonlinear_arith)
            requires
                0 <= p <= 65280 * w,
                0 <= c <= 256,
        ;
        assert(65280 * 256 * w * (b - 1 - a) + 65280 * 256 * w == 65280 * 256 * w * (b - a))
            by (nonlinear_arith);
    }
}

/// A shrunk row is at most `255·256` per source pixel.
proof fn lemma_shrunk_bounds(v: Gray8View, y: int, dw: int, ox: int)
    requires
        1 <= dw <= v.w(),
        0 <= ox < dw,
    ensures
        0 <= shrunk(v, y, cell_edge(v.w() as int, dw, ox), cell_edge(v.w() as int, dw, ox + 1))
            <= 65280 * v.w(),
{
    let w = v.w() as int;
    lemma_cell(w, dw, ox);
    let e0 = cell_edge(w, dw, ox);
    let e1 = cell_edge(w, dw, ox + 1);
    lemma_weighted_row_bounds(v, y, e0, e1, cell_lo(e0), cell_lo(e0), cell_hi(e1, w));
    assert(65280 * (cell_hi(e1, w) - cell_lo(e0)) <= 65280 * w) by (nonlinear_arith)
        requires
            0 <= cell_hi(e1, w) - cell_lo(e0) <= w,
    ;
}

/// Area-average (box) downscale to exactly `dw × dh`: each destination pixel
/// integrates the exact fractional source rectangle it covers (weights in
/// 1/256 per axis), rounded to nearest. The horizontal pass shrinks every
/// source row into unnormalized column sums; the vertical pass combines them
/// with the row weights.
pub fn area_downscale(src: &Gray8View, dw: usize, dh: usize) -> (r: (Vec<u8>, usize, usize))
    requires
        src.wf(),
        area_fits(*src, dw as int, dh as int),
    ensures
        r.1 == dw,
        r.2 == dh,
        r.0@ == grid_of(dw as int, dh as int, area_fn(*src, dw as int, dh as int)),
{
    let w = src.width();
    let h = src.height();
    let ghost v = *src;
    proof {
        let s = v.s() as int;
        assert(w * h <= s * (h - 1) + w) by (nonlinear_arith)
            requires
                1 <= w <= s,
                1 <= h,
        ;
        assert(dw * dh <= w * h && dw * h <= w * h) by (nonlinear_arith)
            requires
                1 <= dw <= w,
                1 <= dh <= h,
        ;
        assert(65280 * w <= w * h * 65536 * 256) by (nonlinear_arith)
            requires
                w >= 1,
                h >= 1,
        ;
        assert(256 * w <= w * h * 65536 * 256 && 256 * h <= w * h * 65536 * 256) by (nonlinear_arith)
            requires
                w >= 1,
                h >= 1,
        ;
    }
    // Column cells: coverage edges, source span and total horizontal weight.
    let mut xe0: Vec<u64> = Vec::new();
    let mut xe1: Vec<u64> = Vec::new();
    let mut xlo: Vec<usize> = Vec::new();
    let mut xhi: Vec<usize> = Vec::new();
    let mut hw: Vec<u64> = Vec::new();
    let mut ox: usize = 0;
    while ox < dw
        invariant
            v == *src,
            src.wf(),
            w == v.w(),
            h == v.h(),
            area_fits(v, dw as int, dh as int),
            256 * w <= u64::MAX,
            ox <= dw,
            xe0@.len() == ox,
            xe1@.len() == ox,
            xlo@.len() == ox,
            xhi@.len() == ox,
            hw@.len() == ox,
            forall|i: int|
                0 <= i < ox ==> {
                    &&& #[trigger] xe0@[i] == cell_edge(w as int, dw as int, i)
                    &&& xe1@[i] == cell_edge(w as int, dw as int, i + 1)
                    &&& xlo@[i] == cell_lo(xe0@[i] as int)
                    &&& xhi@[i] == cell_hi(xe1@[i] as int, w as int)
                    &&& hw@[i] == cover_total(xe0@[i] as int, xe1@[i] as int, xlo@[i] as int, xhi@[i] as int)
                },
        decreases dw - ox,
    {
        let (e0, e1, lo, hi) = cell_span(w, dw, ox);
        proof {
            lemma_cell(w as int, dw as int, ox as int);
        }
        let mut t: u64 = 0;
        let mut sx = lo;
        while sx < hi
            invariant
                lo <= sx <= hi <= w,
                256 * w <= u64::MAX,
                forall|s: int| lo <= s < hi ==> 0 <= #[trigger] cover_of(e0 as int, e1 as int, s) <= 256,
                t == cover_total(e0 as int, e1 as int, lo as int, sx as int),
            decreases hi - sx,
        {
            proof {
                lemma_cover_total_bounds(e0 as int, e1 as int, lo as int, lo as int, sx + 1);
                assert(256 * (sx + 1 - lo) <= 256 * w) by (nonlinear_arith)
                    requires
                        sx + 1 - lo <= w,
                ;
                assert(cover_of(e0 as int, e1 as int, sx as int) <= 256);
            }
            t = t + coverage(e0, e1, sx);
            sx += 1;
        }
        let ghost before = (xe0@, xe1@, xlo@, xhi@, hw@);
        xe0.push(e0);
        xe1.push(e1);
        xlo.push(lo);
        xhi.push(hi);
        hw.push(t);
        proof {
            assert forall|i: int| 0 <= i < ox + 1 implies {
                &&& #[trigger] xe0@[i] == cell_edge(w as int, dw as int, i)
                &&& xe1@[i] == cell_edge(w as int, dw as int, i + 1)
                &&& xlo@[i] == cell_lo(xe0@[i] as int)
                &&& xhi@[i] == cell_hi(xe1@[i] as int, w as int)
                &&& hw@[i] == cover_total(xe0@[i] as int, xe1@[i] as int, xlo@[i] as int, xhi@[i] as int)
            } by {
                if i < ox {
                    assert(xe0@[i] == before.0[i] && xe1@[i] == before.1[i] && xlo@[i] == before.2[i]
                        && xhi@[i] == before.3[i] && hw@[i] == before.4[i]);
                }
            }
        }
        ox += 1;
    }
    // Horizontal pass: every source row shrunk into `dw` weighted sums.
    let mut hsum: Vec<u64> = Vec::new();
    let mut sy: usize = 0;
    while sy < h
        invariant
            v == *src,
            src.wf(),
            w == v.w(),
            h == v.h(),
            area_fits(v, dw as int, dh as int),
            65280 * w <= u64::MAX,
            dw * h <= usize::MAX,
            xe0@.len() == dw,
            xe1@.len() == dw,
            xlo@.len() == dw,
            xhi@.len() == dw,
            forall|i: int|
                0 <= i < dw ==> {
                    &&& #[trigger] xe0@[i] == cell_edge(w as int, dw as int, i)
                    &&& xe1@[i] == cell_edge(w as int, dw as int, i + 1)
                    &&& xlo@[i] == cell_lo(xe0@[i] as int)
                    &&& xhi@[i] == cell_hi(xe1@[i] as int, w as int)
                },
            sy <= h,
            hsum@.len() == sy * dw,
            forall|k: int|
                0 <= k < hsum@.len() ==> #[trigger] hsum@[k] == shrunk(
                    v,
                    k / dw as int,
                    cell_edge(w as int, dw as int, k % dw as int),
                    cell_edge(w as int, dw as int, k % dw as int + 1),
                ),
        decreases h - sy,
    {
        let mut ox: usize = 0;
        while ox < dw
            invariant
                v == *src,
                src.wf(),
                w == v.w(),
                h == v.h(),
                area_fits(v, dw as int, dh as int),
                65280 * w <= u64::MAX,
                dw * h <= usize::MAX,
                xe0@.len() == dw,
                xe1@.len() == dw,
                xlo@.len() == dw,
                xhi@.len() == dw,
                forall|i: int|
                    0 <= i < dw ==> {
                        &&& #[trigger] xe0@[i] == cell_edge(w as int, dw as int, i)
                        &&& xe1@[i] == cell_edge(w as int, dw as int, i + 1)
                        &&& xlo@[i] == cell_lo(xe0@[i] as int)
                        &&& xhi@[i] == cell_hi(xe1@[i] as int, w as int)
                    },
                sy < h,
                ox <= dw,
                hsum@.len() == sy * dw + ox,
                forall|k: int|
                    0 <= k < hsum@.len() ==> #[trigger] hsum@[k] == shrunk(
                        v,
                        k / dw as int,
                        cell_edge(w as int, dw as int, k % dw as int),
                        cell_edge(w as int, dw as int, k % dw as int + 1),
                    ),
            decreases dw - ox,
        {
            let e0 = xe0[ox];
            let e1 = xe1[ox];
            let lo = xlo[ox];
            let hi = xhi[ox];
            proof {
                assert(xe0@[ox as int] == cell_edge(w as int, dw as int, ox as int));
                lemma_cell(w as int, dw as int, ox as int);
            }
            let mut a: u64 = 0;
            let mut sx = lo;
            while sx < hi
                invariant
                    v == *src,
                    src.wf(),
                    w == v.w(),
                    h == v.h(),
                    sy < h,
                    lo <= sx <= hi <= w,
                    65280 * w <= u64::MAX,
                    forall|s: int|
                        lo <= s < hi ==> 0 <= #[trigger] cover_of(e0 as int, e1 as int, s) <= 256,
                    a == weighted_row(v, sy as int, e0 as int, e1 as int, lo as int, sx as int),
                decreases hi - sx,
            {
                proof {
                    lemma_weighted_row_bounds(v, sy as int, e0 as int, e1 as int, lo as int, lo as int, sx + 1);
                    assert(65280 * (sx + 1 - lo) <= 65280 * w) by (nonlinear_arith)
                        requires
                            sx + 1 - lo <= w,
                    ;
                    assert(cover_of(e0 as int, e1 as int, sx as int) <= 256);
                    assert((sx + 1) * 256 <= 256 * w) by (nonlinear_arith)
                        requires
                            sx + 1 <= w,
                    ;
                }
                let c = coverage(e0, e1, sx);
                let p = src.get(sx, sy) as u64;
                proof {
                    assert(p * c <= 65280) by (nonlinear_arith)
                        requires
                            p <= 255,
                            c <= 256,
                    ;
                }
                a = a + p * c;
                sx += 1;
            }
            proof {
                lemma_grid_slot(ox as int, sy as int, dw as int, h as int);
            }
            let ghost before = hsum@;
            hsum.push(a);
            proof {
                assert forall|k: int| 0 <= k < hsum@.len() implies #[trigger] hsum@[k] == shrunk(
                    v,
                    k / dw as int,
                    cell_edge(w as int, dw as int, k % dw as int),
                    cell_edge(w as int, dw as int, k % dw as int + 1),
                ) by {
                    if k < before.len() {
                        assert(hsum@[k] == before[k]);
                    }
                }
            }
            ox += 1;
        }
        proof {
            assert((sy + 1) * dw == sy * dw + dw) by (nonlinear_arith);
        }
        sy += 1;
    }
    // Vertical pass.
    let ghost f = area_fn(v, dw as int, dh as int);
    let mut out: Vec<u8> = Vec::new();
    let mut oy: usize = 0;
    while oy < dh
        invariant
            v == *src,
            src.wf(),
            w == v.w(),
            h == v.h(),
            area_fits(v, dw as int, dh as int),
            256 * h <= u64::MAX,
            dw * h <= usize::MAX,
            dw * dh <= usize::MAX,
            xe0@.len() == dw,
            xe1@.len() == dw,
            xlo@.len() == dw,
            xhi@.len() == dw,
            hw@.len() == dw,
            forall|i: int|
                0 <= i < dw ==> {
                    &&& #[trigger] xe0@[i] == cell_edge(w as int, dw as int, i)
                    &&& xe1@[i] == cell_edge(w as int, dw as int, i + 1)
                    &&& xlo@[i] == cell_lo(xe0@[i] as int)
                    &&& xhi@[i] == cell_hi(xe1@[i] as int, w as int)
                    &&& hw@[i] == cover_total(xe0@[i] as int, xe1@[i] as int, xlo@[i] as int, xhi@[i] as int)
                },
            hsum@.len() == h * dw,
            forall|k: int|
                0 <= k < hsum@.len() ==> #[trigger] hsum@[k] == shrunk(
                    v,
                    k / dw as int,
                    cell_edge(w as int, dw as int, k % dw as int),
                    cell_edge(w as int, dw as int, k % dw as int + 1),
                ),
            f == area_fn(v, dw as int, dh as int),
            oy <= dh,
            out@.len() == oy * dw,
            forall|k: int| 0 <= k < out@.len() ==> #[trigger] out@[k] == f(k % dw as int, k / dw as int),
        decreases dh - oy,
    {
        let (f0, f1, lo, hi) = cell_span(h, dh, oy);
        proof {
            lemma_cell(h as int, dh as int, oy as int);
        }
        let mut acc: Vec<u64> = vec![0u64; dw];
        let mut vw: u64 = 0;
        let mut sy = lo;
        while sy < hi
            invariant
                v == *src,
                src.wf(),
                w == v.w(),
                h == v.h(),
                area_fits(v, dw as int, dh as int),
                256 * h <= u64::MAX,
                dw * h <= usize::MAX,
                lo <= sy <= hi <= h,
                forall|s: int| lo <= s < hi ==> 0 <= #[trigger] cover_of(f0 as int, f1 as int, s) <= 256,
                hsum@.len() == h * dw,
                forall|k: int|
                    0 <= k < hsum@.len() ==> #[trigger] hsum@[k] == shrunk(
                        v,
                        k / dw as int,
                        cell_edge(w as int, dw as int, k % dw as int),
                        cell_edge(w as int, dw as int, k % dw as int + 1),
                    ),
                vw == cover_total(f0 as int, f1 as int, lo as int, sy as int),
                acc@.len() == dw,
                forall|i: int|
                    0 <= i < dw ==> #[trigger] acc@[i] == weighted_column(
                        v,
                        cell_edge(w as int, dw as int, i),
                        cell_edge(w as int, dw as int, i + 1),
                        f0 as int,
                        f1 as int,
                        lo as int,
                        sy as int,
                    ),
            decreases hi - sy,
        {
            proof {
                lemma_cover_total_bounds(f0 as int, f1 as int, lo as int, lo as int, sy + 1);
                assert(256 * (sy + 1 - lo) <= 256 * h) by (nonlinear_arith)
                    requires
                        sy + 1 - lo <= h,
                ;
                assert(cover_of(f0 as int, f1 as int, sy as int) <= 256);
                assert((sy + 1) * 256 <= 256 * h) by (nonlinear_arith)
                    requires
                        sy + 1 <= h,
                ;
            }
            let wy = coverage(f0, f1, sy);
            vw = vw + wy;
            let mut ox: usize = 0;
            while ox < dw
                invariant
                    v == *src,
                    src.wf(),
                    w == v.w(),
                    h == v.h(),
                    area_fits(v, dw as int, dh as int),
                    dw * h <= usize::MAX,
                    lo <= sy < hi <= h,
                    forall|s: int| lo <= s < hi ==> 0 <= #[trigger] cover_of(f0 as int, f1 as int, s) <= 256,
                    wy == cover_of(f0 as int, f1 as int, sy as int),
                    hsum@.len() == h * dw,
                    forall|k: int|
                        0 <= k < hsum@.len() ==> #[trigger] hsum@[k] == shrunk(
                            v,
                            k / dw as int,
                            cell_edge(w as int, dw as int, k % dw as int),
                            cell_edge(w as int, dw as int, k % dw as int + 1),
                        ),
                    ox <= dw,
                    acc@.len() == dw,
                    forall|i: int|
                        0 <= i < dw ==> #[trigger] acc@[i] == weighted_column(
                            v,
                            cell_edge(w as int, dw as int, i),
                            cell_edge(w as int, dw as int, i + 1),
                            f0 as int,
                            f1 as int,
                            lo as int,
                            if i < ox {
                                sy + 1
                            } else {
                                sy as int
                            },
                        ),
                decreases dw - ox,
            {
                proof {
                    lemma_grid_slot(ox as int, sy as int, dw as int, h as int);
                    assert(h * dw == dw * h) by (nonlinear_arith);
                    let e0 = cell_edge(w as int, dw as int, ox as int);
                    let e1 = cell_edge(w as int, dw as int, ox + 1);
                    assert forall|s: int| lo <= s < sy + 1 implies 0 <= #[trigger] shrunk(v, s, e0, e1)
                        <= 65280 * v.w() by {
                        lemma_shrunk_bounds(v, s, dw as int, ox as int);
                    }
                    lemma_weighted_column_bounds(v, e0, e1, f0 as int, f1 as int, lo as int, lo as int, sy + 1);
                    assert(65280 * 256 * w * (sy + 1 - lo) <= w * h * 65536 * 256) by (nonlinear_arith)
                        requires
                            0 <= sy + 1 - lo <= h,
                            w >= 1,
                    ;
                    assert(acc@[ox as int] == weighted_column(v, e0, e1, f0 as int, f1 as int, lo as int, sy as int));
                    assert(hsum@[sy * dw + ox] == shrunk(v, sy as int, e0, e1));
                }
                let updated = acc[ox] + hsum[sy * dw + ox] * wy;
                let ghost before = acc@;
                acc.set(ox, updated);
                proof {
                    assert forall|i: int| 0 <= i < dw implies #[trigger] acc@[i] == weighted_column(
                        v,
                        cell_edge(w as int, dw as int, i),
                        cell_edge(w as int, dw as int, i + 1),
                        f0 as int,
                        f1 as int,
                        lo as int,
                        if i < ox + 1 {
                            sy + 1
                        } else {
                            sy as int
                        },
                    ) by {
                        if i != ox {
                            assert(acc@[i] == before[i]);
                        }
                    }
                }
                ox += 1;
            }
            sy += 1;
        }
        let mut ox: usize = 0;
        while ox < dw
            invariant
                v == *src,
                src.wf(),
                w == v.w(),
                h == v.h(),
                area_fits(v, dw as int, dh as int),
                dw * dh <= usize::MAX,
                oy < dh,
                f0 == cell_edge(h as int, dh as int, oy as int),
                f1 == cell_edge(h as int, dh as int, oy + 1),
                lo == cell_lo(f0 as int),
                hi == cell_hi(f1 as int, h as int),
                lo <= hi <= h,
                forall|s: int| lo <= s < hi ==> 0 <= #[trigger] cover_of(f0 as int, f1 as int, s) <= 256,
                vw == cover_total(f0 as int, f1 as int, lo as int, hi as int),
                hw@.len() == dw,
                xe0@.len() == dw,
                xe1@.len() == dw,
                xlo@.len() == dw,
                xhi@.len() == dw,
                forall|i: int|
                    0 <= i < dw ==> {
                        &&& #[trigger] xe0@[i] == cell_edge(w as int, dw as int, i)
                        &&& xe1@[i] == cell_edge(w as int, dw as int, i + 1)
                        &&& xlo@[i] == cell_lo(xe0@[i] as int)
                        &&& xhi@[i] == cell_hi(xe1@[i] as int, w as int)
                        &&& hw@[i] == cover_total(xe0@[i] as int, xe1@[i] as int, xlo@[i] as int, xhi@[i] as int)
                    },
                acc@.len() == dw,
                forall|i: int|
                    0 <= i < dw ==> #[trigger] acc@[i] == weighted_column(
                        v,
                        cell_edge(w as int, dw as int, i),
                        cell_edge(w as int, dw as int, i + 1),
                        f0 as int,
                        f1 as int,
                        lo as int,
                        hi as int,
                    ),
                f == area_fn(v, dw as int, dh as int),
                ox <= dw,
                out@.len() == oy * dw + ox,
                forall|k: int|
                    0 <= k < out@.len() ==> #[trigger] out@[k] == f(k % dw as int, k / dw as int),
            decreases dw - ox,
        {
            proof {
                assert(xe0@[ox as int] == cell_edge(w as int, dw as int, ox as int));
                let e0 = cell_edge(w as int, dw as int, ox as int);
                let e1 = cell_edge(w as int, dw as int, ox + 1);
                lemma_cell(w as int, dw as int, ox as int);
                lemma_cover_total_bounds(e0, e1, cell_lo(e0), cell_lo(e0), cell_hi(e1, w as int));
                lemma_cover_total_bounds(f0 as int, f1 as int, lo as int, lo as int, hi as int);
                assert forall|s: int| lo <= s < hi implies 0 <= #[trigger] shrunk(v, s, e0, e1)
                    <= 65280 * v.w() by {
                    lemma_shrunk_bounds(v, s, dw as int, ox as int);
                }
                lemma_weighted_column_bounds(v, e0, e1, f0 as int, f1 as int, lo as int, lo as int, hi as int);
                let tx = cover_total(e0, e1, cell_lo(e0), cell_hi(e1, w as int));
                let ty = cover_total(f0 as int, f1 as int, lo as int, hi as int);
                let acc_v = weighted_column(v, e0, e1, f0 as int, f1 as int, lo as int, hi as int);
                assert(tx * ty <= 65536 * w * h && acc_v <= 65280 * 256 * w * h) by (nonlinear_arith)
                    requires
                        0 <= tx <= 256 * (cell_hi(e1, w as int) - cell_lo(e0)),
                        0 <= cell_hi(e1, w as int) - cell_lo(e0) <= w,
                        0 <= ty <= 256 * (hi - lo),
                        0 <= hi - lo <= h,
                        0 <= acc_v <= 65280 * 256 * w * (hi - lo),
                        w >= 1,
                ;
                lemma_grid_push(out@, dw as int, dh as int, f, ox as int, oy as int);
                assert(hw@[ox as int] == tx);
                assert(acc@[ox as int] == acc_v);
                assert(tx * ty <= u64::MAX && acc_v + tx * ty <= u64::MAX) by (nonlinear_arith)
                    requires
                        tx * ty <= 65536 * w * h,
                        acc_v <= 65280 * 256 * w * h,
                        w * h * 65536 * 256 <= u64::MAX,
                        w >= 1,
                        h >= 1,
                ;
            }
            let weight = hw[ox] * vw;
            let value: u8 = if weight == 0 {
                0
            } else {
                ((acc[ox] + weight / 2) / weight) as u8
            };
            assert(value == f(ox as int, oy as int));
            out.push(value);
            ox += 1;
        }
        proof {
            assert((oy + 1) * dw == oy * dw + dw) by (nonlinear_arith);
        }
        oy += 1;
    }
    proof {
        assert(dh * dw == dw * dh) by (nonlinear_arith);
        assert(out@ =~= grid_of(dw as int, dh as int, f));
    }
    (out, dw, dh)
}

// ---------------------------------------------------------------------------
// Laws
// ---------------------------------------------------------------------------
/// The bilinear upscales are co-sited: output pixel `(s·x, s·y)` is source
/// pixel `(x, y)`, so `x_src = x_up / s` exactly.
pub proof fn lemma_bilinear_cosited(v: Gray8View, s: int, x: int, y: int)
    requires
        2 <= s <= 4,
        0 <= x < v.w(),
        0 <= y < v.h(),
    ensures
        bilinear_value(v, s, s * x, s * y) == v.pixel(x, y),
{
    assert(s * x == x * s && s * y == y * s) by (nonlinear_arith);
    vstd::arithmetic::div_mod::lemma_fundamental_div_mod_converse(s * x, s, x, 0);
    vstd::arithmetic::div_mod::lemma_fundamental_div_mod_converse(s * y, s, y, 0);
}

/// The Catmull-Rom upscale replicates the source at even positions.
pub proof fn lemma_catmull_rom_cosited(v: Gray8View, x: int, y: int)
    requires
        0 <= x < v.w(),
        0 <= y < v.h(),
    ensures
        catmull_rom_value(v, 2 * x, 2 * y) == v.pixel(x, y),
{
    vstd::arithmetic::div_mod::lemma_fundamental_div_mod_converse(2 * x, 2, x, 0);
    vstd::arithmetic::div_mod::lemma_fundamental_div_mod_converse(2 * y, 2, y, 0);
}

/// At an exact 2:1 ratio the area-average downscale is the 2×2 box
/// downscale: every cell covers exactly one source quad.
pub proof fn lemma_area_half_is_box(v: Gray8View, dw: int, dh: int, x: int, y: int)
    requires
        dw >= 1,
        dh >= 1,
        v.w() == 2 * dw,
        v.h() == 2 * dh,
        0 <= x < dw,
        0 <= y < dh,
    ensures
        area_value(v, dw, dh, x, y) == box_half_value(v, x, y),
{
    let (w, h) = (v.w() as int, v.h() as int);
    let (e0, e1) = (cell_edge(w, dw, x), cell_edge(w, dw, x + 1));
    let (f0, f1) = (cell_edge(h, dh, y), cell_edge(h, dh, y + 1));
    assert(w * 256 * x == (512 * x) * dw) by (nonlinear_arith)
        requires
            w == 2 * dw,
    ;
    assert(w * 256 * (x + 1) == (512 * (x + 1)) * dw) by (nonlinear_arith)
        requires
            w == 2 * dw,
    ;
    assert(h * 256 * y == (512 * y) * dh) by (nonlinear_arith)
        requires
            h == 2 * dh,
    ;
    assert(h * 256 * (y + 1) == (512 * (y + 1)) * dh) by (nonlinear_arith)
        requires
            h == 2 * dh,
    ;
    vstd::arithmetic::div_mod::lemma_div_by_multiple(512 * x, dw);
    vstd::arithmetic::div_mod::lemma_div_by_multiple(512 * (x + 1), dw);
    vstd::arithmetic::div_mod::lemma_div_by_multiple(512 * y, dh);
    vstd::arithmetic::div_mod::lemma_div_by_multiple(512 * (y + 1), dh);
    assert(e0 == 512 * x && e1 == 512 * x + 512);
    assert(f0 == 512 * y && f1 == 512 * y + 512);
    vstd::arithmetic::div_mod::lemma_fundamental_div_mod_converse(e0, 256, 2 * x, 0);
    vstd::arithmetic::div_mod::lemma_fundamental_div_mod_converse(e1 + 255, 256, 2 * x + 2, 255);
    vstd::arithmetic::div_mod::lemma_fundamental_div_mod_converse(f0, 256, 2 * y, 0);
    vstd::arithmetic::div_mod::lemma_fundamental_div_mod_converse(f1 + 255, 256, 2 * y + 2, 255);
    assert(cell_lo(e0) == 2 * x && cell_hi(e1, w) == 2 * x + 2);
    assert(cell_lo(f0) == 2 * y && cell_hi(f1, h) == 2 * y + 2);
    assert(cover_of(e0, e1, 2 * x) == 256 && cover_of(e0, e1, 2 * x + 1) == 256);
    assert(cover_of(f0, f1, 2 * y) == 256 && cover_of(f0, f1, 2 * y + 1) == 256);
    assert(cover_total(e0, e1, 2 * x, 2 * x) == 0);
    assert(cover_total(e0, e1, 2 * x, 2 * x + 1) == 256);
    assert(cover_total(e0, e1, 2 * x, 2 * x + 2) == 512);
    assert(cover_total(f0, f1, 2 * y, 2 * y) == 0);
    assert(cover_total(f0, f1, 2 * y, 2 * y + 1) == 256);
    assert(cover_total(f0, f1, 2 * y, 2 * y + 2) == 512);
    let top: int = v.pixel(2 * x, 2 * y) + v.pixel(2 * x + 1, 2 * y);
    let bottom: int = v.pixel(2 * x, 2 * y + 1) + v.pixel(2 * x + 1, 2 * y + 1);
    assert(weighted_row(v, 2 * y, e0, e1, 2 * x, 2 * x) == 0);
    assert(weighted_row(v, 2 * y, e0, e1, 2 * x, 2 * x + 1) == 256 * v.pixel(2 * x, 2 * y));
    assert(weighted_row(v, 2 * y, e0, e1, 2 * x, 2 * x + 2) == 256 * v.pixel(2 * x, 2 * y) + v.pixel(
        2 * x + 1,
        2 * y,
    ) * 256);
    assert(shrunk(v, 2 * y, e0, e1) == 256 * top);
    assert(weighted_row(v, 2 * y + 1, e0, e1, 2 * x, 2 * x) == 0);
    assert(weighted_row(v, 2 * y + 1, e0, e1, 2 * x, 2 * x + 1) == 256 * v.pixel(2 * x, 2 * y + 1));
    assert(weighted_row(v, 2 * y + 1, e0, e1, 2 * x, 2 * x + 2) == 256 * v.pixel(2 * x, 2 * y + 1)
        + v.pixel(2 * x + 1, 2 * y + 1) * 256);
    assert(shrunk(v, 2 * y + 1, e0, e1) == 256 * bottom);
    assert(weighted_column(v, e0, e1, f0, f1, 2 * y, 2 * y) == 0);
    assert(weighted_column(v, e0, e1, f0, f1, 2 * y, 2 * y + 1) == 256 * top * 256);
    let acc: int = weighted_column(v, e0, e1, f0, f1, 2 * y, 2 * y + 2);
    assert(acc == 256 * top * 256 + 256 * bottom * 256);
    let sum: int = top + bottom;
    assert((acc + 131072) / 262144 == (sum + 2) / 4) by (nonlinear_arith)
        requires
            acc == 256 * top * 256 + 256 * bottom * 256,
            sum == top + bottom,
            sum >= 0,
    ;
}

/// At the source's own size the area-average downscale is the identity:
/// every cell is exactly one source pixel.
pub proof fn lemma_area_same_size_is_identity(v: Gray8View, x: int, y: int)
    requires
        0 <= x < v.w(),
        0 <= y < v.h(),
    ensures
        area_value(v, v.w() as int, v.h() as int, x, y) == v.pixel(x, y),
{
    let (w, h) = (v.w() as int, v.h() as int);
    let (e0, e1) = (cell_edge(w, w, x), cell_edge(w, w, x + 1));
    let (f0, f1) = (cell_edge(h, h, y), cell_edge(h, h, y + 1));
    assert(w * 256 * x == (256 * x) * w && w * 256 * (x + 1) == (256 * (x + 1)) * w) by (nonlinear_arith);
    assert(h * 256 * y == (256 * y) * h && h * 256 * (y + 1) == (256 * (y + 1)) * h) by (nonlinear_arith);
    vstd::arithmetic::div_mod::lemma_div_by_multiple(256 * x, w);
    vstd::arithmetic::div_mod::lemma_div_by_multiple(256 * (x + 1), w);
    vstd::arithmetic::div_mod::lemma_div_by_multiple(256 * y, h);
    vstd::arithmetic::div_mod::lemma_div_by_multiple(256 * (y + 1), h);
    assert(e0 == 256 * x && e1 == 256 * x + 256);
    assert(f0 == 256 * y && f1 == 256 * y + 256);
    vstd::arithmetic::div_mod::lemma_fundamental_div_mod_converse(e0, 256, x, 0);
    vstd::arithmetic::div_mod::lemma_fundamental_div_mod_converse(e1 + 255, 256, x + 1, 255);
    vstd::arithmetic::div_mod::lemma_fundamental_div_mod_converse(f0, 256, y, 0);
    vstd::arithmetic::div_mod::lemma_fundamental_div_mod_converse(f1 + 255, 256, y + 1, 255);
    assert(cell_lo(e0) == x && cell_hi(e1, w) == x + 1);
    assert(cell_lo(f0) == y && cell_hi(f1, h) == y + 1);
    assert(cover_of(e0, e1, x) == 256);
    assert(cover_of(f0, f1, y) == 256);
    assert(cover_total(e0, e1, x, x) == 0);
    assert(cover_total(e0, e1, x, x + 1) == 256);
    assert(cover_total(f0, f1, y, y) == 0);
    assert(cover_total(f0, f1, y, y + 1) == 256);
    assert(weighted_row(v, y, e0, e1, x, x) == 0);
    assert(weighted_row(v, y, e0, e1, x, x + 1) == v.pixel(x, y) * 256);
    assert(shrunk(v, y, e0, e1) == v.pixel(x, y) * 256);
    assert(weighted_column(v, e0, e1, f0, f1, y, y) == 0);
    let p: int = v.pixel(x, y) as int;
    assert(weighted_column(v, e0, e1, f0, f1, y, y + 1) == p * 256 * 256);
    assert((p * 256 * 256 + 32768) / 65536 == p) by (nonlinear_arith)
        requires
            0 <= p <= 255,
    ;
}

/// The fixed-point interpolation `lerp_at` rounds to nearest, halves up:
/// `s` times the sample is within `s / 2` of `(s − j)·a + j·b`, a tie
/// going to the larger value.
proof fn lemma_lerp_rounds_to_nearest(s: int, j: int, a: int, b: int)
    requires
        2 <= s <= 4,
        0 < j < s,
    ensures
        -s < 2 * (s * lerp_at(s, j, a, b) - ((s - j) * a + j * b)) <= s,
{
    let l = lerp_at(s, j, a, b);
    if s == 2 {
        assert(l == (a + b + 1) / 2);
        assert(a + b <= 2 * l <= a + b + 1);
        assert(j == 1);
    } else if s == 3 {
        if j == 1 {
            assert(l == (2 * a + b + 1) / 3);
            assert(2 * a + b - 1 <= 3 * l <= 2 * a + b + 1);
        } else {
            assert(l == (a + 2 * b + 1) / 3);
            assert(a + 2 * b - 1 <= 3 * l <= a + 2 * b + 1);
        }
    } else {
        if j == 1 {
            assert(l == (3 * a + b + 2) / 4);
            assert(3 * a + b - 1 <= 4 * l <= 3 * a + b + 2);
        } else if j == 2 {
            assert(l == (a + b + 1) / 2);
            assert(2 * a + 2 * b <= 4 * l <= 2 * a + 2 * b + 2);
        } else {
            assert(l == (a + 3 * b + 2) / 4);
            assert(a + 3 * b - 1 <= 4 * l <= a + 3 * b + 2);
        }
    }
    assert(-s < 2 * (s * l - ((s - j) * a + j * b)) <= s) by (nonlinear_arith)
        requires
            s == 2 ==> j == 1 && a + b <= 2 * l <= a + b + 1,
            s == 3 && j == 1 ==> 2 * a + b - 1 <= 3 * l <= 2 * a + b + 1,
            s == 3 && j == 2 ==> a + 2 * b - 1 <= 3 * l <= a + 2 * b + 1,
            s == 4 && j == 1 ==> 3 * a + b - 1 <= 4 * l <= 3 * a + b + 2,
            s == 4 && j == 2 ==> 2 * a + 2 * b <= 4 * l <= 2 * a + 2 * b + 2,
            s == 4 && j == 3 ==> a + 3 * b - 1 <= 4 * l <= a + 3 * b + 2,
            2 <= s <= 4,
            0 < j < s,
    ;
}

/// Source row and phase of output coordinate `s·y + j`.
proof fn lemma_phase(s: int, y: int, j: int)
    requires
        s >= 1,
        0 <= j < s,
    ensures
        (s * y + j) / s == y,
        (s * y + j) % s == j,
{
    assert(s * y == y * s) by (nonlinear_arith);
    vstd::arithmetic::div_mod::lemma_fundamental_div_mod_converse(s * y + j, s, y, j);
}

/// Between two co-sited output rows, every output row of the `s`× bilinear
/// upscale is their linear interpolation, rounded to nearest: row
/// `s·y + j` weighs the co-sited row below by `j / s` (ties rounding up).
/// Below the last
/// co-sited row the output repeats it.
pub proof fn lemma_bilinear_rows_interpolate(v: Gray8View, s: int, xx: int, y: int, j: int)
    requires
        2 <= s <= 4,
        0 <= xx < s * v.w(),
        0 <= y < v.h(),
        0 < j < s,
    ensures
        y + 1 < v.h() ==> -s < 2 * (s * bilinear_value(v, s, xx, s * y + j) - ((s - j) * bilinear_value(
            v,
            s,
            xx,
            s * y,
        ) + j * bilinear_value(v, s, xx, s * y + s))) <= s,
        y + 1 == v.h() ==> bilinear_value(v, s, xx, s * y + j) == bilinear_value(v, s, xx, s * y),
{
    lemma_phase(s, y, j);
    lemma_phase(s, y, 0);
    lemma_phase(s, y + 1, 0);
    assert(s * (y + 1) + 0 == s * y + s) by (nonlinear_arith);
    let a = bilinear_h(v, s, xx, y);
    let b = bilinear_h(v, s, xx, clamp_index(y + 1, v.h() as int));
    assert(bilinear_value(v, s, xx, s * y + j) == lerp_at(s, j, a, b) as u8);
    assert(bilinear_value(v, s, xx, s * y) == lerp_at(s, 0, a, b) as u8);
    lemma_bilinear_h_byte(v, s, xx, y);
    lemma_bilinear_h_byte(v, s, xx, clamp_index(y + 1, v.h() as int));
    lemma_lerp_byte(s, j, a, b);
    if y + 1 < v.h() {
        let c = bilinear_h(v, s, xx, y + 1);
        lemma_bilinear_h_byte(v, s, xx, y + 1);
        assert(bilinear_value(v, s, xx, s * y + s) == lerp_at(
            s,
            0,
            c,
            bilinear_h(v, s, xx, clamp_index(y + 2, v.h() as int)),
        ) as u8);
        lemma_lerp_rounds_to_nearest(s, j, a, b);
    }
}

/// Along a co-sited output row, every output pixel of the `s`× bilinear
/// upscale is the rounded linear interpolation of the co-sited pixels left
/// and right of it; past the last co-sited column it repeats it.
pub proof fn lemma_bilinear_columns_interpolate(v: Gray8View, s: int, x: int, y: int, j: int)
    requires
        2 <= s <= 4,
        0 <= x < v.w(),
        0 <= y < v.h(),
        0 < j < s,
    ensures
        x + 1 < v.w() ==> -s < 2 * (s * bilinear_value(v, s, s * x + j, s * y) - ((s - j) * bilinear_value(
            v,
            s,
            s * x,
            s * y,
        ) + j * bilinear_value(v, s, s * x + s, s * y))) <= s,
        x + 1 == v.w() ==> bilinear_value(v, s, s * x + j, s * y) == bilinear_value(v, s, s * x, s * y),
{
    lemma_phase(s, x, j);
    lemma_phase(s, x, 0);
    lemma_phase(s, x + 1, 0);
    lemma_phase(s, y, 0);
    assert(s * (x + 1) + 0 == s * x + s) by (nonlinear_arith);
    let a = v.pixel(x, y) as int;
    let b = v.pixel(clamp_index(x + 1, v.w() as int), y) as int;
    assert(bilinear_h(v, s, s * x + j, y) == lerp_at(s, j, a, b));
    assert(bilinear_h(v, s, s * x, y) == a);
    lemma_lerp_byte(s, j, a, b);
    if x + 1 < v.w() {
        assert(bilinear_h(v, s, s * x + s, y) == b);
        lemma_lerp_rounds_to_nearest(s, j, a, b);
    }
}

/// A horizontal-pass sample is a byte.
proof fn lemma_bilinear_h_byte(v: Gray8View, s: int, xx: int, y: int)
    requires
        2 <= s <= 4,
    ensures
        0 <= bilinear_h(v, s, xx, y) <= 255,
{
    lemma_lerp_byte(
        s,
        xx % s,
        v.pixel(xx / s, y) as int,
        v.pixel(clamp_index(xx / s + 1, v.w() as int), y) as int,
    );
}

/// Interpolating two bytes gives a byte.
proof fn lemma_lerp_byte(s: int, i: int, a: int, b: int)
    requires
        2 <= s <= 4,
        0 <= a <= 255,
        0 <= b <= 255,
    ensures
        0 <= lerp_at(s, i, a, b) <= 255,
{
}

/// The unsharp mask treats both axes alike: sharpening the transposed
/// image gives the transposed result, so vertical edges are steepened
/// exactly as horizontal ones are.
pub proof fn lemma_unsharp_transpose(a: Gray8View, b: Gray8View, x: int, y: int)
    requires
        transposed(a, b),
        0 <= x < a.w(),
        0 <= y < a.h(),
    ensures
        unsharp_value(a, x, y) == unsharp_value(b, y, x),
{
    let (w, h) = (a.w() as int, a.h() as int);
    let cx = |d: int| clamp_index(x + d, w);
    let cy = |d: int| clamp_index(y + d, h);
    assert forall|i: int, j: int| -2 <= i <= 2 && -2 <= j <= 2 implies #[trigger] a.pixel(cx(i), cy(j))
        == b.pixel(cy(j), cx(i)) by {}
    let rows_a = unsharp_h(a, x, cy(-2)) + 4 * unsharp_h(a, x, cy(-1)) + 6 * unsharp_h(a, x, y) + 4
        * unsharp_h(a, x, cy(1)) + unsharp_h(a, x, cy(2));
    let rows_b = unsharp_h(b, y, cx(-2)) + 4 * unsharp_h(b, y, cx(-1)) + 6 * unsharp_h(b, y, x) + 4
        * unsharp_h(b, y, cx(1)) + unsharp_h(b, y, cx(2));
    assert(cx(0) == x && cy(0) == y);
    assert(rows_a == rows_b) by {
        assert(a.pixel(cx(-2), cy(-2)) == b.pixel(cy(-2), cx(-2)));
        assert(a.pixel(cx(-1), cy(-2)) == b.pixel(cy(-2), cx(-1)));
        assert(a.pixel(cx(0), cy(-2)) == b.pixel(cy(-2), cx(0)));
        assert(a.pixel(cx(1), cy(-2)) == b.pixel(cy(-2), cx(1)));
        assert(a.pixel(cx(2), cy(-2)) == b.pixel(cy(-2), cx(2)));
        assert(a.pixel(cx(-2), cy(-1)) == b.pixel(cy(-1), cx(-2)));
        assert(a.pixel(cx(-1), cy(-1)) == b.pixel(cy(-1), cx(-1)));
        assert(a.pixel(cx(0), cy(-1)) == b.pixel(cy(-1), cx(0)));
        assert(a.pixel(cx(1), cy(-1)) == b.pixel(cy(-1), cx(1)));
        assert(a.pixel(cx(2), cy(-1)) == b.pixel(cy(-1), cx(2)));
        assert(a.pixel(cx(-2), cy(0)) == b.pixel(cy(0), cx(-2)));
        assert(a.pixel(cx(-1), cy(0)) == b.pixel(cy(0), cx(-1)));
        assert(a.pixel(cx(0), cy(0)) == b.pixel(cy(0), cx(0)));
        assert(a.pixel(cx(1), cy(0)) == b.pixel(cy(0), cx(1)));
        assert(a.pixel(cx(2), cy(0)) == b.pixel(cy(0), cx(2)));
        assert(a.pixel(cx(-2), cy(1)) == b.pixel(cy(1), cx(-2)));
        assert(a.pixel(cx(-1), cy(1)) == b.pixel(cy(1), cx(-1)));
        assert(a.pixel(cx(0), cy(1)) == b.pixel(cy(1), cx(0)));
        assert(a.pixel(cx(1), cy(1)) == b.pixel(cy(1), cx(1)));
        assert(a.pixel(cx(2), cy(1)) == b.pixel(cy(1), cx(2)));
        assert(a.pixel(cx(-2), cy(2)) == b.pixel(cy(2), cx(-2)));
        assert(a.pixel(cx(-1), cy(2)) == b.pixel(cy(2), cx(-1)));
        assert(a.pixel(cx(0), cy(2)) == b.pixel(cy(2), cx(0)));
        assert(a.pixel(cx(1), cy(2)) == b.pixel(cy(2), cx(1)));
        assert(a.pixel(cx(2), cy(2)) == b.pixel(cy(2), cx(2)));
    }
}

/// On an image whose rows are each constant, the unsharp mask sharpens
/// every column as the 1-D mask would: with `c(t)` the value of row `t`
/// (rows past the border repeating the edge row), the output at `(x, y)`
/// is `2·c(y) − round(16·(c(y−2) + 4c(y−1) + 6c(y) + 4c(y+1) + c(y+2)) / 256)`,
/// clamped to a byte.
pub proof fn lemma_unsharp_row_constant(v: Gray8View, x: int, y: int)
    requires
        0 <= x < v.w(),
        0 <= y < v.h(),
        forall|i: int, j: int| 0 <= i < v.w() && 0 <= j < v.h() ==> #[trigger] v.pixel(i, j) == v.pixel(0, j),
    ensures
        ({
            let c = |t: int| v.pixel(0, clamp_index(t, v.h() as int)) as int;
            let sharp = 2 * c(y) - (16 * (c(y - 2) + 4 * c(y - 1) + 6 * c(y) + 4 * c(y + 1) + c(y + 2))
                + 128) / 256;
            unsharp_value(v, x, y) as int == if sharp < 0 {
                0
            } else if sharp > 255 {
                255
            } else {
                sharp
            }
        }),
{
    let (w, h) = (v.w() as int, v.h() as int);
    assert forall|j: int| 0 <= j < h implies #[trigger] unsharp_h(v, x, j) == 16 * (v.pixel(0, j) as int) by {
        assert(v.pixel(clamp_index(x - 2, w), j) == v.pixel(0, j));
        assert(v.pixel(clamp_index(x - 1, w), j) == v.pixel(0, j));
        assert(v.pixel(x, j) == v.pixel(0, j));
        assert(v.pixel(clamp_index(x + 1, w), j) == v.pixel(0, j));
        assert(v.pixel(clamp_index(x + 2, w), j) == v.pixel(0, j));
    }
    assert(unsharp_h(v, x, clamp_index(y - 2, h)) == 16 * (v.pixel(0, clamp_index(y - 2, h)) as int));
    assert(unsharp_h(v, x, clamp_index(y - 1, h)) == 16 * (v.pixel(0, clamp_index(y - 1, h)) as int));
    assert(unsharp_h(v, x, y) == 16 * (v.pixel(0, y) as int));
    assert(unsharp_h(v, x, clamp_index(y + 1, h)) == 16 * (v.pixel(0, clamp_index(y + 1, h)) as int));
    assert(unsharp_h(v, x, clamp_index(y + 2, h)) == 16 * (v.pixel(0, clamp_index(y + 2, h)) as int));
    assert(clamp_index(y, h) == y);
}

} // verus!
