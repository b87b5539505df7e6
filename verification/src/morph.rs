//! Grayscale morphology with rectangular structuring elements (van Herk /
//! Gil-Werman running extrema) and shadow normalization by background
//! division.
use crate::image::{lemma_grid_slot, Gray8View};
use crate::kernels::grid_of;
use crate::threshold::{pick, pick_identity, window_hi, window_lo};
use vstd::prelude::*;

verus! {

broadcast use vstd::slice::group_slice_axioms;

/// Extremum (maximum when `is_max`, else minimum) of `s[a..=b]`; the
/// identity when the range is empty.
pub open spec fn seq_ext(s: Seq<u8>, a: int, b: int, is_max: bool) -> int
    decreases b - a + 1,
{
    if b < a {
        pick_identity(!is_max)
    } else {
        pick(seq_ext(s, a, b - 1, is_max), s[b] as int, !is_max)
    }
}

proof fn lemma_seq_ext_bounds(s: Seq<u8>, a: int, b: int, is_max: bool)
    ensures
        0 <= seq_ext(s, a, b, is_max) <= 255,
    decreases b - a + 1,
{
    if b >= a {
        lemma_seq_ext_bounds(s, a, b - 1, is_max);
    }
}

/// Splitting a range at `m` splits its extremum.
proof fn lemma_seq_ext_split(s: Seq<u8>, a: int, m: int, b: int, is_max: bool)
    requires
        a <= m <= b + 1,
    ensures
        seq_ext(s, a, b, is_max) == pick(seq_ext(s, a, m - 1, is_max), seq_ext(s, m, b, is_max), !is_max),
    decreases b - m + 1,
{
    lemma_seq_ext_bounds(s, a, m - 1, is_max);
    lemma_seq_ext_bounds(s, a, b, is_max);
    if b >= m {
        lemma_seq_ext_split(s, a, m, b - 1, is_max);
        lemma_seq_ext_bounds(s, m, b - 1, is_max);
    }
}

/// First index of the length-`k` block holding `j`.
pub open spec fn block_start(j: int, k: int) -> int {
    j - j % k
}

/// Last index of the length-`k` block holding `j`, clipped to `n − 1`.
pub open spec fn block_end(j: int, k: int, n: int) -> int {
    if j - j % k + k - 1 < n - 1 {
        j - j % k + k - 1
    } else {
        n - 1
    }
}

/// Output `i` of the 1-D running extremum of `s` over a centred window of
/// `k` samples: the extremum of `[i − r, i + r]` (`r = k / 2`) clipped to
/// the signal.
pub open spec fn running_ext(s: Seq<u8>, k: int, i: int, is_max: bool) -> int {
    seq_ext(s, window_lo(i, k / 2), window_hi(i, k / 2, s.len() as int) - 1, is_max)
}

/// The running extremum of `s` as a sequence.
pub open spec fn running_ext_seq(s: Seq<u8>, k: int, is_max: bool) -> Seq<u8> {
    Seq::new(s.len(), |i: int| running_ext(s, k, i, is_max) as u8)
}

/// `max(a, b)` when `is_max`, else `min(a, b)`.
fn ext(is_max: bool, a: u8, b: u8) -> (r: u8)
    ensures
        r == pick(a as int, b as int, !is_max),
{
    if is_max {
        if a > b {
            a
        } else {
            b
        }
    } else {
        if a <= b {
            a
        } else {
            b
        }
    }
}

/// Block arithmetic: `j`'s block neighbors.
proof fn lemma_blocks(j: int, k: int)
    requires
        j >= 0,
        k >= 1,
    ensures
        0 <= j % k < k,
        block_start(j, k) <= j,
        block_start(j, k) % k == 0,
        j % k != 0 ==> block_start(j - 1, k) == block_start(j, k),
        j % k != k - 1 ==> block_start(j + 1, k) == block_start(j, k),
        j % k == k - 1 ==> block_start(j + 1, k) == j + 1,
        j < k ==> j % k == j,
{
    vstd::arithmetic::div_mod::lemma_fundamental_div_mod(j, k);
    vstd::arithmetic::div_mod::lemma_mod_pos_bound(j, k);
    let q = j / k;
    assert(k * q == q * k) by (nonlinear_arith);
    assert((q + 1) * k == q * k + k) by (nonlinear_arith);
    if j < k {
        vstd::arithmetic::div_mod::lemma_small_mod(j as nat, k as nat);
    }
    vstd::arithmetic::div_mod::lemma_fundamental_div_mod_converse(j - j % k, k, q, 0);
    if j % k != 0 {
        vstd::arithmetic::div_mod::lemma_fundamental_div_mod_converse(j - 1, k, q, j % k - 1);
    }
    if j % k != k - 1 {
        vstd::arithmetic::div_mod::lemma_fundamental_div_mod_converse(j + 1, k, q, j % k + 1);
    } else {
        vstd::arithmetic::div_mod::lemma_fundamental_div_mod_converse(j + 1, k, q + 1, 0);
    }
}

/// Two indices at most `k − 1` apart in different blocks sit in adjacent
/// blocks.
proof fn lemma_adjacent_blocks(lo: int, hi: int, k: int)
    requires
        0 <= lo <= hi,
        hi - lo <= k - 1,
        k >= 1,
        block_start(hi, k) > lo,
    ensures
        block_start(hi, k) == block_start(lo, k) + k,
{
    vstd::arithmetic::div_mod::lemma_fundamental_div_mod(lo, k);
    vstd::arithmetic::div_mod::lemma_fundamental_div_mod(hi, k);
    vstd::arithmetic::div_mod::lemma_mod_pos_bound(lo, k);
    vstd::arithmetic::div_mod::lemma_mod_pos_bound(hi, k);
    let (ql, qh) = (lo / k, hi / k);
    assert(k * ql <= lo < k * ql + k);
    assert(k * qh <= hi < k * qh + k);
    assert(k * qh > lo);
    assert(qh == ql + 1) by (nonlinear_arith)
        requires
            k * ql <= lo < k * ql + k,
            k * qh <= hi < k * qh + k,
            k * qh > lo,
            hi - lo <= k - 1,
            k >= 1,
    ;
    assert(k * (ql + 1) == k * ql + k) by (nonlinear_arith);
}

/// Two ordered indices share a block, or the later one's block starts past
/// the earlier index.
proof fn lemma_block_cases(lo: int, hi: int, k: int)
    requires
        0 <= lo <= hi,
        k >= 1,
    ensures
        block_start(lo, k) == block_start(hi, k) || block_start(hi, k) > lo,
{
    vstd::arithmetic::div_mod::lemma_fundamental_div_mod(lo, k);
    vstd::arithmetic::div_mod::lemma_fundamental_div_mod(hi, k);
    vstd::arithmetic::div_mod::lemma_mod_pos_bound(lo, k);
    vstd::arithmetic::div_mod::lemma_div_is_ordered(lo, hi, k);
    let (ql, qh) = (lo / k, hi / k);
    if ql != qh {
        assert(k * qh >= k * ql + k) by (nonlinear_arith)
            requires
                qh >= ql + 1,
                k >= 1,
        ;
    }
}

/// 1-D van Herk/Gil-Werman running extremum (maximum when `is_max`, else
/// minimum) over a centered window of `k` samples (`k` odd, at least 3), in
/// O(n) independent of `k`: block-scoped prefix and suffix extrema give any
/// window as `ext(suffix[lo], prefix[hi])`, or as one of the two alone when
/// the window, clipped at a border, lies inside a single block. Every
/// output is the extremum of exactly the clipped window (see
/// [`running_ext`]).
pub fn running_extremum_1d(src: &[u8], k: usize, is_max: bool) -> (r: Vec<u8>)
    requires
        k >= 3,
        k % 2 == 1,
    ensures
        r@ == running_ext_seq(src@, k as int, is_max),
{
    let n = src.len();
    let r = k / 2;
    let ghost s = src@;
    // Block-scoped prefix extrema.
    let mut pre: Vec<u8> = Vec::new();
    let mut i: usize = 0;
    while i < n
        invariant
            s == src@,
            n == s.len(),
            k >= 3,
            i <= n,
            pre@.len() == i,
            forall|j: int| 0 <= j < i ==> #[trigger] pre@[j] == seq_ext(s, block_start(j, k as int), j, is_max),
        decreases n - i,
    {
        proof {
            lemma_blocks(i as int, k as int);
            lemma_seq_ext_bounds(s, i as int, i as int - 1, is_max);
        }
        let v = if i % k == 0 {
            src[i]
        } else {
            ext(is_max, pre[i - 1], src[i])
        };
        pre.push(v);
        i += 1;
    }
    // Block-scoped suffix extrema, filled from the end.
    let mut suf: Vec<u8> = vec![0u8; n];
    let mut i: usize = n;
    while i > 0
        invariant
            s == src@,
            n == s.len(),
            k >= 3,
            i <= n,
            suf@.len() == n,
            forall|j: int|
                i <= j < n ==> #[trigger] suf@[j] == seq_ext(s, j, block_end(j, k as int, n as int), is_max),
        decreases i,
    {
        i -= 1;
        proof {
            lemma_blocks(i as int, k as int);
            lemma_seq_ext_bounds(s, i + 1, block_end(i + 1, k as int, n as int), is_max);
            assert(seq_ext(s, i as int, i - 1, is_max) == pick_identity(!is_max));
            lemma_seq_ext_bounds(s, i as int, i as int, is_max);
            if !(i % k == k - 1 || i == n - 1) {
                lemma_seq_ext_split(s, i as int, i + 1, block_end(i as int, k as int, n as int), is_max);
                assert(block_end(i + 1, k as int, n as int) == block_end(i as int, k as int, n as int));
            } else {
                assert(block_end(i as int, k as int, n as int) == i);
            }
        }
        let v = if i % k == k - 1 || i == n - 1 {
            src[i]
        } else {
            ext(is_max, suf[i + 1], src[i])
        };
        suf.set(i, v);
    }
    // Window extrema.
    let mut out: Vec<u8> = Vec::new();
    let mut i: usize = 0;
    while i < n
        invariant
            s == src@,
            n == s.len(),
            k >= 3,
            k % 2 == 1,
            r == k / 2,
            i <= n,
            pre@.len() == n,
            suf@.len() == n,
            forall|j: int| 0 <= j < n ==> #[trigger] pre@[j] == seq_ext(s, block_start(j, k as int), j, is_max),
            forall|j: int|
                0 <= j < n ==> #[trigger] suf@[j] == seq_ext(s, j, block_end(j, k as int, n as int), is_max),
            out@.len() == i,
            forall|j: int| 0 <= j < i ==> #[trigger] out@[j] == running_ext(s, k as int, j, is_max) as u8,
        decreases n - i,
    {
        let lo = if i >= r {
            i - r
        } else {
            0
        };
        let hi = if r < n - 1 - i {
            i + r
        } else {
            n - 1
        };
        proof {
            lemma_blocks(lo as int, k as int);
            lemma_blocks(hi as int, k as int);
            lemma_block_cases(lo as int, hi as int, k as int);
        }
        let v = if lo % k == 0 {
            pre[hi]
        } else if lo - lo % k == hi - hi % k {
            suf[lo]
        } else {
            ext(is_max, suf[lo], pre[hi])
        };
        proof {
            let (li, hi_) = (lo as int, hi as int);
            let kk = k as int;
            let ni = n as int;
            let bs = block_start(hi_, kk);
            let be = block_end(li, kk, ni);
            assert(li == window_lo(i as int, kk / 2));
            assert(hi_ == window_hi(i as int, kk / 2, ni) - 1);
            if li % kk == 0 {
                // The window starts a block and, being at most `k` long,
                // ends inside it: the prefix extremum is exact.
                vstd::arithmetic::div_mod::lemma_fundamental_div_mod(li, kk);
                assert(kk * (li / kk) == (li / kk) * kk) by (nonlinear_arith);
                vstd::arithmetic::div_mod::lemma_fundamental_div_mod_converse(hi_, kk, li / kk, hi_ - li);
                assert(bs == li);
            } else if block_start(li, kk) == bs {
                // A window inside one block that does not start it was
                // clipped at the right border: the suffix extremum is exact.
                vstd::arithmetic::div_mod::lemma_mod_pos_bound(hi_, kk);
                assert(hi_ == ni - 1);
                assert(be == hi_);
            } else {
                lemma_adjacent_blocks(li, hi_, kk);
                assert(be == bs - 1);
                lemma_seq_ext_split(s, li, bs, hi_, is_max);
            }
        }
        out.push(v);
        i += 1;
    }
    proof {
        assert(out@ =~= running_ext_seq(s, k as int, is_max));
    }
    out
}

/// Row `y` of a tightly packed `w`-wide plane.
pub open spec fn plane_row(p: Seq<u8>, w: int, y: int) -> Seq<u8> {
    p.subrange(y * w, y * w + w)
}

/// Column `x` of a tightly packed `w × h` plane.
pub open spec fn plane_column(p: Seq<u8>, w: int, h: int, x: int) -> Seq<u8> {
    Seq::new(h as nat, |y: int| p[y * w + x])
}

/// Horizontal pass: every row's running extremum.
pub open spec fn morph_rows(p: Seq<u8>, w: int, h: int, k: int, is_max: bool) -> Seq<u8> {
    Seq::new((w * h) as nat, |j: int| running_ext(plane_row(p, w, j / w), k, j % w, is_max) as u8)
}

/// The separable `k × k` rectangular dilation (`is_max`) or erosion of a
/// tightly packed `w × h` plane: the running extremum along every row,
/// then along every column of the result.
pub open spec fn morph_spec(p: Seq<u8>, w: int, h: int, k: int, is_max: bool) -> Seq<u8> {
    let rows = morph_rows(p, w, h, k, is_max);
    Seq::new((w * h) as nat, |j: int| running_ext(plane_column(rows, w, h, j % w), k, j / w, is_max) as u8)
}

/// Separable morphological pass (dilation when `IS_MAX`, erosion otherwise)
/// with a `k × k` rectangular structuring element, exact because rectangle
/// dilation and erosion factor into a horizontal then a vertical 1-D pass,
/// each O(N) regardless of `k`.
///
/// At the image border the window is clipped to the image; it is not
/// widened to the whole touching van Herk block. Every output is therefore
/// the extremum of exactly the clipped `k × k` rectangle (see
/// [`lemma_morph_window`]), which is what keeps the closing of
/// [`background_divide`] above the image at the border as well. A
/// block-widening border would differ from this up to `k` pixels in from
/// each edge.
pub fn morph_rect<const IS_MAX: bool>(src: &[u8], w: usize, h: usize, k: usize, dst: &mut Vec<u8>)
    requires
        k >= 3,
        k % 2 == 1,
        src@.len() == w * h,
        w * h <= usize::MAX,
    ensures
        final(dst)@ == morph_spec(src@, w as int, h as int, k as int, IS_MAX),
{
    dst.clear();
    let ghost p = src@;
    let ghost rows_spec = morph_rows(p, w as int, h as int, k as int, IS_MAX);
    // Horizontal: per-row 1-D pass.
    let mut hpass: Vec<u8> = Vec::new();
    let mut y: usize = 0;
    while y < h
        invariant
            p == src@,
            p.len() == w * h,
            w * h <= usize::MAX,
            k >= 3,
            k % 2 == 1,
            y <= h,
            rows_spec == morph_rows(p, w as int, h as int, k as int, IS_MAX),
            hpass@.len() == y * w,
            forall|j: int| 0 <= j < hpass@.len() ==> #[trigger] hpass@[j] == rows_spec[j],
        decreases h - y,
    {
        proof {
            assert((y + 1) * w == y * w + w) by (nonlinear_arith);
            assert((y + 1) * w <= w * h) by (nonlinear_arith)
                requires
                    y + 1 <= h,
            ;
        }
        let row = running_extremum_1d(&src[y * w..y * w + w], k, IS_MAX);
        let mut x: usize = 0;
        let ghost before = hpass@;
        while x < w
            invariant
                p == src@,
                p.len() == w * h,
                w * h <= usize::MAX,
                y < h,
                (y + 1) * w <= w * h,
                x <= w,
                row@ == running_ext_seq(plane_row(p, w as int, y as int), k as int, IS_MAX),
                rows_spec == morph_rows(p, w as int, h as int, k as int, IS_MAX),
                hpass@.len() == y * w + x,
                forall|j: int| 0 <= j < hpass@.len() ==> #[trigger] hpass@[j] == rows_spec[j],
            decreases w - x,
        {
            proof {
                lemma_grid_slot(x as int, y as int, w as int, h as int);
                assert(w * h == h * w) by (nonlinear_arith);
                assert(0 <= y * w) by (nonlinear_arith);
                assert((y + 1) * w == y * w + w) by (nonlinear_arith);
                assert(plane_row(p, w as int, y as int).len() == w);
                assert(row@[x as int] == rows_spec[y * w + x]);
            }
            let ghost prev = hpass@;
            hpass.push(row[x]);
            proof {
                assert forall|j: int| 0 <= j < hpass@.len() implies #[trigger] hpass@[j] == rows_spec[j] by {
                    if j < prev.len() {
                        assert(hpass@[j] == prev[j]);
                    }
                }
            }
            x += 1;
        }
        y += 1;
    }
    // Vertical: the same running extremum down every column.
    let ghost out_spec = morph_spec(p, w as int, h as int, k as int, IS_MAX);
    let mut result: Vec<u8> = vec![0u8; w * h];
    let mut x: usize = 0;
    proof {
        assert(h * w == w * h) by (nonlinear_arith);
        assert(hpass@ =~= rows_spec);
    }
    while x < w
        invariant
            p == src@,
            p.len() == w * h,
            w * h <= usize::MAX,
            k >= 3,
            k % 2 == 1,
            x <= w,
            hpass@ == rows_spec,
            rows_spec.len() == w * h,
            rows_spec == morph_rows(p, w as int, h as int, k as int, IS_MAX),
            out_spec == morph_spec(p, w as int, h as int, k as int, IS_MAX),
            result@.len() == w * h,
            forall|j: int|
                0 <= j < w * h && j % (w as int) < x ==> #[trigger] result@[j] == out_spec[j],
        decreases w - x,
    {
        let mut column: Vec<u8> = Vec::new();
        let mut y: usize = 0;
        while y < h
            invariant
                p.len() == w * h,
                w * h <= usize::MAX,
                x < w,
                y <= h,
                hpass@ == rows_spec,
                rows_spec.len() == w * h,
                column@.len() == y,
                forall|i: int| 0 <= i < y ==> #[trigger] column@[i] == rows_spec[i * w + x],
            decreases h - y,
        {
            proof {
                lemma_grid_slot(x as int, y as int, w as int, h as int);
                assert(w * h == h * w) by (nonlinear_arith);
            }
            column.push(hpass[y * w + x]);
            y += 1;
        }
        proof {
            assert(column@ =~= plane_column(rows_spec, w as int, h as int, x as int));
        }
        let col = running_extremum_1d(column.as_slice(), k, IS_MAX);
        let mut y: usize = 0;
        while y < h
            invariant
                p.len() == w * h,
                w * h <= usize::MAX,
                x < w,
                y <= h,
                col@ == running_ext_seq(plane_column(rows_spec, w as int, h as int, x as int), k as int, IS_MAX),
                out_spec == morph_spec(p, w as int, h as int, k as int, IS_MAX),
                rows_spec == morph_rows(p, w as int, h as int, k as int, IS_MAX),
                result@.len() == w * h,
                forall|j: int|
                    0 <= j < w * h && (j % (w as int) < x || (j % (w as int) == x && j / (w as int)
                        < y)) ==> #[trigger] result@[j] == out_spec[j],
            decreases h - y,
        {
            proof {
                lemma_grid_slot(x as int, y as int, w as int, h as int);
                assert(w * h == h * w) by (nonlinear_arith);
            }
            let ghost prev = result@;
            result.set(y * w + x, col[y]);
            proof {
                assert(plane_column(rows_spec, w as int, h as int, x as int).len() == h);
                assert(result@[y * w + x] == out_spec[y * w + x]);
                assert forall|j: int|
                    0 <= j < w * h && (j % (w as int) < x || (j % (w as int) == x && j / (w as int)
                        < y + 1)) implies #[trigger] result@[j] == out_spec[j] by {
                    if j != y * w + x {
                        assert(result@[j] == prev[j]);
                        if j % (w as int) == x && j / (w as int) == y {
                            vstd::arithmetic::div_mod::lemma_fundamental_div_mod(j, w as int);
                            assert(w * y == y * w) by (nonlinear_arith);
                        }
                    }
                }
            }
            y += 1;
        }
        proof {
            assert forall|j: int| 0 <= j < w * h implies #[trigger] (j / (w as int)) < h by {
                vstd::arithmetic::div_mod::lemma_fundamental_div_mod(j, w as int);
                vstd::arithmetic::div_mod::lemma_mod_pos_bound(j, w as int);
                assert(j / (w as int) < h) by (nonlinear_arith)
                    requires
                        j == w * (j / (w as int)) + j % (w as int),
                        0 <= j % (w as int),
                        j < w * h,
                        w > 0,
                ;
            }
        }
        x += 1;
    }
    proof {
        assert forall|j: int| 0 <= j < w * h implies #[trigger] result@[j] == out_spec[j] by {
            assert(w > 0) by (nonlinear_arith)
                requires
                    0 <= j < w * h,
            ;
            vstd::arithmetic::div_mod::lemma_mod_pos_bound(j, w as int);
        }
        assert(result@ =~= out_spec);
    }
    *dst = result;
}

/// `x` rounded up to odd (`x | 1`).
pub open spec fn odd_up(x: int) -> int {
    if x % 2 == 1 {
        x
    } else {
        x + 1
    }
}

/// Structuring-element edge actually used for a requested `se_px` on a
/// `w × h` image: clamped to `[3, min(w, h)]`, rounded up to odd, and no
/// wider than `min(w, h) | 1`.
pub open spec fn closing_size(se_px: int, w: int, h: int) -> int {
    let m = if w <= h {
        w
    } else {
        h
    };
    let c = if se_px < 3 {
        3
    } else if se_px > m {
        m
    } else {
        se_px
    };
    if odd_up(c) <= odd_up(m) {
        odd_up(c)
    } else {
        odd_up(m)
    }
}

/// `I · 200 / max(B, 8)`, saturated to a byte.
pub open spec fn divide_value(i: u8, b: u8) -> u8 {
    let d = if b < 8 {
        8
    } else {
        b as int
    };
    let q = i as int * 200 / d;
    if q > 255 {
        255
    } else {
        q as u8
    }
}

/// Background division of `v` with structuring element `se_px`: the image
/// divided by its grayscale closing (dilate then erode, `k × k`), or the
/// image unchanged when its shorter side is under 5 pixels.
pub open spec fn background_divide_spec(v: Gray8View, se_px: int) -> Seq<u8> {
    let (w, h) = (v.w() as int, v.h() as int);
    let flat = v.packed();
    if w < 5 || h < 5 {
        flat
    } else {
        let k = closing_size(se_px, w, h);
        let bg = morph_spec(morph_spec(flat, w, h, k, true), w, h, k, false);
        Seq::new((w * h) as nat, |j: int| divide_value(flat[j], bg[j]))
    }
}

pub(crate) fn odd(x: usize) -> (r: usize)
    ensures
        r == odd_up(x as int),
{
    proof {
        assert((x | 1usize) == if x % 2 == 1 {
            x
        } else {
            (x + 1) as usize
        }) by (bit_vector);
        assert(usize::MAX % 2 == 1) by {
            assert(usize::MAX == 0xffff_ffff || usize::MAX == 0xffff_ffff_ffff_ffff);
        }
    }
    x | 1
}

/// Shadow normalization by background division: the illumination field is
/// estimated by a grayscale morphological closing (dilate then erode with a
/// `k × k` rectangle, `k` derived from `se_px` by [`closing_size`]), and the
/// output is `I · 200 / max(B, 8)` saturated to a byte. The closing is an
/// upper envelope (`B ≥ I` at every pixel, border windows being clipped to
/// the image), so a sample of at least 8 never comes out above 200. A view
/// whose shorter side is under 5 pixels is returned unchanged. Output is
/// tightly packed.
pub fn background_divide(src: &Gray8View, se_px: usize) -> (r: (Vec<u8>, usize, usize))
    requires
        src.wf(),
    ensures
        r.1 == src.w(),
        r.2 == src.h(),
        r.0@ == background_divide_spec(*src, se_px as int),
        src.w() >= 5 && src.h() >= 5 ==> forall|x: int, y: int|
            0 <= x < src.w() && 0 <= y < src.h() && #[trigger] src.pixel(x, y) >= 8 ==> r.0@[y
                * src.w() + x] <= 200,
{
    let w = src.width();
    let h = src.height();
    proof {
        let s = src.s() as int;
        assert(w * h <= s * (h - 1) + w) by (nonlinear_arith)
            requires
                1 <= w <= s,
                1 <= h,
        ;
    }
    let ghost v = *src;
    let ghost f = |x: int, y: int| v.pixel(x, y);
    let mut flat: Vec<u8> = Vec::new();
    let mut y: usize = 0;
    while y < h
        invariant
            v == *src,
            src.wf(),
            w == v.w(),
            h == v.h(),
            w * h <= usize::MAX,
            y <= h,
            f == (|x: int, y: int| v.pixel(x, y)),
            flat@.len() == y * w,
            forall|k: int| 0 <= k < flat@.len() ==> #[trigger] flat@[k] == f(k % w as int, k / w as int),
        decreases h - y,
    {
        let mut x: usize = 0;
        while x < w
            invariant
                v == *src,
                src.wf(),
                w == v.w(),
                h == v.h(),
                w * h <= usize::MAX,
                y < h,
                x <= w,
                f == (|x: int, y: int| v.pixel(x, y)),
                flat@.len() == y * w + x,
                forall|k: int|
                    0 <= k < flat@.len() ==> #[trigger] flat@[k] == f(k % w as int, k / w as int),
            decreases w - x,
        {
            proof {
                crate::kernels::lemma_grid_push(flat@, w as int, h as int, f, x as int, y as int);
            }
            let p = src.get(x, y);
            assert(p == f(x as int, y as int));
            flat.push(p);
            x += 1;
        }
        proof {
            assert((y + 1) * w == y * w + w) by (nonlinear_arith);
        }
        y += 1;
    }
    proof {
        assert(h * w == w * h) by (nonlinear_arith);
        assert(flat@ =~= v.packed());
    }
    let m = if w <= h {
        w
    } else {
        h
    };
    if m < 5 {
        return (flat, w, h);
    }
    let c = if se_px < 3 {
        3
    } else if se_px > m {
        m
    } else {
        se_px
    };
    let (a, b) = (odd(c), odd(m));
    let k = if a <= b {
        a
    } else {
        b
    };
    proof {
        assert(k % 2 == 1);
    }
    let mut dilated: Vec<u8> = Vec::new();
    let mut bg: Vec<u8> = Vec::new();
    morph_rect::<true>(flat.as_slice(), w, h, k, &mut dilated);
    proof {
        assert(dilated@.len() == w * h);
    }
    morph_rect::<false>(dilated.as_slice(), w, h, k, &mut bg);
    let ghost flat0 = flat@;
    let n = flat.len();
    let mut out = flat;
    let mut i: usize = 0;
    while i < n
        invariant
            n == w * h,
            flat0.len() == n,
            bg@.len() == n,
            out@.len() == n,
            i <= n,
            forall|j: int| i <= j < n ==> #[trigger] out@[j] == flat0[j],
            forall|j: int| 0 <= j < i ==> #[trigger] out@[j] == divide_value(flat0[j], bg@[j]),
        decreases n - i,
    {
        let g = bg[i];
        let d: u32 = if g < 8 {
            8
        } else {
            g as u32
        };
        let q = (out[i] as u32 * 200) / d;
        let value: u8 = if q > 255 {
            255
        } else {
            q as u8
        };
        out.set(i, value);
        i += 1;
    }
    proof {
        assert(out@ =~= background_divide_spec(v, se_px as int));
        assert forall|x: int, y: int|
            0 <= x < v.w() && 0 <= y < v.h() && #[trigger] v.pixel(x, y) >= 8 implies out@[y * v.w()
                + x] <= 200 by {
            lemma_background_divide_never_saturates(v, se_px as int, x, y);
        }
    }
    (out, w, h)
}

// ---------------------------------------------------------------------------
// Laws
// ---------------------------------------------------------------------------
/// A maximum is at least, and a minimum at most, every sample it ranges
/// over.
proof fn lemma_seq_ext_covers(s: Seq<u8>, a: int, b: int, is_max: bool, i: int)
    requires
        a <= i <= b,
    ensures
        is_max ==> seq_ext(s, a, b, is_max) >= s[i],
        !is_max ==> seq_ext(s, a, b, is_max) <= s[i],
    decreases b - a + 1,
{
    if i < b {
        lemma_seq_ext_covers(s, a, b - 1, is_max, i);
    }
}

/// A minimum over samples that are all at least `v` is at least `v`.
proof fn lemma_seq_ext_min_floor(s: Seq<u8>, a: int, b: int, v: int)
    requires
        v <= 255,
        forall|i: int| a <= i <= b ==> #[trigger] s[i] >= v,
    ensures
        seq_ext(s, a, b, false) >= v,
    decreases b - a + 1,
{
    if b >= a {
        lemma_seq_ext_min_floor(s, a, b - 1, v);
    }
}

/// The extremum only depends on the samples it ranges over.
proof fn lemma_seq_ext_congruent(s: Seq<u8>, t: Seq<u8>, a: int, b: int, is_max: bool)
    requires
        forall|i: int| a <= i <= b ==> #[trigger] s[i] == t[i],
    ensures
        seq_ext(s, a, b, is_max) == seq_ext(t, a, b, is_max),
    decreases b - a + 1,
{
    if b >= a {
        lemma_seq_ext_congruent(s, t, a, b - 1, is_max);
    }
}

/// The running extremum is a byte.
proof fn lemma_running_ext_bounds(s: Seq<u8>, k: int, i: int, is_max: bool)
    ensures
        0 <= running_ext(s, k, i, is_max) <= 255,
{
    lemma_seq_ext_bounds(s, window_lo(i, k / 2), window_hi(i, k / 2, s.len() as int) - 1, is_max);
}

/// The running extremum at `i` is at least (maximum) or at most (minimum)
/// every sample within `k / 2` of `i`.
proof fn lemma_running_extremum_covers(s: Seq<u8>, k: int, i: int, j: int, is_max: bool)
    requires
        0 <= i < s.len(),
        0 <= j < s.len(),
        i - k / 2 <= j <= i + k / 2,
    ensures
        is_max ==> running_ext(s, k, i, is_max) >= s[j],
        !is_max ==> running_ext(s, k, i, is_max) <= s[j],
{
    lemma_seq_ext_covers(s, window_lo(i, k / 2), window_hi(i, k / 2, s.len() as int) - 1, is_max, j);
}

/// Extremum of the window `[x0, x1] × [y0, y1]` of a tightly packed
/// `w × h` plane: of each row's extremum over `[x0, x1]`, over the rows.
pub open spec fn window_ext(p: Seq<u8>, w: int, h: int, x0: int, x1: int, y0: int, y1: int, is_max: bool) -> int {
    seq_ext(Seq::new(h as nat, |yy: int| seq_ext(plane_row(p, w, yy), x0, x1, is_max) as u8), y0, y1, is_max)
}

/// The row pass of a plane, read at `(x, y)`.
proof fn lemma_rows_at(p: Seq<u8>, w: int, h: int, k: int, is_max: bool, x: int, y: int)
    requires
        p.len() == w * h,
        0 <= x < w,
        0 <= y < h,
    ensures
        0 <= y * w + x < w * h,
        morph_rows(p, w, h, k, is_max)[y * w + x] == running_ext(plane_row(p, w, y), k, x, is_max) as u8,
        plane_row(p, w, y).len() == w,
        plane_row(p, w, y)[x] == p[y * w + x],
{
    lemma_grid_slot(x, y, w, h);
    lemma_grid_slot(0, y, w, h);
    assert(h * w == w * h) by (nonlinear_arith);
    assert(y * w + w <= w * h) by (nonlinear_arith)
        requires
            0 <= y < h,
            w >= 1,
    ;
}

/// The separable `k × k` pass at `(x, y)` is the extremum of the centred
/// `k × k` window clipped to the plane.
pub proof fn lemma_morph_window(p: Seq<u8>, w: int, h: int, k: int, is_max: bool, x: int, y: int)
    requires
        p.len() == w * h,
        0 <= x < w,
        0 <= y < h,
    ensures
        0 <= y * w + x < w * h,
        morph_spec(p, w, h, k, is_max)[y * w + x] == window_ext(
            p,
            w,
            h,
            window_lo(x, k / 2),
            window_hi(x, k / 2, w) - 1,
            window_lo(y, k / 2),
            window_hi(y, k / 2, h) - 1,
            is_max,
        ),
{
    let r = k / 2;
    let (x0, x1) = (window_lo(x, r), window_hi(x, r, w) - 1);
    let (y0, y1) = (window_lo(y, r), window_hi(y, r, h) - 1);
    let rows = morph_rows(p, w, h, k, is_max);
    let col = plane_column(rows, w, h, x);
    let target = Seq::new(h as nat, |yy: int| seq_ext(plane_row(p, w, yy), x0, x1, is_max) as u8);
    lemma_grid_slot(x, y, w, h);
    assert(h * w == w * h) by (nonlinear_arith);
    lemma_seq_ext_bounds(col, y0, y1, is_max);
    assert forall|yy: int| y0 <= yy <= y1 implies #[trigger] col[yy] == target[yy] by {
        lemma_rows_at(p, w, h, k, is_max, x, yy);
        lemma_seq_ext_bounds(plane_row(p, w, yy), x0, x1, is_max);
    }
    lemma_seq_ext_congruent(col, target, y0, y1, is_max);
    assert(morph_spec(p, w, h, k, is_max)[y * w + x] == running_ext(col, k, y, is_max) as u8);
}

/// A grayscale closing (dilation then erosion with the same `k × k`
/// rectangle) never falls below the image: every dilated sample within the
/// erosion window already covers the pixel.
pub proof fn lemma_closing_covers(p: Seq<u8>, w: int, h: int, k: int, x: int, y: int)
    requires
        p.len() == w * h,
        0 <= x < w,
        0 <= y < h,
    ensures
        0 <= y * w + x < w * h,
        morph_spec(morph_spec(p, w, h, k, true), w, h, k, false)[y * w + x] >= p[y * w + x],
{
    let r = k / 2;
    let (x0, x1) = (window_lo(x, r), window_hi(x, r, w) - 1);
    let (y0, y1) = (window_lo(y, r), window_hi(y, r, h) - 1);
    let v = p[y * w + x] as int;
    let d = morph_spec(p, w, h, k, true);
    let rows_p = morph_rows(p, w, h, k, true);
    lemma_grid_slot(x, y, w, h);
    assert(h * w == w * h) by (nonlinear_arith);
    lemma_morph_window(d, w, h, k, false, x, y);
    // Every dilated sample within the clipped window covers the pixel.
    assert forall|qx: int, qy: int|
        x0 <= qx <= x1 && y0 <= qy <= y1 implies #[trigger] d[qy * w + qx] >= v by {
        lemma_grid_slot(qx, qy, w, h);
        let col = plane_column(rows_p, w, h, qx);
        assert(col.len() == h);
        lemma_running_extremum_covers(col, k, qy, y, true);
        lemma_running_ext_bounds(col, k, qy, true);
        lemma_rows_at(p, w, h, k, true, qx, y);
        lemma_running_extremum_covers(plane_row(p, w, y), k, qx, x, true);
        lemma_running_ext_bounds(plane_row(p, w, y), k, qx, true);
        lemma_rows_at(p, w, h, k, true, x, y);
        assert(running_ext(plane_row(p, w, y), k, qx, true) >= p[y * w + x]);
        assert(col[y] == rows_p[y * w + qx]);
        assert(col[y] >= v);
        assert(d[qy * w + qx] == running_ext(col, k, qy, true) as u8);
    }
    let target = Seq::new(h as nat, |yy: int| seq_ext(plane_row(d, w, yy), x0, x1, false) as u8);
    assert forall|yy: int| y0 <= yy <= y1 implies #[trigger] target[yy] >= v by {
        lemma_rows_at(d, w, h, k, false, x, yy);
        assert forall|xx: int| x0 <= xx <= x1 implies #[trigger] plane_row(d, w, yy)[xx] >= v by {
            lemma_rows_at(d, w, h, k, false, xx, yy);
            assert(d[yy * w + xx] >= v);
        }
        lemma_seq_ext_min_floor(plane_row(d, w, yy), x0, x1, v);
        lemma_seq_ext_bounds(plane_row(d, w, yy), x0, x1, false);
    }
    lemma_seq_ext_min_floor(target, y0, y1, v);
}

/// Background division never saturates: wherever the image is at least 5
/// pixels on each side, a source sample of at least 8 is normalized to at
/// most 200, because the closing envelope is never below the image.
pub proof fn lemma_background_divide_never_saturates(v: Gray8View, se_px: int, x: int, y: int)
    requires
        v.wf(),
        v.w() >= 5,
        v.h() >= 5,
        0 <= x < v.w(),
        0 <= y < v.h(),
        v.pixel(x, y) >= 8,
    ensures
        background_divide_spec(v, se_px)[y * v.w() + x] <= 200,
{
    let (w, h) = (v.w() as int, v.h() as int);
    let k = closing_size(se_px, w, h);
    let flat = v.packed();
    lemma_grid_slot(x, y, w, h);
    assert(h * w == w * h) by (nonlinear_arith);
    assert(flat[y * w + x] == v.pixel(x, y));
    lemma_closing_covers(flat, w, h, k, x, y);
    let bg = morph_spec(morph_spec(flat, w, h, k, true), w, h, k, false);
    let i = flat[y * w + x] as int;
    let b = bg[y * w + x] as int;
    assert(i * 200 / b <= 200) by (nonlinear_arith)
        requires
            8 <= i <= b,
    ;
}

} // verus!
