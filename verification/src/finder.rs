//! 1:1:3:1:1 run-length pattern matching over thresholded pixel rows: the
//! integer core of finder-pattern detection.
use crate::image::Gray8View;
use crate::tile_threshold::tile_count;
use crate::tiles::{TileGrid, TILE};
use vstd::prelude::*;

verus! {

/// One maximal run of equal "is dark" samples.
#[derive(Clone, Copy, Debug, PartialEq, Eq, Structural)]
pub struct Run {
    /// Whether the run is dark.
    pub dark: bool,
    /// Source coordinate of the run's first sample.
    pub start: usize,
    /// Number of samples in the run.
    pub len: usize,
}

/// A 5-run window that satisfies [`pattern_fits`], in source coordinates.
#[derive(Clone, Copy, Debug, PartialEq, Eq, Structural)]
pub struct RunWindow {
    /// First sample of the window.
    pub start: usize,
    /// One past the last sample of the window.
    pub end: usize,
    /// First sample of the middle run.
    pub middle_start: usize,
    /// Length of the middle run.
    pub middle_len: usize,
    /// Total length of the five runs (seven modules).
    pub total: usize,
    /// `true` when the middle run is light (an inverted finder).
    pub inverted: bool,
}

/// `|a − b|`.
pub open spec fn abs_diff(a: int, b: int) -> int {
    if a >= b {
        a - b
    } else {
        b - a
    }
}

/// The 1:1:3:1:1 rule with module `u = total / 7`: every outer run within
/// `u / 2` of `u`, the middle run within `3u / 2` of `3u`, every run at least
/// one sample, and `total ≥ 7`; written over integers as
/// `|14·r − 2·total| < total` and `|14·r − 6·total| < 3·total`.
pub open spec fn spec_pattern_fits(runs: Seq<int>) -> bool {
    let t = runs[0] + runs[1] + runs[2] + runs[3] + runs[4];
    &&& t >= 7
    &&& abs_diff(14 * runs[0], 2 * t) < t
    &&& abs_diff(14 * runs[1], 2 * t) < t
    &&& abs_diff(14 * runs[2], 6 * t) < 3 * t
    &&& abs_diff(14 * runs[3], 2 * t) < t
    &&& abs_diff(14 * runs[4], 2 * t) < t
    &&& runs[0] >= 1 && runs[1] >= 1 && runs[2] >= 1 && runs[3] >= 1 && runs[4] >= 1
}

/// Whether five run lengths form a finder cross-section (see
/// [`spec_pattern_fits`]).
pub fn pattern_fits(runs: [usize; 5]) -> (r: bool)
    requires
        runs[0] + runs[1] + runs[2] + runs[3] + runs[4] <= usize::MAX / 16,
    ensures
        r == spec_pattern_fits(
            seq![runs[0] as int, runs[1] as int, runs[2] as int, runs[3] as int, runs[4] as int],
        ),
{
    let t = runs[0] + runs[1] + runs[2] + runs[3] + runs[4];
    if t < 7 {
        return false;
    }
    let outer_ok = |r: usize| -> (b: bool)
        requires
            r <= t,
            t <= usize::MAX / 16,
        ensures
            b == (abs_diff(14 * r, 2 * t) < t),
        {
            let a = 14 * r;
            let b = 2 * t;
            let d = if a >= b {
                a - b
            } else {
                b - a
            };
            d < t
        };
    let a2 = 14 * runs[2];
    let b2 = 6 * t;
    let d2 = if a2 >= b2 {
        a2 - b2
    } else {
        b2 - a2
    };
    outer_ok(runs[0]) && outer_ok(runs[1]) && d2 < 3 * t && outer_ok(runs[3]) && outer_ok(runs[4])
        && runs[0] >= 1 && runs[1] >= 1 && runs[2] >= 1 && runs[3] >= 1 && runs[4] >= 1
}

/// Run-length encoding of `bits`, whose first sample sits at source
/// coordinate `offset`.
pub open spec fn runs_of(bits: Seq<bool>, offset: int) -> Seq<Run>
    decreases bits.len(),
{
    if bits.len() == 0 {
        Seq::empty()
    } else {
        let prev = runs_of(bits.drop_last(), offset);
        let v = bits.last();
        if prev.len() > 0 && prev.last().dark == v {
            prev.update(prev.len() - 1, Run { dark: v, start: prev.last().start, len: (prev.last().len + 1) as usize })
        } else {
            prev.push(Run { dark: v, start: (offset + bits.len() - 1) as usize, len: 1 })
        }
    }
}

/// The runs of `bits` cover it: run lengths sum to at most its length and
/// every run ends inside it.
proof fn lemma_runs_cover(bits: Seq<bool>, offset: int)
    requires
        offset >= 0,
        offset + bits.len() <= usize::MAX,
    ensures
        forall|k: int|
            0 <= k < runs_of(bits, offset).len() ==> {
                &&& #[trigger] runs_of(bits, offset)[k].len >= 1
                &&& runs_of(bits, offset)[k].start >= offset
                &&& runs_of(bits, offset)[k].start + runs_of(bits, offset)[k].len <= offset + bits.len()
            },
        runs_of(bits, offset).len() <= bits.len(),
        bits.len() > 0 ==> runs_of(bits, offset).len() > 0 && runs_of(bits, offset).last().start
            + runs_of(bits, offset).last().len == offset + bits.len(),
    decreases bits.len(),
{
    if bits.len() > 0 {
        lemma_runs_cover(bits.drop_last(), offset);
    }
}

/// The window of runs `[i, i + 5)` as a [`RunWindow`].
pub open spec fn window_at(runs: Seq<Run>, i: int) -> RunWindow {
    RunWindow {
        start: runs[i].start,
        end: (runs[i + 4].start + runs[i + 4].len) as usize,
        middle_start: runs[i + 2].start,
        middle_len: runs[i + 2].len,
        total: (runs[i].len + runs[i + 1].len + runs[i + 2].len + runs[i + 3].len + runs[i
            + 4].len) as usize,
        inverted: !runs[i + 2].dark,
    }
}

/// Whether the window of runs `[i, i + 5)` fits the finder pattern.
pub open spec fn window_fits(runs: Seq<Run>, i: int) -> bool {
    spec_pattern_fits(
        seq![
            runs[i].len as int,
            runs[i + 1].len as int,
            runs[i + 2].len as int,
            runs[i + 3].len as int,
            runs[i + 4].len as int,
        ],
    )
}

/// The fitting windows among the first `n` window positions, in order.
pub open spec fn fitting_windows(runs: Seq<Run>, n: int) -> Seq<RunWindow>
    decreases n,
{
    if n <= 0 {
        Seq::empty()
    } else if window_fits(runs, n - 1) {
        fitting_windows(runs, n - 1).push(window_at(runs, n - 1))
    } else {
        fitting_windows(runs, n - 1)
    }
}

/// Every 5-run window of `bits` (first sample at `offset`) that fits the
/// finder pattern, in source order: windows advance run by run, so
/// overlapping windows (two finders sharing a light gap) both fire.
pub open spec fn spec_match_row(bits: Seq<bool>, offset: int) -> Seq<RunWindow> {
    let runs = runs_of(bits, offset);
    if runs.len() < 5 {
        Seq::empty()
    } else {
        fitting_windows(runs, runs.len() - 4)
    }
}

/// Run-length encode `bits` (first sample at source coordinate `offset`).
pub fn run_lengths(bits: &[bool], offset: usize) -> (r: Vec<Run>)
    requires
        offset + bits@.len() <= usize::MAX,
    ensures
        r@ == runs_of(bits@, offset as int),
{
    let mut runs: Vec<Run> = Vec::new();
    let mut x: usize = 0;
    while x < bits.len()
        invariant
            x <= bits@.len(),
            offset + bits@.len() <= usize::MAX,
            runs@ == runs_of(bits@.subrange(0, x as int), offset as int),
        decreases bits@.len() - x,
    {
        let v = bits[x];
        let ghost prefix = bits@.subrange(0, x as int);
        proof {
            lemma_runs_cover(prefix, offset as int);
            assert(bits@.subrange(0, x + 1).drop_last() =~= prefix);
        }
        let n = runs.len();
        if n > 0 && runs[n - 1].dark == v {
            let last = runs[n - 1];
            runs.set(n - 1, Run { dark: v, start: last.start, len: last.len + 1 });
        } else {
            runs.push(Run { dark: v, start: offset + x, len: 1 });
        }
        x += 1;
    }
    proof {
        assert(bits@.subrange(0, bits@.len() as int) =~= bits@);
    }
    runs
}

/// Scan a thresholded span (`true` = dark) whose first sample is at source
/// coordinate `x_offset` for finder cross-sections in either polarity.
pub fn match_row_at(bits: &[bool], x_offset: usize) -> (r: Vec<RunWindow>)
    requires
        x_offset + bits@.len() <= usize::MAX / 16,
    ensures
        r@ == spec_match_row(bits@, x_offset as int),
{
    let runs = run_lengths(bits, x_offset);
    proof {
        lemma_runs_cover(bits@, x_offset as int);
    }
    let mut out: Vec<RunWindow> = Vec::new();
    if runs.len() < 5 {
        return out;
    }
    let count = runs.len() - 4;
    let mut i: usize = 0;
    while i < count
        invariant
            runs@ == runs_of(bits@, x_offset as int),
            count == runs@.len() - 4,
            runs@.len() >= 5,
            runs@.len() <= bits@.len(),
            i <= count,
            x_offset + bits@.len() <= usize::MAX / 16,
            forall|k: int|
                0 <= k < runs@.len() ==> {
                    &&& #[trigger] runs@[k].len >= 1
                    &&& runs@[k].start >= x_offset
                    &&& runs@[k].start + runs@[k].len <= x_offset + bits@.len()
                },
            out@ == fitting_windows(runs@, i as int),
        decreases count - i,
    {
        let (r0, r1, r2, r3, r4) = (runs[i], runs[i + 1], runs[i + 2], runs[i + 3], runs[i + 4]);
        proof {
            lemma_runs_disjoint(bits@, x_offset as int, i as int);
        }
        let lens = [r0.len, r1.len, r2.len, r3.len, r4.len];
        if pattern_fits(lens) {
            out.push(
                RunWindow {
                    start: r0.start,
                    end: r4.start + r4.len,
                    middle_start: r2.start,
                    middle_len: r2.len,
                    total: r0.len + r1.len + r2.len + r3.len + r4.len,
                    inverted: !r2.dark,
                },
            );
        }
        proof {
            assert(lens@ =~= seq![r0.len, r1.len, r2.len, r3.len, r4.len]);
        }
        i += 1;
    }
    out
}

/// Consecutive runs are adjacent, so five consecutive runs span at most the
/// whole input.
proof fn lemma_runs_disjoint(bits: Seq<bool>, offset: int, i: int)
    requires
        offset >= 0,
        offset + bits.len() <= usize::MAX,
        0 <= i,
        i + 5 <= runs_of(bits, offset).len(),
    ensures
        runs_of(bits, offset)[i].len + runs_of(bits, offset)[i + 1].len + runs_of(bits, offset)[i
            + 2].len + runs_of(bits, offset)[i + 3].len + runs_of(bits, offset)[i + 4].len
            <= bits.len(),
{
    lemma_runs_adjacent(bits, offset);
    lemma_runs_cover(bits, offset);
    let runs = runs_of(bits, offset);
    assert(runs[i + 1].start == runs[i].start + runs[i].len);
    assert(runs[i + 2].start == runs[i + 1].start + runs[i + 1].len);
    assert(runs[i + 3].start == runs[i + 2].start + runs[i + 2].len);
    assert(runs[i + 4].start == runs[i + 3].start + runs[i + 3].len);
}

/// Each run starts where the previous one ends.
proof fn lemma_runs_adjacent(bits: Seq<bool>, offset: int)
    requires
        offset >= 0,
        offset + bits.len() <= usize::MAX,
    ensures
        forall|k: int|
            0 < k < runs_of(bits, offset).len() ==> #[trigger] runs_of(bits, offset)[k].start
                == runs_of(bits, offset)[k - 1].start + runs_of(bits, offset)[k - 1].len,
        runs_of(bits, offset).len() > 0 ==> runs_of(bits, offset)[0].start == offset,
    decreases bits.len(),
{
    if bits.len() > 0 {
        lemma_runs_adjacent(bits.drop_last(), offset);
        lemma_runs_cover(bits.drop_last(), offset);
        let prev = runs_of(bits.drop_last(), offset);
        let cur = runs_of(bits, offset);
        assert forall|k: int| 0 < k < cur.len() implies #[trigger] cur[k].start == cur[k - 1].start
            + cur[k - 1].len by {
            if k < prev.len() {
                assert(cur[k - 1] == prev[k - 1]);
            }
        }
    }
}

/// Fill `dark[i]` with `row[x0 + i] < threshold` of the tile holding pixel
/// `(x0 + i, y)`, one threshold lookup per tile.
pub fn binarize_row_span(
    row: &[u8],
    grid: &TileGrid,
    y: usize,
    span_x0: usize,
    span_x1: usize,
    dark: &mut [bool],
)
    requires
        grid.wf(),
        span_x0 <= span_x1 <= row@.len(),
        old(dark)@.len() == span_x1 - span_x0,
        span_x1 <= TILE * grid.columns(),
        (y as int) / (TILE as int) < grid.rows(),
    ensures
        final(dark)@.len() == old(dark)@.len(),
        forall|i: int|
            0 <= i < final(dark)@.len() ==> #[trigger] final(dark)@[i] == (row@[span_x0 + i]
                < grid.surface().threshold_seq()[grid.surface().tile_index(span_x0 + i, y as int)]),
{
    let ghost n = dark@.len();
    let tx_end = span_x1 / TILE + if span_x1 % TILE != 0 {
        1
    } else {
        0
    };
    let mut tx = span_x0 / TILE;
    proof {
        vstd::arithmetic::div_mod::lemma_fundamental_div_mod(span_x0 as int, TILE as int);
        vstd::arithmetic::div_mod::lemma_fundamental_div_mod(span_x1 as int, TILE as int);
    }
    while tx < tx_end
        invariant
            grid.wf(),
            span_x0 <= span_x1 <= row@.len(),
            dark@.len() == n,
            n == span_x1 - span_x0,
            span_x1 <= TILE * grid.columns(),
            (y as int) / (TILE as int) < grid.rows(),
            tx_end == span_x1 / TILE + if span_x1 % TILE != 0 {
                1int
            } else {
                0int
            },
            span_x1 == TILE * (span_x1 / TILE) + span_x1 % TILE,
            tx * TILE <= span_x0 || tx <= tx_end,
            forall|i: int|
                0 <= i < n && span_x0 + i < tx * TILE ==> #[trigger] dark@[i] == (row@[span_x0 + i]
                    < grid.surface().threshold_seq()[grid.surface().tile_index(span_x0 + i, y as int)]),
        decreases tx_end - tx,
    {
        proof {
            assert(tx * 16 < span_x1) by (nonlinear_arith)
                requires
                    tx < tx_end,
                    tx_end == span_x1 / 16 + if span_x1 % 16 != 0 {
                        1int
                    } else {
                        0int
                    },
                    span_x1 == 16 * (span_x1 / 16) + span_x1 % 16,
                    0 <= span_x1 % 16 < 16,
            ;
            assert(tx < grid.columns()) by (nonlinear_arith)
                requires
                    tx * 16 < span_x1,
                    span_x1 <= 16 * grid.columns(),
            ;
            assert((tx * TILE) as int / (TILE as int) == tx) by {
                vstd::arithmetic::div_mod::lemma_div_by_multiple(tx as int, TILE as int);
            }
        }
        let tile_x0 = tx * TILE;
        let tile_x1 = if TILE <= span_x1 - tile_x0 {
            tile_x0 + TILE
        } else {
            span_x1
        };
        let thr = grid.threshold_at(tile_x0, y);
        let mut x = if tile_x0 > span_x0 {
            tile_x0
        } else {
            span_x0
        };
        while x < tile_x1
            invariant
                grid.wf(),
                span_x0 <= span_x1 <= row@.len(),
                dark@.len() == n,
                n == span_x1 - span_x0,
                tile_x0 == tx * TILE,
                (tile_x0 as int) / (TILE as int) == tx,
                tile_x0 < span_x1,
                tile_x1 <= span_x1,
                tile_x1 <= tile_x0 + TILE,
                span_x0 <= x,
                tile_x0 <= x,
                x <= tile_x1 || x == span_x0,
                (y as int) / (TILE as int) < grid.rows(),
                thr == grid.surface().threshold_seq()[grid.surface().tile_index(tile_x0 as int, y as int)],
                forall|i: int|
                    0 <= i < n && (span_x0 + i < tile_x0 || (tile_x0 <= span_x0 + i < x))
                        ==> #[trigger] dark@[i] == (row@[span_x0 + i] < grid.surface().threshold_seq()[grid.surface().tile_index(
                        span_x0 + i,
                        y as int,
                    )]),
            decreases tile_x1 - x,
        {
            proof {
                assert((x as int) / (TILE as int) == tx) by {
                    vstd::arithmetic::div_mod::lemma_fundamental_div_mod_converse(
                        x as int,
                        TILE as int,
                        tx as int,
                        x - tile_x0,
                    );
                }
            }
            let value = row[x] < thr;
            dark[x - span_x0] = value;
            x += 1;
        }
        proof {
            assert((tx + 1) * TILE == tile_x0 + TILE) by (nonlinear_arith)
                requires
                    tile_x0 == tx * TILE,
            ;
            if tile_x1 < tile_x0 + TILE {
                assert(tile_x1 == span_x1);
            }
        }
        tx += 1;
    }
    proof {
        assert(tx * TILE >= span_x1) by (nonlinear_arith)
            requires
                tx >= tx_end,
                tx_end == span_x1 / 16 + if span_x1 % 16 != 0 {
                    1int
                } else {
                    0int
                },
                span_x1 == 16 * (span_x1 / 16) + span_x1 % 16,
                0 <= span_x1 % 16 < 16,
        ;
    }
}

// ---------------------------------------------------------------------------
// Row spans worth scanning
// ---------------------------------------------------------------------------
/// Skip flags of the tile row holding pixel row `y`, one per tile column.
pub open spec fn skip_row(g: TileGrid, y: int) -> Seq<bool> {
    Seq::new(g.columns(), |tx: int| g.surface().skip_seq()[(y / TILE as int) * g.columns() + tx])
}

/// Number of skipped tiles among the first `n`.
pub open spec fn count_skipped(flags: Seq<bool>, n: int) -> int
    decreases n,
{
    if n <= 0 {
        0
    } else {
        count_skipped(flags, n - 1) + if flags[n - 1] {
            1int
        } else {
            0int
        }
    }
}

/// One past the last tile of the run of non-skipped tiles starting at `t`.
pub open spec fn active_end(flags: Seq<bool>, t: int) -> int
    decreases flags.len() - t,
{
    if t < 0 || t >= flags.len() || flags[t] {
        t
    } else {
        active_end(flags, t + 1)
    }
}

pub proof fn lemma_active_end(flags: Seq<bool>, t: int)
    requires
        0 <= t <= flags.len(),
    ensures
        t <= active_end(flags, t) <= flags.len(),
        t < flags.len() && !flags[t] ==> active_end(flags, t) > t,
        forall|i: int| t <= i < active_end(flags, t) ==> !#[trigger] flags[i],
        active_end(flags, t) < flags.len() ==> flags[active_end(flags, t)],
    decreases flags.len() - t,
{
    if t < flags.len() && !flags[t] {
        lemma_active_end(flags, t + 1);
    }
}

/// Pixel spans `[x0, x1)` of the maximal runs of non-skipped tiles from tile
/// `t` on, clipped to width `w`, keeping only spans of at least 7 pixels
/// (the narrowest finder cross-section).
pub open spec fn active_runs(flags: Seq<bool>, t: int, w: int) -> Seq<(int, int)>
    decreases flags.len() - t,
{
    if t < 0 || t >= flags.len() {
        seq![]
    } else if flags[t] {
        active_runs(flags, t + 1, w)
    } else {
        let e = active_end(flags, t);
        proof {
            lemma_active_end(flags, t);
        }
        let x0 = t * TILE as int;
        let x1 = if e * TILE as int <= w {
            e * TILE as int
        } else {
            w
        };
        if x1 - x0 >= 7 {
            seq![(x0, x1)] + active_runs(flags, e, w)
        } else {
            active_runs(flags, e, w)
        }
    }
}

/// The pixel spans of row `y` that the finder scan binarizes and matches:
/// none when every tile of the row is skipped; the whole row `[0, w)` when
/// fewer than a quarter of its tiles are skipped; otherwise the spans of the
/// maximal runs of non-skipped tiles that are at least 7 pixels wide.
pub open spec fn row_spans(g: TileGrid, y: int, w: int) -> Seq<(int, int)> {
    let flags = skip_row(g, y);
    let skipped = count_skipped(flags, flags.len() as int);
    if skipped == flags.len() {
        seq![]
    } else if skipped * 4 < flags.len() {
        seq![(0int, w)]
    } else {
        active_runs(flags, 0, w)
    }
}

/// `x / TILE` is a tile column of a `w`-pixel-wide grid for `x < w`.
proof fn lemma_tile_column(x: int, w: int)
    requires
        0 <= x < w,
    ensures
        x / (TILE as int) < tile_count(w, TILE as int),
        (x / (TILE as int)) * (TILE as int) <= x,
{
    vstd::arithmetic::div_mod::lemma_fundamental_div_mod(x, TILE as int);
    vstd::arithmetic::div_mod::lemma_fundamental_div_mod(w + TILE - 1, TILE as int);
    vstd::arithmetic::div_mod::lemma_mod_pos_bound(x, TILE as int);
    vstd::arithmetic::div_mod::lemma_mod_pos_bound(w + TILE - 1, TILE as int);
    assert(x / 16 < (w + 15) / 16) by (nonlinear_arith)
        requires
            x == 16 * (x / 16) + x % 16,
            w + 15 == 16 * ((w + 15) / 16) + (w + 15) % 16,
            0 <= x % 16 < 16,
            0 <= (w + 15) % 16 < 16,
            x < w,
    ;
}

/// Whether tile column `tx` of the tile row holding `y` is skipped.
fn tile_skipped(grid: &TileGrid, tx: usize, y: usize) -> (r: bool)
    requires
        grid.wf(),
        tx < grid.columns(),
        (y as int) / (TILE as int) < grid.rows(),
        grid.columns() * TILE <= usize::MAX,
    ensures
        r == skip_row(*grid, y as int)[tx as int],
{
    proof {
        vstd::arithmetic::div_mod::lemma_div_by_multiple(tx as int, TILE as int);
    }
    grid.is_skip(tx * TILE, y)
}

/// The spans of row `y` to scan for finder cross-sections (see
/// [`row_spans`]), for a grid over an image `w` pixels wide.
pub fn active_spans(grid: &TileGrid, y: usize, w: usize) -> (r: Vec<(usize, usize)>)
    requires
        grid.wf(),
        (y as int) / (TILE as int) < grid.rows(),
        w >= 1,
        w + TILE <= usize::MAX,
        grid.columns() == tile_count(w as int, TILE as int),
    ensures
        r@.len() == row_spans(*grid, y as int, w as int).len(),
        forall|j: int|
            0 <= j < r@.len() ==> (#[trigger] r@[j]).0 == row_spans(*grid, y as int, w as int)[j].0
                && r@[j].1 == row_spans(*grid, y as int, w as int)[j].1,
{
    let tiles_x = grid.tile_columns();
    let ghost flags = skip_row(*grid, y as int);
    proof {
        vstd::arithmetic::div_mod::lemma_fundamental_div_mod(w + TILE - 1, TILE as int);
        vstd::arithmetic::div_mod::lemma_mod_pos_bound(w + TILE - 1, TILE as int);
        assert(tiles_x * 16 <= w + 15);
    }
    let mut skipped: usize = 0;
    let mut tx: usize = 0;
    while tx < tiles_x
        invariant
            grid.wf(),
            tiles_x == grid.columns(),
            (y as int) / (TILE as int) < grid.rows(),
            tiles_x * 16 <= w + 15,
            w + TILE <= usize::MAX,
            flags == skip_row(*grid, y as int),
            tx <= tiles_x,
            skipped == count_skipped(flags, tx as int),
            skipped <= tx,
        decreases tiles_x - tx,
    {
        if tile_skipped(grid, tx, y) {
            skipped += 1;
        }
        tx += 1;
    }
    let mut out: Vec<(usize, usize)> = Vec::new();
    if skipped == tiles_x {
        return out;
    }
    if skipped * 4 < tiles_x {
        out.push((0, w));
        return out;
    }
    let mut tx: usize = 0;
    while tx < tiles_x
        invariant
            grid.wf(),
            tiles_x == grid.columns(),
            (y as int) / (TILE as int) < grid.rows(),
            tiles_x * 16 <= w + 15,
            w + TILE <= usize::MAX,
            flags == skip_row(*grid, y as int),
            flags.len() == tiles_x,
            tx <= tiles_x,
            forall|j: int|
                0 <= j < out@.len() ==> (#[trigger] out@[j]).0 == active_runs(flags, 0, w as int)[j].0
                    && out@[j].1 == active_runs(flags, 0, w as int)[j].1,
            out@.len() + active_runs(flags, tx as int, w as int).len() == active_runs(flags, 0, w as int).len(),
            forall|j: int|
                0 <= j < active_runs(flags, tx as int, w as int).len() ==> #[trigger] active_runs(
                    flags,
                    tx as int,
                    w as int,
                )[j] == active_runs(flags, 0, w as int)[out@.len() + j],
        decreases tiles_x - tx,
    {
        let ghost before = tx;
        while tx < tiles_x && tile_skipped(grid, tx, y)
            invariant
                grid.wf(),
                tiles_x == grid.columns(),
                (y as int) / (TILE as int) < grid.rows(),
                tiles_x * 16 <= w + 15,
                flags == skip_row(*grid, y as int),
                flags.len() == tiles_x,
                w + TILE <= usize::MAX,
                before <= tx <= tiles_x,
                active_runs(flags, tx as int, w as int) == active_runs(flags, before as int, w as int),
            decreases tiles_x - tx,
        {
            tx += 1;
        }
        let start_tx = tx;
        proof {
            lemma_active_end(flags, start_tx as int);
        }
        while tx < tiles_x && !tile_skipped(grid, tx, y)
            invariant
                grid.wf(),
                tiles_x == grid.columns(),
                (y as int) / (TILE as int) < grid.rows(),
                tiles_x * 16 <= w + 15,
                flags == skip_row(*grid, y as int),
                flags.len() == tiles_x,
                w + TILE <= usize::MAX,
                start_tx <= tx <= active_end(flags, start_tx as int),
                active_end(flags, start_tx as int) <= tiles_x,
                active_end(flags, start_tx as int) < flags.len() ==> flags[active_end(flags, start_tx as int)],
                forall|i: int| start_tx <= i < active_end(flags, start_tx as int) ==> !#[trigger] flags[i],
            decreases tiles_x - tx,
        {
            tx += 1;
        }
        let x0 = start_tx * TILE;
        let x1 = if tx * TILE <= w {
            tx * TILE
        } else {
            w
        };
        if x1 >= x0 && x1 - x0 >= 7 {
            let ghost prev = out@;
            proof {
                assert(start_tx < tiles_x);
                let total = active_runs(flags, 0, w as int);
                let cur = active_runs(flags, start_tx as int, w as int);
                let rest = active_runs(flags, tx as int, w as int);
                assert(cur == seq![(x0 as int, x1 as int)] + rest);
                assert(cur[0] == (x0 as int, x1 as int));
                assert(total[prev.len() as int] == (x0 as int, x1 as int));
                assert forall|j: int| 0 <= j < rest.len() implies #[trigger] rest[j] == total[prev.len() + 1
                    + j] by {
                    assert(rest[j] == cur[j + 1]);
                }
            }
            out.push((x0, x1));
            proof {
                let total = active_runs(flags, 0, w as int);
                assert forall|j: int| 0 <= j < out@.len() implies (#[trigger] out@[j]).0 == total[j].0
                    && out@[j].1 == total[j].1 by {
                    if j < prev.len() {
                        assert(out@[j] == prev[j]);
                    }
                }
            }
        } else {
            proof {
                if start_tx < tiles_x {
                    assert(active_runs(flags, start_tx as int, w as int) == active_runs(flags, tx as int, w as int));
                }
            }
        }
    }
    proof {
        assert(active_runs(flags, tiles_x as int, w as int).len() == 0);
    }
    out
}

// ---------------------------------------------------------------------------
// Cross-checks through a candidate centre
// ---------------------------------------------------------------------------
/// Thresholded polarity of pixel `(x, y)` of `v` against the tile grid `g`:
/// `Some(true)` when dark (below its tile's threshold), `None` off the image.
pub open spec fn polarity(v: Gray8View, g: TileGrid, x: int, y: int) -> Option<bool> {
    if 0 <= x < v.w() && 0 <= y < v.h() {
        Some(v.pixel(x, y) < g.surface().threshold_seq()[g.surface().tile_index(x, y)])
    } else {
        None
    }
}

/// Length of the run of samples with polarity `target` starting at `(x, y)`
/// and stepping `(dx, dy)`, counting at most `cap` samples.
pub open spec fn run_along(
    v: Gray8View,
    g: TileGrid,
    x: int,
    y: int,
    dx: int,
    dy: int,
    target: bool,
    cap: int,
) -> int
    decreases cap,
{
    if cap <= 0 {
        0
    } else if polarity(v, g, x, y) == Some(target) {
        1 + run_along(v, g, x + dx, y + dy, dx, dy, target, cap - 1)
    } else {
        0
    }
}

/// The first sample after the run measured by [`run_along`].
pub open spec fn walk_end(
    v: Gray8View,
    g: TileGrid,
    x: int,
    y: int,
    dx: int,
    dy: int,
    target: bool,
    cap: int,
) -> (int, int)
    decreases cap,
{
    if cap <= 0 {
        (x, y)
    } else if polarity(v, g, x, y) == Some(target) {
        walk_end(v, g, x + dx, y + dy, dx, dy, target, cap - 1)
    } else {
        (x, y)
    }
}

/// The five-run cross-section through the seed `(x0, y0)` along `(dx, dy)`
/// and the number of middle-run samples behind the seed: the middle run
/// extends from the seed both ways in the seed's polarity; outward from it
/// come a run of the opposite polarity and then one of the seed's, each run
/// capped at `cap` samples. `None` when the seed is off the image.
pub open spec fn cross_section(
    v: Gray8View,
    g: TileGrid,
    x0: int,
    y0: int,
    dx: int,
    dy: int,
    cap: int,
) -> Option<(Seq<int>, int)> {
    match polarity(v, g, x0, y0) {
        None => None,
        Some(c) => {
            let mid_pos = run_along(v, g, x0 + dx, y0 + dy, dx, dy, c, cap);
            let p3 = walk_end(v, g, x0 + dx, y0 + dy, dx, dy, c, cap);
            let run3 = run_along(v, g, p3.0, p3.1, dx, dy, !c, cap);
            let p4 = walk_end(v, g, p3.0, p3.1, dx, dy, !c, cap);
            let run4 = run_along(v, g, p4.0, p4.1, dx, dy, c, cap);
            let mid_neg = run_along(v, g, x0 - dx, y0 - dy, -dx, -dy, c, cap);
            let n1 = walk_end(v, g, x0 - dx, y0 - dy, -dx, -dy, c, cap);
            let run1 = run_along(v, g, n1.0, n1.1, -dx, -dy, !c, cap);
            let n0 = walk_end(v, g, n1.0, n1.1, -dx, -dy, !c, cap);
            let run0 = run_along(v, g, n0.0, n0.1, -dx, -dy, c, cap);
            Some((seq![run0, run1, mid_pos + mid_neg + 1, run3, run4], mid_neg))
        },
    }
}

/// The grid tiles the view: 16-pixel tiles covering its width and height.
pub open spec fn grid_fits(v: Gray8View, g: TileGrid) -> bool {
    &&& v.wf()
    &&& g.wf()
    &&& g.columns() == tile_count(v.w() as int, TILE as int)
    &&& g.rows() == tile_count(v.h() as int, TILE as int)
    &&& v.w() <= usize::MAX / 256
    &&& v.h() <= usize::MAX / 256
}

/// Thresholded polarity of pixel `(x, y)`.
fn sample(view: &Gray8View, grid: &TileGrid, x: isize, y: isize) -> (r: Option<bool>)
    requires
        grid_fits(*view, *grid),
    ensures
        r == polarity(*view, *grid, x as int, y as int),
{
    if x < 0 || y < 0 {
        return None;
    }
    let xu = x as usize;
    let yu = y as usize;
    if xu >= view.width() || yu >= view.height() {
        return None;
    }
    proof {
        lemma_tile_column(xu as int, view.w() as int);
        lemma_tile_column(yu as int, view.h() as int);
    }
    Some(view.get(xu, yu) < grid.threshold_at(xu, yu))
}

/// Walk from `(x, y)` in unit steps `(dx, dy)` while the polarity equals
/// `target`, at most `cap` steps: the run length and the first sample past
/// it.
fn walk_while(
    view: &Gray8View,
    grid: &TileGrid,
    x: isize,
    y: isize,
    dx: isize,
    dy: isize,
    target: bool,
    cap: isize,
) -> (r: (isize, isize, isize))
    requires
        grid_fits(*view, *grid),
        -1 <= x <= view.w(),
        -1 <= y <= view.h(),
        -1 <= dx <= 1,
        -1 <= dy <= 1,
        cap >= 0,
    ensures
        r.0 == run_along(*view, *grid, x as int, y as int, dx as int, dy as int, target, cap as int),
        (r.1 as int, r.2 as int) == walk_end(*view, *grid, x as int, y as int, dx as int, dy as int, target, cap as int),
        0 <= r.0 <= cap,
        -1 <= r.1 <= view.w(),
        -1 <= r.2 <= view.h(),
{
    let ghost (v, g) = (*view, *grid);
    let ghost total = run_along(v, g, x as int, y as int, dx as int, dy as int, target, cap as int);
    let ghost end = walk_end(v, g, x as int, y as int, dx as int, dy as int, target, cap as int);
    let mut n: isize = 0;
    let mut cx = x;
    let mut cy = y;
    let mut going = true;
    while going && n < cap
        invariant
            v == *view,
            g == *grid,
            grid_fits(v, g),
            -1 <= dx <= 1,
            -1 <= dy <= 1,
            0 <= n <= cap,
            -1 <= cx <= v.w(),
            -1 <= cy <= v.h(),
            total == n + run_along(v, g, cx as int, cy as int, dx as int, dy as int, target, cap - n),
            end == walk_end(v, g, cx as int, cy as int, dx as int, dy as int, target, cap - n),
            !going ==> run_along(v, g, cx as int, cy as int, dx as int, dy as int, target, cap - n) == 0
                && walk_end(v, g, cx as int, cy as int, dx as int, dy as int, target, cap - n) == (
                cx as int,
                cy as int,
            ),
        decreases cap - n + if going {
            1int
        } else {
            0int
        },
    {
        match sample(view, grid, cx, cy) {
            Some(c) => {
                if c == target {
                    n += 1;
                    cx += dx;
                    cy += dy;
                } else {
                    going = false;
                }
            },
            None => {
                going = false;
            },
        }
    }
    (n, cx, cy)
}

/// The cross-section of [`cross_section`] on machine integers: the five run
/// lengths and the middle-run samples behind the seed.
fn axis_cross_check(
    view: &Gray8View,
    grid: &TileGrid,
    x0: isize,
    y0: isize,
    dx: isize,
    dy: isize,
    cap: isize,
) -> (r: Option<([usize; 5], usize)>)
    requires
        grid_fits(*view, *grid),
        -1 <= x0 <= view.w(),
        -1 <= y0 <= view.h(),
        -1 <= dx <= 1,
        -1 <= dy <= 1,
        0 <= cap <= view.w() + view.h() + 2,
    ensures
        match (r, cross_section(*view, *grid, x0 as int, y0 as int, dx as int, dy as int, cap as int)) {
            (None, None) => true,
            (Some((runs, back)), Some((spec_runs, spec_back))) => {
                &&& runs@.map_values(|k: usize| k as int) == spec_runs
                &&& back == spec_back
                &&& runs[0] + runs[1] + runs[2] + runs[3] + runs[4] <= 6 * cap + 1
            },
            _ => false,
        },
{
    let center = match sample(view, grid, x0, y0) {
        Some(c) => c,
        None => return None,
    };
    let (mid_pos, p3x, p3y) = walk_while(view, grid, x0 + dx, y0 + dy, dx, dy, center, cap);
    let (run3, p4x, p4y) = walk_while(view, grid, p3x, p3y, dx, dy, !center, cap);
    let (run4, _, _) = walk_while(view, grid, p4x, p4y, dx, dy, center, cap);
    let (mid_neg, n1x, n1y) = walk_while(view, grid, x0 - dx, y0 - dy, -dx, -dy, center, cap);
    let (run1, n0x, n0y) = walk_while(view, grid, n1x, n1y, -dx, -dy, !center, cap);
    let (run0, _, _) = walk_while(view, grid, n0x, n0y, -dx, -dy, center, cap);
    let runs = [run0 as usize, run1 as usize, (mid_pos + mid_neg + 1) as usize, run3 as usize, run4 as usize];
    proof {
        let spec_runs = (cross_section(*view, *grid, x0 as int, y0 as int, dx as int, dy as int, cap as int)->0).0;
        assert(runs@.map_values(|k: usize| k as int) =~= spec_runs);
    }
    Some((runs, mid_neg as usize))
}

/// A vertical run counts only samples inside the image: walking down from
/// row `y` it has at most `h − y` samples, walking up at most `y + 1`.
proof fn lemma_run_along_rows(
    v: Gray8View,
    g: TileGrid,
    x: int,
    y: int,
    dx: int,
    dy: int,
    target: bool,
    cap: int,
)
    requires
        dy == 1 || dy == -1,
    ensures
        dy == 1 && y <= v.h() ==> run_along(v, g, x, y, dx, dy, target, cap) <= v.h() - y,
        dy == -1 && y >= -1 ==> run_along(v, g, x, y, dx, dy, target, cap) <= y + 1,
        run_along(v, g, x, y, dx, dy, target, cap) >= 0,
    decreases cap,
{
    if cap > 0 {
        lemma_run_along_rows(v, g, x + dx, y + dy, dx, dy, target, cap - 1);
    }
}

/// Column of the seed pixel of a row window: the centre of its middle run
/// (`middle_start + middle_len / 2`, the rounded pixel-centre midpoint).
pub open spec fn window_seed(win: RunWindow) -> int {
    win.middle_start + win.middle_len / 2
}

/// Per-run walk cap for a row window: `⌈4 · total / 7⌉` samples (3.5
/// modules from the centre to the outer ring's edge plus slack), at least 1.
pub open spec fn window_cap(win: RunWindow) -> int {
    let c = (4 * win.total + 6) / 7;
    if c < 1 {
        1
    } else {
        c
    }
}

/// The cross-section through `(x, y)` along `(dx, dy)` fits the finder
/// pattern.
pub open spec fn cross_fits(v: Gray8View, g: TileGrid, x: int, y: int, dx: int, dy: int, cap: int) -> bool {
    cross_section(v, g, x, y, dx, dy, cap) matches Some((runs, _)) && spec_pattern_fits(runs)
}

/// Verification of a row window found on row `y`: the vertical
/// cross-section through its seed must fit the finder pattern, and so must
/// one of the two diagonal cross-sections through the vertical centre
/// `y − back + middle / 2`. On success, the vertical run lengths and the
/// middle-run samples above the seed.
pub open spec fn window_check(v: Gray8View, g: TileGrid, win: RunWindow, y: int) -> Option<(Seq<int>, int)> {
    let x0 = window_seed(win);
    let cap = window_cap(win);
    match cross_section(v, g, x0, y, 0, 1, cap) {
        None => None,
        Some((vr, back)) => {
            if !spec_pattern_fits(vr) {
                None
            } else {
                let cy = y - back + vr[2] / 2;
                if cross_fits(v, g, x0, cy, 1, 1, cap) || cross_fits(v, g, x0, cy, 1, -1, cap) {
                    Some((vr, back))
                } else {
                    None
                }
            }
        },
    }
}

/// Whether the cross-section through `(x, y)` along `(dx, dy)` fits.
fn diagonal_fits(view: &Gray8View, grid: &TileGrid, x: isize, y: isize, dx: isize, dy: isize, cap: isize) -> (r: bool)
    requires
        grid_fits(*view, *grid),
        -1 <= x <= view.w(),
        -1 <= y <= view.h(),
        -1 <= dx <= 1,
        -1 <= dy <= 1,
        0 <= cap <= view.w() + view.h() + 2,
    ensures
        r == cross_fits(*view, *grid, x as int, y as int, dx as int, dy as int, cap as int),
{
    match axis_cross_check(view, grid, x, y, dx, dy, cap) {
        Some((runs, _)) => {
            proof {
                assert(view.w() + view.h() <= usize::MAX / 128);
            }
            let r = pattern_fits(runs);
            proof {
                let spec_runs = (cross_section(*view, *grid, x as int, y as int, dx as int, dy as int, cap as int)->0).0;
                assert(seq![runs[0] as int, runs[1] as int, runs[2] as int, runs[3] as int, runs[4] as int] =~= spec_runs);
            }
            r
        },
        None => false,
    }
}

/// Cross-check a row window found on row `y` (see [`window_check`]).
pub fn cross_check_window(view: &Gray8View, grid: &TileGrid, win: RunWindow, y: usize) -> (r: Option<(
    [usize; 5],
    usize,
)>)
    requires
        grid_fits(*view, *grid),
        y < view.h(),
        win.middle_start + win.middle_len <= view.w(),
        win.total <= view.w(),
    ensures
        match (r, window_check(*view, *grid, win, y as int)) {
            (None, None) => true,
            (Some((runs, back)), Some((spec_runs, spec_back))) => runs@.map_values(|k: usize| k as int)
                == spec_runs && back == spec_back,
            _ => false,
        },
{
    let x0 = (win.middle_start + win.middle_len / 2) as isize;
    let c = (4 * win.total + 6) / 7;
    let cap: isize = if c < 1 {
        1
    } else {
        c as isize
    };
    let yi = y as isize;
    let (vr, back) = match axis_cross_check(view, grid, x0, yi, 0, 1, cap) {
        Some(found) => found,
        None => return None,
    };
    proof {
        assert(view.w() + view.h() <= usize::MAX / 128);
        let spec_runs = (cross_section(*view, *grid, x0 as int, y as int, 0, 1, cap as int)->0).0;
        assert(seq![vr[0] as int, vr[1] as int, vr[2] as int, vr[3] as int, vr[4] as int] =~= spec_runs);
    }
    if !pattern_fits(vr) {
        return None;
    }
    proof {
        let c = polarity(*view, *grid, x0 as int, y as int)->0;
        lemma_run_along_rows(*view, *grid, x0 as int, y - 1, 0, -1, c, cap as int);
        lemma_run_along_rows(*view, *grid, x0 as int, y + 1, 0, 1, c, cap as int);
        let below = run_along(*view, *grid, x0 as int, y + 1, 0, 1, c, cap as int);
        assert(vr[2] == below + back + 1);
        assert(back <= y);
        assert(below <= view.h() - y - 1);
    }
    let cy = (y - back + vr[2] / 2) as isize;
    if diagonal_fits(view, grid, x0, cy, 1, 1, cap) || diagonal_fits(view, grid, x0, cy, 1, -1, cap) {
        Some((vr, back))
    } else {
        None
    }
}

/// The 1:1:3:1:1 rule reads the same from either end: a window fits
/// exactly when its mirror image does.
pub proof fn lemma_pattern_fits_mirror(runs: Seq<int>)
    requires
        runs.len() == 5,
    ensures
        spec_pattern_fits(runs) == spec_pattern_fits(seq![runs[4], runs[3], runs[2], runs[1], runs[0]]),
{
}

/// With `t` the window's total (seven modules), a window fits exactly when
/// `t ≥ 7`, each of the four outer runs lies strictly between half a module
/// and one and a half modules (`t/14 < r < 3t/14`), the middle run strictly
/// between one and a half and four and a half modules (`3t/14 < r < 9t/14`),
/// and every run is non-empty. Each outer run is held to this on its own.
pub proof fn lemma_pattern_fits_modules(runs: Seq<int>)
    requires
        runs.len() == 5,
    ensures
        ({
            let t = runs[0] + runs[1] + runs[2] + runs[3] + runs[4];
            spec_pattern_fits(runs) <==> {
                &&& t >= 7
                &&& forall|i: int|
                    0 <= i < 5 && i != 2 ==> t < 14 * #[trigger] runs[i] < 3 * t && runs[i] >= 1
                &&& 3 * t < 14 * runs[2] < 9 * t
                &&& runs[2] >= 1
            }
        }),
{
    let t = runs[0] + runs[1] + runs[2] + runs[3] + runs[4];
    if spec_pattern_fits(runs) {
        assert forall|i: int| 0 <= i < 5 && i != 2 implies t < 14 * #[trigger] runs[i] < 3 * t && runs[i]
            >= 1 by {
            assert(i == 0 || i == 1 || i == 3 || i == 4);
        }
    } else {
        if t >= 7 && (forall|i: int| 0 <= i < 5 && i != 2 ==> t < 14 * #[trigger] runs[i] < 3 * t && runs[i]
            >= 1) && 3 * t < 14 * runs[2] < 9 * t && runs[2] >= 1 {
            assert(t < 14 * runs[0] < 3 * t && runs[0] >= 1);
            assert(t < 14 * runs[1] < 3 * t && runs[1] >= 1);
            assert(t < 14 * runs[3] < 3 * t && runs[3] >= 1);
            assert(t < 14 * runs[4] < 3 * t && runs[4] >= 1);
        }
    }
}

} // verus!
