use qrkit::finder::{active_spans, binarize_row_span, cross_check_window, match_row_at, pattern_fits, RunWindow};
use qrkit::image::Gray8View;
use qrkit::tiles::TileGrid;

fn bits(spec: &[(bool, usize)]) -> Vec<bool> {
    spec.iter().flat_map(|&(v, n)| std::iter::repeat_n(v, n)).collect()
}

fn module(hit: &RunWindow) -> f64 {
    hit.total as f64 / 7.0
}

fn center(hit: &RunWindow) -> f64 {
    hit.middle_start as f64 + hit.middle_len as f64 / 2.0 - 0.5
}

#[test]
fn finder_pattern_fits_accepts_ideal_and_tolerant() {
    assert!(pattern_fits([4, 4, 12, 4, 4]));
    assert!(pattern_fits([3, 4, 13, 4, 5]));
    assert!(!pattern_fits([4, 4, 4, 4, 4]));
    assert!(!pattern_fits([1, 8, 12, 4, 4]));
}

#[test]
fn finder_match_row_finds_dark_finder() {
    let row = bits(&[(false, 10), (true, 4), (false, 4), (true, 12), (false, 4), (true, 4), (false, 10)]);
    let hits = match_row_at(&row, 0);
    assert_eq!(hits.len(), 1);
    let h = &hits[0];
    assert!(!h.inverted);
    assert!((module(h) - 4.0).abs() < 1e-9);
    assert!((center(h) - 23.5).abs() <= 0.5, "center={}", center(h));
}

#[test]
fn finder_match_row_finds_inverted_finder() {
    let row = bits(&[(true, 10), (false, 4), (true, 4), (false, 12), (true, 4), (false, 4), (true, 10)]);
    let hits = match_row_at(&row, 0);
    assert_eq!(hits.len(), 1);
    assert!(hits[0].inverted);
}

#[test]
fn match_row_at_preserves_source_coordinates() {
    let finder = bits(&[(false, 4), (true, 4), (false, 12), (true, 4), (false, 4)]);
    let hits = match_row_at(&finder, 32);
    assert_eq!(hits.len(), 1);
    assert_eq!(hits[0].start, 32);
    assert_eq!(hits[0].end, 60);
    assert!((center(&hits[0]) - 45.5).abs() < f64::EPSILON);
}

#[test]
fn finder_match_row_rejects_noise() {
    let row = bits(&[(false, 3), (true, 2), (false, 9), (true, 1), (false, 5), (true, 7), (false, 2)]);
    assert!(match_row_at(&row, 0).is_empty());
}

#[test]
fn finder_match_row_finds_two_adjacent_finders() {
    let one = [(true, 4), (false, 4), (true, 12), (false, 4), (true, 4)];
    let mut spec = vec![(false, 8)];
    spec.extend_from_slice(&one);
    spec.push((false, 20));
    spec.extend_from_slice(&one);
    spec.push((false, 8));
    let hits = match_row_at(&bits(&spec), 0);
    assert_eq!(hits.len(), 3);
    let normal: Vec<_> = hits.iter().filter(|h| !h.inverted).collect();
    assert_eq!(normal.len(), 2);
}

/// A `w × h` white image with a dark finder pattern of module `m` centred on
/// `(cx, cy)` (inverted colours when `inverted`).
fn finder_image(w: usize, h: usize, cx: usize, cy: usize, m: usize, inverted: bool) -> Vec<u8> {
    let (paper, ink) = if inverted { (0u8, 255u8) } else { (255u8, 0u8) };
    let mut d = vec![paper; w * h];
    let half = 7 * m / 2;
    for y in cy - half..cy - half + 7 * m {
        for x in cx - half..cx - half + 7 * m {
            let ring = ((x + half - cx) / m).min((y + half - cy) / m).min(6 - (x + half - cx) / m).min(6 - (y + half - cy) / m);
            if ring != 1 {
                d[y * w + x] = ink;
            }
        }
    }
    d
}

fn windows_on_row(view: &Gray8View<'_>, grid: &TileGrid, y: usize) -> Vec<RunWindow> {
    let w = view.width();
    let row = view.row(y);
    let mut out = Vec::new();
    for (x0, x1) in active_spans(grid, y, w) {
        let mut dark = vec![false; x1 - x0];
        binarize_row_span(row, grid, y, x0, x1, &mut dark);
        out.extend(match_row_at(&dark, x0));
    }
    out
}

#[test]
fn finder_cross_check_confirms_a_synthetic_finder() {
    for inverted in [false, true] {
        let d = finder_image(64, 64, 32, 32, 4, inverted);
        let view = Gray8View::new(&d, 64, 64, 64).unwrap();
        let grid = TileGrid::build(&view);
        let windows = windows_on_row(&view, &grid, 32);
        assert_eq!(windows.len(), 1);
        let win = windows[0];
        assert_eq!((win.start, win.end, win.middle_start, win.middle_len, win.total), (18, 46, 26, 12, 28));
        assert_eq!(win.inverted, inverted);
        // Vertical runs through the seed column 32: 4·1:1:3:1:1, six core
        // samples above row 32.
        assert_eq!(cross_check_window(&view, &grid, win, 32), Some(([4, 4, 12, 4, 4], 6)));
    }
}

#[test]
fn finder_cross_check_rejects_a_bar() {
    // A horizontal bar: the row matches 1:1:3:1:1 but no column does.
    let (w, h) = (64, 64);
    let mut d = vec![255u8; w * h];
    for y in 30..34 {
        for (x0, x1) in [(18, 22), (26, 38), (42, 46)] {
            for x in x0..x1 {
                d[y * w + x] = 0;
            }
        }
    }
    let view = Gray8View::new(&d, w, h, w).unwrap();
    let grid = TileGrid::build(&view);
    let windows = windows_on_row(&view, &grid, 32);
    assert_eq!(windows.len(), 1);
    assert_eq!(cross_check_window(&view, &grid, windows[0], 32), None);
}

#[test]
fn finder_active_spans_dense_and_sparse_rows() {
    // Finder near the middle of a 64-wide image: no tile of row 32 is flat,
    // so the whole row is scanned.
    let d = finder_image(64, 64, 32, 32, 4, false);
    let view = Gray8View::new(&d, 64, 64, 64).unwrap();
    let grid = TileGrid::build(&view);
    assert_eq!(active_spans(&grid, 32, 64), vec![(0, 64)]);
    // A 160-wide image: tile columns 2..=6 see the finder, the other five are
    // flat, so only their span is scanned.
    let d = finder_image(160, 64, 76, 32, 4, false);
    let view = Gray8View::new(&d, 160, 64, 160).unwrap();
    let grid = TileGrid::build(&view);
    assert_eq!(active_spans(&grid, 32, 160), vec![(32, 112)]);
    // A flat image has nothing to scan.
    let d = vec![90u8; 160 * 64];
    let view = Gray8View::new(&d, 160, 64, 160).unwrap();
    let grid = TileGrid::build(&view);
    assert!(active_spans(&grid, 32, 160).is_empty());
}
