use qrkit::image::Gray8View;
use qrkit::tile_threshold::{TileThresholdConfig, TileThresholdGrid};
use qrkit::tiles::{BinarizeSpec, TileGrid, CONTRAST_FLOOR};

fn image(width: usize, height: usize, pixel: impl Fn(usize, usize) -> u8) -> Vec<u8> {
    (0..width * height).map(|index| pixel(index % width, index / width)).collect()
}

#[test]
fn tiles_flat_image_is_all_skip() {
    let data = image(64, 48, |_, _| 128);
    let view = Gray8View::new(&data, 64, 48, 64).unwrap();
    let grid = TileGrid::build(&view);
    assert_eq!((grid.tiles_x, grid.tiles_y), (4, 3));
    for y in (0..48).step_by(7) {
        assert!(grid.row_all_skip(y));
        for x in (0..64).step_by(7) {
            assert!(grid.is_skip(x, y));
            assert_eq!(grid.threshold_at(x, y), 128);
        }
    }
}

#[test]
fn tiles_contrast_tile_thresholds_midpoint_and_dilates() {
    let data = image(64, 48, |x, _| if x < 32 { 20 } else { 220 });
    let view = Gray8View::new(&data, 64, 48, 64).unwrap();
    let grid = TileGrid::build(&view);
    assert!(!grid.is_skip(32, 24));
    assert_eq!(grid.threshold_at(32, 24), 120);
    assert!(!grid.is_skip(16, 24));
    assert_eq!(grid.threshold_at(16, 24), 120);
    assert!(grid.is_skip(48, 24));
    assert!(grid.is_skip(0, 24));
}

#[test]
fn tiles_ragged_edges_are_handled() {
    let data = image(70, 30, |x, y| if x >= 64 && y >= 16 { 200 } else { 50 });
    let view = Gray8View::new(&data, 70, 30, 70).unwrap();
    let grid = TileGrid::build(&view);
    assert_eq!((grid.tiles_x, grid.tiles_y), (5, 2));
    assert!(!grid.is_skip(69, 29));
    assert_eq!(grid.threshold_at(69, 29), 125);
}

#[test]
fn binarize_spec_offset_and_floor() {
    let data = image(64, 48, |x, _| if x < 32 { 20 } else { 220 });
    let view = Gray8View::new(&data, 64, 48, 64).unwrap();
    let spec = BinarizeSpec { threshold_offset: -8, contrast_floor: CONTRAST_FLOOR, sauvola: false };
    let grid = TileGrid::build_with(&view, spec, |_| 0);
    assert_eq!(grid.threshold_at(32, 24), 112);
    let trace = grid.to_trace();
    assert_eq!((trace.tiles_x, trace.tiles_y), (4, 3));
    assert_eq!(trace.thresholds.len(), 12);
}

#[test]
fn sauvola_spec_uses_the_supplied_base() {
    let data = image(32, 32, |x, y| ((x * 7 + y * 3) % 256) as u8);
    let view = Gray8View::new(&data, 32, 32, 32).unwrap();
    let spec = BinarizeSpec { threshold_offset: 5, contrast_floor: 0, sauvola: true };
    let grid = TileGrid::build_with(&view, spec, |s| (s.sum / s.count) as i16);
    assert_eq!((grid.tiles_x, grid.tiles_y), (2, 2));
    let mut total = 0u64;
    for &p in &data {
        total += p as u64;
    }
    assert_eq!(grid.threshold_at(0, 0) as u64, total / 1024 + 5);
}

#[test]
fn tile_threshold_grid_rejects_zero_tiles() {
    let data = vec![0u8; 16];
    let view = Gray8View::new(&data, 4, 4, 4).unwrap();
    let config = TileThresholdConfig { tile_width: 0, ..TileThresholdConfig::default() };
    assert!(TileThresholdGrid::build(view, config).is_err());
    let ok = TileThresholdGrid::build(view, TileThresholdConfig::default()).unwrap();
    assert_eq!((ok.tiles_x(), ok.tiles_y()), (1, 1));
    assert_eq!(ok.thresholds(), &[0]);
    assert_eq!(ok.skip_mask(), &[true]);
}

#[test]
fn row_all_skip_agrees_with_every_pixel_of_the_row() {
    let data = image(70, 40, |x, y| if y >= 16 && y < 32 && x >= 40 { 200 } else { 50 });
    let view = Gray8View::new(&data, 70, 40, 70).unwrap();
    let config = TileThresholdConfig { neighborhood_radius: 0, ..TileThresholdConfig::default() };
    let grid = TileThresholdGrid::build(view, config).unwrap();
    for y in 0..40 {
        let per_pixel = (0..70).all(|x| grid.is_skip(x, y));
        assert_eq!(grid.row_all_skip(y), per_pixel, "y={y}");
    }
    assert!(grid.row_all_skip(0));
    assert!(!grid.row_all_skip(20));
}

#[test]
fn threshold_offset_shifts_every_tile_and_nothing_else() {
    let data = image(50, 40, |x, y| ((x * 13 + y * 7) % 251) as u8);
    let view = Gray8View::new(&data, 50, 40, 50).unwrap();
    for sauvola in [false, true] {
        let s0 = BinarizeSpec { threshold_offset: 0, contrast_floor: CONTRAST_FLOOR, sauvola };
        let base = |s: qrkit::tile_threshold::TileStats| (s.sum / s.count) as i16;
        let g0 = TileGrid::build_with(&view, s0, base);
        for d in [-300i16, -20, 0, 9, 300] {
            let g1 = TileGrid::build_with(&view, BinarizeSpec { threshold_offset: d, ..s0 }, base);
            assert_eq!((g1.tile_columns(), g1.tile_rows()), (g0.tile_columns(), g0.tile_rows()));
            for y in 0..40 {
                for x in 0..50 {
                    let want = (g0.threshold_at(x, y) as i16 + d).clamp(0, 255) as u8;
                    assert_eq!(g1.threshold_at(x, y), want);
                    assert_eq!(g1.is_skip(x, y), g0.is_skip(x, y));
                }
            }
        }
    }
}

#[test]
fn sauvola_base_is_clamped_to_a_byte_before_the_offset() {
    let data = image(32, 32, |x, y| ((x * 5 + y * 11) % 200) as u8);
    let view = Gray8View::new(&data, 32, 32, 32).unwrap();
    let high = BinarizeSpec { threshold_offset: -200, contrast_floor: 0, sauvola: true };
    let grid = TileGrid::build_with(&view, high, |_| 400);
    assert_eq!(grid.threshold_at(5, 5), 55);
    let low = BinarizeSpec { threshold_offset: 30, contrast_floor: 0, sauvola: true };
    let grid = TileGrid::build_with(&view, low, |_| -100);
    assert_eq!(grid.threshold_at(5, 5), 30);
}
