use qrkit::directional::{
    directional_unsharp_along, monotonic_runs, raster_line_samples, raster_lines, van_cittert_along,
};
use qrkit::image::Gray8View;

fn view(data: &[u8], w: usize, h: usize) -> Gray8View<'_> {
    Gray8View::new(data, w, h, w).unwrap()
}

/// 1-D horizontal box blur of length `len`, rounded down: the line PSF the
/// Van Cittert rung inverts.
fn hbox_blur(d: &[u8], w: usize, h: usize, len: usize) -> Vec<u8> {
    let half = (len / 2) as isize;
    let mut out = vec![0u8; w * h];
    for y in 0..h {
        for x in 0..w {
            let mut sum = 0u32;
            for k in -half..=half {
                let sx = (x as isize + k).clamp(0, w as isize - 1) as usize;
                sum += d[y * w + sx] as u32;
            }
            out[y * w + x] = (sum / len as u32) as u8;
        }
    }
    out
}

const STEPS: [(isize, isize); 4] = [(1, 0), (1, 1), (0, 1), (-1, 1)];

/// Straightforward per-pixel Van Cittert: each sample's window walks its
/// raster line and repeats the line's end samples.
fn van_cittert_reference(d: &[u8], w: usize, h: usize, (dx, dy): (isize, isize), len: usize) -> Vec<u8> {
    let l = len.max(3) | 1;
    let half = (l / 2) as isize;
    let inside = |x: isize, y: isize| x >= 0 && y >= 0 && (x as usize) < w && (y as usize) < h;
    let b: Vec<i64> = d.iter().map(|&v| v as i64).collect();
    let mut cur = b.clone();
    for _ in 0..3 {
        let mut mean = vec![0i64; w * h];
        for y in 0..h as isize {
            for x in 0..w as isize {
                let mut sum = 0i64;
                for k in -half..=half {
                    let (step, sign) = if k >= 0 { (k, 1) } else { (-k, -1) };
                    let (mut px, mut py) = (x, y);
                    for _ in 0..step {
                        let (nx, ny) = (px + sign * dx, py + sign * dy);
                        if !inside(nx, ny) {
                            break;
                        }
                        px = nx;
                        py = ny;
                    }
                    sum += cur[py as usize * w + px as usize];
                }
                mean[y as usize * w + x as usize] = sum.div_euclid(l as i64);
            }
        }
        for i in 0..w * h {
            cur[i] += b[i] - mean[i];
        }
    }
    cur.iter().map(|&v| v.clamp(0, 255) as u8).collect()
}

fn texture(w: usize, h: usize, seed: u32) -> Vec<u8> {
    let mut state = seed;
    (0..w * h)
        .map(|_| {
            state = state.wrapping_mul(1_103_515_245).wrapping_add(12_345);
            (state >> 16) as u8
        })
        .collect()
}

#[test]
fn van_cittert_restores_amplitude_under_a_supra_module_smear() {
    let (w, h) = (160, 8);
    let d: Vec<u8> = (0..w * h)
        .map(|i| if ((i % w) / 8) % 2 == 0 { 40 } else { 210 })
        .collect();
    let blurred = hbox_blur(&d, w, h, 13);
    let (rest, rw, rh) = van_cittert_along(&view(&blurred, w, h), (1, 0), 13);
    assert_eq!((rw, rh), (w, h));
    let amp = |img: &[u8]| -> i32 {
        let row = &img[4 * w..5 * w];
        let (mut lo, mut hi) = (255u8, 0u8);
        for &v in &row[24..w - 24] {
            lo = lo.min(v);
            hi = hi.max(v);
        }
        hi as i32 - lo as i32
    };
    let (a_blur, a_rest) = (amp(&blurred), amp(&rest));
    assert!(
        a_rest >= 2 * a_blur,
        "restored amplitude {a_rest} must be >= 2x blurred {a_blur}"
    );
}

#[test]
fn van_cittert_is_identity_on_the_constant_axis() {
    let (w, h) = (32, 32);
    let d: Vec<u8> = (0..w * h)
        .map(|i| if (i / w / 4) % 2 == 0 { 30 } else { 220 })
        .collect();
    let (out, _, _) = van_cittert_along(&view(&d, w, h), (1, 0), 7);
    assert_eq!(out, d);
}

#[test]
fn directional_unsharp_only_touches_the_chosen_axis() {
    let (w, h) = (16, 8);
    let d: Vec<u8> = (0..w * h).map(|i| ((i % w) * 12).min(255) as u8).collect();
    let v = view(&d, w, h);
    let (along_y, _, _) = directional_unsharp_along(&v, (0, 1), 5);
    assert_eq!(
        along_y, d,
        "sharpening along the constant axis must be identity"
    );
    let (along_x, _, _) = directional_unsharp_along(&v, (1, 0), 5);
    assert_ne!(along_x, d);
}

#[test]
fn directional_unsharp_exact_values_round_toward_zero() {
    let d = vec![12u8, 10, 12];
    let (out, w, h) = directional_unsharp_along(&view(&d, 3, 1), (1, 0), 3);
    assert_eq!((w, h), (3, 1));
    // Centre: mean 34/3 = 11, 10 + (3·(−1))/2 = 10 − 1 = 9 (toward zero).
    assert_eq!(out, vec![13, 9, 13]);
    let d = vec![0u8, 0, 100, 0, 0];
    let (out, _, _) = directional_unsharp_along(&view(&d, 5, 1), (1, 0), 3);
    assert_eq!(out, vec![0, 0, 200, 0, 0]);
}

#[test]
fn directional_unsharp_small_lengths_use_three_taps() {
    let d = texture(9, 7, 3);
    let v = view(&d, 9, 7);
    for step in STEPS {
        let three = directional_unsharp_along(&v, step, 3).0;
        assert_eq!(directional_unsharp_along(&v, step, 0).0, three);
        assert_eq!(directional_unsharp_along(&v, step, 2).0, three);
        // An even request rounds up to the next odd length.
        assert_eq!(
            directional_unsharp_along(&v, step, 4).0,
            directional_unsharp_along(&v, step, 5).0
        );
    }
}

#[test]
fn directional_unsharp_flat_image_is_fixed() {
    let d = vec![77u8; 6 * 4];
    for step in STEPS {
        assert_eq!(directional_unsharp_along(&view(&d, 6, 4), step, 5).0, d);
    }
}

#[test]
fn van_cittert_matches_the_per_pixel_line_walk_in_every_direction() {
    for (w, h, seed) in [(7usize, 5usize, 1u32), (1, 6, 2), (6, 1, 3), (9, 9, 4)] {
        let d = texture(w, h, seed);
        for step in STEPS {
            for len in [3usize, 4, 7] {
                let (out, ow, oh) = van_cittert_along(&view(&d, w, h), step, len);
                assert_eq!((ow, oh), (w, h));
                assert_eq!(out, van_cittert_reference(&d, w, h, step, len), "{w}x{h} {step:?} {len}");
            }
        }
    }
}

#[test]
fn van_cittert_leaves_a_diagonally_constant_image_unchanged() {
    // Every south-east diagonal carries one value.
    let (w, h) = (8, 6);
    let d: Vec<u8> = (0..w * h)
        .map(|i| {
            let (x, y) = (i % w, i / w);
            ((x + 7 - y) * 20) as u8
        })
        .collect();
    let (out, _, _) = van_cittert_along(&view(&d, w, h), (1, 1), 5);
    assert_eq!(out, d);
}

#[test]
fn van_cittert_respects_a_padded_stride() {
    let (w, h, stride) = (5, 3, 8);
    let packed = texture(w, h, 9);
    let mut padded = vec![255u8; stride * h];
    for y in 0..h {
        padded[y * stride..y * stride + w].copy_from_slice(&packed[y * w..(y + 1) * w]);
    }
    let strided = Gray8View::new(&padded, w, h, stride).unwrap();
    assert_eq!(
        van_cittert_along(&strided, (0, 1), 3).0,
        van_cittert_along(&view(&packed, w, h), (0, 1), 3).0
    );
}

#[test]
fn raster_lines_walk_each_direction_from_the_border() {
    let d: Vec<u8> = (0..6).collect();
    let v = view(&d, 3, 2);
    let lines = |step: (isize, isize)| -> Vec<Vec<u8>> {
        (0..raster_lines(3, 2, step)).map(|j| raster_line_samples(&v, step, j)).collect()
    };
    assert_eq!(lines((1, 0)), vec![vec![0, 1, 2], vec![3, 4, 5]]);
    assert_eq!(lines((0, 1)), vec![vec![0, 3], vec![1, 4], vec![2, 5]]);
    assert_eq!(lines((1, 1)), vec![vec![0, 4], vec![1, 5], vec![2], vec![3]]);
    assert_eq!(lines((-1, 1)), vec![vec![0], vec![1, 3], vec![2, 4], vec![5]]);
}

#[test]
fn monotonic_runs_split_at_turns_and_keep_plateaus() {
    assert_eq!(
        monotonic_runs(&[10, 20, 20, 30, 25, 25, 10, 40]),
        vec![(0, 3), (3, 6), (6, 7)]
    );
    assert_eq!(monotonic_runs(&[1, 2, 3]), vec![(0, 2)]);
    assert_eq!(monotonic_runs(&[9, 9, 4, 4]), vec![(0, 3)]);
}

#[test]
fn monotonic_runs_of_flat_or_short_lines_are_empty() {
    assert!(monotonic_runs(&[5, 5, 5, 5]).is_empty());
    assert!(monotonic_runs(&[1, 2]).is_empty());
    assert!(monotonic_runs(&[]).is_empty());
}
