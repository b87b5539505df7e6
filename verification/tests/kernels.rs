use qrkit::image::Gray8View;
use qrkit::kernels::{
    area_downscale, bilinear_upscale_2x, bilinear_upscale_3x, bilinear_upscale_4x, box_downscale_half,
    catmull_rom_upscale_2x, unsharp_mask,
};
use qrkit::morph::{background_divide, morph_rect, running_extremum_1d};

fn view(data: &[u8], w: usize, h: usize) -> Gray8View<'_> {
    Gray8View::new(data, w, h, w).unwrap()
}

#[test]
fn box_downscale_half_averages_quads() {
    let d = vec![0u8, 4, 8, 12, 16, 20, 24, 28];
    let (out, w, h) = box_downscale_half(&view(&d, 4, 2)).unwrap();
    assert_eq!((w, h), (2, 1));
    assert_eq!(out, vec![(4 + 16 + 20 + 2) / 4, (8 + 12 + 24 + 28 + 2) / 4]);
}

#[test]
fn box_downscale_half_rejects_tiny() {
    let d = vec![1u8, 2];
    assert!(box_downscale_half(&view(&d, 1, 2)).is_none());
}

#[test]
fn box_downscale_half_drops_odd_trailing_row_and_column() {
    let d: Vec<u8> = (0..15u8).collect();
    let (out, w, h) = box_downscale_half(&view(&d, 5, 3)).unwrap();
    assert_eq!((w, h), (2, 1));
    assert_eq!(out, vec![(0 + 1 + 5 + 6 + 2) / 4, (2 + 3 + 7 + 8 + 2) / 4]);
}

#[test]
fn bilinear_upscale_2x_is_cosited() {
    let d = vec![0u8, 100, 200, 60];
    let (out, w, h) = bilinear_upscale_2x(&view(&d, 2, 2));
    assert_eq!((w, h), (4, 4));
    assert_eq!(out[0], 0);
    assert_eq!(out[2], 100);
    assert_eq!(out[2 * 4], 200);
    assert_eq!(out[2 * 4 + 2], 60);
    assert_eq!(out[1], 50);
    assert_eq!(out[4], 100);
}

#[test]
fn bilinear_upscale_3x_is_cosited() {
    let d = vec![0u8, 90, 210, 30];
    let (out, w, h) = bilinear_upscale_3x(&view(&d, 2, 2));
    assert_eq!((w, h), (6, 6));
    assert_eq!(out[0], 0);
    assert_eq!(out[3], 90);
    assert_eq!(out[3 * 6], 210);
    assert_eq!(out[3 * 6 + 3], 30);
    assert_eq!(out[1], 30);
    assert_eq!(out[2], 60);
    assert_eq!(out[6], 70);
    assert_eq!(out[2 * 6], 140);
    assert_eq!(out[5 * 6 + 5], 30);
}

#[test]
fn bilinear_upscale_4x_is_cosited() {
    let d = vec![0, 100, 200, 255];
    let (out, w, h) = bilinear_upscale_4x(&view(&d, 2, 2));
    assert_eq!((w, h), (8, 8));
    for sy in 0..2 {
        for sx in 0..2 {
            assert_eq!(out[(4 * sy) * w + 4 * sx], d[sy * 2 + sx]);
        }
    }
}

#[test]
fn bilinear_upscale_4x_quarter_weights() {
    let d = vec![0u8, 100];
    let (out, w, h) = bilinear_upscale_4x(&view(&d, 2, 1));
    assert_eq!((w, h), (8, 4));
    assert_eq!(&out[0..8], &[0, 25, 50, 75, 100, 100, 100, 100]);
}

#[test]
fn catmull_rom_upscale_2x_matches_weights_and_cosites() {
    let d = vec![10u8, 10, 10, 200, 200, 200];
    let (out, w, h) = catmull_rom_upscale_2x(&view(&d, 6, 1));
    assert_eq!((w, h), (12, 2));
    for x in 0..6 {
        assert_eq!(out[2 * x], d[x]);
    }
    assert_eq!(out[5], 105);
    assert!(out[3] < 10, "negative lobe must undershoot before the edge");
}

#[test]
fn unsharp_mask_steepens_an_edge_without_moving_it() {
    let (w, h) = (16, 5);
    let d: Vec<u8> = (0..w * h)
        .map(|i| match i % w {
            0..=6 => 60,
            7 => 100,
            8 => 160,
            _ => 200,
        })
        .collect();
    let (out, _, _) = unsharp_mask(&view(&d, w, h));
    let row = &out[2 * w..3 * w];
    assert!(row[5] <= 60);
    assert!(row[10] >= 200);
    assert!(row[7] < row[8]);
}

#[test]
fn unsharp_mask_keeps_a_flat_image() {
    let d = vec![90u8; 7 * 6];
    let (out, w, h) = unsharp_mask(&view(&d, 7, 6));
    assert_eq!((w, h), (7, 6));
    assert!(out.iter().all(|&v| v == 90));
}

fn area_downscale_reference(src: &Gray8View, dw: usize, dh: usize) -> Vec<u8> {
    let (w, h) = (src.width(), src.height());
    let (fx, fy) = ((w as u64) << 8, (h as u64) << 8);
    let mut out = vec![0u8; dw * dh];
    for oy in 0..dh {
        let y0 = fy * oy as u64 / dh as u64;
        let y1 = fy * (oy as u64 + 1) / dh as u64;
        for ox in 0..dw {
            let x0 = fx * ox as u64 / dw as u64;
            let x1 = fx * (ox as u64 + 1) / dw as u64;
            let (mut acc, mut weight) = (0u64, 0u64);
            for sy in (y0 >> 8) as usize..(((y1 + 255) >> 8) as usize).min(h) {
                let wy = (((sy + 1) as u64) << 8).min(y1) - ((sy as u64) << 8).max(y0);
                for sx in (x0 >> 8) as usize..(((x1 + 255) >> 8) as usize).min(w) {
                    let wx = (((sx + 1) as u64) << 8).min(x1) - ((sx as u64) << 8).max(x0);
                    acc += src.get(sx, sy) as u64 * wx * wy;
                    weight += wx * wy;
                }
            }
            out[oy * dw + ox] = ((acc + weight / 2) / weight) as u8;
        }
    }
    out
}

#[test]
fn area_downscale_matches_reference_on_every_path_shape() {
    let (w, h) = (97usize, 61usize);
    let mut seed = 0x2545F491u32;
    let d: Vec<u8> = (0..w * h)
        .map(|_| {
            seed = seed.wrapping_mul(1664525).wrapping_add(1013904223);
            (seed >> 24) as u8
        })
        .collect();
    let v = view(&d, w, h);
    for (dw, dh) in [(65, 41), (24, 15), (97, 61), (48, 61)] {
        let (fast, ow, oh) = area_downscale(&v, dw, dh);
        assert_eq!((ow, oh), (dw, dh));
        assert_eq!(fast, area_downscale_reference(&v, dw, dh), "mismatch at {dw}x{dh}");
    }
}

#[test]
fn area_downscale_averages_exact_fractions() {
    let d = vec![90u8, 30, 210];
    let (out, w, h) = area_downscale(&view(&d, 3, 1), 2, 1);
    assert_eq!((w, h), (2, 1));
    assert_eq!(out, vec![70, 150]);
}

#[test]
fn area_downscale_integer_ratio_matches_box_half() {
    let d: Vec<u8> = (0..16u8).map(|i| i * 16).collect();
    let v = view(&d, 4, 4);
    let (a, _, _) = area_downscale(&v, 2, 2);
    let (b, _, _) = box_downscale_half(&v).unwrap();
    assert_eq!(a, b, "exact /2 must agree with the pyramid kernel");
}

#[test]
fn running_extremum_matches_naive_window() {
    let n = 100;
    let mut x: u32 = 12345;
    let src: Vec<u8> = (0..n)
        .map(|_| {
            x = x.wrapping_mul(1664525).wrapping_add(1013904223);
            (x >> 24) as u8
        })
        .collect();
    let k = 7;
    let r = k / 2;
    for is_max in [true, false] {
        let out = running_extremum_1d(&src, k, is_max);
        assert_eq!(out.len(), n);
        for i in k..n - k {
            let win = &src[i - r..=i + r];
            let want = if is_max { *win.iter().max().unwrap() } else { *win.iter().min().unwrap() };
            assert_eq!(out[i], want, "i={i} is_max={is_max}");
        }
    }
}

#[test]
fn morph_rect_matches_naive_extremum_in_the_interior() {
    let (w, h) = (24, 18);
    let mut x: u32 = 99;
    let src: Vec<u8> = (0..w * h)
        .map(|_| {
            x = x.wrapping_mul(1664525).wrapping_add(1013904223);
            (x >> 24) as u8
        })
        .collect();
    let k = 5;
    let r = k / 2;
    for is_max in [true, false] {
        let mut dst = Vec::new();
        if is_max {
            morph_rect::<true>(&src, w, h, k, &mut dst);
        } else {
            morph_rect::<false>(&src, w, h, k, &mut dst);
        }
        for y in k..h - k {
            for xx in k..w - k {
                let mut want = if is_max { 0u8 } else { 255u8 };
                for dy in y - r..=y + r {
                    for dx in xx - r..=xx + r {
                        let v = src[dy * w + dx];
                        want = if is_max { want.max(v) } else { want.min(v) };
                    }
                }
                assert_eq!(dst[y * w + xx], want, "({xx},{y}) is_max={is_max}");
            }
        }
    }
}

#[test]
fn background_divide_flattens_a_gradient() {
    let (w, h) = (64, 32);
    let d: Vec<u8> = (0..w * h)
        .map(|i| {
            let x = i % w;
            let base = if (x / 4) % 2 == 0 { 200u32 } else { 60u32 };
            if x < w / 2 {
                (base / 4) as u8
            } else {
                base as u8
            }
        })
        .collect();
    let (out, ow, oh) = background_divide(&view(&d, w, h), 9);
    assert_eq!((ow, oh), (w, h));
    let mid = h / 2;
    let row = &out[mid * w..(mid + 1) * w];
    let contrast = |xs: std::ops::Range<usize>| {
        let (mut lo, mut hi) = (255u8, 0u8);
        for x in xs {
            lo = lo.min(row[x]);
            hi = hi.max(row[x]);
        }
        hi - lo
    };
    let dark_side = contrast(9..w / 2 - 9);
    let lit_side = contrast(w / 2 + 9..w - 9);
    assert!(dark_side as u32 * 2 >= lit_side as u32, "dark {dark_side} vs lit {lit_side}");
}

#[test]
fn background_divide_envelope_never_saturates() {
    let (w, h) = (32, 32);
    let d: Vec<u8> = (0..w * h).map(|i| (i % 251) as u8).collect();
    let (out, _, _) = background_divide(&view(&d, w, h), 7);
    for (i, (&o, &s)) in out.iter().zip(d.iter()).enumerate() {
        if s >= 8 {
            assert!(o <= 200, "i={i} out={o} src={s}");
        }
    }
}

#[test]
fn background_divide_returns_tiny_images_unchanged() {
    let d: Vec<u8> = (0..12u8).collect();
    let (out, w, h) = background_divide(&view(&d, 4, 3), 9);
    assert_eq!((w, h), (4, 3));
    assert_eq!(out, d);
}

#[test]
fn area_downscale_at_the_same_size_is_the_identity() {
    let d: Vec<u8> = (0..35u32).map(|i| (i * 37 % 256) as u8).collect();
    let (out, w, h) = area_downscale(&view(&d, 7, 5), 7, 5);
    assert_eq!((w, h), (7, 5));
    assert_eq!(out, d);
}

#[test]
fn background_divide_border_windows_are_clipped() {
    // Windows at the border are clipped to the image, so the closing stays
    // above the image there too: the leading 9s sit under a background of 9.
    let row = [9u8, 9, 9, 6, 2, 2, 8, 3, 0];
    let d: Vec<u8> = row.iter().copied().cycle().take(81).collect();
    let (out, _, _) = background_divide(&view(&d, 9, 9), 7);
    assert_eq!(&out[..9], &[200, 200, 200, 150, 50, 50, 200, 75, 0]);
}

#[test]
fn background_divide_lone_corner_pixel_is_not_saturated() {
    let mut d = vec![0u8; 25];
    d[0] = 100;
    let (out, w, h) = background_divide(&view(&d, 5, 5), 3);
    assert_eq!((w, h), (5, 5));
    assert_eq!(out[0], 200);
    assert!(out[1..].iter().all(|&o| o == 0));
}

#[test]
fn running_extremum_clips_border_windows() {
    let src = [5u8, 1, 7, 2, 9, 3, 0, 4];
    let k = 3;
    for is_max in [true, false] {
        let out = running_extremum_1d(&src, k, is_max);
        for i in 0..src.len() {
            let lo = i.saturating_sub(1);
            let hi = (i + 1).min(src.len() - 1);
            let win = &src[lo..=hi];
            let want = if is_max { *win.iter().max().unwrap() } else { *win.iter().min().unwrap() };
            assert_eq!(out[i], want, "i={i} is_max={is_max}");
        }
    }
}
