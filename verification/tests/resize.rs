use qrkit::image::Gray8View;
use qrkit::resize::{downscale_luma, downscaled_dims, BorderMode, ResizeConfig, ResizeFilter};

fn marked_luma(width: usize, height: usize) -> Vec<u8> {
    (0..width * height).map(|i| i as u8).collect()
}

fn view(data: &[u8], w: usize, h: usize) -> Gray8View<'_> {
    Gray8View::new(data, w, h, w).unwrap()
}

#[test]
fn downscales_4x2_to_2x1_with_exact_nearest_neighbor_source_pixels() {
    let data = marked_luma(4, 2);
    let (out, w, h) = downscale_luma(&view(&data, 4, 2), 2).expect("downscale needed");
    assert_eq!((w, h), (2, 1));
    assert_eq!(out.len(), 2);
    assert_eq!(out[0], data[0]);
    assert_eq!(out[1], data[2]);
}

#[test]
fn returns_none_when_max_dim_is_zero() {
    let data = marked_luma(5, 3);
    assert_eq!(downscale_luma(&view(&data, 5, 3), 0), None);
}

#[test]
fn returns_none_when_already_within_budget() {
    let data = marked_luma(4, 2);
    assert_eq!(downscale_luma(&view(&data, 4, 2), 4), None);
    assert_eq!(downscale_luma(&view(&data, 4, 2), 100), None);
}

#[test]
fn matches_the_production_rounding_formula() {
    let data = marked_luma(7, 5);
    let (_, w, h) = downscale_luma(&view(&data, 7, 5), 3).expect("downscale needed");
    assert_eq!((w, h), (3, 2));
    let data2 = marked_luma(2, 1);
    let (_, w2, h2) = downscale_luma(&view(&data2, 2, 1), 1).expect("downscale needed");
    assert_eq!((w2, h2), (1, 1));
}

#[test]
fn cross_check_small_asymmetric_case_matches_embedded_bytes() {
    let data = marked_luma(5, 3);
    let (out, w, h) = downscale_luma(&view(&data, 5, 3), 3).expect("downscale needed");
    assert_eq!((w, h), (3, 2));
    assert_eq!(out, vec![0, 1, 3, 5, 6, 8]);
}

#[test]
fn downscaled_dims_agrees_with_downscale_luma_and_is_none_on_the_same_no_op_cases() {
    assert_eq!(downscaled_dims(7, 5, 3), Some((3, 2)));
    assert_eq!(downscaled_dims(4, 2, 0), None);
    assert_eq!(downscaled_dims(4, 2, 4), None);
    assert_eq!(downscaled_dims(4, 2, 100), None);
}

#[test]
fn min_1px_clamp_on_an_extreme_aspect_ratio() {
    let data = marked_luma(100, 1);
    let (out, w, h) = downscale_luma(&view(&data, 100, 1), 1).expect("downscale needed");
    assert_eq!((w, h), (1, 1));
    assert_eq!(out.len(), 1);
}

#[test]
fn resize_configuration_defaults() {
    assert_eq!(ResizeFilter::default(), ResizeFilter::Nearest);
    assert_eq!(BorderMode::default(), BorderMode::Reject);
    assert_eq!(
        ResizeConfig::default(),
        ResizeConfig { filter: ResizeFilter::Nearest, border: BorderMode::Clamp }
    );
}
