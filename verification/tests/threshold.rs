use qrkit::image::Gray8View;
use qrkit::threshold::{integer_sqrt, sauvola, sauvola_into, SauvolaConfig, ThresholdWorkspace};
use qrkit::image::Gray8ViewMut;
use qrkit::imgproc::ImgProcError;

#[test]
fn flat_image_thresholds_deterministically() {
    let data = vec![100; 25];
    let src = Gray8View::new(&data, 5, 5, 5).unwrap();
    let output = sauvola(src, &SauvolaConfig::default()).unwrap();
    assert!(output.as_slice().iter().all(|&value| value == 255));
}

#[test]
fn strided_input_matches_tight_input() {
    let tight = [20, 20, 220, 20, 20, 220, 20, 20, 220];
    let mut padded = vec![0; 15];
    for y in 0..3 {
        padded[y * 5..y * 5 + 3].copy_from_slice(&tight[y * 3..y * 3 + 3]);
    }
    let a = sauvola(
        Gray8View::new(&tight, 3, 3, 3).unwrap(),
        &SauvolaConfig { radius: 1, ..SauvolaConfig::default() },
    )
    .unwrap();
    let b = sauvola(
        Gray8View::new(&padded, 3, 3, 5).unwrap(),
        &SauvolaConfig { radius: 1, ..SauvolaConfig::default() },
    )
    .unwrap();
    assert_eq!(a, b);
}

#[test]
fn sauvola_marks_dark_ink_on_light_paper() {
    let mut data = vec![220u8; 9 * 9];
    data[4 * 9 + 4] = 20;
    let src = Gray8View::new(&data, 9, 9, 9).unwrap();
    let out = sauvola(src, &SauvolaConfig { radius: 2, ..SauvolaConfig::default() }).unwrap();
    assert_eq!(out.as_slice()[4 * 9 + 4], 0);
    assert_eq!(out.as_slice()[0], 255);
}

#[test]
fn sauvola_rejects_mismatched_sizes_and_bad_configs() {
    let data = vec![1u8; 16];
    let src = Gray8View::new(&data, 4, 4, 4).unwrap();
    let mut out = vec![7u8; 9];
    let mut ws = ThresholdWorkspace::default();
    let dst = Gray8ViewMut::new(&mut out, 3, 3, 3).unwrap();
    assert_eq!(sauvola_into(src, dst, &SauvolaConfig::default(), &mut ws), Err(ImgProcError::DimensionMismatch));
    assert!(out.iter().all(|&v| v == 7));
    for config in [
        SauvolaConfig { radius: 0, ..SauvolaConfig::default() },
        SauvolaConfig { k_milli: 1001, ..SauvolaConfig::default() },
        SauvolaConfig { dynamic_range: 0, ..SauvolaConfig::default() },
    ] {
        assert_eq!(sauvola(src, &config).unwrap_err(), ImgProcError::InvalidConfiguration);
    }
}

#[test]
fn sauvola_into_leaves_padding_alone() {
    let data = vec![100u8; 4];
    let src = Gray8View::new(&data, 2, 2, 2).unwrap();
    let mut out = vec![7u8; 6];
    let mut ws = ThresholdWorkspace::default();
    let dst = Gray8ViewMut::new(&mut out, 2, 2, 3).unwrap();
    sauvola_into(src, dst, &SauvolaConfig::default(), &mut ws).unwrap();
    assert_eq!(out, vec![255, 255, 7, 255, 255, 7]);
}

#[test]
fn integer_sqrt_is_exact_floor() {
    assert_eq!(integer_sqrt(0), 0);
    assert_eq!(integer_sqrt(1), 1);
    assert_eq!(integer_sqrt(15), 3);
    assert_eq!(integer_sqrt(16), 4);
    assert_eq!(integer_sqrt(u64::MAX), 4294967295);
}
