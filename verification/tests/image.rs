use qrkit::image::{
    luma_from_rgba, try_luma_from_rgba, Gray8Image, Gray8View, Gray8ViewMut, ImageError, LumaError,
    Rect, Rgb8View, Size,
};

#[test]
fn strided_view_and_nested_roi_share_storage() {
    let mut data = vec![0; 6 * 4];
    for y in 0..4 {
        for x in 0..4 {
            data[y * 6 + x] = (10 * y + x) as u8;
        }
    }
    let view = Gray8View::new(&data, 4, 4, 6).unwrap();
    let roi = view.subview(Rect::new(1, 1, 3, 2)).unwrap();
    let nested = roi.subview(Rect::new(1, 0, 2, 2)).unwrap();
    assert_eq!(nested.stride(), 6);
    assert_eq!(nested.row(0), &[12, 13]);
    assert_eq!(nested.row(1), &[22, 23]);
}

#[test]
fn mutable_view_preserves_padding() {
    let mut data = vec![99; 10];
    let mut view = Gray8ViewMut::new(&mut data, 3, 2, 5).unwrap();
    view.row_mut(1).copy_from_slice(&[1, 2, 3]);
    assert_eq!(data, [99, 99, 99, 99, 99, 1, 2, 3, 99, 99]);
}

#[test]
fn checked_rgba_conversion_rejects_bad_layout() {
    assert_eq!(try_luma_from_rgba(&[0; 7], 2, 1), Err(ImageError::BufferLengthMismatch));
}

#[test]
fn rgba_conversion_matches_scanner_formula() {
    let rgba = [255, 255, 255, 255, 0, 0, 0, 255, 255, 0, 0, 255];
    assert_eq!(try_luma_from_rgba(&rgba, 3, 1).unwrap(), [255, 0, 77]);
}

#[test]
fn rgb_view_converts_padded_rows_and_reuses_output() {
    let rgb = [255, 255, 255, 0, 0, 0, 99, 99, 255, 0, 0, 0, 255, 0, 88, 88];
    let view = Rgb8View::new(&rgb, 2, 2, 8).unwrap();
    let mut luma = vec![42; 32];
    view.write_luma(&mut luma);
    assert_eq!(luma, [255, 0, 77, 149]);
}

#[test]
fn rgb_view_rejects_invalid_layouts() {
    assert_eq!(Rgb8View::new(&[0; 6], 2, 1, 5).unwrap_err(), LumaError::StrideTooSmall);
    assert_eq!(Rgb8View::new(&[0; 11], 2, 2, 6).unwrap_err(), LumaError::BufferTooSmall);
}

#[test]
fn compatibility_rgba_conversion_accepts_an_empty_image() {
    assert!(luma_from_rgba(&[], 0, 0).is_empty());
}

#[test]
fn dimension_and_roi_overflow_are_rejected() {
    assert_eq!(Gray8Image::new(Size::new(usize::MAX, 2)), Err(ImageError::DimensionOverflow));
    let data = [0; 4];
    let view = Gray8View::new(&data, 2, 2, 2).unwrap();
    assert!(matches!(view.subview(Rect::new(usize::MAX, 0, 2, 1)), Err(ImageError::DimensionOverflow)));
}

#[test]
fn write_then_read_through_a_mutable_view() {
    let mut data = vec![5u8; 12];
    let mut view = Gray8ViewMut::new(&mut data, 3, 2, 6).unwrap();
    view.set(2, 1, 77);
    assert_eq!(view.get(2, 1), 77);
    assert_eq!(view.get(1, 1), 5);
    assert_eq!(data[8], 77);
    assert_eq!(data.iter().filter(|&&v| v == 77).count(), 1);
}

#[test]
fn owned_image_views_round_trip() {
    let mut image = Gray8Image::filled(Size::new(4, 3), 128).unwrap();
    assert_eq!(image.view().get(0, 0), 128);
    {
        let mut view = image.view_mut();
        view.set(3, 2, 9);
    }
    assert_eq!(image.as_slice()[11], 9);
    assert_eq!(image.size(), Size::new(4, 3));
    assert!(Gray8Image::from_vec(vec![0; 5], Size::new(2, 2)).is_err());
}

#[test]
fn layout_errors_each_have_an_input() {
    assert_eq!(Gray8View::new(&[0; 4], 0, 1, 1).unwrap_err(), LumaError::EmptyDimensions);
    assert_eq!(Gray8View::new(&[0; 4], 2, 1, 1).unwrap_err(), LumaError::StrideTooSmall);
    assert_eq!(Gray8View::new(&[0; 4], 2, 2, 3).unwrap_err(), LumaError::BufferTooSmall);
    let data = [0; 4];
    let view = Gray8View::new(&data, 2, 2, 2).unwrap();
    assert_eq!(view.subview(Rect::new(1, 1, 2, 1)).unwrap_err(), ImageError::RoiOutOfBounds);
    assert_eq!(view.try_get(2, 0), None);
    assert_eq!(view.try_get(1, 1), Some(0));
}

#[test]
fn writes_through_a_mutable_subview_land_at_the_parent_offset() {
    let mut data = vec![1u8; 5 * 4];
    let old = data.clone();
    let mut parent = Gray8ViewMut::new(&mut data, 4, 4, 5).unwrap();
    let mut child = parent.subview(Rect::new(1, 2, 2, 2)).unwrap();
    assert_eq!((child.width(), child.height(), child.stride()), (2, 2, 5));
    child.set(1, 1, 42);
    let mut want = old;
    want[(2 + 1) * 5 + 1 + 1] = 42;
    assert_eq!(data, want);
}
