use qrkit::luma::{luma_from_rgba, LumaError, LumaView};

#[test]
fn accepts_tight_buffer() {
    let data = vec![7u8; 4 * 3];
    let v = LumaView::new(&data, 4, 3, 4).unwrap();
    assert_eq!(v.width(), 4);
    assert_eq!(v.height(), 3);
    assert_eq!(v.get(3, 2), 7);
}

#[test]
fn accepts_padded_stride_and_indexes_through_it() {
    let mut data = vec![0u8; 6 * 2 + 4];
    data[0] = 10;
    data[6] = 11;
    data[12] = 12;
    let v = LumaView::new(&data, 4, 3, 6).unwrap();
    assert_eq!(v.get(0, 0), 10);
    assert_eq!(v.get(0, 1), 11);
    assert_eq!(v.get(0, 2), 12);
}

#[test]
fn rejects_stride_smaller_than_width() {
    assert!(matches!(LumaView::new(&[0; 100], 8, 4, 6), Err(LumaError::StrideTooSmall)));
}

#[test]
fn rejects_short_buffer() {
    assert!(matches!(LumaView::new(&[0; 15], 4, 3, 6), Err(LumaError::BufferTooSmall)));
}

#[test]
fn rejects_zero_dimensions() {
    assert!(matches!(LumaView::new(&[0; 16], 0, 3, 4), Err(LumaError::EmptyDimensions)));
}

#[test]
fn sub_view_shares_stride_and_offsets_correctly() {
    let data: Vec<u8> = (0..24).map(|i| (10 * (i / 6) + i % 6) as u8).collect();
    let v = LumaView::new(&data, 6, 4, 6).unwrap();
    let s = v.sub_view(2, 1, 3, 2).unwrap();
    assert_eq!((s.width(), s.height(), s.stride()), (3, 2, 6));
    assert_eq!(s.get(0, 0), 12);
    assert_eq!(s.get(2, 1), 24);
    assert_eq!(s.row(1), &[22, 23, 24]);
}

#[test]
fn sub_view_rejects_empty_and_out_of_bounds() {
    let data = vec![0u8; 24];
    let v = LumaView::new(&data, 6, 4, 6).unwrap();
    assert!(v.sub_view(0, 0, 0, 2).is_none());
    assert!(v.sub_view(4, 0, 3, 2).is_none());
    assert!(v.sub_view(0, 3, 2, 2).is_none());
    assert!(v.sub_view(0, 0, 6, 4).is_some());
}

#[test]
fn rgba_conversion_bt601() {
    let rgba = [255, 255, 255, 255, 0, 0, 0, 255, 255, 0, 0, 255];
    let y = luma_from_rgba(&rgba, 3, 1);
    assert_eq!(y, vec![255, 0, 77]);
}

#[test]
fn legacy_luma_error_remains_exhaustive() {
    fn classify(error: LumaError) -> u8 {
        match error {
            LumaError::EmptyDimensions => 1,
            LumaError::StrideTooSmall => 2,
            LumaError::BufferTooSmall => 3,
        }
    }
    let data = [0u8; 4];
    let view: Result<LumaView<'_>, LumaError> = LumaView::new(&data, 2, 2, 2);
    assert!(view.is_ok());
    assert_eq!(classify(LumaError::StrideTooSmall), 2);
}
