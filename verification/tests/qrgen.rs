use qrkit::bitmatrix::decode_bits;
use qrkit::qrgen::generate_qr_bits;

#[test]
fn generate_qr_bits_round_trips_through_decode_bits() {
    let m = generate_qr_bits("HELLO WORLD", 0, 1).unwrap();
    let decoded = decode_bits(&m).expect("generated matrix should decode");
    assert_eq!(decoded.payload, "HELLO WORLD");
    assert_eq!(decoded.ecc, 'M');
}

#[test]
fn generate_qr_bits_round_trips_at_fixed_version() {
    let m = generate_qr_bits("subpixel refinement plan 5 task 5", 5, 3).unwrap();
    assert_eq!(m.dim, 4 * 5 + 17);
    let decoded = decode_bits(&m).expect("generated matrix should decode");
    assert_eq!(decoded.payload, "subpixel refinement plan 5 task 5");
    assert_eq!(decoded.version, 5);
    assert_eq!(decoded.ecc, 'H');
}

#[test]
fn generate_qr_bits_round_trips_across_all_ecc_levels() {
    for (ecc, want) in [(0u8, 'L'), (1, 'M'), (2, 'Q'), (3, 'H')] {
        let m = generate_qr_bits("ECC SWEEP", 0, ecc).unwrap();
        let decoded = decode_bits(&m).expect("generated matrix should decode");
        assert_eq!(decoded.payload, "ECC SWEEP");
        assert_eq!(decoded.ecc, want, "ecc index {ecc}");
    }
}

#[test]
fn generate_qr_bits_rejects_out_of_range_ecc() {
    let err = generate_qr_bits("X", 0, 4).err().unwrap();
    assert!(err.contains("ecc must be 0..=3"), "unexpected message: {err}");
}

#[test]
fn generate_qr_bits_rejects_out_of_range_version() {
    let err = generate_qr_bits("X", 41, 0).err().unwrap();
    assert!(err.contains("version must be 0"), "unexpected message: {err}");
}

#[test]
fn generate_qr_bits_rejects_payload_too_large_for_requested_version() {
    let huge: String = "A".repeat(200);
    let err = generate_qr_bits(&huge, 1, 3).err().unwrap();
    assert!(err.starts_with("generate_qr:"), "unexpected message: {err}");
}

#[test]
fn generate_qr_bits_error_messages_carry_the_rejected_values() {
    assert_eq!(
        generate_qr_bits("X", 0, 7).err().unwrap(),
        "generate_qr: ecc must be 0..=3 (L/M/Q/H), got 7"
    );
    assert_eq!(
        generate_qr_bits("X", 123, 2).err().unwrap(),
        "generate_qr: version must be 0 (auto) or 1..=40, got 123"
    );
    let huge: String = "A".repeat(200);
    assert_eq!(
        generate_qr_bits(&huge, 1, 3).err().unwrap(),
        "generate_qr: DataTooLong (payload 200 bytes, version 1, ecc 3)"
    );
}

#[test]
fn bit_matrix_dimension_is_readable() {
    let m = generate_qr_bits("HELLO", 2, 0).unwrap();
    assert_eq!(m.dim(), 25);
    assert_eq!(m.dim(), m.dim);
}
