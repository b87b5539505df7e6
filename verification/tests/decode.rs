use qrkit::arbitration::{
    alignment_pattern_total, dedup_triplet_indices, shared_finder_count, timing_checked_dimension,
    version_checked_dimension, version_of_dimension, Arbitration, Step, MAX_DECODE_ATTEMPTS,
};
use qrkit::bitmatrix::{decode_bits, BitMatrix};

fn qr_matrix(payload: &str, version: i16, ec: qrcode::EcLevel) -> BitMatrix {
    let code = qrcode::QrCode::with_version(payload.as_bytes(), qrcode::Version::Normal(version), ec).unwrap();
    let dim = code.width();
    let mut m = BitMatrix::new(dim);
    for y in 0..dim {
        for x in 0..dim {
            m.set(x, y, code[(x, y)] == qrcode::Color::Dark);
        }
    }
    m
}

#[test]
fn packing_round_trips() {
    let mut m = BitMatrix::new(41);
    m.set(0, 0, true);
    m.set(31, 3, true);
    m.set(32, 3, true);
    m.set(40, 40, true);
    assert!(m.get(0, 0) && m.get(31, 3) && m.get(32, 3) && m.get(40, 40));
    assert!(!m.get(1, 0) && !m.get(33, 3));
    assert_eq!(m.words_per_row(), 2);
    assert_eq!(m.words().len(), 82);
}

#[test]
fn decodes_v1_and_v7_and_v40() {
    for (v, payload) in [(1i16, "Q:test:1"), (7, "HTTPS://R8.HR/O9MKM1ZO3W5"), (40, &"x".repeat(1000) as &str)] {
        let m = qr_matrix(payload, v, qrcode::EcLevel::M);
        let d = decode_bits(&m).unwrap_or_else(|e| panic!("v{v}: {e:?}"));
        assert_eq!(d.payload, payload, "v{v}");
        assert_eq!(d.version as i16, v);
        assert!(!d.mirrored);
    }
}

#[test]
fn decodes_mirrored() {
    let m = qr_matrix("Q:mirror:1", 1, qrcode::EcLevel::M);
    let mut t = BitMatrix::new(m.dim);
    for y in 0..m.dim {
        for x in 0..m.dim {
            t.set(y, x, m.get(x, y));
        }
    }
    let d = decode_bits(&t).unwrap();
    assert_eq!(d.payload, "Q:mirror:1");
    assert!(d.mirrored);
}

#[test]
fn garbage_fails_cleanly() {
    let mut m = BitMatrix::new(21);
    for y in 0..21 {
        for x in 0..21 {
            m.set(x, y, (x * 31 + y * 17) % 3 == 0);
        }
    }
    assert!(decode_bits(&m).is_err());
}

#[test]
fn shared_finder_count_counts_set_intersection() {
    assert_eq!(shared_finder_count([0, 1, 2], [0, 1, 2]), 3);
    assert_eq!(shared_finder_count([0, 1, 2], [0, 1, 9]), 2);
    assert_eq!(shared_finder_count([0, 1, 2], [0, 9, 9]), 1);
    assert_eq!(shared_finder_count([0, 1, 2], [7, 8, 9]), 0);
}

/// Candidate order best-first by snap error, as the decode loop visits them.
fn by_snap_error(snap_errors: &[f64]) -> Vec<usize> {
    let mut order: Vec<usize> = (0..snap_errors.len()).collect();
    order.sort_by(|&a, &b| snap_errors[a].partial_cmp(&snap_errors[b]).unwrap_or(std::cmp::Ordering::Equal));
    order
}

#[test]
fn dedup_keeps_lower_snap_error_when_two_finders_shared() {
    let finders = vec![[0, 1, 2], [0, 1, 3], [4, 5, 6]];
    let order = by_snap_error(&[0.1, 0.2, 0.3]);
    assert_eq!(dedup_triplet_indices(&order, &finders), vec![0, 2]);
}

#[test]
fn dedup_keeps_both_when_only_one_finder_shared() {
    let finders = vec![[0, 1, 2], [2, 3, 4]];
    let order = by_snap_error(&[0.1, 0.2]);
    assert_eq!(dedup_triplet_indices(&order, &finders), vec![0, 1]);
}

#[test]
fn dedup_drops_exact_duplicate_regardless_of_order() {
    let finders = vec![[0, 1, 2], [1, 2, 0]];
    let order = by_snap_error(&[0.05, 0.10]);
    assert_eq!(dedup_triplet_indices(&order, &finders), vec![0]);
}

#[test]
fn dedup_chain_all_collapse_to_the_first() {
    let finders = vec![[0, 1, 2], [0, 1, 9], [0, 2, 9], [1, 2, 9]];
    let order = by_snap_error(&[0.1, 0.2, 0.3, 0.4]);
    assert_eq!(dedup_triplet_indices(&order, &finders), vec![0]);
}

#[test]
fn dedup_follows_the_visit_order() {
    let finders = vec![[0, 1, 2], [0, 1, 3]];
    let order = by_snap_error(&[0.9, 0.2]);
    assert_eq!(dedup_triplet_indices(&order, &finders), vec![1]);
}

#[test]
fn attempt_cap_limits_total_attempts_even_with_many_disjoint_candidates() {
    let total = MAX_DECODE_ATTEMPTS + 5;
    let mut state = Arbitration::new(total * 3);
    let mut attempts = 0;
    for i in 0..total {
        match state.next([i * 3, i * 3 + 1, i * 3 + 2]) {
            Step::Stop => break,
            Step::Skip => continue,
            Step::Attempt => attempts += 1,
        }
    }
    assert_eq!(attempts, MAX_DECODE_ATTEMPTS);
    assert_eq!(state.attempts_run(), MAX_DECODE_ATTEMPTS);
}

#[test]
fn arbitration_consumes_finders_and_skips_a_candidate_sharing_one() {
    let mut state = Arbitration::new(6);
    assert_eq!(state.next([0, 1, 2]), Step::Attempt);
    state.succeeded([0, 1, 2]);
    assert_eq!(state.next([2, 3, 4]), Step::Skip);
    assert_eq!(state.next([3, 4, 5]), Step::Attempt);
    assert_eq!(state.attempts_run(), 2);
}

#[test]
fn timing_check_nudges_close_estimates_only() {
    // v2 symbol (25 modules) estimated at 27: the timing count 12 implies 25.
    assert_eq!(timing_checked_dimension(27, Some(12)), (25, Some(25)));
    // Agreement keeps the estimate but still reports the count's dimension.
    assert_eq!(timing_checked_dimension(25, Some(12)), (25, Some(25)));
    // Too far apart: the estimate stands.
    assert_eq!(timing_checked_dimension(29, Some(12)), (29, Some(25)));
    // No usable count, or an estimate past version 6: no check.
    assert_eq!(timing_checked_dimension(25, None), (25, None));
    assert_eq!(timing_checked_dimension(45, Some(32)), (45, None));
}

#[test]
fn version_of_dimension_covers_versions_1_to_40() {
    assert_eq!(version_of_dimension(21), Some(1));
    assert_eq!(version_of_dimension(23), Some(1));
    assert_eq!(version_of_dimension(177), Some(40));
    assert_eq!(version_of_dimension(19), None);
    assert_eq!(version_of_dimension(0), None);
    assert_eq!(version_of_dimension(181), None);
}

#[test]
fn version_bits_override_the_dimension() {
    assert_eq!(version_checked_dimension(47, Some(7)), 45);
    assert_eq!(version_checked_dimension(47, None), 47);
    assert_eq!(alignment_pattern_total(0), 0);
    assert_eq!(alignment_pattern_total(2), 1);
    assert_eq!(alignment_pattern_total(7), 46);
}
