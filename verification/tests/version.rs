use qrkit::alignment::{alignment_coords, is_finder_corner};
use qrkit::qrgen::generate_qr_bits;
use qrkit::version::{
    bch_decode_version, count_ones, count_timing_transitions, count_transitions, pack_msb_first,
    read_version_bits, reverse_bits, version_block_position, version_decode_info,
};

#[test]
fn bch_exact_codewords_decode() {
    assert_eq!(bch_decode_version(0x07C94), Some(7));
    assert_eq!(bch_decode_version(0x0C762), Some(12));
    assert_eq!(bch_decode_version(0x28C69), Some(40));
}

#[test]
fn bch_three_errors_ok_four_rejected() {
    let w = 0x07C94u32;
    assert_eq!(bch_decode_version(w ^ 0b111), Some(7));
    assert_eq!(bch_decode_version(w ^ 0b1111), None);
}

#[test]
fn version_decode_info_min_distance_is_8() {
    let table = version_decode_info();
    let mut min_dist = u32::MAX;
    for (i, &a) in table.iter().enumerate() {
        for &b in &table[i + 1..] {
            min_dist = min_dist.min((a ^ b).count_ones());
        }
    }
    assert_eq!(min_dist, 8);
}

#[test]
fn every_codeword_corrects_three_bit_errors() {
    for (i, &c) in version_decode_info().iter().enumerate() {
        for flips in [0u32, 1 << 17, (1 << 3) | (1 << 9), 0b10101 << 5] {
            if flips.count_ones() <= 3 {
                assert_eq!(bch_decode_version(c ^ flips), Some(i as u32 + 7));
            }
        }
    }
}

#[test]
fn count_ones_matches_std() {
    for x in [0u32, 1, 0x07C94, u32::MAX, 0x8000_0001] {
        assert_eq!(count_ones(x), x.count_ones());
    }
}

#[test]
fn reverse_bits_reverses_the_low_bits() {
    assert_eq!(reverse_bits(0b110, 3), 0b011);
    assert_eq!(reverse_bits(0b1, 18), 1 << 17);
    assert_eq!(reverse_bits(0x07C94, 18), 0x07C94u32.reverse_bits() >> 14);
    assert_eq!(reverse_bits(u32::MAX, 0), 0);
}

#[test]
fn alignment_coords_table_spot_checks() {
    assert_eq!(alignment_coords(1), Vec::<u8>::new());
    assert_eq!(alignment_coords(2), vec![6, 18]);
    assert_eq!(alignment_coords(7), vec![6, 22, 38]);
    assert_eq!(alignment_coords(32), vec![6, 34, 60, 86, 112, 138]);
    assert_eq!(alignment_coords(40), vec![6, 30, 58, 86, 114, 142, 170]);
}

#[test]
fn min_gap_between_adjacent_real_nodes_is_16_modules() {
    let mut min_gap = u8::MAX;
    for version in 7..=40u32 {
        let coords = alignment_coords(version);
        for w in coords.windows(2) {
            min_gap = min_gap.min(w[1] - w[0]);
        }
    }
    assert_eq!(min_gap, 16);
}

#[test]
fn every_versions_coords_start_at_6_and_end_at_dim_minus_7() {
    for version in 2..=40u32 {
        let coords = alignment_coords(version);
        let dim = 17 + 4 * version;
        assert_eq!(coords[0], 6, "v{version} first coord");
        assert_eq!(*coords.last().unwrap() as u32, dim - 7, "v{version} last coord");
    }
}

#[test]
fn finder_corners_are_the_three_lattice_corners() {
    assert!(is_finder_corner(0, 0, 3));
    assert!(is_finder_corner(0, 2, 3));
    assert!(is_finder_corner(2, 0, 3));
    assert!(!is_finder_corner(2, 2, 3));
    assert!(!is_finder_corner(1, 0, 3));
}

/// The ideal row-6 line of a `dim`-module symbol.
fn timing_line(dim: usize) -> Vec<bool> {
    (0..dim)
        .map(|i| {
            if i <= 6 || i >= dim - 7 {
                true
            } else if i == 7 || i == dim - 8 {
                false
            } else {
                (i - 8) % 2 == 0
            }
        })
        .collect()
}

#[test]
fn timing_line_transitions_are_dimension_minus_13() {
    for version in 1..=40usize {
        let dim = 17 + 4 * version;
        let line = timing_line(dim);
        assert_eq!(count_transitions(&line), dim as u32 - 13, "v{version}");
        assert_eq!(count_timing_transitions(&line, &line), Some(dim as u32 - 13));
    }
}

#[test]
fn timing_axes_must_agree() {
    let row = timing_line(21);
    let mut col = row.clone();
    col[10] = !col[10];
    assert_eq!(count_timing_transitions(&row, &col), None);
    assert_eq!(count_transitions(&[]), 0);
    assert_eq!(count_transitions(&[true]), 0);
    assert_eq!(count_transitions(&[true, false, false, true]), 2);
}

#[test]
fn version_block_positions_follow_the_reading_order() {
    // Top-right block of a v7 symbol (45 modules): row 5 first, columns
    // 36, 35, 34; the bottom-left block is its transpose.
    assert_eq!(version_block_position(45, true, 0), (36, 5));
    assert_eq!(version_block_position(45, true, 2), (34, 5));
    assert_eq!(version_block_position(45, true, 3), (36, 4));
    assert_eq!(version_block_position(45, true, 17), (34, 0));
    assert_eq!(version_block_position(45, false, 0), (5, 36));
    assert_eq!(version_block_position(45, false, 17), (0, 34));
}

#[test]
fn pack_msb_first_puts_the_first_sample_on_top() {
    assert_eq!(pack_msb_first(&[]), 0);
    assert_eq!(pack_msb_first(&[true, false, false]), 0b100);
    let bits: Vec<bool> = (0..18).map(|i| (0x07C94u32 >> (17 - i)) & 1 == 1).collect();
    assert_eq!(pack_msb_first(&bits), 0x07C94);
    assert_eq!(pack_msb_first(&[true; 32]), u32::MAX);
}

#[test]
fn read_version_bits_tries_both_blocks_and_bit_orders() {
    let v7 = 0x07C94u32;
    let v40 = 0x28C69u32;
    assert_eq!(read_version_bits(Some(v7), None), Some(7));
    assert_eq!(read_version_bits(Some(reverse_bits(v7, 18)), None), Some(7));
    assert_eq!(read_version_bits(None, Some(v40)), Some(40));
    assert_eq!(read_version_bits(Some(0), Some(reverse_bits(v40, 18))), Some(40));
    // The top-right block wins when both decode.
    assert_eq!(read_version_bits(Some(v7), Some(v40)), Some(7));
    assert_eq!(read_version_bits(None, None), None);
    assert_eq!(read_version_bits(Some(0), Some(0x3FFFF)), None);
}

#[test]
fn timing_transitions_formula_matches_real_matrices() {
    for v in 1u32..=6 {
        let m = generate_qr_bits("HELLO", v, 1).unwrap();
        let dim = m.dim;
        let row: Vec<bool> = (0..dim).map(|x| m.get(x, 6)).collect();
        let col: Vec<bool> = (0..dim).map(|y| m.get(6, y)).collect();
        assert_eq!(count_transitions(&row) as usize, dim - 13, "v{v} row");
        assert_eq!(count_transitions(&col) as usize, dim - 13, "v{v} col");
    }
}
