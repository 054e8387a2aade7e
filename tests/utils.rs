use chess_core::utils::{bit_scan, bit_scan_backwards, bitboard_to_string, row_col_to_index, set_bit};

#[test]
fn test_bit_scan_backwards() {
    for highest_bit in 0..64 {
        let mut bit = 1 << highest_bit;
        for other_bit in 0..highest_bit {
            if (other_bit + 37) % 3 != 0 {
                bit |= 1 << other_bit;
            }
        }
        let bit_scan_result = bit_scan_backwards(bit);
        assert_eq!(highest_bit, bit_scan_result);
    }
}

#[test]
fn bit_scan_works() {
    for i in 0..64 {
        let bit = (1 as u64) << i;
        let index = bit_scan(bit);
        assert_eq!(i, index);
    }
}

#[test]
fn bit_scan_with_multiple_bits() {
    for lowest_bit in 0..64 {
        let mut bit = 1 << lowest_bit;
        for other_bit in (lowest_bit + 1)..64 {
            if (other_bit + 37) % 3 != 0 {
                bit |= 1 << other_bit;
            }
        }
        let bit_scan_result = bit_scan(bit);
        assert_eq!(lowest_bit, bit_scan_result);
    }
}

#[test]
fn bit_scan_works_highest_bit_is_1() {
    for i in 0..64 {
        let mut bit = (1 as u64) << i;
        bit |= (1 as u64) << 63;
        let index = bit_scan(bit);
        assert_eq!(i, index);
    }
}

#[test]
fn bit_scan_of_full_mask_is_zero() {
    assert_eq!(bit_scan(u64::MAX), 0);
    assert_eq!(bit_scan_backwards(u64::MAX), 63);
    assert_eq!(bit_scan_backwards(0), 0);
}

#[test]
fn set_bit_and_index_agree() {
    assert_eq!(set_bit(1, 1), 1);
    assert_eq!(set_bit(8, 8), 1u64 << 63);
    assert_eq!(set_bit(2, 3), 1u64 << 10);
    assert_eq!(set_bit(0, 3), 0);
    assert_eq!(set_bit(3, 9), 0);
    assert_eq!(row_col_to_index(2, 3), 10);
    assert_eq!(row_col_to_index(8, 8), 63);
}

#[test]
fn bitboard_text_puts_eighth_rank_first() {
    let text = bitboard_to_string((1u64 << 63) | 1, Some(9));
    let expected = "\
.......1
........
........
........
........
........
.X......
1.......
";
    assert_eq!(text, expected);
    assert_eq!(bitboard_to_string(0, None), "........\n".repeat(8));
}
