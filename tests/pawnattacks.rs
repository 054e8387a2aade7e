use chess_core::pawnattacks::{diagonal_move, forward_move, PawnAttacks};
use chess_core::utils::{bit_scan, bitboard_to_string, Color};

#[test]
fn test_pawn_moves_second_row() {
    let pawns = PawnAttacks::init();
    let row = 4;
    let col = 8;
    let idx = (row - 1) * 8 + col - 1;
    println!("Here is the forward White Pawn moves: \n{}", bitboard_to_string(pawns.white_forward_moves[idx], Some(idx)));
    println!("Here is the diagonal White Pawn moves: \n{}", bitboard_to_string(pawns.white_diagonal_moves[idx], Some(idx)));
    println!("Here is the forward Black Pawn moves: \n{}", bitboard_to_string(pawns.black_forward_moves[idx], Some(idx)));
    println!("Here is the diagonal Black Pawn moves: \n{}", bitboard_to_string(pawns.black_diagonal_moves[idx], Some(idx)));
}

#[test]
fn test_middle_row_white_pawn() {
    for row in 3..=7 {
        for col in 1..=8 {
            let bitboard = forward_move(row, col, Color::White);
            let lsb = bit_scan(bitboard);
            let expected_lsb = (col - 1) + (row + 1 - 1) * 8;
            assert_eq!(lsb, expected_lsb as usize);
        }
    }
}

#[test]
fn white_double_push_from_second_row() {
    for col in 1..=8 {
        let mask = forward_move(2, col, Color::White);
        assert_eq!(mask.count_ones(), 2);
        let c = (col - 1) as u32;
        assert_eq!(mask, (1u64 << (16 + c)) | (1u64 << (24 + c)));
    }
}

#[test]
fn white_single_push_from_third_row() {
    for col in 1..=8 {
        assert_eq!(forward_move(3, col, Color::White).count_ones(), 1);
    }
}

#[test]
fn black_double_push_from_seventh_row() {
    let mask = forward_move(7, 5, Color::Black);
    assert_eq!(mask, (1u64 << 44) | (1u64 << 36));
}

#[test]
fn no_pawn_moves_on_first_and_last_rows() {
    for col in 1..=8 {
        for color in [Color::White, Color::Black] {
            assert_eq!(forward_move(1, col, color), 0);
            assert_eq!(forward_move(8, col, color), 0);
            assert_eq!(diagonal_move(1, col, color), 0);
            assert_eq!(diagonal_move(8, col, color), 0);
        }
    }
}

#[test]
fn diagonal_moves_clip_at_the_edge() {
    assert_eq!(diagonal_move(2, 1, Color::White), 1u64 << 17);
    assert_eq!(diagonal_move(4, 4, Color::White), (1u64 << 34) | (1u64 << 36));
    assert_eq!(diagonal_move(4, 8, Color::Black), 1u64 << 22);
}

#[test]
fn pawn_table_matches_move_functions() {
    let pawns = PawnAttacks::init();
    assert_eq!(pawns.white_forward_moves.len(), 64);
    assert_eq!(pawns.white_forward_moves[9], forward_move(2, 2, Color::White));
    assert_eq!(pawns.black_diagonal_moves[52], diagonal_move(7, 5, Color::Black));
}
