use chess_core::knightattacks::{knight_attacks, KnightAttacks};
use chess_core::utils::bitboard_to_string;

#[test]
fn test_knight_attacks_can_initialize() {
    let knight_attacks = KnightAttacks::init();
    assert_eq!(knight_attacks.0.len(), 64);
}

#[test]
fn print_knight_attacks() {
    let knight_attacks = KnightAttacks::init();
    println!("{}", bitboard_to_string(knight_attacks.0[0], Some(0)));
    println!("{}", bitboard_to_string(knight_attacks.0[40], Some(40)));
    println!("{}", bitboard_to_string(knight_attacks.0[17], Some(17)));
    println!("{}", bitboard_to_string(knight_attacks.0[55], Some(55)));
}

#[test]
fn knight_on_a1_attacks_b3_and_c2() {
    let table = KnightAttacks::init();
    assert_eq!(table.0[0], (1u64 << 17) | (1u64 << 10));
    assert_eq!(table.0[0].count_ones(), 2);
}

#[test]
fn knight_on_d4_attacks_eight_squares() {
    let table = KnightAttacks::init();
    assert_eq!(table.0[27].count_ones(), 8);
    let expected: u64 = [10u32, 12, 17, 21, 33, 37, 42, 44]
        .iter()
        .fold(0u64, |b, s| b | (1u64 << s));
    assert_eq!(knight_attacks(4, 4), expected);
}

#[test]
fn knight_on_h8_attacks_two_squares() {
    assert_eq!(knight_attacks(8, 8), (1u64 << 46) | (1u64 << 53));
}
