use chess_core::bitboard::Bitboard;
use chess_core::utils::bitboard_to_string;

#[test]
#[allow(non_snake_case)]
fn test_Bitboard_init() {
    let _emptyboard = Bitboard::init();
}

#[test]
fn test_print_empty_board() {
    let emptyboard = Bitboard::init();
    println!("{}", bitboard_to_string(emptyboard.get_board_as_u64(), None));
}

#[test]
fn test_getboard_as_u64() {
    let emptyboard = Bitboard::init();
    let u64num = emptyboard.get_board_as_u64();
    println!("The u64num of the empty bitboard is: {}", u64num);
    assert_eq!(u64num, 0);
}

#[test]
fn test_set_bit() {
    let mut emptyboard = Bitboard::init();
    emptyboard.set_bit(2, 2);
    println!("{}", bitboard_to_string(emptyboard.get_board_as_u64(), None));
}

#[test]
fn test_getboard_with_bit_set() {
    let mut emptyboard = Bitboard::init();
    emptyboard.set_bit(2, 2);
    let u64num = emptyboard.get_board_as_u64();
    println!("The u64num of the set bitboard is: {}", u64num);
    assert_eq!(u64num, 1 << 9);
}

#[test]
fn set_bit_off_board_empties_the_board() {
    let mut board = Bitboard::init();
    board.set_bit(3, 3);
    board.set_bit(0, 3);
    assert_eq!(board.get_board_as_u64(), 0);
}
