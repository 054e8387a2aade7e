use chess_core::game::{
    bit_to_position, index_to_position, position_to_bit, DecodeError, Game, PieceType, Square,
};
use chess_core::utils::{bit_scan, Color};

const START: &str = "rnbqkbnr/pppppppp/8/8/8/8/PPPPPPPP/RNBQKBNR w KQkq - 0 1";

fn board_invariant_holds(g: &Game) -> bool {
    if g.squares.len() != 64 {
        return false;
    }
    let mut seen = vec![0usize; g.pieces.len()];
    for (i, sq) in g.squares.iter().enumerate() {
        if let Square::Occupied(k) = sq {
            if *k >= g.pieces.len() || g.pieces[*k].position != 1u64 << i {
                return false;
            }
            seen[*k] += 1;
        }
    }
    seen.iter().all(|n| *n == 1)
}

#[test]
fn square_names_round_trip() {
    for file in "abcdefgh".chars() {
        for rank in "12345678".chars() {
            let name = format!("{}{}", file, rank);
            let bit = position_to_bit(&name).unwrap();
            assert_eq!(bit_to_position(bit).unwrap(), name);
        }
    }
    assert_eq!(position_to_bit("a1"), Ok(1));
    assert_eq!(position_to_bit("e3"), Ok(1u64 << 20));
    assert_eq!(position_to_bit("h8"), Ok(1u64 << 63));
}

#[test]
fn malformed_square_names_are_rejected() {
    for bad in ["i9", "a0", "aa", "", "a", "a10", "A1", "é1"] {
        assert_eq!(position_to_bit(bad), Err(DecodeError::MalformedAlgebraicSquare));
    }
}

#[test]
fn empty_mask_has_no_square() {
    assert_eq!(bit_to_position(0), Err(DecodeError::EmptyBitboard));
    assert_eq!(bit_to_position((1u64 << 12) | (1u64 << 40)).unwrap(), "e2");
    assert_eq!(index_to_position(0), "a1");
    assert_eq!(index_to_position(63), "h8");
}

#[test]
fn start_position_decodes() {
    let g = Game::read_fen(START).unwrap();
    assert_eq!(g.pieces.len(), 32);
    assert_eq!(g.active_color, Color::White);
    assert_eq!(g.castling_rights.bits, 0b1111);
    assert_eq!(g.en_passant, None);
    assert_eq!(g.ply, 0);
    assert_eq!(g.fullmoves, 1);
    assert!(board_invariant_holds(&g));
    assert_eq!(g.pieces[0].piece_type, PieceType::Rook);
    assert_eq!(g.pieces[0].color, Color::White);
    assert_eq!(g.pieces[4].piece_type, PieceType::King);
    assert_eq!(g.pieces[31].color, Color::Black);
    assert_eq!(bit_scan(g.pieces[31].position), 63);
    assert_eq!(g.squares[20], Square::Empty);
}

#[test]
fn empty_board_decodes() {
    let g = Game::read_fen("8/8/8/8/8/8/8/8 w - - 0 1").unwrap();
    assert!(g.pieces.is_empty());
    assert_eq!(g.squares.len(), 64);
    assert!(g.squares.iter().all(|s| *s == Square::Empty));
    assert_eq!(g.castling_rights.bits, 0);
}

#[test]
fn later_position_decodes() {
    let g = Game::read_fen("rnbqkbnr/ppp1pppp/8/3p4/4P3/8/PPPP1PPP/RNBQKBNR b Kq d6 12 2").unwrap();
    assert_eq!(g.active_color, Color::Black);
    assert_eq!(g.castling_rights.bits, 0b1001);
    assert_eq!(g.en_passant, Some(1u64 << 43));
    assert_eq!(g.ply, 12);
    assert_eq!(g.fullmoves, 2);
    assert_eq!(g.squares[28], Square::Occupied(15));
    assert!(board_invariant_holds(&g));
}

#[test]
fn malformed_fen_is_rejected() {
    assert_eq!(
        Game::read_fen("rnbqkbnr/pppppppp w KQkq - 0 1").err(),
        Some(DecodeError::MalformedFenStructure)
    );
    assert_eq!(
        Game::read_fen("rnbqkbnr/pppppppp/8/8/8/8/PPPPPPPP/RNBQKBNR w KQkq -").err(),
        Some(DecodeError::MalformedFenStructure)
    );
    assert_eq!(Game::read_fen("").err(), Some(DecodeError::MalformedFenStructure));
    assert_eq!(
        Game::read_fen("rnbqkbnr/pppppppp/7/8/8/8/PPPPPPPP/RNBQKBNR w KQkq - 0 1").err(),
        Some(DecodeError::RankSquareCountMismatch)
    );
    assert_eq!(
        Game::read_fen("rnbqkbnrr/pppppppp/8/8/8/8/PPPPPPPP/RNBQKBNR w KQkq - 0 1").err(),
        Some(DecodeError::RankSquareCountMismatch)
    );
    assert_eq!(
        Game::read_fen("rnbqkbnr/ppppxppp/8/8/8/8/PPPPPPPP/RNBQKBNR w KQkq - 0 1").err(),
        Some(DecodeError::InvalidBoardCharacter('x'))
    );
    assert_eq!(
        Game::read_fen("8/8/8/8/8/8/8/8 x - - 0 1").err(),
        Some(DecodeError::InvalidColorToken)
    );
    assert_eq!(
        Game::read_fen("8/8/8/8/8/8/8/8 w KX - 0 1").err(),
        Some(DecodeError::InvalidCastlingToken('X'))
    );
    assert_eq!(
        Game::read_fen("8/8/8/8/8/8/8/8 w - z9 0 1").err(),
        Some(DecodeError::MalformedAlgebraicSquare)
    );
    assert_eq!(
        Game::read_fen("8/8/8/8/8/8/8/8 w - - x 1").err(),
        Some(DecodeError::InvalidIntegerField)
    );
    assert_eq!(
        Game::read_fen("8/8/8/8/8/8/8/8 w - - 0 99999999999999999999999").err(),
        Some(DecodeError::InvalidIntegerField)
    );
}

#[test]
fn castling_rights_are_additive() {
    let g = Game::read_fen("8/8/8/8/8/8/8/8 w qKqk - 0 1").unwrap();
    assert_eq!(g.castling_rights.bits, 0b1101);
}

#[test]
fn board_text_of_start_position() {
    let g = Game::read_fen(START).unwrap();
    let expected = "\
r n b q k b n r \n\
p p p p p p p p \n\
a6b6c6d6e6f6g6h6\n\
a5b5c5d5e5f5g5h5\n\
a4b4c4d4e4f4g4h4\n\
a3b3c3d3e3f3g3h3\n\
P P P P P P P P \n\
R N B Q K B N R \n";
    assert_eq!(g.board_rep(), expected);
}
