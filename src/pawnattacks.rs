//! Pawn push and capture masks for every square and both colors.
use crate::utils::{
    has_bit, lemma_no_bits, lemma_or_bits, lemma_same_bits_same_mask, marks, on_board, set_bit,
    Bitboard, Color,
};
use vstd::prelude::*;

verus! {

/// Square `i` is a forward move of a pawn of `color` on `(row, col)`: one
/// step, and two from the pawn's starting row. Rows 1 and 8 have none.
pub open spec fn push_hits(row: int, col: int, color: Color, i: int) -> bool {
    2 <= row <= 7 && match color {
        Color::White => marks(row + 1, col, i) || (row == 2 && marks(row + 2, col, i)),
        Color::Black => marks(row - 1, col, i) || (row == 7 && marks(row - 2, col, i)),
    }
}

/// Square `i` is a diagonal (capturing) move of a pawn of `color` on
/// `(row, col)`. Rows 1 and 8 have none.
pub open spec fn capture_hits(row: int, col: int, color: Color, i: int) -> bool {
    2 <= row <= 7 && match color {
        Color::White => marks(row + 1, col + 1, i) || marks(row + 1, col - 1, i),
        Color::Black => marks(row - 1, col + 1, i) || marks(row - 1, col - 1, i),
    }
}

/// Square `s` of `table` holds the pushes (or captures) of a pawn of `color`
/// on `s`.
pub open spec fn pawn_table(table: Seq<Bitboard>, color: Color, captures: bool) -> bool {
    pawn_prefix(table, 64, color, captures)
}

/// The pawn move masks, indexed by square.
pub struct PawnAttacks {
    pub white_forward_moves: Vec<Bitboard>,
    pub white_diagonal_moves: Vec<Bitboard>,
    pub black_forward_moves: Vec<Bitboard>,
    pub black_diagonal_moves: Vec<Bitboard>,
}

/// `table` has `n` entries, square `s` holding the pushes (or captures) of a
/// pawn of `color` on `s`.
pub open spec fn pawn_prefix(table: Seq<Bitboard>, n: int, color: Color, captures: bool) -> bool {
    &&& table.len() == n
    &&& forall|s: int, i: int|
        0 <= s < n ==> (#[trigger] has_bit(table[s], i) <==> if captures {
            capture_hits(s / 8 + 1, s % 8 + 1, color, i)
        } else {
            push_hits(s / 8 + 1, s % 8 + 1, color, i)
        })
}

impl PawnAttacks {
    pub open spec fn wf(&self) -> bool {
        &&& pawn_table(self.white_forward_moves@, Color::White, false)
        &&& pawn_table(self.white_diagonal_moves@, Color::White, true)
        &&& pawn_table(self.black_forward_moves@, Color::Black, false)
        &&& pawn_table(self.black_diagonal_moves@, Color::Black, true)
    }

    pub fn init() -> (r: Self)
        ensures
            r.wf(),
    {
        let mut white_forward: Vec<Bitboard> = Vec::new();
        let mut white_diagonal: Vec<Bitboard> = Vec::new();
        let mut black_forward: Vec<Bitboard> = Vec::new();
        let mut black_diagonal: Vec<Bitboard> = Vec::new();
        let mut row: i32 = 1;
        while row <= 8
            invariant
                1 <= row <= 9,
                pawn_prefix(white_forward@, (row - 1) * 8, Color::White, false),
                pawn_prefix(white_diagonal@, (row - 1) * 8, Color::White, true),
                pawn_prefix(black_forward@, (row - 1) * 8, Color::Black, false),
                pawn_prefix(black_diagonal@, (row - 1) * 8, Color::Black, true),
            decreases 9 - row,
        {
            let mut col: i32 = 1;
            while col <= 8
                invariant
                    1 <= row <= 8,
                    1 <= col <= 9,
                    pawn_prefix(white_forward@, (row - 1) * 8 + col - 1, Color::White, false),
                    pawn_prefix(white_diagonal@, (row - 1) * 8 + col - 1, Color::White, true),
                    pawn_prefix(black_forward@, (row - 1) * 8 + col - 1, Color::Black, false),
                    pawn_prefix(black_diagonal@, (row - 1) * 8 + col - 1, Color::Black, true),
                decreases 9 - col,
            {
                let ghost s = (row - 1) * 8 + col - 1;
                assert(s / 8 + 1 == row && s % 8 + 1 == col);
                let f = forward_move(row, col, Color::White);
                let d = diagonal_move(row, col, Color::White);
                white_forward.push(f);
                white_diagonal.push(d);
                let f = forward_move(row, col, Color::Black);
                let d = diagonal_move(row, col, Color::Black);
                black_forward.push(f);
                black_diagonal.push(d);
                col = col + 1;
            }
            row = row + 1;
        }
        PawnAttacks {
            white_forward_moves: white_forward,
            white_diagonal_moves: white_diagonal,
            black_forward_moves: black_forward,
            black_diagonal_moves: black_diagonal,
        }
    }
}

/// A pawn table is determined by its color and kind of move.
pub proof fn lemma_pawn_table_unique(a: Seq<Bitboard>, b: Seq<Bitboard>, color: Color, captures: bool)
    requires
        pawn_table(a, color, captures),
        pawn_table(b, color, captures),
    ensures
        a == b,
{
    assert forall|s: int| 0 <= s < 64 implies #[trigger] a[s] == b[s] by {
        assert forall|i: int| #[trigger] has_bit(a[s], i) <==> has_bit(b[s], i) by {}
        lemma_same_bits_same_mask(a[s], b[s]);
    }
    assert(a =~= b);
}

/// The forward moves of a pawn of `color` on `(row, col)`, the double step
/// from its starting row included; empty on rows 1 and 8.
pub fn forward_move(row: i32, col: i32, color: Color) -> (r: Bitboard)
    requires
        on_board(row as int, col as int),
    ensures
        forall|i: int| #[trigger] has_bit(r, i) <==> push_hits(row as int, col as int, color, i),
{
    proof {
        lemma_no_bits(0);
    }
    if row == 1 || row == 8 {
        return 0;
    }
    let mut bitboard: Bitboard = 0;
    if color == Color::White {
        let one = set_bit(row + 1, col);
        proof {
            lemma_or_bits(bitboard, one);
        }
        bitboard = bitboard | one;
        if row == 2 {
            let two = set_bit(row + 2, col);
            proof {
                lemma_or_bits(bitboard, two);
            }
            bitboard = bitboard | two;
        }
    } else {
        let one = set_bit(row - 1, col);
        proof {
            lemma_or_bits(bitboard, one);
        }
        bitboard = bitboard | one;
        if row == 7 {
            let two = set_bit(row - 2, col);
            proof {
                lemma_or_bits(bitboard, two);
            }
            bitboard = bitboard | two;
        }
    }
    bitboard
}

/// The diagonal moves of a pawn of `color` on `(row, col)`; empty on rows 1
/// and 8.
pub fn diagonal_move(row: i32, col: i32, color: Color) -> (r: Bitboard)
    requires
        on_board(row as int, col as int),
    ensures
        forall|i: int| #[trigger] has_bit(r, i) <==> capture_hits(row as int, col as int, color, i),
{
    proof {
        lemma_no_bits(0);
    }
    if row == 1 || row == 8 {
        return 0;
    }
    let (right, left) = if color == Color::White {
        (set_bit(row + 1, col + 1), set_bit(row + 1, col - 1))
    } else {
        (set_bit(row - 1, col + 1), set_bit(row - 1, col - 1))
    };
    proof {
        lemma_or_bits(right, left);
    }
    right | left
}

} // verus!
