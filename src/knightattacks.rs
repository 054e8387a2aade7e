//! Knight attack masks for every square.
use crate::utils::{has_bit, lemma_or_bits, lemma_same_bits_same_mask, marks, on_board, set_bit, Bitboard};
use vstd::prelude::*;

verus! {

/// Square `i` is one knight's move from `(row, col)`.
pub open spec fn knight_hits(row: int, col: int, i: int) -> bool {
    ||| marks(row + 1, col + 2, i)
    ||| marks(row + 1, col - 2, i)
    ||| marks(row - 1, col + 2, i)
    ||| marks(row - 1, col - 2, i)
    ||| marks(row + 2, col + 1, i)
    ||| marks(row + 2, col - 1, i)
    ||| marks(row - 2, col + 1, i)
    ||| marks(row - 2, col - 1, i)
}

/// The knight attack masks, indexed by square.
pub struct KnightAttacks(pub Vec<Bitboard>);

impl KnightAttacks {
    /// Square `s` of the table holds the knight attacks from `s`.
    pub open spec fn wf(&self) -> bool {
        &&& self.0@.len() == 64
        &&& forall|s: int, i: int|
            0 <= s < 64 ==> (#[trigger] has_bit(self.0@[s], i) <==> knight_hits(
                s / 8 + 1,
                s % 8 + 1,
                i,
            ))
    }

    pub fn init() -> (r: Self)
        ensures
            r.wf(),
    {
        let mut attacks: Vec<Bitboard> = Vec::new();
        let mut row: i32 = 1;
        while row <= 8
            invariant
                1 <= row <= 9,
                attacks@.len() == (row - 1) * 8,
                forall|s: int, i: int|
                    0 <= s < attacks@.len() ==> (#[trigger] has_bit(attacks@[s], i)
                        <==> knight_hits(s / 8 + 1, s % 8 + 1, i)),
            decreases 9 - row,
        {
            let mut col: i32 = 1;
            while col <= 8
                invariant
                    1 <= row <= 8,
                    1 <= col <= 9,
                    attacks@.len() == (row - 1) * 8 + col - 1,
                    forall|s: int, i: int|
                        0 <= s < attacks@.len() ==> (#[trigger] has_bit(attacks@[s], i)
                            <==> knight_hits(s / 8 + 1, s % 8 + 1, i)),
                decreases 9 - col,
            {
                let a = knight_attacks(row, col);
                let ghost s = attacks@.len() as int;
                assert(s / 8 + 1 == row && s % 8 + 1 == col);
                attacks.push(a);
                col = col + 1;
            }
            row = row + 1;
        }
        KnightAttacks(attacks)
    }
}

/// The knight table is determined: any two built tables are identical.
pub proof fn lemma_knight_table_unique(a: &KnightAttacks, b: &KnightAttacks)
    requires
        a.wf(),
        b.wf(),
    ensures
        a.0@ == b.0@,
{
    assert forall|s: int| 0 <= s < 64 implies #[trigger] a.0@[s] == b.0@[s] by {
        assert forall|i: int| #[trigger] has_bit(a.0@[s], i) <==> has_bit(b.0@[s], i) by {}
        lemma_same_bits_same_mask(a.0@[s], b.0@[s]);
    }
    assert(a.0@ =~= b.0@);
}

/// The squares a knight on `(row, col)` attacks; moves that leave the board
/// are dropped.
pub fn knight_attacks(row: i32, col: i32) -> (r: Bitboard)
    requires
        on_board(row as int, col as int),
    ensures
        forall|i: int| #[trigger] has_bit(r, i) <==> knight_hits(row as int, col as int, i),
{
    let b1 = set_bit(row + 1, col + 2);
    let b2 = set_bit(row + 1, col - 2);
    let b3 = set_bit(row - 1, col + 2);
    let b4 = set_bit(row - 1, col - 2);
    let b5 = set_bit(row + 2, col + 1);
    let b6 = set_bit(row + 2, col - 1);
    let b7 = set_bit(row - 2, col + 1);
    let b8 = set_bit(row - 2, col - 1);
    proof {
        lemma_or_bits(b1, b2);
        lemma_or_bits(b1 | b2, b3);
        lemma_or_bits(b1 | b2 | b3, b4);
        lemma_or_bits(b1 | b2 | b3 | b4, b5);
        lemma_or_bits(b1 | b2 | b3 | b4 | b5, b6);
        lemma_or_bits(b1 | b2 | b3 | b4 | b5 | b6, b7);
        lemma_or_bits(b1 | b2 | b3 | b4 | b5 | b6 | b7, b8);
    }
    b1 | b2 | b3 | b4 | b5 | b6 | b7 | b8
}

} // verus!
