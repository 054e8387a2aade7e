//! A bitboard held in a struct of its own.
use crate::utils::{has_bit, marks, set_bit};
use vstd::prelude::*;

verus! {

/// A set of squares, one bit each.
pub struct Bitboard {
    board: u64,
}

impl View for Bitboard {
    type V = u64;

    closed spec fn view(&self) -> u64 {
        self.board
    }
}

impl Bitboard {
    /// The empty set.
    pub fn init() -> (r: Self)
        ensures
            r@ == 0,
    {
        Bitboard { board: 0 }
    }

    /// Makes the board hold square `(row, col)` alone; off the board it
    /// becomes empty.
    pub fn set_bit(&mut self, row: i32, col: i32)
        ensures
            forall|i: int| #[trigger] has_bit(final(self)@, i) <==> marks(row as int, col as int, i),
    {
        self.board = set_bit(row, col);
    }

    pub fn get_board_as_u64(self) -> (r: u64)
        ensures
            r == self@,
    {
        self.board
    }
}

} // verus!
