//! Chess position representation and attack-table precomputation over
//! 64-bit bitboards.
pub mod utils;
pub mod knightattacks;
pub mod pawnattacks;
pub mod rayattacks;
pub mod game;
pub mod bitboard;
