//! Bit indexing and row/column helpers shared by the attack tables and the
//! position decoder.
use vstd::prelude::*;

verus! {

/// A 64-bit mask: bit `i` stands for square `i` (`(row - 1) * 8 + (col - 1)`).
pub type Bitboard = u64;

/// The side a piece belongs to, or the side to move.
#[derive(Debug, PartialEq, Eq, Structural, Copy, Clone)]
pub enum Color {
    White,
    Black,
}

/// Bit `i` of `b` is set.
pub open spec fn has_bit(b: u64, i: int) -> bool {
    0 <= i < 64 && (b >> (i as u64)) & 1u64 == 1u64
}

/// Bit `i` is the lowest set bit of `b`.
pub open spec fn lowest_bit_is(b: u64, i: int) -> bool {
    has_bit(b, i) && forall|j: int| 0 <= j < i ==> !#[trigger] has_bit(b, j)
}

/// Bit `i` is the highest set bit of `b`: shifting `b` right by `i` leaves 1.
pub open spec fn highest_bit_is(b: u64, i: int) -> bool {
    0 <= i < 64 && b >> (i as u64) == 1u64
}

/// The index of the lowest set bit of a nonzero mask.
pub open spec fn lowest_set_bit(b: u64) -> int {
    choose|i: int| lowest_bit_is(b, i)
}

/// The squares `(row, col)` with both coordinates in `1..=8`.
pub open spec fn on_board(row: int, col: int) -> bool {
    1 <= row <= 8 && 1 <= col <= 8
}

/// The index of square `(row, col)`: files run along a row, rows upward.
pub open spec fn square_index(row: int, col: int) -> int {
    (row - 1) * 8 + (col - 1)
}

/// `(row, col)` is on the board and is square `i`.
pub open spec fn marks(row: int, col: int, i: int) -> bool {
    on_board(row, col) && square_index(row, col) == i
}

/// The mask of the lowest `n` bits.
pub open spec fn low_mask(n: u64) -> u64 {
    ((1u64 << n) - 1) as u64
}

/// The table that maps `2^i mod 67` to `i`; unused remainders map to 64.
pub open spec fn scan_table(rem: u64) -> u64 {
    match rem {
        0 => 64,
        1 => 0,
        2 => 1,
        3 => 39,
        4 => 2,
        5 => 15,
        6 => 40,
        7 => 23,
        8 => 3,
        9 => 12,
        10 => 16,
        11 => 59,
        12 => 41,
        13 => 19,
        14 => 24,
        15 => 54,
        16 => 4,
        17 => 64,
        18 => 13,
        19 => 10,
        20 => 17,
        21 => 62,
        22 => 60,
        23 => 28,
        24 => 42,
        25 => 30,
        26 => 20,
        27 => 51,
        28 => 25,
        29 => 44,
        30 => 55,
        31 => 47,
        32 => 5,
        33 => 32,
        34 => 64,
        35 => 38,
        36 => 14,
        37 => 22,
        38 => 11,
        39 => 58,
        40 => 18,
        41 => 53,
        42 => 63,
        43 => 9,
        44 => 61,
        45 => 27,
        46 => 29,
        47 => 50,
        48 => 43,
        49 => 46,
        50 => 31,
        51 => 37,
        52 => 21,
        53 => 57,
        54 => 52,
        55 => 8,
        56 => 26,
        57 => 49,
        58 => 45,
        59 => 36,
        60 => 56,
        61 => 7,
        62 => 48,
        63 => 35,
        64 => 6,
        65 => 34,        _ => 33,
    }
}

fn scan_table_lookup(rem: u64) -> (r: usize)
    requires
        rem < 67,
    ensures
        r as u64 == scan_table(rem),
{
    match rem {
        0 => 64,
        1 => 0,
        2 => 1,
        3 => 39,
        4 => 2,
        5 => 15,
        6 => 40,
        7 => 23,
        8 => 3,
        9 => 12,
        10 => 16,
        11 => 59,
        12 => 41,
        13 => 19,
        14 => 24,
        15 => 54,
        16 => 4,
        17 => 64,
        18 => 13,
        19 => 10,
        20 => 17,
        21 => 62,
        22 => 60,
        23 => 28,
        24 => 42,
        25 => 30,
        26 => 20,
        27 => 51,
        28 => 25,
        29 => 44,
        30 => 55,
        31 => 47,
        32 => 5,
        33 => 32,
        34 => 64,
        35 => 38,
        36 => 14,
        37 => 22,
        38 => 11,
        39 => 58,
        40 => 18,
        41 => 53,
        42 => 63,
        43 => 9,
        44 => 61,
        45 => 27,
        46 => 29,
        47 => 50,
        48 => 43,
        49 => 46,
        50 => 31,
        51 => 37,
        52 => 21,
        53 => 57,
        54 => 52,
        55 => 8,
        56 => 26,
        57 => 49,
        58 => 45,
        59 => 36,
        60 => 56,
        61 => 7,
        62 => 48,
        63 => 35,
        64 => 6,
        65 => 34,        _ => 33,
    }
}

proof fn lemma_scan_table_inverts_powers(i: u64)
    requires
        i < 64,
    ensures
        scan_table((1u64 << i) % 67) == i,
{
    assert(scan_table((1u64 << i) % 67) == i) by (bit_vector)
        requires
            i < 64,
    ;
}

proof fn lemma_low_mask_zero(b: u64)
    ensures
        b & low_mask(0) == 0,
{
    assert(b & (((1u64 << 0u64) - 1) as u64) == 0) by (bit_vector);
}

proof fn lemma_low_mask_step(b: u64, i: u64)
    requires
        i < 64,
        b & low_mask(i) == 0,
        (b >> i) & 1u64 == 0,
    ensures
        i < 63 ==> b & low_mask((i + 1) as u64) == 0,
        i == 63 ==> b == 0,
{
    assert(i < 63 ==> b & (((1u64 << ((i + 1) as u64)) - 1) as u64) == 0) by (bit_vector)
        requires
            i < 64,
            b & (((1u64 << i) - 1) as u64) == 0,
            (b >> i) & 1u64 == 0,
    ;
    assert(i == 63 ==> b == 0) by (bit_vector)
        requires
            i < 64,
            b & (((1u64 << i) - 1) as u64) == 0,
            (b >> i) & 1u64 == 0,
    ;
}

proof fn lemma_low_mask_clear_below(b: u64, i: u64, j: u64)
    requires
        j < i < 64,
        b & low_mask(i) == 0,
    ensures
        (b >> j) & 1u64 == 0,
{
    assert((b >> j) & 1u64 == 0) by (bit_vector)
        requires
            j < i < 64,
            b & (((1u64 << i) - 1) as u64) == 0,
    ;
}

proof fn lemma_isolate_lowest(b: u64, i: u64)
    requires
        i < 64,
        b & low_mask(i) == 0,
        (b >> i) & 1u64 == 1,
    ensures
        b & ((!b + 1) as u64) == 1u64 << i,
{
    assert(b & ((!b + 1) as u64) == 1u64 << i) by (bit_vector)
        requires
            i < 64,
            b & (((1u64 << i) - 1) as u64) == 0,
            (b >> i) & 1u64 == 1,
    ;
}

/// Finds the lowest set bit of a nonzero mask, searching upward from `start`.
proof fn lemma_lowest_bit_from(b: u64, start: u64) -> (i: u64)
    requires
        b != 0,
        start < 64,
        b & low_mask(start) == 0,
    ensures
        start <= i < 64,
        b & low_mask(i) == 0,
        (b >> i) & 1u64 == 1,
    decreases 64 - start,
{
    if (b >> start) & 1u64 == 1 {
        start
    } else {
        assert((b >> start) & 1u64 == 0) by (bit_vector)
            requires
                (b >> start) & 1u64 != 1,
        ;
        lemma_low_mask_step(b, start);
        lemma_lowest_bit_from(b, (start + 1) as u64)
    }
}

/// The mask form of "no bit below `i`" gives the pointwise form.
proof fn lemma_lowest_bit_is(b: u64, i: u64)
    requires
        i < 64,
        b & low_mask(i) == 0,
        (b >> i) & 1u64 == 1,
    ensures
        lowest_bit_is(b, i as int),
{
    assert forall|j: int| 0 <= j < i implies !#[trigger] has_bit(b, j) by {
        lemma_low_mask_clear_below(b, i, j as u64);
    }
}

/// At most one index is the lowest set bit.
proof fn lemma_lowest_bit_unique(b: u64, i: int, k: int)
    requires
        lowest_bit_is(b, i),
        lowest_bit_is(b, k),
    ensures
        i == k,
{
    if i < k {
        assert(!has_bit(b, i));
    } else if k < i {
        assert(!has_bit(b, k));
    }
}

/// The index of the lowest set bit of a nonzero mask, through the remainder
/// of the isolated bit modulo 67.
pub fn bit_scan(bit: u64) -> (r: usize)
    requires
        bit != 0,
    ensures
        lowest_bit_is(bit, r as int),
        r as int == lowest_set_bit(bit),
{
    assert(!bit < 0xffff_ffff_ffff_ffffu64) by (bit_vector)
        requires
            bit != 0,
    ;
    let one_bit = bit & (!bit + 1);
    let remainder = one_bit % 67;
    let r = scan_table_lookup(remainder);
    proof {
        lemma_low_mask_zero(bit);
        let i = lemma_lowest_bit_from(bit, 0);
        lemma_isolate_lowest(bit, i);
        lemma_scan_table_inverts_powers(i);
        lemma_lowest_bit_is(bit, i);
        lemma_lowest_bit_unique(bit, i as int, lowest_set_bit(bit));
    }
    r
}

/// The index of the highest set bit; 0 for an empty mask.
pub fn bit_scan_backwards(bit: u64) -> (r: usize)
    ensures
        bit != 0 ==> highest_bit_is(bit, r as int),
        bit == 0 ==> r == 0,
{
    let mut v: u64 = bit;
    let mut r: u64 = 0;
    assert(bit >> 0u64 == bit) by (bit_vector);
    while v > 1
        invariant
            r < 64,
            v == bit >> r,
            bit != 0 ==> v != 0,
        decreases v,
    {
        assert(r < 63 && (bit >> r) >> 1u64 == bit >> ((r + 1) as u64) && (bit >> r) >> 1u64 < bit
            >> r && (bit >> r) >> 1u64 != 0) by (bit_vector)
            requires
                r < 64,
                bit >> r > 1,
        ;
        v = v >> 1;
        r = r + 1;
    }
    if bit == 0 {
        0
    } else {
        r as usize
    }
}

/// The linear index of the square `(row, col)`.
pub fn row_col_to_index(row: i32, col: i32) -> (r: i32)
    requires
        on_board(row as int, col as int),
    ensures
        r as int == square_index(row as int, col as int),
        0 <= r < 64,
{
    (col - 1) + (row - 1) * 8
}

/// The one-bit mask of square `(row, col)`, or the empty mask off the board.
pub fn set_bit(row: i32, col: i32) -> (r: Bitboard)
    ensures
        forall|i: int| #[trigger] has_bit(r, i) <==> marks(row as int, col as int, i),
{
    proof {
        lemma_no_bits(0);
    }
    if row < 1 || row > 8 || col < 1 || col > 8 {
        0
    } else {
        let s = ((col - 1) + (row - 1) * 8) as u64;
        proof {
            lemma_single_bit(s);
        }
        1u64 << s
    }
}

/// The empty mask has no set bit.
pub proof fn lemma_no_bits(b: u64)
    requires
        b == 0,
    ensures
        forall|i: int| !#[trigger] has_bit(b, i),
{
    assert forall|i: int| !#[trigger] has_bit(b, i) by {
        if 0 <= i < 64 {
            let k = i as u64;
            assert((b >> k) & 1u64 == 0) by (bit_vector)
                requires
                    b == 0,
            ;
        }
    }
}

/// `1 << s` has exactly bit `s` set.
pub proof fn lemma_single_bit(s: u64)
    requires
        s < 64,
    ensures
        forall|i: int| #[trigger] has_bit(1u64 << s, i) <==> i == s,
{
    assert forall|i: int| #[trigger] has_bit(1u64 << s, i) <==> i == s by {
        if 0 <= i < 64 {
            let k = i as u64;
            assert(((1u64 << s) >> k) & 1u64 == 1u64 <==> k == s) by (bit_vector)
                requires
                    s < 64,
                    k < 64,
            ;
        }
    }
}

/// The bits of `a | b` are those of `a` and those of `b`.
pub proof fn lemma_or_bits(a: u64, b: u64)
    ensures
        forall|i: int| #[trigger] has_bit(a | b, i) <==> has_bit(a, i) || has_bit(b, i),
{
    assert forall|i: int| #[trigger] has_bit(a | b, i) <==> has_bit(a, i) || has_bit(b, i) by {
        if 0 <= i < 64 {
            let k = i as u64;
            assert(((a | b) >> k) & 1u64 == 1u64 <==> (a >> k) & 1u64 == 1u64 || (b >> k) & 1u64
                == 1u64) by (bit_vector);
        }
    }
}

/// Two masks with the same set bits are equal.
pub proof fn lemma_same_bits_same_mask(x: u64, y: u64)
    requires
        forall|i: int| #[trigger] has_bit(x, i) <==> has_bit(y, i),
    ensures
        x == y,
{
    let z = x ^ y;
    if z != 0 {
        lemma_low_mask_zero(z);
        let i = lemma_lowest_bit_from(z, 0);
        assert((x >> i) & 1u64 == 1u64 <==> (y >> i) & 1u64 != 1u64) by (bit_vector)
            requires
                z == x ^ y,
                ((z >> i) & 1u64) == 1u64,
        ;
        assert(has_bit(x, i as int) != has_bit(y, i as int));
    } else {
        assert(x == y) by (bit_vector)
            requires
                z == x ^ y,
                z == 0,
        ;
    }
}

/// The mask with exactly bit `i` set: `bit_scan(1 << i) == i`.
pub proof fn lemma_bit_scan_single_bit(i: u64)
    requires
        i < 64,
    ensures
        lowest_set_bit(1u64 << i) == i,
{
    lemma_single_bit(i);
    assert(lowest_bit_is(1u64 << i, i as int));
    lemma_lowest_bit_unique(1u64 << i, i as int, lowest_set_bit(1u64 << i));
}

/// A mask whose lowest set bit is `i`, whatever bits above it are set
/// (bit 63 included): `bit_scan` returns `i`.
pub proof fn lemma_bit_scan_ignores_higher_bits(b: u64, i: int)
    requires
        0 <= i < 64,
        has_bit(b, i),
        forall|j: int| 0 <= j < i ==> !#[trigger] has_bit(b, j),
    ensures
        lowest_set_bit(b) == i,
{
    assert(lowest_bit_is(b, i));
    lemma_lowest_bit_unique(b, i, lowest_set_bit(b));
}

/// The text of square `i`: `X` where it is the marked index, `1` where its
/// bit is set, `.` otherwise.
pub open spec fn cell_char(b: u64, mark: Option<usize>, i: int) -> char {
    if mark == Some(i as usize) {
        'X'
    } else if has_bit(b, i) {
        '1'
    } else {
        '.'
    }
}

/// One line of the grid: the eight squares of `row` (0-based), then a newline.
pub open spec fn rank_text(b: u64, mark: Option<usize>, row: int) -> Seq<char> {
    Seq::new(8, |c: int| cell_char(b, mark, row * 8 + c)).push('\n')
}

/// The lines of the rows from the top (row 7) down to `row`.
pub open spec fn rows_text(b: u64, mark: Option<usize>, row: int) -> Seq<char>
    decreases 8 - row,
{
    if row >= 8 {
        seq![]
    } else {
        rows_text(b, mark, row + 1) + rank_text(b, mark, row)
    }
}

/// The 8x8 grid of a bitboard, the eighth rank first.
pub open spec fn board_text(b: u64, mark: Option<usize>) -> Seq<char> {
    rows_text(b, mark, 0)
}

/// Renders a bitboard as an 8x8 grid of `.`, `1` and (at `mark`) `X`, the
/// eighth rank on the first line.
pub fn bitboard_to_string(bitboard: Bitboard, mark: Option<usize>) -> (r: String)
    ensures
        r@ == board_text(bitboard, mark),
{
    let mut board = String::new();
    let mut row: usize = 8;
    while row > 0
        invariant
            row <= 8,
            board@ == rows_text(bitboard, mark, row as int),
        decreases row,
    {
        row = row - 1;
        let ghost before = board@;
        let mut col: usize = 0;
        while col < 8
            invariant
                col <= 8,
                row < 8,
                board@ == before + Seq::new(
                    col as nat,
                    |c: int| cell_char(bitboard, mark, row * 8 + c),
                ),
            decreases 8 - col,
        {
            let i: usize = row * 8 + col;
            let is_mark = match mark {
                Some(m) => m == i,
                None => false,
            };
            let ghost prev = board@;
            proof {
                reveal_strlit("X");
                reveal_strlit("1");
                reveal_strlit(".");
            }
            if is_mark {
                board.append("X");
            } else if (bitboard >> (i as u64)) & 1u64 == 1u64 {
                board.append("1");
            } else {
                board.append(".");
            }
            assert(board@ == prev.push(cell_char(bitboard, mark, (row * 8 + col) as int)));
            assert(board@ =~= before + Seq::new(
                (col + 1) as nat,
                |c: int| cell_char(bitboard, mark, row * 8 + c),
            ));
            col = col + 1;
        }
        proof {
            reveal_strlit("\n");
        }
        board.append("\n");
        assert(board@ =~= rows_text(bitboard, mark, row as int));
    }
    board
}

} // verus!
