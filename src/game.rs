//! The position model: square names, pieces, and the FEN decoder.
use crate::utils::{bit_scan, lemma_bit_scan_single_bit, lowest_set_bit, Bitboard};
pub use crate::utils::Color;
use vstd::prelude::*;
use vstd::string::{StrSliceExecFns, StringExecFns};

verus! {

/// The ways a decode or a lookup can fail.
#[derive(Debug, PartialEq, Eq, Structural, Copy, Clone)]
pub enum DecodeError {
    /// A square name that is not a file `a`-`h` followed by a rank `1`-`8`.
    MalformedAlgebraicSquare,
    /// A square was asked of an empty mask.
    EmptyBitboard,
    /// A FEN string whose fields or ranks are not all there.
    MalformedFenStructure,
    /// An active color other than `w` or `b`.
    InvalidColorToken,
    /// A castling field with a character outside `KQkq`: the character.
    InvalidCastlingToken(char),
    /// A board character that is neither a piece letter nor a digit 1-8: the
    /// character.
    InvalidBoardCharacter(char),
    /// A rank that does not cover exactly eight squares.
    RankSquareCountMismatch,
    /// A half-move or full-move field that is not a decimal number.
    InvalidIntegerField,
}

/// The letter of file `col` (0-based).
pub open spec fn file_letter(col: int) -> char {
    if col == 0 {
        'a'
    } else if col == 1 {
        'b'
    } else if col == 2 {
        'c'
    } else if col == 3 {
        'd'
    } else if col == 4 {
        'e'
    } else if col == 5 {
        'f'
    } else if col == 6 {
        'g'
    } else if col == 7 {
        'h'
    } else {
        '?'
    }
}

/// The digit of rank `row` (0-based).
pub open spec fn rank_digit(row: int) -> char {
    if row == 0 {
        '1'
    } else if row == 1 {
        '2'
    } else if row == 2 {
        '3'
    } else if row == 3 {
        '4'
    } else if row == 4 {
        '5'
    } else if row == 5 {
        '6'
    } else if row == 6 {
        '7'
    } else if row == 7 {
        '8'
    } else {
        '?'
    }
}

/// The algebraic name of square `index`, such as `a1` for 0 and `h8` for 63.
pub open spec fn square_name(index: int) -> Seq<char> {
    seq![file_letter(index % 8), rank_digit(index / 8)]
}

/// `s` is a file letter `a`-`h` followed by a rank digit `1`-`8`.
pub open spec fn is_square_name(s: Seq<char>) -> bool {
    s.len() == 2 && 'a' <= s[0] <= 'h' && '1' <= s[1] <= '8'
}

/// The square index that a valid square name stands for.
pub open spec fn square_of_name(s: Seq<char>) -> int {
    (s[1] as int - '1' as int) * 8 + (s[0] as int - 'a' as int)
}

/// The algebraic name of square `index`.
pub fn index_to_position(index: usize) -> (r: String)
    requires
        index < 64,
    ensures
        r@ == square_name(index as int),
{
    proof {
        reveal_strlit("a");
        reveal_strlit("b");
        reveal_strlit("c");
        reveal_strlit("d");
        reveal_strlit("e");
        reveal_strlit("f");
        reveal_strlit("g");
        reveal_strlit("h");
        reveal_strlit("1");
        reveal_strlit("2");
        reveal_strlit("3");
        reveal_strlit("4");
        reveal_strlit("5");
        reveal_strlit("6");
        reveal_strlit("7");
        reveal_strlit("8");
    }
    let file = match index % 8 {
        0 => "a",
        1 => "b",
        2 => "c",
        3 => "d",
        4 => "e",
        5 => "f",
        6 => "g",
        _ => "h",
    };
    let rank = match index / 8 {
        0 => "1",
        1 => "2",
        2 => "3",
        3 => "4",
        4 => "5",
        5 => "6",
        6 => "7",
        _ => "8",
    };
    let mut name = String::from_str(file);
    name.append(rank);
    assert(name@ =~= square_name(index as int));
    name
}

/// The name of the lowest set square of a mask; an empty mask has none.
pub fn bit_to_position(bit: Bitboard) -> (r: Result<String, DecodeError>)
    ensures
        bit == 0 ==> r == Err::<String, DecodeError>(DecodeError::EmptyBitboard),
        bit != 0 ==> (r matches Ok(s) && s@ == square_name(lowest_set_bit(bit))),
{
    if bit == 0 {
        Err(DecodeError::EmptyBitboard)
    } else {
        let onebit_index = bit_scan(bit);
        Ok(index_to_position(onebit_index))
    }
}

/// The one-bit mask of a square name such as `e3`.
pub fn position_to_bit(position: &str) -> (r: Result<Bitboard, DecodeError>)
    ensures
        is_square_name(position@) ==> r == Ok::<Bitboard, DecodeError>(
            1u64 << (square_of_name(position@) as u64),
        ),
        !is_square_name(position@) ==> r == Err::<Bitboard, DecodeError>(
            DecodeError::MalformedAlgebraicSquare,
        ),
{
    let chars = chars_of(position);
    square_bit_of(&chars)
}

fn square_bit_of(name: &Vec<char>) -> (r: Result<Bitboard, DecodeError>)
    ensures
        is_square_name(name@) ==> r == Ok::<Bitboard, DecodeError>(
            1u64 << (square_of_name(name@) as u64),
        ),
        !is_square_name(name@) ==> r == Err::<Bitboard, DecodeError>(
            DecodeError::MalformedAlgebraicSquare,
        ),
{
    if name.len() != 2 {
        return Err(DecodeError::MalformedAlgebraicSquare);
    }
    let file = name[0];
    let rank = name[1];
    if file < 'a' || file > 'h' || rank < '1' || rank > '8' {
        return Err(DecodeError::MalformedAlgebraicSquare);
    }
    let square_number = (rank as u64 - '1' as u64) * 8 + (file as u64 - 'a' as u64);
    Ok(1u64 << square_number)
}

/// Naming the square of a valid name's mask gives the name back.
pub proof fn lemma_square_name_round_trip(s: Seq<char>)
    requires
        is_square_name(s),
    ensures
        square_name(lowest_set_bit(1u64 << (square_of_name(s) as u64))) == s,
{
    let i = square_of_name(s);
    crate::utils::lemma_bit_scan_single_bit(i as u64);
    assert(square_name(i) =~= s);
}

#[derive(Debug, PartialEq, Eq, Structural, Copy, Clone)]
pub enum PieceType {
    Pawn,
    Knight,
    Bishop,
    Rook,
    Queen,
    King,
}

/// A piece on the board; `position` has exactly the bit of its square set.
#[derive(Debug, PartialEq, Eq, Structural, Copy, Clone)]
pub struct Piece {
    pub position: Bitboard,
    pub color: Color,
    pub piece_type: PieceType,
}

/// What stands on a square: nothing, or the piece at an index of the piece list.
#[derive(Debug, PartialEq, Eq, Structural, Copy, Clone)]
pub enum Square {
    Empty,
    Occupied(usize),
}

/// Castling rights, one bit each: white kingside (bit 0), white queenside
/// (bit 1), black kingside (bit 2), black queenside (bit 3).
#[derive(Debug, PartialEq, Eq, Structural, Copy, Clone)]
pub struct CastlingRights {
    pub bits: u8,
}

pub const WHITE_KINGSIDE: u8 = 1;

pub const WHITE_QUEENSIDE: u8 = 2;

pub const BLACK_KINGSIDE: u8 = 4;

pub const BLACK_QUEENSIDE: u8 = 8;

/// A decoded position.
pub struct Game {
    pub pieces: Vec<Piece>,
    pub squares: Vec<Square>,
    pub active_color: Color,
    pub castling_rights: CastlingRights,
    pub en_passant: Option<Bitboard>,
    pub ply: usize,
    pub fullmoves: usize,
}

/// The value of a position.
pub struct GameModel {
    pub pieces: Seq<Piece>,
    pub squares: Seq<Square>,
    pub active_color: Color,
    pub castling: u8,
    pub en_passant: Option<Bitboard>,
    pub ply: usize,
    pub fullmoves: usize,
}

impl View for Game {
    type V = GameModel;

    open spec fn view(&self) -> GameModel {
        GameModel {
            pieces: self.pieces@,
            squares: self.squares@,
            active_color: self.active_color,
            castling: self.castling_rights.bits,
            en_passant: self.en_passant,
            ply: self.ply,
            fullmoves: self.fullmoves,
        }
    }
}

/// The pieces of `s`, split at each `sep`: `n` separators give `n + 1` parts.
pub open spec fn split_on(s: Seq<char>, sep: char) -> Seq<Seq<char>>
    decreases s.len(),
{
    if s.len() == 0 {
        seq![seq![]]
    } else {
        let parts = split_on(s.drop_last(), sep);
        if s.last() == sep {
            parts.push(seq![])
        } else {
            parts.update(parts.len() - 1, parts.last().push(s.last()))
        }
    }
}

/// The color and kind of a FEN piece letter: upper case white, lower case black.
pub open spec fn piece_of(c: char) -> Option<(Color, PieceType)> {
    if c == 'P' {
        Some((Color::White, PieceType::Pawn))
    } else if c == 'N' {
        Some((Color::White, PieceType::Knight))
    } else if c == 'B' {
        Some((Color::White, PieceType::Bishop))
    } else if c == 'R' {
        Some((Color::White, PieceType::Rook))
    } else if c == 'Q' {
        Some((Color::White, PieceType::Queen))
    } else if c == 'K' {
        Some((Color::White, PieceType::King))
    } else if c == 'p' {
        Some((Color::Black, PieceType::Pawn))
    } else if c == 'n' {
        Some((Color::Black, PieceType::Knight))
    } else if c == 'b' {
        Some((Color::Black, PieceType::Bishop))
    } else if c == 'r' {
        Some((Color::Black, PieceType::Rook))
    } else if c == 'q' {
        Some((Color::Black, PieceType::Queen))
    } else if c == 'k' {
        Some((Color::Black, PieceType::King))
    } else {
        None
    }
}

/// A digit that stands for a run of 1 to 8 empty squares.
pub open spec fn is_run_digit(c: char) -> bool {
    '1' <= c <= '8'
}

/// Decodes the rest `r` of a rank whose first squares are already `squares`
/// (with `pieces`); the rank starts at square `first_square`, its first piece
/// at index `first_piece` of the piece list.
pub open spec fn decode_rank_from(
    r: Seq<char>,
    pieces: Seq<Piece>,
    squares: Seq<Square>,
    first_square: int,
    first_piece: int,
) -> Result<(Seq<Piece>, Seq<Square>), DecodeError>
    decreases r.len(),
{
    if r.len() == 0 {
        Ok((pieces, squares))
    } else {
        let c = r[0];
        match piece_of(c) {
            Some((color, kind)) => if squares.len() >= 8 {
                Err(DecodeError::RankSquareCountMismatch)
            } else {
                decode_rank_from(
                    r.skip(1),
                    pieces.push(
                        Piece {
                            position: 1u64 << ((first_square + squares.len()) as u64),
                            color,
                            piece_type: kind,
                        },
                    ),
                    squares.push(Square::Occupied((first_piece + pieces.len()) as usize)),
                    first_square,
                    first_piece,
                )
            },
            None => if is_run_digit(c) {
                let n = c as int - '0' as int;
                if squares.len() + n > 8 {
                    Err(DecodeError::RankSquareCountMismatch)
                } else {
                    decode_rank_from(
                        r.skip(1),
                        pieces,
                        squares + Seq::new(n as nat, |k: int| Square::Empty),
                        first_square,
                        first_piece,
                    )
                }
            } else {
                Err(DecodeError::InvalidBoardCharacter(c))
            },
        }
    }
}

/// Decodes one rank of the board field, which must cover exactly 8 squares.
pub open spec fn decode_rank(r: Seq<char>, first_square: int, first_piece: int) -> Result<
    (Seq<Piece>, Seq<Square>),
    DecodeError,
> {
    match decode_rank_from(r, seq![], seq![], first_square, first_piece) {
        Ok((pieces, squares)) => if squares.len() != 8 {
            Err(DecodeError::RankSquareCountMismatch)
        } else {
            Ok((pieces, squares))
        },
        Err(e) => Err(e),
    }
}

/// Decodes the rows `row..8` (row 0 being the FEN's last rank) after the rows
/// below gave `pieces` and `squares`.
pub open spec fn decode_rows_from(
    ranks: Seq<Seq<char>>,
    row: int,
    pieces: Seq<Piece>,
    squares: Seq<Square>,
) -> Result<(Seq<Piece>, Seq<Square>), DecodeError>
    decreases 8 - row,
{
    if row >= 8 {
        Ok((pieces, squares))
    } else {
        match decode_rank(ranks[7 - row], row * 8, pieces.len() as int) {
            Err(e) => Err(e),
            Ok((p, q)) => decode_rows_from(ranks, row + 1, pieces + p, squares + q),
        }
    }
}

/// Decodes the board field: eight ranks separated by `/`, the eighth first.
pub open spec fn decode_board(f: Seq<char>) -> Result<(Seq<Piece>, Seq<Square>), DecodeError> {
    let ranks = split_on(f, '/');
    if ranks.len() != 8 {
        Err(DecodeError::MalformedFenStructure)
    } else {
        decode_rows_from(ranks, 0, seq![], seq![])
    }
}

pub open spec fn decode_color(f: Seq<char>) -> Result<Color, DecodeError> {
    if f == seq!['w'] {
        Ok(Color::White)
    } else if f == seq!['b'] {
        Ok(Color::Black)
    } else {
        Err(DecodeError::InvalidColorToken)
    }
}

/// The castling right that a character of the castling field grants.
pub open spec fn castling_bit(c: char) -> Option<u8> {
    if c == 'K' {
        Some(WHITE_KINGSIDE)
    } else if c == 'Q' {
        Some(WHITE_QUEENSIDE)
    } else if c == 'k' {
        Some(BLACK_KINGSIDE)
    } else if c == 'q' {
        Some(BLACK_QUEENSIDE)
    } else {
        None
    }
}

/// Adds the rights of the characters `f` to `acc`.
pub open spec fn castling_from(f: Seq<char>, acc: u8) -> Result<u8, DecodeError>
    decreases f.len(),
{
    if f.len() == 0 {
        Ok(acc)
    } else {
        match castling_bit(f[0]) {
            Some(b) => castling_from(f.skip(1), acc | b),
            None => Err(DecodeError::InvalidCastlingToken(f[0])),
        }
    }
}

pub open spec fn decode_castling(f: Seq<char>) -> Result<u8, DecodeError> {
    if f == seq!['-'] {
        Ok(0u8)
    } else {
        castling_from(f, 0u8)
    }
}

pub open spec fn decode_en_passant(f: Seq<char>) -> Result<Option<Bitboard>, DecodeError> {
    if f == seq!['-'] {
        Ok(None)
    } else if is_square_name(f) {
        Ok(Some(1u64 << (square_of_name(f) as u64)))
    } else {
        Err(DecodeError::MalformedAlgebraicSquare)
    }
}

pub open spec fn is_decimal(f: Seq<char>) -> bool {
    f.len() > 0 && forall|i: int| 0 <= i < f.len() ==> '0' <= #[trigger] f[i] <= '9'
}

/// The value of the decimal digits `f` written after the digits of `acc`.
pub open spec fn decimal_from(f: Seq<char>, acc: int) -> int
    decreases f.len(),
{
    if f.len() == 0 {
        acc
    } else {
        decimal_from(f.skip(1), acc * 10 + (f[0] as int - '0' as int))
    }
}

pub open spec fn decode_count(f: Seq<char>) -> Result<usize, DecodeError> {
    if is_decimal(f) && decimal_from(f, 0) <= usize::MAX {
        Ok(decimal_from(f, 0) as usize)
    } else {
        Err(DecodeError::InvalidIntegerField)
    }
}

/// Decodes a FEN string: board, active color, castling rights, en-passant
/// square, half-move clock and full-move number, separated by single spaces.
pub open spec fn decode_fen(s: Seq<char>) -> Result<GameModel, DecodeError> {
    let parts = split_on(s, ' ');
    if parts.len() != 6 {
        Err(DecodeError::MalformedFenStructure)
    } else {
        match decode_board(parts[0]) {
            Err(e) => Err(e),
            Ok((pieces, squares)) => match decode_color(parts[1]) {
                Err(e) => Err(e),
                Ok(active_color) => match decode_castling(parts[2]) {
                    Err(e) => Err(e),
                    Ok(castling) => match decode_en_passant(parts[3]) {
                        Err(e) => Err(e),
                        Ok(en_passant) => match decode_count(parts[4]) {
                            Err(e) => Err(e),
                            Ok(ply) => match decode_count(parts[5]) {
                                Err(e) => Err(e),
                                Ok(fullmoves) => Ok(
                                    GameModel {
                                        pieces,
                                        squares,
                                        active_color,
                                        castling,
                                        en_passant,
                                        ply,
                                        fullmoves,
                                    },
                                ),
                            },
                        },
                    },
                },
            },
        }
    }
}

fn piece_from_char(c: char) -> (r: Option<(Color, PieceType)>)
    ensures
        r == piece_of(c),
{
    match c {
        'P' => Some((Color::White, PieceType::Pawn)),
        'N' => Some((Color::White, PieceType::Knight)),
        'B' => Some((Color::White, PieceType::Bishop)),
        'R' => Some((Color::White, PieceType::Rook)),
        'Q' => Some((Color::White, PieceType::Queen)),
        'K' => Some((Color::White, PieceType::King)),
        'p' => Some((Color::Black, PieceType::Pawn)),
        'n' => Some((Color::Black, PieceType::Knight)),
        'b' => Some((Color::Black, PieceType::Bishop)),
        'r' => Some((Color::Black, PieceType::Rook)),
        'q' => Some((Color::Black, PieceType::Queen)),
        'k' => Some((Color::Black, PieceType::King)),
        _ => None,
    }
}

/// The characters of `s`.
fn chars_of(s: &str) -> (r: Vec<char>)
    ensures
        r@ == s@,
{
    let n = s.unicode_len();
    let mut r: Vec<char> = Vec::new();
    let mut i: usize = 0;
    while i < n
        invariant
            n == s@.len(),
            i <= n,
            r@ == s@.take(i as int),
        decreases n - i,
    {
        r.push(s.get_char(i));
        i = i + 1;
        assert(r@ =~= s@.take(i as int));
    }
    assert(s@.take(n as int) =~= s@);
    r
}

/// Splits `s` at each `sep`.
fn split_chars(s: &Vec<char>, sep: char) -> (r: Vec<Vec<char>>)
    ensures
        r@.len() == split_on(s@, sep).len(),
        forall|k: int| 0 <= k < r@.len() ==> #[trigger] r@[k]@ == split_on(s@, sep)[k],
{
    let mut done: Vec<Vec<char>> = Vec::new();
    let mut cur: Vec<char> = Vec::new();
    let mut i: usize = 0;
    assert(s@.take(0) =~= seq![]);
    while i < s.len()
        invariant
            i <= s@.len(),
            split_on(s@.take(i as int), sep).len() == done@.len() + 1,
            forall|k: int|
                0 <= k < done@.len() ==> #[trigger] done@[k]@ == split_on(s@.take(i as int), sep)[k],
            cur@ == split_on(s@.take(i as int), sep).last(),
        decreases s@.len() - i,
    {
        let c = s[i];
        assert(s@.take(i + 1).drop_last() =~= s@.take(i as int));
        if c == sep {
            done.push(cur);
            cur = Vec::new();
        } else {
            cur.push(c);
        }
        i = i + 1;
    }
    assert(s@.take(s@.len() as int) =~= s@);
    done.push(cur);
    done
}

/// `r` holds the sequences that `s` gives, or the same error.
pub open spec fn rank_result_is(
    r: Result<(Vec<Piece>, Vec<Square>), DecodeError>,
    s: Result<(Seq<Piece>, Seq<Square>), DecodeError>,
) -> bool {
    match s {
        Ok((ps, qs)) => r matches Ok((p, q)) && p@ == ps && q@ == qs,
        Err(e) => r == Err::<(Vec<Piece>, Vec<Square>), DecodeError>(e),
    }
}

/// Pieces `pieces` and squares `squares` agree, the first piece having index
/// `first_piece` and the first square index `first_square`: an occupied square
/// refers to a piece on that square, and each piece's square refers to it.
pub open spec fn consistent_from(
    pieces: Seq<Piece>,
    squares: Seq<Square>,
    first_piece: int,
    first_square: int,
) -> bool {
    &&& forall|j: int|
        0 <= j < squares.len() ==> (#[trigger] squares[j] matches Square::Occupied(k) ==> {
            &&& first_piece <= k < first_piece + pieces.len()
            &&& pieces[k - first_piece].position == 1u64 << ((first_square + j) as u64)
        })
    &&& forall|m: int|
        0 <= m < pieces.len() ==> {
            let i = lowest_set_bit(#[trigger] pieces[m].position);
            &&& first_square <= i < first_square + squares.len()
            &&& squares[i - first_square] == Square::Occupied((first_piece + m) as usize)
            &&& pieces[m].position == 1u64 << (i as u64)
        }
}

/// The number of occupied squares in `squares`.
pub open spec fn occupied_count(squares: Seq<Square>) -> nat
    decreases squares.len(),
{
    if squares.len() == 0 {
        0
    } else {
        occupied_count(squares.drop_last()) + if squares.last() is Occupied {
            1nat
        } else {
            0nat
        }
    }
}

proof fn lemma_occupied_count_push(squares: Seq<Square>, s: Square)
    ensures
        occupied_count(squares.push(s)) == occupied_count(squares) + if s is Occupied {
            1nat
        } else {
            0nat
        },
{
    assert(squares.push(s).drop_last() =~= squares);
}

proof fn lemma_occupied_count_append(a: Seq<Square>, b: Seq<Square>)
    ensures
        occupied_count(a + b) == occupied_count(a) + occupied_count(b),
    decreases b.len(),
{
    if b.len() > 0 {
        assert((a + b).drop_last() =~= a + b.drop_last());
        lemma_occupied_count_append(a, b.drop_last());
    } else {
        assert(a + b =~= a);
    }
}

/// Joining two consistent stretches, the second starting where the first ends,
/// gives a consistent whole.
proof fn lemma_consistent_append(
    p1: Seq<Piece>,
    q1: Seq<Square>,
    p2: Seq<Piece>,
    q2: Seq<Square>,
)
    requires
        consistent_from(p1, q1, 0, 0),
        consistent_from(p2, q2, p1.len() as int, q1.len() as int),
    ensures
        consistent_from(p1 + p2, q1 + q2, 0, 0),
{
    let p = p1 + p2;
    let q = q1 + q2;
    assert forall|j: int| 0 <= j < q.len() implies (#[trigger] q[j] matches Square::Occupied(k) ==> {
        &&& 0 <= k < p.len()
        &&& p[k as int].position == 1u64 << (j as u64)
    }) by {
        if j >= q1.len() {
            assert(q[j] == q2[j - q1.len()]);
        }
    }
    assert forall|m: int| 0 <= m < p.len() implies {
        let i = lowest_set_bit(#[trigger] p[m].position);
        &&& 0 <= i < q.len()
        &&& q[i] == Square::Occupied(m as usize)
        &&& p[m].position == 1u64 << (i as u64)
    } by {
        if m >= p1.len() {
            assert(p[m] == p2[m - p1.len()]);
        }
    }
}

/// Decodes one rank of the board field into its pieces and squares, the
/// rank's first square being `piece_position` and its first piece getting
/// index `piece_index`; a rank that does not cover exactly 8 squares is
/// rejected.
fn parse_row(row: &Vec<char>, piece_index: usize, piece_position: usize) -> (r: Result<
    (Vec<Piece>, Vec<Square>),
    DecodeError,
>)
    requires
        piece_index <= piece_position <= 56,
    ensures
        rank_result_is(r, decode_rank(row@, piece_position as int, piece_index as int)),
        r matches Ok((p, q)) ==> p@.len() <= q@.len() == 8 && p@.len() == occupied_count(q@)
            && consistent_from(p@, q@, piece_index as int, piece_position as int),
{
    let mut pieces: Vec<Piece> = Vec::new();
    let mut squares: Vec<Square> = Vec::new();
    let mut i: usize = 0;
    assert(row@.skip(0) =~= row@);
    while i < row.len()
        invariant
            i <= row@.len(),
            piece_index <= piece_position <= 56,
            decode_rank_from(row@, seq![], seq![], piece_position as int, piece_index as int)
                == decode_rank_from(
                row@.skip(i as int),
                pieces@,
                squares@,
                piece_position as int,
                piece_index as int,
            ),
            pieces@.len() <= squares@.len() <= 8,
            consistent_from(pieces@, squares@, piece_index as int, piece_position as int),
            pieces@.len() == occupied_count(squares@),
        decreases row@.len() - i,
    {
        let c = row[i];
        assert(row@.skip(i as int)[0] == c);
        assert(row@.skip(i as int).skip(1) =~= row@.skip(i + 1));
        match piece_from_char(c) {
            Some((color, kind)) => {
                if squares.len() >= 8 {
                    return Err(DecodeError::RankSquareCountMismatch);
                }
                let position = 1u64 << ((piece_position + squares.len()) as u64);
                let index = piece_index + pieces.len();
                let ghost old_pieces = pieces@;
                let ghost old_squares = squares@;
                pieces.push(Piece { position, color, piece_type: kind });
                squares.push(Square::Occupied(index));
                proof {
                    lemma_occupied_count_push(old_squares, Square::Occupied(index));
                    let at = piece_position + old_squares.len();
                    lemma_bit_scan_single_bit(at as u64);
                    assert forall|m: int| 0 <= m < pieces@.len() implies {
                        let i = lowest_set_bit(#[trigger] pieces@[m].position);
                        &&& piece_position <= i < piece_position + squares@.len()
                        &&& squares@[i - piece_position] == Square::Occupied(
                            (piece_index + m) as usize,
                        )
                        &&& pieces@[m].position == 1u64 << (i as u64)
                    } by {
                        if m < old_pieces.len() {
                            assert(pieces@[m] == old_pieces[m]);
                        }
                    }
                    assert forall|j: int| 0 <= j < squares@.len() implies (
                    #[trigger] squares@[j] matches Square::Occupied(k) ==> {
                        &&& piece_index <= k < piece_index + pieces@.len()
                        &&& pieces@[k - piece_index].position == 1u64 << ((piece_position + j) as u64)
                    }) by {
                        if j < old_squares.len() {
                            assert(squares@[j] == old_squares[j]);
                        }
                    }
                }
            },
            None => {
                if c < '1' || c > '8' {
                    return Err(DecodeError::InvalidBoardCharacter(c));
                }
                let n = (c as u32 - '0' as u32) as usize;
                if squares.len() + n > 8 {
                    return Err(DecodeError::RankSquareCountMismatch);
                }
                let ghost before = squares@;
                let mut j: usize = 0;
                while j < n
                    invariant
                        j <= n,
                        n <= 8,
                        before.len() + n <= 8,
                        squares@ == before + Seq::new(j as nat, |k: int| Square::Empty),
                        consistent_from(pieces@, before, piece_index as int, piece_position as int),
                        consistent_from(pieces@, squares@, piece_index as int, piece_position as int),
                        pieces@.len() == occupied_count(squares@),
                    decreases n - j,
                {
                    let ghost old_squares = squares@;
                    proof {
                        lemma_occupied_count_push(old_squares, Square::Empty);
                    }
                    squares.push(Square::Empty);
                    j = j + 1;
                    assert(squares@ =~= before + Seq::new(j as nat, |k: int| Square::Empty));
                    assert forall|m: int| 0 <= m < pieces@.len() implies {
                        let i = lowest_set_bit(#[trigger] pieces@[m].position);
                        &&& piece_position <= i < piece_position + squares@.len()
                        &&& squares@[i - piece_position] == Square::Occupied(
                            (piece_index + m) as usize,
                        )
                    } by {
                        let i = lowest_set_bit(pieces@[m].position);
                        assert(squares@[i - piece_position] == old_squares[i - piece_position]);
                    }
                    assert forall|jj: int| 0 <= jj < squares@.len() implies (
                    #[trigger] squares@[jj] matches Square::Occupied(k) ==> {
                        &&& piece_index <= k < piece_index + pieces@.len()
                        &&& pieces@[k - piece_index].position == 1u64 << ((piece_position + jj) as u64)
                    }) by {
                        if jj < old_squares.len() {
                            assert(squares@[jj] == old_squares[jj]);
                        }
                    }
                }
            },
        }
        i = i + 1;
    }
    if squares.len() != 8 {
        return Err(DecodeError::RankSquareCountMismatch);
    }
    Ok((pieces, squares))
}

/// Decodes the board field into the piece list and the 64 squares.
fn parse_board(field: &Vec<char>) -> (r: Result<(Vec<Piece>, Vec<Square>), DecodeError>)
    ensures
        rank_result_is(r, decode_board(field@)),
        r matches Ok((p, q)) ==> q@.len() == 64 && consistent_from(p@, q@, 0, 0) && p@.len()
            == occupied_count(q@),
{
    let ranks = split_chars(field, '/');
    if ranks.len() != 8 {
        return Err(DecodeError::MalformedFenStructure);
    }
    let ghost rs = split_on(field@, '/');
    let mut pieces: Vec<Piece> = Vec::new();
    let mut squares: Vec<Square> = Vec::new();
    let mut row: usize = 0;
    while row < 8
        invariant
            row <= 8,
            ranks@.len() == 8,
            rs.len() == 8,
            rs == split_on(field@, '/'),
            forall|k: int| 0 <= k < ranks@.len() ==> #[trigger] ranks@[k]@ == rs[k],
            decode_board(field@) == decode_rows_from(rs, row as int, pieces@, squares@),
            squares@.len() == row * 8,
            pieces@.len() <= squares@.len(),
            consistent_from(pieces@, squares@, 0, 0),
            pieces@.len() == occupied_count(squares@),
        decreases 8 - row,
    {
        let parsed = parse_row(&ranks[7 - row], pieces.len(), row * 8);
        let (mut p, mut q) = match parsed {
            Ok(pq) => pq,
            Err(e) => {
                return Err(e);
            },
        };
        proof {
            lemma_consistent_append(pieces@, squares@, p@, q@);
            lemma_occupied_count_append(squares@, q@);
        }
        pieces.append(&mut p);
        squares.append(&mut q);
        row = row + 1;
    }
    Ok((pieces, squares))
}

fn parse_color(f: &Vec<char>) -> (r: Result<Color, DecodeError>)
    ensures
        r == decode_color(f@),
{
    if f.len() == 1 && f[0] == 'w' {
        assert(f@ =~= seq!['w']);
        Ok(Color::White)
    } else if f.len() == 1 && f[0] == 'b' {
        assert(f@ =~= seq!['b']);
        Ok(Color::Black)
    } else {
        assert(f@ != seq!['w'] && f@ != seq!['b']) by {
            if f@ == seq!['w'] || f@ == seq!['b'] {
                assert(f@.len() == 1);
            }
        }
        Err(DecodeError::InvalidColorToken)
    }
}

fn parse_castling(f: &Vec<char>) -> (r: Result<CastlingRights, DecodeError>)
    ensures
        match decode_castling(f@) {
            Ok(b) => r == Ok::<CastlingRights, DecodeError>(CastlingRights { bits: b }),
            Err(e) => r == Err::<CastlingRights, DecodeError>(e),
        },
{
    if f.len() == 1 && f[0] == '-' {
        assert(f@ =~= seq!['-']);
        return Ok(CastlingRights { bits: 0 });
    }
    assert(f@ != seq!['-']) by {
        if f@ == seq!['-'] {
            assert(f@.len() == 1);
        }
    }
    assert(f@.skip(0) =~= f@);
    let mut acc: u8 = 0;
    let mut i: usize = 0;
    while i < f.len()
        invariant
            i <= f@.len(),
            decode_castling(f@) == castling_from(f@.skip(i as int), acc),
        decreases f@.len() - i,
    {
        let c = f[i];
        assert(f@.skip(i as int)[0] == c);
        assert(f@.skip(i as int).skip(1) =~= f@.skip(i + 1));
        let b = match c {
            'K' => WHITE_KINGSIDE,
            'Q' => WHITE_QUEENSIDE,
            'k' => BLACK_KINGSIDE,
            'q' => BLACK_QUEENSIDE,
            _ => {
                return Err(DecodeError::InvalidCastlingToken(c));
            },
        };
        acc = acc | b;
        i = i + 1;
    }
    Ok(CastlingRights { bits: acc })
}

fn parse_en_passant(f: &Vec<char>) -> (r: Result<Option<Bitboard>, DecodeError>)
    ensures
        r == decode_en_passant(f@),
{
    if f.len() == 1 && f[0] == '-' {
        assert(f@ =~= seq!['-']);
        return Ok(None);
    }
    assert(f@ != seq!['-']) by {
        if f@ == seq!['-'] {
            assert(f@.len() == 1);
        }
    }
    match square_bit_of(f) {
        Ok(bit) => Ok(Some(bit)),
        Err(e) => Err(e),
    }
}

/// Decimal digits written after those of `acc` give at least `acc`.
proof fn lemma_decimal_grows(f: Seq<char>, acc: int)
    requires
        acc >= 0,
        forall|i: int| 0 <= i < f.len() ==> '0' <= #[trigger] f[i] <= '9',
    ensures
        decimal_from(f, acc) >= acc,
    decreases f.len(),
{
    if f.len() > 0 {
        let g = f.skip(1);
        assert forall|i: int| 0 <= i < g.len() implies '0' <= #[trigger] g[i] <= '9' by {
            assert(g[i] == f[i + 1]);
        }
        lemma_decimal_grows(g, acc * 10 + (f[0] as int - '0' as int));
    }
}

fn parse_count(f: &Vec<char>) -> (r: Result<usize, DecodeError>)
    ensures
        r == decode_count(f@),
{
    if f.len() == 0 {
        return Err(DecodeError::InvalidIntegerField);
    }
    assert(f@.skip(0) =~= f@);
    let mut acc: usize = 0;
    let mut i: usize = 0;
    while i < f.len()
        invariant
            0 < f@.len(),
            i <= f@.len(),
            decimal_from(f@, 0) == decimal_from(f@.skip(i as int), acc as int),
            forall|j: int| 0 <= j < i ==> '0' <= #[trigger] f@[j] <= '9',
        decreases f@.len() - i,
    {
        let c = f[i];
        assert(f@.skip(i as int)[0] == c);
        assert(f@.skip(i as int).skip(1) =~= f@.skip(i + 1));
        if c < '0' || c > '9' {
            return Err(DecodeError::InvalidIntegerField);
        }
        let d = (c as u32 - '0' as u32) as usize;
        if acc > (usize::MAX - d) / 10 {
            proof {
                assert(acc * 10 + d > usize::MAX) by (nonlinear_arith)
                    requires
                        acc > (usize::MAX - d) / 10,
                        d <= 9,
                ;
                if is_decimal(f@) {
                    let g = f@.skip(i + 1);
                    assert forall|j: int| 0 <= j < g.len() implies '0' <= #[trigger] g[j] <= '9' by {
                        assert(g[j] == f@[i + 1 + j]);
                    }
                    lemma_decimal_grows(g, acc * 10 + d);
                }
            }
            return Err(DecodeError::InvalidIntegerField);
        }
        assert(acc * 10 + d <= usize::MAX) by (nonlinear_arith)
            requires
                acc <= (usize::MAX - d) / 10,
                d <= 9,
        ;
        acc = acc * 10 + d;
        i = i + 1;
    }
    assert(f@.skip(f@.len() as int) =~= seq![]);
    Ok(acc)
}

/// In a consistent board a piece stands on one square only: the square of
/// its mask.
pub proof fn lemma_piece_on_one_square(pieces: Seq<Piece>, squares: Seq<Square>, j: int, k: usize)
    requires
        consistent_from(pieces, squares, 0, 0),
        squares.len() == 64,
        0 <= j < squares.len(),
        squares[j] == Square::Occupied(k),
    ensures
        j == lowest_set_bit(pieces[k as int].position),
{
    assert(squares[j] matches Square::Occupied(kk));
    crate::utils::lemma_bit_scan_single_bit(j as u64);
}

impl Game {
    /// The board invariant: 64 squares; an occupied square refers to a piece
    /// whose mask is that square's bit; each piece is referred to by the
    /// square of its mask, and so by exactly one square; there are as many
    /// pieces as occupied squares.
    pub open spec fn wf(&self) -> bool {
        &&& self.squares@.len() == 64
        &&& consistent_from(self.pieces@, self.squares@, 0, 0)
        &&& self.pieces@.len() == occupied_count(self.squares@)
    }

    /// Decodes a FEN string such as
    /// `rnbqkbnr/pppppppp/8/8/8/8/PPPPPPPP/RNBQKBNR w KQkq - 0 1`; a string
    /// that is not one gives the first error met, and no position.
    pub fn read_fen(fen: &str) -> (r: Result<Game, DecodeError>)
        ensures
            match decode_fen(fen@) {
                Ok(m) => r matches Ok(g) && g@ == m,
                Err(e) => r matches Err(x) && x == e,
            },
            r matches Ok(g) ==> g.wf(),
    {
        let chars = chars_of(fen);
        let parts = split_chars(&chars, ' ');
        if parts.len() != 6 {
            return Err(DecodeError::MalformedFenStructure);
        }
        let (pieces, squares) = match parse_board(&parts[0]) {
            Ok(board) => board,
            Err(e) => {
                return Err(e);
            },
        };
        let active_color = match parse_color(&parts[1]) {
            Ok(c) => c,
            Err(e) => {
                return Err(e);
            },
        };
        let castling_rights = match parse_castling(&parts[2]) {
            Ok(c) => c,
            Err(e) => {
                return Err(e);
            },
        };
        let en_passant = match parse_en_passant(&parts[3]) {
            Ok(ep) => ep,
            Err(e) => {
                return Err(e);
            },
        };
        let ply = match parse_count(&parts[4]) {
            Ok(n) => n,
            Err(e) => {
                return Err(e);
            },
        };
        let fullmoves = match parse_count(&parts[5]) {
            Ok(n) => n,
            Err(e) => {
                return Err(e);
            },
        };
        Ok(Game { pieces, squares, active_color, castling_rights, en_passant, ply, fullmoves })
    }
}

/// The FEN letter of a piece: upper case for white, lower case for black.
pub open spec fn piece_letter(kind: PieceType, upper: bool) -> char {
    if kind == PieceType::Pawn {
        if upper {
            'P'
        } else {
            'p'
        }
    } else if kind == PieceType::Knight {
        if upper {
            'N'
        } else {
            'n'
        }
    } else if kind == PieceType::Bishop {
        if upper {
            'B'
        } else {
            'b'
        }
    } else if kind == PieceType::Rook {
        if upper {
            'R'
        } else {
            'r'
        }
    } else if kind == PieceType::Queen {
        if upper {
            'Q'
        } else {
            'q'
        }
    } else {
        if upper {
            'K'
        } else {
            'k'
        }
    }
}

/// The two-character text of a piece on the board: its letter and a space.
pub open spec fn piece_text(p: Piece) -> Seq<char> {
    seq![piece_letter(p.piece_type, p.color == Color::White), ' ']
}

impl Piece {
    pub fn to_string(&self) -> (r: String)
        ensures
            r@ == piece_text(*self),
    {
        proof {
            reveal_strlit("p ");
            reveal_strlit("P ");
            reveal_strlit("n ");
            reveal_strlit("N ");
            reveal_strlit("b ");
            reveal_strlit("B ");
            reveal_strlit("r ");
            reveal_strlit("R ");
            reveal_strlit("q ");
            reveal_strlit("Q ");
            reveal_strlit("k ");
            reveal_strlit("K ");
        }
        let upper = self.color == Color::White;
        let text = match self.piece_type {
            PieceType::Pawn => if upper {
                "P "
            } else {
                "p "
            },
            PieceType::Knight => if upper {
                "N "
            } else {
                "n "
            },
            PieceType::Bishop => if upper {
                "B "
            } else {
                "b "
            },
            PieceType::Rook => if upper {
                "R "
            } else {
                "r "
            },
            PieceType::Queen => if upper {
                "Q "
            } else {
                "q "
            },
            PieceType::King => if upper {
                "K "
            } else {
                "k "
            },
        };
        String::from_str(text)
    }
}

/// The text of square `i`: the piece on it, or else the square's name.
pub open spec fn square_text(g: GameModel, i: int) -> Seq<char> {
    match g.squares[i] {
        Square::Empty => square_name(i),
        Square::Occupied(k) => piece_text(g.pieces[k as int]),
    }
}

/// The text of the first `n` squares of `row` (0-based).
pub open spec fn row_cells(g: GameModel, row: int, n: int) -> Seq<char>
    decreases n,
{
    if n <= 0 {
        seq![]
    } else {
        row_cells(g, row, n - 1) + square_text(g, row * 8 + n - 1)
    }
}

/// The lines of the rows from the top (row 7) down to `row`.
pub open spec fn board_lines(g: GameModel, row: int) -> Seq<char>
    decreases 8 - row,
{
    if row >= 8 {
        seq![]
    } else {
        board_lines(g, row + 1) + row_cells(g, row, 8) + seq!['\n']
    }
}

impl Game {
    /// Every occupied square refers to an entry of the piece list.
    pub open spec fn refs_valid(&self) -> bool {
        &&& self.squares@.len() == 64
        &&& forall|i: int|
            0 <= i < 64 ==> (#[trigger] self.squares@[i] matches Square::Occupied(k) ==> k
                < self.pieces@.len())
    }

    /// The board as text, the eighth rank first: each piece as its letter
    /// and a space, each empty square as its name.
    pub fn board_rep(&self) -> (r: String)
        requires
            self.refs_valid(),
        ensures
            r@ == board_lines(self@, 0),
    {
        let mut board = String::new();
        let mut row: usize = 8;
        while row > 0
            invariant
                row <= 8,
                self.refs_valid(),
                board@ == board_lines(self@, row as int),
            decreases row,
        {
            row = row - 1;
            let ghost before = board@;
            let mut col: usize = 0;
            while col < 8
                invariant
                    col <= 8,
                    row < 8,
                    self.refs_valid(),
                    board@ == before + row_cells(self@, row as int, col as int),
                decreases 8 - col,
            {
                let i = row * 8 + col;
                let text = match self.squares[i] {
                    Square::Empty => index_to_position(i),
                    Square::Occupied(idx) => self.pieces[idx].to_string(),
                };
                board.append(text.as_str());
                col = col + 1;
                assert(board@ =~= before + row_cells(self@, row as int, col as int));
            }
            proof {
                reveal_strlit("\n");
            }
            board.append("\n");
            assert(board@ =~= board_lines(self@, row as int));
        }
        board
    }
}

} // verus!
