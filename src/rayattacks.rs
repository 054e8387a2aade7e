//! Sliding rays in the eight compass directions, clipped at the board edge.
use crate::utils::{
    has_bit, lemma_no_bits, lemma_or_bits, lemma_same_bits_same_mask, lemma_single_bit, marks,
    on_board, Bitboard,
};
use vstd::prelude::*;

verus! {

/// The `(column, row)` of square `index`, both counted from 1.
pub fn index_to_coordinate(index: usize) -> (r: (usize, usize))
    ensures
        r == ((index % 8 + 1) as usize, (index / 8 + 1) as usize),
{
    let column = index % 8 + 1;
    let row = index / 8 + 1;
    (column, row)
}

#[derive(Debug, PartialEq, Eq, Structural, Copy, Clone)]
pub enum Direction {
    North,
    South,
    East,
    West,
    Northwest,
    Northeast,
    Southwest,
    Southeast,
}

/// The row reached after `k` steps from `row` towards `d`.
pub open spec fn ray_row(row: int, d: Direction, k: int) -> int {
    match d {
        Direction::North | Direction::Northwest | Direction::Northeast => row + k,
        Direction::South | Direction::Southwest | Direction::Southeast => row - k,
        _ => row,
    }
}

/// The column reached after `k` steps from `col` towards `d`.
pub open spec fn ray_col(col: int, d: Direction, k: int) -> int {
    match d {
        Direction::East | Direction::Northeast | Direction::Southeast => col + k,
        Direction::West | Direction::Northwest | Direction::Southwest => col - k,
        _ => col,
    }
}

/// Square `i` is `k` steps from `(row, col)` towards `d`.
pub open spec fn ray_step_is(row: int, col: int, d: Direction, k: int, i: int) -> bool {
    marks(ray_row(row, d, k), ray_col(col, d, k), i)
}

/// Square `i` lies on the ray from `(row, col)` towards `d`, the start excluded.
pub open spec fn ray_hits(row: int, col: int, d: Direction, i: int) -> bool {
    exists|k: int| 1 <= k <= 8 && #[trigger] ray_step_is(row, col, d, k, i)
}

/// `b` is the ray from `(row, col)` towards `d`.
pub open spec fn is_ray(b: u64, row: int, col: int, d: Direction) -> bool {
    forall|i: int| #[trigger] has_bit(b, i) <==> ray_hits(row, col, d, i)
}

/// `table` has `n` entries, square `s` holding the ray from `s` towards `d`.
pub open spec fn ray_prefix(table: Seq<Bitboard>, n: int, d: Direction) -> bool {
    &&& table.len() == n
    &&& forall|s: int| 0 <= s < n ==> is_ray(#[trigger] table[s], s / 8 + 1, s % 8 + 1, d)
}

/// The rays of each direction, indexed by square.
pub struct Rays {
    pub n_rays: Vec<u64>,
    pub e_rays: Vec<u64>,
    pub w_rays: Vec<u64>,
    pub s_rays: Vec<u64>,
    pub nw_rays: Vec<u64>,
    pub ne_rays: Vec<u64>,
    pub sw_rays: Vec<u64>,
    pub se_rays: Vec<u64>,
}

impl Rays {
    pub open spec fn wf(&self) -> bool {
        &&& ray_prefix(self.n_rays@, 64, Direction::North)
        &&& ray_prefix(self.e_rays@, 64, Direction::East)
        &&& ray_prefix(self.w_rays@, 64, Direction::West)
        &&& ray_prefix(self.s_rays@, 64, Direction::South)
        &&& ray_prefix(self.nw_rays@, 64, Direction::Northwest)
        &&& ray_prefix(self.ne_rays@, 64, Direction::Northeast)
        &&& ray_prefix(self.sw_rays@, 64, Direction::Southwest)
        &&& ray_prefix(self.se_rays@, 64, Direction::Southeast)
    }

    pub fn init() -> (r: Self)
        ensures
            r.wf(),
    {
        let mut n_rays: Vec<u64> = Vec::new();
        let mut e_rays: Vec<u64> = Vec::new();
        let mut w_rays: Vec<u64> = Vec::new();
        let mut s_rays: Vec<u64> = Vec::new();
        let mut nw_rays: Vec<u64> = Vec::new();
        let mut ne_rays: Vec<u64> = Vec::new();
        let mut sw_rays: Vec<u64> = Vec::new();
        let mut se_rays: Vec<u64> = Vec::new();
        let mut i: usize = 0;
        while i < 64
            invariant
                i <= 64,
                ray_prefix(n_rays@, i as int, Direction::North),
                ray_prefix(e_rays@, i as int, Direction::East),
                ray_prefix(w_rays@, i as int, Direction::West),
                ray_prefix(s_rays@, i as int, Direction::South),
                ray_prefix(nw_rays@, i as int, Direction::Northwest),
                ray_prefix(ne_rays@, i as int, Direction::Northeast),
                ray_prefix(sw_rays@, i as int, Direction::Southwest),
                ray_prefix(se_rays@, i as int, Direction::Southeast),
            decreases 64 - i,
        {
            let coord = index_to_coordinate(i);
            let col = coord.0 as i64;
            let row = coord.1 as i64;
            n_rays.push(make_ray(row, col, Direction::North));
            e_rays.push(make_ray(row, col, Direction::East));
            w_rays.push(make_ray(row, col, Direction::West));
            s_rays.push(make_ray(row, col, Direction::South));
            nw_rays.push(make_ray(row, col, Direction::Northwest));
            ne_rays.push(make_ray(row, col, Direction::Northeast));
            sw_rays.push(make_ray(row, col, Direction::Southwest));
            se_rays.push(make_ray(row, col, Direction::Southeast));
            i = i + 1;
        }
        Rays { n_rays, e_rays, w_rays, s_rays, nw_rays, ne_rays, sw_rays, se_rays }
    }
}

/// A ray table is determined by its direction.
pub proof fn lemma_ray_table_unique(a: Seq<Bitboard>, b: Seq<Bitboard>, d: Direction)
    requires
        ray_prefix(a, 64, d),
        ray_prefix(b, 64, d),
    ensures
        a == b,
{
    assert forall|s: int| 0 <= s < 64 implies #[trigger] a[s] == b[s] by {
        assert(is_ray(a[s], s / 8 + 1, s % 8 + 1, d));
        assert(is_ray(b[s], s / 8 + 1, s % 8 + 1, d));
        assert forall|i: int| #[trigger] has_bit(a[s], i) <==> has_bit(b[s], i) by {}
        lemma_same_bits_same_mask(a[s], b[s]);
    }
    assert(a =~= b);
}

/// Adds square `(row, col)` to `bitboard`, or leaves it as it is off the board.
pub fn set_bit(bitboard: Bitboard, row: i64, col: i64) -> (r: Bitboard)
    ensures
        forall|i: int| #[trigger] has_bit(r, i) <==> has_bit(bitboard, i) || marks(row as int, col as int, i),
{
    if row < 1 || row > 8 || col < 1 || col > 8 {
        return bitboard;
    }
    let s = ((col - 1) + (row - 1) * 8) as u64;
    proof {
        lemma_single_bit(s);
        lemma_or_bits(bitboard, 1u64 << s);
    }
    bitboard | (1u64 << s)
}

/// The ray from `(row, col)` towards `direction`, up to the board edge.
pub fn make_ray(row: i64, col: i64, direction: Direction) -> (r: Bitboard)
    requires
        on_board(row as int, col as int),
    ensures
        is_ray(r, row as int, col as int, direction),
{
    let mut bitboard: Bitboard = 0;
    proof {
        lemma_no_bits(0);
    }
    let mut offset: i64 = 1;
    while offset <= 8
        invariant
            on_board(row as int, col as int),
            1 <= offset <= 9,
            forall|i: int| #[trigger]
                has_bit(bitboard, i) <==> exists|k: int|
                    1 <= k < offset && #[trigger] ray_step_is(row as int, col as int, direction, k, i),
        ensures
            1 <= offset <= 9,
            forall|i: int| #[trigger]
                has_bit(bitboard, i) <==> exists|k: int|
                    1 <= k < offset && #[trigger] ray_step_is(row as int, col as int, direction, k, i),
            forall|k: int, i: int|
                offset <= k <= 8 ==> !#[trigger] ray_step_is(row as int, col as int, direction, k, i),
        decreases 9 - offset,
    {
        let (r_offset, c_offset) = match direction {
            Direction::North => (row + offset, col),
            Direction::South => (row - offset, col),
            Direction::East => (row, col + offset),
            Direction::West => (row, col - offset),
            Direction::Northwest => (row + offset, col - offset),
            Direction::Northeast => (row + offset, col + offset),
            Direction::Southwest => (row - offset, col - offset),
            Direction::Southeast => (row - offset, col + offset),
        };
        if r_offset < 1 || r_offset > 8 || c_offset < 1 || c_offset > 8 {
            assert forall|k: int, i: int| offset <= k <= 8 implies !#[trigger] ray_step_is(
                row as int,
                col as int,
                direction,
                k,
                i,
            ) by {}
            break;
        }
        let ghost old_board = bitboard;
        bitboard = set_bit(bitboard, r_offset, c_offset);
        assert forall|i: int| #[trigger]
            has_bit(bitboard, i) <==> exists|k: int|
                1 <= k < offset + 1 && #[trigger] ray_step_is(row as int, col as int, direction, k, i) by {
            if has_bit(bitboard, i) && !has_bit(old_board, i) {
                assert(ray_step_is(row as int, col as int, direction, offset as int, i));
            }
        }
        offset = offset + 1;
    }
    assert forall|i: int| #[trigger] has_bit(bitboard, i) <==> ray_hits(row as int, col as int, direction, i) by {
        if ray_hits(row as int, col as int, direction, i) {
            let k = choose|k: int| 1 <= k <= 8 && #[trigger] ray_step_is(row as int, col as int, direction, k, i);
            assert(1 <= k < offset);
        }
    }
    bitboard
}

/// The north ray from `(row, col)`.
pub fn n_ray(row: i64, col: i64) -> (r: Bitboard)
    requires
        on_board(row as int, col as int),
    ensures
        is_ray(r, row as int, col as int, Direction::North),
{
    let mut bitboard: Bitboard = 0;
    proof {
        lemma_no_bits(0);
    }
    let mut offset: i64 = 1;
    while offset <= 8
        invariant
            on_board(row as int, col as int),
            1 <= offset <= 9,
            forall|i: int| #[trigger]
                has_bit(bitboard, i) <==> exists|k: int|
                    1 <= k < offset && #[trigger] ray_step_is(row as int, col as int, Direction::North, k, i),
        ensures
            1 <= offset <= 9,
            forall|i: int| #[trigger]
                has_bit(bitboard, i) <==> exists|k: int|
                    1 <= k < offset && #[trigger] ray_step_is(row as int, col as int, Direction::North, k, i),
            forall|k: int, i: int|
                offset <= k <= 8 ==> !#[trigger] ray_step_is(row as int, col as int, Direction::North, k, i),
        decreases 9 - offset,
    {
        if row + offset > 8 {
            assert forall|k: int, i: int| offset <= k <= 8 implies !#[trigger] ray_step_is(
                row as int,
                col as int,
                Direction::North,
                k,
                i,
            ) by {}
            break;
        }
        let ghost old_board = bitboard;
        bitboard = set_bit(bitboard, row + offset, col);
        assert forall|i: int| #[trigger]
            has_bit(bitboard, i) <==> exists|k: int|
                1 <= k < offset + 1 && #[trigger] ray_step_is(row as int, col as int, Direction::North, k, i) by {
            if has_bit(bitboard, i) && !has_bit(old_board, i) {
                assert(ray_step_is(row as int, col as int, Direction::North, offset as int, i));
            }
        }
        offset = offset + 1;
    }
    assert forall|i: int| #[trigger] has_bit(bitboard, i) <==> ray_hits(row as int, col as int, Direction::North, i) by {
        if ray_hits(row as int, col as int, Direction::North, i) {
            let k = choose|k: int| 1 <= k <= 8 && #[trigger] ray_step_is(row as int, col as int, Direction::North, k, i);
            assert(1 <= k < offset);
        }
    }
    bitboard
}

} // verus!
