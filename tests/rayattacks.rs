use chess_core::rayattacks::{index_to_coordinate, make_ray, n_ray, Direction, Rays};
use chess_core::utils::bitboard_to_string;

#[test]
fn test_index_to_position() {
    println!("Heres the result of index_to_Postion with an index of 0: {:?} ", index_to_coordinate(0));
    assert_eq!(index_to_coordinate(0), (1, 1));
    assert_eq!(index_to_coordinate(63), (8, 8));
    assert_eq!(index_to_coordinate(12), (5, 2));
}

#[test]
fn make_general_ray() {
    let row = 4;
    let col = 5;
    let idx = col + ((row - 1) * 8) - 1;
    for d in [
        Direction::North,
        Direction::South,
        Direction::East,
        Direction::West,
        Direction::Northeast,
        Direction::Northwest,
        Direction::Southwest,
        Direction::Southeast,
    ] {
        println!("{:?}\n{}", d, bitboard_to_string(make_ray(row as i64, col as i64, d), Some(idx)));
    }
}

#[test]
fn rays_from_a1() {
    let north = make_ray(1, 1, Direction::North);
    assert_eq!(north.count_ones(), 7);
    assert_eq!(north, 0x0101_0101_0101_0100);
    assert_eq!(make_ray(1, 1, Direction::South), 0);
    assert_eq!(make_ray(1, 1, Direction::West), 0);
    assert_eq!(make_ray(1, 1, Direction::East), 0xfe);
    assert_eq!(make_ray(1, 1, Direction::Northeast), 0x8040_2010_0804_0200);
}

#[test]
fn rays_do_not_wrap() {
    assert_eq!(make_ray(1, 8, Direction::East), 0);
    assert_eq!(make_ray(4, 8, Direction::Northeast), 0);
    assert_eq!(make_ray(8, 3, Direction::North), 0);
    assert_eq!(make_ray(4, 5, Direction::West), 0b1111u64 << 24);
}

#[test]
fn north_ray_matches_general_ray() {
    for row in 1..=8i64 {
        for col in 1..=8i64 {
            assert_eq!(n_ray(row, col), make_ray(row, col, Direction::North));
        }
    }
}

#[test]
fn ray_tables_cover_every_square() {
    let rays = Rays::init();
    assert_eq!(rays.n_rays.len(), 64);
    assert_eq!(rays.n_rays[0], 0x0101_0101_0101_0100);
    assert_eq!(rays.n_rays[63], 0);
    assert_eq!(rays.sw_rays[63], 0x0040_2010_0804_0201);
    assert_eq!(rays.se_rays[7], 0);
}
