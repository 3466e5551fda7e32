use odyn::utility;

#[test]
fn test_string_to_square_h4() {
    let res = utility::string_to_square("h4");
    assert_eq!(Some((4, 7)), res);
}

#[test]
fn test_square_to_string_h4() {
    let res = utility::square_to_string(4, 7);
    assert_eq!("h4", res);
}

#[test]
fn test_square_to_index_f3() {
    let res = utility::square_to_index(3, 5);
    assert_eq!(29, res);
}

#[test]
fn test_index_to_square_b1() {
    let res = utility::index_to_square(57);
    assert_eq!((7, 1), res);
}

#[test]
fn test_extract_bit_with_1() {
    let res = utility::extract_bit(1 << 42, 42);
    assert_eq!(1, res);
}

#[test]
fn test_west_one_shifts_west() {
    let bitboard = (1 << 18) | (1 << 43);
    let res = utility::west_one(bitboard);
    let expected = (1 << 17) | (1 << 42);
    assert_eq!(expected, res);
}

#[test]
fn test_west_one_no_overflow() {
    let bitboard = 1 << 8;
    let res = utility::west_one(bitboard);
    assert_eq!(0, res);

    let bitboard = 1;
    let res = utility::west_one(bitboard);
    assert_eq!(0, res);
}

#[test]
fn test_east_one_shifts_east() {
    let bitboard = (1 << 18) | (1 << 43);
    let res = utility::east_one(bitboard);
    let expected = (1 << 19) | (1 << 44);
    assert_eq!(expected, res);
}

#[test]
fn test_east_one_no_overflow() {
    let bitboard = 1 << 39;
    let res = utility::east_one(bitboard);
    assert_eq!(0, res);

    let bitboard = 1 << 7;
    let res = utility::east_one(bitboard);
    assert_eq!(0, res);
}

#[test]
fn test_south_one_shifts_south() {
    let bitboard = (1 << 18) | (1 << 43);
    let res = utility::south_one(bitboard);
    let expected = (1 << 26) | (1 << 51);
    assert_eq!(expected, res);
}

#[test]
fn test_south_one_no_overflow() {
    let bitboard = 1 << 59;
    let res = utility::south_one(bitboard);
    assert_eq!(0, res);

    let bitboard = 1 << 63;
    let res = utility::south_one(bitboard);
    assert_eq!(0, res);
}

#[test]
fn test_north_one_shifts_north() {
    let bitboard = (1 << 18) | (1 << 43);
    let res = utility::north_one(bitboard);
    let expected = (1 << 10) | (1 << 35);
    assert_eq!(expected, res);
}

#[test]
fn test_north_one_no_overflow() {
    let bitboard = 1;
    let res = utility::north_one(bitboard);
    assert_eq!(0, res);

    let bitboard = 1 << 5;
    let res = utility::north_one(bitboard);
    assert_eq!(0, res);
}

#[test]
fn test_flip_diag_a8h1() {
    let board: u64 = 0b11110000;
    let expected: u64 = 0x0101010100000000;

    assert_eq!(expected, utility::flip_diag_a8h1(board))
}

#[test]
fn test_enumerate_subsets() {
    let board: u64 = 0b00001101;
    let mut expected: Vec<u64> = vec![
        0b00001101, 0b00001000, 0b00001100, 0b00001001, 0b00000101, 0b00000001, 0b00000100,
        0b00000000,
    ];
    let mut result = utility::enumerate_subsets(board);
    expected.sort();
    result.sort();
    assert_eq!(expected, result);
}

#[test]
fn test_get_indices_of_ones_ascending() {
    assert_eq!(vec![0, 5, 63], utility::get_indices_of_ones(1 | (1 << 5) | (1 << 63)));
    assert!(utility::get_indices_of_ones(0).is_empty());
}

#[test]
fn test_fill_between_indices() {
    assert_eq!(0b111100, utility::fill_between_indices(5, 2));
    assert_eq!(0xc000_0000_0000_0000, utility::fill_between_indices(62, 63));
    assert_eq!(1 << 9, utility::fill_between_indices(9, 9));
}

#[test]
fn test_string_to_square_rejects() {
    assert_eq!(None, utility::string_to_square("i4"));
    assert_eq!(None, utility::string_to_square("a9"));
    assert_eq!(None, utility::string_to_square("a0"));
    assert_eq!(None, utility::string_to_square("e44"));
    assert_eq!(Some((7, 0)), utility::string_to_square("a1"));
}
