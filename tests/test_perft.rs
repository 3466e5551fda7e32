use odyn::chessboard::Chessboard;
use odyn::constants::START_FEN;
use odyn::move_generator::AttackTables;
use odyn::perft;

const KIWIPETE: &str = "r3k2r/p1ppqpb1/bn2pnp1/3PN3/1p2P3/2N2Q1p/PPPBBPPP/R3K2R w KQkq - 0 1";

#[test]
fn test_start_position_perft_depth_0_to_2() {
    let tables = AttackTables::new().expect("magic tables");
    let board = Chessboard::from_fen(START_FEN, " ").unwrap();

    assert_eq!(1, perft::perft(&board, &tables, 0));
    assert_eq!(20, perft::perft(&board, &tables, 1));
    assert_eq!(400, perft::perft(&board, &tables, 2));
}

#[test]
fn test_start_position_perft_divide_depth_2() {
    let tables = AttackTables::new().expect("magic tables");
    let board = Chessboard::from_fen(START_FEN, " ").unwrap();
    let divide = perft::perft_divide(&board, &tables, 2);

    assert_eq!(20, divide.len());
    assert!(divide.iter().all(|(_, nodes)| *nodes == 20));
    assert_eq!(400, divide.iter().map(|(_, nodes)| nodes).sum::<u64>());
}

#[test]
fn test_start_position_perft_depth_3() {
    let tables = AttackTables::new().expect("magic tables");
    let board = Chessboard::from_fen(START_FEN, " ").unwrap();
    assert_eq!(8902, perft::perft(&board, &tables, 3));
}

#[test]
fn test_kiwipete_perft_depth_1_and_2() {
    let tables = AttackTables::new().expect("magic tables");
    let board = Chessboard::from_fen(KIWIPETE, " ").unwrap();
    assert_eq!(48, perft::perft(&board, &tables, 1));
    assert_eq!(2039, perft::perft(&board, &tables, 2));
}

#[test]
fn test_position_three_perft_depth_3() {
    let tables = AttackTables::new().expect("magic tables");
    let board = Chessboard::from_fen("8/2p5/3p4/KP5r/1R3p1k/8/4P1P1/8 w - - 0 1", " ").unwrap();
    assert_eq!(14, perft::perft(&board, &tables, 1));
    assert_eq!(191, perft::perft(&board, &tables, 2));
    assert_eq!(2812, perft::perft(&board, &tables, 3));
}

#[test]
fn test_perft_divide_depth_0_is_empty() {
    let tables = AttackTables::new().expect("magic tables");
    let board = Chessboard::from_fen(START_FEN, " ").unwrap();
    assert!(perft::perft_divide(&board, &tables, 0).is_empty());
}

#[test]
fn test_perft_divide_sums_to_perft() {
    let tables = AttackTables::new().expect("magic tables");
    let board = Chessboard::from_fen(KIWIPETE, " ").unwrap();
    let divide = perft::perft_divide(&board, &tables, 2);
    assert_eq!(48, divide.len());
    assert_eq!(perft::perft(&board, &tables, 2), divide.iter().map(|(_, n)| n).sum::<u64>());
}
