use odyn::chess_move::Move;
use odyn::chessboard::Chessboard;
use odyn::constants::{START_FEN, WHITE_ID, BLACK_ID};
use odyn::fen::FenError;
use odyn::mailbox::MailboxBoard;
use odyn::bitboard::Bitboard;
use odyn::move_generator::AttackTables;
use odyn::protocol::parse_uci_move;

const KIWIPETE: &str = "r3k2r/p1ppqpb1/bn2pnp1/3PN3/1p2P3/2N2Q1p/PPPBBPPP/R3K2R w KQkq - 0 1";

fn tables() -> AttackTables {
    AttackTables::new().expect("magic tables")
}

fn legal_uci(board: &Chessboard, tables: &AttackTables) -> Vec<String> {
    board.compute_legal_moves(tables).iter().map(|m| m.uci_move()).collect()
}

fn play(board: &mut Chessboard, uci: &str) {
    board.make_move_unchecked(parse_uci_move(uci).unwrap());
}

#[test]
fn test_start_position_legal_moves() {
    let tables = tables();
    let board = Chessboard::from_fen(START_FEN, " ").unwrap();
    let moves = legal_uci(&board, &tables);
    assert_eq!(20, moves.len());
    for m in ["e2e4", "g1f3", "b1a3"] {
        assert!(moves.contains(&m.to_string()), "{}", m);
    }
}

#[test]
fn test_fen_after_e2e4() {
    let mut board = Chessboard::from_fen(START_FEN, " ").unwrap();
    play(&mut board, "e2e4");
    assert_eq!("rnbqkbnr/pppppppp/8/8/4P3/8/PPPP1PPP/RNBQKBNR b KQkq - 0 1", board.to_fen(" "));
}

#[test]
fn test_en_passant_after_double_push() {
    let tables = tables();
    let mut board =
        Chessboard::from_fen("r1bqk2r/pppp1ppp/3b1n2/4p2P/2BnP3/5N2/PPPP1PP1/RNBQK2R b KQkq - 0 1", " ")
            .unwrap();
    assert!(legal_uci(&board, &tables).contains(&"g7g5".to_string()));
    play(&mut board, "g7g5");
    assert!(legal_uci(&board, &tables).contains(&"h5g6".to_string()));
    play(&mut board, "h5g6");
    let fen = board.to_fen(" ");
    assert_eq!("r1bqk2r/pppp1p1p/3b1nP1/4p3/2BnP3/5N2/PPPP1PP1/RNBQK2R b KQkq - 0 2", fen);
}

#[test]
fn test_scholars_mate() {
    let tables = tables();
    let board =
        Chessboard::from_fen("r1bqkb1r/pppp1Qpp/2n2n2/4p3/2B1P3/8/PPPP1PPP/RNB1K1NR b KQkq - 0 1", " ")
            .unwrap();
    assert!(board.compute_legal_moves(&tables).is_empty());
    assert!(board.is_in_check(&tables, BLACK_ID));
    assert!(board.is_checkmate(&tables));
    assert!(!board.is_stalemate(&tables));
}

#[test]
fn test_promotion_to_queen_and_sequel() {
    let tables = tables();
    let mut board = Chessboard::from_fen("8/PPPk4/8/8/8/8/4Kppp/8 w - - 0 1", " ").unwrap();
    let moves = legal_uci(&board, &tables);
    for m in ["a7a8q", "a7a8r", "a7a8b", "a7a8n"] {
        assert!(moves.contains(&m.to_string()), "{}", m);
    }
    play(&mut board, "a7a8q");
    assert_eq!("Q7/1PPk4/8/8/8/8/4Kppp/8 b - - 0 1", board.to_fen(" "));
    play(&mut board, "h2h1q");
    let moves = legal_uci(&board, &tables);
    assert!(moves.contains(&"a8h8".to_string()));
    assert!(moves.contains(&"a8a1".to_string()));
}

#[test]
fn test_blocked_castle_is_not_legal() {
    let tables = tables();
    let board = Chessboard::from_fen("4k3/8/8/8/8/8/8/4KB1R w K - 0 1", " ").unwrap();
    assert!(!legal_uci(&board, &tables).contains(&"e1g1".to_string()));
}

#[test]
fn test_castle_needs_every_condition() {
    let tables = tables();
    let open = Chessboard::from_fen("4k3/8/8/8/8/8/8/4K2R w K - 0 1", " ").unwrap();
    assert!(legal_uci(&open, &tables).contains(&"e1g1".to_string()));
    // No right.
    let no_right = Chessboard::from_fen("4k3/8/8/8/8/8/8/4K2R w - - 0 1", " ").unwrap();
    assert!(!legal_uci(&no_right, &tables).contains(&"e1g1".to_string()));
    // The king crosses an attacked square.
    let crossed = Chessboard::from_fen("4kr2/8/8/8/8/8/8/4K2R w K - 0 1", " ").unwrap();
    assert!(!legal_uci(&crossed, &tables).contains(&"e1g1".to_string()));
    // The king is in check.
    let checked = Chessboard::from_fen("4r1k1/8/8/8/8/8/8/4K2R w K - 0 1", " ").unwrap();
    assert!(!legal_uci(&checked, &tables).contains(&"e1g1".to_string()));
    // The king would land on an attacked square.
    let landing = Chessboard::from_fen("6rk/8/8/8/8/8/8/4K2R w K - 0 1", " ").unwrap();
    assert!(!legal_uci(&landing, &tables).contains(&"e1g1".to_string()));
    // Queen side: b1 must be empty too, though the king never crosses it.
    let long = Chessboard::from_fen("4k3/8/8/8/8/8/8/R3K3 w Q - 0 1", " ").unwrap();
    assert!(legal_uci(&long, &tables).contains(&"e1c1".to_string()));
    let long_blocked = Chessboard::from_fen("4k3/8/8/8/8/8/8/RN2K3 w Q - 0 1", " ").unwrap();
    assert!(!legal_uci(&long_blocked, &tables).contains(&"e1c1".to_string()));
}

#[test]
fn test_no_legal_move_leaves_the_king_attacked() {
    let tables = tables();
    for fen in [
        START_FEN,
        KIWIPETE,
        "8/2p5/3p4/KP5r/1R3p1k/8/4P1P1/8 w - - 0 1",
        "r3k2r/Pppp1ppp/1b3nbN/nP6/BBP1P3/q4N2/Pp1P2PP/R2Q1RK1 w kq - 0 1",
        "8/8/8/2k5/2pP4/8/B7/4K3 b - d3 0 1",
    ] {
        let board = Chessboard::from_fen(fen, " ").unwrap();
        let mover = board.current_turn();
        for m in board.compute_legal_moves(&tables) {
            let mut next = board;
            next.make_move_unchecked(m);
            assert!(!next.is_in_check(&tables, mover), "{} {}", fen, m.uci_move());
        }
    }
}

#[test]
fn test_en_passant_that_exposes_the_king_is_refused() {
    let tables = tables();
    // Taking d3 en passant would open the fifth rank to the rook on h4.
    let board = Chessboard::from_fen("8/8/8/8/k2Pp2R/8/8/4K3 b - d3 0 1", " ").unwrap();
    let moves = legal_uci(&board, &tables);
    assert!(!moves.contains(&"e4d3".to_string()));
    assert!(moves.contains(&"e4e3".to_string()));
}

#[test]
fn test_double_check_allows_only_king_moves() {
    let tables = tables();
    // Rook a1 and knight d3 both give check; the rook on d8 could take the knight.
    let board = Chessboard::from_fen("3Rk3/8/8/8/8/3n4/8/r3K3 w - - 0 1", " ").unwrap();
    let moves = board.compute_legal_moves(&tables);
    assert!(!moves.is_empty());
    assert!(moves.iter().all(|m| m.start_index == 60));
    // In single check the rook may take the checking knight.
    let single = Chessboard::from_fen("3Rk3/8/8/8/8/3n4/8/4K3 w - - 0 1", " ").unwrap();
    assert!(legal_uci(&single, &tables).contains(&"d8d3".to_string()));
}

#[test]
fn test_pinned_pieces_stay_on_the_ray() {
    let tables = tables();
    // The knight on e2 is pinned by the rook on e7: it cannot move at all.
    let knight = Chessboard::from_fen("4k3/4r3/8/8/8/8/4N3/4K3 w - - 0 1", " ").unwrap();
    assert!(knight.compute_legal_moves(&tables).iter().all(|m| m.start_index != 52));
    // The rook on e2 is pinned too: it moves along the e-file only.
    let rook = Chessboard::from_fen("4k3/4r3/8/8/8/8/4R3/4K3 w - - 0 1", " ").unwrap();
    let rook_moves: Vec<Move> =
        rook.compute_legal_moves(&tables).into_iter().filter(|m| m.start_index == 52).collect();
    assert_eq!(5, rook_moves.len());
    assert!(rook_moves.iter().all(|m| m.end_index % 8 == 4));
    // A bishop pinned on a diagonal may slide along it, up to the pinner.
    let bishop = Chessboard::from_fen("4k3/8/8/b7/8/8/3B4/4K3 w - - 0 1", " ").unwrap();
    let bishop_moves: Vec<String> = legal_uci(&bishop, &tables)
        .into_iter()
        .filter(|m| m.starts_with("d2"))
        .collect();
    let mut sorted = bishop_moves.clone();
    sorted.sort();
    assert_eq!(vec!["d2a5", "d2b4", "d2c3"], sorted);
}

#[test]
fn test_move_counters() {
    // A knight move raises the halfmove clock; a black move raises the fullmove number.
    let mut board = Chessboard::from_fen("4k3/8/8/8/8/8/8/4K1N1 w - - 5 9", " ").unwrap();
    play(&mut board, "g1f3");
    assert!(board.to_fen(" ").ends_with(" 6 9"));
    play(&mut board, "e8d8");
    assert!(board.to_fen(" ").ends_with(" 7 10"));
    // A capture resets the clock.
    let mut capture = Chessboard::from_fen("4k3/8/8/8/8/8/3r4/4K3 w - - 12 30", " ").unwrap();
    play(&mut capture, "e1d2");
    assert!(capture.to_fen(" ").ends_with(" 0 30"));
}

#[test]
fn test_stalemate() {
    let tables = tables();
    let board = Chessboard::from_fen("7k/5Q2/6K1/8/8/8/8/8 b - - 0 1", " ").unwrap();
    assert!(board.is_stalemate(&tables));
    assert!(!board.is_checkmate(&tables));
    assert!(!board.exists_legal_moves(&tables));
}

#[test]
fn test_mailbox_and_bitboards_stay_in_step() {
    let tables = tables();
    let mut board = Chessboard::from_fen(KIWIPETE, " ").unwrap();
    for _ in 0..6 {
        let moves = board.compute_legal_moves(&tables);
        let m = moves[moves.len() / 2];
        board.make_move_unchecked(m);
        let fen = board.to_fen(" ");
        let mailbox = MailboxBoard::from_fen(&fen, " ").unwrap();
        for i in 0..64u32 {
            assert_eq!(mailbox.get_piece(i), board.mailbox.get_piece(i), "{} {}", fen, i);
        }
    }
}

#[test]
fn test_round_trip_canonical_positions() {
    for fen in [
        KIWIPETE,
        "r3k2r/8/8/8/8/8/8/R3K2R b Kq - 3 17",
        "r3k2r/8/8/8/8/8/8/R3K2R w Qk - 0 1",
        "8/8/8/8/8/8/8/4K2k w - - 12 40",
        "rnbqkbnr/ppp1pppp/8/3pP3/8/8/PPPP1PPP/RNBQKBNR w KQkq d6 0 3",
        "4k3/1P6/8/8/8/8/6p1/4K3 b - - 0 1",
    ] {
        let board = Chessboard::from_fen(fen, " ").unwrap();
        assert_eq!(fen, board.to_fen(" "));
    }
}

#[test]
fn test_fen_errors() {
    let cases = [
        ("8/8/8/8/8/8/8/8 w - -", FenError::FieldCount),
        ("9/8/8/8/8/8/8/8 w - - 0 1", FenError::Placement),
        ("8/8/8/8/8/8/8/7 w - - 0 1", FenError::Placement),
        ("8/8/8/8/8/8/8/7x w - - 0 1", FenError::Placement),
        ("8/8/8/8/8/8/8/8 x - - 0 1", FenError::Side),
        ("8/8/8/8/8/8/8/8 w KX - 0 1", FenError::Castling),
        ("8/8/8/8/8/8/8/8 w - z9 0 1", FenError::EnPassant),
        ("8/8/8/8/8/8/8/8 w - - a 1", FenError::Counter),
        ("8/8/8/8/8/8/8/8 w - - 0 99999999999", FenError::Counter),
    ];
    for (fen, error) in cases {
        assert_eq!(Some(error), Chessboard::from_fen(fen, " ").err(), "{}", fen);
    }
    assert_eq!(Some(FenError::EmptySeparator), Chessboard::from_fen(START_FEN, "").err());
    assert_eq!(Some(FenError::FieldCount), MailboxBoard::from_fen("8/8 w", " ").err());
    assert_eq!(Some(FenError::Side), Bitboard::from_fen("8/8/8/8/8/8/8/8 W - - 0 1", " ").err());
}

#[test]
fn test_other_separator() {
    let fen = START_FEN.replace(' ', "_");
    let board = Chessboard::from_fen(&fen, "_").unwrap();
    assert_eq!(fen, board.to_fen("_"));
    assert_eq!(START_FEN, board.to_fen(" "));
}

#[test]
fn test_from_moves_replays() {
    let moves = vec![parse_uci_move("e2e4").unwrap(), parse_uci_move("e7e5").unwrap()];
    let board = Chessboard::from_moves(START_FEN, moves).unwrap();
    assert_eq!("rnbqkbnr/pppp1ppp/8/4p3/4P3/8/PPPP1PPP/RNBQKBNR w KQkq - 0 2", board.to_fen(" "));
    assert_eq!(WHITE_ID, board.current_turn());
}
