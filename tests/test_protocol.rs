use odyn::chess_move::Move;
use odyn::constants::{QUEEN_ID, START_FEN};
use odyn::fen::FenError;
use odyn::move_generator::AttackTables;
use odyn::protocol::{parse_go_perft_depth, parse_uci_move, UciAction, UciError, UciWrapper};

fn output_of(action: UciAction) -> Vec<u8> {
    let mut out = Vec::new();
    if let UciAction::Output(lines) = action {
        for line in lines {
            out.extend_from_slice(line.as_bytes());
            out.push(b'\n');
        }
    }
    out
}

#[test]
fn test_parse_go_perft_depth() {
    assert_eq!(parse_go_perft_depth(&["wtime", "100"]).unwrap(), None);
    assert_eq!(parse_go_perft_depth(&["perft", "2"]).unwrap(), Some(2));
    assert!(parse_go_perft_depth(&["perft"]).is_err());
}

#[test]
fn test_go_perft_prints_nodes_count() {
    let tables = AttackTables::new().expect("magic tables");
    let mut wrapper = UciWrapper::new();
    let mut out = Vec::new();

    out.extend(output_of(
        wrapper
            .handle_line(&tables, "position startpos")
            .expect("position command should succeed"),
    ));
    out.extend(output_of(
        wrapper
            .handle_line(&tables, "go perft 1")
            .expect("perft command should succeed"),
    ));

    let output = String::from_utf8(out).expect("output must be utf8");
    assert!(output.contains("Nodes searched: 20"));
}

#[test]
fn test_go_perft_prints_divide_lines() {
    let tables = AttackTables::new().expect("magic tables");
    let mut wrapper = UciWrapper::new();
    let mut out = Vec::new();

    out.extend(output_of(
        wrapper
            .handle_line(&tables, "position startpos")
            .expect("position command should succeed"),
    ));
    out.extend(output_of(
        wrapper
            .handle_line(&tables, "go perft 1")
            .expect("perft command should succeed"),
    ));

    let output = String::from_utf8(out).expect("output must be utf8");
    assert!(output.contains("a2a3: 1"));
    assert!(output.contains("h2h4: 1"));
    assert!(output.contains("g1f3: 1"));
    assert!(output.contains("Nodes searched: 20"));
}

#[test]
fn test_perft_report_layout() {
    let tables = AttackTables::new().expect("magic tables");
    let mut wrapper = UciWrapper::new();
    wrapper.handle_line(&tables, "position startpos moves e2e4").unwrap();
    let lines = match wrapper.handle_line(&tables, "go perft 1").unwrap() {
        UciAction::Output(lines) => lines,
        _ => panic!("expected output"),
    };
    assert_eq!(22, lines.len());
    assert_eq!("", lines[20]);
    assert_eq!("Nodes searched: 20", lines[21]);
}

#[test]
fn test_uci_and_isready_answers() {
    let tables = AttackTables::new().expect("magic tables");
    let mut wrapper = UciWrapper::new();
    match wrapper.handle_line(&tables, "uci").unwrap() {
        UciAction::Output(lines) => {
            assert_eq!(vec!["id name Odyn", "id author MichelDucartier", "uciok"], lines)
        }
        _ => panic!("expected output"),
    }
    match wrapper.handle_line(&tables, "  isready  ").unwrap() {
        UciAction::Output(lines) => assert_eq!(vec!["readyok"], lines),
        _ => panic!("expected output"),
    }
    assert!(matches!(wrapper.handle_line(&tables, "quit").unwrap(), UciAction::Quit));
    assert!(matches!(wrapper.handle_line(&tables, "").unwrap(), UciAction::Nothing));
    assert!(matches!(wrapper.handle_line(&tables, "setoption name Hash value 1").unwrap(), UciAction::Nothing));
    assert!(matches!(wrapper.handle_line(&tables, "go wtime 100").unwrap(), UciAction::Search));
}

#[test]
fn test_position_fen_with_moves_and_new_game() {
    let tables = AttackTables::new().expect("magic tables");
    let mut wrapper = UciWrapper::new();
    wrapper
        .handle_line(&tables, "position fen 4k3/8/8/8/8/8/8/4K2R w K - 0 1 moves e1g1 e8d8")
        .unwrap();
    assert_eq!("4k3/8/8/8/8/8/8/4K2R w K - 0 1", wrapper.position.fen);
    assert_eq!(vec![Move::new_no_promotion(60, 62), Move::new_no_promotion(4, 3)], wrapper.position.moves);
    wrapper.handle_line(&tables, "ucinewgame").unwrap();
    assert_eq!(START_FEN, wrapper.position.fen);
    assert!(wrapper.position.moves.is_empty());
}

#[test]
fn test_position_errors_keep_the_position() {
    let tables = AttackTables::new().expect("magic tables");
    let mut wrapper = UciWrapper::new();
    wrapper.handle_line(&tables, "position startpos moves e2e4").unwrap();
    let cases = [
        ("position", UciError::MissingArguments),
        ("position fen", UciError::MissingFen),
        ("position fen moves e2e4", UciError::MissingFen),
        ("position sideways", UciError::ExpectedStartposOrFen),
        ("position startpos e2e4", UciError::ExpectedMovesKeyword),
        ("position startpos moves e2e9", UciError::InvalidMove),
        ("position fen 8/8 w - - 0 1", UciError::Fen(FenError::Placement)),
        ("position fen 8/8/8/8/8/8/8/8 w -", UciError::Fen(FenError::FieldCount)),
    ];
    for (line, error) in cases {
        assert_eq!(Some(error), wrapper.handle_line(&tables, line).err(), "{}", line);
        assert_eq!(START_FEN, wrapper.position.fen);
        assert_eq!(vec![Move::new_no_promotion(52, 36)], wrapper.position.moves);
    }
}

#[test]
fn test_go_perft_errors() {
    let tables = AttackTables::new().expect("magic tables");
    let mut wrapper = UciWrapper::new();
    assert_eq!(Some(UciError::PerftArguments), wrapper.handle_line(&tables, "go perft").err());
    assert_eq!(Some(UciError::PerftArguments), wrapper.handle_line(&tables, "go perft 1 2").err());
    assert_eq!(Some(UciError::InvalidDepth), wrapper.handle_line(&tables, "go perft 300").err());
    assert_eq!(Some(UciError::InvalidDepth), wrapper.handle_line(&tables, "go perft x").err());
}

#[test]
fn test_parse_uci_move_forms() {
    assert_eq!(Ok(Move::new_no_promotion(52, 36)), parse_uci_move("e2e4"));
    assert_eq!(Ok(Move::new(12, 4, QUEEN_ID)), parse_uci_move("e7e8q"));
    assert_eq!(Err(UciError::InvalidMove), parse_uci_move("e7e8k"));
    assert_eq!(Err(UciError::InvalidMove), parse_uci_move("e2"));
    assert_eq!(Err(UciError::InvalidMove), parse_uci_move("E2E4"));
    assert_eq!(Err(UciError::InvalidMove), parse_uci_move("e2e4qq"));
    assert_eq!("e7e8q", Move::new(12, 4, QUEEN_ID).uci_move());
}

#[test]
fn test_perft_report_depth_zero_and_two() {
    let tables = AttackTables::new().expect("magic tables");
    let mut wrapper = UciWrapper::new();
    match wrapper.handle_line(&tables, "go perft 0").unwrap() {
        UciAction::Output(lines) => assert_eq!(vec!["Nodes searched: 1"], lines),
        _ => panic!("expected output"),
    }
    let lines = match wrapper.handle_line(&tables, "go perft 2").unwrap() {
        UciAction::Output(lines) => lines,
        _ => panic!("expected output"),
    };
    assert_eq!(22, lines.len());
    assert!(lines[..20].iter().all(|l| l.ends_with(": 20")));
    assert_eq!("Nodes searched: 400", lines[21]);
}
