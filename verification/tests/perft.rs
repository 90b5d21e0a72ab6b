use chess_engine::board::Board;

fn layout(fen: &str) -> Board {
    Board::from_fen(fen.to_string()).unwrap()
}

fn count(board: &mut Board, depth: usize) -> usize {
    if depth == 0 {
        return 1;
    }
    let mut total = 0;
    for m in board.get_moves(false).0 {
        let rights = board.castling_rights.clone();
        let passed = board.enpassant_square;
        let clock = board.halfmove_clock;
        board.execute(m);
        total += count(board, depth - 1);
        board.undo(rights, passed, clock).unwrap();
    }
    total
}

#[test]
fn perft_from_the_initial_position() {
    let mut board = layout("rnbqkbnr/pppppppp/8/8/8/8/PPPPPPPP/RNBQKBNR w KQkq - 0 1");
    assert_eq!(count(&mut board, 1), 20);
    assert_eq!(count(&mut board, 2), 400);
    assert_eq!(count(&mut board, 3), 8902);
}

#[test]
fn perft_with_castling_and_pins() {
    let mut board =
        layout("r3k2r/p1ppqpb1/bn2pnp1/3PN3/1p2P3/2N2Q1p/PPPBBPPP/R3K2R w KQkq - 0 1");
    assert_eq!(count(&mut board, 1), 48);
    assert_eq!(count(&mut board, 2), 2039);
}

#[test]
fn perft_with_en_passant_along_the_rank() {
    let mut board = layout("8/2p5/3p4/KP5r/1R3p1k/8/4P1P1/8 w - - 0 1");
    assert_eq!(count(&mut board, 1), 14);
    assert_eq!(count(&mut board, 2), 191);
    assert_eq!(count(&mut board, 3), 2812);
}

#[test]
fn perft_with_promotions() {
    let mut board = layout("r3k2r/Pppp1ppp/1b3nbN/nP6/BBP1P3/q4N2/Pp1P2PP/R2Q1RK1 w kq - 0 1");
    assert_eq!(count(&mut board, 1), 6);
    assert_eq!(count(&mut board, 2), 264);
}

#[test]
fn perft_of_a_middle_game() {
    let mut board = layout("rnbq1k1r/pp1Pbppp/2p5/8/2B5/8/PPP1NnPP/RNBQK2R w KQ - 1 8");
    assert_eq!(count(&mut board, 1), 44);
    assert_eq!(count(&mut board, 2), 1486);
}

#[test]
fn perft_goes_deeper() {
    let mut board = layout("rnbqkbnr/pppppppp/8/8/8/8/PPPPPPPP/RNBQKBNR w KQkq - 0 1");
    assert_eq!(count(&mut board, 4), 197281);
    let mut board =
        layout("r3k2r/p1ppqpb1/bn2pnp1/3PN3/1p2P3/2N2Q1p/PPPBBPPP/R3K2R w KQkq - 0 1");
    assert_eq!(count(&mut board, 3), 97862);
    let mut board = layout("8/2p5/3p4/KP5r/1R3p1k/8/4P1P1/8 w - - 0 1");
    assert_eq!(count(&mut board, 4), 43238);
    let mut board =
        layout("r3k2r/Pppp1ppp/1b3nbN/nP6/BBP1P3/q4N2/Pp1P2PP/R2Q1RK1 w kq - 0 1");
    assert_eq!(count(&mut board, 3), 9467);
    let mut board = layout("rnbq1k1r/pp1Pbppp/2p5/8/2B5/8/PPP1NnPP/RNBQK2R w KQ - 1 8");
    assert_eq!(count(&mut board, 3), 62379);
    let mut board =
        layout("r4rk1/1pp1qppp/p1np1n2/2b1p1B1/2B1P1b1/P1NP1N2/1PP1QPPP/R4RK1 w - - 0 10");
    assert_eq!(count(&mut board, 1), 46);
    assert_eq!(count(&mut board, 2), 2079);
    assert_eq!(count(&mut board, 3), 89890);
}
