use chess_engine::board::Board;
use chess_engine::notation::chess_notation_to_square;
use chess_engine::structs::{CastlingRights, Color, Move, MoveType, Piece, PieceType, Square};

fn sq(text: &str) -> Square {
    chess_notation_to_square(text).unwrap()
}

fn layout(fen: &str) -> Board {
    Board::from_fen(fen.to_string()).unwrap()
}

fn caches_fit(board: &Board) {
    assert_eq!(board.attack_lines.len(), board.pieces.len());
    for i in 0..64u8 {
        let s = Square::from_index(i).unwrap();
        match board.piece_at(s) {
            Some(piece) => {
                assert_eq!(board.attack_lines.get(&i), Some(&piece.get_attack_lines(s)));
                if piece.kind == PieceType::King {
                    assert_eq!(board.king_of(piece.color), s);
                }
            }
            None => assert_eq!(board.attack_lines.get(&i), None),
        }
    }
}

fn there_and_back(fen: &str, m: Move) -> Board {
    let mut board = layout(fen);
    let before = layout(fen);
    let rights = board.castling_rights.clone();
    let passed = board.enpassant_square;
    let clock = board.halfmove_clock;
    board.execute(m);
    caches_fit(&board);
    assert_eq!(board.history, vec![m]);
    assert_eq!(board.turn, before.turn.opposite());
    assert_eq!(board.fullmove_number, before.fullmove_number + 1);
    let after = layout_like(&board);
    assert_eq!(board.undo(rights, passed, clock), Some(()));
    caches_fit(&board);
    assert!(board == before);
    assert_eq!(board.pieces, before.pieces);
    assert_eq!(board.attack_lines, before.attack_lines);
    assert_eq!(board.kings, before.kings);
    assert_eq!(board.castling_rights, before.castling_rights);
    assert_eq!(board.enpassant_square, before.enpassant_square);
    assert_eq!(board.halfmove_clock, before.halfmove_clock);
    assert_eq!(board.fullmove_number, before.fullmove_number);
    assert_eq!(board.turn, before.turn);
    assert!(board.history.is_empty());
    after
}

fn layout_like(board: &Board) -> Board {
    let mut copy = layout("4k3/8/8/8/8/8/8/4K3 w - - 0 1");
    copy.pieces = board.pieces.clone();
    copy.attack_lines = board.attack_lines.clone();
    copy.kings = board.kings.clone();
    copy.castling_rights = board.castling_rights.clone();
    copy.turn = board.turn;
    copy.enpassant_square = board.enpassant_square;
    copy.halfmove_clock = board.halfmove_clock;
    copy.fullmove_number = board.fullmove_number;
    copy.history = board.history.clone();
    copy
}

#[test]
fn a_quiet_move_relocates_the_piece_and_counts_the_clock() {
    let fen = "4k3/8/8/8/8/8/8/RN2K3 w Q - 5 9";
    let knight = layout(fen).piece_at(sq("b1")).unwrap();
    let after = there_and_back(fen, Move::from_normal(sq("b1"), sq("c3")));
    assert_eq!(after.piece_at(sq("b1")), None);
    assert_eq!(after.piece_at(sq("c3")), Some(knight));
    assert_eq!(after.halfmove_clock, 6);
    assert_eq!(after.fullmove_number, 10);
    assert_eq!(after.enpassant_square, None);
    assert_eq!(after.rights_of(Color::White), CastlingRights::new(false, true));
    assert_eq!(after.pieces.len(), 4);
}

#[test]
fn a_pawn_move_resets_the_clock() {
    let after = there_and_back("4k3/8/8/8/8/8/4P3/4K3 w - - 5 9", Move::from_normal(sq("e2"), sq("e3")));
    assert_eq!(after.halfmove_clock, 0);
    assert_eq!(after.enpassant_square, None);
}

#[test]
fn a_pawn_jump_sets_the_en_passant_square() {
    let after =
        there_and_back("4k3/8/8/8/8/8/4P3/4K3 w - - 5 9", Move::from_pawn_jump(sq("e2"), sq("e4")));
    assert_eq!(after.enpassant_square, Some(sq("e3")));
    assert_eq!(after.halfmove_clock, 0);
    assert_eq!(after.piece_at(sq("e4")).unwrap().kind, PieceType::Pawn);
    let after =
        there_and_back("4k3/3p4/8/8/8/8/8/4K3 b - - 0 1", Move::from_pawn_jump(sq("d7"), sq("d5")));
    assert_eq!(after.enpassant_square, Some(sq("d6")));
}

#[test]
fn any_other_move_clears_the_en_passant_square() {
    let after = there_and_back(
        "4k3/8/8/8/4P3/8/8/4K3 b - e3 0 1",
        Move::from_normal(sq("e8"), sq("e7")),
    );
    assert_eq!(after.enpassant_square, None);
}

#[test]
fn a_capture_removes_the_piece_taken() {
    let fen = "4k3/8/8/3p4/4P3/8/8/4K3 w - - 7 20";
    let taken = layout(fen).piece_at(sq("d5")).unwrap();
    let pawn = layout(fen).piece_at(sq("e4")).unwrap();
    let after = there_and_back(fen, Move::from_capture(sq("e4"), sq("d5"), taken));
    assert_eq!(after.piece_at(sq("d5")), Some(pawn));
    assert_eq!(after.piece_at(sq("e4")), None);
    assert_eq!(after.pieces.len(), 3);
    assert_eq!(after.halfmove_clock, 0);
    let fen = "4k3/8/8/3p4/8/8/8/3RK3 w - - 7 20";
    let after = there_and_back(fen, Move::from_capture(sq("d1"), sq("d5"), taken));
    assert_eq!(after.halfmove_clock, 0);
    assert_eq!(after.piece_at(sq("d5")).unwrap().kind, PieceType::Rook);
}

#[test]
fn a_promotion_changes_the_kind_and_undo_makes_a_pawn_again() {
    let fen = "4k3/P7/8/8/8/8/8/4K3 w - - 4 30";
    let pawn = layout(fen).piece_at(sq("a7")).unwrap();
    let after = there_and_back(fen, Move::from_promotion(sq("a7"), sq("a8"), PieceType::Queen));
    assert_eq!(after.piece_at(sq("a8")), Some(Piece::new(pawn.id, PieceType::Queen, Color::White)));
    assert_eq!(after.piece_at(sq("a7")), None);
    assert_eq!(after.halfmove_clock, 0);
    let after = there_and_back(fen, Move::from_promotion(sq("a7"), sq("a8"), PieceType::Knight));
    assert_eq!(after.piece_at(sq("a8")).unwrap().kind, PieceType::Knight);
}

#[test]
fn a_promotion_with_capture_does_both() {
    let fen = "1n2k3/P7/8/8/8/8/8/4K3 w - - 4 30";
    let pawn = layout(fen).piece_at(sq("a7")).unwrap();
    let knight = layout(fen).piece_at(sq("b8")).unwrap();
    let after = there_and_back(
        fen,
        Move::from_promotion_capture(sq("a7"), sq("b8"), knight, PieceType::Rook),
    );
    assert_eq!(after.piece_at(sq("b8")), Some(Piece::new(pawn.id, PieceType::Rook, Color::White)));
    assert_eq!(after.pieces.len(), 3);
    assert_eq!(after.halfmove_clock, 0);
}

#[test]
fn en_passant_removes_the_pawn_beside() {
    let fen = "4k3/8/8/3pP3/8/8/8/4K3 w - d6 3 12";
    let taken = layout(fen).piece_at(sq("d5")).unwrap();
    let pawn = layout(fen).piece_at(sq("e5")).unwrap();
    let after = there_and_back(fen, Move::from_enpassant(sq("e5"), sq("d6"), taken));
    assert_eq!(after.piece_at(sq("d6")), Some(pawn));
    assert_eq!(after.piece_at(sq("d5")), None);
    assert_eq!(after.piece_at(sq("e5")), None);
    assert_eq!(after.pieces.len(), 3);
    assert_eq!(after.halfmove_clock, 0);
    assert_eq!(after.enpassant_square, None);
    let fen = "4k3/8/8/8/3pP3/8/8/4K3 b - e3 3 12";
    let taken = layout(fen).piece_at(sq("e4")).unwrap();
    let after = there_and_back(fen, Move::from_enpassant(sq("d4"), sq("e3"), taken));
    assert_eq!(after.piece_at(sq("e4")), None);
    assert_eq!(after.piece_at(sq("e3")).unwrap().color, Color::Black);
}

#[test]
fn castling_moves_king_and_rook_and_gives_up_the_rights() {
    let fen = "r3k2r/8/8/8/8/8/8/R3K2R w KQkq - 2 8";
    let after = there_and_back(fen, Move::from_castle(sq("e1"), sq("g1")));
    assert_eq!(after.piece_at(sq("g1")).unwrap().kind, PieceType::King);
    assert_eq!(after.piece_at(sq("f1")).unwrap().kind, PieceType::Rook);
    assert_eq!(after.piece_at(sq("e1")), None);
    assert_eq!(after.piece_at(sq("h1")), None);
    assert_eq!(after.piece_at(sq("a1")).unwrap().kind, PieceType::Rook);
    assert_eq!(after.king_of(Color::White), sq("g1"));
    assert_eq!(after.rights_of(Color::White), CastlingRights::new(false, false));
    assert_eq!(after.rights_of(Color::Black), CastlingRights::new(true, true));
    assert_eq!(after.halfmove_clock, 3);
    let after = there_and_back(fen, Move::from_castle(sq("e1"), sq("c1")));
    assert_eq!(after.piece_at(sq("c1")).unwrap().kind, PieceType::King);
    assert_eq!(after.piece_at(sq("d1")).unwrap().kind, PieceType::Rook);
    assert_eq!(after.piece_at(sq("a1")), None);
    assert_eq!(after.king_of(Color::White), sq("c1"));
    let fen = "r3k2r/8/8/8/8/8/8/R3K2R b KQkq - 2 8";
    let after = there_and_back(fen, Move::from_castle(sq("e8"), sq("c8")));
    assert_eq!(after.piece_at(sq("c8")).unwrap().kind, PieceType::King);
    assert_eq!(after.piece_at(sq("d8")).unwrap().kind, PieceType::Rook);
    assert_eq!(after.king_of(Color::Black), sq("c8"));
    assert_eq!(after.rights_of(Color::Black), CastlingRights::new(false, false));
    assert_eq!(after.rights_of(Color::White), CastlingRights::new(true, true));
}

#[test]
fn a_king_move_gives_up_both_rights() {
    let fen = "r3k2r/8/8/8/8/8/8/R3K2R w KQkq - 0 1";
    let after = there_and_back(fen, Move::from_normal(sq("e1"), sq("e2")));
    assert_eq!(after.rights_of(Color::White), CastlingRights::new(false, false));
    assert_eq!(after.rights_of(Color::Black), CastlingRights::new(true, true));
    assert_eq!(after.king_of(Color::White), sq("e2"));
}

#[test]
fn a_rook_move_gives_up_the_right_of_its_wing() {
    let fen = "r3k2r/8/8/8/8/8/8/R3K2R w KQkq - 0 1";
    let after = there_and_back(fen, Move::from_normal(sq("h1"), sq("h4")));
    assert_eq!(after.rights_of(Color::White), CastlingRights::new(false, true));
    let after = there_and_back(fen, Move::from_normal(sq("a1"), sq("b1")));
    assert_eq!(after.rights_of(Color::White), CastlingRights::new(true, false));
}

#[test]
fn a_rook_taken_at_home_costs_its_side_the_right() {
    let fen = "r3k2r/8/8/8/8/8/8/R3K2R w KQkq - 0 1";
    let taken = layout(fen).piece_at(sq("a8")).unwrap();
    let after = there_and_back(fen, Move::from_capture(sq("a1"), sq("a8"), taken));
    assert_eq!(after.rights_of(Color::Black), CastlingRights::new(true, false));
    assert_eq!(after.rights_of(Color::White), CastlingRights::new(true, false));
}

#[test]
fn a_right_once_lost_does_not_come_back() {
    let mut board = layout("r3k2r/8/8/8/8/8/8/R3K2R w KQkq - 0 1");
    board.execute(Move::from_normal(sq("h1"), sq("h2")));
    board.execute(Move::from_normal(sq("e8"), sq("e7")));
    board.execute(Move::from_normal(sq("h2"), sq("h1")));
    assert_eq!(board.rights_of(Color::White), CastlingRights::new(false, true));
    board.execute(Move::from_normal(sq("e7"), sq("e8")));
    assert_eq!(board.rights_of(Color::Black), CastlingRights::new(false, false));
    assert_eq!(board.history.len(), 4);
    assert_eq!(board.fullmove_number, 5);
    assert_eq!(board.halfmove_clock, 4);
    let castles =
        board.get_moves(false).0.into_iter().filter(|m| m.kind == MoveType::Castle).count();
    assert_eq!(castles, 1);
}

#[test]
fn undo_without_a_move_does_nothing() {
    let fen = "r3k2r/8/8/8/8/8/8/R3K2R w KQkq - 4 9";
    let mut board = layout(fen);
    let rights = layout("4k3/8/8/8/8/8/8/4K3 w - - 0 1").castling_rights.clone();
    assert_eq!(board.undo(rights, Some(sq("e3")), 77), None);
    assert!(board == layout(fen));
    assert_eq!(board.halfmove_clock, 4);
    assert_eq!(board.enpassant_square, None);
    assert_eq!(board.rights_of(Color::White), CastlingRights::new(true, true));
}

#[test]
fn undo_takes_the_kept_values_as_they_are_given() {
    let fen = "r3k2r/8/8/8/8/8/8/R3K2R w KQkq - 4 9";
    let mut board = layout(fen);
    board.execute(Move::from_normal(sq("e1"), sq("e2")));
    let rights = layout("4k3/8/8/8/8/8/8/4K3 w - - 0 1").castling_rights.clone();
    assert_eq!(board.undo(rights, Some(sq("e3")), 77), Some(()));
    assert_eq!(board.halfmove_clock, 77);
    assert_eq!(board.enpassant_square, Some(sq("e3")));
    assert_eq!(board.rights_of(Color::White), CastlingRights::new(false, false));
    assert_eq!(board.rights_of(Color::Black), CastlingRights::new(false, false));
    assert_eq!(board.fullmove_number, 9);
    assert_eq!(board.king_of(Color::White), sq("e1"));
    assert_eq!(board.pieces, layout(fen).pieces);
}

#[test]
fn moves_are_taken_back_in_the_reverse_of_their_order() {
    let fen = "rnbqkbnr/pppppppp/8/8/8/8/PPPPPPPP/RNBQKBNR w KQkq - 0 1";
    let mut board = layout(fen);
    let mut kept = Vec::new();
    for _ in 0..6 {
        let m = board.get_moves(false).0[3];
        kept.push((board.saved_rights(), board.enpassant_square, board.halfmove_clock));
        board.execute(m);
    }
    assert_eq!(board.history.len(), 6);
    while let Some((rights, passed, clock)) = kept.pop() {
        assert_eq!(board.undo(rights, passed, clock), Some(()));
    }
    assert!(board == layout(fen));
}

#[test]
fn every_legal_move_of_a_rich_position_is_taken_back_exactly() {
    for fen in [
        "r3k2r/p1ppqpb1/bn2pnp1/3PN3/1p2P3/2N2Q1p/PPPBBPPP/R3K2R w KQkq - 0 1",
        "r3k2r/Pppp1ppp/1b3nbN/nP6/BBP1P3/q4N2/Pp1P2PP/R2Q1RK1 w kq - 0 1",
        "8/2p5/3p4/KP5r/1R3p1k/8/4P1P1/8 w - - 5 40",
        "rnbqkb1r/pp1p1ppp/5n2/2pPp3/8/8/PPP1PPPP/RNBQKBNR w KQkq e6 0 4",
    ] {
        let before = layout(fen);
        let mut board = layout(fen);
        for m in before.get_moves(false).0 {
            let rights = board.castling_rights.clone();
            let passed = board.enpassant_square;
            let clock = board.halfmove_clock;
            board.execute(m);
            caches_fit(&board);
            assert_eq!(board.undo(rights, passed, clock), Some(()));
            assert!(board == before);
        }
    }
}

#[test]
fn the_saved_rights_are_those_of_the_board() {
    let board = layout("r3k2r/8/8/8/8/8/8/R3K2R w Kq - 0 1");
    let kept = board.saved_rights();
    assert_eq!(kept, board.castling_rights);
    assert_eq!(kept.get(&Color::White.code()), Some(&CastlingRights::new(true, false)));
    assert_eq!(kept.get(&Color::Black.code()), Some(&CastlingRights::new(false, true)));
    assert_eq!(kept.len(), 2);
}
