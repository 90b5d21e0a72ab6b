use chess_engine::board::{Board, BoardError};
use chess_engine::move_generation::{
    generate_all_moves, generate_human_legal_moves, generate_king_moves, generate_knight_moves,
    generate_legal_moves, generate_pawn_moves, generate_sliding_piece_moves, is_valid_destination,
};
use chess_engine::notation::chess_notation_to_square;
use chess_engine::structs::{
    CastlingRights, Color, Directions, Move, MoveType, Piece, PieceType, Square,
};

fn sq(text: &str) -> Square {
    chess_notation_to_square(text).unwrap()
}

fn layout(fen: &str) -> Board {
    Board::from_fen(fen.to_string()).unwrap()
}

fn no_rights() -> CastlingRights {
    CastlingRights::new(false, false)
}

fn king(id: u8, color: Color) -> Piece {
    Piece::new(id, PieceType::King, color)
}

fn moves_from(board: &Board, from: &str) -> Vec<Move> {
    let from = sq(from);
    board.get_moves(false).0.into_iter().filter(|m| m.from == from).collect()
}

fn targets(moves: &[Move]) -> Vec<Square> {
    let mut to: Vec<Square> = moves.iter().map(|m| m.to).collect();
    to.sort_by_key(|s| s.index());
    to
}

fn squares(names: &[&str]) -> Vec<Square> {
    let mut all: Vec<Square> = names.iter().map(|n| sq(n)).collect();
    all.sort_by_key(|s| s.index());
    all
}

#[test]
fn the_constructor_builds_the_position_it_is_given() {
    let placement = vec![
        (sq("e1"), king(0, Color::White)),
        (sq("h1"), Piece::new(1, PieceType::Rook, Color::White)),
        (sq("e8"), king(2, Color::Black)),
        (sq("d5"), Piece::new(3, PieceType::Pawn, Color::Black)),
    ];
    let board = Board::new(
        placement,
        Color::Black,
        CastlingRights::new(true, false),
        no_rights(),
        Some(sq("d6")),
        3,
        17,
    )
    .unwrap();
    assert_eq!(board.turn, Color::Black);
    assert_eq!(board.enpassant_square, Some(sq("d6")));
    assert_eq!(board.halfmove_clock, 3);
    assert_eq!(board.fullmove_number, 17);
    assert!(board.history.is_empty());
    assert_eq!(board.pieces.len(), 4);
    assert_eq!(board.piece_at(sq("e1")), Some(king(0, Color::White)));
    assert_eq!(board.piece_at(sq("d5")), Some(Piece::new(3, PieceType::Pawn, Color::Black)));
    assert_eq!(board.piece_at(sq("d4")), None);
    assert_eq!(board.king_of(Color::White), sq("e1"));
    assert_eq!(board.king_of(Color::Black), sq("e8"));
    assert_eq!(board.rights_of(Color::White), CastlingRights::new(true, false));
    assert_eq!(board.rights_of(Color::Black), no_rights());
    assert_eq!(board.kings.len(), 2);
    assert_eq!(board.castling_rights.len(), 2);
}

#[test]
fn the_constructor_caches_the_attack_lines_of_every_piece() {
    let board = layout("rnbqkbnr/pppppppp/8/8/8/8/PPPPPPPP/RNBQKBNR w KQkq - 0 1");
    assert_eq!(board.attack_lines.len(), 32);
    for i in 0..64u8 {
        let s = Square::from_index(i).unwrap();
        match board.piece_at(s) {
            Some(piece) => {
                assert_eq!(board.lines_at(s), &piece.get_attack_lines(s));
                assert_eq!(board.attack_lines.get(&i), Some(&piece.get_attack_lines(s)));
            }
            None => assert_eq!(board.attack_lines.get(&i), None),
        }
    }
}

#[test]
fn a_square_set_twice_is_refused() {
    let placement = vec![
        (sq("e1"), king(0, Color::White)),
        (sq("e8"), king(1, Color::Black)),
        (sq("a2"), Piece::new(2, PieceType::Pawn, Color::White)),
        (sq("a2"), Piece::new(3, PieceType::Rook, Color::Black)),
        (sq("e8"), Piece::new(4, PieceType::Rook, Color::Black)),
    ];
    let made = Board::new(placement, Color::White, no_rights(), no_rights(), None, 0, 1);
    assert_eq!(made.err(), Some(BoardError::TwicePlaced(sq("a2"))));
}

#[test]
fn a_side_without_king_is_refused() {
    let placement = vec![(sq("e8"), king(0, Color::Black))];
    let made = Board::new(placement, Color::White, no_rights(), no_rights(), None, 0, 1);
    assert_eq!(made.err(), Some(BoardError::NoKing(Color::White)));
    let placement = vec![(sq("e1"), king(0, Color::White))];
    let made = Board::new(placement, Color::White, no_rights(), no_rights(), None, 0, 1);
    assert_eq!(made.err(), Some(BoardError::NoKing(Color::Black)));
    let made = Board::new(Vec::new(), Color::White, no_rights(), no_rights(), None, 0, 1);
    assert_eq!(made.err(), Some(BoardError::NoKing(Color::White)));
}

#[test]
fn a_side_with_two_kings_is_refused() {
    let placement = vec![
        (sq("e1"), king(0, Color::White)),
        (sq("d1"), king(1, Color::White)),
        (sq("e8"), king(2, Color::Black)),
    ];
    let made = Board::new(placement, Color::White, no_rights(), no_rights(), None, 0, 1);
    assert_eq!(made.err(), Some(BoardError::ManyKings(Color::White)));
    let placement = vec![
        (sq("e1"), king(0, Color::White)),
        (sq("d8"), king(1, Color::Black)),
        (sq("e8"), king(2, Color::Black)),
    ];
    let made = Board::new(placement, Color::White, no_rights(), no_rights(), None, 0, 1);
    assert_eq!(made.err(), Some(BoardError::ManyKings(Color::Black)));
}

#[test]
fn a_castling_right_without_king_and_rook_at_home_is_refused() {
    let placement = vec![
        (sq("e1"), king(0, Color::White)),
        (sq("a1"), Piece::new(1, PieceType::Rook, Color::White)),
        (sq("e8"), king(2, Color::Black)),
        (sq("h8"), Piece::new(3, PieceType::Rook, Color::White)),
    ];
    let made = Board::new(
        placement.clone(),
        Color::White,
        CastlingRights::new(true, true),
        no_rights(),
        None,
        0,
        1,
    );
    assert_eq!(made.err(), Some(BoardError::CastlingRight(Color::White)));
    let made = Board::new(
        placement.clone(),
        Color::White,
        CastlingRights::new(false, true),
        CastlingRights::new(true, false),
        None,
        0,
        1,
    );
    assert_eq!(made.err(), Some(BoardError::CastlingRight(Color::Black)));
    let made = Board::new(
        placement,
        Color::White,
        CastlingRights::new(false, true),
        no_rights(),
        None,
        0,
        1,
    );
    assert!(made.is_ok());
}

#[test]
fn an_occupied_en_passant_square_is_refused() {
    let placement = vec![
        (sq("e1"), king(0, Color::White)),
        (sq("e8"), king(1, Color::Black)),
        (sq("d6"), Piece::new(2, PieceType::Knight, Color::Black)),
    ];
    let made =
        Board::new(placement, Color::White, no_rights(), no_rights(), Some(sq("d6")), 0, 1);
    assert_eq!(made.err(), Some(BoardError::EnpassantSquare));
}

#[test]
fn the_faults_of_a_layout_are_found_in_order() {
    let placement = vec![
        (sq("e8"), king(0, Color::Black)),
        (sq("a2"), Piece::new(1, PieceType::Pawn, Color::White)),
        (sq("a2"), Piece::new(2, PieceType::Pawn, Color::White)),
    ];
    let made = Board::new(
        placement,
        Color::White,
        CastlingRights::new(true, true),
        no_rights(),
        Some(sq("a2")),
        0,
        1,
    );
    assert_eq!(made.err(), Some(BoardError::TwicePlaced(sq("a2"))));
    let placement = vec![(sq("e8"), king(0, Color::Black))];
    let made = Board::new(
        placement,
        Color::White,
        CastlingRights::new(true, true),
        no_rights(),
        Some(sq("e8")),
        0,
        1,
    );
    assert_eq!(made.err(), Some(BoardError::NoKing(Color::White)));
}

#[test]
fn the_initial_position_has_twenty_moves() {
    let board = layout("rnbqkbnr/pppppppp/8/8/8/8/PPPPPPPP/RNBQKBNR w KQkq - 0 1");
    let (moves, in_check) = board.get_moves(false);
    assert_eq!(moves.len(), 20);
    assert!(!in_check);
    assert_eq!(moves.iter().filter(|m| m.kind == MoveType::PawnJump).count(), 8);
    assert_eq!(moves.iter().filter(|m| m.kind == MoveType::Normal).count(), 12);
    let (captures, _) = board.get_moves(true);
    assert!(captures.is_empty());
}

#[test]
fn moves_come_in_the_display_order_of_the_squares_they_start_from() {
    let board = layout("rnbqkbnr/pppppppp/8/8/8/8/PPPPPPPP/RNBQKBNR w KQkq - 0 1");
    let moves = board.get_moves(false).0;
    assert_eq!(moves[0], Move::from_pawn_jump(sq("a2"), sq("a4")));
    assert_eq!(moves[1], Move::from_normal(sq("a2"), sq("a3")));
    assert_eq!(moves[16], Move::from_normal(sq("b1"), sq("c3")));
    assert_eq!(moves[17], Move::from_normal(sq("b1"), sq("a3")));
    assert_eq!(moves[18], Move::from_normal(sq("g1"), sq("h3")));
    assert_eq!(moves[19], Move::from_normal(sq("g1"), sq("f3")));
    for pair in moves.windows(2) {
        assert!(pair[0].from.index() <= pair[1].from.index());
    }
}

#[test]
fn check_is_detected_along_an_open_line() {
    let board = layout("4k3/8/8/8/8/8/8/4RK2 b - - 0 1");
    assert!(board.get_moves(false).1);
    let board = layout("4k3/4p3/8/8/8/8/8/4RK2 b - - 0 1");
    assert!(!board.get_moves(false).1);
    let board = layout("4k3/8/8/8/8/8/8/3R1K2 b - - 0 1");
    assert!(!board.get_moves(false).1);
}

#[test]
fn check_is_detected_from_knight_and_pawn() {
    let board = layout("4k3/8/3N4/8/8/8/8/4K3 b - - 0 1");
    assert!(board.get_moves(false).1);
    let board = layout("4k3/3P4/8/8/8/8/8/4K3 b - - 0 1");
    assert!(board.get_moves(false).1);
    let board = layout("4k3/4P3/8/8/8/8/8/4K3 b - - 0 1");
    assert!(!board.get_moves(false).1);
    let board = layout("4k3/8/8/8/8/8/3p4/4K3 w - - 0 1");
    assert!(board.get_moves(false).1);
}

#[test]
fn a_check_is_answered_by_moving_away_taking_or_blocking() {
    let board = layout("4k3/8/8/8/7b/8/3N4/R3K3 w - - 0 1");
    let (moves, in_check) = board.get_moves(false);
    assert!(in_check);
    assert_eq!(targets(&moves_from(&board, "e1")), squares(&["d1", "e2", "f1"]));
    assert_eq!(targets(&moves_from(&board, "d2")), Vec::<Square>::new());
    assert_eq!(targets(&moves_from(&board, "a1")), Vec::<Square>::new());
    assert_eq!(moves.len(), 3);
    let board = layout("4k3/8/8/8/7b/8/8/R3K2R w - - 0 1");
    let (moves, in_check) = board.get_moves(false);
    assert!(in_check);
    let rook_answer = Move::from_capture(
        sq("h1"),
        sq("h4"),
        board.piece_at(sq("h4")).unwrap(),
    );
    assert!(moves.contains(&rook_answer));
    assert_eq!(targets(&moves_from(&board, "h1")), squares(&["h4"]));
    assert_eq!(targets(&moves_from(&board, "a1")), Vec::<Square>::new());
    let board = layout("4k3/8/8/8/7b/8/8/R3KN2 w - - 0 1");
    assert_eq!(targets(&moves_from(&board, "f1")), squares(&["g3"]));
}

#[test]
fn the_king_may_not_stay_on_the_line_of_the_check() {
    let board = layout("4k3/8/8/8/8/8/8/r3K3 w - - 0 1");
    let (_, in_check) = board.get_moves(false);
    assert!(in_check);
    assert_eq!(targets(&moves_from(&board, "e1")), squares(&["d2", "e2", "f2"]));
}

#[test]
fn a_pinned_piece_stays_on_the_line_of_the_pin() {
    let board = layout("4k3/8/8/8/8/4r3/4R3/4K3 w - - 0 1");
    assert_eq!(targets(&moves_from(&board, "e2")), squares(&["e3"]));
    let board = layout("4k3/8/8/4r3/8/4R3/8/4K3 w - - 0 1");
    assert_eq!(targets(&moves_from(&board, "e3")), squares(&["e5", "e4", "e2"]));
    let board = layout("4k3/8/8/8/7b/8/5N2/4K3 w - - 0 1");
    assert_eq!(targets(&moves_from(&board, "f2")), Vec::<Square>::new());
    let board = layout("4k3/8/8/8/7b/6B1/8/4K3 w - - 0 1");
    assert_eq!(targets(&moves_from(&board, "g3")), squares(&["h4", "f2"]));
}

#[test]
fn a_piece_that_shields_the_enemy_king_is_not_pinned() {
    let board = layout("4k3/4r3/8/8/8/8/4R3/4K3 b - - 0 1");
    assert_eq!(targets(&moves_from(&board, "e7")), squares(&["e6", "e5", "e4", "e3", "e2"]));
}

#[test]
fn en_passant_is_offered_beside_the_pawn_that_jumped() {
    let board = layout("4k3/8/8/3pP3/8/8/8/4K3 w - d6 0 1");
    let pawn = board.piece_at(sq("d5")).unwrap();
    let moves = moves_from(&board, "e5");
    assert!(moves.contains(&Move::from_enpassant(sq("e5"), sq("d6"), pawn)));
    assert!(moves.contains(&Move::from_normal(sq("e5"), sq("e6"))));
    assert_eq!(moves.len(), 2);
    let captures = board.get_moves(true).0;
    assert_eq!(captures, vec![Move::from_enpassant(sq("e5"), sq("d6"), pawn)]);
    let board = layout("4k3/8/8/3pP3/8/8/8/4K3 w - - 0 1");
    assert_eq!(moves_from(&board, "e5"), vec![Move::from_normal(sq("e5"), sq("e6"))]);
    assert_eq!(board.enpassant_victim(), None);
    let board = layout("4k3/8/8/3pP3/8/8/8/4K3 w - d6 0 1");
    assert_eq!(board.enpassant_victim(), Some(sq("d5")));
}

#[test]
fn en_passant_that_bares_the_king_along_the_rank_is_forbidden() {
    let board = layout("8/8/8/KPp4r/8/8/8/4k3 w - c6 0 1");
    let moves = board.get_moves(false).0;
    assert!(moves.iter().all(|m| m.kind != MoveType::Enpassant));
    assert_eq!(moves_from(&board, "b5"), vec![Move::from_normal(sq("b5"), sq("b6"))]);
    let board = layout("8/8/8/KPpP3r/8/8/8/4k3 w - c6 0 1");
    let moves = board.get_moves(false).0;
    assert_eq!(moves.iter().filter(|m| m.kind == MoveType::Enpassant).count(), 2);
}

#[test]
fn en_passant_is_left_alone_by_two_blockers_elsewhere() {
    let board = layout("4r3/4b3/4n3/Pp2K3/8/8/8/7k w - b6 0 1");
    let moves = board.get_moves(false).0;
    assert_eq!(moves.iter().filter(|m| m.kind == MoveType::Enpassant).count(), 1);
}

#[test]
fn en_passant_takes_the_pawn_that_gives_check() {
    let board = layout("8/8/8/3pP3/4K3/8/8/7k w - d6 0 1");
    let (moves, in_check) = board.get_moves(false);
    assert!(in_check);
    let pawn = board.piece_at(sq("d5")).unwrap();
    assert!(moves.contains(&Move::from_enpassant(sq("e5"), sq("d6"), pawn)));
}

#[test]
fn a_back_rank_mate_leaves_no_move_and_check() {
    let board = layout("R5k1/5ppp/8/8/8/8/8/6K1 b - - 0 1");
    let (moves, in_check) = board.get_moves(false);
    assert!(moves.is_empty());
    assert!(in_check);
}

#[test]
fn a_stalemate_leaves_no_move_and_no_check() {
    let board = layout("7k/5Q2/6K1/8/8/8/8/8 b - - 0 1");
    let (moves, in_check) = board.get_moves(false);
    assert!(moves.is_empty());
    assert!(!in_check);
}

#[test]
fn castling_needs_the_right_empty_squares_and_safe_squares() {
    let board = layout("4k3/8/8/8/8/8/8/R3K2R w KQ - 0 1");
    let castles: Vec<Move> = board
        .get_moves(false)
        .0
        .into_iter()
        .filter(|m| m.kind == MoveType::Castle)
        .collect();
    assert_eq!(
        castles,
        vec![Move::from_castle(sq("e1"), sq("g1")), Move::from_castle(sq("e1"), sq("c1"))]
    );
    let count = |fen: &str| {
        layout(fen).get_moves(false).0.iter().filter(|m| m.kind == MoveType::Castle).count()
    };
    assert_eq!(count("4k3/8/8/8/8/8/8/R3K2R w K - 0 1"), 1);
    assert_eq!(count("4k3/8/8/8/8/8/8/R3K2R w - - 0 1"), 0);
    assert_eq!(count("4k3/8/8/8/8/8/8/RN2K1NR w KQ - 0 1"), 0);
    assert_eq!(count("4k3/8/8/8/8/8/8/R2BK2R w KQ - 0 1"), 1);
    assert_eq!(count("4kr2/8/8/8/8/8/8/R3K2R w KQ - 0 1"), 1);
    assert_eq!(count("3rk3/8/8/8/8/8/8/R3K2R w KQ - 0 1"), 1);
    assert_eq!(count("2r1k3/8/8/8/8/8/8/R3K2R w KQ - 0 1"), 1);
    assert_eq!(count("1r2k3/8/8/8/8/8/8/R3K2R w KQ - 0 1"), 2);
    assert_eq!(count("4k3/8/8/8/8/8/8/R3K2r w Q - 0 1"), 0);
    assert_eq!(count("4k1r1/8/8/8/8/8/8/R3K2R w KQ - 0 1"), 1);
    assert_eq!(count("4r1k1/8/8/8/8/8/8/R3K2R w KQ - 0 1"), 0);
    assert_eq!(count("r3k2r/8/8/8/8/8/8/4K3 b kq - 0 1"), 2);
    assert_eq!(count("4k3/8/8/8/8/8/8/R3K2R w KQ - 0 1"), 2);
    assert!(layout("4k3/8/8/8/8/8/8/R3K2R w KQ - 0 1").get_moves(true).0.is_empty());
}

#[test]
fn a_pawn_on_the_seventh_rank_promotes_to_four_kinds() {
    let board = layout("3nk3/4P3/8/8/8/8/8/4K3 w - - 0 1");
    let knight = board.piece_at(sq("d8")).unwrap();
    let moves = moves_from(&board, "e7");
    assert_eq!(
        moves,
        vec![
            Move::from_promotion_capture(sq("e7"), sq("d8"), knight, PieceType::Queen),
            Move::from_promotion_capture(sq("e7"), sq("d8"), knight, PieceType::Rook),
            Move::from_promotion_capture(sq("e7"), sq("d8"), knight, PieceType::Bishop),
            Move::from_promotion_capture(sq("e7"), sq("d8"), knight, PieceType::Knight),
        ]
    );
    let board = layout("4k3/P7/8/8/8/8/8/4K3 w - - 0 1");
    assert_eq!(
        moves_from(&board, "a7"),
        vec![
            Move::from_promotion(sq("a7"), sq("a8"), PieceType::Queen),
            Move::from_promotion(sq("a7"), sq("a8"), PieceType::Rook),
            Move::from_promotion(sq("a7"), sq("a8"), PieceType::Bishop),
            Move::from_promotion(sq("a7"), sq("a8"), PieceType::Knight),
        ]
    );
    assert!(board.get_moves(true).0.is_empty());
}

#[test]
fn the_generators_give_the_moves_of_one_piece() {
    let board = layout("4k3/8/8/3p4/4P3/8/8/RN2K3 w - - 0 1");
    let pawn = board.piece_at(sq("d5")).unwrap();
    assert_eq!(
        generate_pawn_moves(&board, sq("e4"), false),
        vec![Move::from_capture(sq("e4"), sq("d5"), pawn), Move::from_normal(sq("e4"), sq("e5"))]
    );
    assert_eq!(
        generate_pawn_moves(&board, sq("e4"), true),
        vec![Move::from_capture(sq("e4"), sq("d5"), pawn)]
    );
    assert_eq!(
        generate_knight_moves(&board, sq("b1"), false),
        vec![
            Move::from_normal(sq("b1"), sq("c3")),
            Move::from_normal(sq("b1"), sq("d2")),
            Move::from_normal(sq("b1"), sq("a3")),
        ]
    );
    assert!(generate_knight_moves(&board, sq("b1"), true).is_empty());
    assert_eq!(
        targets(&generate_king_moves(&board, sq("e1"), false)),
        squares(&["d1", "d2", "e2", "f1", "f2"])
    );
    assert_eq!(
        targets(&generate_sliding_piece_moves(&board, sq("a1"), &Directions::ROOK, false)),
        squares(&["a2", "a3", "a4", "a5", "a6", "a7", "a8"])
    );
    let mut appended = vec![Move::from_normal(sq("e4"), sq("e5"))];
    board.get_straight_moves(&mut appended, sq("a1"), &Directions::ROOK, false);
    assert_eq!(appended.len(), 8);
    assert_eq!(appended[0], Move::from_normal(sq("e4"), sq("e5")));
    assert_eq!(appended[1], Move::from_normal(sq("a1"), sq("a2")));
}

#[test]
fn a_sliding_piece_stops_at_the_first_piece() {
    let board = layout("4k3/8/8/8/R2p4/8/P7/4K3 w - - 0 1");
    let pawn = board.piece_at(sq("d4")).unwrap();
    assert_eq!(
        generate_sliding_piece_moves(&board, sq("a4"), &Directions::ROOK, false),
        vec![
            Move::from_normal(sq("a4"), sq("a5")),
            Move::from_normal(sq("a4"), sq("a6")),
            Move::from_normal(sq("a4"), sq("a7")),
            Move::from_normal(sq("a4"), sq("a8")),
            Move::from_normal(sq("a4"), sq("b4")),
            Move::from_normal(sq("a4"), sq("c4")),
            Move::from_capture(sq("a4"), sq("d4"), pawn),
            Move::from_normal(sq("a4"), sq("a3")),
        ]
    );
    assert_eq!(
        generate_sliding_piece_moves(&board, sq("a4"), &Directions::ROOK, true),
        vec![Move::from_capture(sq("a4"), sq("d4"), pawn)]
    );
}

#[test]
fn all_moves_and_legal_moves_differ_by_the_kings_safety() {
    let board = layout("4k3/8/8/8/8/4r3/4R3/4K3 w - - 0 1");
    let (pseudo, king_square) = generate_all_moves(&board, false);
    assert_eq!(king_square, sq("e1"));
    let legal = generate_legal_moves(&board);
    assert_eq!(legal, board.get_moves(false).0);
    assert_eq!(pseudo.len(), 12);
    assert_eq!(legal.len(), 5);
    assert!(legal.iter().all(|m| pseudo.contains(m)));
    let (human_legal, human_pseudo) = generate_human_legal_moves(&board);
    assert_eq!(human_legal, legal);
    assert_eq!(human_pseudo, pseudo);
}

#[test]
fn a_destination_is_valid_if_empty_or_held_by_the_enemy() {
    let board = layout("4k3/8/8/3p4/4P3/8/8/RN2K3 w - - 0 1");
    assert!(is_valid_destination(&board, sq("e4"), sq("e5")));
    assert!(is_valid_destination(&board, sq("e4"), sq("d5")));
    assert!(!is_valid_destination(&board, sq("a1"), sq("b1")));
    assert!(is_valid_destination(&board, sq("d5"), sq("e4")));
}

#[test]
fn a_piece_is_found_by_its_identity() {
    let board = layout("4k3/8/8/3p4/4P3/8/8/RN2K3 w - - 0 1");
    for i in 0..64u8 {
        let s = Square::from_index(i).unwrap();
        if let Some(piece) = board.piece_at(s) {
            assert_eq!(board.get_square(&piece), Some(s));
        }
    }
    assert_eq!(board.get_square(&Piece::new(200, PieceType::Pawn, Color::White)), None);
    assert_eq!(board.get_square(&Piece::new(0, PieceType::Queen, Color::White)), Some(sq("e8")));
}

#[test]
fn the_board_is_shown_from_the_eighth_rank_down() {
    let board = layout("rnbqkbnr/pppppppp/8/8/8/8/PPPPPPPP/RNBQKBNR w KQkq - 0 1");
    let rows = board.board_rep();
    assert_eq!(rows.len(), 8);
    assert_eq!(rows[0], vec!['♖', '♘', '♗', '♕', '♔', '♗', '♘', '♖']);
    assert_eq!(rows[1], vec!['♙'; 8]);
    for row in &rows[2..6] {
        assert_eq!(row, &vec!['.'; 8]);
    }
    assert_eq!(rows[6], vec!['♟'; 8]);
    assert_eq!(rows[7], vec!['♜', '♞', '♝', '♛', '♚', '♝', '♞', '♜']);
}

#[test]
fn kings_are_counted_and_found() {
    let board = layout("4k3/8/8/3p4/4P3/8/8/RN2K3 w - - 0 1");
    assert_eq!(board.find_king(Color::White), (1, sq("e1")));
    assert_eq!(board.find_king(Color::Black), (1, sq("e8")));
    let mut board = layout("4k3/8/8/8/8/8/8/4K3 w - - 0 1");
    board.execute(Move::from_normal(sq("e1"), sq("d2")));
    assert_eq!(board.find_king(Color::White), (1, sq("d2")));
    assert_eq!(board.king_of(Color::White), sq("d2"));
    assert_eq!(board.king_of(Color::Black), sq("e8"));
}

#[test]
fn a_fault_is_told_in_words() {
    assert_eq!(
        BoardError::TwicePlaced(sq("a2")).describe(),
        "two pieces are set on one square"
    );
    assert_eq!(BoardError::NoKing(Color::White).describe(), "a side has no king");
    assert_eq!(BoardError::ManyKings(Color::Black).describe(), "a side has more than one king");
    assert_eq!(
        BoardError::CastlingRight(Color::White).describe(),
        "a side may castle though its king or rook is not at home"
    );
    assert_eq!(BoardError::EnpassantSquare.describe(), "the en passant square is occupied");
}

#[test]
fn the_board_is_reached_through_the_value_types_too() {
    let board: chess_engine::structs::Board = layout("4k3/8/8/8/8/8/8/4K3 w - - 0 1");
    assert_eq!(board.pieces.len(), 2);
    assert_eq!(chess_engine::structs::White, Color::White);
    assert_eq!(chess_engine::structs::Pawn, PieceType::Pawn);
    assert_eq!(chess_engine::structs::Castle, MoveType::Castle);
}

#[test]
fn the_mailbox_holds_the_placement_square_by_square() {
    let mut board = layout("r3k2r/p1ppqpb1/bn2pnp1/3PN3/1p2P3/2N2Q1p/PPPBBPPP/R3K2R w KQkq - 0 1");
    for m in board.get_moves(false).0.into_iter().take(12) {
        let rights = board.saved_rights();
        let passed = board.enpassant_square;
        let clock = board.halfmove_clock;
        board.execute(m);
        let slots = board.mailbox();
        assert_eq!(slots.len(), 64);
        assert_eq!(slots.iter().filter(|slot| slot.is_some()).count(), board.pieces.len());
        for i in 0..64u8 {
            assert_eq!(slots[i as usize], board.piece_at(Square::from_index(i).unwrap()));
        }
        board.undo(rights, passed, clock).unwrap();
    }
    let slots = board.mailbox();
    assert_eq!(slots[0], Some(Piece::new(0, PieceType::Rook, Color::Black)));
    assert_eq!(slots[1], None);
    assert_eq!(slots[60], board.piece_at(sq("e1")));
    assert_eq!(slots[63].map(|p| p.kind), Some(PieceType::Rook));
}
