use chess_engine::notation::chess_notation_to_square;
use chess_engine::structs::{
    square, CastlingRights, Color, Directions, File, Move, MoveType, Piece, PieceType, Rank,
    Square,
};

fn sq(text: &str) -> Square {
    chess_notation_to_square(text).unwrap()
}

#[test]
fn files_and_ranks_convert_to_numbers_and_back() {
    assert_eq!(i8::from(File::A), 0);
    assert_eq!(i8::from(File::E), 4);
    assert_eq!(i8::from(File::H), 7);
    assert_eq!(i8::from(Rank::_1), 0);
    assert_eq!(i8::from(Rank::_8), 7);
    assert_eq!(File::try_from(2), Ok(File::C));
    assert_eq!(Rank::try_from(6), Ok(Rank::_7));
    assert_eq!(File::try_from(8), Err(()));
    assert_eq!(File::try_from(-1), Err(()));
    assert_eq!(Rank::try_from(8), Err(()));
    assert_eq!(Rank::try_from(-1), Err(()));
    for n in 0..8i8 {
        assert_eq!(i8::from(File::try_from(n).unwrap()), n);
        assert_eq!(i8::from(Rank::try_from(n).unwrap()), n);
    }
}

#[test]
fn square_is_made_of_file_and_rank() {
    let s = square(File::E, Rank::_4);
    assert_eq!(s.file, File::E);
    assert_eq!(s.rank, Rank::_4);
    assert_eq!(s, Square { file: File::E, rank: Rank::_4 });
}

#[test]
fn offset_moves_within_the_board() {
    assert_eq!(sq("e4").offset(1, 2), Some(sq("f6")));
    assert_eq!(sq("e4").offset(-4, -3), Some(sq("a1")));
    assert_eq!(sq("e4").offset(3, 4), Some(sq("h8")));
    assert_eq!(sq("e4").offset(0, 0), Some(sq("e4")));
}

#[test]
fn offset_beyond_the_board_is_none() {
    assert_eq!(sq("a1").offset(-1, 0), None);
    assert_eq!(sq("a1").offset(0, -1), None);
    assert_eq!(sq("h8").offset(1, 0), None);
    assert_eq!(sq("h8").offset(0, 1), None);
    assert_eq!(sq("e4").offset(4, 0), None);
    assert_eq!(sq("e4").offset(0, 5), None);
    assert_eq!(sq("h8").offset(127, 127), None);
    assert_eq!(sq("a1").offset(-128, -128), None);
}

#[test]
fn squares_are_indexed_in_display_order() {
    assert_eq!(sq("a8").index(), 0);
    assert_eq!(sq("h8").index(), 7);
    assert_eq!(sq("a7").index(), 8);
    assert_eq!(sq("e4").index(), 36);
    assert_eq!(sq("h1").index(), 63);
    assert_eq!(Square::from_index(0), Some(sq("a8")));
    assert_eq!(Square::from_index(36), Some(sq("e4")));
    assert_eq!(Square::from_index(63), Some(sq("h1")));
    assert_eq!(Square::from_index(64), None);
    assert_eq!(Square::from_index(255), None);
    for i in 0..64u8 {
        assert_eq!(Square::from_index(i).unwrap().index(), i);
    }
}

#[test]
fn all_squares_come_in_display_order() {
    let all = Square::all();
    assert_eq!(all.len(), 64);
    assert_eq!(all[0], sq("a8"));
    assert_eq!(all[7], sq("h8"));
    assert_eq!(all[8], sq("a7"));
    assert_eq!(all[63], sq("h1"));
    for (i, s) in all.iter().enumerate() {
        assert_eq!(s.index() as usize, i);
    }
}

#[test]
fn notation_names_squares() {
    assert_eq!(chess_notation_to_square("e2"), Some(square(File::E, Rank::_2)));
    assert_eq!(chess_notation_to_square("E2"), Some(square(File::E, Rank::_2)));
    assert_eq!(chess_notation_to_square("a1"), Some(square(File::A, Rank::_1)));
    assert_eq!(chess_notation_to_square("H8"), Some(square(File::H, Rank::_8)));
}

#[test]
fn notation_refuses_what_names_no_square() {
    assert_eq!(chess_notation_to_square(""), None);
    assert_eq!(chess_notation_to_square("e"), None);
    assert_eq!(chess_notation_to_square("e22"), None);
    assert_eq!(chess_notation_to_square("i2"), None);
    assert_eq!(chess_notation_to_square("e9"), None);
    assert_eq!(chess_notation_to_square("e0"), None);
    assert_eq!(chess_notation_to_square("2e"), None);
    assert_eq!(chess_notation_to_square("é"), None);
    assert_eq!(chess_notation_to_square("é2"), None);
}

#[test]
fn colors_know_their_ranks() {
    assert_eq!(Color::White.opposite(), Color::Black);
    assert_eq!(Color::Black.opposite(), Color::White);
    assert_eq!(Color::White.get_multiplier(), 1);
    assert_eq!(Color::Black.get_multiplier(), -1);
    assert_eq!(Color::White.get_piece_rank(), Rank::_1);
    assert_eq!(Color::Black.get_piece_rank(), Rank::_8);
    assert_eq!(Color::White.get_pawn_rank(), Rank::_2);
    assert_eq!(Color::Black.get_pawn_rank(), Rank::_7);
    assert_eq!(Color::White.get_enpassant_rank(), Rank::_3);
    assert_eq!(Color::Black.get_enpassant_rank(), Rank::_6);
    assert_eq!(Color::White.get_center_rank(), Rank::_4);
    assert_eq!(Color::Black.get_center_rank(), Rank::_5);
    assert_eq!(Color::White.code(), 0);
    assert_eq!(Color::Black.code(), 1);
}

#[test]
fn pieces_and_rights_are_built_from_their_parts() {
    let p = Piece::new(7, PieceType::Queen, Color::Black);
    assert_eq!(p.id, 7);
    assert_eq!(p.kind, PieceType::Queen);
    assert_eq!(p.color, Color::Black);
    let r = CastlingRights::new(true, false);
    assert!(r.kingside);
    assert!(!r.queenside);
}

#[test]
fn moves_are_built_by_kind() {
    let pawn = Piece::new(3, PieceType::Pawn, Color::Black);
    let m = Move::from_normal(sq("g1"), sq("f3"));
    assert_eq!(
        m,
        Move { from: sq("g1"), to: sq("f3"), kind: MoveType::Normal, captured: None, promotion: None }
    );
    let m = Move::from_pawn_jump(sq("e2"), sq("e4"));
    assert_eq!(m.kind, MoveType::PawnJump);
    assert_eq!((m.from, m.to, m.captured, m.promotion), (sq("e2"), sq("e4"), None, None));
    let m = Move::from_pawn_jump(sq("e7"), sq("e5"));
    assert_eq!(m.kind, MoveType::PawnJump);
    let m = Move::from_capture(sq("e4"), sq("d5"), pawn);
    assert_eq!(m.kind, MoveType::Capture);
    assert_eq!((m.captured, m.promotion), (Some(pawn), None));
    let m = Move::from_promotion(sq("e7"), sq("e8"), PieceType::Queen);
    assert_eq!(m.kind, MoveType::Promotion);
    assert_eq!((m.captured, m.promotion), (None, Some(PieceType::Queen)));
    let m = Move::from_promotion_capture(sq("e7"), sq("d8"), pawn, PieceType::Knight);
    assert_eq!(m.kind, MoveType::PromotionCapture);
    assert_eq!((m.captured, m.promotion), (Some(pawn), Some(PieceType::Knight)));
    let m = Move::from_enpassant(sq("e5"), sq("d6"), pawn);
    assert_eq!(m.kind, MoveType::Enpassant);
    assert_eq!((m.captured, m.promotion), (Some(pawn), None));
    let m = Move::from_castle(sq("e1"), sq("g1"));
    assert_eq!(m.kind, MoveType::Castle);
    assert_eq!((m.from, m.to, m.captured, m.promotion), (sq("e1"), sq("g1"), None, None));
}

#[test]
fn directions_hold_the_steps_of_the_pieces() {
    assert_eq!(Directions::KNIGHT.len(), 8);
    assert_eq!(Directions::KNIGHT[0], (1, 2));
    assert_eq!(Directions::KNIGHT[7], (-1, 2));
    assert_eq!(Directions::BISHOP, [(1, 1), (1, -1), (-1, -1), (-1, 1)]);
    assert_eq!(Directions::ROOK, [(0, 1), (1, 0), (0, -1), (-1, 0)]);
    assert_eq!(Directions::QUEEN[0], (0, 1));
    assert_eq!(Directions::QUEEN[1], (1, 1));
    assert_eq!(Directions::KING, Directions::QUEEN);
}

#[test]
fn a_pawn_attacks_the_two_squares_ahead_of_it_sideways() {
    let white = Piece::new(0, PieceType::Pawn, Color::White);
    let black = Piece::new(1, PieceType::Pawn, Color::Black);
    assert_eq!(white.get_attack_lines(sq("e4")), vec![vec![sq("d5")], vec![sq("f5")]]);
    assert_eq!(black.get_attack_lines(sq("e4")), vec![vec![sq("d3")], vec![sq("f3")]]);
    assert_eq!(white.get_attack_lines(sq("a2")), vec![vec![sq("b3")]]);
    assert_eq!(white.get_attack_lines(sq("h2")), vec![vec![sq("g3")]]);
    assert_eq!(white.get_attack_lines(sq("e8")), Vec::<Vec<Square>>::new());
    assert_eq!(black.get_attack_lines(sq("e1")), Vec::<Vec<Square>>::new());
}

#[test]
fn a_knight_attacks_by_its_jumps() {
    let knight = Piece::new(0, PieceType::Knight, Color::White);
    assert_eq!(
        knight.get_attack_lines(sq("e4")),
        vec![
            vec![sq("f6")],
            vec![sq("g5")],
            vec![sq("g3")],
            vec![sq("f2")],
            vec![sq("d2")],
            vec![sq("c3")],
            vec![sq("c5")],
            vec![sq("d6")],
        ]
    );
    assert_eq!(knight.get_attack_lines(sq("a1")), vec![vec![sq("b3")], vec![sq("c2")]]);
}

#[test]
fn a_king_attacks_the_squares_around_it() {
    let king = Piece::new(0, PieceType::King, Color::Black);
    assert_eq!(
        king.get_attack_lines(sq("a1")),
        vec![vec![sq("a2")], vec![sq("b2")], vec![sq("b1")]]
    );
    assert_eq!(king.get_attack_lines(sq("e4")).len(), 8);
}

#[test]
fn a_rook_attacks_along_file_and_rank() {
    let rook = Piece::new(0, PieceType::Rook, Color::White);
    assert_eq!(
        rook.get_attack_lines(sq("a1")),
        vec![
            vec![sq("a2"), sq("a3"), sq("a4"), sq("a5"), sq("a6"), sq("a7"), sq("a8")],
            vec![sq("b1"), sq("c1"), sq("d1"), sq("e1"), sq("f1"), sq("g1"), sq("h1")],
        ]
    );
    assert_eq!(
        rook.get_attack_lines(sq("c3")),
        vec![
            vec![sq("c4"), sq("c5"), sq("c6"), sq("c7"), sq("c8")],
            vec![sq("d3"), sq("e3"), sq("f3"), sq("g3"), sq("h3")],
            vec![sq("c2"), sq("c1")],
            vec![sq("b3"), sq("a3")],
        ]
    );
}

#[test]
fn a_bishop_attacks_along_the_diagonals() {
    let bishop = Piece::new(0, PieceType::Bishop, Color::White);
    assert_eq!(
        bishop.get_attack_lines(sq("b2")),
        vec![
            vec![sq("c3"), sq("d4"), sq("e5"), sq("f6"), sq("g7"), sq("h8")],
            vec![sq("c1")],
            vec![sq("a1")],
            vec![sq("a3")],
        ]
    );
    assert_eq!(
        bishop.get_attack_lines(sq("h1")),
        vec![vec![sq("g2"), sq("f3"), sq("e4"), sq("d5"), sq("c6"), sq("b7"), sq("a8")]]
    );
}

#[test]
fn a_queen_attacks_in_all_eight_directions() {
    let queen = Piece::new(0, PieceType::Queen, Color::Black);
    let lines = queen.get_attack_lines(sq("d4"));
    assert_eq!(lines.len(), 8);
    assert_eq!(lines[0], vec![sq("d5"), sq("d6"), sq("d7"), sq("d8")]);
    assert_eq!(lines[1], vec![sq("e5"), sq("f6"), sq("g7"), sq("h8")]);
    assert_eq!(lines[2], vec![sq("e4"), sq("f4"), sq("g4"), sq("h4")]);
    assert_eq!(lines[3], vec![sq("e3"), sq("f2"), sq("g1")]);
    assert_eq!(lines[4], vec![sq("d3"), sq("d2"), sq("d1")]);
    assert_eq!(lines[5], vec![sq("c3"), sq("b2"), sq("a1")]);
    assert_eq!(lines[6], vec![sq("c4"), sq("b4"), sq("a4")]);
    assert_eq!(lines[7], vec![sq("c5"), sq("b6"), sq("a7")]);
    assert_eq!(queen.get_attack_lines(sq("a1")).len(), 3);
}
