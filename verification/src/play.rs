//! Making a move on the board and taking it back.

use crate::board::{by_color, by_square, in_step, lift, piece_on, put, Board};
use crate::maps::{
    cached, granted, kings_insert, placed, rights_clone, rights_get, rights_insert, seated,
};
use crate::position::{home, promotions, Position};
use crate::structs::{
    square, CastlingRights, Color, File, Move, MoveType, Piece, PieceType, Square,
};
use indexmap::IndexMap;
use vstd::prelude::*;

verus! {

/// Where the rook stands before and after the castling move `m`.
pub open spec fn rook_squares(m: Move) -> (Square, Square) {
    if m.to.file == File::C {
        (Square { file: File::A, rank: m.to.rank }, Square { file: File::D, rank: m.to.rank })
    } else {
        (Square { file: File::H, rank: m.to.rank }, Square { file: File::F, rank: m.to.rank })
    }
}

/// The square of the pawn that the capture in passing `m` takes.
pub open spec fn passed_pawn_square(m: Move) -> Square {
    Square { file: m.to.file, rank: m.from.rank }
}

/// The king and the rook of the given file stand at home.
pub open spec fn wing_intact(pieces: Map<Square, Piece>, color: Color, rook_file: File) -> bool {
    &&& pieces.contains_key(home(color, File::E))
    &&& pieces[home(color, File::E)].kind == PieceType::King
    &&& pieces[home(color, File::E)].color == color
    &&& pieces.contains_key(home(color, rook_file))
    &&& pieces[home(color, rook_file)].kind == PieceType::Rook
    &&& pieces[home(color, rook_file)].color == color
}

/// The piece that arrives on `m.to`: the one on `m.from`, of its new kind
/// if the move promotes it.
pub open spec fn arriving(pieces: Map<Square, Piece>, m: Move) -> Piece {
    let piece = pieces[m.from];
    match m.kind {
        MoveType::Promotion | MoveType::PromotionCapture => Piece {
            id: piece.id,
            kind: m.promotion.unwrap(),
            color: piece.color,
        },
        _ => piece,
    }
}

/// The placement once the moving piece has gone from `m.from` to `m.to`.
pub open spec fn relocated(pieces: Map<Square, Piece>, m: Move) -> Map<Square, Piece> {
    pieces.remove(m.from).insert(m.to, arriving(pieces, m))
}

/// The placement after the move: the piece relocated, the pawn taken in
/// passing removed, the castling rook relocated.
pub open spec fn placement_after(pieces: Map<Square, Piece>, m: Move) -> Map<Square, Piece> {
    let first = relocated(pieces, m);
    match m.kind {
        MoveType::Enpassant => first.remove(passed_pawn_square(m)),
        MoveType::Castle => first.remove(rook_squares(m).0).insert(
            rook_squares(m).1,
            first[rook_squares(m).0],
        ),
        _ => first,
    }
}

/// The castling rights that a side keeps: none if it has just castled,
/// and else those it had for the wings where king and rook stand at home.
pub open spec fn renewed(
    rights: CastlingRights,
    pieces: Map<Square, Piece>,
    color: Color,
    castled: bool,
) -> CastlingRights {
    CastlingRights {
        kingside: rights.kingside && !castled && wing_intact(pieces, color, File::H),
        queenside: rights.queenside && !castled && wing_intact(pieces, color, File::A),
    }
}

/// The king squares once the piece on `square` has arrived there for the
/// given side: the square is recorded if the piece is a king.
pub open spec fn seated_after(
    kings: Map<Color, Square>,
    pieces: Map<Square, Piece>,
    color: Color,
    square: Square,
) -> Map<Color, Square> {
    if pieces[square].kind == PieceType::King {
        kings.insert(color, square)
    } else {
        kings
    }
}

impl Position {
    /// The halfmove clock after the move: zero after a pawn move or a
    /// capture, one more otherwise.
    pub open spec fn clock_after(self, m: Move) -> nat {
        match m.kind {
            MoveType::Normal | MoveType::PawnJump | MoveType::Castle => if self.pieces[m.from].kind
                == PieceType::Pawn {
                0
            } else {
                self.halfmove_clock + 1
            },
            _ => 0,
        }
    }

    /// The castling rights after the move: a side that castles gives up
    /// both, and a right is lost for good once the king or the rook of
    /// that wing no longer stands at home.
    pub open spec fn rights_after(self, m: Move) -> Map<Color, CastlingRights> {
        let pieces = placement_after(self.pieces, m);
        Map::new(
            |c: Color| true,
            |c: Color|
                renewed(
                    self.castling_rights[c],
                    pieces,
                    c,
                    m.kind == MoveType::Castle && c == self.turn,
                ),
        )
    }

    /// The position after the move `m`.
    #[verifier::opaque]
    pub open spec fn apply(self, m: Move) -> Position {
        let pieces = placement_after(self.pieces, m);
        Position {
            pieces,
            kings: seated_after(self.kings, pieces, self.turn, m.to),
            turn: self.turn.opposite(),
            castling_rights: self.rights_after(m),
            enpassant_square: if m.kind == MoveType::PawnJump {
                Some(
                    Square {
                        file: m.from.file,
                        rank: self.pieces[m.from].color.get_enpassant_rank(),
                    },
                )
            } else {
                None
            },
            halfmove_clock: self.clock_after(m),
            fullmove_number: self.fullmove_number + 1,
            history: self.history.push(m),
        }
    }

    /// The move can be made at all: a piece stands on `m.from`, a
    /// promotion names a kind, a castling move finds its rook, and a piece
    /// stands on `m.to` in the end.
    pub open spec fn executable(self, m: Move) -> bool {
        &&& self.occupied(m.from)
        &&& (m.kind == MoveType::Promotion || m.kind == MoveType::PromotionCapture)
            ==> m.promotion.is_some()
        &&& m.kind == MoveType::Castle ==> relocated(self.pieces, m).contains_key(
            rook_squares(m).0,
        )
        &&& placement_after(self.pieces, m).contains_key(m.to)
    }
}

/// Relocates the pieces as the move `m` says, and returns the piece that
/// stood on `m.from`.
fn relocate(
    pieces: &mut IndexMap<u8, Piece>,
    lines: &mut IndexMap<u8, Vec<Vec<Square>>>,
    m: Move,
) -> (piece: Piece)
    requires
        by_square(placed(*old(pieces))).contains_key(m.from),
        (m.kind == MoveType::Promotion || m.kind == MoveType::PromotionCapture)
            ==> m.promotion.is_some(),
        m.kind == MoveType::Castle ==> relocated(by_square(placed(*old(pieces))), m).contains_key(
            rook_squares(m).0,
        ),
    ensures
        piece == by_square(placed(*old(pieces)))[m.from],
        by_square(placed(*final(pieces))) == placement_after(by_square(placed(*old(pieces))), m),
        in_step(placed(*old(pieces)), cached(*old(lines))) ==> in_step(
            placed(*final(pieces)),
            cached(*final(lines)),
        ),
{
    let piece = match lift(pieces, lines, m.from) {
        Some(piece) => piece,
        None => vstd::pervasive::unreached(),
    };
    let arriving = match m.kind {
        MoveType::Promotion | MoveType::PromotionCapture => match m.promotion {
            Some(kind) => Piece { id: piece.id, kind, color: piece.color },
            None => vstd::pervasive::unreached(),
        },
        _ => piece,
    };
    put(pieces, lines, m.to, arriving);
    match m.kind {
        MoveType::Enpassant => {
            lift(pieces, lines, square(m.to.file, m.from.rank));
        },
        MoveType::Castle => {
            let (rook_from, rook_to) = if m.to.file == File::C {
                (square(File::A, m.to.rank), square(File::D, m.to.rank))
            } else {
                (square(File::H, m.to.rank), square(File::F, m.to.rank))
            };
            let rook = match lift(pieces, lines, rook_from) {
                Some(rook) => rook,
                None => vstd::pervasive::unreached(),
            };
            put(pieces, lines, rook_to, rook);
        },
        _ => {},
    }
    piece
}

impl Board {
    /// Makes the move `m`: relocates the piece, promoted if the move says
    /// so, removes what it takes, relocates the castling rook, and brings
    /// the king squares, the en passant square, the clocks, the history,
    /// the side to move and the castling rights up to date.
    pub fn execute(&mut self, m: Move)
        requires
            old(self).inv(),
            old(self)@.executable(m),
            old(self).halfmove_clock < u32::MAX,
            old(self).fullmove_number < u32::MAX,
        ensures
            final(self).inv(),
            final(self)@ == old(self)@.apply(m),
    {
        let ghost v = self@;
        proof {
            reveal(Position::apply);
        }
        let mover = self.turn;
        let piece = relocate(&mut self.pieces, &mut self.attack_lines, m);
        let castled = m.kind == MoveType::Castle;
        let pawn_moved = match piece.kind {
            PieceType::Pawn => true,
            _ => false,
        };
        self.halfmove_clock = match m.kind {
            MoveType::Normal | MoveType::PawnJump | MoveType::Castle => if pawn_moved {
                0
            } else {
                self.halfmove_clock + 1
            },
            _ => 0,
        };
        self.fullmove_number = self.fullmove_number + 1;
        seat_king(&mut self.kings, &self.pieces, mover, m.to);
        self.enpassant_square = if m.kind == MoveType::PawnJump {
            Some(square(m.from.file, piece.color.get_enpassant_rank()))
        } else {
            None
        };
        self.history.push(m);
        self.turn = mover.opposite();
        renew_rights(
            &mut self.castling_rights,
            &self.pieces,
            Color::White,
            castled && mover == Color::White,
        );
        renew_rights(
            &mut self.castling_rights,
            &self.pieces,
            Color::Black,
            castled && mover == Color::Black,
        );
        proof {
            let goal = v.apply(m);
            assert(self@.castling_rights =~= goal.castling_rights);
            assert(self@ =~= goal);
        }
    }
}

/// Records `square` for the king of the given side if the piece that
/// stands there is a king.
fn seat_king(
    kings: &mut IndexMap<u8, Square>,
    pieces: &IndexMap<u8, Piece>,
    color: Color,
    square: Square,
)
    requires
        seated(*old(kings)).dom() =~= set![0u8, 1u8],
        by_square(placed(*pieces)).contains_key(square),
    ensures
        seated(*final(kings)).dom() =~= set![0u8, 1u8],
        by_color(seated(*final(kings))) == seated_after(
            by_color(seated(*old(kings))),
            by_square(placed(*pieces)),
            color,
            square,
        ),
{
    match piece_on(pieces, square) {
        Some(landed) => {
            if landed.kind == PieceType::King {
                kings_insert(kings, color.code(), square);
                assert(by_color(seated(*kings)) =~= by_color(seated(*old(kings))).insert(
                    color,
                    square,
                ));
            }
        },
        None => {},
    }
}

/// Takes from the given side the castling rights that it has lost: both
/// if it has just castled, and else that of each wing where king or rook
/// no longer stands at home.
fn renew_rights(
    rights: &mut IndexMap<u8, CastlingRights>,
    pieces: &IndexMap<u8, Piece>,
    color: Color,
    castled: bool,
)
    requires
        granted(*old(rights)).dom() =~= set![0u8, 1u8],
    ensures
        granted(*final(rights)).dom() =~= set![0u8, 1u8],
        by_color(granted(*final(rights))) == by_color(granted(*old(rights))).insert(
            color,
            renewed(
                by_color(granted(*old(rights)))[color],
                by_square(placed(*pieces)),
                color,
                castled,
            ),
        ),
{
    let had = match rights_get(rights, color.code()) {
        Some(had) => had,
        None => {
            assert(granted(*rights).dom().contains(color.code()));
            vstd::pervasive::unreached()
        },
    };
    let rank = color.get_piece_rank();
    let king_home = match piece_on(pieces, square(File::E, rank)) {
        Some(piece) => piece.kind == PieceType::King && piece.color == color,
        None => false,
    };
    let kingside = had.kingside && !castled && king_home && match piece_on(
        pieces,
        square(File::H, rank),
    ) {
        Some(piece) => piece.kind == PieceType::Rook && piece.color == color,
        None => false,
    };
    let queenside = had.queenside && !castled && king_home && match piece_on(
        pieces,
        square(File::A, rank),
    ) {
        Some(piece) => piece.kind == PieceType::Rook && piece.color == color,
        None => false,
    };
    if kingside != had.kingside || queenside != had.queenside {
        rights_insert(rights, color.code(), CastlingRights::new(kingside, queenside));
    }
    assert(by_color(granted(*rights)) =~= by_color(granted(*old(rights))).insert(
        color,
        CastlingRights { kingside, queenside },
    ));
}

/// The piece that goes back to `m.from`: the one on `m.to`, a pawn again
/// if the move promoted it.
pub open spec fn returning(pieces: Map<Square, Piece>, m: Move) -> Piece {
    let piece = pieces[m.to];
    match m.kind {
        MoveType::Promotion | MoveType::PromotionCapture => Piece {
            id: piece.id,
            kind: PieceType::Pawn,
            color: piece.color,
        },
        _ => piece,
    }
}

/// The placement once the moved piece has gone back from `m.to` to `m.from`.
pub open spec fn stepped_back(pieces: Map<Square, Piece>, m: Move) -> Map<Square, Piece> {
    pieces.remove(m.to).insert(m.from, returning(pieces, m))
}

/// The placement before the move: the piece back where it came from, what
/// it took back on its square, the castling rook back in its corner.
pub open spec fn placement_before(pieces: Map<Square, Piece>, m: Move) -> Map<Square, Piece> {
    let back = stepped_back(pieces, m);
    match m.kind {
        MoveType::Capture | MoveType::PromotionCapture => back.insert(m.to, m.captured.unwrap()),
        MoveType::Enpassant => back.insert(passed_pawn_square(m), m.captured.unwrap()),
        MoveType::Castle => back.remove(rook_squares(m).1).insert(
            rook_squares(m).0,
            back[rook_squares(m).1],
        ),
        _ => back,
    }
}

impl Position {
    /// The latest move can be taken back at all: there is one, its piece
    /// stands on the square it went to, the move holds what it took, a
    /// castling move finds its rook, and a piece stands on the square the
    /// move came from in the end.
    pub open spec fn revertible(self) -> bool {
        let m = self.history.last();
        &&& self.history.len() > 0
        &&& self.fullmove_number > 0
        &&& self.occupied(m.to)
        &&& (m.kind == MoveType::Capture || m.kind == MoveType::PromotionCapture || m.kind
            == MoveType::Enpassant) ==> m.captured.is_some()
        &&& m.kind == MoveType::Castle ==> stepped_back(self.pieces, m).contains_key(
            rook_squares(m).1,
        )
        &&& placement_before(self.pieces, m).contains_key(m.from)
    }

    /// The position before the latest move, with the castling rights, the
    /// en passant square and the halfmove clock that the caller kept from
    /// then: the move does not tell them.
    pub open spec fn revert(
        self,
        castling_rights: Map<Color, CastlingRights>,
        enpassant_square: Option<Square>,
        halfmove_clock: nat,
    ) -> Position {
        let m = self.history.last();
        let pieces = placement_before(self.pieces, m);
        Position {
            pieces,
            kings: seated_after(self.kings, pieces, self.turn.opposite(), m.from),
            turn: self.turn.opposite(),
            castling_rights,
            enpassant_square,
            halfmove_clock,
            fullmove_number: (self.fullmove_number - 1) as nat,
            history: self.history.drop_last(),
        }
    }
}

/// Relocates the pieces back as the move `m` says.
fn restore(pieces: &mut IndexMap<u8, Piece>, lines: &mut IndexMap<u8, Vec<Vec<Square>>>, m: Move)
    requires
        by_square(placed(*old(pieces))).contains_key(m.to),
        (m.kind == MoveType::Capture || m.kind == MoveType::PromotionCapture || m.kind
            == MoveType::Enpassant) ==> m.captured.is_some(),
        m.kind == MoveType::Castle ==> stepped_back(
            by_square(placed(*old(pieces))),
            m,
        ).contains_key(rook_squares(m).1),
    ensures
        by_square(placed(*final(pieces))) == placement_before(by_square(placed(*old(pieces))), m),
        in_step(placed(*old(pieces)), cached(*old(lines))) ==> in_step(
            placed(*final(pieces)),
            cached(*final(lines)),
        ),
{
    let piece = match lift(pieces, lines, m.to) {
        Some(piece) => piece,
        None => vstd::pervasive::unreached(),
    };
    let returning = match m.kind {
        MoveType::Promotion | MoveType::PromotionCapture => Piece {
            id: piece.id,
            kind: PieceType::Pawn,
            color: piece.color,
        },
        _ => piece,
    };
    put(pieces, lines, m.from, returning);
    match m.kind {
        MoveType::Capture | MoveType::PromotionCapture => match m.captured {
            Some(captured) => put(pieces, lines, m.to, captured),
            None => {},
        },
        MoveType::Enpassant => match m.captured {
            Some(captured) => put(pieces, lines, square(m.to.file, m.from.rank), captured),
            None => {},
        },
        MoveType::Castle => {
            let (rook_from, rook_to) = if m.to.file == File::C {
                (square(File::A, m.to.rank), square(File::D, m.to.rank))
            } else {
                (square(File::H, m.to.rank), square(File::F, m.to.rank))
            };
            let rook = match lift(pieces, lines, rook_to) {
                Some(rook) => rook,
                None => vstd::pervasive::unreached(),
            };
            put(pieces, lines, rook_from, rook);
        },
        _ => {},
    }
}

impl Board {
    /// The castling rights as they stand: what to keep before a move, and
    /// to hand to [`Board::undo`] when the move is taken back.
    pub fn saved_rights(&self) -> (kept: IndexMap<u8, CastlingRights>)
        ensures
            granted(kept) == granted(self.castling_rights),
    {
        rights_clone(&self.castling_rights)
    }

    /// Takes the latest move back, and sets the castling rights, the en
    /// passant square and the halfmove clock to the given values, which
    /// the caller has kept from before the move. Returns `None`, and
    /// leaves the board as it is, if no move has been made.
    pub fn undo(
        &mut self,
        castling_rights: IndexMap<u8, CastlingRights>,
        enpassant_square: Option<Square>,
        halfmove_clock: u32,
    ) -> (done: Option<()>)
        requires
            old(self).inv(),
            granted(castling_rights).dom() =~= set![0u8, 1u8],
            old(self).history.len() > 0 ==> old(self)@.revertible(),
        ensures
            done.is_some() == (old(self).history.len() > 0),
            done.is_none() ==> *final(self) == *old(self),
            done.is_some() ==> final(self).inv() && final(self)@ == old(self)@.revert(
                by_color(granted(castling_rights)),
                enpassant_square,
                halfmove_clock as nat,
            ),
    {
        let ghost v = self@;
        let ghost goal = v.revert(
            by_color(granted(castling_rights)),
            enpassant_square,
            halfmove_clock as nat,
        );
        if self.history.len() == 0 {
            return None;
        }
        let m = match self.history.pop() {
            Some(m) => m,
            None => vstd::pervasive::unreached(),
        };
        assert(m == v.history.last());
        self.turn = self.turn.opposite();
        self.castling_rights = castling_rights;
        self.enpassant_square = enpassant_square;
        self.halfmove_clock = halfmove_clock;
        self.fullmove_number = self.fullmove_number - 1;
        restore(&mut self.pieces, &mut self.attack_lines, m);
        seat_king(&mut self.kings, &self.pieces, self.turn, m.from);
        proof {
            assert(self@.history =~= goal.history);
            assert(self@ =~= goal);
        }
        Some(())
    }
}

impl Position {
    /// The move `m` is one that a piece of the side to move can make on
    /// this position, the king's safety apart: the piece stands on
    /// `m.from`, the squares that the move needs empty are empty, and the
    /// move holds the piece that it takes.
    pub open spec fn applicable(self, m: Move) -> bool {
        &&& self.holds(m.from, self.turn)
        &&& match m.kind {
            MoveType::Normal => {
                &&& !self.occupied(m.to)
                &&& m.captured.is_none()
                &&& m.promotion.is_none()
            },
            MoveType::PawnJump => {
                &&& self.pieces[m.from].kind == PieceType::Pawn
                &&& m.from.rank == self.turn.get_pawn_rank()
                &&& m.from.shifted(0, 2 * self.forward()) == Some(m.to)
                &&& m.from.shifted(0, self.forward()) matches Some(passed) && !self.occupied(
                    passed,
                )
                &&& !self.occupied(m.to)
                &&& m.captured.is_none()
                &&& m.promotion.is_none()
            },
            MoveType::Capture => {
                &&& self.holds(m.to, self.enemy())
                &&& m.captured == Some(self.pieces[m.to])
                &&& m.promotion.is_none()
            },
            MoveType::Promotion => {
                &&& self.pieces[m.from].kind == PieceType::Pawn
                &&& !self.occupied(m.to)
                &&& m.captured.is_none()
                &&& m.promotion matches Some(kind) && promotions().contains(kind)
            },
            MoveType::PromotionCapture => {
                &&& self.pieces[m.from].kind == PieceType::Pawn
                &&& self.holds(m.to, self.enemy())
                &&& m.captured == Some(self.pieces[m.to])
                &&& m.promotion matches Some(kind) && promotions().contains(kind)
            },
            MoveType::Enpassant => {
                &&& !self.occupied(m.to)
                &&& m.to.file != m.from.file
                &&& m.to.rank != m.from.rank
                &&& self.holds(passed_pawn_square(m), self.enemy())
                &&& m.captured == Some(self.pieces[passed_pawn_square(m)])
                &&& m.promotion.is_none()
            },
            MoveType::Castle => {
                &&& m.from == home(self.turn, File::E)
                &&& m.to == home(self.turn, File::G) || m.to == home(self.turn, File::C)
                &&& self.has(m.from, PieceType::King, self.turn)
                &&& self.has(rook_squares(m).0, PieceType::Rook, self.turn)
                &&& !self.occupied(m.to)
                &&& !self.occupied(rook_squares(m).1)
                &&& m.captured.is_none()
                &&& m.promotion.is_none()
            },
        }
    }

    /// A move that a piece can make can be made.
    pub proof fn lemma_applicable_executable(self, m: Move)
        requires
            self.applicable(m),
        ensures
            self.executable(m),
    {
    }

    /// Taking a move back restores the position: after a move that a
    /// piece can make, `revert` with the castling rights, the en passant
    /// square and the halfmove clock of before gives the position of
    /// before, with its placement, king squares, side to move, clocks and
    /// history.
    pub proof fn law_undo_restores(self, m: Move)
        requires
            self.consistent(),
            self.applicable(m),
        ensures
            self.apply(m).revertible(),
            self.apply(m).revert(
                self.castling_rights,
                self.enpassant_square,
                self.halfmove_clock,
            ) == self,
    {
        reveal(Position::apply);
        let after = self.apply(m);
        let back = after.revert(self.castling_rights, self.enpassant_square, self.halfmove_clock);
        assert(after.history.last() == m);
        assert(after.history.drop_last() =~= self.history);
        assert(self.kings.contains_key(self.turn));
        assert(back.pieces =~= self.pieces);
        assert(back.kings =~= self.kings);
        assert(back =~= self);
    }

    /// A move that a piece can make leaves the records in agreement with
    /// the placement.
    pub proof fn lemma_apply_consistent(self, m: Move)
        requires
            self.consistent(),
            self.applicable(m),
        ensures
            self.apply(m).consistent(),
    {
        reveal(Position::apply);
        let after = self.apply(m);
        assert forall|s: Square| #[trigger]
            after.pieces.contains_key(s) && after.pieces[s].kind == PieceType::King
                implies after.kings[after.pieces[s].color] == s by {
            if s != m.to && s != rook_squares(m).1 {
                assert(self.pieces.contains_key(s));
            }
        }
        assert forall|c: Color| #[trigger] after.castling_rights[c].kingside implies after.has(
            home(c, File::E),
            PieceType::King,
            c,
        ) && after.has(home(c, File::H), PieceType::Rook, c) by {}
        assert forall|c: Color| #[trigger] after.castling_rights[c].queenside implies after.has(
            home(c, File::E),
            PieceType::King,
            c,
        ) && after.has(home(c, File::A), PieceType::Rook, c) by {}
    }
}

} // verus!
