//! The position as a mathematical value, and the rules of the game stated
//! over it: which squares a side attacks, which moves a piece has, which of
//! them the king's safety permits.

use crate::structs::{
    attack_lines, CastlingRights, Color, File, Move, MoveType, Piece, PieceType, Square,
};
use vstd::prelude::*;

verus! {

/// What a board stands for.
#[verifier::ext_equal]
pub struct Position {
    /// The piece on each occupied square.
    pub pieces: Map<Square, Piece>,
    /// The square recorded as that of each side's king.
    pub kings: Map<Color, Square>,
    /// The side to move.
    pub turn: Color,
    /// The castling rights that each side still has.
    pub castling_rights: Map<Color, CastlingRights>,
    /// The square that a pawn has just passed over in a double step.
    pub enpassant_square: Option<Square>,
    /// Moves since the last pawn move or capture.
    pub halfmove_clock: nat,
    /// Moves made, counted for both sides together.
    pub fullmove_number: nat,
    /// The moves made so far, the latest last.
    pub history: Seq<Move>,
}

/// The kinds a pawn may be promoted to, in the order in which the moves
/// are generated.
pub open spec fn promotions() -> Seq<PieceType> {
    seq![PieceType::Queen, PieceType::Rook, PieceType::Bishop, PieceType::Knight]
}

impl Position {
    pub open spec fn occupied(self, s: Square) -> bool {
        self.pieces.contains_key(s)
    }

    /// A piece of the given side stands on `s`.
    pub open spec fn holds(self, s: Square, color: Color) -> bool {
        self.pieces.contains_key(s) && self.pieces[s].color == color
    }

    /// The slots hold the placement square by square, in display order.
    pub open spec fn fills(self, slots: Seq<Option<Piece>>) -> bool {
        &&& slots.len() == 64
        &&& forall|i: int|
            0 <= i < 64 ==> #[trigger] slots[i] == (if self.occupied(Square::at(i)) {
                Some(self.pieces[Square::at(i)])
            } else {
                None
            })
    }

    /// The side that is not to move.
    pub open spec fn enemy(self) -> Color {
        self.turn.opposite()
    }

    /// The square recorded for the king of the side to move.
    pub open spec fn king_square(self) -> Square {
        self.kings[self.turn]
    }

    /// The direction in which the pawns of the side to move advance.
    pub open spec fn forward(self) -> int {
        self.turn.get_multiplier() as int
    }

    /// The attack lines of the piece on `from`.
    pub open spec fn lines_from(self, from: Square) -> Seq<Seq<Square>> {
        attack_lines(self.pieces[from], from)
    }

    /// How many of the first `n` squares of `line` are occupied.
    pub open spec fn blockers(self, line: Seq<Square>, n: int) -> nat
        decreases n,
    {
        if n <= 0 {
            0
        } else {
            self.blockers(line, n - 1) + if self.occupied(line[n - 1]) {
                1nat
            } else {
                0nat
            }
        }
    }

    /// `target` is one of the first `n` squares of `line`, with nothing
    /// standing before it.
    pub open spec fn reaches_within(self, line: Seq<Square>, n: int, target: Square) -> bool {
        exists|i: int| 0 <= i < n && #[trigger] line[i] == target && self.blockers(line, i) == 0
    }

    /// `target` lies on `line` with nothing standing before it.
    pub open spec fn reaches(self, line: Seq<Square>, target: Square) -> bool {
        self.reaches_within(line, line.len() as int, target)
    }

    /// One of the first `n` lines of the piece on `from` reaches `target`.
    pub open spec fn attacks_within(self, from: Square, n: int, target: Square) -> bool {
        exists|l: int|
            0 <= l < n && self.reaches(#[trigger] self.lines_from(from)[l], target)
    }

    /// The piece on `from` attacks `target`: one of its lines reaches it.
    pub open spec fn attacks(self, from: Square, target: Square) -> bool {
        self.attacks_within(from, self.lines_from(from).len() as int, target)
    }

    /// A piece of the given side on one of the first `n` squares of the
    /// display order attacks `target`.
    pub open spec fn attacked_within(self, color: Color, n: int, target: Square) -> bool {
        exists|from: Square|
            from.slot() < n && self.holds(from, color) && #[trigger] self.attacks(from, target)
    }

    /// Some piece of the given side attacks `target`.
    pub open spec fn attacked_by(self, color: Color, target: Square) -> bool {
        self.attacked_within(color, 64, target)
    }

    /// The king of the side to move is attacked.
    pub open spec fn in_check(self) -> bool {
        self.occupied(self.king_square()) && self.attacked_by(self.enemy(), self.king_square())
    }

    /// The king of the side to move stands on `line` at index `at`, and
    /// nowhere before.
    pub open spec fn king_on(self, line: Seq<Square>, at: int) -> bool {
        &&& 0 <= at < line.len()
        &&& line[at] == self.king_square()
        &&& self.occupied(self.king_square())
        &&& forall|j: int| 0 <= j < at ==> #[trigger] line[j] != self.king_square()
    }

    /// The pawn that can be taken in passing: it stands behind the square
    /// it has just passed over.
    pub open spec fn enpassant_victim(self) -> Option<Square> {
        match self.enpassant_square {
            Some(passed) => match passed.shifted(0, -self.forward()) {
                Some(v) => if passed.rank == self.enemy().get_enpassant_rank() && self.holds(
                    v,
                    self.enemy(),
                ) && self.pieces[v].kind == PieceType::Pawn {
                    Some(v)
                } else {
                    None
                },
                None => None,
            },
            None => None,
        }
    }
}

/// `s` is the attacker's square or one of the first `at` squares of `line`:
/// a piece that goes there takes the attacker or stands in its way.
pub open spec fn resolving(attacker: Square, line: Seq<Square>, at: int, s: Square) -> bool {
    s == attacker || exists|j: int| 0 <= j < at && #[trigger] line[j] == s
}

impl Position {
    /// The answer to a check given along `line`: the king leaves the line,
    /// a piece takes the attacker or steps between, or a pawn takes the
    /// attacking pawn in passing.
    pub open spec fn answers_check(self, attacker: Square, line: Seq<Square>, at: int, m: Move)
        -> bool {
        ||| (m.from == self.king_square() && !line.contains(m.to))
        ||| resolving(attacker, line, at, m.to)
        ||| (m.kind == MoveType::Enpassant && attacker == (Square {
            file: m.to.file,
            rank: m.from.rank,
        }))
    }

    /// A piece that stands alone between attacker and king stays on the line.
    pub open spec fn keeps_pin(attacker: Square, line: Seq<Square>, at: int, m: Move) -> bool {
        !resolving(attacker, line, at, m.from) || resolving(attacker, line, at, m.to)
    }

    /// With two pieces between attacker and king, one of them the pawn
    /// that can be taken in passing, no pawn on the king's rank takes it.
    pub open spec fn keeps_cover(self, line: Seq<Square>, at: int, m: Move) -> bool {
        (self.enpassant_victim() matches Some(v) && exists|j: int|
            0 <= j < at && #[trigger] line[j] == v) ==> (m.kind != MoveType::Enpassant
            || m.from.rank != self.king_square().rank)
    }

    /// What the line of an enemy piece on `attacker`, with the king at
    /// index `at`, leaves of the moves: it depends on how many pieces
    /// stand between the two.
    pub open spec fn threat_permits(self, attacker: Square, line: Seq<Square>, at: int, m: Move)
        -> bool {
        let between = self.blockers(line, at);
        if between == 0 {
            self.answers_check(attacker, line, at, m)
        } else if between == 1 {
            Self::keeps_pin(attacker, line, at, m)
        } else if between == 2 {
            self.keeps_cover(line, at, m)
        } else {
            true
        }
    }

    /// The line permits `m` wherever the king stands on it.
    pub open spec fn line_permits(self, attacker: Square, line: Seq<Square>, m: Move) -> bool {
        forall|at: int| #[trigger]
            self.king_on(line, at) ==> self.threat_permits(attacker, line, at, m)
    }

    /// The king's safety permits `m`: the king does not step onto a square
    /// that the enemy attacks, and every enemy line through the king
    /// permits the move.
    pub open spec fn permits(self, m: Move) -> bool {
        &&& m.from == self.king_square() ==> !self.attacked_by(self.enemy(), m.to)
        &&& forall|a: Square, l: int|
            self.holds(a, self.enemy()) && 0 <= l < self.lines_from(a).len()
                ==> #[trigger] self.line_permits(a, self.lines_from(a)[l], m)
    }
}

/// The square of the given file on the rank where the side's pieces start.
pub open spec fn home(color: Color, file: File) -> Square {
    Square { file, rank: color.get_piece_rank() }
}

impl Position {
    /// A piece of the given kind and side stands on `s`.
    pub open spec fn has(self, s: Square, kind: PieceType, color: Color) -> bool {
        self.pieces.contains_key(s) && self.pieces[s].kind == kind && self.pieces[s].color
            == color
    }

    /// The records agree with the placement: both sides have their
    /// entries, a king stands nowhere but on the square recorded for its
    /// side, a side keeps a castling right only while its king and the
    /// rook of that wing stand at home, and the en passant square is
    /// empty.
    pub open spec fn consistent(self) -> bool {
        &&& forall|c: Color| #[trigger] self.kings.contains_key(c)
        &&& forall|c: Color| #[trigger] self.castling_rights.contains_key(c)
        &&& self.enpassant_square matches Some(passed) ==> !self.occupied(passed)
        &&& forall|s: Square| #[trigger]
            self.pieces.contains_key(s) && self.pieces[s].kind == PieceType::King
                ==> self.kings[self.pieces[s].color] == s
        &&& forall|c: Color| #[trigger]
            self.castling_rights[c].kingside ==> self.has(home(c, File::E), PieceType::King, c)
                && self.has(home(c, File::H), PieceType::Rook, c)
        &&& forall|c: Color| #[trigger]
            self.castling_rights[c].queenside ==> self.has(home(c, File::E), PieceType::King, c)
                && self.has(home(c, File::A), PieceType::Rook, c)
    }
}

impl Position {
    /// The moves that the king's safety permits, as a predicate.
    pub open spec fn permitted(self) -> spec_fn(Move) -> bool {
        |m: Move| self.permits(m)
    }

    /// The side to move may castle on the king's wing: it is not in check,
    /// it has the right, the squares between king and rook are empty, and
    /// the enemy attacks neither of the squares the king crosses.
    pub open spec fn kingside_open(self) -> bool {
        &&& !self.in_check()
        &&& self.castling_rights[self.turn].kingside
        &&& !self.occupied(home(self.turn, File::F))
        &&& !self.occupied(home(self.turn, File::G))
        &&& !self.attacked_by(self.enemy(), home(self.turn, File::F))
        &&& !self.attacked_by(self.enemy(), home(self.turn, File::G))
    }

    /// The same on the queen's wing.
    pub open spec fn queenside_open(self) -> bool {
        &&& !self.in_check()
        &&& self.castling_rights[self.turn].queenside
        &&& !self.occupied(home(self.turn, File::B))
        &&& !self.occupied(home(self.turn, File::C))
        &&& !self.occupied(home(self.turn, File::D))
        &&& !self.attacked_by(self.enemy(), home(self.turn, File::C))
        &&& !self.attacked_by(self.enemy(), home(self.turn, File::D))
    }

    /// The castling moves of the side to move, the king's wing first.
    pub open spec fn castle_moves(self) -> Seq<Move> {
        (if self.kingside_open() {
            seq![Move::castle(home(self.turn, File::E), home(self.turn, File::G))]
        } else {
            Seq::empty()
        }) + (if self.queenside_open() {
            seq![Move::castle(home(self.turn, File::E), home(self.turn, File::C))]
        } else {
            Seq::empty()
        })
    }

    /// The moves that take a piece, as a predicate.
    pub open spec fn taking() -> spec_fn(Move) -> bool {
        |m: Move| m.captured.is_some()
    }

    /// The legal moves of the side to move: the moves of its pieces that
    /// the king's safety permits, in the order in which they are
    /// generated, and then the castling moves. With `only_captures`, only
    /// those of them that take a piece.
    #[verifier::opaque]
    pub open spec fn legal_moves(self, only_captures: bool) -> Seq<Move> {
        let all = self.pseudo_moves(only_captures).filter(self.permitted()) + self.castle_moves();
        if only_captures {
            all.filter(Self::taking())
        } else {
            all
        }
    }
}

impl Position {
    /// Check detection: with the king on its recorded square, the side to
    /// move is in check exactly when that square lies on an attack line of
    /// an enemy piece with no piece standing between the two.
    pub proof fn law_check_detection(self)
        requires
            self.occupied(self.king_square()),
        ensures
            self.in_check() <==> exists|a: Square, l: int, at: int|
                self.holds(a, self.enemy()) && 0 <= l < self.lines_from(a).len() && 0 <= at
                    < self.lines_from(a)[l].len() && #[trigger] self.lines_from(a)[l][at]
                    == self.king_square() && self.blockers(self.lines_from(a)[l], at) == 0,
    {
        let king = self.king_square();
        if self.in_check() {
            let a = choose|a: Square|
                a.slot() < 64 && self.holds(a, self.enemy()) && #[trigger] self.attacks(a, king);
            let l = choose|l: int|
                0 <= l < self.lines_from(a).len() && self.reaches(
                    #[trigger] self.lines_from(a)[l],
                    king,
                );
            let line = self.lines_from(a)[l];
            let at = choose|at: int|
                0 <= at < line.len() && #[trigger] line[at] == king && self.blockers(line, at)
                    == 0;
            assert(self.lines_from(a)[l][at] == king);
        }
        if exists|a: Square, l: int, at: int|
            self.holds(a, self.enemy()) && 0 <= l < self.lines_from(a).len() && 0 <= at
                < self.lines_from(a)[l].len() && #[trigger] self.lines_from(a)[l][at] == king
                && self.blockers(self.lines_from(a)[l], at) == 0 {
            let (a, l, at) = choose|a: Square, l: int, at: int|
                self.holds(a, self.enemy()) && 0 <= l < self.lines_from(a).len() && 0 <= at
                    < self.lines_from(a)[l].len() && #[trigger] self.lines_from(a)[l][at] == king
                    && self.blockers(self.lines_from(a)[l], at) == 0;
            let line = self.lines_from(a)[l];
            a.lemma_slot_at();
            assert(line[at] == king);
            assert(self.reaches(line, king));
            assert(self.attacks(a, king));
        }
    }

    /// Pin enforcement: where exactly one piece stands between an enemy
    /// piece and the king on one of its attack lines, a legal move of that
    /// piece takes the attacker or ends on the line between the two.
    pub proof fn law_pin_enforcement(
        self,
        attacker: Square,
        l: int,
        at: int,
        pinned: int,
        m: Move,
        only_captures: bool,
    )
        requires
            self.consistent(),
            self.holds(attacker, self.enemy()),
            0 <= l < self.lines_from(attacker).len(),
            self.king_on(self.lines_from(attacker)[l], at),
            self.blockers(self.lines_from(attacker)[l], at) == 1,
            0 <= pinned < at,
            self.lines_from(attacker)[l][pinned] == m.from,
            self.legal_moves(only_captures).contains(m),
        ensures
            m.to == attacker || exists|j: int|
                0 <= j < at && #[trigger] self.lines_from(attacker)[l][j] == m.to,
    {
        reveal(Position::legal_moves);
        let line = self.lines_from(attacker)[l];
        let pseudo = self.pseudo_moves(only_captures);
        let kept = pseudo.filter(self.permitted());
        let all = kept + self.castle_moves();
        if only_captures {
            all.lemma_filter_contains_rev(Self::taking(), m);
        }
        assert(all.contains(m));
        let i = choose|i: int| 0 <= i < all.len() && all[i] == m;
        if i < kept.len() {
            pseudo.lemma_filter_pred(self.permitted(), i);
            assert(self.permits(m));
            assert(self.line_permits(attacker, line, m));
            assert(self.threat_permits(attacker, line, at, m));
            assert(resolving(attacker, line, at, m.from));
        } else {
            assert(self.castle_moves().contains(m));
            assert(m.from == home(self.turn, File::E));
            assert(self.has(m.from, PieceType::King, self.turn));
            assert(line[pinned] != self.king_square());
        }
    }
}

} // verus!
