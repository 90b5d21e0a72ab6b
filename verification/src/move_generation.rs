//! The moves that each piece has before the king's safety is looked at.

use crate::board::Board;
use crate::position::{promotions, Position};
use crate::structs::{ray, ray_room, Directions, Move, Piece, PieceType, Square};
use vstd::prelude::*;

verus! {

impl Position {
    /// The move to the square one step away: a capture where an enemy
    /// piece stands there, a quiet move where nothing does.
    pub open spec fn step_move(self, from: Square, step: (i8, i8), only_captures: bool) -> Seq<
        Move,
    > {
        match from.shifted(step.0 as int, step.1 as int) {
            Some(to) => if self.occupied(to) {
                if self.pieces[to].color != self.turn {
                    seq![Move::capture(from, to, self.pieces[to])]
                } else {
                    Seq::empty()
                }
            } else if !only_captures {
                seq![Move::normal(from, to)]
            } else {
                Seq::empty()
            },
            None => Seq::empty(),
        }
    }

    /// The moves of a piece that steps, step by step.
    pub open spec fn step_moves(self, from: Square, steps: Seq<(i8, i8)>, only_captures: bool)
        -> Seq<Move>
        decreases steps.len(),
    {
        if steps.len() == 0 {
            Seq::empty()
        } else {
            self.step_moves(from, steps.drop_last(), only_captures) + self.step_move(
                from,
                steps.last(),
                only_captures,
            )
        }
    }

    /// The moves along `line`, which leaves `from`: to each empty square up
    /// to the first occupied one, which is taken if it holds an enemy.
    pub open spec fn ray_moves(self, from: Square, line: Seq<Square>, only_captures: bool)
        -> Seq<Move>
        decreases line.len(),
    {
        if line.len() == 0 {
            Seq::empty()
        } else if self.occupied(line[0]) {
            if self.pieces[line[0]].color != self.turn {
                seq![Move::capture(from, line[0], self.pieces[line[0]])]
            } else {
                Seq::empty()
            }
        } else {
            (if only_captures {
                Seq::empty()
            } else {
                seq![Move::normal(from, line[0])]
            }) + self.ray_moves(from, line.drop_first(), only_captures)
        }
    }

    /// The moves of a piece that slides, direction by direction.
    pub open spec fn slide_moves(self, from: Square, steps: Seq<(i8, i8)>, only_captures: bool)
        -> Seq<Move>
        decreases steps.len(),
    {
        if steps.len() == 0 {
            Seq::empty()
        } else {
            self.slide_moves(from, steps.drop_last(), only_captures) + self.ray_moves(
                from,
                ray(from, steps.last().0 as int, steps.last().1 as int),
                only_captures,
            )
        }
    }

    /// The double step of a pawn that has not moved, over two empty squares.
    pub open spec fn pawn_jump_moves(self, from: Square, only_captures: bool) -> Seq<Move> {
        if !only_captures && from.rank == self.turn.get_pawn_rank() {
            match (from.shifted(0, self.forward()), from.shifted(0, 2 * self.forward())) {
                (Some(one), Some(two)) => if !self.occupied(one) && !self.occupied(two) {
                    seq![Move::pawn_jump(from, two)]
                } else {
                    Seq::empty()
                },
                _ => Seq::empty(),
            }
        } else {
            Seq::empty()
        }
    }

    /// The single step of a pawn to the empty square ahead: one move, or
    /// one for each kind that the pawn can become.
    pub open spec fn pawn_push_moves(self, from: Square, promoting: bool, only_captures: bool)
        -> Seq<Move> {
        match from.shifted(0, self.forward()) {
            Some(to) => if !only_captures && !self.occupied(to) {
                if promoting {
                    promotions().map_values(|kind: PieceType| Move::promote(from, to, kind))
                } else {
                    seq![Move::normal(from, to)]
                }
            } else {
                Seq::empty()
            },
            None => Seq::empty(),
        }
    }

    /// The capture of the enemy piece one step ahead on the file `side`
    /// files away: one move, or one for each kind that the pawn can become.
    pub open spec fn pawn_capture_moves(self, from: Square, side: int, promoting: bool) -> Seq<
        Move,
    > {
        match from.shifted(side, self.forward()) {
            Some(to) => if self.occupied(to) && self.pieces[to].color != self.turn {
                if promoting {
                    promotions().map_values(
                        |kind: PieceType| Move::promote_capture(from, to, self.pieces[to], kind),
                    )
                } else {
                    seq![Move::capture(from, to, self.pieces[to])]
                }
            } else {
                Seq::empty()
            },
            None => Seq::empty(),
        }
    }

    /// The capture in passing towards the file `side` files away: the pawn
    /// stands beside the pawn that has just made a double step, and goes
    /// to the square that pawn passed over.
    pub open spec fn pawn_enpassant_moves(self, from: Square, side: int) -> Seq<Move> {
        match (self.enpassant_square, self.enpassant_victim()) {
            (Some(passed), Some(victim)) => if from.rank == self.enemy().get_center_rank()
                && from.shifted(side, self.forward()) == Some(passed) {
                seq![Move::enpassant(from, passed, self.pieces[victim])]
            } else {
                Seq::empty()
            },
            _ => Seq::empty(),
        }
    }

    /// The moves of the pawn on `from`.
    pub open spec fn pawn_moves(self, from: Square, only_captures: bool) -> Seq<Move> {
        self.pawn_jump_moves(from, only_captures) + (if from.rank
            == self.enemy().get_pawn_rank() {
            self.pawn_capture_moves(from, -1, true) + self.pawn_push_moves(
                from,
                true,
                only_captures,
            ) + self.pawn_capture_moves(from, 1, true)
        } else {
            self.pawn_enpassant_moves(from, -1) + self.pawn_enpassant_moves(from, 1)
                + self.pawn_capture_moves(from, -1, false) + self.pawn_push_moves(
                from,
                false,
                only_captures,
            ) + self.pawn_capture_moves(from, 1, false)
        })
    }

    /// The moves of the piece on `from`, whatever they do to the king.
    pub open spec fn piece_moves(self, from: Square, only_captures: bool) -> Seq<Move> {
        match self.pieces[from].kind {
            PieceType::Pawn => self.pawn_moves(from, only_captures),
            PieceType::Knight => self.step_moves(from, Directions::KNIGHT@, only_captures),
            PieceType::Bishop => self.slide_moves(from, Directions::BISHOP@, only_captures),
            PieceType::Rook => self.slide_moves(from, Directions::ROOK@, only_captures),
            PieceType::Queen => self.slide_moves(from, Directions::QUEEN@, only_captures),
            PieceType::King => self.step_moves(from, Directions::KING@, only_captures),
        }
    }

    /// The moves of the pieces of the side to move that stand on the first
    /// `n` squares of the display order, square by square.
    pub open spec fn pseudo_moves_upto(self, n: int, only_captures: bool) -> Seq<Move>
        decreases n,
    {
        if n <= 0 {
            Seq::empty()
        } else {
            self.pseudo_moves_upto(n - 1, only_captures) + (if self.holds(
                Square::at(n - 1),
                self.turn,
            ) {
                self.piece_moves(Square::at(n - 1), only_captures)
            } else {
                Seq::empty()
            })
        }
    }

    /// The moves of all pieces of the side to move, whatever they do to
    /// the king, in the display order of the squares they start from.
    /// With `only_captures`, the moves to empty squares are left out.
    pub open spec fn pseudo_moves(self, only_captures: bool) -> Seq<Move> {
        self.pseudo_moves_upto(64, only_captures)
    }
}

/// Whether a piece on `from` may go to `to`: the square is empty or holds
/// a piece of the other side.
pub fn is_valid_destination(board: &Board, from: Square, to: Square) -> (ok: bool)
    requires
        board@.occupied(from),
    ensures
        ok == (!board@.occupied(to) || board@.pieces[to].color != board@.pieces[from].color),
{
    let mover = board.piece_at(from);
    match board.piece_at(to) {
        Some(target) => match mover {
            Some(piece) => target.color != piece.color,
            None => true,
        },
        None => true,
    }
}

fn push_step_moves<const N: usize>(
    board: &Board,
    moves: &mut Vec<Move>,
    from: Square,
    steps: &[(i8, i8); N],
    only_captures: bool,
)
    ensures
        final(moves)@ == old(moves)@ + board@.step_moves(from, steps@, only_captures),
{
    let mut i: usize = 0;
    assert(moves@ =~= old(moves)@ + board@.step_moves(from, steps@.take(0), only_captures));
    while i < N
        invariant
            i <= N,
            steps@.len() == N,
            moves@ == old(moves)@ + board@.step_moves(from, steps@.take(i as int), only_captures),
        decreases N - i,
    {
        let step = steps[i];
        let ghost before = moves@;
        proof {
            assert(steps@.take(i + 1).drop_last() =~= steps@.take(i as int));
            assert(steps@.take(i + 1).last() == step);
        }
        match from.offset(step.0, step.1) {
            Some(to) => match board.piece_at(to) {
                Some(target) => {
                    if target.color != board.turn {
                        moves.push(Move::from_capture(from, to, target));
                    }
                },
                None => {
                    if !only_captures {
                        moves.push(Move::from_normal(from, to));
                    }
                },
            },
            None => {},
        }
        assert(moves@ =~= before + board@.step_move(from, step, only_captures));
        assert(moves@ =~= old(moves)@ + board@.step_moves(
            from,
            steps@.take(i + 1),
            only_captures,
        ));
        i += 1;
    }
    assert(steps@.take(N as int) =~= steps@);
}

fn push_ray_moves(
    board: &Board,
    moves: &mut Vec<Move>,
    from: Square,
    df: i8,
    dr: i8,
    only_captures: bool,
)
    ensures
        final(moves)@ == old(moves)@ + board@.ray_moves(
            from,
            ray(from, df as int, dr as int),
            only_captures,
        ),
{
    if df == 0 && dr == 0 {
        assert(moves@ =~= old(moves)@ + Seq::<Move>::empty());
        return ;
    }
    let mut current = from;
    let ghost goal = old(moves)@ + board@.ray_moves(
        from,
        ray(from, df as int, dr as int),
        only_captures,
    );
    loop
        invariant_except_break
            !(df == 0 && dr == 0),
            goal == moves@ + board@.ray_moves(
                from,
                ray(current, df as int, dr as int),
                only_captures,
            ),
        ensures
            moves@ == goal,
        decreases ray_room(current, df as int, dr as int),
    {
        let ghost before = moves@;
        let ghost line = ray(current, df as int, dr as int);
        match current.offset(df, dr) {
            Some(to) => {
                assert(line.drop_first() =~= ray(to, df as int, dr as int));
                assert(line[0] == to);
                match board.piece_at(to) {
                    Some(target) => {
                        if target.color != board.turn {
                            moves.push(Move::from_capture(from, to, target));
                        }
                        assert(moves@ =~= before + board@.ray_moves(from, line, only_captures));
                        break ;
                    },
                    None => {
                        if !only_captures {
                            moves.push(Move::from_normal(from, to));
                        }
                        assert(before + board@.ray_moves(from, line, only_captures) =~= moves@
                            + board@.ray_moves(
                            from,
                            ray(to, df as int, dr as int),
                            only_captures,
                        ));
                        current = to;
                    },
                }
            },
            None => {
                assert(moves@ =~= before + board@.ray_moves(from, line, only_captures));
                break ;
            },
        }
    }
}

impl Board {
    /// Appends to `moves` the moves of a sliding piece on `square` along
    /// the given directions.
    pub fn get_straight_moves<const N: usize>(
        &self,
        moves: &mut Vec<Move>,
        square: Square,
        directions: &[(i8, i8); N],
        only_captures: bool,
    )
        ensures
            final(moves)@ == old(moves)@ + self@.slide_moves(
                square,
                directions@,
                only_captures,
            ),
    {
        let mut i: usize = 0;
        assert(moves@ =~= old(moves)@ + self@.slide_moves(
            square,
            directions@.take(0),
            only_captures,
        ));
        while i < N
            invariant
                i <= N,
                directions@.len() == N,
                moves@ == old(moves)@ + self@.slide_moves(
                    square,
                    directions@.take(i as int),
                    only_captures,
                ),
            decreases N - i,
        {
            let step = directions[i];
            let ghost before = moves@;
            proof {
                assert(directions@.take(i + 1).drop_last() =~= directions@.take(i as int));
                assert(directions@.take(i + 1).last() == step);
            }
            push_ray_moves(self, moves, square, step.0, step.1, only_captures);
            assert(moves@ =~= old(moves)@ + self@.slide_moves(
                square,
                directions@.take(i + 1),
                only_captures,
            ));
            i += 1;
        }
        assert(directions@.take(N as int) =~= directions@);
    }
}

/// The moves of a knight on `from`.
pub fn generate_knight_moves(board: &Board, from: Square, only_captures: bool) -> (moves: Vec<
    Move,
>)
    ensures
        moves@ == board@.step_moves(from, Directions::KNIGHT@, only_captures),
{
    let mut moves: Vec<Move> = Vec::new();
    push_step_moves(board, &mut moves, from, &Directions::KNIGHT, only_captures);
    assert(moves@ =~= board@.step_moves(from, Directions::KNIGHT@, only_captures));
    moves
}

/// The single steps of a king on `from`.
pub fn generate_king_moves(board: &Board, from: Square, only_captures: bool) -> (moves: Vec<
    Move,
>)
    ensures
        moves@ == board@.step_moves(from, Directions::KING@, only_captures),
{
    let mut moves: Vec<Move> = Vec::new();
    push_step_moves(board, &mut moves, from, &Directions::KING, only_captures);
    assert(moves@ =~= board@.step_moves(from, Directions::KING@, only_captures));
    moves
}

/// The moves of a sliding piece on `from` along the given directions.
pub fn generate_sliding_piece_moves<const N: usize>(
    board: &Board,
    from: Square,
    directions: &[(i8, i8); N],
    only_captures: bool,
) -> (moves: Vec<Move>)
    ensures
        moves@ == board@.slide_moves(from, directions@, only_captures),
{
    let mut moves: Vec<Move> = Vec::new();
    board.get_straight_moves(&mut moves, from, directions, only_captures);
    assert(moves@ =~= board@.slide_moves(from, directions@, only_captures));
    moves
}

/// Appends the move from `from` to `to` once for each kind that a pawn can
/// become.
fn push_promotions(moves: &mut Vec<Move>, from: Square, to: Square, captured: Option<Piece>)
    ensures
        final(moves)@ == old(moves)@ + (match captured {
            Some(piece) => promotions().map_values(
                |kind: PieceType| Move::promote_capture(from, to, piece, kind),
            ),
            None => promotions().map_values(|kind: PieceType| Move::promote(from, to, kind)),
        }),
{
    match captured {
        Some(piece) => {
            moves.push(Move::from_promotion_capture(from, to, piece, PieceType::Queen));
            moves.push(Move::from_promotion_capture(from, to, piece, PieceType::Rook));
            moves.push(Move::from_promotion_capture(from, to, piece, PieceType::Bishop));
            moves.push(Move::from_promotion_capture(from, to, piece, PieceType::Knight));
            assert(moves@ =~= old(moves)@ + promotions().map_values(
                |kind: PieceType| Move::promote_capture(from, to, piece, kind),
            ));
        },
        None => {
            moves.push(Move::from_promotion(from, to, PieceType::Queen));
            moves.push(Move::from_promotion(from, to, PieceType::Rook));
            moves.push(Move::from_promotion(from, to, PieceType::Bishop));
            moves.push(Move::from_promotion(from, to, PieceType::Knight));
            assert(moves@ =~= old(moves)@ + promotions().map_values(
                |kind: PieceType| Move::promote(from, to, kind),
            ));
        },
    }
}

fn push_pawn_jump(board: &Board, moves: &mut Vec<Move>, from: Square, only_captures: bool)
    ensures
        final(moves)@ == old(moves)@ + board@.pawn_jump_moves(from, only_captures),
{
    let forward = board.turn.get_multiplier();
    if !only_captures && from.rank == board.turn.get_pawn_rank() {
        match (from.offset(0, forward), from.offset(0, 2 * forward)) {
            (Some(one), Some(two)) => {
                if board.piece_at(one).is_none() && board.piece_at(two).is_none() {
                    moves.push(Move::from_pawn_jump(from, two));
                }
            },
            _ => {},
        }
    }
    assert(moves@ =~= old(moves)@ + board@.pawn_jump_moves(from, only_captures));
}

fn push_pawn_push(
    board: &Board,
    moves: &mut Vec<Move>,
    from: Square,
    promoting: bool,
    only_captures: bool,
)
    ensures
        final(moves)@ == old(moves)@ + board@.pawn_push_moves(from, promoting, only_captures),
{
    let forward = board.turn.get_multiplier();
    match from.offset(0, forward) {
        Some(to) => {
            if !only_captures && board.piece_at(to).is_none() {
                if promoting {
                    push_promotions(moves, from, to, None);
                    return ;
                } else {
                    moves.push(Move::from_normal(from, to));
                }
            }
        },
        None => {},
    }
    assert(moves@ =~= old(moves)@ + board@.pawn_push_moves(from, promoting, only_captures));
}

fn push_pawn_capture(
    board: &Board,
    moves: &mut Vec<Move>,
    from: Square,
    side: i8,
    promoting: bool,
)
    ensures
        final(moves)@ == old(moves)@ + board@.pawn_capture_moves(from, side as int, promoting),
{
    let forward = board.turn.get_multiplier();
    match from.offset(side, forward) {
        Some(to) => match board.piece_at(to) {
            Some(target) => {
                if target.color != board.turn {
                    if promoting {
                        push_promotions(moves, from, to, Some(target));
                        return ;
                    } else {
                        moves.push(Move::from_capture(from, to, target));
                    }
                }
            },
            None => {},
        },
        None => {},
    }
    assert(moves@ =~= old(moves)@ + board@.pawn_capture_moves(from, side as int, promoting));
}

impl Board {
    /// The square of the pawn that can be taken in passing, if there is one.
    pub fn enpassant_victim(&self) -> (victim: Option<Square>)
        ensures
            victim == self@.enpassant_victim(),
    {
        let forward = self.turn.get_multiplier();
        let enemy = self.turn.opposite();
        match self.enpassant_square {
            Some(passed) => match passed.offset(0, -forward) {
                Some(v) => match self.piece_at(v) {
                    Some(piece) => {
                        if passed.rank == enemy.get_enpassant_rank() && piece.color == enemy
                            && piece.kind == PieceType::Pawn {
                            Some(v)
                        } else {
                            None
                        }
                    },
                    None => None,
                },
                None => None,
            },
            None => None,
        }
    }
}

fn push_pawn_enpassant(board: &Board, moves: &mut Vec<Move>, from: Square, side: i8)
    ensures
        final(moves)@ == old(moves)@ + board@.pawn_enpassant_moves(from, side as int),
{
    let forward = board.turn.get_multiplier();
    let enemy = board.turn.opposite();
    match (board.enpassant_square, board.enpassant_victim()) {
        (Some(passed), Some(victim)) => {
            if from.rank == enemy.get_center_rank() {
                match (from.offset(side, forward), board.piece_at(victim)) {
                    (Some(to), Some(pawn)) => {
                        if to == passed {
                            moves.push(Move::from_enpassant(from, passed, pawn));
                        }
                    },
                    _ => {},
                }
            }
        },
        _ => {},
    }
    assert(moves@ =~= old(moves)@ + board@.pawn_enpassant_moves(from, side as int));
}

proof fn lemma_concat_assoc<A>(a: Seq<A>, b: Seq<A>, c: Seq<A>)
    ensures
        (a + b) + c == a + (b + c),
{
    assert((a + b) + c =~= a + (b + c));
}

fn push_pawn_moves(board: &Board, moves: &mut Vec<Move>, from: Square, only_captures: bool)
    ensures
        final(moves)@ == old(moves)@ + board@.pawn_moves(from, only_captures),
{
    let enemy = board.turn.opposite();
    let ghost start = moves@;
    let ghost jump = board@.pawn_jump_moves(from, only_captures);
    push_pawn_jump(board, moves, from, only_captures);
    if from.rank == enemy.get_pawn_rank() {
        let ghost left = board@.pawn_capture_moves(from, -1, true);
        let ghost ahead = board@.pawn_push_moves(from, true, only_captures);
        let ghost right = board@.pawn_capture_moves(from, 1, true);
        push_pawn_capture(board, moves, from, -1, true);
        push_pawn_push(board, moves, from, true, only_captures);
        push_pawn_capture(board, moves, from, 1, true);
        proof {
            assert(moves@ == start + jump + left + ahead + right);
            lemma_concat_assoc(start + jump + left, ahead, right);
            lemma_concat_assoc(start + jump, left, ahead + right);
            lemma_concat_assoc(left, ahead, right);
            lemma_concat_assoc(start, jump, left + ahead + right);
        }
    } else {
        let ghost pass_left = board@.pawn_enpassant_moves(from, -1);
        let ghost pass_right = board@.pawn_enpassant_moves(from, 1);
        let ghost left = board@.pawn_capture_moves(from, -1, false);
        let ghost ahead = board@.pawn_push_moves(from, false, only_captures);
        let ghost right = board@.pawn_capture_moves(from, 1, false);
        push_pawn_enpassant(board, moves, from, -1);
        push_pawn_enpassant(board, moves, from, 1);
        push_pawn_capture(board, moves, from, -1, false);
        push_pawn_push(board, moves, from, false, only_captures);
        push_pawn_capture(board, moves, from, 1, false);
        proof {
            let rest = pass_left + pass_right + left + ahead + right;
            assert(moves@ == start + jump + pass_left + pass_right + left + ahead + right);
            lemma_concat_assoc(start + jump, pass_left, pass_right);
            lemma_concat_assoc(start + jump, pass_left + pass_right, left);
            lemma_concat_assoc(start + jump, pass_left + pass_right + left, ahead);
            lemma_concat_assoc(start + jump, pass_left + pass_right + left + ahead, right);
            assert(moves@ == (start + jump) + rest);
            lemma_concat_assoc(start, jump, rest);
        }
    }
}

/// The moves of a pawn on `from`.
pub fn generate_pawn_moves(board: &Board, from: Square, only_captures: bool) -> (moves: Vec<
    Move,
>)
    ensures
        moves@ == board@.pawn_moves(from, only_captures),
{
    let mut moves: Vec<Move> = Vec::new();
    push_pawn_moves(board, &mut moves, from, only_captures);
    assert(moves@ =~= board@.pawn_moves(from, only_captures));
    moves
}

/// The moves of all pieces of the side to move, whatever they do to the
/// king, and the square recorded for that side's king.
pub fn generate_all_moves(board: &Board, only_captures: bool) -> (found: (Vec<Move>, Square))
    requires
        board.inv(),
    ensures
        found.0@ == board@.pseudo_moves(only_captures),
        found.1 == board@.king_square(),
{
    let slots = board.mailbox();
    let mut moves: Vec<Move> = Vec::new();
    let mut k: u8 = 0;
    assert(moves@ =~= board@.pseudo_moves_upto(0, only_captures));
    while k < 64
        invariant
            k <= 64,
            board@.fills(slots@),
            moves@ == board@.pseudo_moves_upto(k as int, only_captures),
        decreases 64 - k,
    {
        let ghost before = moves@;
        match Square::from_index(k) {
            Some(from) => match slots[k as usize] {
                Some(piece) => {
                    if piece.color == board.turn {
                        match piece.kind {
                            PieceType::Pawn => push_pawn_moves(
                                board,
                                &mut moves,
                                from,
                                only_captures,
                            ),
                            PieceType::Knight => push_step_moves(
                                board,
                                &mut moves,
                                from,
                                &Directions::KNIGHT,
                                only_captures,
                            ),
                            PieceType::Bishop => board.get_straight_moves(
                                &mut moves,
                                from,
                                &Directions::BISHOP,
                                only_captures,
                            ),
                            PieceType::Rook => board.get_straight_moves(
                                &mut moves,
                                from,
                                &Directions::ROOK,
                                only_captures,
                            ),
                            PieceType::Queen => board.get_straight_moves(
                                &mut moves,
                                from,
                                &Directions::QUEEN,
                                only_captures,
                            ),
                            PieceType::King => push_step_moves(
                                board,
                                &mut moves,
                                from,
                                &Directions::KING,
                                only_captures,
                            ),
                        }
                        assert(moves@ == before + board@.piece_moves(from, only_captures));
                    } else {
                        assert(moves@ =~= before + Seq::<Move>::empty());
                    }
                },
                None => {
                    assert(moves@ =~= before + Seq::<Move>::empty());
                },
            },
            None => {},
        }
        k += 1;
    }
    (moves, board.king_of(board.turn))
}

/// The legal moves of the side to move.
pub fn generate_legal_moves(board: &Board) -> (moves: Vec<Move>)
    requires
        board.inv(),
    ensures
        moves@ == board@.legal_moves(false),
{
    board.get_moves(false).0
}

/// The legal moves of the side to move, and all the moves of its pieces
/// whatever they do to the king.
pub fn generate_human_legal_moves(board: &Board) -> (moves: (Vec<Move>, Vec<Move>))
    requires
        board.inv(),
    ensures
        moves.0@ == board@.legal_moves(false),
        moves.1@ == board@.pseudo_moves(false),
{
    let legal_moves = board.get_moves(false).0;
    let pseudo_legal_moves = generate_all_moves(board, false).0;
    (legal_moves, pseudo_legal_moves)
}

impl Position {
    /// Each of the moves is one that a piece can make on this position.
    pub open spec fn all_applicable(self, moves: Seq<Move>) -> bool {
        forall|i: int| 0 <= i < moves.len() ==> self.applicable(#[trigger] moves[i])
    }

    proof fn lemma_step_moves_applicable(
        self,
        from: Square,
        steps: Seq<(i8, i8)>,
        only_captures: bool,
    )
        requires
            self.holds(from, self.turn),
        ensures
            self.all_applicable(self.step_moves(from, steps, only_captures)),
        decreases steps.len(),
    {
        if steps.len() > 0 {
            self.lemma_step_moves_applicable(from, steps.drop_last(), only_captures);
        }
    }

    proof fn lemma_ray_moves_applicable(self, from: Square, line: Seq<Square>, only_captures: bool)
        requires
            self.holds(from, self.turn),
        ensures
            self.all_applicable(self.ray_moves(from, line, only_captures)),
        decreases line.len(),
    {
        if line.len() > 0 && !self.occupied(line[0]) {
            self.lemma_ray_moves_applicable(from, line.drop_first(), only_captures);
        }
    }

    proof fn lemma_slide_moves_applicable(
        self,
        from: Square,
        steps: Seq<(i8, i8)>,
        only_captures: bool,
    )
        requires
            self.holds(from, self.turn),
        ensures
            self.all_applicable(self.slide_moves(from, steps, only_captures)),
        decreases steps.len(),
    {
        if steps.len() > 0 {
            self.lemma_slide_moves_applicable(from, steps.drop_last(), only_captures);
            self.lemma_ray_moves_applicable(
                from,
                ray(from, steps.last().0 as int, steps.last().1 as int),
                only_captures,
            );
        }
    }

    proof fn lemma_pawn_capture_applicable(self, from: Square, side: int, promoting: bool)
        requires
            self.holds(from, self.turn),
            self.pieces[from].kind == PieceType::Pawn,
        ensures
            self.all_applicable(self.pawn_capture_moves(from, side, promoting)),
    {
        let moves = self.pawn_capture_moves(from, side, promoting);
        assert forall|i: int| 0 <= i < moves.len() implies self.applicable(
            #[trigger] moves[i],
        ) by {
            if promoting {
                assert(promotions().contains(promotions()[i]));
            }
        }
    }

    proof fn lemma_pawn_push_applicable(self, from: Square, promoting: bool, only_captures: bool)
        requires
            self.holds(from, self.turn),
            self.pieces[from].kind == PieceType::Pawn,
        ensures
            self.all_applicable(self.pawn_push_moves(from, promoting, only_captures)),
    {
        let moves = self.pawn_push_moves(from, promoting, only_captures);
        assert forall|i: int| 0 <= i < moves.len() implies self.applicable(
            #[trigger] moves[i],
        ) by {
            if promoting {
                assert(promotions().contains(promotions()[i]));
            }
        }
    }

    proof fn lemma_pawn_enpassant_applicable(self, from: Square, side: int)
        requires
            self.consistent(),
            self.holds(from, self.turn),
            side == 1 || side == -1,
        ensures
            self.all_applicable(self.pawn_enpassant_moves(from, side)),
    {
    }

    proof fn lemma_pawn_jump_applicable(self, from: Square, only_captures: bool)
        requires
            self.holds(from, self.turn),
            self.pieces[from].kind == PieceType::Pawn,
        ensures
            self.all_applicable(self.pawn_jump_moves(from, only_captures)),
    {
    }

    proof fn lemma_applicable_concat(self, a: Seq<Move>, b: Seq<Move>)
        requires
            self.all_applicable(a),
            self.all_applicable(b),
        ensures
            self.all_applicable(a + b),
    {
    }

    proof fn lemma_pawn_moves_applicable(self, from: Square, only_captures: bool)
        requires
            self.consistent(),
            self.holds(from, self.turn),
            self.pieces[from].kind == PieceType::Pawn,
        ensures
            self.all_applicable(self.pawn_moves(from, only_captures)),
    {
        let jump = self.pawn_jump_moves(from, only_captures);
        self.lemma_pawn_jump_applicable(from, only_captures);
        if from.rank == self.enemy().get_pawn_rank() {
            let left = self.pawn_capture_moves(from, -1, true);
            let ahead = self.pawn_push_moves(from, true, only_captures);
            let right = self.pawn_capture_moves(from, 1, true);
            self.lemma_pawn_capture_applicable(from, -1, true);
            self.lemma_pawn_capture_applicable(from, 1, true);
            self.lemma_pawn_push_applicable(from, true, only_captures);
            self.lemma_applicable_concat(left, ahead);
            self.lemma_applicable_concat(left + ahead, right);
            self.lemma_applicable_concat(jump, left + ahead + right);
        } else {
            let pass_left = self.pawn_enpassant_moves(from, -1);
            let pass_right = self.pawn_enpassant_moves(from, 1);
            let left = self.pawn_capture_moves(from, -1, false);
            let ahead = self.pawn_push_moves(from, false, only_captures);
            let right = self.pawn_capture_moves(from, 1, false);
            self.lemma_pawn_capture_applicable(from, -1, false);
            self.lemma_pawn_capture_applicable(from, 1, false);
            self.lemma_pawn_push_applicable(from, false, only_captures);
            self.lemma_pawn_enpassant_applicable(from, -1);
            self.lemma_pawn_enpassant_applicable(from, 1);
            self.lemma_applicable_concat(pass_left, pass_right);
            self.lemma_applicable_concat(pass_left + pass_right, left);
            self.lemma_applicable_concat(pass_left + pass_right + left, ahead);
            self.lemma_applicable_concat(pass_left + pass_right + left + ahead, right);
            self.lemma_applicable_concat(
                jump,
                pass_left + pass_right + left + ahead + right,
            );
        }
    }

    proof fn lemma_piece_moves_applicable(self, from: Square, only_captures: bool)
        requires
            self.consistent(),
            self.holds(from, self.turn),
        ensures
            self.all_applicable(self.piece_moves(from, only_captures)),
    {
        match self.pieces[from].kind {
            PieceType::Pawn => self.lemma_pawn_moves_applicable(from, only_captures),
            PieceType::Knight => self.lemma_step_moves_applicable(
                from,
                Directions::KNIGHT@,
                only_captures,
            ),
            PieceType::Bishop => self.lemma_slide_moves_applicable(
                from,
                Directions::BISHOP@,
                only_captures,
            ),
            PieceType::Rook => self.lemma_slide_moves_applicable(
                from,
                Directions::ROOK@,
                only_captures,
            ),
            PieceType::Queen => self.lemma_slide_moves_applicable(
                from,
                Directions::QUEEN@,
                only_captures,
            ),
            PieceType::King => self.lemma_step_moves_applicable(
                from,
                Directions::KING@,
                only_captures,
            ),
        }
    }

    proof fn lemma_pseudo_moves_applicable(self, n: int, only_captures: bool)
        requires
            self.consistent(),
        ensures
            self.all_applicable(self.pseudo_moves_upto(n, only_captures)),
        decreases n,
    {
        if n > 0 {
            self.lemma_pseudo_moves_applicable(n - 1, only_captures);
            if self.holds(Square::at(n - 1), self.turn) {
                self.lemma_piece_moves_applicable(Square::at(n - 1), only_captures);
            }
        }
    }

    /// On a position whose records agree with its placement, every legal
    /// move is one that a piece can make.
    pub proof fn lemma_legal_moves_applicable(self, only_captures: bool)
        requires
            self.consistent(),
        ensures
            self.all_applicable(self.legal_moves(only_captures)),
    {
        reveal(Position::legal_moves);
        let pseudo = self.pseudo_moves(only_captures);
        let kept = pseudo.filter(self.permitted());
        let all = kept + self.castle_moves();
        self.lemma_pseudo_moves_applicable(64, only_captures);
        assert forall|i: int| 0 <= i < kept.len() implies self.applicable(#[trigger] kept[i]) by {
            assert(kept.contains(kept[i]));
            pseudo.lemma_filter_contains_rev(self.permitted(), kept[i]);
        }
        assert(self.all_applicable(self.castle_moves()));
        assert(self.all_applicable(all));
        if only_captures {
            let taken = all.filter(Self::taking());
            assert forall|i: int| 0 <= i < taken.len() implies self.applicable(
                #[trigger] taken[i],
            ) by {
                assert(taken.contains(taken[i]));
                all.lemma_filter_contains_rev(Self::taking(), taken[i]);
            }
        }
    }
}

} // verus!
