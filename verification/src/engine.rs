//! The search for a move: a static evaluation of the position, an ordering
//! of the moves, and a negamax search with alpha-beta pruning that looks
//! on through the captures where its depth ends.

use crate::board::{king_seat, Board};
use crate::play::{passed_pawn_square, relocated, rook_squares};
use crate::position::Position;
use crate::structs::{Color, Move, MoveType, Piece, PieceType, Rank, Square};
use vstd::prelude::*;

verus! {

pub const PAWN_VALUE: i32 = 100;

pub const KNIGHT_VALUE: i32 = 300;

pub const BISHOP_VALUE: i32 = 300;

pub const ROOK_VALUE: i32 = 500;

pub const QUEEN_VALUE: i32 = 900;

/// The material with which the endgame has not yet begun at all: two
/// rooks, a bishop and a knight. The endgame weight is counted in parts
/// of it.
pub const ENDGAME_MATERIAL_START: i32 = 1600;

/// What a piece of the given kind is worth; the king counts for nothing.
pub open spec fn piece_value(kind: PieceType) -> int {
    match kind {
        PieceType::Pawn => 100,
        PieceType::Knight => 300,
        PieceType::Bishop => 300,
        PieceType::Rook => 500,
        PieceType::Queen => 900,
        PieceType::King => 0,
    }
}

/// What the piece on place `i` of the display order adds to the material
/// of the given side.
pub open spec fn worth_at(pieces: Map<Square, Piece>, color: Color, i: int) -> int {
    if pieces.contains_key(Square::at(i)) && pieces[Square::at(i)].color == color {
        piece_value(pieces[Square::at(i)].kind)
    } else {
        0
    }
}

/// The number of pawns, none or one, that place `i` of the display order
/// adds to those of the given side.
pub open spec fn pawn_at(pieces: Map<Square, Piece>, color: Color, i: int) -> int {
    if pieces.contains_key(Square::at(i)) && pieces[Square::at(i)].color == color
        && pieces[Square::at(i)].kind == PieceType::Pawn {
        1
    } else {
        0
    }
}

/// The worth of the pieces of the given side on the first `n` squares of
/// the display order.
pub open spec fn material(pieces: Map<Square, Piece>, color: Color, n: int) -> int
    decreases n,
{
    if n <= 0 {
        0
    } else {
        material(pieces, color, n - 1) + worth_at(pieces, color, n - 1)
    }
}

/// The number of pawns of the given side on the first `n` squares of the
/// display order.
pub open spec fn pawn_count(pieces: Map<Square, Piece>, color: Color, n: int) -> int
    decreases n,
{
    if n <= 0 {
        0
    } else {
        pawn_count(pieces, color, n - 1) + pawn_at(pieces, color, n - 1)
    }
}

/// How far the endgame has come, in parts of 1600: nothing while a side
/// still has the material of two rooks, a bishop and a knight besides its
/// pawns, and the more the less of it is left.
pub open spec fn phase_weight(material_without_pawns: int) -> int {
    if material_without_pawns >= 1600 {
        0
    } else {
        1600 - material_without_pawns
    }
}

pub open spec fn distance(a: int, b: int) -> int {
    if a >= b {
        a - b
    } else {
        b - a
    }
}

/// What the king's place is worth to a side in the endgame, before the
/// weight: the opponent king's distance from the two centre files,
/// counted twice, and 14 less the distance between the kings, counted in
/// files and ranks.
pub open spec fn corner_pressure(friendly: Square, opponent: Square) -> int {
    let file = opponent.file.number();
    let from_center = if 3 - file >= file - 4 {
        3 - file
    } else {
        file - 4
    };
    2 * from_center + 14 - (distance(friendly.file.number(), opponent.file.number())
        + distance(friendly.rank.number(), opponent.rank.number()))
}

/// Ten times the pressure, weighted by `weight` parts of 1600 and rounded
/// to the nearest whole number, a half upwards.
pub open spec fn corner_score(friendly: Square, opponent: Square, weight: int) -> int {
    (corner_pressure(friendly, opponent) * weight + 80) / 160
}

impl Position {
    /// What the given side has on the board: its material, and in the
    /// endgame the place of the kings.
    pub open spec fn side_score(self, color: Color) -> int {
        let worth = material(self.pieces, color, 64);
        worth + corner_score(
            king_seat(self.pieces, color, 64),
            king_seat(self.pieces, color.opposite(), 64),
            phase_weight(worth - 100 * pawn_count(self.pieces, color, 64)),
        )
    }

    /// The static evaluation: what White has less what Black has, seen
    /// from the side to move.
    pub open spec fn eval(self) -> int {
        match self.turn {
            Color::White => self.side_score(Color::White) - self.side_score(Color::Black),
            Color::Black => self.side_score(Color::Black) - self.side_score(Color::White),
        }
    }
}

proof fn lemma_material_bounds(pieces: Map<Square, Piece>, color: Color, n: int)
    requires
        0 <= n,
    ensures
        0 <= pawn_count(pieces, color, n) <= n,
        100 * pawn_count(pieces, color, n) <= material(pieces, color, n) <= 900 * n,
    decreases n,
{
    if n > 0 {
        lemma_material_bounds(pieces, color, n - 1);
    }
}

proof fn lemma_corner_bounds(friendly: Square, opponent: Square, weight: int)
    requires
        0 <= weight <= 1600,
    ensures
        0 <= corner_pressure(friendly, opponent) <= 20,
        0 <= corner_pressure(friendly, opponent) * weight <= 32000,
        0 <= corner_score(friendly, opponent, weight) <= 200,
{
    let pressure = corner_pressure(friendly, opponent);
    assert(0 <= pressure <= 20);
    assert(0 <= pressure * weight <= 32000) by (nonlinear_arith)
        requires
            0 <= pressure <= 20,
            0 <= weight <= 1600,
    ;
}

/// What a piece of the given kind is worth.
pub fn get_piece_value(piece: &PieceType) -> (value: i32)
    ensures
        value == piece_value(*piece),
{
    match piece {
        PieceType::Pawn => PAWN_VALUE,
        PieceType::Knight => KNIGHT_VALUE,
        PieceType::Bishop => BISHOP_VALUE,
        PieceType::Rook => ROOK_VALUE,
        PieceType::Queen => QUEEN_VALUE,
        PieceType::King => 0,
    }
}

/// The material of the given side, and the number of its pawns.
pub fn count_material(board: &Board, color: Color) -> (counted: (i32, i32))
    ensures
        counted.0 == material(board@.pieces, color, 64),
        counted.1 == pawn_count(board@.pieces, color, 64),
{
    let slots = board.mailbox();
    let mut worth: i32 = 0;
    let mut num_pawns: i32 = 0;
    let mut k: usize = 0;
    while k < 64
        invariant
            k <= 64,
            board@.fills(slots@),
            worth == material(board@.pieces, color, k as int),
            num_pawns == pawn_count(board@.pieces, color, k as int),
        decreases 64 - k,
    {
        proof {
            lemma_material_bounds(board@.pieces, color, k as int);
        }
        match slots[k] {
            Some(piece) => {
                if piece.color == color {
                    worth += get_piece_value(&piece.kind);
                    if piece.kind == PieceType::Pawn {
                        num_pawns += 1;
                    }
                }
            },
            None => {},
        }
        k += 1;
    }
    (worth, num_pawns)
}

/// How far the endgame has come for a side with the given material
/// besides its pawns, in parts of 1600.
pub fn endgame_phase_weight(material_without_pawns: i32) -> (weight: i32)
    requires
        material_without_pawns >= 0,
    ensures
        weight == phase_weight(material_without_pawns as int),
        0 <= weight <= 1600,
{
    if material_without_pawns >= ENDGAME_MATERIAL_START {
        0
    } else {
        ENDGAME_MATERIAL_START - material_without_pawns
    }
}

/// What the king's place is worth to the side of the friendly king,
/// before the weight.
fn corner_pressure_of(friendly: &Square, opponent: &Square) -> (pressure: i32)
    ensures
        pressure == corner_pressure(*friendly, *opponent),
        0 <= pressure <= 20,
{
    let friendly_file = i8::from(friendly.file) as i32;
    let friendly_rank = i8::from(friendly.rank) as i32;
    let opponent_file = i8::from(opponent.file) as i32;
    let opponent_rank = i8::from(opponent.rank) as i32;
    let from_center = if 3 - opponent_file >= opponent_file - 4 {
        3 - opponent_file
    } else {
        opponent_file - 4
    };
    let files_apart = if friendly_file >= opponent_file {
        friendly_file - opponent_file
    } else {
        opponent_file - friendly_file
    };
    let ranks_apart = if friendly_rank >= opponent_rank {
        friendly_rank - opponent_rank
    } else {
        opponent_rank - friendly_rank
    };
    2 * from_center + 14 - (files_apart + ranks_apart)
}

/// What the place of the kings is worth to the side of the friendly king,
/// with the endgame weight given in parts of 1600.
pub fn force_king_to_corner_endgame_eval(
    friendly_king_square: &Square,
    opponent_king_square: &Square,
    endgame_weight: i32,
) -> (score: i32)
    requires
        0 <= endgame_weight <= 1600,
    ensures
        score == corner_score(
            *friendly_king_square,
            *opponent_king_square,
            endgame_weight as int,
        ),
{
    let pressure = corner_pressure_of(friendly_king_square, opponent_king_square);
    assert(0 <= pressure * endgame_weight <= 32000) by (nonlinear_arith)
        requires
            0 <= pressure <= 20,
            0 <= endgame_weight <= 1600,
    ;
    let weighted = pressure * endgame_weight;
    (weighted + 80) / 160
}

/// The static evaluation of the position, seen from the side to move.
pub fn eval(board: &Board) -> (score: i32)
    ensures
        score == board@.eval(),
        -60000 <= score <= 60000,
{
    let (white_worth, white_pawns) = count_material(board, Color::White);
    let (black_worth, black_pawns) = count_material(board, Color::Black);
    let white_king = board.find_king(Color::White).1;
    let black_king = board.find_king(Color::Black).1;
    proof {
        lemma_material_bounds(board@.pieces, Color::White, 64);
        lemma_material_bounds(board@.pieces, Color::Black, 64);
    }
    let white_weight = endgame_phase_weight(white_worth - white_pawns * PAWN_VALUE);
    let black_weight = endgame_phase_weight(black_worth - black_pawns * PAWN_VALUE);
    proof {
        lemma_corner_bounds(white_king, black_king, white_weight as int);
        lemma_corner_bounds(black_king, white_king, black_weight as int);
    }
    let white_eval = white_worth + force_king_to_corner_endgame_eval(
        &white_king,
        &black_king,
        white_weight,
    );
    let black_eval = black_worth + force_king_to_corner_endgame_eval(
        &black_king,
        &white_king,
        black_weight,
    );
    match board.turn {
        Color::White => white_eval - black_eval,
        Color::Black => black_eval - white_eval,
    }
}

/// Entry `j` goes before entry `i` when the entries are put in order: its
/// score is higher, or the same and it came first.
pub open spec fn goes_before(scores: Seq<i32>, j: int, i: int) -> bool {
    scores[j] > scores[i] || (scores[j] == scores[i] && j < i)
}

/// How many of the first `n` entries go before entry `i`: the place of
/// entry `i` among them once they are in order.
pub open spec fn place_of(scores: Seq<i32>, i: int, n: int) -> int
    decreases n,
{
    if n <= 0 {
        0
    } else {
        place_of(scores, i, n - 1) + if goes_before(scores, n - 1, i) {
            1int
        } else {
            0int
        }
    }
}

/// The first `n` of `moves` stand in `sorted` by descending score, moves
/// of the same score in the order they had: each move stands at its
/// place, and each place holds the move that belongs there.
pub open spec fn in_order(sorted: Seq<Move>, moves: Seq<Move>, scores: Seq<i32>, n: int) -> bool {
    &&& sorted.len() == n
    &&& forall|i: int|
        0 <= i < n ==> 0 <= #[trigger] place_of(scores, i, n) < n && sorted[place_of(
            scores,
            i,
            n,
        )] == moves[i]
    &&& forall|p: int| 0 <= p < n ==> #[trigger] filled(sorted, moves, scores, n, p)
}

/// Place `p` holds the move that belongs there.
pub open spec fn filled(sorted: Seq<Move>, moves: Seq<Move>, scores: Seq<i32>, n: int, p: int)
    -> bool {
    exists|i: int| 0 <= i < n && #[trigger] place_of(scores, i, n) == p && sorted[p] == moves[i]
}

proof fn lemma_place_bound(scores: Seq<i32>, i: int, n: int)
    requires
        0 <= n,
    ensures
        0 <= place_of(scores, i, n),
        place_of(scores, i, n) <= n - (if 0 <= i < n {
            1int
        } else {
            0int
        }),
    decreases n,
{
    if n > 0 {
        lemma_place_bound(scores, i, n - 1);
    }
}

/// An entry that goes before another has its place before it.
proof fn lemma_places_differ(scores: Seq<i32>, a: int, b: int, n: int)
    requires
        0 <= n,
        0 <= a,
        0 <= b,
        goes_before(scores, a, b),
    ensures
        place_of(scores, b, n) >= place_of(scores, a, n) + (if a < n {
            1int
        } else {
            0int
        }),
    decreases n,
{
    if n > 0 {
        lemma_places_differ(scores, a, b, n - 1);
    }
}

/// How many of the first `n` entries are marked.
spec fn marked(marks: Seq<bool>, n: int) -> int
    decreases n,
{
    if n <= 0 {
        0
    } else {
        marked(marks, n - 1) + if marks[n - 1] {
            1int
        } else {
            0int
        }
    }
}

proof fn lemma_marked_bound(marks: Seq<bool>, n: int)
    requires
        0 <= n <= marks.len(),
    ensures
        0 <= marked(marks, n) <= n,
        marked(marks, n) == n ==> forall|j: int| 0 <= j < n ==> #[trigger] marks[j],
    decreases n,
{
    if n > 0 {
        lemma_marked_bound(marks, n - 1);
    }
}

proof fn lemma_marked_one_more(marks: Seq<bool>, c: int, n: int)
    requires
        0 <= n <= marks.len(),
        0 <= c < marks.len(),
        !marks[c],
    ensures
        marked(marks.update(c, true), n) == marked(marks, n) + (if c < n {
            1int
        } else {
            0int
        }),
    decreases n,
{
    if n > 0 {
        lemma_marked_one_more(marks, c, n - 1);
    }
}

/// The place of an entry is the number of marked entries, if the marked
/// entries are those that go before it.
proof fn lemma_place_is_marked(scores: Seq<i32>, marks: Seq<bool>, c: int, n: int)
    requires
        0 <= n <= marks.len(),
        forall|j: int| 0 <= j < n ==> #[trigger] marks[j] == goes_before(scores, j, c),
    ensures
        place_of(scores, c, n) == marked(marks, n),
    decreases n,
{
    if n > 0 {
        lemma_place_is_marked(scores, marks, c, n - 1);
    }
}

/// Entry `i` has been given its place.
spec fn placed_in(order: Seq<usize>, i: int) -> bool {
    exists|p: int| 0 <= p < order.len() && #[trigger] order[p] == i
}

/// The entries in order: for each place, the index of the entry that
/// belongs there.
fn sort_order(scores: &Vec<i32>, n: usize) -> (order: Vec<usize>)
    requires
        n <= scores.len(),
    ensures
        order.len() == n,
        forall|p: int|
            0 <= p < n ==> (#[trigger] order[p]) < n && place_of(scores@, order[p] as int, n as int)
                == p,
        forall|i: int| 0 <= i < n ==> #[trigger] placed_in(order@, i),
{
    let mut taken: Vec<bool> = Vec::new();
    let mut k: usize = 0;
    while k < n
        invariant
            k <= n,
            taken.len() == k,
            forall|j: int| 0 <= j < k ==> !#[trigger] taken[j],
        decreases n - k,
    {
        taken.push(false);
        k += 1;
    }
    proof {
        lemma_marked_none(taken@, n as int);
    }
    let mut order: Vec<usize> = Vec::new();
    while order.len() < n
        invariant
            order.len() <= n,
            n <= scores.len(),
            taken.len() == n,
            marked(taken@, n as int) == order.len(),
            forall|q: int|
                0 <= q < order.len() ==> (#[trigger] order[q]) < n && taken[order[q] as int]
                    && place_of(scores@, order[q] as int, n as int) == q,
            forall|j: int| 0 <= j < n && #[trigger] taken[j] ==> placed_in(order@, j),
            forall|a: int, b: int|
                0 <= a < n && 0 <= b < n && #[trigger] taken[a] && !#[trigger] taken[b]
                    ==> goes_before(scores@, a, b),
        decreases n - order.len(),
    {
        let mut c: usize = n;
        let mut j: usize = 0;
        while j < n
            invariant
                j <= n,
                c <= n,
                n <= scores.len(),
                taken.len() == n,
                c == n ==> forall|i: int| 0 <= i < j ==> #[trigger] taken[i],
                c < n ==> c < j && !taken[c as int],
                c < n ==> forall|i: int|
                    0 <= i < j && !#[trigger] taken[i] && i != c ==> goes_before(
                        scores@,
                        c as int,
                        i,
                    ),
            decreases n - j,
        {
            if !taken[j] && (c == n || scores[j] > scores[c]) {
                c = j;
            }
            j += 1;
        }
        proof {
            lemma_marked_bound(taken@, n as int);
            if c == n {
                lemma_marked_all(taken@, n as int);
            }
            assert(c < n);
            assert forall|i: int| 0 <= i < n implies #[trigger] taken[i] == goes_before(
                scores@,
                i,
                c as int,
            ) by {}
            lemma_place_is_marked(scores@, taken@, c as int, n as int);
            lemma_marked_one_more(taken@, c as int, n as int);
        }
        let ghost before = taken@;
        let ghost placed = order@;
        taken.set(c, true);
        order.push(c);
        proof {
            assert forall|q: int| 0 <= q < order.len() implies (#[trigger] order[q]) < n
                && taken[order[q] as int] && place_of(scores@, order[q] as int, n as int) == q by {
                if q < placed.len() {
                    assert(order[q] == placed[q]);
                }
            }
            assert forall|i: int| 0 <= i < n && #[trigger] taken[i] implies placed_in(
                order@,
                i,
            ) by {
                if i == c {
                    assert(order[order.len() - 1] == c);
                } else {
                    assert(before[i]);
                    assert(placed_in(placed, i));
                    let q = choose|q: int| 0 <= q < placed.len() && #[trigger] placed[q] == i;
                    assert(order[q] == i);
                }
            }
            assert forall|a: int, b: int|
                0 <= a < n && 0 <= b < n && #[trigger] taken[a] && !#[trigger] taken[b]
                    implies goes_before(scores@, a, b) by {
                assert(!before[b]);
                if a != c {
                    assert(before[a]);
                }
            }
        }
    }
    proof {
        lemma_marked_bound(taken@, n as int);
        assert forall|i: int| 0 <= i < n implies #[trigger] placed_in(order@, i) by {
            assert(taken[i]);
        }
    }
    order
}

proof fn lemma_marked_none(marks: Seq<bool>, n: int)
    requires
        0 <= n <= marks.len(),
        forall|j: int| 0 <= j < n ==> !#[trigger] marks[j],
    ensures
        marked(marks, n) == 0,
    decreases n,
{
    if n > 0 {
        lemma_marked_none(marks, n - 1);
    }
}

proof fn lemma_marked_all(marks: Seq<bool>, n: int)
    requires
        0 <= n <= marks.len(),
        forall|j: int| 0 <= j < n ==> #[trigger] marks[j],
    ensures
        marked(marks, n) == n,
    decreases n,
{
    if n > 0 {
        lemma_marked_all(marks, n - 1);
    }
}

/// The moves by descending score, moves of the same score in the order
/// they had. Where one list is longer than the other, what it has more is
/// left out.
pub fn sort_moves(moves: Vec<Move>, scores: Vec<i32>) -> (sorted: Vec<Move>)
    ensures
        in_order(
            sorted@,
            moves@,
            scores@,
            if moves.len() <= scores.len() {
                moves.len() as int
            } else {
                scores.len() as int
            },
        ),
{
    let n = if moves.len() <= scores.len() {
        moves.len()
    } else {
        scores.len()
    };
    let order = sort_order(&scores, n);
    let mut sorted: Vec<Move> = Vec::new();
    let mut p: usize = 0;
    while p < n
        invariant
            p <= n,
            n <= moves.len(),
            order.len() == n,
            sorted.len() == p,
            forall|q: int| 0 <= q < n ==> (#[trigger] order[q]) < n,
            forall|q: int| 0 <= q < p ==> #[trigger] sorted[q] == moves[order[q] as int],
        decreases n - p,
    {
        sorted.push(moves[order[p]]);
        p += 1;
    }
    proof {
        assert forall|i: int| 0 <= i < n implies 0 <= #[trigger] place_of(scores@, i, n as int) < n
            && sorted@[place_of(scores@, i, n as int)] == moves@[i] by {
            assert(placed_in(order@, i));
            let q = choose|q: int| 0 <= q < n && #[trigger] order[q] == i;
            assert(sorted[q] == moves[order[q] as int]);
        }
        assert forall|q: int| 0 <= q < n implies #[trigger] filled(
            sorted@,
            moves@,
            scores@,
            n as int,
            q,
        ) by {
            let i = order[q] as int;
            assert(sorted[q] == moves[order[q] as int]);
            assert(place_of(scores@, i, n as int) == q);
        }
    }
    sorted
}

impl Position {
    /// The guess at what a move is worth, by which the moves are ordered:
    /// ten times the worth of the piece it takes less the worth of the
    /// piece that takes, and the worth of the kind it promotes to.
    pub open spec fn move_score(self, m: Move) -> int {
        (match m.captured {
            Some(taken) => 10 * piece_value(taken.kind) - piece_value(self.pieces[m.from].kind),
            None => 0,
        }) + (match m.promotion {
            Some(kind) => piece_value(kind),
            None => 0,
        })
    }

    /// The scores of the moves, move by move.
    pub open spec fn move_scores(self, moves: Seq<Move>) -> Seq<i32> {
        Seq::new(moves.len(), |i: int| self.move_score(moves[i]) as i32)
    }
}

/// The moves in the order in which the search tries them: by descending
/// score, moves of the same score in the order they had.
pub fn order_moves(board: &Board, moves: Vec<Move>) -> (ordered: Vec<Move>)
    requires
        forall|i: int|
            0 <= i < moves.len() && (#[trigger] moves[i]).captured.is_some() ==> board@.occupied(
                moves[i].from,
            ),
    ensures
        in_order(ordered@, moves@, board@.move_scores(moves@), moves.len() as int),
{
    let mut scores: Vec<i32> = Vec::new();
    let mut i: usize = 0;
    while i < moves.len()
        invariant
            i <= moves.len(),
            scores.len() == i,
            forall|j: int|
                0 <= j < moves.len() && (#[trigger] moves[j]).captured.is_some()
                    ==> board@.occupied(moves[j].from),
            forall|j: int| 0 <= j < i ==> #[trigger] scores[j] == board@.move_score(moves[j]),
        decreases moves.len() - i,
    {
        let m = moves[i];
        let mut score_guess: i32 = 0;
        match m.captured {
            Some(taken) => match board.piece_at(m.from) {
                Some(mover) => {
                    score_guess = 10 * get_piece_value(&taken.kind) - get_piece_value(&mover.kind);
                },
                None => {},
            },
            None => {},
        }
        match m.promotion {
            Some(kind) => {
                score_guess += get_piece_value(&kind);
            },
            None => {},
        }
        scores.push(score_guess);
        i += 1;
    }
    assert(scores@ =~= board@.move_scores(moves@));
    sort_moves(moves, scores)
}

/// How many of the first `n` squares of the display order are occupied.
pub open spec fn census(pieces: Map<Square, Piece>, n: int) -> nat
    decreases n,
{
    if n <= 0 {
        0
    } else {
        census(pieces, n - 1) + if pieces.contains_key(Square::at(n - 1)) {
            1nat
        } else {
            0nat
        }
    }
}

/// The census lies between nothing and all the squares counted.
pub proof fn lemma_census_bounds(pieces: Map<Square, Piece>, n: int)
    requires
        0 <= n,
    ensures
        0 <= census(pieces, n) <= n,
    decreases n,
{
    if n > 0 {
        lemma_census_bounds(pieces, n - 1);
    }
}

/// Two placements that differ on the square `s` at most differ in their
/// census by what stands on `s`.
proof fn lemma_census_change(before: Map<Square, Piece>, after: Map<Square, Piece>, s: Square, n: int)
    requires
        0 <= n <= 64,
        forall|t: Square| t != s ==> before.contains_key(t) == after.contains_key(t),
    ensures
        census(after, n) == census(before, n) + (if s.slot() < n {
            (if after.contains_key(s) {
                1int
            } else {
                0int
            }) - (if before.contains_key(s) {
                1int
            } else {
                0int
            })
        } else {
            0int
        }),
    decreases n,
{
    if n > 0 {
        lemma_census_change(before, after, s, n - 1);
        Square::lemma_at_slot(n - 1);
        s.lemma_slot_at();
    }
}

impl Position {
    /// A move that a piece can make leaves no more pieces on the board
    /// than there were, and one less if it takes a piece; it adds one to
    /// the count of moves, and one at most to the halfmove clock.
    pub proof fn lemma_census_after(self, m: Move)
        requires
            self.applicable(m),
        ensures
            census(self.apply(m).pieces, 64) == census(self.pieces, 64) - (if m.captured.is_some() {
                1int
            } else {
                0int
            }),
            census(self.pieces, 64) >= 1,
            self.apply(m).fullmove_number == self.fullmove_number + 1,
            self.apply(m).halfmove_clock <= self.halfmove_clock + 1,
    {
        reveal(Position::apply);
        let lifted = self.pieces.remove(m.from);
        let landed = relocated(self.pieces, m);
        m.from.lemma_slot_at();
        m.to.lemma_slot_at();
        lemma_census_change(self.pieces, lifted, m.from, 64);
        lemma_census_change(lifted, landed, m.to, 64);
        lemma_census_bounds(lifted, 64);
        match m.kind {
            MoveType::Enpassant => {
                let victim = passed_pawn_square(m);
                victim.lemma_slot_at();
                lemma_census_change(landed, landed.remove(victim), victim, 64);
            },
            MoveType::Castle => {
                let (rook_from, rook_to) = rook_squares(m);
                rook_from.lemma_slot_at();
                rook_to.lemma_slot_at();
                let without = landed.remove(rook_from);
                lemma_census_change(landed, without, rook_from, 64);
                lemma_census_change(without, without.insert(rook_to, landed[rook_from]), rook_to, 64);
            },
            _ => {},
        }
    }
}

/// The score seen from the other side: its negative, and the highest
/// score for the lowest, which has no negative.
pub open spec fn negate(x: int) -> int {
    if x <= i32::MIN {
        i32::MAX as int
    } else {
        -x
    }
}

/// The score `x` as a search within the bounds reports it: `beta` if it
/// reaches `beta`, `alpha` if it does not exceed `alpha`, and itself
/// between the two.
pub open spec fn bounded(x: int, alpha: int, beta: int) -> int {
    if x >= beta {
        beta
    } else if x > alpha {
        x
    } else {
        alpha
    }
}

/// The score seen from the other side.
pub fn negated(x: i32) -> (y: i32)
    ensures
        y == negate(x as int),
{
    if x == i32::MIN {
        i32::MAX
    } else {
        -x
    }
}

impl Position {
    /// What the position is worth to the side to move when only captures
    /// are looked at: the better of the static evaluation and of the best
    /// capture, each capture being worth to the mover what it leaves the
    /// other side with, seen from the mover.
    pub open spec fn quiesce(self) -> int
        decreases census(self.pieces, 64), 1int, 0int,
    {
        let best = self.best_capture(self.legal_moves(true), self.legal_moves(true).len() as int);
        if best >= self.eval() {
            best
        } else {
            self.eval()
        }
    }

    /// The worth of the best of the first `n` of `moves` when only
    /// captures are looked at, and the lowest score if `n` is 0.
    pub open spec fn best_capture(self, moves: Seq<Move>, n: int) -> int
        decreases census(self.pieces, 64), 0int, n,
    {
        if n <= 0 {
            i32::MIN as int
        } else {
            let before = self.best_capture(moves, n - 1);
            let worth = self.capture_worth(moves[n - 1]);
            if worth >= before {
                worth
            } else {
                before
            }
        }
    }

    /// What the capture `m` is worth to the mover when only captures are
    /// looked at.
    pub open spec fn capture_worth(self, m: Move) -> int
        decreases census(self.pieces, 64), 0int, 0int,
    {
        if census(self.apply(m).pieces, 64) < census(self.pieces, 64) {
            negate(self.apply(m).quiesce())
        } else {
            i32::MIN as int
        }
    }
}

/// The larger of two scores.
pub open spec fn larger(a: int, b: int) -> int {
    if a >= b {
        a
    } else {
        b
    }
}

/// One step of the search within bounds. The search has seen moves
/// whose best is `best` and holds `alpha`; the next move leaves the other
/// side with `q`, of which the search of that side, within the negated
/// bounds, reports `r`. Then the search either meets `beta`, and so does
/// the best with the new move, or goes on with the larger of `alpha` and
/// the negated report, which is what it would hold had it seen the new
/// move's worth itself.
proof fn lemma_window_step(alpha0: int, alpha: int, beta: int, best: int, q: int, r: int)
    requires
        i32::MIN <= alpha0 <= beta <= i32::MAX,
        i32::MIN <= best <= i32::MAX,
        i32::MIN <= q <= i32::MAX,
        alpha == bounded(best, alpha0, beta),
        r == bounded(q, negate(beta), negate(alpha)) || r == q,
    ensures
        negate(r) >= beta ==> bounded(larger(best, negate(q)), alpha0, beta) == beta,
        negate(r) < beta ==> bounded(larger(best, negate(q)), alpha0, beta) == larger(
            alpha,
            negate(r),
        ),
        negate(r) < beta ==> negate(q) < beta,
        alpha < beta && negate(r) >= beta ==> negate(q) >= beta,
        alpha0 == beta && r == bounded(q, negate(beta), negate(alpha)) ==> negate(r) >= beta,
{
}

proof fn lemma_bounded_monotone(x: int, y: int, alpha: int, beta: int)
    requires
        x <= y,
        alpha <= beta,
    ensures
        bounded(x, alpha, beta) <= bounded(y, alpha, beta) <= beta,
{
}

impl Position {
    /// The static evaluation stays far from the ends of the scores.
    pub proof fn lemma_eval_bounds(self)
        ensures
            -60000 <= self.eval() <= 60000,
    {
        lemma_material_bounds(self.pieces, Color::White, 64);
        lemma_material_bounds(self.pieces, Color::Black, 64);
        let white = king_seat(self.pieces, Color::White, 64);
        let black = king_seat(self.pieces, Color::Black, 64);
        lemma_corner_bounds(
            white,
            black,
            phase_weight(
                material(self.pieces, Color::White, 64) - 100 * pawn_count(
                    self.pieces,
                    Color::White,
                    64,
                ),
            ),
        );
        lemma_corner_bounds(
            black,
            white,
            phase_weight(
                material(self.pieces, Color::Black, 64) - 100 * pawn_count(
                    self.pieces,
                    Color::Black,
                    64,
                ),
            ),
        );
    }

    /// The worth of a position when only captures are looked at is a score.
    pub proof fn lemma_quiesce_range(self)
        ensures
            i32::MIN <= self.quiesce() <= i32::MAX,
        decreases census(self.pieces, 64), 1int, 0int,
    {
        self.lemma_eval_bounds();
        self.lemma_best_capture_range(
            self.legal_moves(true),
            self.legal_moves(true).len() as int,
        );
    }

    proof fn lemma_best_capture_range(self, moves: Seq<Move>, n: int)
        ensures
            i32::MIN <= self.best_capture(moves, n) <= i32::MAX,
            forall|k: int| 0 <= k < n ==> #[trigger] self.capture_worth(moves[k])
                <= self.best_capture(moves, n),
            n > 0 ==> exists|k: int|
                0 <= k < n && #[trigger] self.capture_worth(moves[k]) == self.best_capture(
                    moves,
                    n,
                ),
        decreases census(self.pieces, 64), 0int, n,
    {
        if n > 0 {
            self.lemma_best_capture_range(moves, n - 1);
            let m = moves[n - 1];
            if census(self.apply(m).pieces, 64) < census(self.pieces, 64) {
                self.apply(m).lemma_quiesce_range();
            }
            let worth = self.capture_worth(m);
            if n > 1 {
                let k = choose|k: int|
                    0 <= k < n - 1 && #[trigger] self.capture_worth(moves[k]) == self.best_capture(
                        moves,
                        n - 1,
                    );
                assert(self.capture_worth(moves[k]) == self.best_capture(moves, n - 1));
            }
            if worth >= self.best_capture(moves, n - 1) {
                assert(self.capture_worth(moves[n - 1]) == self.best_capture(moves, n));
            }
        }
    }

    /// The best capture among moves that all stand in another list is no
    /// better than the best of that list.
    proof fn lemma_best_capture_within(self, some: Seq<Move>, n: int, all: Seq<Move>)
        requires
            0 <= n <= some.len(),
            forall|k: int| 0 <= k < n ==> all.contains(#[trigger] some[k]),
        ensures
            self.best_capture(some, n) <= self.best_capture(all, all.len() as int),
        decreases n,
    {
        self.lemma_best_capture_range(all, all.len() as int);
        if n > 0 {
            self.lemma_best_capture_within(some, n - 1, all);
            assert(all.contains(some[n - 1]));
            let k = choose|k: int| 0 <= k < all.len() && all[k] == some[n - 1];
            assert(self.capture_worth(all[k]) <= self.best_capture(all, all.len() as int));
        }
    }
}

/// An ordered list holds the moves of the list it was ordered from, and
/// no others.
proof fn lemma_in_order_same_moves(sorted: Seq<Move>, moves: Seq<Move>, scores: Seq<i32>)
    requires
        in_order(sorted, moves, scores, moves.len() as int),
    ensures
        forall|i: int| 0 <= i < moves.len() ==> sorted.contains(#[trigger] moves[i]),
        forall|p: int| 0 <= p < sorted.len() ==> moves.contains(#[trigger] sorted[p]),
{
    let n = moves.len() as int;
    assert forall|i: int| 0 <= i < moves.len() implies sorted.contains(#[trigger] moves[i]) by {
        let p = place_of(scores, i, n);
        assert(sorted[p] == moves[i]);
    }
    assert forall|p: int| 0 <= p < sorted.len() implies moves.contains(#[trigger] sorted[p]) by {
        assert(filled(sorted, moves, scores, n, p));
        let i = choose|i: int| 0 <= i < n && #[trigger] place_of(scores, i, n) == p && sorted[p]
            == moves[i];
        assert(moves[i] == sorted[p]);
    }
}

impl Position {
    /// There is room on the clocks for `depth` moves and then a capture
    /// for every piece on the board.
    pub open spec fn has_room(self, depth: nat) -> bool {
        &&& self.fullmove_number + depth + census(self.pieces, 64) <= u32::MAX
        &&& self.halfmove_clock + depth + census(self.pieces, 64) <= u32::MAX
    }

    /// There is room wherever the clocks leave room for `depth` moves and
    /// one more for each square of the board.
    pub proof fn lemma_has_room(self, depth: nat)
        requires
            self.fullmove_number + depth + 64 <= u32::MAX,
            self.halfmove_clock + depth + 64 <= u32::MAX,
        ensures
            self.has_room(depth),
    {
        lemma_census_bounds(self.pieces, 64);
    }

    /// With `only_captures`, every legal move takes a piece.
    pub proof fn lemma_captures_take(self, i: int)
        requires
            0 <= i < self.legal_moves(true).len(),
        ensures
            self.legal_moves(true)[i].captured.is_some(),
    {
        reveal(Position::legal_moves);
        let all = self.pseudo_moves(true).filter(self.permitted()) + self.castle_moves();
        all.lemma_filter_pred(Self::taking(), i);
    }
}

/// Makes the capture `m`, searches on through the captures for the other
/// side within the bounds, and takes the move back.
fn try_capture(board: &mut Board, m: Move, alpha: i32, beta: i32) -> (report: i32)
    requires
        old(board).well_formed(),
        old(board)@.has_room(0),
        old(board)@.applicable(m),
        m.captured.is_some(),
        alpha <= beta,
    ensures
        final(board).well_formed(),
        final(board)@ == old(board)@,
        report == bounded(old(board)@.apply(m).quiesce(), alpha as int, beta as int),
        old(board)@.capture_worth(m) == negate(old(board)@.apply(m).quiesce()),
    decreases census(old(board)@.pieces, 64), 0int,
{
    let ghost v = board@;
    proof {
        v.lemma_applicable_executable(m);
        v.lemma_apply_consistent(m);
        v.law_undo_restores(m);
        v.lemma_census_after(m);
    }
    let castling_rights = board.saved_rights();
    let enpassant_square = board.enpassant_square;
    let halfmove_clock = board.halfmove_clock;
    board.execute(m);
    let report = search_all_captures(board, alpha, beta);
    board.undo(castling_rights, enpassant_square, halfmove_clock);
    report
}

/// The worth of the position to the side to move when only captures are
/// looked at, as a search within the bounds `alpha` and `beta` reports it.
/// The board is left as it was found.
///
/// Each capture leaves one piece less on the board, so the search ends
/// when there is nothing left to take, at the latest.
pub fn search_all_captures(board: &mut Board, alpha: i32, beta: i32) -> (score: i32)
    requires
        old(board).well_formed(),
        old(board)@.has_room(0),
        alpha <= beta,
    ensures
        final(board).well_formed(),
        final(board)@ == old(board)@,
        score == bounded(old(board)@.quiesce(), alpha as int, beta as int),
    decreases census(old(board)@.pieces, 64), 1int,
{
    let ghost v = board@;
    let ghost legal = v.legal_moves(true);
    let stand = eval(board);
    proof {
        v.lemma_quiesce_range();
        v.lemma_legal_moves_applicable(true);
    }
    if stand >= beta {
        return beta;
    }
    let mut floor = if alpha >= stand {
        alpha
    } else {
        stand
    };
    let captures = board.get_moves(true).0;
    let ordered = order_moves(board, captures);
    proof {
        lemma_in_order_same_moves(ordered@, legal, v.move_scores(legal));
    }
    let mut i: usize = 0;
    while i < ordered.len()
        invariant
            i <= ordered.len(),
            board.well_formed(),
            board@ == v,
            v == old(board)@,
            v.has_room(0),
            legal == v.legal_moves(true),
            v.all_applicable(legal),
            forall|k: int| 0 <= k < ordered.len() ==> legal.contains(#[trigger] ordered[k]),
            alpha <= beta,
            stand == v.eval(),
            floor == bounded(
                larger(stand as int, v.best_capture(ordered@, i as int)),
                alpha as int,
                beta as int,
            ),
        decreases ordered.len() - i,
    {
        let m = ordered[i];
        let ghost best = larger(stand as int, v.best_capture(ordered@, i as int));
        proof {
            assert(legal.contains(ordered[i as int]));
            let k = choose|k: int| 0 <= k < legal.len() && legal[k] == m;
            v.lemma_captures_take(k);
            v.apply(m).lemma_quiesce_range();
            v.lemma_best_capture_range(ordered@, i as int);
            v.lemma_eval_bounds();
        }
        let report = try_capture(board, m, negated(beta), negated(floor));
        let evaluation = negated(report);
        proof {
            lemma_window_step(
                alpha as int,
                floor as int,
                beta as int,
                best,
                v.apply(m).quiesce(),
                report as int,
            );
            assert(larger(best, v.capture_worth(m)) == larger(
                stand as int,
                v.best_capture(ordered@, i + 1),
            ));
        }
        if evaluation >= beta {
            proof {
                let seen = larger(stand as int, v.best_capture(ordered@, i + 1));
                v.lemma_best_capture_within(ordered@, i + 1, legal);
                lemma_bounded_monotone(seen, v.quiesce(), alpha as int, beta as int);
            }
            return beta;
        }
        if evaluation > floor {
            floor = evaluation;
        }
        i += 1;
    }
    proof {
        v.lemma_best_capture_within(ordered@, ordered.len() as int, legal);
        v.lemma_best_capture_within(legal, legal.len() as int, ordered@);
    }
    floor
}

impl Position {
    /// What the position is worth to the side to move, `depth` moves deep:
    /// when only captures are looked at, if `depth` is 0; the lowest score
    /// if the side is mated, and nothing if it has no move without being
    /// in check; and else the worth of its best move.
    pub open spec fn negamax(self, depth: nat) -> int
        decreases depth, 1int, 0int,
    {
        if depth == 0 {
            self.quiesce()
        } else if self.legal_moves(false).len() == 0 {
            if self.in_check() {
                i32::MIN as int
            } else {
                0
            }
        } else {
            self.best_reply(self.legal_moves(false), self.legal_moves(false).len() as int, depth)
        }
    }

    /// What the move `m` is worth to the mover, `depth` moves deep: what
    /// it leaves the other side with, one move less deep, seen from the
    /// mover.
    pub open spec fn reply_worth(self, m: Move, depth: nat) -> int
        decreases depth, 0int, 0int,
    {
        if depth == 0 {
            i32::MIN as int
        } else {
            negate(self.apply(m).negamax((depth - 1) as nat))
        }
    }

    /// The worth of the best of the first `n` of `moves`, and the lowest
    /// score if `n` is 0.
    pub open spec fn best_reply(self, moves: Seq<Move>, n: int, depth: nat) -> int
        decreases depth, 0int, n,
    {
        if n <= 0 {
            i32::MIN as int
        } else {
            larger(self.reply_worth(moves[n - 1], depth), self.best_reply(moves, n - 1, depth))
        }
    }

    /// The side to move has no legal move.
    pub open spec fn stuck(self) -> bool {
        self.legal_moves(false).len() == 0
    }

    /// What a search of `depth` moves within the bounds reports: the
    /// worth of the position as the bounds let it through, and the worth
    /// itself where the side to move has no move.
    pub open spec fn search_score(self, depth: nat, alpha: int, beta: int) -> int {
        if depth > 0 && self.stuck() {
            self.negamax(depth)
        } else {
            bounded(self.negamax(depth), alpha, beta)
        }
    }

    /// Trying the move `m` does not end a search within the bounds: the
    /// move is worth less than `beta`. Where the bounds leave no room
    /// between them, moreover, the move must leave the other side without
    /// a move, two moves deep at least: any other report meets `beta`.
    pub open spec fn passes(self, m: Move, depth: nat, alpha: int, beta: int) -> bool {
        &&& self.reply_worth(m, depth) < beta
        &&& alpha == beta ==> depth >= 2 && self.apply(m).stuck()
    }

    /// A search within the bounds tries every legal move without meeting
    /// `beta`, and so comes to prefer a move.
    pub open spec fn tries_all(self, depth: nat, alpha: int, beta: int) -> bool {
        &&& depth > 0
        &&& !self.stuck()
        &&& forall|k: int|
            0 <= k < self.legal_moves(false).len() ==> self.passes(
                #[trigger] self.legal_moves(false)[k],
                depth,
                alpha,
                beta,
            )
    }

    /// Legal move `k` is the first of the best in the order of trial: it
    /// is worth what the position is worth, and goes before every other
    /// move that is.
    pub open spec fn first_best(self, k: int, depth: nat) -> bool {
        let legal = self.legal_moves(false);
        &&& 0 <= k < legal.len()
        &&& self.reply_worth(legal[k], depth) == self.negamax(depth)
        &&& forall|j: int|
            0 <= j < legal.len() && j != k && #[trigger] self.reply_worth(legal[j], depth)
                == self.negamax(depth) ==> goes_before(self.move_scores(legal), k, j)
    }

    /// The move `m` is the one that a search which has tried every move
    /// prefers: the first of the best in the order of trial where the
    /// position is worth more than `alpha`, and the first legal move
    /// where it is not.
    pub open spec fn prefers(self, m: Move, depth: nat, alpha: int) -> bool {
        if self.negamax(depth) > alpha {
            exists|k: int| #[trigger] self.first_best(k, depth) && self.legal_moves(false)[k] == m
        } else {
            m == self.legal_moves(false)[0]
        }
    }

    /// The worth of a position is a score.
    pub proof fn lemma_negamax_range(self, depth: nat)
        ensures
            i32::MIN <= self.negamax(depth) <= i32::MAX,
        decreases depth, 1int, 0int,
    {
        if depth == 0 {
            self.lemma_quiesce_range();
        } else {
            self.lemma_best_reply_range(
                self.legal_moves(false),
                self.legal_moves(false).len() as int,
                depth,
            );
        }
    }

    proof fn lemma_best_reply_range(self, moves: Seq<Move>, n: int, depth: nat)
        requires
            depth > 0,
        ensures
            i32::MIN <= self.best_reply(moves, n, depth) <= i32::MAX,
            forall|k: int| 0 <= k < n ==> #[trigger] self.reply_worth(moves[k], depth)
                <= self.best_reply(moves, n, depth),
        decreases depth, 0int, n,
    {
        if n > 0 {
            self.lemma_best_reply_range(moves, n - 1, depth);
            self.apply(moves[n - 1]).lemma_negamax_range((depth - 1) as nat);
            let worth = self.reply_worth(moves[n - 1], depth);
            assert(worth == negate(self.apply(moves[n - 1]).negamax((depth - 1) as nat)));
            assert(self.best_reply(moves, n, depth) == larger(
                worth,
                self.best_reply(moves, n - 1, depth),
            ));
        }
    }

    /// The best reply among moves that all stand in another list is no
    /// better than the best of that list.
    proof fn lemma_best_reply_within(self, some: Seq<Move>, n: int, all: Seq<Move>, depth: nat)
        requires
            depth > 0,
            0 <= n <= some.len(),
            forall|k: int| 0 <= k < n ==> all.contains(#[trigger] some[k]),
        ensures
            self.best_reply(some, n, depth) <= self.best_reply(all, all.len() as int, depth),
        decreases n,
    {
        self.lemma_best_reply_range(all, all.len() as int, depth);
        if n > 0 {
            self.lemma_best_reply_within(some, n - 1, all, depth);
            assert(all.contains(some[n - 1]));
            let k = choose|k: int| 0 <= k < all.len() && all[k] == some[n - 1];
            assert(self.reply_worth(all[k], depth) <= self.best_reply(all, all.len() as int, depth));
        }
    }
}

/// Makes the move `m`, searches for the other side one move less deep
/// within the bounds, and takes the move back.
fn try_reply(board: &mut Board, m: Move, depth: usize, alpha: i32, beta: i32) -> (report: i32)
    requires
        old(board).well_formed(),
        depth > 0,
        old(board)@.has_room(depth as nat),
        old(board)@.applicable(m),
        alpha <= beta,
    ensures
        final(board).well_formed(),
        final(board)@ == old(board)@,
        report == old(board)@.apply(m).search_score(
            (depth - 1) as nat,
            alpha as int,
            beta as int,
        ),
    decreases depth, 0int,
{
    let ghost v = board@;
    proof {
        v.lemma_applicable_executable(m);
        v.lemma_apply_consistent(m);
        v.law_undo_restores(m);
        v.lemma_census_after(m);
    }
    let castling_rights = board.saved_rights();
    let enpassant_square = board.enpassant_square;
    let halfmove_clock = board.halfmove_clock;
    board.execute(m);
    let report = search(board, depth - 1, alpha, beta).0;
    board.undo(castling_rights, enpassant_square, halfmove_clock);
    report
}

/// The worth of the position to the side to move, `depth` moves deep, as
/// a search within the bounds `alpha` and `beta` reports it, and the move
/// that the search prefers if it has tried all moves without meeting
/// `beta`. The board is left as it was found.
///
/// A move that mates is worth the highest score there is, and so meets
/// any `beta`: the search then reports `beta` and no move.
pub fn search(board: &mut Board, depth: usize, alpha: i32, beta: i32) -> (found: (
    i32,
    Option<Move>,
))
    requires
        old(board).well_formed(),
        old(board)@.has_room(depth as nat),
        alpha <= beta,
    ensures
        final(board).well_formed(),
        final(board)@ == old(board)@,
        found.0 == old(board)@.search_score(depth as nat, alpha as int, beta as int),
        found.1.is_some() == old(board)@.tries_all(depth as nat, alpha as int, beta as int),
        found.1 matches Some(m) ==> old(board)@.prefers(m, depth as nat, alpha as int),
    decreases depth, 1int,
{
    let ghost v = board@;
    let ghost legal = v.legal_moves(false);
    let ghost deep = depth as nat;
    if depth == 0 {
        return (search_all_captures(board, alpha, beta), None);
    }
    let (moves, in_check) = board.get_moves(false);
    if moves.len() == 0 {
        if in_check {
            return (i32::MIN, None);
        }
        return (0, None);
    }
    proof {
        v.lemma_negamax_range(deep);
        v.lemma_legal_moves_applicable(false);
    }
    let mut best_move = moves[0];
    let ordered = order_moves(board, moves);
    let ghost scores = v.move_scores(legal);
    let ghost count = legal.len() as int;
    proof {
        lemma_in_order_same_moves(ordered@, legal, scores);
    }
    let mut floor = alpha;
    let ghost mut best_at: int = 0;
    let mut i: usize = 0;
    while i < ordered.len()
        invariant
            i <= ordered.len(),
            depth > 0,
            deep == depth,
            board.well_formed(),
            board@ == v,
            v == old(board)@,
            v.has_room(deep),
            legal == v.legal_moves(false),
            scores == v.move_scores(legal),
            count == legal.len(),
            count > 0,
            v.all_applicable(legal),
            in_order(ordered@, legal, scores, count),
            forall|k: int| 0 <= k < ordered.len() ==> legal.contains(#[trigger] ordered[k]),
            alpha <= beta,
            floor == bounded(v.best_reply(ordered@, i as int, deep), alpha as int, beta as int),
            alpha < beta ==> floor < beta,
            i > 0 ==> v.best_reply(ordered@, i as int, deep) < beta,
            forall|p: int|
                0 <= p < i ==> v.passes(#[trigger] ordered[p], deep, alpha as int, beta as int),
            0 <= best_at < count,
            legal[best_at] == best_move,
            floor <= alpha ==> best_at == 0,
            floor > alpha ==> {
                &&& v.reply_worth(best_move, deep) == floor
                &&& floor == v.best_reply(ordered@, i as int, deep)
                &&& place_of(scores, best_at, count) < i
                &&& forall|p: int|
                    0 <= p < place_of(scores, best_at, count) ==> v.reply_worth(
                        #[trigger] ordered[p],
                        deep,
                    ) < floor
            },
        decreases ordered.len() - i,
    {
        let m = ordered[i];
        let ghost best = v.best_reply(ordered@, i as int, deep);
        let ghost below = v.apply(m).negamax((deep - 1) as nat);
        proof {
            assert(legal.contains(ordered[i as int]));
            v.apply(m).lemma_negamax_range((deep - 1) as nat);
            v.lemma_best_reply_range(ordered@, i as int, deep);
        }
        let report = try_reply(board, m, depth, negated(beta), negated(floor));
        let evaluation = negated(report);
        proof {
            lemma_window_step(
                alpha as int,
                floor as int,
                beta as int,
                best,
                below,
                report as int,
            );
            assert(v.reply_worth(m, deep) == negate(below));
            assert(v.best_reply(ordered@, i + 1, deep) == larger(negate(below), best));
        }
        if evaluation >= beta {
            proof {
                v.lemma_best_reply_within(ordered@, i + 1, legal, deep);
                lemma_bounded_monotone(
                    v.best_reply(ordered@, i + 1, deep),
                    v.negamax(deep),
                    alpha as int,
                    beta as int,
                );
                assert(!v.passes(m, deep, alpha as int, beta as int));
                let k = choose|k: int| 0 <= k < legal.len() && legal[k] == m;
                assert(!v.passes(legal[k], deep, alpha as int, beta as int));
            }
            return (beta, None);
        }
        proof {
            assert(v.passes(m, deep, alpha as int, beta as int));
        }
        if evaluation > floor {
            proof {
                assert(filled(ordered@, legal, scores, count, i as int));
                let k = choose|k: int|
                    0 <= k < count && #[trigger] place_of(scores, k, count) == i && ordered@[i as int]
                        == legal[k];
                best_at = k;
                assert forall|p: int| 0 <= p < i implies v.reply_worth(
                    #[trigger] ordered[p],
                    deep,
                ) < evaluation by {}
            }
            floor = evaluation;
            best_move = m;
        }
        i += 1;
    }
    proof {
        v.lemma_best_reply_within(ordered@, ordered.len() as int, legal, deep);
        v.lemma_best_reply_within(legal, legal.len() as int, ordered@, deep);
        assert forall|k: int| 0 <= k < legal.len() implies v.passes(
            #[trigger] legal[k],
            deep,
            alpha as int,
            beta as int,
        ) by {
            let p = place_of(scores, k, count);
            assert(ordered[p] == legal[k]);
        }
        if v.negamax(deep) > alpha {
            assert forall|j: int|
                0 <= j < count && j != best_at && #[trigger] v.reply_worth(legal[j], deep)
                    == v.negamax(deep) implies goes_before(scores, best_at, j) by {
                let p = place_of(scores, j, count);
                assert(ordered[p] == legal[j]);
                if !goes_before(scores, best_at, j) {
                    lemma_places_differ(scores, j, best_at, count);
                }
            }
            assert(v.first_best(best_at, deep));
        }
    }
    (floor, Some(best_move))
}

impl Position {
    /// Pruning changes nothing: within the widest bounds, a search
    /// reports the worth of the position as the full search of every move
    /// finds it.
    pub proof fn law_pruning_is_exact(self, depth: nat)
        ensures
            self.search_score(depth, i32::MIN as int, i32::MAX as int) == self.negamax(depth),
    {
        self.lemma_negamax_range(depth);
    }

    /// The number of ways to play `depth` legal moves on from the position.
    pub open spec fn leaves(self, depth: nat) -> nat
        decreases depth, 1int, 0int,
    {
        if depth == 0 {
            1
        } else {
            self.leaves_after(self.legal_moves(false), self.legal_moves(false).len() as int, depth)
        }
    }

    /// The number of ways to play `depth` legal moves on from the
    /// position, the first of them one of the first `n` of `moves`.
    pub open spec fn leaves_after(self, moves: Seq<Move>, n: int, depth: nat) -> nat
        decreases depth, 0int, n,
    {
        if n <= 0 || depth == 0 {
            0
        } else {
            self.leaves_after(moves, n - 1, depth) + self.apply(moves[n - 1]).leaves(
                (depth - 1) as nat,
            )
        }
    }
}

/// A count as far as a `usize` can hold it.
pub open spec fn capped(count: nat) -> nat {
    if count >= usize::MAX {
        usize::MAX as nat
    } else {
        count
    }
}

/// The number of ways to play `depth` legal moves on from the position,
/// as far as a `usize` can hold it. The board is left as it was found.
pub fn perft(board: &mut Board, depth: usize) -> (count: usize)
    requires
        old(board).well_formed(),
        old(board).fullmove_number + depth <= u32::MAX,
        old(board).halfmove_clock + depth <= u32::MAX,
    ensures
        final(board).well_formed(),
        final(board)@ == old(board)@,
        count == capped(old(board)@.leaves(depth as nat)),
    decreases depth,
{
    if depth == 0 {
        return 1;
    }
    let ghost v = board@;
    let ghost deep = depth as nat;
    let moves = board.get_moves(false).0;
    proof {
        v.lemma_legal_moves_applicable(false);
    }
    let mut count: usize = 0;
    let mut i: usize = 0;
    while i < moves.len()
        invariant
            i <= moves.len(),
            depth > 0,
            deep == depth,
            board.well_formed(),
            board@ == v,
            v == old(board)@,
            v.fullmove_number + depth <= u32::MAX,
            v.halfmove_clock + depth <= u32::MAX,
            moves@ == v.legal_moves(false),
            v.all_applicable(moves@),
            count == capped(v.leaves_after(moves@, i as int, deep)),
        decreases moves.len() - i,
    {
        let m = moves[i];
        proof {
            v.lemma_applicable_executable(m);
            v.lemma_apply_consistent(m);
            v.law_undo_restores(m);
            v.lemma_census_after(m);
        }
        let castling_rights = board.saved_rights();
        let enpassant_square = board.enpassant_square;
        let halfmove_clock = board.halfmove_clock;
        board.execute(m);
        let below = perft(board, depth - 1);
        board.undo(castling_rights, enpassant_square, halfmove_clock);
        assert(board@ == v);
        assert(v.leaves_after(moves@, i + 1, deep) == v.leaves_after(moves@, i as int, deep)
            + v.apply(m).leaves((deep - 1) as nat));
        if count > usize::MAX - below {
            count = usize::MAX;
        } else {
            count += below;
        }
        i += 1;
    }
    count
}

/// The square seen from the other side of the board: the same file, the
/// ranks counted from the far end.
pub open spec fn flipped(s: Square) -> Square {
    Square { file: s.file, rank: Rank::of(7 - s.rank.number()) }
}

/// The piece in the other side's colour.
pub open spec fn recolored(piece: Piece) -> Piece {
    Piece { id: piece.id, kind: piece.kind, color: piece.color.opposite() }
}

/// The move seen from the other side of the board.
pub open spec fn mirrored_move(m: Move) -> Move {
    Move {
        from: flipped(m.from),
        to: flipped(m.to),
        kind: m.kind,
        captured: match m.captured {
            Some(piece) => Some(recolored(piece)),
            None => None,
        },
        promotion: m.promotion,
    }
}

impl Position {
    /// The position with the colours exchanged: every piece in the other
    /// colour on the square seen from the other side, and the other side
    /// to move.
    pub open spec fn mirrored(self) -> Position {
        Position {
            pieces: Map::new(
                |s: Square| self.pieces.contains_key(flipped(s)),
                |s: Square| recolored(self.pieces[flipped(s)]),
            ),
            kings: Map::new(
                |c: Color| self.kings.contains_key(c.opposite()),
                |c: Color| flipped(self.kings[c.opposite()]),
            ),
            turn: self.turn.opposite(),
            castling_rights: Map::new(
                |c: Color| self.castling_rights.contains_key(c.opposite()),
                |c: Color| self.castling_rights[c.opposite()],
            ),
            enpassant_square: match self.enpassant_square {
                Some(s) => Some(flipped(s)),
                None => None,
            },
            halfmove_clock: self.halfmove_clock,
            fullmove_number: self.fullmove_number,
            history: self.history.map_values(|m: Move| mirrored_move(m)),
        }
    }
}

/// The sum of the first `n` values of `f`.
spec fn total(f: spec_fn(int) -> int, n: int) -> int
    decreases n,
{
    if n <= 0 {
        0
    } else {
        total(f, n - 1) + f(n - 1)
    }
}

/// The place, in display order, of the square seen from the other side.
spec fn flipped_place(i: int) -> int {
    (7 - i / 8) * 8 + i % 8
}

proof fn lemma_total_row(f: spec_fn(int) -> int, n: int)
    requires
        0 <= n,
    ensures
        total(f, n + 8) == total(f, n) + f(n) + f(n + 1) + f(n + 2) + f(n + 3) + f(n + 4) + f(
            n + 5,
        ) + f(n + 6) + f(n + 7),
{
    reveal_with_fuel(total, 9);
}

proof fn lemma_total_flipped(f: spec_fn(int) -> int, g: spec_fn(int) -> int)
    requires
        forall|i: int| 0 <= i < 64 ==> #[trigger] g(i) == f(flipped_place(i)),
    ensures
        total(g, 64) == total(f, 64),
{
    lemma_total_row(f, 0);
    lemma_total_row(f, 8);
    lemma_total_row(f, 16);
    lemma_total_row(f, 24);
    lemma_total_row(f, 32);
    lemma_total_row(f, 40);
    lemma_total_row(f, 48);
    lemma_total_row(f, 56);
    lemma_total_row(g, 0);
    lemma_total_row(g, 8);
    lemma_total_row(g, 16);
    lemma_total_row(g, 24);
    lemma_total_row(g, 32);
    lemma_total_row(g, 40);
    lemma_total_row(g, 48);
    lemma_total_row(g, 56);
    assert(total(f, 0) == 0);
    assert(total(g, 0) == 0);
    assert forall|i: int| 0 <= i < 64 implies #[trigger] g(i) == f(flipped_place(i)) by {}
    assert(g(0) == f(56) && g(1) == f(57) && g(2) == f(58) && g(3) == f(59) && g(4) == f(60)
        && g(5) == f(61) && g(6) == f(62) && g(7) == f(63));
    assert(g(8) == f(48) && g(9) == f(49) && g(10) == f(50) && g(11) == f(51) && g(12) == f(52)
        && g(13) == f(53) && g(14) == f(54) && g(15) == f(55));
    assert(g(16) == f(40) && g(17) == f(41) && g(18) == f(42) && g(19) == f(43) && g(20) == f(
        44,
    ) && g(21) == f(45) && g(22) == f(46) && g(23) == f(47));
    assert(g(24) == f(32) && g(25) == f(33) && g(26) == f(34) && g(27) == f(35) && g(28) == f(
        36,
    ) && g(29) == f(37) && g(30) == f(38) && g(31) == f(39));
    assert(g(32) == f(24) && g(33) == f(25) && g(34) == f(26) && g(35) == f(27) && g(36) == f(
        28,
    ) && g(37) == f(29) && g(38) == f(30) && g(39) == f(31));
    assert(g(40) == f(16) && g(41) == f(17) && g(42) == f(18) && g(43) == f(19) && g(44) == f(
        20,
    ) && g(45) == f(21) && g(46) == f(22) && g(47) == f(23));
    assert(g(48) == f(8) && g(49) == f(9) && g(50) == f(10) && g(51) == f(11) && g(52) == f(12)
        && g(53) == f(13) && g(54) == f(14) && g(55) == f(15));
    assert(g(56) == f(0) && g(57) == f(1) && g(58) == f(2) && g(59) == f(3) && g(60) == f(4)
        && g(61) == f(5) && g(62) == f(6) && g(63) == f(7));
}

proof fn lemma_material_is_total(pieces: Map<Square, Piece>, color: Color, n: int)
    ensures
        material(pieces, color, n) == total(|i: int| worth_at(pieces, color, i), n),
        pawn_count(pieces, color, n) == total(|i: int| pawn_at(pieces, color, i), n),
    decreases n,
{
    if n > 0 {
        lemma_material_is_total(pieces, color, n - 1);
    }
}

proof fn lemma_flipped_place(i: int)
    requires
        0 <= i < 64,
    ensures
        0 <= flipped_place(i) < 64,
        Square::at(flipped_place(i)) == flipped(Square::at(i)),
{
}

proof fn lemma_king_seat_found(pieces: Map<Square, Piece>, color: Color, s: Square, n: int)
    requires
        pieces.contains_key(s) && pieces[s].kind == PieceType::King && pieces[s].color == color,
        forall|t: Square| #[trigger]
            pieces.contains_key(t) && pieces[t].kind == PieceType::King && pieces[t].color
                == color ==> t == s,
        s.slot() < n <= 64,
    ensures
        king_seat(pieces, color, n) == s,
    decreases n,
{
    s.lemma_slot_at();
    Square::lemma_at_slot(n - 1);
    if n - 1 > s.slot() {
        lemma_king_seat_found(pieces, color, s, n - 1);
    }
}

impl Position {
    /// The evaluation does not tell the colours apart: the position with
    /// the colours exchanged is worth to its side to move what the
    /// position is worth to the side to move. Seen from White, the
    /// exchange turns the score into its negative.
    pub proof fn law_eval_symmetry(self)
        requires
            self.consistent(),
            self.has(self.kings[Color::White], PieceType::King, Color::White),
            self.has(self.kings[Color::Black], PieceType::King, Color::Black),
        ensures
            self.mirrored().eval() == self.eval(),
            self.mirrored().eval() * self.mirrored().turn.get_multiplier() == -(self.eval()
                * self.turn.get_multiplier()),
    {
        self.lemma_side_score_mirrored(Color::White);
        self.lemma_side_score_mirrored(Color::Black);
        let e = self.eval();
        let m = self.mirrored().eval();
        assert(m == e);
        if self.turn == Color::White {
            assert(m * (-1) == -(e * 1)) by (nonlinear_arith)
                requires
                    m == e,
            ;
        } else {
            assert(m * 1 == -(e * (-1))) by (nonlinear_arith)
                requires
                    m == e,
            ;
        }
    }

    proof fn lemma_side_score_mirrored(self, color: Color)
        requires
            self.consistent(),
            self.has(self.kings[Color::White], PieceType::King, Color::White),
            self.has(self.kings[Color::Black], PieceType::King, Color::Black),
        ensures
            self.mirrored().side_score(color) == self.side_score(color.opposite()),
    {
        let there = self.mirrored().pieces;
        let here = self.pieces;
        let other = color.opposite();
        lemma_material_is_total(there, color, 64);
        lemma_material_is_total(here, other, 64);
        assert forall|i: int| 0 <= i < 64 implies #[trigger] worth_at(there, color, i) == worth_at(
            here,
            other,
            flipped_place(i),
        ) by {
            lemma_flipped_place(i);
        }
        assert forall|i: int| 0 <= i < 64 implies #[trigger] pawn_at(there, color, i) == pawn_at(
            here,
            other,
            flipped_place(i),
        ) by {
            lemma_flipped_place(i);
        }
        lemma_total_flipped(
            |i: int| worth_at(here, other, i),
            |i: int| worth_at(there, color, i),
        );
        lemma_total_flipped(|i: int| pawn_at(here, other, i), |i: int| pawn_at(there, color, i));
        self.lemma_king_seat_mirrored(color);
        self.lemma_king_seat_mirrored(other);
    }

    proof fn lemma_king_seat_mirrored(self, color: Color)
        requires
            self.consistent(),
            self.has(self.kings[Color::White], PieceType::King, Color::White),
            self.has(self.kings[Color::Black], PieceType::King, Color::Black),
        ensures
            king_seat(self.mirrored().pieces, color, 64) == flipped(
                king_seat(self.pieces, color.opposite(), 64),
            ),
    {
        let other = color.opposite();
        let seat = self.kings[other];
        seat.lemma_slot_at();
        flipped(seat).lemma_slot_at();
        assert(flipped(flipped(seat)) == seat);
        assert forall|t: Square| #[trigger]
            self.pieces.contains_key(t) && self.pieces[t].kind == PieceType::King
                && self.pieces[t].color == other implies t == seat by {}
        lemma_king_seat_found(self.pieces, other, seat, 64);
        let there = self.mirrored().pieces;
        assert forall|t: Square| #[trigger]
            there.contains_key(t) && there[t].kind == PieceType::King && there[t].color
                == color implies t == flipped(seat) by {
            assert(self.pieces.contains_key(flipped(t)));
            assert(flipped(flipped(t)) == t);
        }
        lemma_king_seat_found(there, color, flipped(seat), 64);
    }
}

} // verus!
