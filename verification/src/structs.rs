//! Value types of the game: files, ranks, squares, pieces, moves.

use vstd::prelude::*;

pub use crate::board::Board;
pub use self::Color::{Black, White};
pub use self::MoveType::{Capture, Castle, Enpassant, Normal, PawnJump, Promotion, PromotionCapture};
pub use self::PieceType::{Bishop, King, Knight, Pawn, Queen, Rook};

verus! {

/// A column of the board, from the queen's rook file to the king's rook file.
#[derive(Clone, Copy, PartialEq, Eq, Structural, Hash, Debug)]
pub enum File {
    A,
    B,
    C,
    D,
    E,
    F,
    G,
    H,
}

/// A row of the board, counted from White's side.
#[derive(Clone, Copy, PartialEq, Eq, Structural, Hash, Debug)]
pub enum Rank {
    _1,
    _2,
    _3,
    _4,
    _5,
    _6,
    _7,
    _8,
}

impl File {
    /// The file's number, 0 for `A` up to 7 for `H`.
    pub open spec fn number(self) -> int {
        match self {
            File::A => 0,
            File::B => 1,
            File::C => 2,
            File::D => 3,
            File::E => 4,
            File::F => 5,
            File::G => 6,
            File::H => 7,
        }
    }

    /// The file with the given number; `H` stands for every number past 6.
    pub open spec fn of(n: int) -> File {
        if n <= 0 {
            File::A
        } else if n == 1 {
            File::B
        } else if n == 2 {
            File::C
        } else if n == 3 {
            File::D
        } else if n == 4 {
            File::E
        } else if n == 5 {
            File::F
        } else if n == 6 {
            File::G
        } else {
            File::H
        }
    }
}

impl Rank {
    /// The rank's number, 0 for the first rank up to 7 for the eighth.
    pub open spec fn number(self) -> int {
        match self {
            Rank::_1 => 0,
            Rank::_2 => 1,
            Rank::_3 => 2,
            Rank::_4 => 3,
            Rank::_5 => 4,
            Rank::_6 => 5,
            Rank::_7 => 6,
            Rank::_8 => 7,
        }
    }

    /// The rank with the given number; the eighth stands for every number past 6.
    pub open spec fn of(n: int) -> Rank {
        if n <= 0 {
            Rank::_1
        } else if n == 1 {
            Rank::_2
        } else if n == 2 {
            Rank::_3
        } else if n == 3 {
            Rank::_4
        } else if n == 4 {
            Rank::_5
        } else if n == 5 {
            Rank::_6
        } else if n == 6 {
            Rank::_7
        } else {
            Rank::_8
        }
    }
}

impl From<File> for i8 {
    fn from(file: File) -> (n: i8) {
        match file {
            File::A => 0,
            File::B => 1,
            File::C => 2,
            File::D => 3,
            File::E => 4,
            File::F => 5,
            File::G => 6,
            File::H => 7,
        }
    }
}

impl vstd::std_specs::convert::FromSpecImpl<File> for i8 {
    open spec fn obeys_from_spec() -> bool {
        true
    }

    open spec fn from_spec(file: File) -> i8 {
        file.number() as i8
    }
}

impl TryFrom<i8> for File {
    type Error = ();

    fn try_from(value: i8) -> (r: Result<File, ()>) {
        match value {
            0 => Ok(File::A),
            1 => Ok(File::B),
            2 => Ok(File::C),
            3 => Ok(File::D),
            4 => Ok(File::E),
            5 => Ok(File::F),
            6 => Ok(File::G),
            7 => Ok(File::H),
            _ => Err(()),
        }
    }
}

impl vstd::std_specs::convert::TryFromSpecImpl<i8> for File {
    open spec fn obeys_try_from_spec() -> bool {
        true
    }

    open spec fn try_from_spec(value: i8) -> Result<File, ()> {
        if 0 <= value < 8 {
            Ok(File::of(value as int))
        } else {
            Err(())
        }
    }
}

impl From<Rank> for i8 {
    fn from(rank: Rank) -> (n: i8) {
        match rank {
            Rank::_1 => 0,
            Rank::_2 => 1,
            Rank::_3 => 2,
            Rank::_4 => 3,
            Rank::_5 => 4,
            Rank::_6 => 5,
            Rank::_7 => 6,
            Rank::_8 => 7,
        }
    }
}

impl vstd::std_specs::convert::FromSpecImpl<Rank> for i8 {
    open spec fn obeys_from_spec() -> bool {
        true
    }

    open spec fn from_spec(rank: Rank) -> i8 {
        rank.number() as i8
    }
}

impl TryFrom<i8> for Rank {
    type Error = ();

    fn try_from(value: i8) -> (r: Result<Rank, ()>) {
        match value {
            0 => Ok(Rank::_1),
            1 => Ok(Rank::_2),
            2 => Ok(Rank::_3),
            3 => Ok(Rank::_4),
            4 => Ok(Rank::_5),
            5 => Ok(Rank::_6),
            6 => Ok(Rank::_7),
            7 => Ok(Rank::_8),
            _ => Err(()),
        }
    }
}

impl vstd::std_specs::convert::TryFromSpecImpl<i8> for Rank {
    open spec fn obeys_try_from_spec() -> bool {
        true
    }

    open spec fn try_from_spec(value: i8) -> Result<Rank, ()> {
        if 0 <= value < 8 {
            Ok(Rank::of(value as int))
        } else {
            Err(())
        }
    }
}

/// One of the 64 squares of the board.
#[derive(Clone, Copy, PartialEq, Eq, Structural, Hash, Debug)]
pub struct Square {
    pub file: File,
    pub rank: Rank,
}

/// The square on the given file and rank.
pub fn square(file: File, rank: Rank) -> (s: Square)
    ensures
        s == (Square { file, rank }),
{
    Square { file, rank }
}

impl Square {
    /// The square's place in display order: the eighth rank first, each rank
    /// from file `A` to file `H`. `A8` is 0 and `H1` is 63.
    pub open spec fn slot(self) -> int {
        (7 - self.rank.number()) * 8 + self.file.number()
    }

    /// The square at place `i` of the display order.
    pub open spec fn at(i: int) -> Square {
        Square { file: File::of(i % 8), rank: Rank::of(7 - i / 8) }
    }

    /// The square `df` files and `dr` ranks away, if it is on the board.
    pub open spec fn shifted(self, df: int, dr: int) -> Option<Square> {
        let f = self.file.number() + df;
        let r = self.rank.number() + dr;
        if 0 <= f < 8 && 0 <= r < 8 {
            Some(Square { file: File::of(f), rank: Rank::of(r) })
        } else {
            None
        }
    }

    /// The square reached by moving `file_offset` files and `rank_offset`
    /// ranks, or `None` where that leaves the board.
    pub fn offset(&self, file_offset: i8, rank_offset: i8) -> (r: Option<Square>)
        ensures
            r == self.shifted(file_offset as int, rank_offset as int),
    {
        let f: i16 = i8::from(self.file) as i16 + file_offset as i16;
        let r: i16 = i8::from(self.rank) as i16 + rank_offset as i16;
        if 0 <= f && f < 8 && 0 <= r && r < 8 {
            match File::try_from(f as i8) {
                Ok(file) => match Rank::try_from(r as i8) {
                    Ok(rank) => Some(Square { file, rank }),
                    Err(_) => None,
                },
                Err(_) => None,
            }
        } else {
            None
        }
    }

    /// The square's place in display order.
    pub fn index(&self) -> (i: u8)
        ensures
            i == self.slot(),
            i < 64,
    {
        let f: i8 = i8::from(self.file);
        let r: i8 = i8::from(self.rank);
        ((7 - r) * 8 + f) as u8
    }

    /// The square at place `i` of the display order, for `i` below 64.
    pub fn from_index(i: u8) -> (r: Option<Square>)
        ensures
            r == (if i < 64 {
                Some(Square::at(i as int))
            } else {
                None
            }),
    {
        if i >= 64 {
            return None;
        }
        let f: i8 = (i % 8) as i8;
        let r: i8 = 7 - (i / 8) as i8;
        match File::try_from(f) {
            Ok(file) => match Rank::try_from(r) {
                Ok(rank) => Some(Square { file, rank }),
                Err(_) => None,
            },
            Err(_) => None,
        }
    }

    /// The 64 squares in display order.
    pub fn all() -> (squares: Vec<Square>)
        ensures
            squares.len() == 64,
            forall|i: int| 0 <= i < 64 ==> #[trigger] squares[i] == Square::at(i),
    {
        let mut squares: Vec<Square> = Vec::new();
        let mut k: u8 = 0;
        while k < 64
            invariant
                k <= 64,
                squares.len() == k,
                forall|i: int| 0 <= i < k ==> #[trigger] squares[i] == Square::at(i),
            decreases 64 - k,
        {
            match Square::from_index(k) {
                Some(s) => squares.push(s),
                None => {},
            }
            k += 1;
        }
        squares
    }

    /// Every square has a place below 64, and `at` undoes `slot`.
    pub proof fn lemma_slot_at(self)
        ensures
            0 <= self.slot() < 64,
            Square::at(self.slot()) == self,
    {
    }

    /// `slot` undoes `at` on the places below 64.
    pub proof fn lemma_at_slot(i: int)
        requires
            0 <= i < 64,
        ensures
            Square::at(i).slot() == i,
    {
    }
}

/// The side a piece belongs to.
#[derive(Clone, Copy, PartialEq, Eq, Structural, Hash, Debug)]
pub enum Color {
    White,
    Black,
}

impl Color {
    pub open spec fn spec_opposite(self) -> Color {
        match self {
            Color::White => Color::Black,
            Color::Black => Color::White,
        }
    }

    /// The other side.
    #[verifier::when_used_as_spec(spec_opposite)]
    pub fn opposite(self) -> (c: Color)
        ensures
            c == self.spec_opposite(),
    {
        match self {
            Color::White => Color::Black,
            Color::Black => Color::White,
        }
    }

    pub open spec fn spec_get_multiplier(self) -> i8 {
        match self {
            Color::White => 1i8,
            Color::Black => -1i8,
        }
    }

    /// The direction in which this side's pawns advance: 1 up the ranks
    /// for White, -1 for Black.
    #[verifier::when_used_as_spec(spec_get_multiplier)]
    pub fn get_multiplier(self) -> (m: i8)
        ensures
            m == self.spec_get_multiplier(),
    {
        match self {
            Color::White => 1,
            Color::Black => -1,
        }
    }

    pub open spec fn spec_get_piece_rank(self) -> Rank {
        match self {
            Color::White => Rank::_1,
            Color::Black => Rank::_8,
        }
    }

    /// The rank on which this side's pieces start.
    #[verifier::when_used_as_spec(spec_get_piece_rank)]
    pub fn get_piece_rank(self) -> (r: Rank)
        ensures
            r == self.spec_get_piece_rank(),
    {
        match self {
            Color::White => Rank::_1,
            Color::Black => Rank::_8,
        }
    }

    pub open spec fn spec_get_pawn_rank(self) -> Rank {
        match self {
            Color::White => Rank::_2,
            Color::Black => Rank::_7,
        }
    }

    /// The rank on which this side's pawns start.
    #[verifier::when_used_as_spec(spec_get_pawn_rank)]
    pub fn get_pawn_rank(self) -> (r: Rank)
        ensures
            r == self.spec_get_pawn_rank(),
    {
        match self {
            Color::White => Rank::_2,
            Color::Black => Rank::_7,
        }
    }

    pub open spec fn spec_get_enpassant_rank(self) -> Rank {
        match self {
            Color::White => Rank::_3,
            Color::Black => Rank::_6,
        }
    }

    /// The rank that this side's pawns pass over in a double step.
    #[verifier::when_used_as_spec(spec_get_enpassant_rank)]
    pub fn get_enpassant_rank(self) -> (r: Rank)
        ensures
            r == self.spec_get_enpassant_rank(),
    {
        match self {
            Color::White => Rank::_3,
            Color::Black => Rank::_6,
        }
    }

    pub open spec fn spec_get_center_rank(self) -> Rank {
        match self {
            Color::White => Rank::_4,
            Color::Black => Rank::_5,
        }
    }

    /// The rank that this side's pawns reach by a double step.
    #[verifier::when_used_as_spec(spec_get_center_rank)]
    pub fn get_center_rank(self) -> (r: Rank)
        ensures
            r == self.spec_get_center_rank(),
    {
        match self {
            Color::White => Rank::_4,
            Color::Black => Rank::_5,
        }
    }

    pub open spec fn spec_code(self) -> u8 {
        match self {
            Color::White => 0u8,
            Color::Black => 1u8,
        }
    }

    /// The key under which the board's per-side tables hold this side:
    /// 0 for White, 1 for Black.
    #[verifier::when_used_as_spec(spec_code)]
    pub fn code(self) -> (k: u8)
        ensures
            k == self.spec_code(),
    {
        match self {
            Color::White => 0,
            Color::Black => 1,
        }
    }
}

/// What a piece is.
#[derive(Clone, Copy, PartialEq, Eq, Structural, Hash, Debug)]
pub enum PieceType {
    Pawn,
    Knight,
    Bishop,
    Rook,
    Queen,
    King,
}

/// A piece: `id` tells one physical piece from another and stays with it
/// for the whole game; `kind` changes only when a pawn is promoted.
#[derive(Clone, Copy, PartialEq, Eq, Structural, Hash, Debug)]
pub struct Piece {
    pub id: u8,
    pub kind: PieceType,
    pub color: Color,
}

impl Piece {
    pub fn new(id: u8, kind: PieceType, color: Color) -> (p: Piece)
        ensures
            p == (Piece { id, kind, color }),
    {
        Piece { id, kind, color }
    }
}

/// Whether a side may still castle to either wing.
#[derive(Clone, Copy, PartialEq, Eq, Structural, Debug)]
pub struct CastlingRights {
    pub kingside: bool,
    pub queenside: bool,
}

impl CastlingRights {
    pub fn new(kingside: bool, queenside: bool) -> (r: CastlingRights)
        ensures
            r == (CastlingRights { kingside, queenside }),
    {
        CastlingRights { kingside, queenside }
    }
}

/// The seven ways in which a move changes the board.
#[derive(Clone, Copy, PartialEq, Eq, Structural, Debug)]
pub enum MoveType {
    Normal,
    Capture,
    Promotion,
    PromotionCapture,
    PawnJump,
    Enpassant,
    Castle,
}

/// A move, with all that is needed to take it back: the piece it captures
/// and the kind it promotes to.
#[derive(Clone, Copy, PartialEq, Eq, Structural, Debug)]
pub struct Move {
    pub from: Square,
    pub to: Square,
    pub kind: MoveType,
    pub captured: Option<Piece>,
    pub promotion: Option<PieceType>,
}

impl Move {
    /// A piece steps to an empty square.
    pub open spec fn normal(from: Square, to: Square) -> Move {
        Move { from, to, kind: MoveType::Normal, captured: None, promotion: None }
    }

    /// A pawn steps two squares from its starting rank.
    pub open spec fn pawn_jump(from: Square, to: Square) -> Move {
        Move { from, to, kind: MoveType::PawnJump, captured: None, promotion: None }
    }

    /// A piece takes the piece standing on `to`.
    pub open spec fn capture(from: Square, to: Square, captured: Piece) -> Move {
        Move { from, to, kind: MoveType::Capture, captured: Some(captured), promotion: None }
    }

    /// A pawn steps to the last rank and becomes a piece of kind `promotion`.
    pub open spec fn promote(from: Square, to: Square, promotion: PieceType) -> Move {
        Move { from, to, kind: MoveType::Promotion, captured: None, promotion: Some(promotion) }
    }

    /// A pawn takes on the last rank and becomes a piece of kind `promotion`.
    pub open spec fn promote_capture(
        from: Square,
        to: Square,
        captured: Piece,
        promotion: PieceType,
    ) -> Move {
        Move {
            from,
            to,
            kind: MoveType::PromotionCapture,
            captured: Some(captured),
            promotion: Some(promotion),
        }
    }

    /// A pawn takes, in passing, the pawn that stands beside it.
    pub open spec fn enpassant(from: Square, to: Square, captured: Piece) -> Move {
        Move { from, to, kind: MoveType::Enpassant, captured: Some(captured), promotion: None }
    }

    /// The king goes two files towards a rook, which jumps over it.
    pub open spec fn castle(from: Square, to: Square) -> Move {
        Move { from, to, kind: MoveType::Castle, captured: None, promotion: None }
    }

    pub fn from_normal(from: Square, to: Square) -> (m: Move)
        ensures
            m == (Move { from, to, kind: MoveType::Normal, captured: None, promotion: None }),
    {
        Move { from, to, kind: MoveType::Normal, captured: None, promotion: None }
    }

    /// A pawn's double step; `from` and `to` are two ranks apart.
    pub fn from_pawn_jump(from: Square, to: Square) -> (m: Move)
        requires
            from.rank.number() - to.rank.number() == 2 || to.rank.number() - from.rank.number()
                == 2,
        ensures
            m == (Move { from, to, kind: MoveType::PawnJump, captured: None, promotion: None }),
    {
        Move { from, to, kind: MoveType::PawnJump, captured: None, promotion: None }
    }

    pub fn from_capture(from: Square, to: Square, captured: Piece) -> (m: Move)
        ensures
            m == (Move {
                from,
                to,
                kind: MoveType::Capture,
                captured: Some(captured),
                promotion: None,
            }),
    {
        Move { from, to, kind: MoveType::Capture, captured: Some(captured), promotion: None }
    }

    pub fn from_promotion(from: Square, to: Square, promotion: PieceType) -> (m: Move)
        ensures
            m == (Move {
                from,
                to,
                kind: MoveType::Promotion,
                captured: None,
                promotion: Some(promotion),
            }),
    {
        Move { from, to, kind: MoveType::Promotion, captured: None, promotion: Some(promotion) }
    }

    pub fn from_promotion_capture(
        from: Square,
        to: Square,
        captured: Piece,
        promotion: PieceType,
    ) -> (m: Move)
        ensures
            m == (Move {
                from,
                to,
                kind: MoveType::PromotionCapture,
                captured: Some(captured),
                promotion: Some(promotion),
            }),
    {
        Move {
            from,
            to,
            kind: MoveType::PromotionCapture,
            captured: Some(captured),
            promotion: Some(promotion),
        }
    }

    pub fn from_enpassant(from: Square, to: Square, captured: Piece) -> (m: Move)
        ensures
            m == (Move {
                from,
                to,
                kind: MoveType::Enpassant,
                captured: Some(captured),
                promotion: None,
            }),
    {
        Move { from, to, kind: MoveType::Enpassant, captured: Some(captured), promotion: None }
    }

    pub fn from_castle(from: Square, to: Square) -> (m: Move)
        ensures
            m == (Move { from, to, kind: MoveType::Castle, captured: None, promotion: None }),
    {
        Move { from, to, kind: MoveType::Castle, captured: None, promotion: None }
    }
}

/// The steps, as (file, rank) pairs, in which the pieces move.
pub struct Directions {}

impl Directions {
    pub const KNIGHT: [(i8, i8); 8] = [
        (1, 2),
        (2, 1),
        (2, -1),
        (1, -2),
        (-1, -2),
        (-2, -1),
        (-2, 1),
        (-1, 2),
    ];

    pub const BISHOP: [(i8, i8); 4] = [(1, 1), (1, -1), (-1, -1), (-1, 1)];

    pub const ROOK: [(i8, i8); 4] = [(0, 1), (1, 0), (0, -1), (-1, 0)];

    pub const QUEEN: [(i8, i8); 8] = [
        (0, 1),
        (1, 1),
        (1, 0),
        (1, -1),
        (0, -1),
        (-1, -1),
        (-1, 0),
        (-1, 1),
    ];

    pub const KING: [(i8, i8); 8] = Directions::QUEEN;
}

/// The squares of each attack line, line by line.
pub open spec fn view_lines(lines: Seq<Vec<Square>>) -> Seq<Seq<Square>> {
    Seq::new(lines.len(), |i: int| lines[i]@)
}

/// How many steps of (df, dr) the board leaves room for, at most, from `from`.
pub open spec fn ray_room(from: Square, df: int, dr: int) -> int {
    if df > 0 {
        7 - from.file.number()
    } else if df < 0 {
        from.file.number()
    } else if dr > 0 {
        7 - from.rank.number()
    } else {
        from.rank.number()
    }
}

/// The squares met when leaving `from` by steps of (df, dr), the nearest
/// first, up to the edge of the board.
pub open spec fn ray(from: Square, df: int, dr: int) -> Seq<Square>
    decreases ray_room(from, df, dr),
{
    if df == 0 && dr == 0 {
        Seq::empty()
    } else {
        match from.shifted(df, dr) {
            Some(next) => seq![next] + ray(next, df, dr),
            None => Seq::empty(),
        }
    }
}

/// One line of a single square for each step that stays on the board, in
/// the order of the steps.
pub open spec fn step_lines(from: Square, steps: Seq<(i8, i8)>) -> Seq<Seq<Square>>
    decreases steps.len(),
{
    if steps.len() == 0 {
        Seq::empty()
    } else {
        let before = step_lines(from, steps.drop_last());
        match from.shifted(steps.last().0 as int, steps.last().1 as int) {
            Some(to) => before.push(seq![to]),
            None => before,
        }
    }
}

/// One ray for each step that has room for at least one square, in the
/// order of the steps.
pub open spec fn ray_lines(from: Square, steps: Seq<(i8, i8)>) -> Seq<Seq<Square>>
    decreases steps.len(),
{
    if steps.len() == 0 {
        Seq::empty()
    } else {
        let before = ray_lines(from, steps.drop_last());
        let line = ray(from, steps.last().0 as int, steps.last().1 as int);
        if line.len() > 0 {
            before.push(line)
        } else {
            before
        }
    }
}

/// The two diagonal steps in which a pawn of the given side captures.
pub open spec fn pawn_steps(color: Color) -> Seq<(i8, i8)> {
    seq![(-1i8, color.get_multiplier()), (1i8, color.get_multiplier())]
}

/// The attack lines of `piece` standing on `from`: the squares it would
/// reach on a board with nothing in its way. A pawn, a knight and a king
/// have one line of a single square per step; a bishop, a rook and a queen
/// have one ray per direction.
pub open spec fn attack_lines(piece: Piece, from: Square) -> Seq<Seq<Square>> {
    match piece.kind {
        PieceType::Pawn => step_lines(from, pawn_steps(piece.color)),
        PieceType::Knight => step_lines(from, Directions::KNIGHT@),
        PieceType::Bishop => ray_lines(from, Directions::BISHOP@),
        PieceType::Rook => ray_lines(from, Directions::ROOK@),
        PieceType::Queen => ray_lines(from, Directions::QUEEN@),
        PieceType::King => step_lines(from, Directions::KING@),
    }
}

proof fn lemma_view_lines_push(lines: Seq<Vec<Square>>, line: Vec<Square>)
    ensures
        view_lines(lines.push(line)) == view_lines(lines).push(line@),
{
    assert(view_lines(lines.push(line)) =~= view_lines(lines).push(line@));
}

/// The single-square lines of the given steps from `square`.
fn step_attack_lines<const N: usize>(square: Square, steps: &[(i8, i8); N]) -> (lines: Vec<
    Vec<Square>,
>)
    ensures
        view_lines(lines@) == step_lines(square, steps@),
{
    let mut lines: Vec<Vec<Square>> = Vec::new();
    let mut i: usize = 0;
    assert(view_lines(lines@) =~= step_lines(square, steps@.take(0)));
    while i < N
        invariant
            i <= N,
            steps@.len() == N,
            view_lines(lines@) == step_lines(square, steps@.take(i as int)),
        decreases N - i,
    {
        let step = steps[i];
        proof {
            assert(steps@.take(i + 1).drop_last() =~= steps@.take(i as int));
            assert(steps@.take(i + 1).last() == steps@[i as int]);
        }
        match square.offset(step.0, step.1) {
            Some(to) => {
                let mut line: Vec<Square> = Vec::new();
                line.push(to);
                proof {
                    lemma_view_lines_push(lines@, line);
                    assert(line@ =~= seq![to]);
                }
                lines.push(line);
            },
            None => {},
        }
        i += 1;
    }
    assert(steps@.take(N as int) =~= steps@);
    lines
}

/// The ray leaving `square` by steps of (df, dr).
fn ray_from(square: Square, df: i8, dr: i8) -> (line: Vec<Square>)
    ensures
        line@ == ray(square, df as int, dr as int),
{
    let mut line: Vec<Square> = Vec::new();
    if df == 0 && dr == 0 {
        return line;
    }
    let mut current = square;
    let ghost goal = ray(square, df as int, dr as int);
    assert(goal =~= line@ + ray(current, df as int, dr as int));
    loop
        invariant_except_break
            !(df == 0 && dr == 0),
            goal == line@ + ray(current, df as int, dr as int),
        ensures
            line@ == goal,
        decreases ray_room(current, df as int, dr as int),
    {
        let ghost before = line@;
        let ghost rest = ray(current, df as int, dr as int);
        match current.offset(df, dr) {
            Some(next) => {
                assert(rest == seq![next] + ray(next, df as int, dr as int));
                line.push(next);
                assert(before + rest =~= line@ + ray(next, df as int, dr as int));
                current = next;
            },
            None => {
                assert(rest =~= Seq::<Square>::empty());
                assert(before + rest =~= line@);
                break ;
            },
        }
    }
    line
}

/// The rays of the given steps from `square`.
fn ray_attack_lines<const N: usize>(square: Square, steps: &[(i8, i8); N]) -> (lines: Vec<
    Vec<Square>,
>)
    ensures
        view_lines(lines@) == ray_lines(square, steps@),
{
    let mut lines: Vec<Vec<Square>> = Vec::new();
    let mut i: usize = 0;
    assert(view_lines(lines@) =~= ray_lines(square, steps@.take(0)));
    while i < N
        invariant
            i <= N,
            steps@.len() == N,
            view_lines(lines@) == ray_lines(square, steps@.take(i as int)),
        decreases N - i,
    {
        let step = steps[i];
        proof {
            assert(steps@.take(i + 1).drop_last() =~= steps@.take(i as int));
            assert(steps@.take(i + 1).last() == steps@[i as int]);
        }
        let line = ray_from(square, step.0, step.1);
        if line.len() > 0 {
            proof {
                lemma_view_lines_push(lines@, line);
            }
            lines.push(line);
        }
        i += 1;
    }
    assert(steps@.take(N as int) =~= steps@);
    lines
}

impl Piece {
    /// The attack lines of this piece standing on `square`.
    pub fn get_attack_lines(&self, square: Square) -> (lines: Vec<Vec<Square>>)
        ensures
            view_lines(lines@) == attack_lines(*self, square),
    {
        match self.kind {
            PieceType::Pawn => {
                let forward = self.color.get_multiplier();
                let steps: [(i8, i8); 2] = [(-1, forward), (1, forward)];
                assert(steps@ =~= pawn_steps(self.color));
                step_attack_lines(square, &steps)
            },
            PieceType::Knight => step_attack_lines(square, &Directions::KNIGHT),
            PieceType::Bishop => ray_attack_lines(square, &Directions::BISHOP),
            PieceType::Rook => ray_attack_lines(square, &Directions::ROOK),
            PieceType::Queen => ray_attack_lines(square, &Directions::QUEEN),
            PieceType::King => step_attack_lines(square, &Directions::KING),
        }
    }
}

} // verus!
