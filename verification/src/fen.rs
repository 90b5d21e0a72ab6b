//! Positions written in Forsyth-Edwards notation: six fields parted by
//! single spaces, which give the placement rank by rank from the eighth,
//! the side to move, the castling rights, the en passant square and the
//! two clocks.

use crate::board::{layout_fault, Board, BoardError};
use crate::notation::{square_from_chars, square_of_text};
use crate::structs::{CastlingRights, Color, Piece, PieceType, Square};
use vstd::prelude::*;
use vstd::string::StrSliceExecFns;

verus! {

/// Why a text is not a position.
#[derive(Clone, Copy, PartialEq, Eq, Structural, Debug)]
pub enum FenError {
    /// The text does not have six fields.
    SectionCount,
    /// The placement does not have eight ranks of eight squares, or names
    /// a piece that does not exist.
    Placement,
    /// The side to move is neither `w` nor `b`.
    SideToMove,
    /// The castling rights are neither `-` nor made of `K`, `Q`, `k`, `q`.
    Castling,
    /// The en passant square is neither `-` nor a square.
    EnPassant,
    /// The halfmove clock is not a number that fits.
    HalfmoveClock,
    /// The count of moves is not a number that fits.
    FullmoveNumber,
    /// The text is well written, but what it describes is no position.
    Layout(BoardError),
}

impl FenError {
    /// What is wrong, in words.
    pub open spec fn text(self) -> Seq<char> {
        match self {
            FenError::SectionCount => "the text does not have six fields"@,
            FenError::Placement => "the placement is not eight ranks of eight squares"@,
            FenError::SideToMove => "the side to move is neither w nor b"@,
            FenError::Castling => "the castling rights are not written in K, Q, k and q"@,
            FenError::EnPassant => "the en passant square is no square"@,
            FenError::HalfmoveClock => "the halfmove clock is no number that fits"@,
            FenError::FullmoveNumber => "the count of moves is no number that fits"@,
            FenError::Layout(fault) => fault.text(),
        }
    }

    /// What is wrong, in words.
    pub fn describe(&self) -> (text: String)
        ensures
            text@ == self.text(),
    {
        match self {
            FenError::SectionCount => "the text does not have six fields".to_owned(),
            FenError::Placement => "the placement is not eight ranks of eight squares".to_owned(),
            FenError::SideToMove => "the side to move is neither w nor b".to_owned(),
            FenError::Castling => "the castling rights are not written in K, Q, k and q".to_owned(),
            FenError::EnPassant => "the en passant square is no square".to_owned(),
            FenError::HalfmoveClock => "the halfmove clock is no number that fits".to_owned(),
            FenError::FullmoveNumber => "the count of moves is no number that fits".to_owned(),
            FenError::Layout(fault) => fault.describe(),
        }
    }
}

/// The parts of `text` between the occurrences of `sep`.
pub open spec fn split(text: Seq<char>, sep: char) -> Seq<Seq<char>>
    decreases text.len(),
{
    if text.len() == 0 {
        seq![Seq::empty()]
    } else {
        let before = split(text.drop_last(), sep);
        if text.last() == sep {
            before.push(Seq::empty())
        } else {
            before.update(before.len() - 1, before.last().push(text.last()))
        }
    }
}

/// The texts of the parts, part by part.
pub open spec fn view_parts(parts: Seq<Vec<char>>) -> Seq<Seq<char>> {
    Seq::new(parts.len(), |i: int| parts[i]@)
}

proof fn lemma_split_never_empty(text: Seq<char>, sep: char)
    ensures
        split(text, sep).len() >= 1,
    decreases text.len(),
{
    if text.len() > 0 {
        lemma_split_never_empty(text.drop_last(), sep);
    }
}

/// The characters of a text.
fn chars_of(text: &str) -> (chars: Vec<char>)
    ensures
        chars@ == text@,
{
    let n = text.unicode_len();
    let mut chars: Vec<char> = Vec::new();
    let mut i: usize = 0;
    while i < n
        invariant
            i <= n,
            n == text@.len(),
            chars@ == text@.take(i as int),
        decreases n - i,
    {
        chars.push(text.get_char(i));
        assert(chars@ =~= text@.take(i + 1));
        i += 1;
    }
    assert(text@.take(n as int) =~= text@);
    chars
}

/// The parts of `text` between the occurrences of `sep`.
fn split_text(text: &Vec<char>, sep: char) -> (parts: Vec<Vec<char>>)
    ensures
        view_parts(parts@) == split(text@, sep),
{
    let mut parts: Vec<Vec<char>> = Vec::new();
    let mut current: Vec<char> = Vec::new();
    let mut i: usize = 0;
    assert(view_parts(parts@).push(current@) =~= split(text@.take(0), sep));
    while i < text.len()
        invariant
            i <= text.len(),
            view_parts(parts@).push(current@) == split(text@.take(i as int), sep),
        decreases text.len() - i,
    {
        let c = text[i];
        let ghost before = split(text@.take(i as int), sep);
        proof {
            assert(text@.take(i + 1).drop_last() =~= text@.take(i as int));
            assert(text@.take(i + 1).last() == c);
        }
        if c == sep {
            parts.push(current);
            current = Vec::new();
            assert(view_parts(parts@) =~= before);
        } else {
            current.push(c);
            assert(view_parts(parts@).push(current@) =~= before.update(
                before.len() - 1,
                before.last().push(c),
            ));
        }
        i += 1;
    }
    assert(text@.take(text.len() as int) =~= text@);
    parts.push(current);
    assert(view_parts(parts@) =~= split(text@, sep));
    parts
}

/// The piece that a letter names: a white one in upper case, a black one
/// in lower case.
pub open spec fn piece_of_letter(c: char) -> Option<(PieceType, Color)> {
    if c == 'P' {
        Some((PieceType::Pawn, Color::White))
    } else if c == 'N' {
        Some((PieceType::Knight, Color::White))
    } else if c == 'B' {
        Some((PieceType::Bishop, Color::White))
    } else if c == 'R' {
        Some((PieceType::Rook, Color::White))
    } else if c == 'Q' {
        Some((PieceType::Queen, Color::White))
    } else if c == 'K' {
        Some((PieceType::King, Color::White))
    } else if c == 'p' {
        Some((PieceType::Pawn, Color::Black))
    } else if c == 'n' {
        Some((PieceType::Knight, Color::Black))
    } else if c == 'b' {
        Some((PieceType::Bishop, Color::Black))
    } else if c == 'r' {
        Some((PieceType::Rook, Color::Black))
    } else if c == 'q' {
        Some((PieceType::Queen, Color::Black))
    } else if c == 'k' {
        Some((PieceType::King, Color::Black))
    } else {
        None
    }
}

/// The number that a digit stands for.
pub open spec fn digit_value(c: char) -> Option<nat> {
    if c == '0' {
        Some(0)
    } else if c == '1' {
        Some(1)
    } else if c == '2' {
        Some(2)
    } else if c == '3' {
        Some(3)
    } else if c == '4' {
        Some(4)
    } else if c == '5' {
        Some(5)
    } else if c == '6' {
        Some(6)
    } else if c == '7' {
        Some(7)
    } else if c == '8' {
        Some(8)
    } else if c == '9' {
        Some(9)
    } else {
        None
    }
}

/// What a rank of the placement says of its squares, from file `a` on: a
/// letter sets a piece on the next square, a digit from 1 to 8 leaves so
/// many squares empty. `None` if the rank holds anything else.
pub open spec fn cells(rank: Seq<char>) -> Option<Seq<Option<(PieceType, Color)>>>
    decreases rank.len(),
{
    if rank.len() == 0 {
        Some(Seq::empty())
    } else {
        match cells(rank.drop_last()) {
            Some(before) => {
                if piece_of_letter(rank.last()).is_some() {
                    Some(before.push(piece_of_letter(rank.last())))
                } else {
                    match digit_value(rank.last()) {
                        Some(gap) => if 1 <= gap <= 8 {
                            Some(before + Seq::new(gap, |i: int| None))
                        } else {
                            None
                        },
                        None => None,
                    }
                }
            },
            None => None,
        }
    }
}

/// What the first `n` ranks say of their squares, rank after rank, if
/// each of them is a rank of eight squares.
pub open spec fn grid(ranks: Seq<Seq<char>>, n: int) -> Option<Seq<Option<(PieceType, Color)>>>
    decreases n,
{
    if n <= 0 {
        Some(Seq::empty())
    } else {
        match (grid(ranks, n - 1), cells(ranks[n - 1])) {
            (Some(above), Some(here)) => if here.len() == 8 {
                Some(above + here)
            } else {
                None
            },
            _ => None,
        }
    }
}

/// The pieces on the first `n` squares of the display order with their
/// squares, each piece with the number of pieces before it as identity.
pub open spec fn listed(squares: Seq<Option<(PieceType, Color)>>, n: int) -> Seq<(Square, Piece)>
    decreases n,
{
    if n <= 0 {
        Seq::empty()
    } else {
        let before = listed(squares, n - 1);
        match squares[n - 1] {
            Some((kind, color)) => before.push(
                (Square::at(n - 1), Piece { id: before.len() as u8, kind, color }),
            ),
            None => before,
        }
    }
}

/// The placement that the first field describes: eight ranks parted by
/// `/`, from the eighth rank down.
pub open spec fn placement_of(field: Seq<char>) -> Option<Seq<(Square, Piece)>> {
    let ranks = split(field, '/');
    if ranks.len() == 8 {
        match grid(ranks, 8) {
            Some(squares) => Some(listed(squares, 64)),
            None => None,
        }
    } else {
        None
    }
}

fn letter_piece(c: char) -> (piece: Option<(PieceType, Color)>)
    ensures
        piece == piece_of_letter(c),
{
    if c == 'P' {
        Some((PieceType::Pawn, Color::White))
    } else if c == 'N' {
        Some((PieceType::Knight, Color::White))
    } else if c == 'B' {
        Some((PieceType::Bishop, Color::White))
    } else if c == 'R' {
        Some((PieceType::Rook, Color::White))
    } else if c == 'Q' {
        Some((PieceType::Queen, Color::White))
    } else if c == 'K' {
        Some((PieceType::King, Color::White))
    } else if c == 'p' {
        Some((PieceType::Pawn, Color::Black))
    } else if c == 'n' {
        Some((PieceType::Knight, Color::Black))
    } else if c == 'b' {
        Some((PieceType::Bishop, Color::Black))
    } else if c == 'r' {
        Some((PieceType::Rook, Color::Black))
    } else if c == 'q' {
        Some((PieceType::Queen, Color::Black))
    } else if c == 'k' {
        Some((PieceType::King, Color::Black))
    } else {
        None
    }
}

fn digit(c: char) -> (value: Option<u8>)
    ensures
        value.is_some() == digit_value(c).is_some(),
        value matches Some(v) ==> digit_value(c) == Some(v as nat),
{
    if c == '0' {
        Some(0)
    } else if c == '1' {
        Some(1)
    } else if c == '2' {
        Some(2)
    } else if c == '3' {
        Some(3)
    } else if c == '4' {
        Some(4)
    } else if c == '5' {
        Some(5)
    } else if c == '6' {
        Some(6)
    } else if c == '7' {
        Some(7)
    } else if c == '8' {
        Some(8)
    } else if c == '9' {
        Some(9)
    } else {
        None
    }
}

proof fn lemma_cells_fail_for_good(rank: Seq<char>, n: int)
    requires
        0 <= n <= rank.len(),
        cells(rank.take(n)).is_none(),
    ensures
        cells(rank).is_none(),
    decreases rank.len() - n,
{
    if n < rank.len() {
        assert(rank.take(n + 1).drop_last() =~= rank.take(n));
        lemma_cells_fail_for_good(rank, n + 1);
    } else {
        assert(rank.take(n) =~= rank);
    }
}

/// What a rank of the placement says of its squares.
fn rank_cells(rank: &Vec<char>) -> (found: Option<Vec<Option<(PieceType, Color)>>>)
    ensures
        found.is_some() == cells(rank@).is_some(),
        found matches Some(squares) ==> cells(rank@) == Some(squares@),
{
    let mut squares: Vec<Option<(PieceType, Color)>> = Vec::new();
    let mut i: usize = 0;
    assert(cells(rank@.take(0)) == Some(squares@));
    while i < rank.len()
        invariant
            i <= rank.len(),
            cells(rank@.take(i as int)) == Some(squares@),
        decreases rank.len() - i,
    {
        let c = rank[i];
        let ghost before = squares@;
        proof {
            assert(rank@.take(i + 1).drop_last() =~= rank@.take(i as int));
            assert(rank@.take(i + 1).last() == c);
        }
        match letter_piece(c) {
            Some(piece) => {
                squares.push(Some(piece));
            },
            None => match digit(c) {
                Some(gap) => {
                    if 1 <= gap && gap <= 8 {
                        let mut k: u8 = 0;
                        while k < gap
                            invariant
                                k <= gap,
                                squares@ == before + Seq::new(
                                    k as nat,
                                    |i: int| None::<(PieceType, Color)>,
                                ),
                            decreases gap - k,
                        {
                            squares.push(None);
                            assert(squares@ =~= before + Seq::new(
                                (k + 1) as nat,
                                |i: int| None::<(PieceType, Color)>,
                            ));
                            k += 1;
                        }
                    } else {
                        proof {
                            lemma_cells_fail_for_good(rank@, i + 1);
                        }
                        return None;
                    }
                },
                None => {
                    proof {
                        lemma_cells_fail_for_good(rank@, i + 1);
                    }
                    return None;
                },
            },
        }
        i += 1;
    }
    assert(rank@.take(rank.len() as int) =~= rank@);
    Some(squares)
}

proof fn lemma_grid_fails_for_good(ranks: Seq<Seq<char>>, n: int, m: int)
    requires
        0 <= n <= m,
        grid(ranks, n).is_none(),
    ensures
        grid(ranks, m).is_none(),
    decreases m - n,
{
    if n < m {
        lemma_grid_fails_for_good(ranks, n, m - 1);
    }
}

proof fn lemma_grid_size(ranks: Seq<Seq<char>>, n: int)
    requires
        0 <= n,
        grid(ranks, n).is_some(),
    ensures
        grid(ranks, n).unwrap().len() == 8 * n,
    decreases n,
{
    if n > 0 {
        lemma_grid_size(ranks, n - 1);
    }
}

proof fn lemma_listed_size(squares: Seq<Option<(PieceType, Color)>>, n: int)
    requires
        0 <= n,
    ensures
        listed(squares, n).len() <= n,
    decreases n,
{
    if n > 0 {
        lemma_listed_size(squares, n - 1);
    }
}

/// The placement that the first field describes.
fn read_placement(field: &Vec<char>) -> (found: Option<Vec<(Square, Piece)>>)
    ensures
        found.is_some() == placement_of(field@).is_some(),
        found matches Some(placement) ==> placement_of(field@) == Some(placement@),
{
    let ranks = split_text(field, '/');
    assert(ranks@.len() == view_parts(ranks@).len());
    if ranks.len() != 8 {
        return None;
    }
    let ghost texts = split(field@, '/');
    let mut squares: Vec<Option<(PieceType, Color)>> = Vec::new();
    let mut r: usize = 0;
    while r < 8
        invariant
            r <= 8,
            ranks@.len() == 8,
            view_parts(ranks@) == texts,
            texts == split(field@, '/'),
            grid(texts, r as int) == Some(squares@),
        decreases 8 - r,
    {
        assert(ranks[r as int]@ == texts[r as int]);
        match rank_cells(&ranks[r]) {
            Some(mut here) => {
                if here.len() != 8 {
                    proof {
                        assert(grid(texts, r + 1).is_none());
                        lemma_grid_fails_for_good(texts, r + 1, 8);
                    }
                    return None;
                }
                let ghost above = squares@;
                let ghost row = here@;
                squares.append(&mut here);
                assert(squares@ =~= above + row);
            },
            None => {
                proof {
                    assert(grid(texts, r + 1).is_none());
                    lemma_grid_fails_for_good(texts, r + 1, 8);
                }
                return None;
            },
        }
        r += 1;
    }
    proof {
        lemma_grid_size(texts, 8);
    }
    let mut placement: Vec<(Square, Piece)> = Vec::new();
    let mut k: u8 = 0;
    while k < 64
        invariant
            k <= 64,
            squares.len() == 64,
            placement@ == listed(squares@, k as int),
        decreases 64 - k,
    {
        proof {
            lemma_listed_size(squares@, k as int);
        }
        match (Square::from_index(k), squares[k as usize]) {
            (Some(s), Some((kind, color))) => {
                let id = placement.len() as u8;
                placement.push((s, Piece { id, kind, color }));
            },
            _ => {},
        }
        k += 1;
    }
    Some(placement)
}

/// The side to move that the second field names.
pub open spec fn turn_of(field: Seq<char>) -> Option<Color> {
    if field == seq!['w'] {
        Some(Color::White)
    } else if field == seq!['b'] {
        Some(Color::Black)
    } else {
        None
    }
}

/// One of the four letters that grant a castling right.
pub open spec fn rights_letter(c: char) -> bool {
    c == 'K' || c == 'Q' || c == 'k' || c == 'q'
}

/// The castling rights of White and of Black that the third field
/// grants: none for `-`, and else one for each of the letters `K`, `Q`,
/// `k` and `q` that it holds.
pub open spec fn castling_of(field: Seq<char>) -> Option<(CastlingRights, CastlingRights)> {
    if field == seq!['-'] {
        Some(
            (
                CastlingRights { kingside: false, queenside: false },
                CastlingRights { kingside: false, queenside: false },
            ),
        )
    } else if field.len() > 0 && forall|i: int|
        0 <= i < field.len() ==> rights_letter(#[trigger] field[i]) {
        Some(
            (
                CastlingRights { kingside: field.contains('K'), queenside: field.contains('Q') },
                CastlingRights { kingside: field.contains('k'), queenside: field.contains('q') },
            ),
        )
    } else {
        None
    }
}

/// The en passant square that the fourth field names: none for `-`.
pub open spec fn enpassant_of(field: Seq<char>) -> Option<Option<Square>> {
    if field == seq!['-'] {
        Some(None)
    } else {
        match square_of_text(field) {
            Some(s) => Some(Some(s)),
            None => None,
        }
    }
}

/// The number that decimal digits write; the empty text writes 0.
pub open spec fn digits(text: Seq<char>) -> Option<nat>
    decreases text.len(),
{
    if text.len() == 0 {
        Some(0)
    } else {
        match (digits(text.drop_last()), digit_value(text.last())) {
            (Some(before), Some(last)) => Some(10 * before + last),
            _ => None,
        }
    }
}

/// The clock that a field writes: a number in decimal digits, one at
/// least, that a `u32` can hold.
pub open spec fn clock_of(field: Seq<char>) -> Option<u32> {
    if field.len() == 0 {
        None
    } else {
        match digits(field) {
            Some(value) => if value <= u32::MAX {
                Some(value as u32)
            } else {
                None
            },
            None => None,
        }
    }
}

/// What a text describes.
pub struct Layout {
    pub placement: Seq<(Square, Piece)>,
    pub turn: Color,
    pub white: CastlingRights,
    pub black: CastlingRights,
    pub enpassant_square: Option<Square>,
    pub halfmove_clock: u32,
    pub fullmove_number: u32,
}

/// What the text describes, or the first of its fields that is not well
/// written.
pub open spec fn layout_of(text: Seq<char>) -> Result<Layout, FenError> {
    let fields = split(text, ' ');
    if fields.len() != 6 {
        Err(FenError::SectionCount)
    } else if placement_of(fields[0]).is_none() {
        Err(FenError::Placement)
    } else if turn_of(fields[1]).is_none() {
        Err(FenError::SideToMove)
    } else if castling_of(fields[2]).is_none() {
        Err(FenError::Castling)
    } else if enpassant_of(fields[3]).is_none() {
        Err(FenError::EnPassant)
    } else if clock_of(fields[4]).is_none() {
        Err(FenError::HalfmoveClock)
    } else if clock_of(fields[5]).is_none() {
        Err(FenError::FullmoveNumber)
    } else {
        Ok(
            Layout {
                placement: placement_of(fields[0]).unwrap(),
                turn: turn_of(fields[1]).unwrap(),
                white: castling_of(fields[2]).unwrap().0,
                black: castling_of(fields[2]).unwrap().1,
                enpassant_square: enpassant_of(fields[3]).unwrap(),
                halfmove_clock: clock_of(fields[4]).unwrap(),
                fullmove_number: clock_of(fields[5]).unwrap(),
            },
        )
    }
}

fn read_turn(field: &Vec<char>) -> (found: Option<Color>)
    ensures
        found == turn_of(field@),
{
    if field.len() == 1 && field[0] == 'w' {
        assert(field@ =~= seq!['w']);
        Some(Color::White)
    } else if field.len() == 1 && field[0] == 'b' {
        assert(field@ =~= seq!['b']);
        Some(Color::Black)
    } else {
        assert(field@ != seq!['w'] && field@ != seq!['b']) by {
            if field@ == seq!['w'] || field@ == seq!['b'] {
                assert(field@.len() == 1);
                assert(seq!['w'][0] == 'w' && seq!['b'][0] == 'b');
            }
        }
        None
    }
}

fn is_dash(field: &Vec<char>) -> (dash: bool)
    ensures
        dash == (field@ == seq!['-']),
{
    if field.len() == 1 && field[0] == '-' {
        assert(field@ =~= seq!['-']);
        true
    } else {
        assert(field@ != seq!['-']) by {
            if field@ == seq!['-'] {
                assert(field@.len() == 1);
                assert(seq!['-'][0] == '-');
            }
        }
        false
    }
}

fn read_castling(field: &Vec<char>) -> (found: Option<(CastlingRights, CastlingRights)>)
    ensures
        found == castling_of(field@),
{
    if is_dash(field) {
        return Some((CastlingRights::new(false, false), CastlingRights::new(false, false)));
    }
    if field.len() == 0 {
        return None;
    }
    let mut white_king = false;
    let mut white_queen = false;
    let mut black_king = false;
    let mut black_queen = false;
    let mut i: usize = 0;
    while i < field.len()
        invariant
            i <= field.len(),
            field@ != seq!['-'],
            forall|j: int| 0 <= j < i ==> rights_letter(#[trigger] field@[j]),
            white_king == field@.take(i as int).contains('K'),
            white_queen == field@.take(i as int).contains('Q'),
            black_king == field@.take(i as int).contains('k'),
            black_queen == field@.take(i as int).contains('q'),
        decreases field.len() - i,
    {
        let c = field[i];
        proof {
            let now = field@.take(i + 1);
            let before = field@.take(i as int);
            assert(now =~= before.push(c));
            assert forall|x: char| now.contains(x) == (before.contains(x) || x == c) by {
                if before.contains(x) {
                    let j = choose|j: int| 0 <= j < before.len() && before[j] == x;
                    assert(now[j] == x);
                }
                if x == c {
                    assert(now[i as int] == x);
                }
                if now.contains(x) {
                    let j = choose|j: int| 0 <= j < now.len() && now[j] == x;
                    if j < i {
                        assert(before[j] == x);
                    }
                }
            }
        }
        if c == 'K' {
            white_king = true;
        } else if c == 'Q' {
            white_queen = true;
        } else if c == 'k' {
            black_king = true;
        } else if c == 'q' {
            black_queen = true;
        } else {
            assert(!rights_letter(field@[i as int]));
            return None;
        }
        i += 1;
    }
    assert(field@.take(field.len() as int) =~= field@);
    Some(
        (
            CastlingRights::new(white_king, white_queen),
            CastlingRights::new(black_king, black_queen),
        ),
    )
}

fn read_enpassant(field: &Vec<char>) -> (found: Option<Option<Square>>)
    ensures
        found == enpassant_of(field@),
{
    if is_dash(field) {
        return Some(None);
    }
    match square_from_chars(field) {
        Some(s) => Some(Some(s)),
        None => None,
    }
}

proof fn lemma_digits_grow(text: Seq<char>, n: int)
    requires
        0 <= n <= text.len(),
    ensures
        digits(text.take(n)).is_none() ==> digits(text).is_none(),
        digits(text).is_some() ==> digits(text.take(n)).unwrap() <= digits(text).unwrap(),
    decreases text.len() - n,
{
    if n < text.len() {
        assert(text.take(n + 1).drop_last() =~= text.take(n));
        lemma_digits_grow(text, n + 1);
    } else {
        assert(text.take(n) =~= text);
    }
}

fn read_clock(field: &Vec<char>) -> (found: Option<u32>)
    ensures
        found == clock_of(field@),
{
    if field.len() == 0 {
        return None;
    }
    let mut value: u64 = 0;
    let mut i: usize = 0;
    assert(field@.take(0) =~= Seq::<char>::empty());
    while i < field.len()
        invariant
            i <= field.len(),
            field.len() > 0,
            value <= u32::MAX,
            digits(field@.take(i as int)) == Some(value as nat),
        decreases field.len() - i,
    {
        proof {
            assert(field@.take(i + 1).drop_last() =~= field@.take(i as int));
            assert(field@.take(i + 1).last() == field@[i as int]);
            lemma_digits_grow(field@, i + 1);
        }
        match digit(field[i]) {
            Some(last) => {
                value = 10 * value + last as u64;
                if value > u32::MAX as u64 {
                    return None;
                }
            },
            None => {
                return None;
            },
        }
        i += 1;
    }
    assert(field@.take(field.len() as int) =~= field@);
    Some(value as u32)
}

impl Board {
    /// The position that a text in Forsyth-Edwards notation describes,
    /// such as `rnbqkbnr/pppppppp/8/8/8/8/PPPPPPPP/RNBQKBNR w KQkq - 0 1`.
    /// The pieces get their identities in the order in which the text
    /// names them. A text that is not well written is refused with the
    /// first field at fault, and one that describes no position with the
    /// first fault of its layout.
    pub fn from_fen(fen: String) -> (made: Result<Board, FenError>)
        ensures
            match layout_of(fen@) {
                Err(fault) => made == Err::<Board, FenError>(fault),
                Ok(layout) => match layout_fault(
                    layout.placement,
                    layout.white,
                    layout.black,
                    layout.enpassant_square,
                ) {
                    Some(fault) => made == Err::<Board, FenError>(FenError::Layout(fault)),
                    None => made matches Ok(board) && board.shows(
                        layout.placement,
                        layout.turn,
                        layout.white,
                        layout.black,
                        layout.enpassant_square,
                        layout.halfmove_clock,
                        layout.fullmove_number,
                    ),
                },
            },
    {
        let text = chars_of(fen.as_str());
        let fields = split_text(&text, ' ');
        assert(fields@.len() == view_parts(fields@).len());
        if fields.len() != 6 {
            return Err(FenError::SectionCount);
        }
        assert(forall|i: int| 0 <= i < 6 ==> fields[i]@ == #[trigger] split(fen@, ' ')[i]);
        let placement = match read_placement(&fields[0]) {
            Some(placement) => placement,
            None => {
                return Err(FenError::Placement);
            },
        };
        let turn = match read_turn(&fields[1]) {
            Some(turn) => turn,
            None => {
                return Err(FenError::SideToMove);
            },
        };
        let (white, black) = match read_castling(&fields[2]) {
            Some(rights) => rights,
            None => {
                return Err(FenError::Castling);
            },
        };
        let enpassant_square = match read_enpassant(&fields[3]) {
            Some(square) => square,
            None => {
                return Err(FenError::EnPassant);
            },
        };
        let halfmove_clock = match read_clock(&fields[4]) {
            Some(clock) => clock,
            None => {
                return Err(FenError::HalfmoveClock);
            },
        };
        let fullmove_number = match read_clock(&fields[5]) {
            Some(number) => number,
            None => {
                return Err(FenError::FullmoveNumber);
            },
        };
        match Board::new(
            placement,
            turn,
            white,
            black,
            enpassant_square,
            halfmove_clock,
            fullmove_number,
        ) {
            Ok(board) => Ok(board),
            Err(fault) => Err(FenError::Layout(fault)),
        }
    }
}

} // verus!
