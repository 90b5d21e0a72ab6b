//! Squares as players write them, and the board as players see it.

use crate::board::Board;
use crate::structs::{Color, File, Piece, PieceType, Rank, Square};
use vstd::prelude::*;
use vstd::string::StrSliceExecFns;

verus! {

/// The file that a letter names, in either case.
pub open spec fn file_of_letter(c: char) -> Option<File> {
    if c == 'a' || c == 'A' {
        Some(File::A)
    } else if c == 'b' || c == 'B' {
        Some(File::B)
    } else if c == 'c' || c == 'C' {
        Some(File::C)
    } else if c == 'd' || c == 'D' {
        Some(File::D)
    } else if c == 'e' || c == 'E' {
        Some(File::E)
    } else if c == 'f' || c == 'F' {
        Some(File::F)
    } else if c == 'g' || c == 'G' {
        Some(File::G)
    } else if c == 'h' || c == 'H' {
        Some(File::H)
    } else {
        None
    }
}

/// The rank that a digit names.
pub open spec fn rank_of_digit(c: char) -> Option<Rank> {
    if c == '1' {
        Some(Rank::_1)
    } else if c == '2' {
        Some(Rank::_2)
    } else if c == '3' {
        Some(Rank::_3)
    } else if c == '4' {
        Some(Rank::_4)
    } else if c == '5' {
        Some(Rank::_5)
    } else if c == '6' {
        Some(Rank::_6)
    } else if c == '7' {
        Some(Rank::_7)
    } else if c == '8' {
        Some(Rank::_8)
    } else {
        None
    }
}

/// The square that a text names: a letter from `a` to `h`, in either
/// case, and a digit from `1` to `8`, and nothing else.
pub open spec fn square_of_text(text: Seq<char>) -> Option<Square> {
    if text.len() == 2 {
        match (file_of_letter(text[0]), rank_of_digit(text[1])) {
            (Some(file), Some(rank)) => Some(Square { file, rank }),
            _ => None,
        }
    } else {
        None
    }
}

fn letter_file(c: char) -> (file: Option<File>)
    ensures
        file == file_of_letter(c),
{
    if c == 'a' || c == 'A' {
        Some(File::A)
    } else if c == 'b' || c == 'B' {
        Some(File::B)
    } else if c == 'c' || c == 'C' {
        Some(File::C)
    } else if c == 'd' || c == 'D' {
        Some(File::D)
    } else if c == 'e' || c == 'E' {
        Some(File::E)
    } else if c == 'f' || c == 'F' {
        Some(File::F)
    } else if c == 'g' || c == 'G' {
        Some(File::G)
    } else if c == 'h' || c == 'H' {
        Some(File::H)
    } else {
        None
    }
}

fn digit_rank(c: char) -> (rank: Option<Rank>)
    ensures
        rank == rank_of_digit(c),
{
    if c == '1' {
        Some(Rank::_1)
    } else if c == '2' {
        Some(Rank::_2)
    } else if c == '3' {
        Some(Rank::_3)
    } else if c == '4' {
        Some(Rank::_4)
    } else if c == '5' {
        Some(Rank::_5)
    } else if c == '6' {
        Some(Rank::_6)
    } else if c == '7' {
        Some(Rank::_7)
    } else if c == '8' {
        Some(Rank::_8)
    } else {
        None
    }
}

/// The square that the characters name, or `None` if they name none.
pub(crate) fn square_from_chars(text: &Vec<char>) -> (named: Option<Square>)
    ensures
        named == square_of_text(text@),
{
    if text.len() != 2 {
        return None;
    }
    match (letter_file(text[0]), digit_rank(text[1])) {
        (Some(file), Some(rank)) => Some(Square { file, rank }),
        _ => None,
    }
}

/// The square that `pos` names, such as `e2`, or `None` if it names none.
pub fn chess_notation_to_square(pos: &str) -> (named: Option<Square>)
    ensures
        named == square_of_text(pos@),
{
    if pos.unicode_len() != 2 {
        return None;
    }
    let file = letter_file(pos.get_char(0));
    let rank = digit_rank(pos.get_char(1));
    match (file, rank) {
        (Some(file), Some(rank)) => Some(Square { file, rank }),
        _ => None,
    }
}

/// The sign that stands for a piece on the printed board.
pub open spec fn glyph_of(piece: Piece) -> char {
    match (piece.kind, piece.color) {
        (PieceType::Pawn, Color::White) => '♟',
        (PieceType::Pawn, Color::Black) => '♙',
        (PieceType::Knight, Color::White) => '♞',
        (PieceType::Knight, Color::Black) => '♘',
        (PieceType::Bishop, Color::White) => '♝',
        (PieceType::Bishop, Color::Black) => '♗',
        (PieceType::Rook, Color::White) => '♜',
        (PieceType::Rook, Color::Black) => '♖',
        (PieceType::Queen, Color::White) => '♛',
        (PieceType::Queen, Color::Black) => '♕',
        (PieceType::King, Color::White) => '♚',
        (PieceType::King, Color::Black) => '♔',
    }
}

/// The sign for a square: that of the piece on it, or a dot.
pub open spec fn sign_at(pieces: Map<Square, Piece>, s: Square) -> char {
    if pieces.contains_key(s) {
        glyph_of(pieces[s])
    } else {
        '.'
    }
}

fn glyph(piece: Piece) -> (sign: char)
    ensures
        sign == glyph_of(piece),
{
    match (piece.kind, piece.color) {
        (PieceType::Pawn, Color::White) => '♟',
        (PieceType::Pawn, Color::Black) => '♙',
        (PieceType::Knight, Color::White) => '♞',
        (PieceType::Knight, Color::Black) => '♘',
        (PieceType::Bishop, Color::White) => '♝',
        (PieceType::Bishop, Color::Black) => '♗',
        (PieceType::Rook, Color::White) => '♜',
        (PieceType::Rook, Color::Black) => '♖',
        (PieceType::Queen, Color::White) => '♛',
        (PieceType::Queen, Color::Black) => '♕',
        (PieceType::King, Color::White) => '♚',
        (PieceType::King, Color::Black) => '♔',
    }
}

impl Board {
    /// The board as it is printed: eight rows from the eighth rank down
    /// to the first, each of eight signs from file `a` to file `h`.
    pub fn board_rep(&self) -> (rows: Vec<Vec<char>>)
        ensures
            rows.len() == 8,
            forall|r: int| 0 <= r < 8 ==> (#[trigger] rows[r]).len() == 8,
            forall|r: int, f: int|
                0 <= r < 8 && 0 <= f < 8 ==> #[trigger] rows[r][f] == sign_at(
                    self@.pieces,
                    Square::at(8 * r + f),
                ),
    {
        let slots = self.mailbox();
        let mut rows: Vec<Vec<char>> = Vec::new();
        let mut r: u8 = 0;
        while r < 8
            invariant
                r <= 8,
                rows.len() == r,
                self@.fills(slots@),
                forall|n: int| 0 <= n < r ==> (#[trigger] rows[n]).len() == 8,
                forall|n: int, f: int|
                    0 <= n < r && 0 <= f < 8 ==> #[trigger] rows[n][f] == sign_at(
                        self@.pieces,
                        Square::at(8 * n + f),
                    ),
            decreases 8 - r,
        {
            let mut row: Vec<char> = Vec::new();
            let mut f: u8 = 0;
            while f < 8
                invariant
                    f <= 8,
                    r < 8,
                    row.len() == f,
                    self@.fills(slots@),
                    forall|n: int|
                        0 <= n < f ==> #[trigger] row[n] == sign_at(
                            self@.pieces,
                            Square::at(8 * r + n),
                        ),
                decreases 8 - f,
            {
                let sign = match slots[(8 * r + f) as usize] {
                    Some(piece) => glyph(piece),
                    None => '.',
                };
                row.push(sign);
                f += 1;
            }
            rows.push(row);
            r += 1;
        }
        rows
    }

    /// The square on which the piece with the identity of `piece` stands:
    /// the first in display order, should several pieces have it.
    pub fn get_square(&self, piece: &Piece) -> (found: Option<Square>)
        ensures
            found matches Some(s) ==> self@.occupied(s) && self@.pieces[s].id == piece.id
                && forall|t: Square|
                t.slot() < s.slot() ==> !(#[trigger] self@.occupied(t) && self@.pieces[t].id
                    == piece.id),
            found.is_none() ==> forall|t: Square|
                !(#[trigger] self@.occupied(t) && self@.pieces[t].id == piece.id),
    {
        let slots = self.mailbox();
        let mut k: u8 = 0;
        while k < 64
            invariant
                k <= 64,
                self@.fills(slots@),
                forall|t: Square|
                    t.slot() < k ==> !(#[trigger] self@.occupied(t) && self@.pieces[t].id
                        == piece.id),
            decreases 64 - k,
        {
            proof {
                Square::lemma_at_slot(k as int);
                assert forall|t: Square| t.slot() == k implies t == Square::at(k as int) by {
                    t.lemma_slot_at();
                }
            }
            match (Square::from_index(k), slots[k as usize]) {
                (Some(s), Some(here)) => {
                    if here.id == piece.id {
                        return Some(s);
                    }
                },
                _ => {},
            }
            k += 1;
        }
        proof {
            assert forall|t: Square| t.slot() < 64 by {
                t.lemma_slot_at();
            }
        }
        None
    }
}

} // verus!
