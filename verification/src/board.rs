//! The board: the placement of the pieces with its caches, and the
//! generation of the legal moves.

use crate::maps::{
    cached, granted, kings_get, kings_insert, kings_new, lines_get, lines_insert, lines_new,
    lines_swap_remove, lists, pieces_entries, pieces_get, pieces_insert, pieces_new,
    pieces_swap_remove, placed, rights_get, rights_insert, rights_new, seated,
};
use crate::move_generation::generate_all_moves;
use crate::position::{home, resolving, Position};
use crate::structs::{
    attack_lines, square, view_lines, CastlingRights, Color, File, Move, MoveType, Piece,
    PieceType, Square,
};
use indexmap::IndexMap;
use vstd::prelude::*;

verus! {

/// A position in play. The tables are keyed by small integers: `pieces`
/// and `attack_lines` by the place of a square in display order
/// ([`Square::index`]), `kings` and `castling_rights` by the code of a side
/// ([`Color::code`]).
///
/// Nothing depends on the order in which a table holds its entries, which
/// changes as pieces are taken off and set down again: wherever all
/// pieces are looked at, the table is first read into a list of the
/// squares in display order ([`Board::mailbox`]). So what the engine does
/// is a matter of the position alone, and a move taken back leaves no
/// trace.
#[derive(PartialEq, Eq, Debug)]
pub struct Board {
    /// The moves made so far, the latest last.
    pub history: Vec<Move>,
    /// The piece on each occupied square.
    pub pieces: IndexMap<u8, Piece>,
    /// For each occupied square, the attack lines of the piece on it.
    pub attack_lines: IndexMap<u8, Vec<Vec<Square>>>,
    /// The square of each side's king.
    pub kings: IndexMap<u8, Square>,
    /// The side to move.
    pub turn: Color,
    /// The castling rights that each side still has.
    pub castling_rights: IndexMap<u8, CastlingRights>,
    /// The square that a pawn has just passed over in a double step.
    pub enpassant_square: Option<Square>,
    /// Moves since the last pawn move or capture.
    pub halfmove_clock: u32,
    /// Moves made, counted for both sides together.
    pub fullmove_number: u32,
}

/// A placement keyed by the places of the squares, as one keyed by the
/// squares themselves.
pub open spec fn by_square(table: Map<u8, Piece>) -> Map<Square, Piece> {
    Map::new(
        |s: Square| table.contains_key(s.slot() as u8),
        |s: Square| table[s.slot() as u8],
    )
}

/// A table keyed by the codes of the sides, as one keyed by the sides
/// themselves.
pub open spec fn by_color<T>(table: Map<u8, T>) -> Map<Color, T> {
    Map::new(|c: Color| table.contains_key(c.code()), |c: Color| table[c.code()])
}

/// The placement and the cache are in step: every key of the placement is
/// the place of a square, and the cache holds exactly the attack lines of
/// the pieces where they stand.
pub open spec fn in_step(pieces: Map<u8, Piece>, lines: Map<u8, Seq<Seq<Square>>>) -> bool {
    &&& forall|k: u8| #[trigger] pieces.contains_key(k) ==> k < 64
    &&& lines.dom() =~= pieces.dom()
    &&& forall|k: u8| #[trigger]
        pieces.contains_key(k) ==> lines[k] == attack_lines(pieces[k], Square::at(k as int))
}

impl View for Board {
    type V = Position;

    open spec fn view(&self) -> Position {
        Position {
            pieces: by_square(placed(self.pieces)),
            kings: by_color(seated(self.kings)),
            turn: self.turn,
            castling_rights: by_color(granted(self.castling_rights)),
            enpassant_square: self.enpassant_square,
            halfmove_clock: self.halfmove_clock as nat,
            fullmove_number: self.fullmove_number as nat,
            history: self.history@,
        }
    }
}

impl Board {
    /// The tables are in step: every key of `pieces` is the place of a
    /// square, `attack_lines` holds exactly the attack lines of the pieces
    /// where they stand, and `kings` and `castling_rights` hold an entry
    /// for each side and nothing else.
    pub open spec fn inv(&self) -> bool {
        &&& in_step(placed(self.pieces), cached(self.attack_lines))
        &&& seated(self.kings).dom() =~= set![0u8, 1u8]
        &&& granted(self.castling_rights).dom() =~= set![0u8, 1u8]
    }

    /// The tables are in step and the records agree with the placement.
    pub open spec fn well_formed(&self) -> bool {
        self.inv() && self@.consistent()
    }

    /// The piece on `square`, if there is one.
    pub fn piece_at(&self, square: Square) -> (found: Option<Piece>)
        ensures
            found == (if self@.occupied(square) {
                Some(self@.pieces[square])
            } else {
                None
            }),
    {
        piece_on(&self.pieces, square)
    }

    /// The placement square by square: for each place of the display
    /// order, the piece that stands there. The table is gone through once.
    pub fn mailbox(&self) -> (slots: Vec<Option<Piece>>)
        ensures
            self@.fills(slots@),
    {
        let mut slots: Vec<Option<Piece>> = Vec::new();
        let mut n: usize = 0;
        while n < 64
            invariant
                n <= 64,
                slots.len() == n,
                forall|i: int| 0 <= i < n ==> (#[trigger] slots[i]).is_none(),
            decreases 64 - n,
        {
            slots.push(None);
            n += 1;
        }
        let entries = pieces_entries(&self.pieces);
        let ghost table = placed(self.pieces);
        let mut e: usize = 0;
        while e < entries.len()
            invariant
                e <= entries.len(),
                slots.len() == 64,
                table == placed(self.pieces),
                forall|i: int|
                    0 <= i < entries.len() ==> table.contains_key((#[trigger] entries[i]).0)
                        && table[entries[i].0] == entries[i].1,
                forall|i: int|
                    0 <= i < 64 ==> (#[trigger] slots[i]).is_none() || (table.contains_key(
                        i as u8,
                    ) && slots[i] == Some(table[i as u8])),
                forall|j: int|
                    0 <= j < e && (#[trigger] entries[j]).0 < 64 ==> slots[entries[j].0 as int]
                        == Some(entries[j].1),
            decreases entries.len() - e,
        {
            let (key, piece) = entries[e];
            if key < 64 {
                slots.set(key as usize, Some(piece));
            }
            e += 1;
        }
        proof {
            assert forall|i: int| 0 <= i < 64 implies #[trigger] slots[i] == (if self@.occupied(
                Square::at(i),
            ) {
                Some(self@.pieces[Square::at(i)])
            } else {
                None
            }) by {
                Square::lemma_at_slot(i);
                if table.contains_key(i as u8) {
                    assert(lists(entries@, i as u8));
                    let j = choose|j: int|
                        0 <= j < entries.len() && (#[trigger] entries[j]).0 == i as u8;
                    assert(slots[entries[j].0 as int] == Some(entries[j].1));
                }
            }
        }
        slots
    }

    /// The square recorded for the king of the given side.
    pub fn king_of(&self, color: Color) -> (s: Square)
        requires
            self.inv(),
        ensures
            s == self@.kings[color],
    {
        match kings_get(&self.kings, color.code()) {
            Some(s) => s,
            None => {
                assert(seated(self.kings).dom().contains(color.code()));
                vstd::pervasive::unreached()
            },
        }
    }

    /// The castling rights of the given side.
    pub fn rights_of(&self, color: Color) -> (r: CastlingRights)
        requires
            self.inv(),
        ensures
            r == self@.castling_rights[color],
    {
        match rights_get(&self.castling_rights, color.code()) {
            Some(r) => r,
            None => {
                assert(granted(self.castling_rights).dom().contains(color.code()));
                vstd::pervasive::unreached()
            },
        }
    }

    /// The cached attack lines of the piece on `square`.
    pub fn lines_at(&self, square: Square) -> (lines: &Vec<Vec<Square>>)
        requires
            self.inv(),
            self@.occupied(square),
        ensures
            view_lines(lines@) == self@.lines_from(square),
    {
        proof {
            square.lemma_slot_at();
        }
        match lines_get(&self.attack_lines, square.index()) {
            Some(lines) => lines,
            None => {
                assert(cached(self.attack_lines).dom().contains(square.slot() as u8));
                vstd::pervasive::unreached()
            },
        }
    }
}

/// A line of an enemy piece on which the king of the side to move stands
/// with at most two pieces before it.
#[derive(Clone, Copy)]
struct Threat {
    /// The square of the enemy piece.
    attacker: Square,
    /// Which of its attack lines.
    line: usize,
    /// Where on that line the king stands.
    at: usize,
    /// How many pieces stand before the king.
    between: u8,
}

impl Threat {
    /// The threat is one of position `v`.
    spec fn stands(self, v: Position) -> bool {
        &&& v.holds(self.attacker, v.enemy())
        &&& self.line < v.lines_from(self.attacker).len()
        &&& v.king_on(v.lines_from(self.attacker)[self.line as int], self.at as int)
        &&& self.between == v.blockers(
            v.lines_from(self.attacker)[self.line as int],
            self.at as int,
        )
        &&& self.between <= 2
    }

    /// What the threat leaves of the moves.
    spec fn permits(self, v: Position, m: Move) -> bool {
        v.threat_permits(
            self.attacker,
            v.lines_from(self.attacker)[self.line as int],
            self.at as int,
            m,
        )
    }
}

/// Every threat that comes from one of the first `n` squares of the display
/// order is in `threats`.
spec fn covers(v: Position, threats: Seq<Threat>, n: int) -> bool {
    forall|a: Square, l: int, at: int|
        a.slot() < n && v.holds(a, v.enemy()) && 0 <= l < v.lines_from(a).len()
            && #[trigger] v.king_on(v.lines_from(a)[l], at) && v.blockers(v.lines_from(a)[l], at)
            <= 2 ==> exists|i: int|
            0 <= i < threats.len() && (#[trigger] threats[i]).attacker == a && threats[i].line
                == l && threats[i].at == at
}

/// What one walk over the enemy's attack lines finds: the squares that the
/// enemy attacks, by their place in display order, and the threats to the
/// king.
struct Survey {
    attacked: Vec<bool>,
    threats: Vec<Threat>,
}

impl Survey {
    /// The survey is that of position `v`.
    spec fn fits(self, v: Position) -> bool {
        &&& self.attacked.len() == 64
        &&& forall|i: int|
            0 <= i < 64 ==> #[trigger] self.attacked[i] == v.attacked_by(v.enemy(), Square::at(i))
        &&& forall|i: int| 0 <= i < self.threats.len() ==> (#[trigger] self.threats[i]).stands(v)
        &&& covers(v, self.threats@, 64)
    }
}

/// Whether `s` is one of the first `n` squares of `line`.
fn line_has(line: &Vec<Square>, n: usize, s: Square) -> (found: bool)
    requires
        n <= line.len(),
    ensures
        found == (exists|j: int| 0 <= j < n && #[trigger] line@[j] == s),
{
    let mut j: usize = 0;
    while j < n
        invariant
            j <= n <= line.len(),
            forall|i: int| 0 <= i < j ==> #[trigger] line@[i] != s,
        decreases n - j,
    {
        if line[j] == s {
            return true;
        }
        j += 1;
    }
    false
}

impl Board {
    /// Walks one attack line of the enemy piece on `attacker`: marks the
    /// squares that the line reaches, and notes the threat if the king
    /// stands on the line with at most two pieces before it.
    fn walk_line(
        &self,
        attacker: Square,
        l: usize,
        line: &Vec<Square>,
        king: Square,
        king_there: bool,
        attacked: &mut Vec<bool>,
        threats: &mut Vec<Threat>,
    )
        requires
            old(attacked).len() == 64,
            self@.holds(attacker, self@.enemy()),
            l < self@.lines_from(attacker).len(),
            line@ == self@.lines_from(attacker)[l as int],
            king == self@.king_square(),
            king_there == self@.occupied(king),
        ensures
            final(attacked).len() == 64,
            forall|i: int|
                0 <= i < 64 ==> #[trigger] final(attacked)[i] == (old(attacked)[i]
                    || self@.reaches(line@, Square::at(i))),
            final(threats).len() >= old(threats).len(),
            forall|i: int|
                0 <= i < old(threats).len() ==> #[trigger] final(threats)[i] == old(threats)[i],
            forall|i: int|
                old(threats).len() <= i < final(threats).len() ==> (#[trigger] final(threats)[i])
                    .stands(self@),
            forall|at: int| #[trigger]
                self@.king_on(line@, at) && self@.blockers(line@, at) <= 2 ==> exists|i: int|
                    0 <= i < final(threats).len() && (#[trigger] final(threats)[i]).attacker
                        == attacker && final(threats)[i].line == l && final(threats)[i].at == at,
    {
        let ghost v = self@;
        let mut between: usize = 0;
        let mut found = false;
        let mut j: usize = 0;
        while j < line.len()
            invariant
                j <= line.len(),
                v == self@,
                attacked.len() == 64,
                between == v.blockers(line@, j as int),
                between <= j,
                v.holds(attacker, v.enemy()),
                l < v.lines_from(attacker).len(),
                line@ == v.lines_from(attacker)[l as int],
                king == v.king_square(),
                king_there == v.occupied(king),
                forall|i: int|
                    0 <= i < 64 ==> #[trigger] attacked[i] == (old(attacked)[i]
                        || v.reaches_within(line@, j as int, Square::at(i))),
                !found ==> forall|i: int|
                    0 <= i < j ==> !king_there || #[trigger] line@[i] != king,
                found ==> exists|at: int| 0 <= at < j && #[trigger] v.king_on(line@, at),
                threats.len() >= old(threats).len(),
                forall|i: int|
                    0 <= i < old(threats).len() ==> #[trigger] threats[i] == old(threats)[i],
                forall|i: int|
                    old(threats).len() <= i < threats.len() ==> (#[trigger] threats[i]).stands(v),
                forall|at: int|
                    0 <= at < j && #[trigger] v.king_on(line@, at) && v.blockers(line@, at) <= 2
                        ==> exists|i: int|
                        0 <= i < threats.len() && (#[trigger] threats[i]).attacker == attacker
                            && threats[i].line == l && threats[i].at == at,
            decreases line.len() - j,
        {
            let s = line[j];
            let ghost marks = attacked@;
            let ghost noted = threats@;
            if between == 0 {
                attacked.set(s.index() as usize, true);
            }
            proof {
                s.lemma_slot_at();
                assert forall|i: int| 0 <= i < 64 implies #[trigger] attacked[i] == (old(attacked)[i]
                    || v.reaches_within(line@, j + 1, Square::at(i))) by {
                    Square::lemma_at_slot(i);
                    let t = Square::at(i);
                    if v.reaches_within(line@, j + 1, t) && !v.reaches_within(line@, j as int, t) {
                        let w = choose|w: int|
                            0 <= w < j + 1 && #[trigger] line@[w] == t && v.blockers(line@, w)
                                == 0;
                        assert(w == j);
                    }
                    if between == 0 && i == s.slot() {
                        assert(line@[j as int] == t && v.blockers(line@, j as int) == 0);
                    }
                    if v.reaches_within(line@, j as int, t) {
                        let w = choose|w: int|
                            0 <= w < j && #[trigger] line@[w] == t && v.blockers(line@, w) == 0;
                        assert(0 <= w < j + 1 && line@[w] == t && v.blockers(line@, w) == 0);
                    }
                }
            }
            if !found && king_there && s == king {
                found = true;
                assert(v.king_on(line@, j as int));
                if between <= 2 {
                    threats.push(Threat { attacker, line: l, at: j, between: between as u8 });
                    assert(threats[threats.len() - 1].stands(v));
                    assert forall|i: int| 0 <= i < old(threats).len() implies #[trigger] threats[i]
                        == old(threats)[i] by {
                        assert(threats[i] == noted[i]);
                    }
                }
            }
            proof {
                assert forall|at: int|
                    0 <= at < j + 1 && #[trigger] v.king_on(line@, at) && v.blockers(line@, at)
                        <= 2 implies exists|i: int|
                    0 <= i < threats.len() && (#[trigger] threats[i]).attacker == attacker
                        && threats[i].line == l && threats[i].at == at by {
                    if at < j {
                        let i = choose|i: int|
                            0 <= i < noted.len() && (#[trigger] noted[i]).attacker == attacker
                                && noted[i].line == l && noted[i].at == at;
                        assert(threats[i] == noted[i]);
                    } else {
                        assert(at == j);
                        assert(threats[threats.len() - 1].at == j);
                    }
                }
            }
            if self.piece_at(s).is_some() {
                between += 1;
            }
            j += 1;
        }
    }
}

/// Every threat along one of the first `n` lines of the piece on `a` is in
/// `threats`.
spec fn covers_lines(v: Position, threats: Seq<Threat>, a: Square, n: int) -> bool {
    forall|l: int, at: int|
        0 <= l < n && #[trigger] v.king_on(v.lines_from(a)[l], at) && v.blockers(
            v.lines_from(a)[l],
            at,
        ) <= 2 ==> exists|i: int|
            0 <= i < threats.len() && (#[trigger] threats[i]).attacker == a && threats[i].line
                == l && threats[i].at == at
}

proof fn lemma_covers_grows(v: Position, before: Seq<Threat>, after: Seq<Threat>, n: int)
    requires
        covers(v, before, n),
        after.len() >= before.len(),
        forall|i: int| 0 <= i < before.len() ==> #[trigger] after[i] == before[i],
    ensures
        covers(v, after, n),
{
    assert forall|a: Square, l: int, at: int|
        a.slot() < n && v.holds(a, v.enemy()) && 0 <= l < v.lines_from(a).len()
            && #[trigger] v.king_on(v.lines_from(a)[l], at) && v.blockers(v.lines_from(a)[l], at)
            <= 2 implies exists|i: int|
        0 <= i < after.len() && (#[trigger] after[i]).attacker == a && after[i].line == l
            && after[i].at == at by {
        let i = choose|i: int|
            0 <= i < before.len() && (#[trigger] before[i]).attacker == a && before[i].line == l
                && before[i].at == at;
        assert(after[i] == before[i]);
    }
}

proof fn lemma_covers_lines_grows(
    v: Position,
    before: Seq<Threat>,
    after: Seq<Threat>,
    a: Square,
    n: int,
)
    requires
        covers_lines(v, before, a, n),
        after.len() >= before.len(),
        forall|i: int| 0 <= i < before.len() ==> #[trigger] after[i] == before[i],
    ensures
        covers_lines(v, after, a, n),
{
    assert forall|l: int, at: int|
        0 <= l < n && #[trigger] v.king_on(v.lines_from(a)[l], at) && v.blockers(
            v.lines_from(a)[l],
            at,
        ) <= 2 implies exists|i: int|
        0 <= i < after.len() && (#[trigger] after[i]).attacker == a && after[i].line == l
            && after[i].at == at by {
        let i = choose|i: int|
            0 <= i < before.len() && (#[trigger] before[i]).attacker == a && before[i].line == l
                && before[i].at == at;
        assert(after[i] == before[i]);
    }
}

impl Board {
    /// Walks the attack lines of the enemy piece on `from`.
    fn walk_piece(
        &self,
        from: Square,
        king: Square,
        king_there: bool,
        attacked: &mut Vec<bool>,
        threats: &mut Vec<Threat>,
    )
        requires
            self.inv(),
            old(attacked).len() == 64,
            self@.holds(from, self@.enemy()),
            king == self@.king_square(),
            king_there == self@.occupied(king),
            forall|i: int| 0 <= i < old(threats).len() ==> (#[trigger] old(threats)[i]).stands(self@),
        ensures
            final(attacked).len() == 64,
            forall|i: int|
                0 <= i < 64 ==> #[trigger] final(attacked)[i] == (old(attacked)[i]
                    || self@.attacks(from, Square::at(i))),
            final(threats).len() >= old(threats).len(),
            forall|i: int|
                0 <= i < old(threats).len() ==> #[trigger] final(threats)[i] == old(threats)[i],
            forall|i: int| 0 <= i < final(threats).len() ==> (#[trigger] final(threats)[i]).stands(self@),
            covers_lines(self@, final(threats)@, from, self@.lines_from(from).len() as int),
    {
        let ghost v = self@;
        let lines = self.lines_at(from);
        let mut l: usize = 0;
        assert(lines@.len() == view_lines(lines@).len());
        while l < lines.len()
            invariant
                l <= lines.len(),
                v == self@,
                attacked.len() == 64,
                lines@.len() == v.lines_from(from).len(),
                view_lines(lines@) == v.lines_from(from),
                v.holds(from, v.enemy()),
                king == v.king_square(),
                king_there == v.occupied(king),
                forall|i: int|
                    0 <= i < 64 ==> #[trigger] attacked[i] == (old(attacked)[i]
                        || v.attacks_within(from, l as int, Square::at(i))),
                threats.len() >= old(threats).len(),
                forall|i: int|
                    0 <= i < old(threats).len() ==> #[trigger] threats[i] == old(threats)[i],
                forall|i: int| 0 <= i < threats.len() ==> (#[trigger] threats[i]).stands(v),
                covers_lines(v, threats@, from, l as int),
            decreases lines.len() - l,
        {
            let ghost marks = attacked@;
            let ghost noted = threats@;
            let line = &lines[l];
            assert(line@ == view_lines(lines@)[l as int]);
            self.walk_line(from, l, line, king, king_there, attacked, threats);
            proof {
                assert forall|i: int| 0 <= i < 64 implies #[trigger] attacked[i] == (old(attacked)[i]
                    || v.attacks_within(from, l + 1, Square::at(i))) by {
                    let t = Square::at(i);
                    assert(attacked[i] == (marks[i] || v.reaches(line@, t)));
                    if v.attacks_within(from, l + 1, t) && !v.attacks_within(from, l as int, t) {
                        let w = choose|w: int|
                            0 <= w < l + 1 && v.reaches(#[trigger] v.lines_from(from)[w], t);
                        assert(w == l);
                    }
                    if v.reaches(line@, t) {
                        assert(v.reaches(v.lines_from(from)[l as int], t));
                    }
                    if v.attacks_within(from, l as int, t) {
                        let w = choose|w: int|
                            0 <= w < l && v.reaches(#[trigger] v.lines_from(from)[w], t);
                        assert(0 <= w < l + 1 && v.reaches(v.lines_from(from)[w], t));
                    }
                }
                assert forall|i: int| 0 <= i < threats.len() implies (#[trigger] threats[i]).stands(
                    v,
                ) by {
                    if i < noted.len() {
                        assert(threats[i] == noted[i]);
                    }
                }
                lemma_covers_lines_grows(v, noted, threats@, from, l as int);
                assert(covers_lines(v, threats@, from, l + 1)) by {
                    assert forall|l2: int, at: int|
                        0 <= l2 < l + 1 && #[trigger] v.king_on(v.lines_from(from)[l2], at)
                            && v.blockers(v.lines_from(from)[l2], at) <= 2 implies exists|i: int|
                        0 <= i < threats.len() && (#[trigger] threats[i]).attacker == from
                            && threats[i].line == l2 && threats[i].at == at by {
                        if l2 == l {
                            assert(v.king_on(line@, at));
                        }
                    }
                }
            }
            l += 1;
        }
    }

    /// Walks every attack line of every enemy piece once.
    fn survey(&self) -> (found: Survey)
        requires
            self.inv(),
        ensures
            found.fits(self@),
    {
        let ghost v = self@;
        let king = self.king_of(self.turn);
        let king_there = self.piece_at(king).is_some();
        let mut attacked: Vec<bool> = Vec::new();
        let mut n: usize = 0;
        while n < 64
            invariant
                n <= 64,
                attacked.len() == n,
                forall|i: int| 0 <= i < n ==> !#[trigger] attacked[i],
            decreases 64 - n,
        {
            attacked.push(false);
            n += 1;
        }
        let mut threats: Vec<Threat> = Vec::new();
        let mut k: u8 = 0;
        while k < 64
            invariant
                k <= 64,
                self.inv(),
                v == self@,
                king == v.king_square(),
                king_there == v.occupied(king),
                attacked.len() == 64,
                forall|i: int|
                    0 <= i < 64 ==> #[trigger] attacked[i] == v.attacked_within(
                        v.enemy(),
                        k as int,
                        Square::at(i),
                    ),
                forall|i: int| 0 <= i < threats.len() ==> (#[trigger] threats[i]).stands(v),
                covers(v, threats@, k as int),
            decreases 64 - k,
        {
            let ghost marks = attacked@;
            let ghost noted = threats@;
            let ghost here = Square::at(k as int);
            proof {
                Square::lemma_at_slot(k as int);
            }
            let mut walked = false;
            match Square::from_index(k) {
                Some(from) => match self.piece_at(from) {
                    Some(piece) => {
                        if piece.color != self.turn {
                            self.walk_piece(from, king, king_there, &mut attacked, &mut threats);
                            walked = true;
                        }
                    },
                    None => {},
                },
                None => {},
            }
            proof {
                assert(walked == v.holds(here, v.enemy()));
                assert forall|i: int| 0 <= i < 64 implies #[trigger] attacked[i]
                    == v.attacked_within(v.enemy(), k + 1, Square::at(i)) by {
                    let t = Square::at(i);
                    assert(attacked[i] == (marks[i] || (walked && v.attacks(here, t))));
                    if v.attacked_within(v.enemy(), k + 1, t) && !v.attacked_within(
                        v.enemy(),
                        k as int,
                        t,
                    ) {
                        let w = choose|w: Square|
                            w.slot() < k + 1 && v.holds(w, v.enemy()) && #[trigger] v.attacks(w, t);
                        w.lemma_slot_at();
                        assert(w == here);
                    }
                    if v.attacked_within(v.enemy(), k as int, t) {
                        let w = choose|w: Square|
                            w.slot() < k && v.holds(w, v.enemy()) && #[trigger] v.attacks(w, t);
                        assert(w.slot() < k + 1 && v.holds(w, v.enemy()) && v.attacks(w, t));
                    }
                }
                lemma_covers_grows(v, noted, threats@, k as int);
                assert(covers(v, threats@, k + 1)) by {
                    assert forall|a: Square, l: int, at: int|
                        a.slot() < k + 1 && v.holds(a, v.enemy()) && 0 <= l < v.lines_from(a).len()
                            && #[trigger] v.king_on(v.lines_from(a)[l], at) && v.blockers(
                            v.lines_from(a)[l],
                            at,
                        ) <= 2 implies exists|i: int|
                        0 <= i < threats.len() && (#[trigger] threats[i]).attacker == a
                            && threats[i].line == l && threats[i].at == at by {
                        a.lemma_slot_at();
                        if a.slot() == k {
                            assert(a == here);
                        }
                    }
                }
            }
            k += 1;
        }
        Survey { attacked, threats }
    }
}

/// The moves among `moves` that take a piece, in their order.
fn keep_captures(moves: Vec<Move>) -> (kept: Vec<Move>)
    ensures
        kept@ == moves@.filter(Position::taking()),
{
    let mut kept: Vec<Move> = Vec::new();
    let mut i: usize = 0;
    assert(moves@.take(0).filter(Position::taking()) =~= Seq::<Move>::empty());
    while i < moves.len()
        invariant
            i <= moves.len(),
            kept@ == moves@.take(i as int).filter(Position::taking()),
        decreases moves.len() - i,
    {
        let m = moves[i];
        proof {
            assert(moves@.take(i + 1) =~= moves@.take(i as int).push(m));
            moves@.take(i as int).lemma_filter_push(m, Position::taking());
        }
        if m.captured.is_some() {
            kept.push(m);
        }
        i += 1;
    }
    assert(moves@.take(moves.len() as int) =~= moves@);
    kept
}

impl Board {
    /// Whether the threat leaves the move `m`.
    fn threat_allows(&self, threat: Threat, king: Square, m: &Move) -> (ok: bool)
        requires
            self.inv(),
            threat.stands(self@),
            king == self@.king_square(),
        ensures
            ok == threat.permits(self@, *m),
    {
        let lines = self.lines_at(threat.attacker);
        assert(lines@.len() == view_lines(lines@).len());
        let line = &lines[threat.line];
        assert(line@ == view_lines(lines@)[threat.line as int]);
        let to_resolves = m.to == threat.attacker || line_has(line, threat.at, m.to);
        assert(to_resolves == resolving(threat.attacker, line@, threat.at as int, m.to));
        if threat.between == 0 {
            let leaves = m.from == king && !line_has(line, line.len(), m.to);
            let passing = m.kind == MoveType::Enpassant && threat.attacker == square(
                m.to.file,
                m.from.rank,
            );
            assert(line@.contains(m.to) == (exists|j: int|
                0 <= j < line@.len() && #[trigger] line@[j] == m.to));
            leaves || to_resolves || passing
        } else if threat.between == 1 {
            let from_resolves = m.from == threat.attacker || line_has(line, threat.at, m.from);
            assert(from_resolves == resolving(threat.attacker, line@, threat.at as int, m.from));
            !from_resolves || to_resolves
        } else {
            match self.enpassant_victim() {
                Some(v) => {
                    if line_has(line, threat.at, v) {
                        m.kind != MoveType::Enpassant || m.from.rank != king.rank
                    } else {
                        true
                    }
                },
                None => true,
            }
        }
    }

    /// Whether the king's safety permits the move `m`.
    fn allows(&self, survey: &Survey, king: Square, m: &Move) -> (ok: bool)
        requires
            self.inv(),
            survey.fits(self@),
            king == self@.king_square(),
        ensures
            ok == self@.permits(*m),
    {
        let ghost v = self@;
        proof {
            m.to.lemma_slot_at();
        }
        if m.from == king && survey.attacked[m.to.index() as usize] {
            return false;
        }
        let mut i: usize = 0;
        while i < survey.threats.len()
            invariant
                i <= survey.threats.len(),
                self.inv(),
                v == self@,
                survey.fits(v),
                king == v.king_square(),
                forall|n: int| 0 <= n < i ==> (#[trigger] survey.threats[n]).permits(v, *m),
            decreases survey.threats.len() - i,
        {
            let threat = survey.threats[i];
            if !self.threat_allows(threat, king, m) {
                proof {
                    let line = v.lines_from(threat.attacker)[threat.line as int];
                    assert(v.king_on(line, threat.at as int));
                    assert(!v.line_permits(threat.attacker, line, *m));
                }
                return false;
            }
            i += 1;
        }
        proof {
            assert forall|a: Square, l: int|
                v.holds(a, v.enemy()) && 0 <= l < v.lines_from(a).len()
                    implies #[trigger] v.line_permits(a, v.lines_from(a)[l], *m) by {
                let line = v.lines_from(a)[l];
                assert forall|at: int| #[trigger] v.king_on(line, at) implies v.threat_permits(
                    a,
                    line,
                    at,
                    *m,
                ) by {
                    a.lemma_slot_at();
                    if v.blockers(line, at) <= 2 {
                        let n = choose|n: int|
                            0 <= n < survey.threats.len() && (#[trigger] survey.threats[n]).attacker
                                == a && survey.threats[n].line == l && survey.threats[n].at == at;
                        assert(survey.threats[n].permits(v, *m));
                    }
                }
            }
        }
        true
    }

    /// The moves among `pseudo` that the king's safety permits, in their
    /// order.
    fn keep_permitted(&self, pseudo: &Vec<Move>, survey: &Survey, king: Square) -> (kept: Vec<
        Move,
    >)
        requires
            self.inv(),
            survey.fits(self@),
            king == self@.king_square(),
        ensures
            kept@ == pseudo@.filter(self@.permitted()),
    {
        let ghost v = self@;
        let mut kept: Vec<Move> = Vec::new();
        let mut i: usize = 0;
        assert(pseudo@.take(0).filter(v.permitted()) =~= Seq::<Move>::empty());
        while i < pseudo.len()
            invariant
                i <= pseudo.len(),
                self.inv(),
                v == self@,
                survey.fits(v),
                king == v.king_square(),
                kept@ == pseudo@.take(i as int).filter(v.permitted()),
            decreases pseudo.len() - i,
        {
            let m = pseudo[i];
            proof {
                assert(pseudo@.take(i + 1) =~= pseudo@.take(i as int).push(m));
                pseudo@.take(i as int).lemma_filter_push(m, v.permitted());
            }
            if self.allows(survey, king, &m) {
                kept.push(m);
            }
            i += 1;
        }
        assert(pseudo@.take(pseudo.len() as int) =~= pseudo@);
        kept
    }

    /// The legal moves of the side to move, and whether that side is in
    /// check. With `only_captures`, only the moves that take a piece.
    ///
    /// No moves and check is mate; no moves and no check is stalemate.
    pub fn get_moves(&self, only_captures: bool) -> (found: (Vec<Move>, bool))
        requires
            self.inv(),
        ensures
            found.0@ == self@.legal_moves(only_captures),
            found.1 == self@.in_check(),
    {
        let ghost v = self@;
        proof {
            reveal(Position::legal_moves);
        }
        let (pseudo, king) = generate_all_moves(self, only_captures);
        let survey = self.survey();
        let rank = self.turn.get_piece_rank();
        let b = square(File::B, rank);
        let c = square(File::C, rank);
        let d = square(File::D, rank);
        let e = square(File::E, rank);
        let f = square(File::F, rank);
        let g = square(File::G, rank);
        proof {
            king.lemma_slot_at();
            c.lemma_slot_at();
            d.lemma_slot_at();
            f.lemma_slot_at();
            g.lemma_slot_at();
        }
        let in_check = self.piece_at(king).is_some() && survey.attacked[king.index() as usize];
        let mut moves = self.keep_permitted(&pseudo, &survey, king);
        let ghost kept = moves@;
        let rights = self.rights_of(self.turn);
        if !in_check && rights.kingside && self.piece_at(f).is_none() && self.piece_at(
            g,
        ).is_none() && !survey.attacked[f.index() as usize] && !survey.attacked[g.index() as usize] {
            moves.push(Move::from_castle(e, g));
        }
        if !in_check && rights.queenside && self.piece_at(b).is_none() && self.piece_at(
            c,
        ).is_none() && self.piece_at(d).is_none() && !survey.attacked[c.index() as usize]
            && !survey.attacked[d.index() as usize] {
            moves.push(Move::from_castle(e, c));
        }
        assert(moves@ =~= kept + v.castle_moves());
        if only_captures {
            moves = keep_captures(moves);
        }
        (moves, in_check)
    }
}

/// The piece that the placement has on `square`, if it has one.
pub(crate) fn piece_on(pieces: &IndexMap<u8, Piece>, square: Square) -> (found: Option<Piece>)
    ensures
        found == (if by_square(placed(*pieces)).contains_key(square) {
            Some(by_square(placed(*pieces))[square])
        } else {
            None
        }),
{
    pieces_get(pieces, square.index())
}

/// Takes the piece off `square`, with its attack lines.
pub(crate) fn lift(
    pieces: &mut IndexMap<u8, Piece>,
    lines: &mut IndexMap<u8, Vec<Vec<Square>>>,
    square: Square,
) -> (piece: Option<Piece>)
    ensures
        piece == (if by_square(placed(*old(pieces))).contains_key(square) {
            Some(by_square(placed(*old(pieces)))[square])
        } else {
            None
        }),
        by_square(placed(*final(pieces))) == by_square(placed(*old(pieces))).remove(square),
        in_step(placed(*old(pieces)), cached(*old(lines))) ==> in_step(
            placed(*final(pieces)),
            cached(*final(lines)),
        ),
{
    let piece = pieces_swap_remove(pieces, square.index());
    lines_swap_remove(lines, square.index());
    proof {
        assert(by_square(placed(*pieces)) =~= by_square(placed(*old(pieces))).remove(square)) by {
            assert forall|s: Square| s.slot() == square.slot() implies s == square by {
                s.lemma_slot_at();
                square.lemma_slot_at();
            }
        }
    }
    piece
}

/// Sets `piece` on `square`, with its attack lines.
pub(crate) fn put(
    pieces: &mut IndexMap<u8, Piece>,
    lines: &mut IndexMap<u8, Vec<Vec<Square>>>,
    square: Square,
    piece: Piece,
)
    ensures
        by_square(placed(*final(pieces))) == by_square(placed(*old(pieces))).insert(square, piece),
        in_step(placed(*old(pieces)), cached(*old(lines))) ==> in_step(
            placed(*final(pieces)),
            cached(*final(lines)),
        ),
{
    lines_insert(lines, square.index(), piece.get_attack_lines(square));
    pieces_insert(pieces, square.index(), piece);
    proof {
        square.lemma_slot_at();
        assert(by_square(placed(*pieces)) =~= by_square(placed(*old(pieces))).insert(
            square,
            piece,
        )) by {
            assert forall|s: Square| s.slot() == square.slot() implies s == square by {
                s.lemma_slot_at();
            }
        }
    }
}

/// Why a layout is not a position.
#[derive(Clone, Copy, PartialEq, Eq, Structural, Debug)]
pub enum BoardError {
    /// Two pieces are set on this square.
    TwicePlaced(Square),
    /// The side has no king.
    NoKing(Color),
    /// The side has more than one king.
    ManyKings(Color),
    /// The side is given a castling right, but its king or the rook of
    /// that wing does not stand at home.
    CastlingRight(Color),
    /// The en passant square is occupied.
    EnpassantSquare,
}

impl BoardError {
    /// What is wrong, in words.
    pub open spec fn text(self) -> Seq<char> {
        match self {
            BoardError::TwicePlaced(_) => "two pieces are set on one square"@,
            BoardError::NoKing(_) => "a side has no king"@,
            BoardError::ManyKings(_) => "a side has more than one king"@,
            BoardError::CastlingRight(_) =>
                "a side may castle though its king or rook is not at home"@,
            BoardError::EnpassantSquare => "the en passant square is occupied"@,
        }
    }

    /// What is wrong, in words.
    pub fn describe(&self) -> (text: String)
        ensures
            text@ == self.text(),
    {
        match self {
            BoardError::TwicePlaced(_) => "two pieces are set on one square".to_owned(),
            BoardError::NoKing(_) => "a side has no king".to_owned(),
            BoardError::ManyKings(_) => "a side has more than one king".to_owned(),
            BoardError::CastlingRight(_) =>
                "a side may castle though its king or rook is not at home".to_owned(),
            BoardError::EnpassantSquare => "the en passant square is occupied".to_owned(),
        }
    }
}

/// The placement that a list of squares and pieces describes.
pub open spec fn laid_out(placement: Seq<(Square, Piece)>) -> Map<Square, Piece>
    decreases placement.len(),
{
    if placement.len() == 0 {
        Map::empty()
    } else {
        laid_out(placement.drop_last()).insert(placement.last().0, placement.last().1)
    }
}

/// The square of entry `i` is that of an earlier entry.
pub open spec fn clashes(placement: Seq<(Square, Piece)>, i: int) -> bool {
    0 <= i < placement.len() && laid_out(placement.take(i)).contains_key(placement[i].0)
}

/// Entry `i` is the first whose square is that of an earlier entry.
pub open spec fn first_clash(placement: Seq<(Square, Piece)>, i: int) -> bool {
    clashes(placement, i) && forall|j: int| 0 <= j < i ==> !clashes(placement, j)
}

/// How many of the first `n` squares of the display order hold a king of
/// the given side.
pub open spec fn king_count(pieces: Map<Square, Piece>, color: Color, n: int) -> nat
    decreases n,
{
    if n <= 0 {
        0
    } else {
        king_count(pieces, color, n - 1) + if pieces.contains_key(Square::at(n - 1))
            && pieces[Square::at(n - 1)].kind == PieceType::King && pieces[Square::at(
            n - 1,
        )].color == color {
            1nat
        } else {
            0nat
        }
    }
}

/// Where the king of the given side stands: on the last of the first `n`
/// squares of the display order that holds one, and on `A1` for want of any.
pub open spec fn king_seat(pieces: Map<Square, Piece>, color: Color, n: int) -> Square
    decreases n,
{
    if n <= 0 {
        Square { file: File::A, rank: crate::structs::Rank::_1 }
    } else if pieces.contains_key(Square::at(n - 1)) && pieces[Square::at(n - 1)].kind
        == PieceType::King && pieces[Square::at(n - 1)].color == color {
        Square::at(n - 1)
    } else {
        king_seat(pieces, color, n - 1)
    }
}

/// The castling rights given to the side fit the placement.
pub open spec fn rights_fit(pieces: Map<Square, Piece>, color: Color, rights: CastlingRights)
    -> bool {
    &&& rights.kingside ==> crate::play::wing_intact(pieces, color, File::H)
    &&& rights.queenside ==> crate::play::wing_intact(pieces, color, File::A)
}

/// What is wrong with a layout, if anything: the first fault found when
/// looking, in this order, at the squares, at each side's kings, at each
/// side's castling rights and at the en passant square, White before Black.
pub open spec fn layout_fault(
    placement: Seq<(Square, Piece)>,
    white: CastlingRights,
    black: CastlingRights,
    enpassant_square: Option<Square>,
) -> Option<BoardError> {
    let pieces = laid_out(placement);
    if exists|i: int| first_clash(placement, i) {
        Some(BoardError::TwicePlaced(placement[choose|i: int| first_clash(placement, i)].0))
    } else if king_count(pieces, Color::White, 64) == 0 {
        Some(BoardError::NoKing(Color::White))
    } else if king_count(pieces, Color::White, 64) > 1 {
        Some(BoardError::ManyKings(Color::White))
    } else if king_count(pieces, Color::Black, 64) == 0 {
        Some(BoardError::NoKing(Color::Black))
    } else if king_count(pieces, Color::Black, 64) > 1 {
        Some(BoardError::ManyKings(Color::Black))
    } else if !rights_fit(pieces, Color::White, white) {
        Some(BoardError::CastlingRight(Color::White))
    } else if !rights_fit(pieces, Color::Black, black) {
        Some(BoardError::CastlingRight(Color::Black))
    } else if enpassant_square.is_some() && pieces.contains_key(enpassant_square.unwrap()) {
        Some(BoardError::EnpassantSquare)
    } else {
        None
    }
}

impl Board {
    /// The board shows the position that the layout describes: it is well
    /// formed, the pieces stand as the layout places them, each king's
    /// square is recorded, and nothing has been played yet.
    pub open spec fn shows(
        &self,
        placement: Seq<(Square, Piece)>,
        turn: Color,
        white: CastlingRights,
        black: CastlingRights,
        enpassant_square: Option<Square>,
        halfmove_clock: u32,
        fullmove_number: u32,
    ) -> bool {
        &&& self.well_formed()
        &&& self@.pieces == laid_out(placement)
        &&& self@.has(self@.kings[Color::White], PieceType::King, Color::White)
        &&& self@.has(self@.kings[Color::Black], PieceType::King, Color::Black)
        &&& self@.turn == turn
        &&& self@.castling_rights[Color::White] == white
        &&& self@.castling_rights[Color::Black] == black
        &&& self@.enpassant_square == enpassant_square
        &&& self@.halfmove_clock == halfmove_clock
        &&& self@.fullmove_number == fullmove_number
        &&& self@.history == Seq::<Move>::empty()
    }

    /// Counts the kings of the given side, and tells where the last of
    /// them in display order stands.
    pub fn find_king(&self, color: Color) -> (found: (usize, Square))
        ensures
            found.0 == king_count(self@.pieces, color, 64),
            found.1 == king_seat(self@.pieces, color, 64),
            found.0 >= 1 ==> self@.has(found.1, PieceType::King, color),
            found.0 == 1 ==> forall|s: Square|
                self@.has(s, PieceType::King, color) ==> s == found.1,
    {
        let slots = self.mailbox();
        let mut count: usize = 0;
        let mut seat = square(File::A, crate::structs::Rank::_1);
        let mut k: u8 = 0;
        while k < 64
            invariant
                k <= 64,
                count <= k,
                self@.fills(slots@),
                count == king_count(self@.pieces, color, k as int),
                seat == king_seat(self@.pieces, color, k as int),
                count >= 1 ==> self@.has(seat, PieceType::King, color),
                count == 1 ==> forall|s: Square|
                    s.slot() < k && self@.has(s, PieceType::King, color) ==> s == seat,
                count == 0 ==> forall|s: Square|
                    s.slot() < k ==> !self@.has(s, PieceType::King, color),
            decreases 64 - k,
        {
            proof {
                Square::lemma_at_slot(k as int);
                assert forall|s: Square| s.slot() == k implies s == Square::at(k as int) by {
                    s.lemma_slot_at();
                }
            }
            match (Square::from_index(k), slots[k as usize]) {
                (Some(s), Some(piece)) => {
                    if piece.kind == PieceType::King && piece.color == color {
                        count += 1;
                        seat = s;
                    }
                },
                _ => {},
            }
            k += 1;
        }
        proof {
            assert forall|s: Square| s.slot() < 64 by {
                s.lemma_slot_at();
            }
        }
        (count, seat)
    }

    /// Whether the castling rights given to the side fit the placement.
    fn rights_fit(&self, color: Color, rights: CastlingRights) -> (fit: bool)
        ensures
            fit == rights_fit(self@.pieces, color, rights),
    {
        let rank = color.get_piece_rank();
        let king_home = match self.piece_at(square(File::E, rank)) {
            Some(piece) => piece.kind == PieceType::King && piece.color == color,
            None => false,
        };
        let kingside = king_home && match self.piece_at(square(File::H, rank)) {
            Some(piece) => piece.kind == PieceType::Rook && piece.color == color,
            None => false,
        };
        let queenside = king_home && match self.piece_at(square(File::A, rank)) {
            Some(piece) => piece.kind == PieceType::Rook && piece.color == color,
            None => false,
        };
        (!rights.kingside || kingside) && (!rights.queenside || queenside)
    }

    /// The position that a layout describes: the pieces on their squares,
    /// the side to move, each side's castling rights, the en passant
    /// square and the clocks. A layout that is no position is refused
    /// with its first fault.
    pub fn new(
        placement: Vec<(Square, Piece)>,
        turn: Color,
        white: CastlingRights,
        black: CastlingRights,
        enpassant_square: Option<Square>,
        halfmove_clock: u32,
        fullmove_number: u32,
    ) -> (made: Result<Board, BoardError>)
        ensures
            made.is_err() == layout_fault(placement@, white, black, enpassant_square).is_some(),
            made matches Err(fault) ==> layout_fault(placement@, white, black, enpassant_square)
                == Some(fault),
            made matches Ok(board) ==> board.shows(
                placement@,
                turn,
                white,
                black,
                enpassant_square,
                halfmove_clock,
                fullmove_number,
            ),
    {
        let mut board = Board {
            history: Vec::new(),
            pieces: pieces_new(),
            attack_lines: lines_new(),
            kings: kings_new(),
            turn,
            castling_rights: rights_new(),
            enpassant_square,
            halfmove_clock,
            fullmove_number,
        };
        let mut i: usize = 0;
        assert(board@.pieces =~= laid_out(placement@.take(0)));
        while i < placement.len()
            invariant
                i <= placement.len(),
                in_step(placed(board.pieces), cached(board.attack_lines)),
                board@.pieces == laid_out(placement@.take(i as int)),
                forall|j: int| 0 <= j < i ==> !clashes(placement@, j),
                board.history@ == Seq::<Move>::empty(),
                seated(board.kings) == Map::<u8, Square>::empty(),
                granted(board.castling_rights) == Map::<u8, CastlingRights>::empty(),
                board.turn == turn,
                board.enpassant_square == enpassant_square,
                board.halfmove_clock == halfmove_clock,
                board.fullmove_number == fullmove_number,
            decreases placement.len() - i,
        {
            let (s, piece) = placement[i];
            if board.piece_at(s).is_some() {
                assert(first_clash(placement@, i as int));
                return Err(BoardError::TwicePlaced(s));
            }
            put(&mut board.pieces, &mut board.attack_lines, s, piece);
            proof {
                assert(placement@.take(i + 1).drop_last() =~= placement@.take(i as int));
                assert(placement@.take(i + 1).last() == placement@[i as int]);
            }
            i += 1;
        }
        proof {
            assert(placement@.take(placement.len() as int) =~= placement@);
            assert(!exists|n: int| first_clash(placement@, n));
        }
        let (white_kings, white_seat) = board.find_king(Color::White);
        if white_kings == 0 {
            return Err(BoardError::NoKing(Color::White));
        }
        if white_kings > 1 {
            return Err(BoardError::ManyKings(Color::White));
        }
        let (black_kings, black_seat) = board.find_king(Color::Black);
        if black_kings == 0 {
            return Err(BoardError::NoKing(Color::Black));
        }
        if black_kings > 1 {
            return Err(BoardError::ManyKings(Color::Black));
        }
        if !board.rights_fit(Color::White, white) {
            return Err(BoardError::CastlingRight(Color::White));
        }
        if !board.rights_fit(Color::Black, black) {
            return Err(BoardError::CastlingRight(Color::Black));
        }
        match enpassant_square {
            Some(passed) => {
                if board.piece_at(passed).is_some() {
                    return Err(BoardError::EnpassantSquare);
                }
            },
            None => {},
        }
        let ghost bare = board@;
        kings_insert(&mut board.kings, Color::White.code(), white_seat);
        kings_insert(&mut board.kings, Color::Black.code(), black_seat);
        rights_insert(&mut board.castling_rights, Color::White.code(), white);
        rights_insert(&mut board.castling_rights, Color::Black.code(), black);
        proof {
            assert(seated(board.kings).dom() =~= set![0u8, 1u8]);
            assert(granted(board.castling_rights).dom() =~= set![0u8, 1u8]);
            assert(board@.kings[Color::White] == white_seat);
            assert(board@.kings[Color::Black] == black_seat);
            assert forall|s: Square| #[trigger]
                board@.pieces.contains_key(s) && board@.pieces[s].kind == PieceType::King
                    implies board@.kings[board@.pieces[s].color] == s by {
                let c = board@.pieces[s].color;
                assert(bare.has(s, PieceType::King, c));
                if c == Color::White {
                    assert(s == white_seat);
                } else {
                    assert(s == black_seat);
                }
            }
        }
        Ok(board)
    }
}

} // verus!
