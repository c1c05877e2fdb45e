//! The text form of moves: four characters for the two squares, and a
//! fifth for the piece of a promotion.

use vstd::prelude::*;
use vstd::string::StrSliceExecFns;
use crate::{color, piece, pos};
use crate::moves::{Move, MoveType};
use crate::pos::{names_square, square_name, square_named, StateInfo};
use crate::text::{alphabetic, ascii_char, char_code, is_letter, push_char, trim_text, trimmed};

verus! {

/// The letter that a promotion adds to the text of a move.
pub open spec fn promotion_suffix(kind: MoveType) -> Seq<char> {
    match kind {
        MoveType::Promotion(p) => seq![piece::kind_letter(p)],
        MoveType::PromoCapture(p, _) => seq![piece::kind_letter(p)],
        _ => Seq::empty(),
    }
}

/// The text of a move: the names of its two squares, and for a promotion
/// the lower-case letter of the new piece.
pub open spec fn move_text(m: Move) -> Seq<char> {
    square_name(m.origin()) + square_name(m.target()) + promotion_suffix(m.kind())
}

/// A text can be read as a move: it has four to six characters, of which
/// the first four name two squares.
pub open spec fn reads_as_move(t: Seq<char>) -> bool {
    &&& 4 <= t.len() <= 6
    &&& names_square(t.subrange(0, 2))
    &&& names_square(t.subrange(2, 4))
}

/// The lower-case form of an ASCII capital, and any other character unchanged.
pub open spec fn lowered(c: char) -> char {
    if 'A' <= c <= 'Z' {
        ((c as int) + 32) as char
    } else {
        c
    }
}

/// The distance between two squares as indices.
pub open spec fn index_gap(from: int, to: int) -> int {
    if from <= to {
        to - from
    } else {
        from - to
    }
}

/// The kind of the move that a text stands for on a given board. The text
/// gives the squares and, by a letter at its end, a promotion; the board
/// tells a capture from a quiet move, a pawn's double step and a capture en
/// passant from other pawn moves, and a castle from a step of the king.
pub open spec fn text_kind(t: Seq<char>, st: StateInfo) -> MoveType {
    let from = square_named(t.subrange(0, 2));
    let to = square_named(t.subrange(2, 4));
    let mover = st.board[from];
    let taken = st.board[to];
    let last = t.last();
    if alphabetic(last) {
        let promoted = (piece::spec_from_char(lowered(last)) & !color::BLACK) | (mover
            & color::MASK);
        if taken != piece::NONE {
            MoveType::PromoCapture(promoted, taken)
        } else {
            MoveType::Promotion(promoted)
        }
    } else if mover & piece::PAWN != 0 && index_gap(from, to) == 16 {
        MoveType::PawnTwoUp
    } else if mover & piece::PAWN != 0 && (index_gap(from, to) == 9 || index_gap(from, to) == 7)
        && taken == piece::NONE {
        MoveType::EnPassant
    } else if mover & piece::KING != 0 && to - from == 2 {
        MoveType::KingSideCastle
    } else if mover & piece::KING != 0 && from - to == 2 {
        MoveType::QueenSideCastle
    } else if taken != piece::NONE {
        MoveType::Capture(taken)
    } else {
        MoveType::Normal
    }
}

/// The lower-case form of an ASCII capital; any other character comes back
/// unchanged.
fn to_lower(c: char) -> (r: char)
    ensures
        r == lowered(c),
{
    let code = char_code(c);
    if 65 <= code && code <= 90 {
        ascii_char((code + 32) as u8)
    } else {
        c
    }
}

/// Appends the name of `square`.
fn push_square(s: &mut String, square: pos::Square)
    requires
        square < 64,
    ensures
        final(s)@ == old(s)@ + square_name(square as int),
{
    let (file, rank) = pos::make_tuple(square);
    push_char(s, ascii_char((file as u8) + 97));
    push_char(s, ascii_char((rank as u8) + 49));
    proof {
        assert(s@ =~= old(s)@ + square_name(square as int));
    }
}

/// The square that the two characters of `t` from `at` on name.
fn square_in(t: &str, at: usize) -> (sq: pos::Square)
    requires
        at <= 2,
        at + 2 <= t@.len(),
        names_square(t@.subrange(at as int, at + 2)),
    ensures
        sq == square_named(t@.subrange(at as int, at + 2)),
        sq < 64,
{
    let ghost part = t@.subrange(at as int, at + 2);
    assert(part[0] == t@[at as int] && part[1] == t@[at + 1]);
    let file = (char_code(t.get_char(at)) - 97) as isize;
    let rank = (char_code(t.get_char(at + 1)) - 49) as isize;
    pos::make_sq(file, rank)
}

/// Whether the two characters of `t` from `at` on name a square.
fn is_square_in(t: &str, at: usize) -> (r: bool)
    requires
        at <= 2,
        at + 2 <= t@.len(),
    ensures
        r == names_square(t@.subrange(at as int, at + 2)),
{
    let ghost part = t@.subrange(at as int, at + 2);
    assert(part[0] == t@[at as int] && part[1] == t@[at + 1]);
    let f = char_code(t.get_char(at));
    let r = char_code(t.get_char(at + 1));
    97 <= f && f <= 104 && 49 <= r && r <= 56
}

/// The flags of a piece after its colour is replaced.
proof fn lemma_recolour(p: u8)
    by (bit_vector)
    ensures
        ((p & !0x40u8) | 0x80u8) & 0x40 == 0,
        ((p & !0x40u8) | 0x80u8) & 1 == p & 1,
        ((p & !0x40u8) | 0x80u8) & 2 == p & 2,
        ((p & !0x40u8) | 0x80u8) & 4 == p & 4,
        ((p & !0x40u8) | 0x80u8) & 8 == p & 8,
        ((p & !0x40u8) | 0x80u8) & 16 == p & 16,
        ((p & !0x40u8) | 0x80u8) & 32 == p & 32,
{
}

impl Move {
    /// The text of the move, such as `e2e4`, or `e7e8q` for a promotion.
    pub fn to_uci_fmt(self) -> (uci: String)
        requires
            self.wf(),
        ensures
            uci@ == move_text(self),
    {
        let mut uci = String::new();
        push_square(&mut uci, self.from_sq());
        push_square(&mut uci, self.to_sq());
        match self.type_of() {
            MoveType::Promotion(promoted) => {
                proof {
                    lemma_recolour(promoted);
                }
                push_char(&mut uci, piece::as_char((promoted & !color::WHITE) | color::BLACK));
            },
            MoveType::PromoCapture(promoted, _) => {
                proof {
                    lemma_recolour(promoted);
                }
                push_char(&mut uci, piece::as_char((promoted & !color::WHITE) | color::BLACK));
            },
            _ => {},
        }
        proof {
            assert(uci@ =~= move_text(self));
        }
        uci
    }

    /// Reads a move from its text, with `pos` as the position in which it
    /// is played: the text does not say of which kind the move is. White
    /// space around the text is ignored, and so is an equals sign before
    /// the letter of a promotion.
    pub fn from_str_move(uci: &str, pos: &pos::Position) -> (m: Move)
        requires
            reads_as_move(trimmed(uci@)),
        ensures
            m.origin() == square_named(trimmed(uci@).subrange(0, 2)),
            m.target() == square_named(trimmed(uci@).subrange(2, 4)),
            m.kind() == text_kind(trimmed(uci@), pos.state()),
            m.reversible(),
            m.wf(),
    {
        let t = trim_text(uci);
        let len = t.unicode_len();
        let from = square_in(t, 0);
        let to = square_in(t, 2);
        let promo = t.get_char(len - 1);
        let mover = pos.piece_on(from);
        let taken = pos.piece_on(to);
        if is_letter(promo) {
            let promoted = (piece::from_char(to_lower(promo)) & !color::BLACK) | color::of(mover);
            if taken != piece::NONE {
                return Move::new(from, to, MoveType::PromoCapture(promoted, taken));
            } else {
                return Move::new(from, to, MoveType::Promotion(promoted));
            }
        }
        let gap = if from <= to {
            to - from
        } else {
            from - to
        };
        if mover & piece::PAWN != 0 {
            if gap == 16 {
                return Move::new(from, to, MoveType::PawnTwoUp);
            } else if (gap == 9 || gap == 7) && taken == piece::NONE {
                return Move::new(from, to, MoveType::EnPassant);
            }
        }
        if mover & piece::KING != 0 {
            if from + 2 == to {
                return Move::new(from, to, MoveType::KingSideCastle);
            } else if to + 2 == from {
                return Move::new(from, to, MoveType::QueenSideCastle);
            }
        }
        if taken != piece::NONE {
            Move::new(from, to, MoveType::Capture(taken))
        } else {
            Move::new(from, to, MoveType::Normal)
        }
    }

    /// Reads a move from its text as `from_str_move` does, and gives `None`
    /// for a text that cannot be read as a move.
    pub fn try_from_str_move(uci: &str, pos: &pos::Position) -> (r: Option<Move>)
        ensures
            r is Some <==> reads_as_move(trimmed(uci@)),
            r matches Some(m) ==> {
                &&& m.origin() == square_named(trimmed(uci@).subrange(0, 2))
                &&& m.target() == square_named(trimmed(uci@).subrange(2, 4))
                &&& m.kind() == text_kind(trimmed(uci@), pos.state())
                &&& m.reversible()
                &&& m.wf()
            },
    {
        let t = trim_text(uci);
        let len = t.unicode_len();
        if len < 4 || len > 6 {
            return None;
        }
        if !is_square_in(t, 0) || !is_square_in(t, 2) {
            return None;
        }
        Some(Move::from_str_move(uci, pos))
    }
}

} // verus!
