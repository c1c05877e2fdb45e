//! Moves: their representation and their text form.

use vstd::prelude::*;
use crate::{piece, pos};

pub mod agreement;
pub mod generate;
pub mod legal;
pub mod notation;
pub mod orderly;
pub mod rules;
pub mod succession;

pub use crate::moves::generate::{
    bishop_or_queen_moves, king_moves, knight_moves, pawn_moves, rook_or_queen_moves,
};
pub use crate::moves::legal::{gen_legal, is_playable};
pub use crate::moves::orderly::is_orderly;

verus! {

/// The kinds of move, which are told apart when a move is applied.
#[derive(Debug, Clone, Copy, Eq, PartialEq)]
pub enum MoveType {
    Normal,
    PawnTwoUp,
    /// A capture, with the piece taken.
    Capture(piece::Piece),
    /// A promotion, with the new piece.
    Promotion(piece::Piece),
    /// A capture that promotes: the new piece, then the piece taken.
    PromoCapture(piece::Piece, piece::Piece),
    EnPassant,
    KingSideCastle,
    QueenSideCastle,
}

/// A move: where from, where to, and of which kind.
#[derive(Debug, Clone, Copy, Eq, PartialEq)]
pub struct Move {
    from_sq: pos::Square,
    to_sq: pos::Square,
    type_of: MoveType,
    pub(crate) is_reversible: bool,
}

impl Move {
    /// The square that the move leaves.
    pub closed spec fn origin(self) -> int {
        self.from_sq as int
    }

    /// The square that the move goes to.
    pub closed spec fn target(self) -> int {
        self.to_sq as int
    }

    /// The kind of the move.
    pub closed spec fn kind(self) -> MoveType {
        self.type_of
    }

    /// Whether the move still counts as reversible.
    pub closed spec fn reversible(self) -> bool {
        self.is_reversible
    }

    /// Both squares of the move are on the board.
    pub open spec fn wf(self) -> bool {
        0 <= self.origin() < 64 && 0 <= self.target() < 64
    }

    /// The same move with its reversibility set to `flag`.
    pub closed spec fn stamped(self, flag: bool) -> Move {
        Move { from_sq: self.from_sq, to_sq: self.to_sq, type_of: self.type_of, is_reversible: flag }
    }

    /// What stamping a move changes and what it keeps.
    pub proof fn lemma_stamped(self, flag: bool)
        ensures
            self.stamped(flag).origin() == self.origin(),
            self.stamped(flag).target() == self.target(),
            self.stamped(flag).kind() == self.kind(),
            self.stamped(flag).reversible() == flag,
            self.reversible() == flag ==> self.stamped(flag) == self,
    {
    }

    /// Two moves that agree on squares, kind and reversibility are one move.
    pub proof fn lemma_same(a: Move, b: Move)
        requires
            a.origin() == b.origin(),
            a.target() == b.target(),
            a.kind() == b.kind(),
            a.reversible() == b.reversible(),
        ensures
            a == b,
    {
    }

    /// A reversible move from `from_sq` to `to_sq` of kind `type_of`.
    pub fn new(from_sq: pos::Square, to_sq: pos::Square, type_of: MoveType) -> (m: Move)
        requires
            from_sq < 64,
            to_sq < 64,
        ensures
            m.origin() == from_sq,
            m.target() == to_sq,
            m.kind() == type_of,
            m.reversible(),
            m.wf(),
    {
        Move { from_sq, to_sq, type_of, is_reversible: true }
    }

    /// The square that the moving piece stands on before the move.
    #[inline(always)]
    pub fn from_sq(self) -> (sq: pos::Square)
        ensures
            sq == self.origin(),
    {
        self.from_sq
    }

    /// The square that the move goes to.
    #[inline(always)]
    pub fn to_sq(self) -> (sq: pos::Square)
        ensures
            sq == self.target(),
    {
        self.to_sq
    }

    /// The kind of the move.
    #[inline(always)]
    pub fn type_of(self) -> (t: MoveType)
        ensures
            t == self.kind(),
    {
        self.type_of
    }

    /// Whether the move still counts as reversible. Every move starts out
    /// reversible; applying it to a position settles the flag.
    #[inline(always)]
    pub fn is_reversible(self) -> (r: bool)
        ensures
            r == self.reversible(),
    {
        self.is_reversible
    }

    /// The same move, marked as one that cannot be reversed.
    pub(crate) fn irreversible(self) -> (m: Move)
        ensures
            m == self.stamped(false),
    {
        Move { from_sq: self.from_sq, to_sq: self.to_sq, type_of: self.type_of, is_reversible: false }
    }
}

} // verus!
