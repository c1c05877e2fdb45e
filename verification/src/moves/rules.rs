//! The rules of movement: which moves each piece has on a given board,
//! before the safety of the own king is looked at.

use vstd::prelude::*;
use crate::{color, piece};
use crate::attack::{attacked_by, is_diagonal_slider, is_line_slider, occupied};
use crate::geometry::{
    bishop_reach, king_step, knight_step, on_board, pawn_step, rank_ix, rook_reach,
};
use crate::moves::{Move, MoveType};
use crate::pos::{BK_CASTLE, BQ_CASTLE, spec_ahead, StateInfo, WK_CASTLE, WQ_CASTLE};
use crate::pos::query::{in_check, king_square};

verus! {

/// The colour that is not to move.
pub open spec fn enemy_of(st: StateInfo) -> color::Color {
    st.side ^ color::MASK
}

/// A piece of the side that is not to move stands on `t`.
pub open spec fn holds_enemy(st: StateInfo, t: int) -> bool {
    st.board[t] != piece::NONE && piece::color_of(st.board[t]) == enemy_of(st)
}

/// The move lands as a step or a slide does: on an empty square as a
/// normal move, or on an enemy piece as a capture that names that piece.
pub open spec fn lands(st: StateInfo, m: Move) -> bool {
    &&& m.reversible()
    &&& on_board(m.origin())
    &&& (m.kind() == MoveType::Normal || m.kind() == MoveType::Capture(st.board[m.target()]))
    &&& (m.kind() == MoveType::Normal <==> st.board[m.target()] == piece::NONE)
    &&& (m.kind() != MoveType::Normal ==> holds_enemy(st, m.target()))
}

/// A move from `m.origin()` to one of the squares that a piece attacks from there.
pub open spec fn knight_move(st: StateInfo, m: Move) -> bool {
    &&& st.board[m.origin()] == piece::make(piece::KNIGHT, st.side)
    &&& knight_step(m.origin(), m.target())
    &&& lands(st, m)
}

/// A move of a rook or a queen along a file or a rank.
pub open spec fn line_move(st: StateInfo, m: Move) -> bool {
    &&& is_line_slider(st.board[m.origin()], st.side)
    &&& rook_reach(occupied(st.board@), m.origin(), m.target())
    &&& lands(st, m)
}

/// A move of a bishop or a queen along a diagonal.
pub open spec fn diagonal_move(st: StateInfo, m: Move) -> bool {
    &&& is_diagonal_slider(st.board[m.origin()], st.side)
    &&& bishop_reach(occupied(st.board@), m.origin(), m.target())
    &&& lands(st, m)
}

/// A step of the king.
pub open spec fn king_step_move(st: StateInfo, m: Move) -> bool {
    &&& m.origin() == king_square(st.board@, st.side)
    &&& king_step(m.origin(), m.target())
    &&& lands(st, m)
}

/// The right to castle on the king's side of the side to move; every
/// colour but white is read as black.
pub open spec fn own_king_side(st: StateInfo) -> u8 {
    if st.side == color::WHITE {
        WK_CASTLE
    } else {
        BK_CASTLE
    }
}

/// The right to castle on the queen's side of the side to move.
pub open spec fn own_queen_side(st: StateInfo) -> u8 {
    if st.side == color::WHITE {
        WQ_CASTLE
    } else {
        BQ_CASTLE
    }
}

/// The side to move may castle on the king's side: it holds the right, the
/// two squares next to the king are empty, the king is not in check, and
/// neither of the two squares is attacked.
pub open spec fn may_castle_king_side(st: StateInfo) -> bool {
    let k = king_square(st.board@, st.side);
    &&& st.castling & own_king_side(st) != 0
    &&& st.board[k + 1] == piece::NONE
    &&& st.board[k + 2] == piece::NONE
    &&& !in_check(st)
    &&& !attacked_by(st.board@, k + 1, enemy_of(st))
    &&& !attacked_by(st.board@, k + 2, enemy_of(st))
}

/// The side to move may castle on the queen's side: it holds the right, the
/// three squares between king and rook are empty, the king is not in
/// check, and neither of the two squares that the king crosses is attacked.
pub open spec fn may_castle_queen_side(st: StateInfo) -> bool {
    let k = king_square(st.board@, st.side);
    &&& st.castling & own_queen_side(st) != 0
    &&& st.board[k - 1] == piece::NONE
    &&& st.board[k - 2] == piece::NONE
    &&& st.board[k - 3] == piece::NONE
    &&& !in_check(st)
    &&& !attacked_by(st.board@, k - 1, enemy_of(st))
    &&& !attacked_by(st.board@, k - 2, enemy_of(st))
}

/// A castle that the side to move may make.
pub open spec fn castle_move(st: StateInfo, m: Move) -> bool {
    let k = king_square(st.board@, st.side);
    &&& m.reversible()
    &&& m.origin() == k
    &&& ({
        ||| (m.kind() == MoveType::KingSideCastle && m.target() == k + 2 && may_castle_king_side(st))
        ||| (m.kind() == MoveType::QueenSideCastle && m.target() == k - 2 && may_castle_queen_side(
            st,
        ))
    })
}

/// A move of the king: a step or a castle.
pub open spec fn king_move(st: StateInfo, m: Move) -> bool {
    king_step_move(st, m) || castle_move(st, m)
}

/// The rank on which the pawns of the side to move promote.
pub open spec fn promotion_rank(st: StateInfo) -> int {
    if st.side == color::WHITE {
        7
    } else {
        0
    }
}

/// The rank from which the pawns of the side to move may advance two squares.
pub open spec fn double_step_rank(st: StateInfo) -> int {
    if st.side == color::WHITE {
        1
    } else {
        6
    }
}

/// `p` is a queen, rook, bishop or knight of colour `side`.
pub open spec fn promotion_piece(side: color::Color, p: piece::Piece) -> bool {
    p == piece::make(piece::QUEEN, side) || p == piece::make(piece::ROOK, side) || p == piece::make(
        piece::BISHOP,
        side,
    ) || p == piece::make(piece::KNIGHT, side)
}

/// `p` is a queen, rook, bishop or knight of the side to move.
pub open spec fn promotes_to(st: StateInfo, p: piece::Piece) -> bool {
    promotion_piece(st.side, p)
}

/// The king can castle without leaving the board: a right that the side to
/// move holds comes with a king that has the squares of that castle beside it.
pub open spec fn castles_fit(st: StateInfo) -> bool {
    let k = king_square(st.board@, st.side);
    &&& st.castling & own_king_side(st) != 0 ==> k + 2 < 64
    &&& st.castling & own_queen_side(st) != 0 ==> k >= 3
}

/// No pawn of the side to move stands on the rank where it would have promoted.
pub open spec fn pawns_can_advance(st: StateInfo) -> bool {
    forall|sq: int|
        0 <= sq < 64 && #[trigger] st.board[sq] == piece::make(piece::PAWN, st.side) ==> rank_ix(sq)
            != promotion_rank(st)
}

/// A capture by a pawn; on the last rank it promotes.
pub open spec fn pawn_capture(st: StateInfo, m: Move) -> bool {
    &&& pawn_step(st.side == color::WHITE, m.origin(), m.target())
    &&& holds_enemy(st, m.target())
    &&& if rank_ix(m.target()) == promotion_rank(st) {
        exists|p: piece::Piece|
            #[trigger] promotes_to(st, p) && m.kind() == MoveType::PromoCapture(
                p,
                st.board[m.target()],
            )
    } else {
        m.kind() == MoveType::Capture(st.board[m.target()])
    }
}

/// A capture en passant: the pawn attacks the en-passant target.
pub open spec fn pawn_en_passant(st: StateInfo, m: Move) -> bool {
    &&& pawn_step(st.side == color::WHITE, m.origin(), m.target())
    &&& st.ep_square == Some(m.target() as usize)
    &&& m.kind() == MoveType::EnPassant
}

/// An advance of one square onto an empty square; on the last rank it promotes.
pub open spec fn pawn_push(st: StateInfo, m: Move) -> bool {
    &&& m.target() == spec_ahead(m.origin(), st.side)
    &&& on_board(m.target())
    &&& st.board[m.target()] == piece::NONE
    &&& if rank_ix(m.target()) == promotion_rank(st) {
        exists|p: piece::Piece| #[trigger] promotes_to(st, p) && m.kind() == MoveType::Promotion(p)
    } else {
        m.kind() == MoveType::Normal
    }
}

/// An advance of two squares from the starting rank over two empty squares.
pub open spec fn pawn_double_push(st: StateInfo, m: Move) -> bool {
    let up1 = spec_ahead(m.origin(), st.side);
    &&& rank_ix(m.origin()) == double_step_rank(st)
    &&& on_board(up1)
    &&& st.board[up1] == piece::NONE
    &&& m.target() == spec_ahead(up1, st.side)
    &&& on_board(m.target())
    &&& st.board[m.target()] == piece::NONE
    &&& m.kind() == MoveType::PawnTwoUp
}

/// A move of a pawn.
pub open spec fn pawn_move(st: StateInfo, m: Move) -> bool {
    &&& m.reversible()
    &&& on_board(m.origin())
    &&& st.board[m.origin()] == piece::make(piece::PAWN, st.side)
    &&& (pawn_capture(st, m) || pawn_en_passant(st, m) || pawn_push(st, m) || pawn_double_push(
        st,
        m,
    ))
}

/// A move that obeys the rules of movement of its piece. Whether it leaves
/// the own king in check is a separate question.
pub open spec fn pseudo_legal(st: StateInfo, m: Move) -> bool {
    pawn_move(st, m) || knight_move(st, m) || line_move(st, m) || diagonal_move(st, m)
        || king_move(st, m)
}

/// `new` is `old` with moves added at its end.
pub open spec fn grown(old: Seq<Move>, new: Seq<Move>) -> bool {
    old.len() <= new.len() && new.subrange(0, old.len() as int) == old
}

/// The moves that `new` has after those of `old`.
pub open spec fn added(old: Seq<Move>, new: Seq<Move>) -> Seq<Move> {
    new.subrange(old.len() as int, new.len() as int)
}

/// Adding a value to a sequence adds it to what the sequence contains.
pub proof fn lemma_push_contains(s: Seq<Move>, x: Move)
    ensures
        forall|m: Move| #[trigger] s.push(x).contains(m) <==> s.contains(m) || m == x,
        s.no_duplicates() && !s.contains(x) ==> s.push(x).no_duplicates(),
{
    assert forall|m: Move| #[trigger] s.push(x).contains(m) <==> s.contains(m) || m == x by {
        if s.contains(m) {
            let i = choose|i: int| 0 <= i < s.len() && s[i] == m;
            assert(s.push(x)[i] == m);
        }
        if m == x {
            assert(s.push(x)[s.len() as int] == m);
        }
        if s.push(x).contains(m) {
            let i = choose|i: int| 0 <= i < s.push(x).len() && s.push(x)[i] == m;
            if i < s.len() {
                assert(s[i] == m);
            }
        }
    }
}

/// What two sequences contain, their concatenation contains.
pub proof fn lemma_concat_contains(a: Seq<Move>, b: Seq<Move>)
    ensures
        forall|m: Move| #[trigger] (a + b).contains(m) <==> a.contains(m) || b.contains(m),
        a.no_duplicates() && b.no_duplicates() && (forall|m: Move|
            !(a.contains(m) && b.contains(m))) ==> (a + b).no_duplicates(),
{
    assert forall|m: Move| #[trigger] (a + b).contains(m) <==> a.contains(m) || b.contains(m) by {
        if a.contains(m) {
            let i = choose|i: int| 0 <= i < a.len() && a[i] == m;
            assert((a + b)[i] == m);
        }
        if b.contains(m) {
            let i = choose|i: int| 0 <= i < b.len() && b[i] == m;
            assert((a + b)[a.len() + i] == m);
        }
        if (a + b).contains(m) {
            let i = choose|i: int| 0 <= i < (a + b).len() && (a + b)[i] == m;
            if i < a.len() {
                assert(a[i] == m);
            } else {
                assert(b[i - a.len()] == m);
            }
        }
    }
    if a.no_duplicates() && b.no_duplicates() && (forall|m: Move|
        !(a.contains(m) && b.contains(m))) {
        assert forall|i: int, j: int|
            0 <= i < (a + b).len() && 0 <= j < (a + b).len() && i != j implies (a + b)[i] != (a
            + b)[j] by {
            if i < a.len() && j >= a.len() {
                assert(a.contains(a[i]));
                assert(b.contains(b[j - a.len()]));
            }
            if j < a.len() && i >= a.len() {
                assert(a.contains(a[j]));
                assert(b.contains(b[i - a.len()]));
            }
        }
    }
}

/// A sequence that has grown twice has grown once, by both additions.
pub proof fn lemma_grown_twice(a: Seq<Move>, b: Seq<Move>, c: Seq<Move>)
    requires
        grown(a, b),
        grown(b, c),
    ensures
        grown(a, c),
        added(a, c) == added(a, b) + added(b, c),
{
    assert(c.subrange(0, a.len() as int) =~= b.subrange(0, a.len() as int));
    assert(added(a, c) =~= added(a, b) + added(b, c));
}

} // verus!
