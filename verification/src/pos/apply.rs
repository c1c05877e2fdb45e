//! Applying a move to a position and taking it back.

use vstd::prelude::*;
use crate::{color, piece, ZobristValues};
use crate::geometry::{file_ix, on_board};
use crate::moves::{Move, MoveType};
use crate::pos::{
    behind, BK_ROOK_SQ, BQ_ROOK_SQ, CastleRights, consistent, file_of, king_side_right,
    lose_kcastle_rights, lose_qcastle_rights, Position, queen_side_right, same_frame,
    spec_behind, Square, StateInfo, WK_ROOK_SQ, WQ_ROOK_SQ,
};
use crate::zobrist::{lemma_castle_lose, lemma_keyed_board, lemma_keyed_step, lemma_xor, residue};

verus! {

/// The piece that the move takes, as the move itself names it.
pub open spec fn named_capture(mov: Move) -> Option<piece::Piece> {
    match mov.kind() {
        MoveType::Capture(cap) => Some(cap),
        MoveType::PromoCapture(_, cap) => Some(cap),
        _ => None,
    }
}

/// The rights that are left once the mover has moved its king or a rook
/// from the a-file or the h-file.
pub open spec fn rights_after_leaving(st: StateInfo, mov: Move) -> CastleRights {
    let moving = st.board[mov.origin()];
    if moving & piece::KING != 0 {
        (st.castling & !king_side_right(st.side)) & !queen_side_right(st.side)
    } else if moving & piece::ROOK != 0 {
        if file_ix(mov.origin()) == 0 {
            st.castling & !queen_side_right(st.side)
        } else if file_ix(mov.origin()) == 7 {
            st.castling & !king_side_right(st.side)
        } else {
            st.castling
        }
    } else {
        st.castling
    }
}

/// The right that the opponent loses when the move takes a rook on one of
/// the opponent's corner squares, and no right otherwise.
pub open spec fn right_taken(st: StateInfo, mov: Move) -> CastleRights {
    match named_capture(mov) {
        Some(cap) => if cap & piece::ROOK != 0 {
            if st.side == color::WHITE {
                if mov.target() == BQ_ROOK_SQ {
                    crate::pos::BQ_CASTLE
                } else if mov.target() == BK_ROOK_SQ {
                    crate::pos::BK_CASTLE
                } else {
                    crate::pos::NO_CASTLING
                }
            } else if st.side == color::BLACK {
                if mov.target() == WQ_ROOK_SQ {
                    crate::pos::WQ_CASTLE
                } else if mov.target() == WK_ROOK_SQ {
                    crate::pos::WK_CASTLE
                } else {
                    crate::pos::NO_CASTLING
                }
            } else {
                crate::pos::NO_CASTLING
            }
        } else {
            crate::pos::NO_CASTLING
        },
        None => crate::pos::NO_CASTLING,
    }
}

/// The castling rights after the move.
pub open spec fn rights_after(st: StateInfo, mov: Move) -> CastleRights {
    rights_after_leaving(st, mov) & !right_taken(st, mov)
}

/// The board with the piece on `from` moved to `to`.
pub open spec fn relocated(board: Seq<piece::Piece>, from: int, to: int) -> Seq<piece::Piece> {
    board.update(to, board[from]).update(from, piece::NONE)
}

/// Where the rook of a castle starts and where it ends.
pub open spec fn castle_rook(side: color::Color, king_side: bool) -> (int, int) {
    if king_side {
        if side == color::WHITE {
            (7, 5)
        } else {
            (63, 61)
        }
    } else {
        if side == color::WHITE {
            (0, 3)
        } else {
            (56, 59)
        }
    }
}

/// The board after the move.
pub open spec fn board_after(st: StateInfo, mov: Move) -> Seq<piece::Piece> {
    let from = mov.origin();
    let to = mov.target();
    let moved = relocated(st.board@, from, to);
    match mov.kind() {
        MoveType::Normal => moved,
        MoveType::Capture(_) => moved,
        MoveType::PawnTwoUp => moved,
        MoveType::Promotion(p) => st.board@.update(to, p).update(from, piece::NONE),
        MoveType::PromoCapture(p, _) => st.board@.update(to, p).update(from, piece::NONE),
        MoveType::EnPassant => moved.update(spec_behind(to, st.side), piece::NONE),
        MoveType::KingSideCastle => relocated(
            moved,
            castle_rook(st.side, true).0,
            castle_rook(st.side, true).1,
        ),
        MoveType::QueenSideCastle => relocated(
            moved,
            castle_rook(st.side, false).0,
            castle_rook(st.side, false).1,
        ),
    }
}

/// The en-passant target after the move: the square that a pawn has
/// skipped, and none after any other move.
pub open spec fn ep_after(st: StateInfo, mov: Move) -> Option<Square> {
    match mov.kind() {
        MoveType::PawnTwoUp => Some(spec_behind(mov.target(), st.side) as usize),
        _ => None,
    }
}

/// Whether the move resets the count of plies since the last irreversible move.
pub open spec fn resets_count(st: StateInfo, mov: Move) -> bool {
    st.board[mov.origin()] & piece::PAWN != 0 || mov.kind() is Capture
}

/// Whether the move cannot be reversed: a pawn move, or any move that is
/// not of the normal kind.
pub open spec fn is_irreversible(st: StateInfo, mov: Move) -> bool {
    st.board[mov.origin()] & piece::PAWN != 0 || !(mov.kind() is Normal)
}

/// The move as the new state records it.
pub open spec fn recorded(st: StateInfo, mov: Move) -> Move {
    if is_irreversible(st, mov) {
        mov.stamped(false)
    } else {
        mov
    }
}

/// The move as it is recorded is the move as it was given, but for the
/// flag that says whether it can be reversed: the flag stays set only on a
/// move that came in with the flag set and is not irreversible.
pub proof fn lemma_recorded(st: StateInfo, mov: Move)
    ensures
        recorded(st, mov).origin() == mov.origin(),
        recorded(st, mov).target() == mov.target(),
        recorded(st, mov).kind() == mov.kind(),
        recorded(st, mov).reversible() == (mov.reversible() && !is_irreversible(st, mov)),
{
    mov.lemma_stamped(false);
}

/// The move can be carried out on the board: there is a piece to move, a
/// pawn's double step and an en-passant capture have a square behind the
/// target, a promotion names a real piece, and an en-passant capture and a
/// castle find the pawn and the rook that they move.
pub open spec fn movable(st: StateInfo, mov: Move) -> bool {
    let from = mov.origin();
    let to = mov.target();
    let moved = relocated(st.board@, from, to);
    &&& mov.wf()
    &&& (st.side == color::WHITE || st.side == color::BLACK)
    &&& st.board[from] != piece::NONE
    &&& match mov.kind() {
        MoveType::Normal => true,
        MoveType::Capture(_) => true,
        MoveType::PawnTwoUp => on_board(spec_behind(to, st.side)),
        MoveType::Promotion(p) => piece::is_piece(p),
        MoveType::PromoCapture(p, _) => piece::is_piece(p),
        MoveType::EnPassant => on_board(spec_behind(to, st.side)) && moved[spec_behind(
            to,
            st.side,
        )] != piece::NONE,
        MoveType::KingSideCastle => moved[castle_rook(st.side, true).0] != piece::NONE,
        MoveType::QueenSideCastle => moved[castle_rook(st.side, false).0] != piece::NONE,
    }
}

/// What `make_move` asks of a move: not that it is legal, but that it can be
/// carried out on the board, that the en-passant target of the state, if
/// there is one, is a square, and that the counters have room for one more ply.
pub open spec fn applicable(st: StateInfo, mov: Move) -> bool {
    &&& movable(st, mov)
    &&& st.rule50 < u8::MAX
    &&& st.ply < usize::MAX
    &&& (st.ep_square matches Some(e) ==> e < 64)
}

/// `post` is what `pre` becomes when `mov` is applied: the old state goes on
/// top of the history, and the new state is the old one with the board, the
/// side, the rights, the en-passant target and the counters moved on.
pub open spec fn made(pre: Position, mov: Move, zb: ZobristValues, post: Position) -> bool {
    let st = pre.state();
    &&& post.past() == pre.past().push(st)
    &&& post.wf(zb)
    &&& post.state().board@ == board_after(st, mov)
    &&& post.state().side == st.side ^ color::MASK
    &&& post.state().castling == rights_after(st, mov)
    &&& post.state().ep_square == ep_after(st, mov)
    &&& post.state().rule50 == if resets_count(st, mov) {
        0
    } else {
        st.rule50 + 1
    }
    &&& post.state().ply == st.ply + 1
    &&& post.state().move_played == Some(recorded(st, mov))
}

/// `post` is what `pre` becomes when its last move is taken back: the state
/// on top of the history is the current state again.
pub open spec fn unmade(pre: Position, post: Position) -> bool {
    &&& pre.past().len() > 0
    &&& post.state() == pre.past().last()
    &&& post.past() == pre.past().drop_last()
}

/// Applying a move and taking it back restores the state, key and all, and
/// the history.
pub proof fn lemma_make_unmake(
    start: Position,
    mov: Move,
    zb: ZobristValues,
    after: Position,
    back: Position,
)
    requires
        made(start, mov, zb, after),
        unmade(after, back),
    ensures
        back.state() == start.state(),
        back.past() == start.past(),
{
    assert(start.past().push(start.state()).drop_last() =~= start.past());
}

/// The rights only shrink: what is held after a move was held before it.
pub proof fn lemma_rights_shrink(st: StateInfo, mov: Move)
    ensures
        rights_after(st, mov) & st.castling == rights_after(st, mov),
{
    let a = st.castling;
    let k = king_side_right(st.side);
    let q = queen_side_right(st.side);
    let t = right_taken(st, mov);
    assert(forall|x: u8, y: u8| #[trigger] ((a & !x) & !y) & a == (a & !x) & !y) by (bit_vector);
    assert(forall|x: u8| #[trigger] (a & !x) & a == a & !x) by (bit_vector);
    assert(a & !0u8 == a) by (bit_vector);
    assert(forall|x: u8, y: u8, z: u8|
        #[trigger] (((a & !x) & !y) & !z) & a == ((a & !x) & !y) & !z) by (bit_vector);
}

impl Position {
    /// Opens a new ply: the current state goes on top of the history, the
    /// counters move on, `mov` is recorded and the en-passant target lapses.
    fn open_ply(&mut self, mov: Move, zb: &ZobristValues)
        requires
            old(self).wf(*zb),
            old(self).state().rule50 < u8::MAX,
            old(self).state().ply < usize::MAX,
            old(self).state().ep_square matches Some(e) ==> e < 64,
        ensures
            final(self).past() == old(self).past().push(old(self).state()),
            final(self).wf(*zb),
            final(self).state().board == old(self).state().board,
            final(self).state().side == old(self).state().side,
            final(self).state().castling == old(self).state().castling,
            final(self).state().ep_square is None,
            final(self).state().rule50 == old(self).state().rule50 + 1,
            final(self).state().ply == old(self).state().ply + 1,
            final(self).state().move_played == Some(mov),
    {
        self.history.push(self.st);
        self.st.rule50 += 1;
        self.st.move_played = Some(mov);
        self.st.ply += 1;
        match self.st.ep_square {
            Some(square) => {
                let ghost before = self.st;
                self.st.ep_square = None;
                self.st.key ^= zb.ep_files[file_of(square) as usize];
                proof {
                    let v = zb.ep_value(square as int % 8);
                    lemma_xor(v, 0, 0);
                    lemma_keyed_step(*zb, before, self.st, v);
                }
            },
            None => {},
        }
        assert(self.past() == old(self).past().push(old(self).state()));
        assert forall|i: int| 0 <= i < self.past().len() implies crate::pos::sound(
            *zb,
            #[trigger] self.past()[i],
        ) by {
            if i < old(self).past().len() {
                assert(self.past()[i] == old(self).past()[i]);
            }
        }
    }

    /// Gives up the rights that the mover loses by moving its king or a
    /// rook from the a-file or the h-file.
    fn leave_rights(&mut self, mov: Move, zb: &ZobristValues)
        requires
            old(self).wf(*zb),
            mov.wf(),
        ensures
            final(self).past() == old(self).past(),
            final(self).wf(*zb),
            final(self).state().castling == rights_after_leaving(old(self).state(), mov),
            final(self).state().board == old(self).state().board,
            same_but_rights(final(self).state(), old(self).state()),
    {
        let from = mov.from_sq();
        let side = self.st.side;
        let moving_piece = self.st.board[from];
        let ghost st1 = self.st;
        if moving_piece & piece::KING != 0 {
            let v = lose_kcastle_rights(&mut self.st.castling, side, zb);
            self.st.key ^= v;
            let ghost st2 = self.st;
            proof {
                lemma_castle_lose(*zb, st1.castling, king_side_right(side));
                lemma_keyed_step(*zb, st1, st2, v);
            }
            let w = lose_qcastle_rights(&mut self.st.castling, side, zb);
            self.st.key ^= w;
            proof {
                lemma_castle_lose(*zb, st2.castling, queen_side_right(side));
                lemma_keyed_step(*zb, st2, self.st, w);
            }
        } else if moving_piece & piece::ROOK != 0 {
            let file = file_of(from);
            let v = if file == 0 {
                lose_qcastle_rights(&mut self.st.castling, side, zb)
            } else if file == 7 {
                lose_kcastle_rights(&mut self.st.castling, side, zb)
            } else {
                0
            };
            self.st.key ^= v;
            proof {
                lemma_castle_lose(*zb, st1.castling, queen_side_right(side));
                lemma_castle_lose(*zb, st1.castling, king_side_right(side));
                lemma_xor(st1.key, 0, 0);
                if file != 0 && file != 7 {
                    assert(self.st == st1);
                } else {
                    lemma_keyed_step(*zb, st1, self.st, v);
                }
            }
        }
        assert(self.past() == old(self).past());
    }

    /// Takes from the opponent the right that goes with a rook captured on
    /// one of the opponent's corner squares.
    fn take_rights(&mut self, mov: Move, zb: &ZobristValues)
        requires
            old(self).wf(*zb),
            mov.wf(),
        ensures
            final(self).past() == old(self).past(),
            final(self).wf(*zb),
            final(self).state().castling == old(self).state().castling & !right_taken(
                old(self).state(),
                mov,
            ),
            final(self).state().board == old(self).state().board,
            same_but_rights(final(self).state(), old(self).state()),
    {
        let to = mov.to_sq();
        let side = self.st.side;
        let ghost st3 = self.st;
        let rook_captured = match mov.type_of() {
            MoveType::Capture(cap) => cap & piece::ROOK != 0,
            MoveType::PromoCapture(_, cap) => cap & piece::ROOK != 0,
            _ => false,
        };
        proof {
            crate::pos::lemma_rights(st3.castling);
        }
        if rook_captured {
            let v = if side == color::WHITE {
                if to == BQ_ROOK_SQ {
                    lose_qcastle_rights(&mut self.st.castling, color::BLACK, zb)
                } else if to == BK_ROOK_SQ {
                    lose_kcastle_rights(&mut self.st.castling, color::BLACK, zb)
                } else {
                    0
                }
            } else if side == color::BLACK {
                if to == WQ_ROOK_SQ {
                    lose_qcastle_rights(&mut self.st.castling, color::WHITE, zb)
                } else if to == WK_ROOK_SQ {
                    lose_kcastle_rights(&mut self.st.castling, color::WHITE, zb)
                } else {
                    0
                }
            } else {
                0
            };
            self.st.key ^= v;
            proof {
                lemma_xor(st3.key, 0, 0);
                lemma_xor(crate::zobrist::castle_key(*zb, st3.castling), 0, 0);
                lemma_castle_lose(*zb, st3.castling, right_taken(st3, mov));
                lemma_keyed_step(*zb, st3, self.st, v);
            }
        }
        assert(self.past() == old(self).past());
    }

    /// Moves the pieces as the kind of `mov` says, and sets the en-passant
    /// target after a pawn's double step. Returns whether the kind of the
    /// move makes it irreversible.
    fn carry_out(&mut self, mov: Move, zb: &ZobristValues) -> (irreversible: bool)
        requires
            old(self).wf(*zb),
            movable(old(self).state(), mov),
            old(self).state().ep_square is None,
        ensures
            final(self).past() == old(self).past(),
            final(self).wf(*zb),
            final(self).state().board@ == board_after(old(self).state(), mov),
            final(self).state().ep_square == ep_after(old(self).state(), mov),
            final(self).state().side == old(self).state().side,
            final(self).state().castling == old(self).state().castling,
            final(self).state().rule50 == old(self).state().rule50,
            final(self).state().ply == old(self).state().ply,
            final(self).state().move_played == old(self).state().move_played,
            irreversible == !(mov.kind() is Normal),
    {
        let from = mov.from_sq();
        let to = mov.to_sq();
        let side = self.st.side;
        let ghost st4 = self.st;
        match mov.type_of() {
            MoveType::Normal => {
                self.move_piece(from, to, zb);
                proof {
                    lemma_keyed_board(*zb, st4, self.st);
                }
                false
            },
            MoveType::Capture(_) => {
                self.move_piece(from, to, zb);
                proof {
                    lemma_keyed_board(*zb, st4, self.st);
                }
                true
            },
            MoveType::PawnTwoUp => {
                self.move_piece(from, to, zb);
                proof {
                    lemma_keyed_board(*zb, st4, self.st);
                }
                let sq_behind = behind(to, side);
                let ghost before = self.st;
                self.st.ep_square = Some(sq_behind);
                self.st.key ^= zb.ep_files[file_of(sq_behind) as usize];
                proof {
                    let v = zb.ep_value(sq_behind as int % 8);
                    lemma_xor(v, 0, 0);
                    lemma_keyed_step(*zb, before, self.st, v);
                }
                true
            },
            MoveType::Promotion(promoted) => {
                self.put_piece(promoted, to, zb);
                self.remove_piece(from, zb);
                proof {
                    lemma_keyed_board(*zb, st4, self.st);
                }
                true
            },
            MoveType::PromoCapture(promoted, _) => {
                self.put_piece(promoted, to, zb);
                self.remove_piece(from, zb);
                proof {
                    lemma_keyed_board(*zb, st4, self.st);
                }
                true
            },
            MoveType::EnPassant => {
                self.move_piece(from, to, zb);
                self.remove_piece(behind(to, side), zb);
                proof {
                    lemma_keyed_board(*zb, st4, self.st);
                }
                true
            },
            MoveType::KingSideCastle => {
                self.move_piece(from, to, zb);
                let (rook_from, rook_to): (Square, Square) = if side == color::WHITE {
                    (WK_ROOK_SQ, WK_ROOK_SQ - 2)
                } else {
                    (BK_ROOK_SQ, BK_ROOK_SQ - 2)
                };
                self.move_piece(rook_from, rook_to, zb);
                proof {
                    lemma_keyed_board(*zb, st4, self.st);
                }
                true
            },
            MoveType::QueenSideCastle => {
                self.move_piece(from, to, zb);
                let (rook_from, rook_to): (Square, Square) = if side == color::WHITE {
                    (WQ_ROOK_SQ, WQ_ROOK_SQ + 3)
                } else {
                    (BQ_ROOK_SQ, BQ_ROOK_SQ + 3)
                };
                self.move_piece(rook_from, rook_to, zb);
                proof {
                    lemma_keyed_board(*zb, st4, self.st);
                }
                true
            },
        }
    }

    /// The piece that stands on `square` once the piece on `from` has
    /// moved to `to`.
    fn piece_once_moved(&self, from: Square, to: Square, square: Square) -> (p: piece::Piece)
        requires
            from < 64,
            to < 64,
            square < 64,
        ensures
            p == relocated(self.state().board@, from as int, to as int)[square as int],
    {
        if square == from {
            piece::NONE
        } else if square == to {
            self.st.board[from]
        } else {
            self.st.board[square]
        }
    }

    /// Whether `mov` can be applied: whether `make_move` may be called with it.
    pub fn is_applicable(&self, mov: Move) -> (r: bool)
        ensures
            r == applicable(self.state(), mov),
    {
        let from = mov.from_sq();
        let to = mov.to_sq();
        let side = self.st.side;
        if from >= 64 || to >= 64 || (side != color::WHITE && side != color::BLACK) {
            return false;
        }
        if self.st.board[from] == piece::NONE || self.st.rule50 == u8::MAX || self.st.ply
            == usize::MAX {
            return false;
        }
        match self.st.ep_square {
            Some(e) => {
                if e >= 64 {
                    return false;
                }
            },
            None => {},
        }
        let behind_on_board = if side == color::WHITE {
            to >= 8
        } else {
            to < 56
        };
        match mov.type_of() {
            MoveType::Normal => true,
            MoveType::Capture(_) => true,
            MoveType::PawnTwoUp => behind_on_board,
            MoveType::Promotion(p) => piece::is_real(p),
            MoveType::PromoCapture(p, _) => piece::is_real(p),
            MoveType::EnPassant => behind_on_board && self.piece_once_moved(
                from,
                to,
                behind(to, side),
            ) != piece::NONE,
            MoveType::KingSideCastle => {
                let rook_from = if side == color::WHITE {
                    WK_ROOK_SQ
                } else {
                    BK_ROOK_SQ
                };
                self.piece_once_moved(from, to, rook_from) != piece::NONE
            },
            MoveType::QueenSideCastle => {
                let rook_from = if side == color::WHITE {
                    WQ_ROOK_SQ
                } else {
                    BQ_ROOK_SQ
                };
                self.piece_once_moved(from, to, rook_from) != piece::NONE
            },
        }
    }

    /// Applies `mov`. The move is not checked for legality, and its kind is
    /// taken on trust.
    pub fn make_move(&mut self, mov: Move, zb: &ZobristValues)
        requires
            old(self).wf(*zb),
            applicable(old(self).state(), mov),
        ensures
            made(*old(self), mov, *zb, *final(self)),
    {
        let ghost st0 = self.st;
        self.open_ply(mov, zb);
        let pawn_moves = self.st.board[mov.from_sq()] & piece::PAWN != 0;
        self.leave_rights(mov, zb);
        self.take_rights(mov, zb);
        let by_kind = self.carry_out(mov, zb);
        if pawn_moves {
            self.st.rule50 = 0;
        }
        match mov.type_of() {
            MoveType::Capture(_) => {
                self.st.rule50 = 0;
            },
            _ => {},
        }
        if pawn_moves || by_kind {
            self.st.move_played = Some(mov.irreversible());
        }
        let ghost st5 = self.st;
        color::switch(&mut self.st.side);
        self.st.key ^= zb.black_to_move;
        proof {
            let v = zb.side_value();
            lemma_xor(v, 0, 0);
            lemma_keyed_step(*zb, st5, self.st, v);
        }
    }

    /// Takes the last move back: the state on top of the history becomes
    /// the current state again.
    pub fn unmake_move(&mut self)
        requires
            old(self).past().len() > 0,
        ensures
            unmade(*old(self), *final(self)),
            forall|zb: ZobristValues| old(self).wf(zb) ==> final(self).wf(zb),
    {
        let last = self.history.len() - 1;
        self.st = self.history[last];
        self.history.pop();
    }
}

/// The board on which the legality of a move is probed: the piece is moved,
/// and an en-passant capture takes the pawn behind the target off.
pub open spec fn probe_board(st: StateInfo, mov: Move, ep: bool) -> Seq<piece::Piece> {
    let moved = relocated(st.board@, mov.origin(), mov.target());
    if ep {
        moved.update(spec_behind(mov.target(), st.side), piece::NONE)
    } else {
        moved
    }
}

/// The square whose piece a probed move takes.
pub open spec fn capture_square(st: StateInfo, mov: Move, ep: bool) -> int {
    if ep {
        spec_behind(mov.target(), st.side)
    } else {
        mov.target()
    }
}

/// What a probe asks of a move: a piece to move and, for an en-passant
/// capture, a pawn to take behind the target.
pub open spec fn probeable(st: StateInfo, mov: Move, ep: bool) -> bool {
    &&& mov.wf()
    &&& mov.origin() != mov.target()
    &&& st.board[mov.origin()] != piece::NONE
    &&& ep ==> {
        &&& on_board(spec_behind(mov.target(), st.side))
        &&& spec_behind(mov.target(), st.side) != mov.origin()
        &&& st.board[spec_behind(mov.target(), st.side)] != piece::NONE
        &&& st.board[mov.target()] == piece::NONE
    }
}

/// A probe that is made and taken back leaves the state as it was.
pub proof fn lemma_probe_restores(
    zb: ZobristValues,
    st: StateInfo,
    mid: StateInfo,
    end: StateInfo,
    mov: Move,
    ep: bool,
)
    requires
        consistent(st),
        consistent(end),
        probeable(st, mov, ep),
        mid.board@ == probe_board(st, mov, ep),
        end.board@ == unprobe_board(mid, mov, st.board[capture_square(st, mov, ep)], ep),
        mid.side == st.side,
        same_frame(end, st),
        residue(zb, end) == residue(zb, st),
    ensures
        end == st,
{
    assert(end.board@ =~= st.board@);
    lemma_xor(end.key, crate::zobrist::board_key(zb, st.board@, 64), st.key);
    lemma_xor(st.key, crate::zobrist::board_key(zb, st.board@, 64), end.key);
    crate::pos::lemma_consistent_unique(end, st);
}

/// The board after a probe is taken back: the piece returns to where it
/// came from, and the piece that was taken, if any, to its square.
pub open spec fn unprobe_board(st: StateInfo, mov: Move, cap: piece::Piece, ep: bool) -> Seq<
    piece::Piece,
> {
    let back = relocated(st.board@, mov.target(), mov.origin());
    if cap != piece::NONE {
        back.update(capture_square(st, mov, ep), cap)
    } else {
        back
    }
}

impl Position {
    /// Moves the piece of `mov` without any of the bookkeeping of
    /// `make_move`, to probe whether the move is legal; `ep` says that the
    /// move is an en-passant capture. Returns the piece taken, or
    /// `piece::NONE`, so that `fast_unmake` can put it back.
    pub(crate) fn fast_make(&mut self, mov: Move, ep: bool, zb: &ZobristValues) -> (cap:
        piece::Piece)
        requires
            consistent(old(self).state()),
            mov.wf(),
            old(self).state().board[mov.origin()] != piece::NONE,
            ep ==> on_board(spec_behind(mov.target(), old(self).state().side)) && relocated(
                old(self).state().board@,
                mov.origin(),
                mov.target(),
            )[spec_behind(mov.target(), old(self).state().side)] != piece::NONE,
        ensures
            consistent(final(self).state()),
            final(self).past() == old(self).past(),
            same_frame(final(self).state(), old(self).state()),
            residue(*zb, final(self).state()) == residue(*zb, old(self).state()),
            final(self).state().board@ == probe_board(old(self).state(), mov, ep),
            cap == old(self).state().board[capture_square(old(self).state(), mov, ep)],
    {
        let taken_on = if ep {
            behind(mov.to_sq(), self.st.side)
        } else {
            mov.to_sq()
        };
        let cap = self.st.board[taken_on];
        self.move_piece(mov.from_sq(), mov.to_sq(), zb);
        if ep {
            self.remove_piece(taken_on, zb);
        }
        cap
    }

    /// Takes back a move made with `fast_make`, which returned `cap`.
    pub(crate) fn fast_unmake(&mut self, mov: Move, cap: piece::Piece, ep: bool, zb: &ZobristValues)
        requires
            consistent(old(self).state()),
            mov.wf(),
            old(self).state().board[mov.target()] != piece::NONE,
            cap == piece::NONE || piece::is_piece(cap),
            ep && cap != piece::NONE ==> on_board(
                spec_behind(mov.target(), old(self).state().side),
            ),
        ensures
            consistent(final(self).state()),
            final(self).past() == old(self).past(),
            same_frame(final(self).state(), old(self).state()),
            residue(*zb, final(self).state()) == residue(*zb, old(self).state()),
            final(self).state().board@ == unprobe_board(old(self).state(), mov, cap, ep),
    {
        self.move_piece(mov.to_sq(), mov.from_sq(), zb);
        if cap != piece::NONE {
            if ep {
                self.put_piece(cap, behind(mov.to_sq(), self.st.side), zb);
            } else {
                self.put_piece(cap, mov.to_sq(), zb);
            }
        }
    }
}

/// Two states agree on everything but rights and key.
pub open spec fn same_but_rights(a: StateInfo, b: StateInfo) -> bool {
    &&& a.ep_square == b.ep_square
    &&& a.rule50 == b.rule50
    &&& a.move_played == b.move_played
    &&& a.side == b.side
    &&& a.ply == b.ply
}

} // verus!
