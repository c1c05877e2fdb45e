//! What can be asked of a position without changing it: check, material,
//! repetition and the moves played so far.

use vstd::prelude::*;
use crate::{AttackMasks, color, piece};
use crate::attack::{attacked_by, lemma_piece_is};
use crate::bits::{count, has_sq, lemma_empty, lemma_lowest, lowest, squares_below};
use crate::moves::Move;
use crate::piece::bb;
use crate::piece::bb::BitboardUtil;
use crate::pos::{
    BISHOP_VALUE, consistent, KNIGHT_VALUE, PAWN_VALUE, PieceValues, Position, QUEEN_VALUE,
    ROOK_VALUE, Square, StateInfo,
};

verus! {

/// `sq` is the lowest square of the board that holds `p`.
pub open spec fn is_first(board: Seq<piece::Piece>, p: piece::Piece, sq: int) -> bool {
    &&& 0 <= sq < 64
    &&& board[sq] == p
    &&& forall|j: int| 0 <= j < sq ==> board[j] != p
}

/// Some square of the board holds `p`.
pub open spec fn has_piece(board: Seq<piece::Piece>, p: piece::Piece) -> bool {
    exists|sq: int| 0 <= sq < 64 && board[sq] == p
}

/// The square of the king of `side`: the lowest one, should there be several.
pub open spec fn king_square(board: Seq<piece::Piece>, side: color::Color) -> int {
    choose|sq: int| is_first(board, piece::make(piece::KING, side), sq)
}

/// The king of the side to move is attacked.
pub open spec fn in_check(st: StateInfo) -> bool {
    attacked_by(st.board@, king_square(st.board@, st.side), st.side ^ color::MASK)
}

/// How often `p` stands on the squares below `n`.
pub open spec fn occurrences(board: Seq<piece::Piece>, p: piece::Piece, n: int) -> nat
    decreases n,
{
    if n <= 0 {
        0
    } else if board[n - 1] == p {
        occurrences(board, p, n - 1) + 1
    } else {
        occurrences(board, p, n - 1)
    }
}

/// How many pieces of kind `kind` the side `side` has on the board.
pub open spec fn pieces_of(board: Seq<piece::Piece>, kind: piece::Piece, side: color::Color) -> nat {
    occurrences(board, piece::make(kind, side), 64)
}

/// A bitboard that holds the squares of a piece holds as many squares as the
/// board has that piece.
pub proof fn lemma_count_occurrences(b: u64, board: Seq<piece::Piece>, p: piece::Piece, n: int)
    requires
        0 <= n <= 64,
        forall|sq: int| #[trigger] has_sq(b, sq) <==> 0 <= sq < 64 && board[sq] == p,
    ensures
        squares_below(b, n).len() == occurrences(board, p, n),
    decreases n,
{
    if n > 0 {
        lemma_count_occurrences(b, board, p, n - 1);
        assert(has_sq(b, n - 1) <==> board[n - 1] == p);
    }
}

/// The material of `side` with the given values: for each kind but the
/// king, the number of pieces times the value of the kind.
pub open spec fn material(board: Seq<piece::Piece>, side: color::Color, v: PieceValues) -> int {
    pieces_of(board, piece::QUEEN, side) * v.queen + pieces_of(board, piece::ROOK, side) * v.rook
        + pieces_of(board, piece::BISHOP, side) * v.bishop + pieces_of(board, piece::KNIGHT, side)
        * v.knight + pieces_of(board, piece::PAWN, side) * v.pawn
}

/// The values of the pieces in pawns: 9, 5, 3, 3 and 1.
pub open spec fn standard_values() -> PieceValues {
    PieceValues {
        pawn: PAWN_VALUE,
        knight: KNIGHT_VALUE,
        bishop: BISHOP_VALUE,
        rook: ROOK_VALUE,
        queen: QUEEN_VALUE,
        king: 0,
    }
}

/// `side` cannot force mate: it has no queen, rook or pawn, and either no
/// bishop and fewer than three knights, or one bishop and no knight.
pub open spec fn insufficient(board: Seq<piece::Piece>, side: color::Color) -> bool {
    &&& pieces_of(board, piece::QUEEN, side) == 0
    &&& pieces_of(board, piece::ROOK, side) == 0
    &&& pieces_of(board, piece::PAWN, side) == 0
    &&& ((pieces_of(board, piece::BISHOP, side) == 0 && pieces_of(board, piece::KNIGHT, side) < 3)
        || (pieces_of(board, piece::BISHOP, side) == 1 && pieces_of(board, piece::KNIGHT, side)
        == 0))
}

/// A lone king, a king with one minor piece, and a king with up to two
/// knights and no bishop are insufficient material; a pawn, a rook, a queen,
/// or a bishop together with a knight, are not.
pub proof fn lemma_insufficient_material(board: Seq<piece::Piece>, side: color::Color)
    ensures
        ({
            let q = pieces_of(board, piece::QUEEN, side);
            let r = pieces_of(board, piece::ROOK, side);
            let p = pieces_of(board, piece::PAWN, side);
            let b = pieces_of(board, piece::BISHOP, side);
            let n = pieces_of(board, piece::KNIGHT, side);
            &&& q + r + p + b + n == 0 ==> insufficient(board, side)
            &&& q + r + p == 0 && b + n == 1 ==> insufficient(board, side)
            &&& q + r + p == 0 && b == 0 && n <= 2 ==> insufficient(board, side)
            &&& p > 0 || r > 0 || q > 0 ==> !insufficient(board, side)
            &&& b >= 1 && n >= 1 ==> !insufficient(board, side)
        }),
{
}

/// The moves of the states that have one, in the order of the states.
pub open spec fn played(states: Seq<StateInfo>) -> Seq<Move>
    decreases states.len(),
{
    if states.len() == 0 {
        Seq::empty()
    } else {
        match states.last().move_played {
            Some(m) => played(states.drop_last()).push(m),
            None => played(states.drop_last()),
        }
    }
}

/// Whether the move that led to `st` cannot be reversed.
pub open spec fn after_irreversible(st: StateInfo) -> bool {
    match st.move_played {
        Some(m) => !m.reversible(),
        None => false,
    }
}

/// Walking back from entry `idx` of `past` two plies at a time, `need`
/// states with the key `key` are found before the walk passes a state that
/// an irreversible move led to, and before it runs out of states.
pub open spec fn repeats(past: Seq<StateInfo>, key: u64, idx: int, need: int) -> bool
    decreases idx,
{
    let left = if past[idx].key == key {
        need - 1
    } else {
        need
    };
    if left <= 0 {
        true
    } else if after_irreversible(past[idx]) {
        false
    } else if idx < 2 {
        false
    } else {
        repeats(past, key, idx - 2, left)
    }
}

/// The current state has occurred twice before: the last move is
/// reversible, at least six plies are on record, and the walk back from four
/// plies ago finds the current key twice.
pub open spec fn threefold(st: StateInfo, past: Seq<StateInfo>) -> bool {
    &&& !after_irreversible(st)
    &&& past.len() >= 6
    &&& repeats(past, st.key, st.ply - 4, 2)
}

/// `u64::count_ones`: the number of one bits of a word, which is the number
/// of squares that it holds as a bitboard.
#[verifier::external_body]
fn count_ones(b: bb::Bitboard) -> (n: u32)
    ensures
        n == count(b),
        n <= 64,
{
    b.count_ones()
}

impl Position {
    /// The lowest square that holds a king of the side to move.
    pub(crate) fn king_sq(&self) -> (sq: Square)
        requires
            consistent(self.state()),
            self.state().side == color::WHITE || self.state().side == color::BLACK,
            has_piece(self.state().board@, piece::make(piece::KING, self.state().side)),
        ensures
            sq < 64,
            is_first(self.state().board@, piece::make(piece::KING, self.state().side), sq as int),
            sq == king_square(self.state().board@, self.state().side),
    {
        let side = self.side_to_move();
        proof {
            lemma_piece_is(0, piece::KING, side);
        }
        let mut kings = self.piece_bb(piece::KING | side);
        proof {
            lemma_lowest(kings);
            lemma_empty(kings);
            let w = choose|sq: int|
                0 <= sq < 64 && self.state().board@[sq] == piece::make(piece::KING, side);
            assert(has_sq(kings, w));
        }
        let ghost all = kings;
        let sq = kings.serialize_once();
        proof {
            let p = piece::make(piece::KING, side);
            let board = self.state().board@;
            assert(has_sq(all, sq as int));
            assert forall|j: int| 0 <= j < sq implies board[j] != p by {
                assert(!has_sq(all, j));
            }
            assert(is_first(board, p, sq as int));
            let c = king_square(board, side);
            assert(is_first(board, p, c));
            if c < sq {
                assert(board[c] != p);
            }
            if sq < c {
                assert(board[sq as int] != p);
            }
        }
        sq
    }

    /// Whether the king of the side to move is in check.
    #[inline(always)]
    pub fn is_check(&self, masks: &AttackMasks) -> (r: bool)
        requires
            masks.wf(),
            consistent(self.state()),
            self.state().side == color::WHITE || self.state().side == color::BLACK,
            has_piece(self.state().board@, piece::make(piece::KING, self.state().side)),
        ensures
            r == in_check(self.state()),
    {
        let sq = self.king_sq();
        bb::is_attacked(sq, self, color::other(self.side_to_move()), masks)
    }

    /// How many pieces of kind `kind` the side `side` has.
    fn count_of(&self, kind: piece::Piece, side: color::Color) -> (n: u32)
        requires
            consistent(self.state()),
            piece::is_kind(kind),
            side == color::WHITE || side == color::BLACK,
        ensures
            n == pieces_of(self.state().board@, kind, side),
            n <= 64,
    {
        proof {
            lemma_piece_is(0, kind, side);
            lemma_count_occurrences(
                self.state().piece_bb[piece::index_of(piece::make(kind, side))],
                self.state().board@,
                piece::make(kind, side),
                64,
            );
        }
        count_ones(self.piece_bb(kind | side))
    }

    /// The material of `side` with the usual values of the pieces.
    #[inline(always)]
    pub fn count_material(&self, side: color::Color) -> (m: i32)
        requires
            consistent(self.state()),
            side == color::WHITE || side == color::BLACK,
        ensures
            m == material(self.state().board@, side, standard_values()),
            0 <= m <= 1344,
    {
        (self.count_of(piece::QUEEN, side) * QUEEN_VALUE + self.count_of(piece::ROOK, side)
            * ROOK_VALUE + self.count_of(piece::BISHOP, side) * BISHOP_VALUE + self.count_of(
            piece::KNIGHT,
            side,
        ) * KNIGHT_VALUE + self.count_of(piece::PAWN, side) * PAWN_VALUE) as i32
    }

    /// The material of `side` with the values `values`. The sum is taken in
    /// 32 unsigned bits and then read as a signed number.
    #[inline(always)]
    pub fn count_material_custom(&self, side: color::Color, values: PieceValues) -> (m: i32)
        requires
            consistent(self.state()),
            side == color::WHITE || side == color::BLACK,
            material(self.state().board@, side, values) <= u32::MAX,
        ensures
            m == material(self.state().board@, side, values) as u32 as i32,
    {
        let q = self.count_of(piece::QUEEN, side);
        let r = self.count_of(piece::ROOK, side);
        let b = self.count_of(piece::BISHOP, side);
        let n = self.count_of(piece::KNIGHT, side);
        let p = self.count_of(piece::PAWN, side);
        proof {
            assert(q * values.queen >= 0 && r * values.rook >= 0 && b * values.bishop >= 0 && n
                * values.knight >= 0 && p * values.pawn >= 0) by (nonlinear_arith);
        }
        #[verifier::truncate]
        ((q * values.queen + r * values.rook + b * values.bishop + n * values.knight + p
            * values.pawn) as i32)
    }

    /// White's material less black's, with the usual values.
    #[inline(always)]
    pub fn material_diff(&self) -> (d: i32)
        requires
            consistent(self.state()),
        ensures
            d == material(self.state().board@, color::WHITE, standard_values()) - material(
                self.state().board@,
                color::BLACK,
                standard_values(),
            ),
    {
        self.count_material(color::WHITE) - self.count_material(color::BLACK)
    }

    /// Whether `side` lacks the material to force mate.
    #[inline(always)]
    pub fn insufficient_material(&self, side: color::Color) -> (r: bool)
        requires
            consistent(self.state()),
            side == color::WHITE || side == color::BLACK,
        ensures
            r == insufficient(self.state().board@, side),
    {
        let queens = self.count_of(piece::QUEEN, side);
        let rooks = self.count_of(piece::ROOK, side);
        let pawns = self.count_of(piece::PAWN, side);
        let bishops = self.count_of(piece::BISHOP, side);
        let knights = self.count_of(piece::KNIGHT, side);
        queens == 0 && rooks == 0 && pawns == 0 && ((bishops == 0 && knights < 3) || (bishops == 1
            && knights == 0))
    }

    /// The moves that led to the current state, oldest first.
    #[inline(always)]
    pub fn moves(&self) -> (ms: Vec<Move>)
        ensures
            ms@ == played(self.past().push(self.state())),
    {
        let mut ms: Vec<Move> = Vec::new();
        let mut i: usize = 0;
        while i < self.history.len()
            invariant
                i <= self.history@.len(),
                ms@ == played(self.history@.subrange(0, i as int)),
            decreases self.history@.len() - i,
        {
            proof {
                let next = self.history@.subrange(0, i + 1);
                assert(next.drop_last() =~= self.history@.subrange(0, i as int));
                assert(next.last() == self.history@[i as int]);
            }
            match self.history[i].move_played {
                Some(m) => {
                    ms.push(m);
                },
                None => {},
            }
            i += 1;
        }
        proof {
            assert(self.history@.subrange(0, i as int) =~= self.history@);
            let all = self.history@.push(self.st);
            assert(all.drop_last() =~= self.history@);
            assert(all.last() == self.st);
        }
        match self.st.move_played {
            Some(m) => {
                ms.push(m);
            },
            None => {},
        }
        ms
    }

    /// For every state that the position went through, the current one
    /// last, the move that led to it or `None`.
    pub fn moves_opt(&self) -> (ms: Vec<Option<Move>>)
        ensures
            ms@.len() == self.past().len() + 1,
            forall|i: int| 0 <= i < self.past().len() ==> ms@[i] == self.past()[i].move_played,
            ms@[self.past().len() as int] == self.state().move_played,
    {
        let mut ms: Vec<Option<Move>> = Vec::new();
        let mut i: usize = 0;
        while i < self.history.len()
            invariant
                i <= self.history@.len(),
                ms@.len() == i,
                forall|j: int| 0 <= j < i ==> ms@[j] == self.history@[j].move_played,
            decreases self.history@.len() - i,
        {
            ms.push(self.history[i].move_played);
            i += 1;
        }
        ms.push(self.st.move_played);
        ms
    }

    /// Whether the current state has occurred at least three times, this
    /// occurrence included.
    pub fn is_3_rep(&self) -> (r: bool)
        requires
            self.past().len() >= 6 ==> 4 <= self.state().ply < self.past().len() + 4,
        ensures
            r == threefold(self.state(), self.past()),
    {
        match self.st.move_played {
            Some(mov) => {
                if !mov.is_reversible() {
                    return false;
                }
            },
            None => {},
        }
        if self.history.len() < 6 {
            return false;
        }
        let mut idx = self.st.ply - 4;
        let mut cnt: u8 = 0;
        loop
            invariant_except_break
                idx < self.history@.len(),
                cnt < 2,
                threefold(self.st, self.history@) == repeats(
                    self.history@,
                    self.st.key,
                    idx as int,
                    2 - cnt,
                ),
            ensures
                !threefold(self.st, self.history@),
            decreases idx,
        {
            if self.history[idx].key == self.st.key {
                cnt += 1;
                if cnt == 2 {
                    return true;
                }
            }
            match self.history[idx].move_played {
                Some(mov) => {
                    if !mov.is_reversible() {
                        break ;
                    }
                },
                None => {},
            }
            if idx < 2 {
                break ;
            }
            idx -= 2;
        }
        false
    }
}

} // verus!
