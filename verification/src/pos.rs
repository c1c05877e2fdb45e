//! The position: board, bitboards, rights and counters, with its history.

use vstd::prelude::*;
use crate::{color, moves, piece, zobrist, ZobristValues};
use crate::bits::{has_sq, lemma_sq_ops};
use crate::geometry::{file_ix, rank_ix, square_at};
use crate::piece::bb;
use crate::piece::bb::BitboardUtil;
use crate::zobrist::{
    board_key, lemma_board_key_update, lemma_xor, lemma_xor_cancel, residue, square_key,
    state_key,
};

pub mod apply;
pub mod fen;
pub mod query;

verus! {

pub type Rank = isize;

pub type File = isize;

pub type Square = usize;

/// Castling rights: four independent flags in one byte.
pub type CastleRights = u8;

pub const NO_CASTLING: CastleRights = 0x0;

/// White may still castle on the king's side.
pub const WK_CASTLE: CastleRights = 0x2;

/// White may still castle on the queen's side.
pub const WQ_CASTLE: CastleRights = 0x4;

/// Black may still castle on the king's side.
pub const BK_CASTLE: CastleRights = 0x8;

/// Black may still castle on the queen's side.
pub const BQ_CASTLE: CastleRights = 0x10;

pub const FILE_A: File = 0;

pub const FILE_B: File = 1;

pub const FILE_C: File = 2;

pub const FILE_D: File = 3;

pub const FILE_E: File = 4;

pub const FILE_F: File = 5;

pub const FILE_G: File = 6;

pub const FILE_H: File = 7;

pub const RANK_1: Rank = 0;

pub const RANK_2: Rank = 1;

pub const RANK_3: Rank = 2;

pub const RANK_4: Rank = 3;

pub const RANK_5: Rank = 4;

pub const RANK_6: Rank = 5;

pub const RANK_7: Rank = 6;

pub const RANK_8: Rank = 7;

/// Where the white king's rook starts.
pub const WK_ROOK_SQ: Square = 7;

/// Where the white queen's rook starts.
pub const WQ_ROOK_SQ: Square = 0;

/// Where the black king's rook starts.
pub const BK_ROOK_SQ: Square = 63;

/// Where the black queen's rook starts.
pub const BQ_ROOK_SQ: Square = 56;

/// The board description of the starting position.
pub const START_FEN: &'static str = "rnbqkbnr/pppppppp/8/8/8/8/PPPPPPPP/RNBQKBNR w KQkq - 0 1";

/// The value of the fifty-move counter, in plies, at which a game is drawn.
pub const RULE_50_PLIES: u8 = 100;

pub const QUEEN_VALUE: u32 = 9;

pub const ROOK_VALUE: u32 = 5;

pub const BISHOP_VALUE: u32 = 3;

pub const KNIGHT_VALUE: u32 = 3;

pub const PAWN_VALUE: u32 = 1;

/// The value of each piece kind, as whole numbers so that they can be
/// given in hundredths of a pawn.
#[derive(Debug, Clone, Copy, Eq, PartialEq)]
pub struct PieceValues {
    pub pawn: u32,
    pub knight: u32,
    pub bishop: u32,
    pub rook: u32,
    pub queen: u32,
    pub king: u32,
}

/// Everything that makes up the state of a game at one moment.
#[derive(Debug, Clone, Copy, Eq, PartialEq)]
pub struct StateInfo {
    pub ep_square: Option<Square>,
    pub rule50: u8,
    pub castling: CastleRights,
    pub move_played: Option<moves::Move>,
    pub board: [piece::Piece; 64],
    pub piece_bb: [bb::Bitboard; 12],
    pub color_bb: [bb::Bitboard; 2],
    pub side: color::Color,
    pub ply: usize,
    pub key: zobrist::Key,
}

/// The current state of a game and the states it went through, oldest first.
#[derive(Debug, Clone, Eq, PartialEq)]
pub struct Position {
    st: StateInfo,
    history: Vec<StateInfo>,
}

/// Every square of the board holds one of the twelve pieces or nothing.
pub open spec fn pieces_valid(board: Seq<piece::Piece>) -> bool {
    forall|sq: int|
        0 <= sq < 64 ==> #[trigger] board[sq] == piece::NONE || piece::is_piece(board[sq])
}

/// The index of the bitboard of the colour that owns `p`.
pub open spec fn owner_index(p: piece::Piece) -> int {
    piece::color_index_of(piece::color_of(p))
}

/// The three representations of the board agree: each piece bitboard holds
/// the squares on which the board array has that piece, and each colour
/// bitboard the squares on which it has a piece of that colour.
pub open spec fn consistent(st: StateInfo) -> bool {
    &&& pieces_valid(st.board@)
    &&& forall|i: int, sq: int|
        0 <= i < 12 ==> (#[trigger] has_sq(st.piece_bb[i], sq) <==> 0 <= sq < 64 && st.board[sq]
            == piece::piece_at_index(i))
    &&& forall|c: int, sq: int|
        0 <= c < 2 ==> (#[trigger] has_sq(st.color_bb[c], sq) <==> 0 <= sq < 64 && st.board[sq]
            != piece::NONE && owner_index(st.board[sq]) == c)
}

/// The representations of the board agree, and the key is the key of the
/// state computed from scratch with the values of `zb`.
pub open spec fn sound(zb: ZobristValues, st: StateInfo) -> bool {
    consistent(st) && st.key == state_key(zb, st)
}

/// Two states agree on everything but board, bitboards and key.
pub open spec fn same_frame(a: StateInfo, b: StateInfo) -> bool {
    &&& a.ep_square == b.ep_square
    &&& a.rule50 == b.rule50
    &&& a.castling == b.castling
    &&& a.move_played == b.move_played
    &&& a.side == b.side
    &&& a.ply == b.ply
}

/// A consistent state is determined by its board, its key and its frame.
pub proof fn lemma_consistent_unique(a: StateInfo, b: StateInfo)
    requires
        consistent(a),
        consistent(b),
        a.board@ == b.board@,
        a.key == b.key,
        same_frame(a, b),
    ensures
        a == b,
{
    assert(a.board =~= b.board);
    assert forall|i: int| 0 <= i < 12 implies a.piece_bb[i] == b.piece_bb[i] by {
        assert forall|sq: int| 0 <= sq < 64 implies has_sq(a.piece_bb[i], sq) == has_sq(
            b.piece_bb[i],
            sq,
        ) by {}
        crate::bits::lemma_ext(a.piece_bb[i], b.piece_bb[i]);
    }
    assert forall|c: int| 0 <= c < 2 implies a.color_bb[c] == b.color_bb[c] by {
        assert forall|sq: int| 0 <= sq < 64 implies has_sq(a.color_bb[c], sq) == has_sq(
            b.color_bb[c],
            sq,
        ) by {}
        crate::bits::lemma_ext(a.color_bb[c], b.color_bb[c]);
    }
    assert(a.piece_bb =~= b.piece_bb);
    assert(a.color_bb =~= b.color_bb);
}

impl Position {
    /// The current state.
    pub closed spec fn state(&self) -> StateInfo {
        self.st
    }

    /// The earlier states, oldest first.
    pub closed spec fn past(&self) -> Seq<StateInfo> {
        self.history@
    }

    /// In the current state and in every earlier one, the representations
    /// of the board agree and the key is the key of the state computed from
    /// scratch with the values of `zb`.
    pub open spec fn wf(&self, zb: ZobristValues) -> bool {
        &&& sound(zb, self.state())
        &&& forall|i: int| 0 <= i < self.past().len() ==> sound(zb, #[trigger] self.past()[i])
    }

    /// An empty board with no side to move, no rights and no history.
    pub fn blank() -> (p: Position)
        ensures
            p.past() == Seq::<StateInfo>::empty(),
            p.state().ep_square is None,
            p.state().rule50 == 0,
            p.state().castling == NO_CASTLING,
            p.state().move_played is None,
            p.state().side == color::NONE,
            p.state().ply == 0,
            p.state().key == 0,
            forall|sq: int| 0 <= sq < 64 ==> p.state().board[sq] == piece::NONE,
            consistent(p.state()),
    {
        proof {
            lemma_sq_ops();
        }
        Position {
            st: StateInfo {
                ep_square: None,
                rule50: 0,
                castling: NO_CASTLING,
                move_played: None,
                board: [piece::NONE;64],
                piece_bb: [bb::EMPTY;12],
                color_bb: [bb::EMPTY;2],
                side: color::NONE,
                ply: 0,
                key: 0,
            },
            history: Vec::new(),
        }
    }

    /// A position without history whose state is entry `ply` of the states
    /// that this position went through, the current state being the last.
    pub fn from_ply(&self, ply: usize) -> (p: Position)
        requires
            ply <= self.past().len(),
        ensures
            p.past() == Seq::<StateInfo>::empty(),
            p.state() == if ply < self.past().len() {
                self.past()[ply as int]
            } else {
                self.state()
            },
    {
        let st = if ply < self.history.len() {
            self.history[ply]
        } else {
            self.st
        };
        Position { st, history: Vec::new() }
    }

    /// The colour whose turn it is.
    #[inline(always)]
    pub fn side_to_move(&self) -> (c: color::Color)
        ensures
            c == self.state().side,
    {
        self.st.side
    }

    /// The earlier states, oldest first.
    #[inline(always)]
    pub fn history(&self) -> (h: &Vec<StateInfo>)
        ensures
            h@ == self.past(),
    {
        &self.history
    }

    /// The earlier states followed by the current one.
    #[inline(always)]
    pub fn history_i(&self) -> (h: Vec<StateInfo>)
        ensures
            h@ == self.past().push(self.state()),
    {
        let mut h: Vec<StateInfo> = Vec::new();
        let mut i: usize = 0;
        while i < self.history.len()
            invariant
                i <= self.history@.len(),
                h@ == self.history@.subrange(0, i as int),
            decreases self.history@.len() - i,
        {
            h.push(self.history[i]);
            proof {
                assert(h@ =~= self.history@.subrange(0, i + 1));
            }
            i += 1;
        }
        proof {
            assert(self.history@.subrange(0, i as int) =~= self.history@);
        }
        h.push(self.st);
        h
    }

    /// The square on which a pawn may be taken en passant, if there is one.
    #[inline(always)]
    pub fn ep_square(&self) -> (ep: Option<Square>)
        ensures
            ep == self.state().ep_square,
    {
        self.st.ep_square
    }

    /// The plies played since the last irreversible move; a game is drawn
    /// when this reaches `RULE_50_PLIES`.
    #[inline(always)]
    pub fn rule50(&self) -> (n: u8)
        ensures
            n == self.state().rule50,
    {
        self.st.rule50
    }

    /// The castling rights of both sides.
    #[inline(always)]
    pub fn castle_rights(&self) -> (c: CastleRights)
        ensures
            c == self.state().castling,
    {
        self.st.castling
    }

    /// The key of the current state.
    #[inline(always)]
    pub fn key(&self) -> (k: u64)
        ensures
            k == self.state().key,
    {
        self.st.key
    }

    /// The board as 64 entries, `piece::NONE` on the empty squares.
    #[inline(always)]
    pub fn board(&self) -> (b: &[piece::Piece; 64])
        ensures
            *b == self.state().board,
    {
        &self.st.board
    }

    /// The squares that hold `piece`.
    #[inline(always)]
    pub fn piece_bb(&self, piece: piece::Piece) -> (b: bb::Bitboard)
        requires
            piece::index_of(piece) < 12,
        ensures
            b == self.state().piece_bb[piece::index_of(piece)],
    {
        self.st.piece_bb[bb::p_to_idx(piece)]
    }

    /// The squares that hold a piece of `color`; any value but `BLACK` is
    /// read as white.
    #[inline(always)]
    pub fn color_bb(&self, color: color::Color) -> (b: bb::Bitboard)
        ensures
            b == self.state().color_bb[piece::color_index_of(color)],
    {
        self.st.color_bb[bb::c_to_idx(color)]
    }

    /// The occupied squares.
    #[inline(always)]
    pub fn occupied_bb(&self) -> (b: bb::Bitboard)
        ensures
            b == self.state().color_bb[0] | self.state().color_bb[1],
            consistent(self.state()) ==> forall|sq: int|
                #[trigger] has_sq(b, sq) <==> 0 <= sq < 64 && self.state().board[sq] != piece::NONE,
    {
        proof {
            lemma_sq_ops();
        }
        self.color_bb(color::WHITE) | self.color_bb(color::BLACK)
    }

    /// The empty squares.
    #[inline(always)]
    pub fn empty_bb(&self) -> (b: bb::Bitboard)
        ensures
            b == !(self.state().color_bb[0] | self.state().color_bb[1]),
            consistent(self.state()) ==> forall|sq: int|
                #[trigger] has_sq(b, sq) <==> 0 <= sq < 64 && self.state().board[sq] == piece::NONE,
    {
        proof {
            lemma_sq_ops();
        }
        !self.occupied_bb()
    }

    /// The piece on `square`, or `piece::NONE`.
    #[inline(always)]
    pub fn piece_on(&self, square: Square) -> (p: piece::Piece)
        requires
            square < 64,
        ensures
            p == self.state().board[square as int],
    {
        self.st.board[square]
    }

    /// The piece on the square of `file` and `rank`, or `piece::NONE`.
    #[inline(always)]
    pub fn piece_on_fr(&self, file: File, rank: Rank) -> (p: piece::Piece)
        requires
            0 <= file <= 7,
            0 <= rank <= 7,
        ensures
            p == self.state().board[square_at(file as int, rank as int)],
    {
        self.st.board[make_sq(file, rank)]
    }

    /// How many plies have been played.
    #[inline(always)]
    pub fn ply(&self) -> (n: usize)
        ensures
            n == self.state().ply,
    {
        self.st.ply
    }

    /// Whether a piece stands on `square`.
    #[inline(always)]
    pub fn is_occupied(&self, square: Square) -> (r: bool)
        requires
            square < 64,
        ensures
            r <==> self.state().board[square as int] != piece::NONE,
    {
        self.st.board[square] != piece::NONE
    }

    /// The move that led to the current state, if any.
    #[inline(always)]
    pub fn move_played(&self) -> (m: Option<moves::Move>)
        ensures
            m == self.state().move_played,
    {
        self.st.move_played
    }
}

/// The right to castle on the king's side that belongs to `color`, and no
/// right at all for a value that is neither white nor black.
pub open spec fn king_side_right(color: color::Color) -> CastleRights {
    if color == color::WHITE {
        WK_CASTLE
    } else if color == color::BLACK {
        BK_CASTLE
    } else {
        NO_CASTLING
    }
}

/// The right to castle on the queen's side that belongs to `color`.
pub open spec fn queen_side_right(color: color::Color) -> CastleRights {
    if color == color::WHITE {
        WQ_CASTLE
    } else if color == color::BLACK {
        BQ_CASTLE
    } else {
        NO_CASTLING
    }
}

/// How the four rights behave as flags of one byte.
pub proof fn lemma_rights(r: u8)
    by (bit_vector)
    ensures
        r & 0 == 0,
        r & !0u8 == r,
        (r & !2u8) & 2 == 0 && (r & !2u8) & 4 == r & 4 && (r & !2u8) & 8 == r & 8 && (r & !2u8)
            & 16 == r & 16,
        (r & !4u8) & 4 == 0 && (r & !4u8) & 2 == r & 2 && (r & !4u8) & 8 == r & 8 && (r & !4u8)
            & 16 == r & 16,
        (r & !8u8) & 8 == 0 && (r & !8u8) & 2 == r & 2 && (r & !8u8) & 4 == r & 4 && (r & !8u8)
            & 16 == r & 16,
        (r & !16u8) & 16 == 0 && (r & !16u8) & 2 == r & 2 && (r & !16u8) & 4 == r & 4 && (r
            & !16u8) & 8 == r & 8,
        (r | 0x1E) & 2 != 0 && (r | 0x1E) & 4 != 0 && (r | 0x1E) & 8 != 0 && (r | 0x1E) & 16 != 0,
        (r & !2u8) & r == r & !2u8,
        (r & !4u8) & r == r & !4u8,
        (r & !8u8) & r == r & !8u8,
        (r & !16u8) & r == r & !16u8,
{
}

/// Gives both sides every castling right.
#[inline(always)]
pub fn set_all_true(rights: &mut CastleRights)
    ensures
        *final(rights) == *old(rights) | 0x1E,
        *final(rights) & WK_CASTLE != 0,
        *final(rights) & WQ_CASTLE != 0,
        *final(rights) & BK_CASTLE != 0,
        *final(rights) & BQ_CASTLE != 0,
{
    proof {
        lemma_rights(*rights);
    }
    *rights |= 0x1E;
}

/// Takes from `color` the right to castle on the king's side. Returns the
/// key value of the right if it was still held, and zero if it was lost
/// before. For a colour that is neither white nor black nothing changes and
/// zero comes back.
pub fn lose_kcastle_rights(
    rights: &mut CastleRights,
    color: color::Color,
    zb: &ZobristValues,
) -> (v:
    u64)
    ensures
        *final(rights) == *old(rights) & !king_side_right(color),
        v == zobrist::right_key(*zb, *old(rights), king_side_right(color)),
{
    proof {
        lemma_rights(*rights);
    }
    if color == color::WHITE {
        let v = if *rights & WK_CASTLE != 0 {
            zb.wk_castle
        } else {
            0
        };
        *rights &= !WK_CASTLE;
        v
    } else if color == color::BLACK {
        let v = if *rights & BK_CASTLE != 0 {
            zb.bk_castle
        } else {
            0
        };
        *rights &= !BK_CASTLE;
        v
    } else {
        0
    }
}

/// Takes from `color` the right to castle on the queen's side. Returns the
/// key value of the right if it was still held, and zero if it was lost
/// before. For a colour that is neither white nor black nothing changes and
/// zero comes back.
pub fn lose_qcastle_rights(
    rights: &mut CastleRights,
    color: color::Color,
    zb: &ZobristValues,
) -> (v:
    u64)
    ensures
        *final(rights) == *old(rights) & !queen_side_right(color),
        v == zobrist::right_key(*zb, *old(rights), queen_side_right(color)),
{
    proof {
        lemma_rights(*rights);
    }
    if color == color::WHITE {
        let v = if *rights & WQ_CASTLE != 0 {
            zb.wq_castle
        } else {
            0
        };
        *rights &= !WQ_CASTLE;
        v
    } else if color == color::BLACK {
        let v = if *rights & BQ_CASTLE != 0 {
            zb.bq_castle
        } else {
            0
        };
        *rights &= !BQ_CASTLE;
        v
    } else {
        0
    }
}

impl Position {
    /// Puts `piece` on `square`, taking off first whatever stood there.
    pub(crate) fn put_piece(&mut self, piece: piece::Piece, square: Square, zb: &ZobristValues)
        requires
            consistent(old(self).state()),
            square < 64,
            piece::is_piece(piece),
        ensures
            consistent(final(self).state()),
            final(self).past() == old(self).past(),
            same_frame(final(self).state(), old(self).state()),
            final(self).state().board@ == old(self).state().board@.update(square as int, piece),
            residue(*zb, final(self).state()) == residue(*zb, old(self).state()),
    {
        if self.is_occupied(square) {
            self.remove_piece(square, zb);
        }
        let ghost mid = self.st;
        proof {
            piece::lemma_index_of(piece);
        }
        self.st.board[square] = piece;
        self.piece_bb_mut(piece).set_bit(square);
        self.color_bb_mut(piece).set_bit(square);
        self.st.key ^= zb.piece_sq[bb::p_to_idx(piece)][square];
        proof {
            piece::lemma_index_of(piece);
            color::lemma_color_flags(piece);
            lemma_board_key_update(*zb, mid.board@, square as int, piece, 64);
            let b = board_key(*zb, mid.board@, 64);
            let x = square_key(*zb, piece, square as int);
            lemma_xor(mid.key, x, b);
            lemma_xor(b, 0, x);
            lemma_xor(mid.key ^ x, b ^ x, 0);
            lemma_xor(mid.key, b, x);
            assert((mid.key ^ x) ^ ((b ^ 0) ^ x) == mid.key ^ b) by {
                lemma_xor_cancel(mid.key, b, x);
            }
            assert forall|i: int, sq: int| 0 <= i < 12 implies (#[trigger] has_sq(
                self.st.piece_bb[i],
                sq,
            ) <==> 0 <= sq < 64 && self.st.board[sq] == piece::piece_at_index(i)) by {
                assert(has_sq(mid.piece_bb[i], sq) <==> 0 <= sq < 64 && mid.board[sq]
                    == piece::piece_at_index(i));
                piece::lemma_piece_at_index(i);
            }
            assert forall|c: int, sq: int| 0 <= c < 2 implies (#[trigger] has_sq(
                self.st.color_bb[c],
                sq,
            ) <==> 0 <= sq < 64 && self.st.board[sq] != piece::NONE && owner_index(
                self.st.board[sq],
            ) == c) by {
                assert(has_sq(mid.color_bb[c], sq) <==> 0 <= sq < 64 && mid.board[sq]
                    != piece::NONE && owner_index(mid.board[sq]) == c);
            }
        }
    }

    /// Takes the piece on `square` off the board.
    pub(crate) fn remove_piece(&mut self, square: Square, zb: &ZobristValues)
        requires
            consistent(old(self).state()),
            square < 64,
            old(self).state().board[square as int] != piece::NONE,
        ensures
            consistent(final(self).state()),
            final(self).past() == old(self).past(),
            same_frame(final(self).state(), old(self).state()),
            final(self).state().board@ == old(self).state().board@.update(
                square as int,
                piece::NONE,
            ),
            residue(*zb, final(self).state()) == residue(*zb, old(self).state()),
    {
        let gone = self.st.board[square];
        proof {
            piece::lemma_index_of(gone);
            color::lemma_color_flags(gone);
        }
        self.st.key ^= zb.piece_sq[bb::p_to_idx(gone)][square];
        self.piece_bb_mut(gone).pop_bit(square);
        self.color_bb_mut(gone).pop_bit(square);
        self.st.board[square] = piece::NONE;
        proof {
            let was = old(self).st;
            lemma_board_key_update(*zb, was.board@, square as int, piece::NONE, 64);
            let b = board_key(*zb, was.board@, 64);
            let x = square_key(*zb, gone, square as int);
            lemma_xor(b ^ x, 0, 0);
            lemma_xor_cancel(was.key, b, x);
            assert forall|i: int, sq: int| 0 <= i < 12 implies (#[trigger] has_sq(
                self.st.piece_bb[i],
                sq,
            ) <==> 0 <= sq < 64 && self.st.board[sq] == piece::piece_at_index(i)) by {
                assert(has_sq(was.piece_bb[i], sq) <==> 0 <= sq < 64 && was.board[sq]
                    == piece::piece_at_index(i));
                piece::lemma_piece_at_index(i);
            }
            assert forall|c: int, sq: int| 0 <= c < 2 implies (#[trigger] has_sq(
                self.st.color_bb[c],
                sq,
            ) <==> 0 <= sq < 64 && self.st.board[sq] != piece::NONE && owner_index(
                self.st.board[sq],
            ) == c) by {
                assert(has_sq(was.color_bb[c], sq) <==> 0 <= sq < 64 && was.board[sq]
                    != piece::NONE && owner_index(was.board[sq]) == c);
            }
        }
    }

    /// Moves the piece on `from` to `to`, taking off whatever stood there.
    pub(crate) fn move_piece(&mut self, from: Square, to: Square, zb: &ZobristValues)
        requires
            consistent(old(self).state()),
            from < 64,
            to < 64,
            old(self).state().board[from as int] != piece::NONE,
        ensures
            consistent(final(self).state()),
            final(self).past() == old(self).past(),
            same_frame(final(self).state(), old(self).state()),
            final(self).state().board@ == old(self).state().board@.update(
                to as int,
                old(self).state().board[from as int],
            ).update(from as int, piece::NONE),
            residue(*zb, final(self).state()) == residue(*zb, old(self).state()),
    {
        let piece = self.st.board[from];
        self.put_piece(piece, to, zb);
        self.remove_piece(from, zb);
    }

    /// The bitboard of `piece`, to be changed in place.
    fn piece_bb_mut(&mut self, piece: piece::Piece) -> (b: &mut bb::Bitboard)
        requires
            piece::index_of(piece) < 12,
        ensures
            *b == old(self).st.piece_bb[piece::index_of(piece)],
            final(self).st.piece_bb@ == old(self).st.piece_bb@.update(
                piece::index_of(piece),
                *final(b),
            ),
            final(self).st.board == old(self).st.board,
            final(self).st.color_bb == old(self).st.color_bb,
            final(self).st.key == old(self).st.key,
            same_frame(final(self).st, old(self).st),
            final(self).history == old(self).history,
    {
        &mut self.st.piece_bb[bb::p_to_idx(piece)]
    }

    /// The bitboard of the colour of `color`, to be changed in place; `color`
    /// may be a piece, of which only the colour flags count.
    fn color_bb_mut(&mut self, color: color::Color) -> (b: &mut bb::Bitboard)
        ensures
            *b == old(self).st.color_bb[owner_index(color)],
            final(self).st.color_bb@ == old(self).st.color_bb@.update(
                owner_index(color),
                *final(b),
            ),
            final(self).st.board == old(self).st.board,
            final(self).st.piece_bb == old(self).st.piece_bb,
            final(self).st.key == old(self).st.key,
            same_frame(final(self).st, old(self).st),
            final(self).history == old(self).history,
    {
        &mut self.st.color_bb[bb::c_to_idx(color::of(color))]
    }
}

/// The square on `file` and `rank`.
pub fn make_sq(file: File, rank: Rank) -> (sq: Square)
    requires
        0 <= file <= 7,
        0 <= rank <= 7,
    ensures
        sq == square_at(file as int, rank as int),
        sq < 64,
{
    (rank * 8 + file) as usize
}

/// The file and the rank of `square`.
pub fn make_tuple(square: Square) -> (fr: (File, Rank))
    requires
        square < 64,
    ensures
        fr.0 == file_ix(square as int),
        fr.1 == rank_ix(square as int),
{
    ((square % 8) as isize, (square / 8) as isize)
}

/// The file of `square`.
pub fn file_of(square: Square) -> (file: File)
    requires
        square < 64,
    ensures
        file == file_ix(square as int),
        0 <= file <= 7,
{
    (square % 8) as isize
}

/// The rank of `square`.
pub fn rank_of(square: Square) -> (rank: Rank)
    requires
        square < 64,
    ensures
        rank == rank_ix(square as int),
        0 <= rank <= 7,
{
    (square / 8) as isize
}

/// The text names a square: a file letter from `a` to `h` and a rank digit
/// from `1` to `8`.
pub open spec fn names_square(text: Seq<char>) -> bool {
    &&& text.len() == 2
    &&& 'a' <= text[0] <= 'h'
    &&& '1' <= text[1] <= '8'
}

/// The square that a text names.
pub open spec fn square_named(text: Seq<char>) -> int {
    square_at(text[0] as int - 97, text[1] as int - 49)
}

/// The name of a square: its file letter and its rank digit.
pub open spec fn square_name(square: int) -> Seq<char> {
    seq![crate::text::file_letter(file_ix(square)), crate::text::rank_digit(rank_ix(square))]
}

/// The square that `string` names in algebraic notation.
pub fn string_to_sq(string: &String) -> (sq: Square)
    requires
        names_square(string@),
    ensures
        sq == square_named(string@),
        sq < 64,
{
    str_to_sq(string.as_str())
}

/// The square that `string` names in algebraic notation.
pub fn str_to_sq(string: &str) -> (sq: Square)
    requires
        names_square(string@),
    ensures
        sq == square_named(string@),
        sq < 64,
{
    let file = (crate::text::char_code(string.get_char(0)) - 97) as isize;
    let rank = (crate::text::char_code(string.get_char(1)) - 49) as isize;
    make_sq(file, rank)
}

/// The name of `square` in algebraic notation.
pub fn to_algn(square: Square) -> (name: String)
    requires
        square < 64,
    ensures
        name@ == square_name(square as int),
        names_square(name@),
        square_named(name@) == square,
{
    let (file, rank) = make_tuple(square);
    let mut string = String::new();
    crate::text::push_char(&mut string, crate::text::ascii_char((file as u8) + 97));
    crate::text::push_char(&mut string, crate::text::ascii_char((rank as u8) + 49));
    proof {
        assert(string@ =~= square_name(square as int));
    }
    string
}

/// The square one rank behind `square` as `color` sees the board: towards
/// the first rank for white, towards the eighth for every other value.
pub open spec fn spec_behind(square: int, color: color::Color) -> int {
    if color == color::WHITE {
        square - 8
    } else {
        square + 8
    }
}

/// The square one rank ahead of `square` as `color` sees the board.
pub open spec fn spec_ahead(square: int, color: color::Color) -> int {
    if color == color::WHITE {
        square + 8
    } else {
        square - 8
    }
}

/// The square behind `square` from the point of view of `color`.
pub fn behind(square: Square, color: color::Color) -> (sq: Square)
    requires
        0 <= spec_behind(square as int, color) <= usize::MAX,
    ensures
        sq == spec_behind(square as int, color),
{
    if color == color::WHITE {
        square - 8
    } else {
        square + 8
    }
}

/// The square ahead of `square` from the point of view of `color`.
pub fn ahead(square: Square, color: color::Color) -> (sq: Square)
    requires
        0 <= spec_ahead(square as int, color) <= usize::MAX,
    ensures
        sq == spec_ahead(square as int, color),
{
    if color == color::WHITE {
        square + 8
    } else {
        square - 8
    }
}

} // verus!
