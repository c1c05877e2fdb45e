//! Bitboard chess core: board representation, attack tables, move
//! generation and an incrementally maintained position hash.

use vstd::prelude::*;
use crate::bits::{has_sq, lemma_sq_ops, squares};
use crate::geometry::{
    bishop_line, bishop_reach, king_step, knight_step, pawn_step, queen_reach, rook_line,
    rook_reach, slides_to,
};
use crate::piece::bb;
use crate::piece::bb::BitboardUtil;
use crate::rays::{lemma_bishop_setting, lemma_rook_setting, lemma_slide_moves, lemma_walk_is_slide};

pub mod attack;
pub mod bits;
pub mod color;
pub mod geometry;
pub mod moves;
pub mod perft;
pub mod piece;
pub mod pos;
pub mod rays;
pub mod text;
pub mod zobrist;

verus! {

/// The attack sets of every piece kind on every square.
#[derive(Debug, Clone)]
pub struct AttackMasks {
    pawn_attacks: [[bb::Bitboard; 64]; 2],
    knight_attacks: [bb::Bitboard; 64],
    king_attacks: [bb::Bitboard; 64],
    rook_rays: [bb::Bitboard; 64],
    bishop_rays: [bb::Bitboard; 64],
}

/// The random values from which position keys are built: one for each piece
/// on each square, one for each castling right, one for each en-passant
/// file, and one for the side to move.
#[derive(Debug, Clone)]
pub struct ZobristValues {
    black_to_move: u64,
    wk_castle: u64,
    wq_castle: u64,
    bk_castle: u64,
    bq_castle: u64,
    ep_files: [u64; 8],
    piece_sq: [[u64; 64]; 12],
}

impl ZobristValues {
    /// The value for black being the side to move.
    pub closed spec fn side_value(&self) -> u64 {
        self.black_to_move
    }

    /// The value for one castling right; zero for a byte that is no single right.
    pub closed spec fn castle_value(&self, right: u8) -> u64 {
        if right == pos::WK_CASTLE {
            self.wk_castle
        } else if right == pos::WQ_CASTLE {
            self.wq_castle
        } else if right == pos::BK_CASTLE {
            self.bk_castle
        } else if right == pos::BQ_CASTLE {
            self.bq_castle
        } else {
            0
        }
    }

    /// The value for an en-passant target on `file`.
    pub closed spec fn ep_value(&self, file: int) -> u64 {
        self.ep_files[file]
    }

    /// The value for the piece kept at `index` standing on `sq`.
    pub closed spec fn piece_value(&self, index: int, sq: int) -> u64 {
        self.piece_sq[index][sq]
    }
}

impl AttackMasks {
    /// The pawn tables hold, for squares below `n`, what a pawn attacks.
    pub closed spec fn pawns_filled(&self, n: int) -> bool {
        &&& forall|sq: int, t: int|
            0 <= sq < n && sq < 64 ==> (#[trigger] has_sq(self.pawn_attacks[0][sq], t)
                <==> pawn_step(true, sq, t))
        &&& forall|sq: int, t: int|
            0 <= sq < n && sq < 64 ==> (#[trigger] has_sq(self.pawn_attacks[1][sq], t)
                <==> pawn_step(false, sq, t))
    }

    /// The knight table holds, for squares below `n`, what a knight attacks.
    pub closed spec fn knights_filled(&self, n: int) -> bool {
        forall|sq: int, t: int|
            0 <= sq < n && sq < 64 ==> (#[trigger] has_sq(self.knight_attacks[sq], t)
                <==> knight_step(sq, t))
    }

    /// The king table holds, for squares below `n`, what a king attacks.
    pub closed spec fn kings_filled(&self, n: int) -> bool {
        forall|sq: int, t: int|
            0 <= sq < n && sq < 64 ==> (#[trigger] has_sq(self.king_attacks[sq], t) <==> king_step(
                sq,
                t,
            ))
    }

    /// The ray tables hold, for squares below `n`, the lines through each square.
    pub closed spec fn rays_filled(&self, n: int) -> bool {
        &&& forall|sq: int, t: int|
            0 <= sq < n && sq < 64 ==> (#[trigger] has_sq(self.rook_rays[sq], t) <==> rook_line(
                sq,
                t,
            ))
        &&& forall|sq: int, t: int|
            0 <= sq < n && sq < 64 ==> (#[trigger] has_sq(self.bishop_rays[sq], t)
                <==> bishop_line(sq, t))
    }

    /// Every table holds exactly what the geometry of the board prescribes.
    pub closed spec fn wf(&self) -> bool {
        &&& self.pawns_filled(64)
        &&& self.knights_filled(64)
        &&& self.kings_filled(64)
        &&& self.rays_filled(64)
    }

    /// The squares that a pawn of `color` on `square` attacks. Every value
    /// other than `WHITE` is read as black.
    #[inline(always)]
    pub fn pawn_attacks(&self, color: color::Color, square: pos::Square) -> (r: bb::Bitboard)
        requires
            self.wf(),
            square < 64,
        ensures
            forall|t: int| #[trigger] has_sq(r, t) <==> pawn_step(color == color::WHITE, square as int, t),
    {
        if color == color::WHITE {
            self.pawn_attacks[0][square]
        } else {
            self.pawn_attacks[1][square]
        }
    }

    /// The squares that a knight on `square` attacks.
    #[inline(always)]
    pub fn knight_attacks(&self, square: pos::Square) -> (r: bb::Bitboard)
        requires
            self.wf(),
            square < 64,
        ensures
            forall|t: int| #[trigger] has_sq(r, t) <==> knight_step(square as int, t),
    {
        self.knight_attacks[square]
    }

    /// The squares that a king on `square` attacks.
    #[inline(always)]
    pub fn king_attacks(&self, square: pos::Square) -> (r: bb::Bitboard)
        requires
            self.wf(),
            square < 64,
        ensures
            forall|t: int| #[trigger] has_sq(r, t) <==> king_step(square as int, t),
    {
        self.king_attacks[square]
    }

    /// The file and the rank through `square`, without `square` itself.
    #[inline(always)]
    pub fn rook_rays(&self, square: pos::Square) -> (r: bb::Bitboard)
        requires
            self.wf(),
            square < 64,
        ensures
            forall|t: int| #[trigger] has_sq(r, t) <==> rook_line(square as int, t),
    {
        self.rook_rays[square]
    }

    /// The two diagonals through `square`, without `square` itself.
    #[inline(always)]
    pub fn bishop_rays(&self, square: pos::Square) -> (r: bb::Bitboard)
        requires
            self.wf(),
            square < 64,
        ensures
            forall|t: int| #[trigger] has_sq(r, t) <==> bishop_line(square as int, t),
    {
        self.bishop_rays[square]
    }

    /// The four lines through `square`, without `square` itself.
    #[inline(always)]
    pub fn queen_rays(&self, square: pos::Square) -> (r: bb::Bitboard)
        requires
            self.wf(),
            square < 64,
        ensures
            forall|t: int|
                #[trigger] has_sq(r, t) <==> rook_line(square as int, t) || bishop_line(
                    square as int,
                    t,
                ),
    {
        proof {
            lemma_sq_ops();
        }
        self.rook_rays[square] | self.bishop_rays[square]
    }

    /// The squares that a rook on `square` attacks when `occupied` are the
    /// occupied squares: along each orthogonal ray up to the first occupied
    /// square, that square included, or to the edge.
    pub fn rook_attacks_rt(&self, square: pos::Square, occupied: bb::Bitboard) -> (r: bb::Bitboard)
        requires
            self.wf(),
            square < 64,
        ensures
            forall|t: int| #[trigger] has_sq(r, t) <==> rook_reach(squares(occupied), square as int, t),
    {
        let blockers = occupied & self.rook_rays(square);
        let ghost sq = square as int;
        proof {
            lemma_sq_ops();
            bb::lemma_mask_squares();
            lemma_rook_setting(sq, occupied, blockers, bb::RANK_8_MASK, 0, 1);
            lemma_rook_setting(sq, occupied, blockers, bb::RANK_1_MASK, 0, -1);
            lemma_rook_setting(sq, occupied, blockers, bb::FILE_H_MASK, 1, 0);
            lemma_rook_setting(sq, occupied, blockers, bb::FILE_A_MASK, -1, 0);
            lemma_walk_is_slide(sq, occupied, blockers, bb::RANK_8_MASK, 0, 1);
            lemma_walk_is_slide(sq, occupied, blockers, bb::RANK_1_MASK, 0, -1);
            lemma_walk_is_slide(sq, occupied, blockers, bb::FILE_H_MASK, 1, 0);
            lemma_walk_is_slide(sq, occupied, blockers, bb::FILE_A_MASK, -1, 0);
        }
        let up = bb::walk_to_blocker(square as isize, blockers, bb::RANK_8_MASK, 8);
        let down = bb::walk_to_blocker(square as isize, blockers, bb::RANK_1_MASK, -8);
        let right = bb::walk_to_blocker(square as isize, blockers, bb::FILE_H_MASK, 1);
        let left = bb::walk_to_blocker(square as isize, blockers, bb::FILE_A_MASK, -1);
        let mut all = up | down | right | left;
        let r = all.pop_bit(square);
        proof {
            let occ = squares(occupied);
            assert forall|t: int| #[trigger] has_sq(r, t) <==> rook_reach(occ, sq, t) by {
                if slides_to(occ, sq, 0, 1, t) {
                    lemma_slide_moves(occ, sq, 0, 1, t);
                }
                if slides_to(occ, sq, 0, -1, t) {
                    lemma_slide_moves(occ, sq, 0, -1, t);
                }
                if slides_to(occ, sq, 1, 0, t) {
                    lemma_slide_moves(occ, sq, 1, 0, t);
                }
                if slides_to(occ, sq, -1, 0, t) {
                    lemma_slide_moves(occ, sq, -1, 0, t);
                }
            }
        }
        r
    }

    /// The squares that a bishop on `square` attacks when `occupied` are the
    /// occupied squares: along each diagonal ray up to the first occupied
    /// square, that square included, or to the edge.
    pub fn bishop_attacks_rt(&self, square: pos::Square, occupied: bb::Bitboard) -> (r:
        bb::Bitboard)
        requires
            self.wf(),
            square < 64,
        ensures
            forall|t: int|
                #[trigger] has_sq(r, t) <==> bishop_reach(squares(occupied), square as int, t),
    {
        let blockers = occupied & self.bishop_rays(square);
        let ghost sq = square as int;
        let north_west = bb::FILE_A_MASK | bb::RANK_8_MASK;
        let south_east = bb::FILE_H_MASK | bb::RANK_1_MASK;
        let north_east = bb::FILE_H_MASK | bb::RANK_8_MASK;
        let south_west = bb::FILE_A_MASK | bb::RANK_1_MASK;
        proof {
            lemma_sq_ops();
            bb::lemma_mask_squares();
            lemma_bishop_setting(sq, occupied, blockers, north_west, -1, 1);
            lemma_bishop_setting(sq, occupied, blockers, south_east, 1, -1);
            lemma_bishop_setting(sq, occupied, blockers, north_east, 1, 1);
            lemma_bishop_setting(sq, occupied, blockers, south_west, -1, -1);
            lemma_walk_is_slide(sq, occupied, blockers, north_west, -1, 1);
            lemma_walk_is_slide(sq, occupied, blockers, south_east, 1, -1);
            lemma_walk_is_slide(sq, occupied, blockers, north_east, 1, 1);
            lemma_walk_is_slide(sq, occupied, blockers, south_west, -1, -1);
        }
        let nw = bb::walk_to_blocker(square as isize, blockers, north_west, 7);
        let se = bb::walk_to_blocker(square as isize, blockers, south_east, -7);
        let ne = bb::walk_to_blocker(square as isize, blockers, north_east, 9);
        let sw = bb::walk_to_blocker(square as isize, blockers, south_west, -9);
        let mut all = nw | se | ne | sw;
        let r = all.pop_bit(square);
        proof {
            let occ = squares(occupied);
            assert forall|t: int| #[trigger] has_sq(r, t) <==> bishop_reach(occ, sq, t) by {
                if slides_to(occ, sq, -1, 1, t) {
                    lemma_slide_moves(occ, sq, -1, 1, t);
                }
                if slides_to(occ, sq, 1, -1, t) {
                    lemma_slide_moves(occ, sq, 1, -1, t);
                }
                if slides_to(occ, sq, 1, 1, t) {
                    lemma_slide_moves(occ, sq, 1, 1, t);
                }
                if slides_to(occ, sq, -1, -1, t) {
                    lemma_slide_moves(occ, sq, -1, -1, t);
                }
            }
        }
        r
    }

    /// The squares that a queen on `square` attacks when `occupied` are the
    /// occupied squares.
    pub fn queen_attacks_rt(&self, square: pos::Square, occupied: bb::Bitboard) -> (r: bb::Bitboard)
        requires
            self.wf(),
            square < 64,
        ensures
            forall|t: int| #[trigger] has_sq(r, t) <==> queen_reach(squares(occupied), square as int, t),
    {
        proof {
            lemma_sq_ops();
        }
        self.rook_attacks_rt(square, occupied) | self.bishop_attacks_rt(square, occupied)
    }
}

/// Builds the attack tables and draws the random values for position keys.
/// Both are built once and shared, unchanged, by every position.
pub fn init() -> (r: (AttackMasks, ZobristValues))
    ensures
        r.0.wf(),
{
    let mut masks = AttackMasks {
        pawn_attacks: [[bb::EMPTY;64];2],
        knight_attacks: [bb::EMPTY;64],
        king_attacks: [bb::EMPTY;64],
        rook_rays: [bb::EMPTY;64],
        bishop_rays: [bb::EMPTY;64],
    };
    bb::init_attack_masks_non_sliding_piece(&mut masks);
    bb::init_attack_masks_sliding_piece_rays(&mut masks);
    let mut zb = ZobristValues {
        black_to_move: 0,
        wk_castle: 0,
        wq_castle: 0,
        bk_castle: 0,
        bq_castle: 0,
        ep_files: [0;8],
        piece_sq: [[0;64];12],
    };
    zobrist::init_zb_values(&mut zb);
    (masks, zb)
}

} // verus!
