//! Bitboards: 64-bit sets of squares, their masks and their shifts.

use vstd::prelude::*;
use vstd::std_specs::bits::u64_trailing_zeros;
use crate::{AttackMasks, color, piece, pos};
use crate::attack::{
    attacked_by, attacker, attacks, is_diagonal_slider, is_line_slider,
    lemma_bishop_reach_symmetric, lemma_piece_is, lemma_rook_reach_symmetric, may_be_pinned,
    occupied, slider_on_anti_diag, slider_on_diag, slider_on_file, slider_on_rank,
};
use crate::bits::{
    bit, has_sq, lemma_bit_ops, lemma_bit_shifts, lemma_empty, lemma_lowest, lemma_sq_ops,
    lemma_squares_below_len, lemma_squares_below_skip, lowest, squares, squares_below,
};
use crate::geometry::{
    bishop_reach, file_ix, king_step, knight_step, on_board, pawn_step, rank_ix, rook_reach,
    same_anti_diag, same_diag, same_file, same_rank,
};
use crate::pos::consistent;
use crate::pos::query::{has_piece, king_square};
use crate::rays::{lemma_walk_done, lemma_walk_next, stop_index, walk_stops, walked};

verus! {

pub type Bitboard = u64;

pub const EMPTY: Bitboard = 0;

pub const FILE_A_MASK: Bitboard = 0x0101010101010101;

pub const FILE_H_MASK: Bitboard = 0x8080808080808080;

pub const FILE_AB_MASK: Bitboard = 0x0303030303030303;

pub const FILE_GH_MASK: Bitboard = 0xC0C0C0C0C0C0C0C0;

pub const RANK_1_MASK: Bitboard = 0x00000000000000FF;

pub const RANK_8_MASK: Bitboard = 0xFF00000000000000;

pub const MAIN_DIAG_MASK: Bitboard = 0x8040201008040201;

pub const MAIN_ANTI_DIAG_MASK: Bitboard = 0x0102040810204080;

/// Which squares the fixed masks hold.
pub proof fn lemma_masks()
    by (bit_vector)
    ensures
        forall|i: u64| i < 64 ==> #[trigger] bit(FILE_A_MASK, i) == (i % 8 == 0),
        forall|i: u64| i < 64 ==> #[trigger] bit(FILE_H_MASK, i) == (i % 8 == 7),
        forall|i: u64| i < 64 ==> #[trigger] bit(FILE_AB_MASK, i) == (i % 8 <= 1),
        forall|i: u64| i < 64 ==> #[trigger] bit(FILE_GH_MASK, i) == (i % 8 >= 6),
        forall|i: u64| i < 64 ==> #[trigger] bit(RANK_1_MASK, i) == (i < 8),
        forall|i: u64| i < 64 ==> #[trigger] bit(RANK_8_MASK, i) == (i >= 56),
{
}

/// Which squares the fixed masks hold, by file and rank.
pub proof fn lemma_mask_squares()
    ensures
        forall|sq: int| #[trigger] has_sq(FILE_A_MASK, sq) <==> on_board(sq) && file_ix(sq) == 0,
        forall|sq: int| #[trigger] has_sq(FILE_H_MASK, sq) <==> on_board(sq) && file_ix(sq) == 7,
        forall|sq: int| #[trigger] has_sq(FILE_AB_MASK, sq) <==> on_board(sq) && file_ix(sq) <= 1,
        forall|sq: int| #[trigger] has_sq(FILE_GH_MASK, sq) <==> on_board(sq) && file_ix(sq) >= 6,
        forall|sq: int| #[trigger] has_sq(RANK_1_MASK, sq) <==> on_board(sq) && rank_ix(sq) == 0,
        forall|sq: int| #[trigger] has_sq(RANK_8_MASK, sq) <==> on_board(sq) && rank_ix(sq) == 7,
{
    lemma_masks();
}

/// Which squares a shifted copy of a main diagonal holds.
pub proof fn lemma_diag_masks(s: u64, d: u64)
    by (bit_vector)
    requires
        d < 8,
        s == 8 * d,
    ensures
        forall|i: u64| i < 64 ==> #[trigger] bit(MAIN_DIAG_MASK >> s, i) == (i % 8 == i / 8 + d),
        forall|i: u64| i < 64 ==> #[trigger] bit(MAIN_DIAG_MASK << s, i) == (i % 8 + d == i / 8),
        forall|i: u64|
            i < 64 ==> #[trigger] bit(MAIN_ANTI_DIAG_MASK >> s, i) == (i % 8 + i / 8 + d == 7),
        forall|i: u64|
            i < 64 ==> #[trigger] bit(MAIN_ANTI_DIAG_MASK << s, i) == (i % 8 + i / 8 == 7 + d),
{
}

/// The lowest square of a word is its only square that survives `b & !(b - 1)`.
pub proof fn lemma_isolate(b: u64, t: u64)
    by (bit_vector)
    requires
        t < 64,
        (b >> t) & 1 == 1,
        b << ((64 - t) as u64) == 0,
    ensures
        b & !((b - 1) as u64) == 1u64 << t,
{
}

pub trait BitboardUtil: Sized {
    /// The 64-bit word behind the value.
    spec fn word(self) -> u64;

    /// The set that holds only the lowest square of `self`; empty for the empty set.
    fn ls1b(self) -> (r: Bitboard)
        ensures
            forall|sq: int| #[trigger] has_sq(r, sq) <==> self.word() != 0 && sq == lowest(self.word()),
    ;

    /// Appends the squares of `self` to `vec`, lowest first.
    fn serialize_to_vec(self, vec: &mut Vec<usize>)
        ensures
            final(vec)@.len() == old(vec)@.len() + squares_below(self.word(), 64).len(),
            forall|i: int| 0 <= i < old(vec)@.len() ==> final(vec)@[i] == old(vec)@[i],
            forall|i: int|
                0 <= i < squares_below(self.word(), 64).len() ==> final(vec)@[old(vec)@.len() + i]
                    == squares_below(self.word(), 64)[i],
    ;

    /// The squares of `self`, lowest first, at the front of an array that is
    /// zero elsewhere, and how many they are.
    fn serialize_to_arr(self) -> (r: ([usize; 64], usize))
        ensures
            r.1 == squares_below(self.word(), 64).len(),
            forall|i: int| 0 <= i < r.1 ==> r.0@[i] == squares_below(self.word(), 64)[i],
            forall|i: int| r.1 <= i < 64 ==> r.0@[i] == 0,
    ;

    /// Removes the lowest square from `self` and returns it; on the empty set
    /// nothing changes and 64 comes back.
    fn serialize_once(&mut self) -> (r: usize)
        ensures
            r == lowest(old(self).word()),
            forall|sq: int|
                #![trigger has_sq(final(self).word(), sq)]
                #![trigger has_sq(old(self).word(), sq)]
                has_sq(final(self).word(), sq) <==> has_sq(old(self).word(), sq) && sq != r,
    ;

    /// Adds square `idx` to `self` and returns the new set.
    fn set_bit(&mut self, idx: usize) -> (r: Bitboard)
        requires
            idx < 64,
        ensures
            r == final(self).word(),
            forall|sq: int|
                #![trigger has_sq(r, sq)]
                #![trigger has_sq(old(self).word(), sq)]
                has_sq(r, sq) <==> has_sq(old(self).word(), sq) || sq == idx,
    ;

    /// Removes square `idx` from `self` and returns the new set.
    fn pop_bit(&mut self, idx: usize) -> (r: Bitboard)
        requires
            idx < 64,
        ensures
            r == final(self).word(),
            forall|sq: int|
                #![trigger has_sq(r, sq)]
                #![trigger has_sq(old(self).word(), sq)]
                has_sq(r, sq) <==> has_sq(old(self).word(), sq) && sq != idx,
    ;
}

impl BitboardUtil for Bitboard {
    open spec fn word(self) -> u64 {
        self
    }

    #[inline(always)]
    fn ls1b(self) -> (r: Bitboard) {
        let below = self.wrapping_sub(1);
        proof {
            lemma_ls1b(self, below);
        }
        self & !below
    }

    #[inline(always)]
    fn serialize_to_vec(self, vec: &mut Vec<usize>) {
        let mut rest = self;
        let ghost done: int = 0;
        proof {
            lemma_lowest(self);
            lemma_squares_below_skip(self, 0, 0);
        }
        while rest != EMPTY
            invariant
                0 <= done <= 64,
                forall|sq: int|
                    #![trigger has_sq(rest, sq)]
                    #![trigger has_sq(self, sq)]
                    has_sq(rest, sq) <==> has_sq(self, sq) && sq >= done,
                vec@ == old(vec)@ + squares_below(self, done).map_values(|s: int| s as usize),
            decreases 64 - done, squares_below(rest, 64).len(),
        {
            let ghost before = rest;
            let sq = rest.serialize_once();
            proof {
                lemma_lowest(before);
                lemma_squares_below_skip(self, done, sq as int);
                assert(squares_below(self, sq + 1) == squares_below(self, sq as int).push(
                    sq as int,
                ));
                assert(squares_below(self, sq + 1).map_values(|s: int| s as usize)
                    =~= squares_below(self, sq as int).map_values(|s: int| s as usize).push(sq));
                done = sq + 1;
            }
            vec.push(sq);
        }
        proof {
            lemma_bit_ops();
            lemma_squares_below_skip(self, done, 64);
            lemma_squares_below_len(self, 64);
        }
    }

    #[inline(always)]
    fn serialize_to_arr(self) -> (r: ([usize; 64], usize)) {
        let mut arr: [usize; 64] = [0;64];
        let mut cnt: usize = 0;
        let mut rest = self;
        let ghost done: int = 0;
        while rest != EMPTY
            invariant
                0 <= done <= 64,
                forall|sq: int|
                    #![trigger has_sq(rest, sq)]
                    #![trigger has_sq(self, sq)]
                    has_sq(rest, sq) <==> has_sq(self, sq) && sq >= done,
                cnt == squares_below(self, done).len(),
                cnt <= done,
                forall|i: int| 0 <= i < cnt ==> arr@[i] == squares_below(self, done)[i],
                forall|i: int| cnt <= i < 64 ==> arr@[i] == 0,
            decreases 64 - done,
        {
            let ghost before = rest;
            let sq = rest.serialize_once();
            proof {
                lemma_lowest(before);
                lemma_squares_below_skip(self, done, sq as int);
                lemma_squares_below_len(self, sq as int);
                assert(squares_below(self, sq + 1) == squares_below(self, sq as int).push(
                    sq as int,
                ));
                done = sq + 1;
            }
            arr[cnt] = sq;
            cnt += 1;
        }
        proof {
            lemma_bit_ops();
            lemma_squares_below_skip(self, done, 64);
        }
        (arr, cnt)
    }

    #[inline(always)]
    fn serialize_once(&mut self) -> (r: usize) {
        let low = self.ls1b();
        proof {
            lemma_bit_ops();
            lemma_lowest(*self);
            lemma_lowest(low);
            if *self != 0 {
                assert(has_sq(low, lowest(*self)));
                assert(low != 0);
                assert(has_sq(low, lowest(low)));
            } else {
                assert(low == 0) by {
                    if low != 0 {
                        assert(has_sq(low, lowest(low)));
                    }
                }
            }
        }
        *self &= !low;
        let r = low.trailing_zeros() as usize;
        proof {
            assert(r == lowest(*old(self)));
            assert(*self == *old(self) & !low);
            assert forall|sq: int| has_sq(*self, sq) <==> has_sq(*old(self), sq) && sq != r by {
                if 0 <= sq < 64 {
                    assert(bit(*self, sq as u64) == (bit(*old(self), sq as u64) && bit(!low, sq as u64)));
                    assert(bit(!low, sq as u64) == !bit(low, sq as u64));
                    assert(has_sq(low, sq) <==> *old(self) != 0 && sq == lowest(*old(self)));
                }
            }
        }
        r
    }

    #[inline(always)]
    fn set_bit(&mut self, idx: usize) -> (r: Bitboard) {
        proof {
            lemma_bit_ops();
        }
        *self |= 1u64 << idx;
        *self
    }

    #[inline(always)]
    fn pop_bit(&mut self, idx: usize) -> (r: Bitboard) {
        proof {
            lemma_bit_ops();
        }
        *self &= !(1u64 << idx);
        *self
    }
}

/// `b & !(b - 1)` holds the lowest square of `b` and nothing else.
pub proof fn lemma_ls1b(b: u64, w: u64)
    requires
        b != 0 ==> w == b - 1,
    ensures
        forall|sq: int| #[trigger] has_sq(b & !w, sq) <==> b != 0 && sq == lowest(b),
{
    lemma_bit_ops();
    lemma_lowest(b);
    if b != 0 {
        vstd::std_specs::bits::axiom_u64_trailing_zeros(b);
        let t = u64_trailing_zeros(b) as u64;
        lemma_isolate(b, t);
    }
}

/// Where the bitboard of `piece` is kept among the twelve piece bitboards.
#[inline(always)]
pub fn p_to_idx(piece: piece::Piece) -> (r: usize)
    ensures
        r == piece::index_of(piece),
        piece::is_piece(piece) ==> r < 12,
{
    proof {
        piece::lemma_index_of(piece);
    }
    let base = piece.trailing_zeros() as usize;
    if color::of(piece) == color::BLACK {
        base + 6
    } else {
        base
    }
}

/// Where the bitboard of `color` is kept: 1 for black, 0 for anything else.
#[inline(always)]
pub fn c_to_idx(color: color::Color) -> (r: usize)
    ensures
        r == piece::color_index_of(color),
{
    if color == color::BLACK {
        1
    } else {
        0
    }
}

/// The whole file that `square` stands on.
#[inline(always)]
pub fn file_mask(square: pos::Square) -> (r: Bitboard)
    ensures
        forall|sq: int| #[trigger] has_sq(r, sq) <==> on_board(sq) && file_ix(sq) == square % 8,
{
    proof {
        lemma_masks();
        lemma_bit_shifts();
    }
    FILE_A_MASK << (square % 8)
}

/// The whole rank that `square` stands on.
#[inline(always)]
pub fn rank_mask(square: pos::Square) -> (r: Bitboard)
    ensures
        forall|sq: int| #[trigger] has_sq(r, sq) <==> on_board(sq) && rank_ix(sq) == (square / 8) % 8,
{
    proof {
        lemma_masks();
        lemma_bit_shifts();
    }
    RANK_1_MASK << ((square / 8 % 8) * 8)
}

/// The whole diagonal that `square` stands on.
#[inline(always)]
pub fn diag_mask(square: pos::Square) -> (r: Bitboard)
    requires
        square < 64,
    ensures
        forall|sq: int| #[trigger] has_sq(r, sq) <==> on_board(sq) && same_diag(sq, square as int),
{
    let f = square % 8;
    let r = square / 8;
    if f >= r {
        proof {
            lemma_diag_masks(((f - r) * 8) as u64, (f - r) as u64);
        }
        MAIN_DIAG_MASK >> ((f - r) * 8)
    } else {
        proof {
            lemma_diag_masks(((r - f) * 8) as u64, (r - f) as u64);
        }
        MAIN_DIAG_MASK << ((r - f) * 8)
    }
}

/// The whole anti-diagonal that `square` stands on.
#[inline(always)]
pub fn anti_diag_mask(square: pos::Square) -> (r: Bitboard)
    requires
        square < 64,
    ensures
        forall|sq: int| #[trigger] has_sq(r, sq) <==> on_board(sq) && same_anti_diag(sq, square as int),
{
    let f = square % 8;
    let r = square / 8;
    if f + r <= 7 {
        proof {
            lemma_diag_masks(((7 - f - r) * 8) as u64, (7 - f - r) as u64);
        }
        MAIN_ANTI_DIAG_MASK >> ((7 - f - r) * 8)
    } else {
        proof {
            lemma_diag_masks(((f + r - 7) * 8) as u64, (f + r - 7) as u64);
        }
        MAIN_ANTI_DIAG_MASK << ((f + r - 7) * 8)
    }
}

/// Every square of `bb` moved one rank up; the eighth rank drops off.
#[inline(always)]
pub fn north(bb: Bitboard) -> (r: Bitboard)
    ensures
        forall|sq: int| #[trigger] has_sq(r, sq) <==> on_board(sq) && has_sq(bb, sq - 8),
{
    proof {
        lemma_bit_shifts();
    }
    bb << 8
}

/// Every square of `bb` moved one rank down; the first rank drops off.
#[inline(always)]
pub fn south(bb: Bitboard) -> (r: Bitboard)
    ensures
        forall|sq: int| #[trigger] has_sq(r, sq) <==> on_board(sq) && has_sq(bb, sq + 8),
{
    proof {
        lemma_bit_shifts();
    }
    bb >> 8
}

/// Every square of `bb` moved to the next higher index; h-file squares wrap
/// to the a-file of the rank above unless the caller has masked them out.
#[inline(always)]
pub fn east(bb: Bitboard) -> (r: Bitboard)
    ensures
        forall|sq: int| #[trigger] has_sq(r, sq) <==> on_board(sq) && has_sq(bb, sq - 1),
{
    proof {
        lemma_bit_shifts();
    }
    bb << 1
}

/// Every square of `bb` moved to the next lower index; a-file squares wrap
/// to the h-file of the rank below unless the caller has masked them out.
#[inline(always)]
pub fn west(bb: Bitboard) -> (r: Bitboard)
    ensures
        forall|sq: int| #[trigger] has_sq(r, sq) <==> on_board(sq) && has_sq(bb, sq + 1),
{
    proof {
        lemma_bit_shifts();
    }
    bb >> 1
}

/// Every square of `bb` moved nine indices up: one rank up and one file east.
#[inline(always)]
pub fn no_ea(bb: Bitboard) -> (r: Bitboard)
    ensures
        forall|sq: int| #[trigger] has_sq(r, sq) <==> on_board(sq) && has_sq(bb, sq - 9),
{
    proof {
        lemma_bit_shifts();
    }
    bb << 9
}

/// Every square of `bb` moved seven indices up: one rank up and one file west.
#[inline(always)]
pub fn no_we(bb: Bitboard) -> (r: Bitboard)
    ensures
        forall|sq: int| #[trigger] has_sq(r, sq) <==> on_board(sq) && has_sq(bb, sq - 7),
{
    proof {
        lemma_bit_shifts();
    }
    bb << 7
}

/// Every square of `bb` moved seven indices down: one rank down and one file east.
#[inline(always)]
pub fn so_ea(bb: Bitboard) -> (r: Bitboard)
    ensures
        forall|sq: int| #[trigger] has_sq(r, sq) <==> on_board(sq) && has_sq(bb, sq + 7),
{
    proof {
        lemma_bit_shifts();
    }
    bb >> 7
}

/// Every square of `bb` moved nine indices down: one rank down and one file west.
#[inline(always)]
pub fn so_we(bb: Bitboard) -> (r: Bitboard)
    ensures
        forall|sq: int| #[trigger] has_sq(r, sq) <==> on_board(sq) && has_sq(bb, sq + 9),
{
    proof {
        lemma_bit_shifts();
    }
    bb >> 9
}

/// `sq` lies on none of the four edges of the board.
pub open spec fn interior(sq: int) -> bool {
    on_board(sq) && 1 <= file_ix(sq) <= 6 && 1 <= rank_ix(sq) <= 6
}

/// The subset of `attacks` that `idx` selects, without the squares on the
/// edges of the board: the square that comes `i`-th in `attacks`, counting
/// from the lowest, is selected when bit `i` of `idx` is set. Counting
/// `idx` up from zero runs through every set of blockers of an attack set.
pub fn blockers_from_idx(idx: usize, attacks: Bitboard) -> (r: Bitboard)
    ensures
        forall|t: int|
            #[trigger] has_sq(r, t) <==> has_sq(attacks, t) && interior(t) && bit(
                idx as u64,
                squares_below(attacks, t).len() as u64,
            ),
{
    let mut blockers = EMPTY;
    let mut cpy = attacks;
    let mut i: u64 = 0;
    let ghost mut done: int = 0;
    proof {
        lemma_sq_ops();
    }
    while cpy != EMPTY
        invariant
            0 <= done <= 64,
            i == squares_below(attacks, done).len(),
            i <= done,
            forall|t: int|
                #![trigger has_sq(cpy, t)]
                #![trigger has_sq(attacks, t)]
                has_sq(cpy, t) <==> has_sq(attacks, t) && t >= done,
            forall|t: int|
                #[trigger] has_sq(blockers, t) <==> has_sq(attacks, t) && t < done && bit(
                    idx as u64,
                    squares_below(attacks, t).len() as u64,
                ),
        decreases 64 - done,
    {
        let ghost before = cpy;
        proof {
            lemma_lowest(before);
            lemma_sq_ops();
        }
        let t = cpy.serialize_once();
        proof {
            lemma_squares_below_skip(attacks, done, t as int);
            lemma_squares_below_len(attacks, t as int);
        }
        if (idx as u64 >> i) & 1 == 1 {
            blockers |= 1u64 << t;
        }
        i += 1;
        proof {
            assert(squares_below(attacks, t + 1) == squares_below(attacks, t as int).push(
                t as int,
            ));
            done = t + 1;
        }
    }
    proof {
        lemma_sq_ops();
        lemma_mask_squares();
        lemma_empty(cpy);
    }
    blockers & !FILE_A_MASK & !FILE_H_MASK & !RANK_1_MASK & !RANK_8_MASK
}

/// The squares from `start` up to the first one that `blockers` or `edges`
/// holds, that one included, taking a step of `dir` each time: 8 goes up a
/// rank, 1 goes right a file, -1 goes left.
#[inline(always)]
pub fn walk_to_blocker(start: isize, blockers: Bitboard, edges: Bitboard, dir: isize) -> (r:
    Bitboard)
    requires
        exists|n: int| walk_stops(start as int, blockers | edges, dir as int, n),
    ensures
        forall|t: int| #[trigger] has_sq(r, t) <==> walked(start as int, blockers | edges, dir as int, t),
    decreases stop_index(start as int, blockers | edges, dir as int),
{
    let ghost stops = blockers | edges;
    let ghost n = stop_index(start as int, stops, dir as int);
    proof {
        lemma_sq_ops();
        crate::rays::lemma_step_shift(start as int, dir as int, 0);
        assert(walk_stops(start as int, stops, dir as int, n));
        assert(on_board(start as int)) by {
            if n > 0 {
                assert(on_board(crate::rays::step_sq(start as int, dir as int, 0)));
            }
        }
    }
    let here = 1u64 << (start as usize);
    if here & (blockers | edges) != 0 {
        proof {
            crate::bits::lemma_empty(here & (blockers | edges));
            lemma_walk_done(start as int, stops, dir as int);
        }
        here
    } else {
        proof {
            crate::bits::lemma_empty(here & (blockers | edges));
            assert(!has_sq(stops, start as int)) by {
                assert(!has_sq(here & stops, start as int));
                assert(has_sq(here, start as int));
            }
            lemma_walk_next(start as int, stops, dir as int);
        }
        here | walk_to_blocker(start + dir, blockers, edges, dir)
    }
}

/// The squares that hold the pieces of kind `kind` and colour `color`.
pub(crate) fn kind_bb(pos: &pos::Position, kind: piece::Piece, color: color::Color) -> (r: Bitboard)
    requires
        consistent(pos.state()),
        piece::is_kind(kind),
        color == color::WHITE || color == color::BLACK,
    ensures
        r == pos.state().piece_bb[piece::index_of(piece::make(kind, color))],
        forall|a: int|
            #[trigger] has_sq(r, a) <==> on_board(a) && piece::is_piece(pos.state().board[a])
                && piece::kind_of(pos.state().board[a]) == kind && piece::color_of(
                pos.state().board[a],
            ) == color,
{
    proof {
        lemma_piece_is(0, kind, color);
        assert forall|a: int| 0 <= a < 64 implies (pos.state().board[a] == piece::make(kind, color)
            <==> piece::is_piece(#[trigger] pos.state().board[a]) && piece::kind_of(
            pos.state().board[a],
        ) == kind && piece::color_of(pos.state().board[a]) == color) by {
            lemma_piece_is(pos.state().board[a], kind, color);
        }
    }
    pos.piece_bb(kind | color)
}

/// The occupied squares of `pos`, which are the occupied squares of its board.
pub(crate) fn occupancy(pos: &pos::Position) -> (r: Bitboard)
    requires
        consistent(pos.state()),
    ensures
        r == pos.state().color_bb[0] | pos.state().color_bb[1],
        squares(r) == occupied(pos.state().board@),
{
    let r = pos.occupied_bb();
    proof {
        assert(squares(r) =~= occupied(pos.state().board@));
    }
    r
}

/// The pawns of `color` that attack `square`.
fn pawn_attackers(
    square: pos::Square,
    pos: &pos::Position,
    color: color::Color,
    masks: &AttackMasks,
) -> (r: Bitboard)
    requires
        masks.wf(),
        square < 64,
        consistent(pos.state()),
        color == color::WHITE || color == color::BLACK,
    ensures
        forall|a: int|
            #[trigger] has_sq(r, a) <==> attacker(pos.state().board@, a, square as int, color)
                && piece::kind_of(pos.state().board[a]) == piece::PAWN,
{
    proof {
        lemma_sq_ops();
    }
    masks.pawn_attacks(color::other(color), square) & kind_bb(pos, piece::PAWN, color)
}

/// The knights of `color` that attack `square`.
fn knight_attackers(
    square: pos::Square,
    pos: &pos::Position,
    color: color::Color,
    masks: &AttackMasks,
) -> (r: Bitboard)
    requires
        masks.wf(),
        square < 64,
        consistent(pos.state()),
        color == color::WHITE || color == color::BLACK,
    ensures
        forall|a: int|
            #[trigger] has_sq(r, a) <==> attacker(pos.state().board@, a, square as int, color)
                && piece::kind_of(pos.state().board[a]) == piece::KNIGHT,
{
    proof {
        lemma_sq_ops();
    }
    masks.knight_attacks(square) & kind_bb(pos, piece::KNIGHT, color)
}

/// The kings of `color` that attack `square`.
fn king_attackers(
    square: pos::Square,
    pos: &pos::Position,
    color: color::Color,
    masks: &AttackMasks,
) -> (r: Bitboard)
    requires
        masks.wf(),
        square < 64,
        consistent(pos.state()),
        color == color::WHITE || color == color::BLACK,
    ensures
        forall|a: int|
            #[trigger] has_sq(r, a) <==> attacker(pos.state().board@, a, square as int, color)
                && piece::kind_of(pos.state().board[a]) == piece::KING,
{
    proof {
        lemma_sq_ops();
    }
    masks.king_attacks(square) & kind_bb(pos, piece::KING, color)
}

/// The rooks and queens of `color` that attack `square` along a file or a rank.
fn line_attackers(
    square: pos::Square,
    pos: &pos::Position,
    color: color::Color,
    masks: &AttackMasks,
) -> (r: Bitboard)
    requires
        masks.wf(),
        square < 64,
        consistent(pos.state()),
        color == color::WHITE || color == color::BLACK,
    ensures
        forall|a: int|
            #[trigger] has_sq(r, a) <==> on_board(a) && piece::is_piece(pos.state().board[a])
                && piece::color_of(pos.state().board[a]) == color && (piece::kind_of(
                pos.state().board[a],
            ) == piece::ROOK || piece::kind_of(pos.state().board[a]) == piece::QUEEN) && rook_reach(
                occupied(pos.state().board@),
                a,
                square as int,
            ),
{
    let reach = masks.rook_attacks_rt(square, occupancy(pos));
    let sliders = kind_bb(pos, piece::ROOK, color) | kind_bb(pos, piece::QUEEN, color);
    proof {
        lemma_sq_ops();
        assert forall|a: int| rook_reach(occupied(pos.state().board@), square as int, a)
            == rook_reach(occupied(pos.state().board@), a, square as int) by {
            lemma_rook_reach_symmetric(occupied(pos.state().board@), a, square as int);
        }
    }
    reach & sliders
}

/// The bishops and queens of `color` that attack `square` along a diagonal.
fn diagonal_attackers(
    square: pos::Square,
    pos: &pos::Position,
    color: color::Color,
    masks: &AttackMasks,
) -> (r: Bitboard)
    requires
        masks.wf(),
        square < 64,
        consistent(pos.state()),
        color == color::WHITE || color == color::BLACK,
    ensures
        forall|a: int|
            #[trigger] has_sq(r, a) <==> on_board(a) && piece::is_piece(pos.state().board[a])
                && piece::color_of(pos.state().board[a]) == color && (piece::kind_of(
                pos.state().board[a],
            ) == piece::BISHOP || piece::kind_of(pos.state().board[a]) == piece::QUEEN)
                && bishop_reach(occupied(pos.state().board@), a, square as int),
{
    let reach = masks.bishop_attacks_rt(square, occupancy(pos));
    let sliders = kind_bb(pos, piece::BISHOP, color) | kind_bb(pos, piece::QUEEN, color);
    proof {
        lemma_sq_ops();
        assert forall|a: int| bishop_reach(occupied(pos.state().board@), square as int, a)
            == bishop_reach(occupied(pos.state().board@), a, square as int) by {
            lemma_bishop_reach_symmetric(occupied(pos.state().board@), a, square as int);
        }
    }
    reach & sliders
}

/// The pieces of `color` that attack `square`.
#[inline(always)]
pub fn attackers_of(
    square: pos::Square,
    pos: &pos::Position,
    color: color::Color,
    masks: &AttackMasks,
) -> (r: Bitboard)
    requires
        masks.wf(),
        square < 64,
        consistent(pos.state()),
        color == color::WHITE || color == color::BLACK,
    ensures
        forall|a: int| #[trigger] has_sq(r, a) <==> attacker(pos.state().board@, a, square as int, color),
{
    proof {
        lemma_sq_ops();
        assert forall|a: int| 0 <= a < 64 implies (piece::is_piece(#[trigger] pos.state().board[a])
            ==> piece::is_kind(piece::kind_of(pos.state().board[a]))) by {
            piece::lemma_index_of(pos.state().board[a]);
        }
    }
    pawn_attackers(square, pos, color, masks) | knight_attackers(square, pos, color, masks)
        | king_attackers(square, pos, color, masks) | line_attackers(square, pos, color, masks)
        | diagonal_attackers(square, pos, color, masks)
}

/// Whether any piece of `color` attacks `square`.
#[inline(always)]
pub fn is_attacked(
    square: pos::Square,
    pos: &pos::Position,
    color: color::Color,
    masks: &AttackMasks,
) -> (r: bool)
    requires
        masks.wf(),
        square < 64,
        consistent(pos.state()),
        color == color::WHITE || color == color::BLACK,
    ensures
        r == attacked_by(pos.state().board@, square as int, color),
{
    let pawns = pawn_attackers(square, pos, color, masks);
    let knights = knight_attackers(square, pos, color, masks);
    let kings = king_attackers(square, pos, color, masks);
    proof {
        lemma_empty(pawns);
        lemma_empty(knights);
        lemma_empty(kings);
        assert forall|a: int| 0 <= a < 64 implies (piece::is_piece(#[trigger] pos.state().board[a])
            ==> piece::is_kind(piece::kind_of(pos.state().board[a]))) by {
            piece::lemma_index_of(pos.state().board[a]);
        }
    }
    if pawns != EMPTY || knights != EMPTY || kings != EMPTY {
        proof {
            let a = choose|a: int| has_sq(pawns, a) || has_sq(knights, a) || has_sq(kings, a);
            assert(attacker(pos.state().board@, a, square as int, color));
        }
        return true;
    }
    let lines = line_attackers(square, pos, color, masks);
    proof {
        lemma_empty(lines);
    }
    if lines != EMPTY {
        proof {
            let a = choose|a: int| has_sq(lines, a);
            assert(attacker(pos.state().board@, a, square as int, color));
        }
        return true;
    }
    let diagonals = diagonal_attackers(square, pos, color, masks);
    proof {
        lemma_empty(diagonals);
        if diagonals != EMPTY {
            let a = choose|a: int| has_sq(diagonals, a);
            assert(attacker(pos.state().board@, a, square as int, color));
        } else {
            assert forall|a: int| !#[trigger] attacker(pos.state().board@, a, square as int, color) by {
                assert(!has_sq(pawns, a) && !has_sq(knights, a) && !has_sq(kings, a) && !has_sq(
                    lines,
                    a,
                ) && !has_sq(diagonals, a));
            }
        }
    }
    diagonals != EMPTY
}

/// Whether two lines are one line on which one of `sliders` stands.
fn shares_line(line: Bitboard, king_line: Bitboard, sliders: Bitboard) -> (r: bool)
    ensures
        r <==> line == king_line && exists|t: int| has_sq(line, t) && has_sq(sliders, t),
{
    let both = line & sliders;
    proof {
        lemma_sq_ops();
        lemma_empty(both);
        if both != 0 {
            let t = choose|t: int| has_sq(both, t);
            assert(has_sq(line, t) && has_sq(sliders, t));
        }
        if exists|t: int| has_sq(line, t) && has_sq(sliders, t) {
            let t = choose|t: int| has_sq(line, t) && has_sq(sliders, t);
            assert(has_sq(both, t));
        }
    }
    line == king_line && both != 0
}

/// Whether `square` and `king` share a file on which one of `lines` stands.
fn file_pin(
    square: pos::Square,
    king: pos::Square,
    lines: Bitboard,
    Ghost(board): Ghost<Seq<piece::Piece>>,
    Ghost(enemy): Ghost<color::Color>,
) -> (r: bool)
    requires
        square < 64,
        king < 64,
        forall|t: int| #[trigger] has_sq(lines, t) <==> on_board(t) && is_line_slider(board[t], enemy),
    ensures
        r <==> same_file(square as int, king as int) && slider_on_file(board, square as int, enemy),
{
    let f = file_mask(square);
    let kf = file_mask(king);
    proof {
        assert(has_sq(f, square as int));
        if same_file(square as int, king as int) {
            crate::bits::lemma_ext(f, kf);
        }
        if exists|t: int| has_sq(f, t) && has_sq(lines, t) {
            let t = choose|t: int| has_sq(f, t) && has_sq(lines, t);
            assert(on_board(t) && same_file(t, square as int) && is_line_slider(board[t], enemy));
        }
        if slider_on_file(board, square as int, enemy) {
            let t = choose|t: int|
                on_board(t) && same_file(t, square as int) && is_line_slider(
                    #[trigger] board[t],
                    enemy,
                );
            assert(has_sq(f, t) && has_sq(lines, t));
        }
    }
    shares_line(f, kf, lines)
}

/// Whether `square` and `king` share a rank on which one of `lines` stands.
fn rank_pin(
    square: pos::Square,
    king: pos::Square,
    lines: Bitboard,
    Ghost(board): Ghost<Seq<piece::Piece>>,
    Ghost(enemy): Ghost<color::Color>,
) -> (r: bool)
    requires
        square < 64,
        king < 64,
        forall|t: int| #[trigger] has_sq(lines, t) <==> on_board(t) && is_line_slider(board[t], enemy),
    ensures
        r <==> same_rank(square as int, king as int) && slider_on_rank(board, square as int, enemy),
{
    let f = rank_mask(square);
    let kf = rank_mask(king);
    proof {
        assert(has_sq(f, square as int));
        if same_rank(square as int, king as int) {
            crate::bits::lemma_ext(f, kf);
        }
        if exists|t: int| has_sq(f, t) && has_sq(lines, t) {
            let t = choose|t: int| has_sq(f, t) && has_sq(lines, t);
            assert(on_board(t) && same_rank(t, square as int) && is_line_slider(board[t], enemy));
        }
        if slider_on_rank(board, square as int, enemy) {
            let t = choose|t: int|
                on_board(t) && same_rank(t, square as int) && is_line_slider(
                    #[trigger] board[t],
                    enemy,
                );
            assert(has_sq(f, t) && has_sq(lines, t));
        }
    }
    shares_line(f, kf, lines)
}

/// Whether `square` and `king` share a diagonal on which one of `diagonals` stands.
fn diag_pin(
    square: pos::Square,
    king: pos::Square,
    diagonals: Bitboard,
    Ghost(board): Ghost<Seq<piece::Piece>>,
    Ghost(enemy): Ghost<color::Color>,
) -> (r: bool)
    requires
        square < 64,
        king < 64,
        forall|t: int|
            #[trigger] has_sq(diagonals, t) <==> on_board(t) && is_diagonal_slider(board[t], enemy),
    ensures
        r <==> same_diag(square as int, king as int) && slider_on_diag(board, square as int, enemy),
{
    let f = diag_mask(square);
    let kf = diag_mask(king);
    proof {
        assert(has_sq(f, square as int));
        if same_diag(square as int, king as int) {
            crate::bits::lemma_ext(f, kf);
        }
        if exists|t: int| has_sq(f, t) && has_sq(diagonals, t) {
            let t = choose|t: int| has_sq(f, t) && has_sq(diagonals, t);
            assert(on_board(t) && same_diag(t, square as int) && is_diagonal_slider(
                board[t],
                enemy,
            ));
        }
        if slider_on_diag(board, square as int, enemy) {
            let t = choose|t: int|
                on_board(t) && same_diag(t, square as int) && is_diagonal_slider(
                    #[trigger] board[t],
                    enemy,
                );
            assert(has_sq(f, t) && has_sq(diagonals, t));
        }
    }
    shares_line(f, kf, diagonals)
}

/// Whether `square` and `king` share an anti-diagonal on which one of
/// `diagonals` stands.
fn anti_diag_pin(
    square: pos::Square,
    king: pos::Square,
    diagonals: Bitboard,
    Ghost(board): Ghost<Seq<piece::Piece>>,
    Ghost(enemy): Ghost<color::Color>,
) -> (r: bool)
    requires
        square < 64,
        king < 64,
        forall|t: int|
            #[trigger] has_sq(diagonals, t) <==> on_board(t) && is_diagonal_slider(board[t], enemy),
    ensures
        r <==> same_anti_diag(square as int, king as int) && slider_on_anti_diag(
            board,
            square as int,
            enemy,
        ),
{
    let f = anti_diag_mask(square);
    let kf = anti_diag_mask(king);
    proof {
        assert(has_sq(f, square as int));
        if same_anti_diag(square as int, king as int) {
            crate::bits::lemma_ext(f, kf);
        }
        if exists|t: int| has_sq(f, t) && has_sq(diagonals, t) {
            let t = choose|t: int| has_sq(f, t) && has_sq(diagonals, t);
            assert(on_board(t) && same_anti_diag(t, square as int) && is_diagonal_slider(
                board[t],
                enemy,
            ));
        }
        if slider_on_anti_diag(board, square as int, enemy) {
            let t = choose|t: int|
                on_board(t) && same_anti_diag(t, square as int) && is_diagonal_slider(
                    #[trigger] board[t],
                    enemy,
                );
            assert(has_sq(f, t) && has_sq(diagonals, t));
        }
    }
    shares_line(f, kf, diagonals)
}

/// The rooks and queens of `color`.
pub(crate) fn line_sliders(pos: &pos::Position, color: color::Color) -> (r: Bitboard)
    requires
        consistent(pos.state()),
        color == color::WHITE || color == color::BLACK,
    ensures
        forall|t: int|
            #[trigger] has_sq(r, t) <==> on_board(t) && is_line_slider(pos.state().board[t], color),
{
    let r = kind_bb(pos, piece::ROOK, color) | kind_bb(pos, piece::QUEEN, color);
    proof {
        lemma_sq_ops();
        assert forall|t: int|
            #[trigger] has_sq(r, t) <==> on_board(t) && is_line_slider(
                pos.state().board[t],
                color,
            ) by {
            lemma_piece_is(pos.state().board[t], piece::ROOK, color);
            lemma_piece_is(pos.state().board[t], piece::QUEEN, color);
        }
    }
    r
}

/// The bishops and queens of `color`.
pub(crate) fn diagonal_sliders(pos: &pos::Position, color: color::Color) -> (r: Bitboard)
    requires
        consistent(pos.state()),
        color == color::WHITE || color == color::BLACK,
    ensures
        forall|t: int|
            #[trigger] has_sq(r, t) <==> on_board(t) && is_diagonal_slider(
                pos.state().board[t],
                color,
            ),
{
    let r = kind_bb(pos, piece::BISHOP, color) | kind_bb(pos, piece::QUEEN, color);
    proof {
        lemma_sq_ops();
        assert forall|t: int|
            #[trigger] has_sq(r, t) <==> on_board(t) && is_diagonal_slider(
                pos.state().board[t],
                color,
            ) by {
            lemma_piece_is(pos.state().board[t], piece::BISHOP, color);
            lemma_piece_is(pos.state().board[t], piece::QUEEN, color);
        }
    }
    r
}

/// Whether the piece on `square` may be pinned to the king of the side to
/// move: the two share a file, rank or diagonal on which an enemy piece
/// stands that slides along it. Nothing is checked beyond that, so the
/// answer may be yes for a piece that is free to move, but it is never no
/// for a piece that is pinned.
#[inline(always)]
pub(crate) fn might_be_pinned(pos: &mut pos::Position, square: pos::Square) -> (r: bool)
    requires
        square < 64,
        consistent(old(pos).state()),
        old(pos).state().side == color::WHITE || old(pos).state().side == color::BLACK,
        has_piece(old(pos).state().board@, piece::make(piece::KING, old(pos).state().side)),
    ensures
        *final(pos) == *old(pos),
        r == may_be_pinned(
            old(pos).state().board@,
            square as int,
            king_square(old(pos).state().board@, old(pos).state().side),
            old(pos).state().side ^ color::MASK,
        ),
{
    let king_pos = pos.king_sq();
    let enemy = color::other(pos.side_to_move());
    let ghost board = pos.state().board@;
    let lines = line_sliders(pos, enemy);
    let diagonals = diagonal_sliders(pos, enemy);
    file_pin(square, king_pos, lines, Ghost(board), Ghost(enemy)) || rank_pin(
        square,
        king_pos,
        lines,
        Ghost(board),
        Ghost(enemy),
    ) || diag_pin(square, king_pos, diagonals, Ghost(board), Ghost(enemy)) || anti_diag_pin(
        square,
        king_pos,
        diagonals,
        Ghost(board),
        Ghost(enemy),
    )
}

/// The set that holds `square` alone.
fn single(square: pos::Square) -> (r: Bitboard)
    requires
        square < 64,
    ensures
        forall|t: int| #[trigger] has_sq(r, t) <==> t == square,
{
    proof {
        lemma_sq_ops();
    }
    1u64 << square
}

/// The squares that a pawn on `sq` attacks, for a white and for a black pawn.
fn pawn_targets(sq: pos::Square) -> (r: (Bitboard, Bitboard))
    requires
        sq < 64,
    ensures
        forall|t: int| #[trigger] has_sq(r.0, t) <==> pawn_step(true, sq as int, t),
        forall|t: int| #[trigger] has_sq(r.1, t) <==> pawn_step(false, sq as int, t),
{
    let bb = single(sq);
    proof {
        lemma_sq_ops();
        lemma_mask_squares();
    }
    let west_ok = bb & !FILE_A_MASK;
    let east_ok = bb & !FILE_H_MASK;
    (no_we(west_ok) | no_ea(east_ok), so_we(west_ok) | so_ea(east_ok))
}

/// The eight index offsets of a knight's jump, each with the files from
/// which it stays on the board.
proof fn lemma_knight_offsets(sq: int, t: int)
    requires
        on_board(sq),
    ensures
        knight_step(sq, t) <==> on_board(t) && ((t == sq + 15 && file_ix(sq) != 0) || (t == sq + 17
            && file_ix(sq) != 7) || (t == sq - 17 && file_ix(sq) != 0) || (t == sq - 15 && file_ix(
            sq,
        ) != 7) || (t == sq + 6 && file_ix(sq) > 1) || (t == sq - 10 && file_ix(sq) > 1) || (t == sq
            + 10 && file_ix(sq) < 6) || (t == sq - 6 && file_ix(sq) < 6)),
{
    if on_board(t) {
        let f = sq % 8;
        let r = sq / 8;
        let tf = t % 8;
        let tr = t / 8;
        assert(sq == 8 * r + f && t == 8 * tr + tf);
        assert(t - sq == 8 * (tr - r) + (tf - f));
    }
}

/// The squares that a knight on `sq` attacks.
fn knight_targets(sq: pos::Square) -> (r: Bitboard)
    requires
        sq < 64,
    ensures
        forall|t: int| #[trigger] has_sq(r, t) <==> knight_step(sq as int, t),
{
    let bb = single(sq);
    proof {
        lemma_sq_ops();
        lemma_mask_squares();
    }
    let a = bb & !FILE_A_MASK;
    let h = bb & !FILE_H_MASK;
    let ab = bb & !FILE_AB_MASK;
    let gh = bb & !FILE_GH_MASK;
    let n1 = north(no_we(a));
    let n2 = north(no_ea(h));
    let s1 = south(so_we(a));
    let s2 = south(so_ea(h));
    let w1 = west(no_we(ab));
    let w2 = west(so_we(ab));
    let e1 = east(no_ea(gh));
    let e2 = east(so_ea(gh));
    proof {
        assert forall|t: int| #[trigger] has_sq(n1, t) <==> t == sq + 15 && on_board(t) && file_ix(sq as int) != 0 by {}
        assert forall|t: int| #[trigger] has_sq(n2, t) <==> t == sq + 17 && on_board(t) && file_ix(sq as int) != 7 by {}
        assert forall|t: int| #[trigger] has_sq(s1, t) <==> t == sq - 17 && on_board(t) && file_ix(sq as int) != 0 by {}
        assert forall|t: int| #[trigger] has_sq(s2, t) <==> t == sq - 15 && on_board(t) && file_ix(sq as int) != 7 by {}
        assert forall|t: int| #[trigger] has_sq(w1, t) <==> t == sq + 6 && on_board(t) && file_ix(sq as int) > 1 by {}
        assert forall|t: int| #[trigger] has_sq(w2, t) <==> t == sq - 10 && on_board(t) && file_ix(sq as int) > 1 by {}
        assert forall|t: int| #[trigger] has_sq(e1, t) <==> t == sq + 10 && on_board(t) && file_ix(sq as int) < 6 by {}
        assert forall|t: int| #[trigger] has_sq(e2, t) <==> t == sq - 6 && on_board(t) && file_ix(sq as int) < 6 by {}
    }
    let r = n1 | n2 | s1 | s2 | w1 | w2 | e1 | e2;
    proof {
        assert forall|t: int| #[trigger] has_sq(r, t) <==> knight_step(sq as int, t) by {
            lemma_knight_offsets(sq as int, t);
        }
    }
    r
}

/// The squares that a king on `sq` attacks.
fn king_targets(sq: pos::Square) -> (r: Bitboard)
    requires
        sq < 64,
    ensures
        forall|t: int| #[trigger] has_sq(r, t) <==> king_step(sq as int, t),
{
    let bb = single(sq);
    proof {
        lemma_sq_ops();
        lemma_mask_squares();
    }
    let a = bb & !FILE_A_MASK;
    let h = bb & !FILE_H_MASK;
    let n = north(bb);
    let s = south(bb);
    let w = west(a);
    let e = east(h);
    let nw = no_we(a);
    let ne = no_ea(h);
    let sw = so_we(a);
    let se = so_ea(h);
    proof {
        assert forall|t: int| #[trigger] has_sq(n, t) <==> t == sq + 8 && on_board(t) by {}
        assert forall|t: int| #[trigger] has_sq(s, t) <==> t == sq - 8 && on_board(t) by {}
        assert forall|t: int| #[trigger] has_sq(w, t) <==> t == sq - 1 && on_board(t) && file_ix(sq as int) != 0 by {}
        assert forall|t: int| #[trigger] has_sq(e, t) <==> t == sq + 1 && on_board(t) && file_ix(sq as int) != 7 by {}
        assert forall|t: int| #[trigger] has_sq(nw, t) <==> t == sq + 7 && on_board(t) && file_ix(sq as int) != 0 by {}
        assert forall|t: int| #[trigger] has_sq(ne, t) <==> t == sq + 9 && on_board(t) && file_ix(sq as int) != 7 by {}
        assert forall|t: int| #[trigger] has_sq(sw, t) <==> t == sq - 9 && on_board(t) && file_ix(sq as int) != 0 by {}
        assert forall|t: int| #[trigger] has_sq(se, t) <==> t == sq - 7 && on_board(t) && file_ix(sq as int) != 7 by {}
    }
    n | s | w | e | nw | ne | sw | se
}

/// Fills the pawn, knight and king tables of `masks`.
pub(crate) fn init_attack_masks_non_sliding_piece(masks: &mut AttackMasks)
    ensures
        final(masks).pawns_filled(64),
        final(masks).knights_filled(64),
        final(masks).kings_filled(64),
        old(masks).rays_filled(64) ==> final(masks).rays_filled(64),
{
    let mut sq: usize = 0;
    while sq < 64
        invariant
            sq <= 64,
            masks.pawns_filled(sq as int),
            masks.knights_filled(sq as int),
            masks.kings_filled(sq as int),
            old(masks).rays_filled(64) ==> masks.rays_filled(64),
        decreases 64 - sq,
    {
        let pawns = pawn_targets(sq);
        masks.pawn_attacks[0][sq] = pawns.0;
        masks.pawn_attacks[1][sq] = pawns.1;
        masks.knight_attacks[sq] = knight_targets(sq);
        masks.king_attacks[sq] = king_targets(sq);
        sq += 1;
    }
}

/// Fills the rook and bishop ray tables of `masks`: the lines through each
/// square on an empty board.
pub(crate) fn init_attack_masks_sliding_piece_rays(masks: &mut AttackMasks)
    ensures
        final(masks).rays_filled(64),
        old(masks).pawns_filled(64) ==> final(masks).pawns_filled(64),
        old(masks).knights_filled(64) ==> final(masks).knights_filled(64),
        old(masks).kings_filled(64) ==> final(masks).kings_filled(64),
{
    let mut sq: usize = 0;
    while sq < 64
        invariant
            sq <= 64,
            masks.rays_filled(sq as int),
            old(masks).pawns_filled(64) ==> masks.pawns_filled(64),
            old(masks).knights_filled(64) ==> masks.knights_filled(64),
            old(masks).kings_filled(64) ==> masks.kings_filled(64),
        decreases 64 - sq,
    {
        proof {
            lemma_sq_ops();
        }
        let mut lines = file_mask(sq) | rank_mask(sq);
        let mut diagonals = diag_mask(sq) | anti_diag_mask(sq);
        masks.rook_rays[sq] = lines.pop_bit(sq);
        masks.bishop_rays[sq] = diagonals.pop_bit(sq);
        sq += 1;
    }
}

} // verus!
