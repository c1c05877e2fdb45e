//! What stays true of a game from move to move, and why the quick test of
//! `gen_legal` is exact in every state of such a game.

use vstd::prelude::*;
use crate::{AttackMasks, color, piece, pos, ZobristValues};
use crate::attack::{
    attacked_by, attacker, attacks, is_diagonal_slider, is_line_slider, lemma_piece_is,
    may_be_pinned, occupied, slider_on_anti_diag, slider_on_diag, slider_on_file,
    slider_on_rank,
};
use crate::bits::{has_sq, lemma_empty, lemma_ext, lemma_lowest, lemma_sq_ops};
use crate::geometry::{
    bishop_reach, coord, file_ix, in_range, is_direction, on_board, rank_ix, ray_square,
    rook_reach, same_anti_diag, same_diag, same_file, same_rank, slides_in, slides_to,
};
use crate::moves::Move;
use crate::moves::agreement::{en_passant_uncovers, lemma_filter_agrees, lemma_king_after, one_king};
use crate::moves::legal::{
    ep_sound, generable, king_home, legal, lemma_first_exists, lemma_pseudo_legal_probe,
    lemma_pseudo_legal_shape, passes, playable, safe_after,
};
use crate::moves::rules::{enemy_of, lands, own_king_side, own_queen_side, pseudo_legal};
use crate::piece::bb;
use crate::piece::bb::BitboardUtil;
use crate::pos::{consistent, king_side_right, queen_side_right, spec_ahead, spec_behind, StateInfo};
use crate::pos::apply::{castle_rook, probe_board, relocated};
use crate::pos::query::{has_piece, is_first, king_square};
use crate::rays::lemma_ray_step;

verus! {

/// The board as it was before the pawn that may be taken en passant made
/// its double step.
pub open spec fn board_before_double_step(st: StateInfo, e: int) -> Seq<piece::Piece> {
    relocated(st.board@, spec_behind(e, st.side), spec_ahead(e, st.side))
}

/// The en-passant target tells of a double step that was in order: the
/// square that the pawn came from is empty, and before the step the king of
/// the side now to move was not attacked.
pub open spec fn ep_settled(st: StateInfo) -> bool {
    st.ep_square matches Some(e) ==> {
        &&& on_board(spec_ahead(e as int, st.side))
        &&& st.board[spec_ahead(e as int, st.side)] == piece::NONE
        &&& !attacked_by(
            board_before_double_step(st, e as int),
            king_square(st.board@, st.side),
            enemy_of(st),
        )
    }
}

/// The ray from `a` along `(df, dr)` passes over `x` before it comes to `z`.
pub open spec fn passes_over(a: int, df: int, dr: int, x: int, z: int) -> bool {
    exists|j: int, n: int|
        1 <= j < n && in_range(coord(file_ix(a), df, n), coord(rank_ix(a), dr, n)) && x
            == #[trigger] ray_square(a, df, dr, j) && z == #[trigger] ray_square(a, df, dr, n)
}

/// A square that a ray passes over shares the line of the ray with its
/// start and its end.
proof fn lemma_passes_over_lines(a: int, df: int, dr: int, x: int, z: int)
    requires
        on_board(a),
        is_direction(df, dr),
        passes_over(a, df, dr, x, z),
    ensures
        on_board(x),
        on_board(z),
        df == 0 ==> same_file(a, x) && same_file(x, z),
        dr == 0 ==> same_rank(a, x) && same_rank(x, z),
        df != 0 && df == dr ==> same_diag(a, x) && same_diag(x, z),
        df != 0 && df == -dr ==> same_anti_diag(a, x) && same_anti_diag(x, z),
{
    let (j, n) = choose|j: int, n: int|
        1 <= j < n && in_range(coord(file_ix(a), df, n), coord(rank_ix(a), dr, n)) && x
            == #[trigger] ray_square(a, df, dr, j) && z == #[trigger] ray_square(a, df, dr, n);
    lemma_ray_step(a, df, dr, n);
    lemma_ray_step(a, df, dr, j);
}

/// What the boards around a capture en passant have to do with each
/// other: `occ` are the occupied squares before the capture, `occ2` those
/// after it, and `occ0` those before the double step of the pawn that is
/// taken. The capturing pawn goes from `x` to `e`; the pawn taken stands on
/// `p` and came from `q`.
pub open spec fn ep_setting(occ: Set<int>, occ2: Set<int>, occ0: Set<int>, x: int, e: int, p: int, q: int) -> bool {
    &&& on_board(e)
    &&& on_board(p)
    &&& on_board(q)
    &&& file_ix(p) == file_ix(e)
    &&& file_ix(q) == file_ix(e)
    &&& rank_ix(q) - rank_ix(e) == rank_ix(e) - rank_ix(p)
    &&& (rank_ix(e) - rank_ix(p) == 1 || rank_ix(e) - rank_ix(p) == -1)
    &&& occ2.contains(e)
    &&& forall|s: int| occ.contains(s) && s != x && s != p ==> occ2.contains(s)
    &&& forall|s: int| occ0.contains(s) ==> s == q || (occ.contains(s) && s != p)
}

/// A ray that a capture en passant opens either passes over the square of
/// the capturing pawn, or was open before the double step.
proof fn lemma_ep_ray(
    occ: Set<int>,
    occ2: Set<int>,
    occ0: Set<int>,
    x: int,
    e: int,
    p: int,
    q: int,
    a: int,
    df: int,
    dr: int,
    z: int,
)
    requires
        on_board(a),
        is_direction(df, dr),
        ep_setting(occ, occ2, occ0, x, e, p, q),
        slides_to(occ2, a, df, dr, z),
        !slides_to(occ, a, df, dr, z),
    ensures
        passes_over(a, df, dr, x, z) || slides_to(occ0, a, df, dr, z),
{
    let n = choose|n: int| slides_in(occ2, a, df, dr, n, z);
    lemma_ray_step(a, df, dr, n);
    if exists|j: int| 1 <= j < n && x == #[trigger] ray_square(a, df, dr, j) {
        let j = choose|j: int| 1 <= j < n && x == #[trigger] ray_square(a, df, dr, j);
        assert(z == ray_square(a, df, dr, n));
    } else if !slides_in(occ0, a, df, dr, n, z) {
        let j0 = choose|j: int| 1 <= j < n && occ0.contains(#[trigger] ray_square(a, df, dr, j));
        assert(!occ2.contains(ray_square(a, df, dr, j0)));
        assert(ray_square(a, df, dr, j0) == q);
        assert(!slides_in(occ, a, df, dr, n, z));
        let j1 = choose|j: int| 1 <= j < n && occ.contains(#[trigger] ray_square(a, df, dr, j));
        assert(!occ2.contains(ray_square(a, df, dr, j1)));
        assert(ray_square(a, df, dr, j1) == p);
        lemma_ray_step(a, df, dr, j0);
        lemma_ray_step(a, df, dr, j1);
        let jm = if j0 < j1 {
            j0 + 1
        } else {
            j1 + 1
        };
        lemma_ray_step(a, df, dr, jm);
        assert(ray_square(a, df, dr, jm) == e);
        assert(!occ2.contains(ray_square(a, df, dr, jm)));
    }
}

/// A slider whose ray to the king passes over a square makes that square
/// one that may be pinned.
proof fn lemma_passes_over_pins(
    b: Seq<piece::Piece>,
    a: int,
    df: int,
    dr: int,
    x: int,
    z: int,
    c: color::Color,
)
    requires
        on_board(a),
        is_direction(df, dr),
        passes_over(a, df, dr, x, z),
        c == color::WHITE || c == color::BLACK,
        piece::is_piece(b[a]),
        piece::color_of(b[a]) == c,
        (df == 0 || dr == 0) ==> piece::kind_of(b[a]) == piece::ROOK || piece::kind_of(b[a])
            == piece::QUEEN,
        (df != 0 && dr != 0) ==> piece::kind_of(b[a]) == piece::BISHOP || piece::kind_of(b[a])
            == piece::QUEEN,
    ensures
        may_be_pinned(b, x, z, c),
{
    lemma_passes_over_lines(a, df, dr, x, z);
    lemma_piece_is(b[a], piece::ROOK, c);
    lemma_piece_is(b[a], piece::QUEEN, c);
    lemma_piece_is(b[a], piece::BISHOP, c);
    if df == 0 {
        assert(is_line_slider(b[a], c));
        assert(slider_on_file(b, x, c));
    } else if dr == 0 {
        assert(is_line_slider(b[a], c));
        assert(slider_on_rank(b, x, c));
    } else if df == dr {
        assert(is_diagonal_slider(b[a], c));
        assert(slider_on_diag(b, x, c));
    } else {
        assert(is_diagonal_slider(b[a], c));
        assert(slider_on_anti_diag(b, x, c));
    }
}

/// A rook's ray that a capture en passant opens was open before the double
/// step, unless the capturing pawn may be pinned.
proof fn lemma_ep_rook(
    b: Seq<piece::Piece>,
    occ2: Set<int>,
    occ0: Set<int>,
    x: int,
    e: int,
    p: int,
    q: int,
    a: int,
    z: int,
    c: color::Color,
)
    requires
        on_board(a),
        ep_setting(occupied(b), occ2, occ0, x, e, p, q),
        rook_reach(occ2, a, z),
        !rook_reach(occupied(b), a, z),
        c == color::WHITE || c == color::BLACK,
        piece::is_piece(b[a]),
        piece::color_of(b[a]) == c,
        piece::kind_of(b[a]) == piece::ROOK || piece::kind_of(b[a]) == piece::QUEEN,
    ensures
        rook_reach(occ0, a, z) || may_be_pinned(b, x, z, c),
{
    let occ = occupied(b);
    if slides_to(occ2, a, 0, 1, z) {
        lemma_ep_ray(occ, occ2, occ0, x, e, p, q, a, 0, 1, z);
        if passes_over(a, 0, 1, x, z) {
            lemma_passes_over_pins(b, a, 0, 1, x, z, c);
        }
    } else if slides_to(occ2, a, 0, -1, z) {
        lemma_ep_ray(occ, occ2, occ0, x, e, p, q, a, 0, -1, z);
        if passes_over(a, 0, -1, x, z) {
            lemma_passes_over_pins(b, a, 0, -1, x, z, c);
        }
    } else if slides_to(occ2, a, 1, 0, z) {
        lemma_ep_ray(occ, occ2, occ0, x, e, p, q, a, 1, 0, z);
        if passes_over(a, 1, 0, x, z) {
            lemma_passes_over_pins(b, a, 1, 0, x, z, c);
        }
    } else {
        lemma_ep_ray(occ, occ2, occ0, x, e, p, q, a, -1, 0, z);
        if passes_over(a, -1, 0, x, z) {
            lemma_passes_over_pins(b, a, -1, 0, x, z, c);
        }
    }
}

/// A bishop's ray that a capture en passant opens was open before the
/// double step, unless the capturing pawn may be pinned.
proof fn lemma_ep_bishop(
    b: Seq<piece::Piece>,
    occ2: Set<int>,
    occ0: Set<int>,
    x: int,
    e: int,
    p: int,
    q: int,
    a: int,
    z: int,
    c: color::Color,
)
    requires
        on_board(a),
        ep_setting(occupied(b), occ2, occ0, x, e, p, q),
        bishop_reach(occ2, a, z),
        !bishop_reach(occupied(b), a, z),
        c == color::WHITE || c == color::BLACK,
        piece::is_piece(b[a]),
        piece::color_of(b[a]) == c,
        piece::kind_of(b[a]) == piece::BISHOP || piece::kind_of(b[a]) == piece::QUEEN,
    ensures
        bishop_reach(occ0, a, z) || may_be_pinned(b, x, z, c),
{
    let occ = occupied(b);
    if slides_to(occ2, a, 1, 1, z) {
        lemma_ep_ray(occ, occ2, occ0, x, e, p, q, a, 1, 1, z);
        if passes_over(a, 1, 1, x, z) {
            lemma_passes_over_pins(b, a, 1, 1, x, z, c);
        }
    } else if slides_to(occ2, a, -1, 1, z) {
        lemma_ep_ray(occ, occ2, occ0, x, e, p, q, a, -1, 1, z);
        if passes_over(a, -1, 1, x, z) {
            lemma_passes_over_pins(b, a, -1, 1, x, z, c);
        }
    } else if slides_to(occ2, a, 1, -1, z) {
        lemma_ep_ray(occ, occ2, occ0, x, e, p, q, a, 1, -1, z);
        if passes_over(a, 1, -1, x, z) {
            lemma_passes_over_pins(b, a, 1, -1, x, z, c);
        }
    } else {
        lemma_ep_ray(occ, occ2, occ0, x, e, p, q, a, -1, -1, z);
        if passes_over(a, -1, -1, x, z) {
            lemma_passes_over_pins(b, a, -1, -1, x, z, c);
        }
    }
}

/// After a double step that was in order, no capture en passant uncovers
/// the king behind the back of the quick test.
pub proof fn lemma_en_passant_safe(st: StateInfo, m: Move)
    requires
        consistent(st),
        generable(st),
        one_king(st),
        ep_settled(st),
        pseudo_legal(st, m),
    ensures
        !en_passant_uncovers(st, m),
{
    if en_passant_uncovers(st, m) {
        lemma_pseudo_legal_shape(st, m);
        lemma_pseudo_legal_probe(st, m);
        lemma_king_after(st, m);
        let side = st.side;
        let enemy = enemy_of(st);
        let b = st.board@;
        let x = m.origin();
        let e = m.target();
        let p = spec_behind(e, side);
        let q = spec_ahead(e, side);
        let k = king_square(b, side);
        let b2 = probe_board(st, m, true);
        let b0 = board_before_double_step(st, e);
        let king = piece::make(piece::KING, side);
        color::lemma_color_flags(side);
        piece::lemma_make(piece::PAWN, side);
        piece::lemma_make(piece::KING, side);
        piece::lemma_make(piece::PAWN, enemy);
        let w0 = choose|sq: int| 0 <= sq < 64 && b[sq] == king;
        lemma_first_exists(b, king, w0);
        assert(is_first(b, king, k));
        assert(x != k);
        assert(king_square(b2, side) == k);
        let a = choose|a: int| #[trigger] attacker(b2, a, k, enemy);
        lemma_piece_is(b2[e], piece::PAWN, side);
        lemma_piece_is(b[p], piece::PAWN, enemy);
        assert(a != x && a != e && a != p);
        assert(b2[a] == b[a]);
        assert(a != q);
        assert(b0[a] == b[a]);
        assert(!attacker(b, a, k, enemy));
        assert(!attacks(b, a, k));
        let occ = occupied(b);
        let occ2 = occupied(b2);
        let occ0 = occupied(b0);
        assert(ep_setting(occ, occ2, occ0, x, e, p, q)) by {
            assert(occ2.contains(e));
            assert forall|s: int| occ.contains(s) && s != x && s != p implies occ2.contains(s) by {
                if s != e {
                    assert(b2[s] == b[s]);
                }
            }
            assert forall|s: int| occ0.contains(s) implies s == q || (occ.contains(s) && s != p) by {
                if s != q && s != p {
                    assert(b0[s] == b[s]);
                }
            }
        }
        let kind = piece::kind_of(b[a]);
        if (kind == piece::ROOK || kind == piece::QUEEN) && rook_reach(occ2, a, k) {
            lemma_ep_rook(b, occ2, occ0, x, e, p, q, a, k, enemy);
            assert(rook_reach(occ0, a, k));
            assert(attacker(b0, a, k, enemy));
        } else {
            assert((kind == piece::BISHOP || kind == piece::QUEEN) && bishop_reach(occ2, a, k));
            lemma_ep_bishop(b, occ2, occ0, x, e, p, q, a, k, enemy);
            assert(bishop_reach(occ0, a, k));
            assert(attacker(b0, a, k, enemy));
        }
    }
}

/// The colour `c` has one king, and one only.
pub open spec fn sole_king(board: Seq<piece::Piece>, c: color::Color) -> bool {
    &&& has_piece(board, piece::make(piece::KING, c))
    &&& forall|a: int, b: int|
        0 <= a < 64 && 0 <= b < 64 && #[trigger] board[a] == piece::make(piece::KING, c)
            && #[trigger] board[b] == piece::make(piece::KING, c) ==> a == b
}

/// The rank on which the pawns of `c` promote.
pub open spec fn last_rank(c: color::Color) -> int {
    if c == color::WHITE {
        7
    } else {
        0
    }
}

/// No pawn of `c` stands on the rank on which it would have promoted.
pub open spec fn pawns_in_play(board: Seq<piece::Piece>, c: color::Color) -> bool {
    forall|sq: int|
        0 <= sq < 64 && #[trigger] board[sq] == piece::make(piece::PAWN, c) ==> rank_ix(sq)
            != last_rank(c)
}

/// Every castling right that `c` holds has the king of `c` on its home
/// square and a rook of `c` in the corner of that side.
pub open spec fn rights_backed(board: Seq<piece::Piece>, rights: u8, c: color::Color) -> bool {
    &&& rights & king_side_right(c) != 0 ==> board[king_home(c)] == piece::make(piece::KING, c)
        && board[castle_rook(c, true).0] == piece::make(piece::ROOK, c)
    &&& rights & queen_side_right(c) != 0 ==> board[king_home(c)] == piece::make(piece::KING, c)
        && board[castle_rook(c, false).0] == piece::make(piece::ROOK, c)
}

/// A state as it occurs in a game: the board is consistent, each side has
/// one king, the side that has just moved did not leave its king attacked,
/// no pawn stands on its last rank, the castling rights have their kings
/// and rooks in place, and the en-passant target tells of a double step
/// that was in order.
pub open spec fn orderly(st: StateInfo) -> bool {
    &&& consistent(st)
    &&& (st.side == color::WHITE || st.side == color::BLACK)
    &&& sole_king(st.board@, st.side)
    &&& sole_king(st.board@, enemy_of(st))
    &&& !attacked_by(st.board@, king_square(st.board@, enemy_of(st)), st.side)
    &&& pawns_in_play(st.board@, color::WHITE)
    &&& pawns_in_play(st.board@, color::BLACK)
    &&& rights_backed(st.board@, st.castling, color::WHITE)
    &&& rights_backed(st.board@, st.castling, color::BLACK)
    &&& ep_sound(st)
    &&& ep_settled(st)
}

/// The king of a colour that has one stands on the square that holds it.
pub proof fn lemma_sole_king_square(board: Seq<piece::Piece>, c: color::Color, sq: int)
    requires
        sole_king(board, c),
        0 <= sq < 64,
        board[sq] == piece::make(piece::KING, c),
    ensures
        king_square(board, c) == sq,
        is_first(board, piece::make(piece::KING, c), sq),
{
    let king = piece::make(piece::KING, c);
    lemma_first_exists(board, king, sq);
    let k = king_square(board, c);
    assert(is_first(board, king, k));
}

/// An orderly state is one whose moves can be generated and applied, and
/// one in which the quick test of `gen_legal` is exact.
pub proof fn lemma_orderly_playable(st: StateInfo)
    requires
        orderly(st),
    ensures
        playable(st),
        one_king(st),
        forall|m: Move| pseudo_legal(st, m) ==> (passes(st, m) <==> safe_after(st, m)),
{
    let king = piece::make(piece::KING, st.side);
    let w = choose|sq: int| 0 <= sq < 64 && st.board@[sq] == king;
    lemma_sole_king_square(st.board@, st.side, w);
    color::lemma_color_flags(st.side);
    if st.castling & own_king_side(st) != 0 {
        lemma_sole_king_square(st.board@, st.side, king_home(st.side));
    }
    if st.castling & own_queen_side(st) != 0 {
        lemma_sole_king_square(st.board@, st.side, king_home(st.side));
    }
    assert forall|m: Move| pseudo_legal(st, m) implies (passes(st, m) <==> safe_after(st, m)) by {
        lemma_en_passant_safe(st, m);
        lemma_filter_agrees(st, m);
    }
}

/// A move that the rules allow and that lands on a piece is an attack on
/// that piece.
pub proof fn lemma_capture_is_attack(st: StateInfo, m: Move)
    requires
        consistent(st),
        generable(st),
        pseudo_legal(st, m),
        st.board[m.target()] != piece::NONE,
    ensures
        attacker(st.board@, m.origin(), m.target(), st.side),
{
    lemma_pseudo_legal_shape(st, m);
    let p = st.board[m.origin()];
    lemma_piece_is(p, piece::KING, st.side);
    lemma_piece_is(p, piece::PAWN, st.side);
    lemma_piece_is(p, piece::KNIGHT, st.side);
    lemma_piece_is(p, piece::ROOK, st.side);
    lemma_piece_is(p, piece::BISHOP, st.side);
    lemma_piece_is(p, piece::QUEEN, st.side);
    color::lemma_color_flags(st.side);
}

/// The square of the king of `c`, if `c` has one king and one only.
fn sole_king_of(pos: &pos::Position, c: color::Color) -> (r: Option<pos::Square>)
    requires
        consistent(pos.state()),
        c == color::WHITE || c == color::BLACK,
    ensures
        r is Some <==> sole_king(pos.state().board@, c),
        r matches Some(k) ==> k < 64 && k == king_square(pos.state().board@, c)
            && pos.state().board[k as int] == piece::make(piece::KING, c),
{
    let ghost board = pos.state().board@;
    let ghost king = piece::make(piece::KING, c);
    let kings = bb::kind_bb(pos, piece::KING, c);
    proof {
        lemma_piece_is(0, piece::KING, c);
        assert forall|s: int| #[trigger] has_sq(kings, s) <==> 0 <= s < 64 && board[s] == king by {
            if 0 <= s < 64 {
                lemma_piece_is(board[s], piece::KING, c);
            }
        }
        lemma_empty(kings);
        lemma_lowest(kings);
        lemma_sq_ops();
    }
    if kings == bb::EMPTY {
        proof {
            if has_piece(board, king) {
                let w = choose|sq: int| 0 <= sq < 64 && board[sq] == king;
                assert(has_sq(kings, w));
            }
        }
        return None;
    }
    let mut rest = kings;
    let k = rest.serialize_once();
    if kings != 1u64 << k {
        proof {
            if sole_king(board, c) {
                assert forall|s: int| 0 <= s < 64 implies has_sq(kings, s) == has_sq(1u64 << k, s) by {
                    if has_sq(kings, s) {
                        assert(board[s] == king && board[k as int] == king);
                    }
                }
                lemma_ext(kings, 1u64 << k);
            }
        }
        return None;
    }
    proof {
        assert(has_sq(kings, k as int));
        assert forall|a: int, b: int|
            0 <= a < 64 && 0 <= b < 64 && #[trigger] board[a] == king && #[trigger] board[b]
                == king implies a == b by {
            assert(has_sq(kings, a) && has_sq(kings, b));
        }
        lemma_sole_king_square(board, c, k as int);
    }
    Some(k)
}

/// Whether the castling rights that `c` holds have its king and rooks in place.
fn rights_in_place(pos: &pos::Position, c: color::Color) -> (r: bool)
    requires
        c == color::WHITE || c == color::BLACK,
    ensures
        r == rights_backed(pos.state().board@, pos.state().castling, c),
{
    let (home, k_right, q_right, k_corner, q_corner): (usize, u8, u8, usize, usize) = if c
        == color::WHITE {
        (4, pos::WK_CASTLE, pos::WQ_CASTLE, pos::WK_ROOK_SQ, pos::WQ_ROOK_SQ)
    } else {
        (60, pos::BK_CASTLE, pos::BQ_CASTLE, pos::BK_ROOK_SQ, pos::BQ_ROOK_SQ)
    };
    proof {
        piece::lemma_make(piece::KING, c);
        piece::lemma_make(piece::ROOK, c);
    }
    let king = piece::KING | c;
    let rook = piece::ROOK | c;
    let rights = pos.castle_rights();
    let king_home = pos.piece_on(home) == king;
    (rights & k_right == 0 || (king_home && pos.piece_on(k_corner) == rook)) && (rights & q_right
        == 0 || (king_home && pos.piece_on(q_corner) == rook))
}

/// Whether no pawn of `c` stands on the rank where it would have promoted.
fn pawns_short_of_last_rank(pos: &pos::Position, c: color::Color) -> (r: bool)
    requires
        consistent(pos.state()),
        c == color::WHITE || c == color::BLACK,
    ensures
        r == pawns_in_play(pos.state().board@, c),
{
    let ghost board = pos.state().board@;
    let pawns = bb::kind_bb(pos, piece::PAWN, c);
    let last = if c == color::WHITE {
        bb::RANK_8_MASK
    } else {
        bb::RANK_1_MASK
    };
    let stuck = pawns & last;
    proof {
        lemma_piece_is(0, piece::PAWN, c);
        assert forall|s: int|
            #[trigger] has_sq(pawns, s) <==> 0 <= s < 64 && board[s] == piece::make(
                piece::PAWN,
                c,
            ) by {
            if 0 <= s < 64 {
                lemma_piece_is(board[s], piece::PAWN, c);
            }
        }
        lemma_sq_ops();
        bb::lemma_mask_squares();
        lemma_empty(stuck);
        if stuck != 0 {
            let w = choose|s: int| has_sq(stuck, s);
            assert(has_sq(pawns, w) && has_sq(last, w));
            assert(board[w] == piece::make(piece::PAWN, c));
        } else {
            assert forall|sq: int|
                0 <= sq < 64 && #[trigger] board[sq] == piece::make(
                    piece::PAWN,
                    c,
                ) implies rank_ix(sq) != last_rank(c) by {
                assert(has_sq(pawns, sq));
                assert(!has_sq(stuck, sq));
            }
        }
    }
    stuck == bb::EMPTY
}

/// Whether the en-passant target of `pos`, if it has one, tells of a double
/// step that was in order; `king` is the square of the king of the side to
/// move.
fn ep_in_order(
    pos: &pos::Position,
    king: pos::Square,
    masks: &AttackMasks,
    zb: &ZobristValues,
) -> (r: bool)
    requires
        masks.wf(),
        consistent(pos.state()),
        pos.state().side == color::WHITE || pos.state().side == color::BLACK,
        king < 64,
        king == king_square(pos.state().board@, pos.state().side),
    ensures
        r == (ep_sound(pos.state()) && ep_settled(pos.state())),
{
    let side = pos.side_to_move();
    let enemy = color::other(side);
    proof {
        piece::lemma_make(piece::PAWN, enemy);
    }
    match pos.ep_square() {
        Some(e) => {
            if e >= 64 || pos.piece_on(e) != piece::NONE {
                return false;
            }
            if e < 8 || e >= 56 {
                return false;
            }
            let (taken, came_from) = if side == color::WHITE {
                (e - 8, e + 8)
            } else {
                (e + 8, e - 8)
            };
            if pos.piece_on(taken) != piece::PAWN | enemy || pos.piece_on(came_from)
                != piece::NONE {
                return false;
            }
            let mut before = pos.from_ply(pos.history().len());
            before.move_piece(taken, came_from, zb);
            proof {
                assert(before.state().board@ =~= board_before_double_step(pos.state(), e as int));
            }
            !bb::is_attacked(king, &before, enemy, masks)
        },
        None => true,
    }
}

/// Whether `pos` is in an orderly state: each side has one king, the side
/// that is not to move is not in check, no pawn stands on its last rank,
/// the castling rights have their kings and rooks in place, and the
/// en-passant target, if there is one, tells of a double step that was in
/// order. From an orderly state on, every legal move can be applied and
/// leads to an orderly state again.
pub fn is_orderly(pos: &pos::Position, masks: &AttackMasks, zb: &ZobristValues) -> (r: bool)
    requires
        masks.wf(),
        consistent(pos.state()),
    ensures
        r == orderly(pos.state()),
{
    let side = pos.side_to_move();
    if side != color::WHITE && side != color::BLACK {
        return false;
    }
    let enemy = color::other(side);
    let own_king = match sole_king_of(pos, side) {
        Some(k) => k,
        None => {
            return false;
        },
    };
    let enemy_king = match sole_king_of(pos, enemy) {
        Some(k) => k,
        None => {
            return false;
        },
    };
    if bb::is_attacked(enemy_king, pos, side, masks) {
        return false;
    }
    if !pawns_short_of_last_rank(pos, color::WHITE) || !pawns_short_of_last_rank(
        pos,
        color::BLACK,
    ) {
        return false;
    }
    if !rights_in_place(pos, color::WHITE) || !rights_in_place(pos, color::BLACK) {
        return false;
    }
    ep_in_order(pos, own_king, masks, zb)
}

} // verus!
