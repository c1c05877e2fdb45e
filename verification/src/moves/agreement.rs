//! Why the quick test of `gen_legal` accepts the same moves as making every
//! move on the board and looking at the king.

use vstd::prelude::*;
use crate::{color, piece};
use crate::attack::{
    attacked_by, attacker, attacks, is_diagonal_slider, is_line_slider, lemma_piece_is,
    may_be_pinned, occupied, slider_on_anti_diag, slider_on_diag, slider_on_file,
    slider_on_rank,
};
use crate::geometry::{
    bishop_reach, coord, file_ix, in_range, is_direction, on_board, rank_ix, ray_square,
    rook_reach, same_anti_diag, same_diag, same_file, same_rank, slides_in, slides_to,
};
use crate::moves::Move;
use crate::moves::legal::{
    generable, is_en_passant, lemma_first_exists, lemma_pseudo_legal_probe,
    lemma_pseudo_legal_shape, passes, safe_after,
};
use crate::moves::rules::{enemy_of, pseudo_legal};
use crate::pos::{consistent, StateInfo};
use crate::pos::apply::{probe_board, relocated};
use crate::pos::query::{in_check, is_first, king_square};
use crate::rays::lemma_ray_step;

verus! {

/// The side to move has no more than one king.
pub open spec fn one_king(st: StateInfo) -> bool {
    forall|a: int, b: int|
        0 <= a < 64 && 0 <= b < 64 && #[trigger] st.board[a] == piece::make(piece::KING, st.side)
            && #[trigger] st.board[b] == piece::make(piece::KING, st.side) ==> a == b
}

/// The one case in which the quick test lets through a move that leaves the
/// king in check: a capture en passant, made while not in check by a pawn
/// that shares no line with its king and an enemy slider, which takes away
/// the pawn that alone stood between such a slider and the king.
pub open spec fn en_passant_uncovers(st: StateInfo, m: Move) -> bool {
    &&& is_en_passant(m)
    &&& !in_check(st)
    &&& !may_be_pinned(st.board@, m.origin(), king_square(st.board@, st.side), enemy_of(st))
    &&& !safe_after(st, m)
}

/// A slider on `a` reaches `x` along the direction `(df, dr)`, and `z` lies
/// further along the same ray.
pub open spec fn screens(occ: Set<int>, a: int, df: int, dr: int, x: int, z: int) -> bool {
    exists|j: int, n: int|
        1 <= j < n && #[trigger] slides_in(occ, a, df, dr, j, x) && in_range(
            coord(file_ix(a), df, n),
            coord(rank_ix(a), dr, n),
        ) && z == #[trigger] ray_square(a, df, dr, n)
}

/// `b2` is `b1` with the piece on `x` moved to `t`.
pub open spec fn moved_to(b1: Seq<piece::Piece>, b2: Seq<piece::Piece>, x: int, t: int) -> bool {
    &&& b1.len() == 64
    &&& b2.len() == 64
    &&& on_board(x)
    &&& on_board(t)
    &&& x != t
    &&& b1[x] != piece::NONE
    &&& b2[x] == piece::NONE
    &&& b2[t] != piece::NONE
    &&& forall|s: int| 0 <= s < 64 && s != x && s != t ==> #[trigger] b2[s] == b1[s]
}

/// Squares at different distances along a ray are different squares.
pub proof fn lemma_ray_distinct(a: int, df: int, dr: int, j: int, n: int)
    requires
        on_board(a),
        is_direction(df, dr),
        0 <= j < n,
        in_range(coord(file_ix(a), df, n), coord(rank_ix(a), dr, n)),
    ensures
        in_range(coord(file_ix(a), df, j), coord(rank_ix(a), dr, j)),
        ray_square(a, df, dr, j) != ray_square(a, df, dr, n),
        on_board(ray_square(a, df, dr, j)),
{
    lemma_ray_step(a, df, dr, n);
    lemma_ray_step(a, df, dr, j);
}

/// A slide stays a slide when the only new piece stands on its target.
proof fn lemma_slide_kept(occ: Set<int>, occ2: Set<int>, a: int, df: int, dr: int, z: int)
    requires
        on_board(a),
        is_direction(df, dr),
        slides_to(occ, a, df, dr, z),
        forall|s: int| occ2.contains(s) && s != z ==> occ.contains(s),
    ensures
        slides_to(occ2, a, df, dr, z),
{
    let n = choose|n: int| slides_in(occ, a, df, dr, n, z);
    assert forall|k: int| 1 <= k < n implies !occ2.contains(#[trigger] ray_square(a, df, dr, k)) by {
        lemma_ray_distinct(a, df, dr, k, n);
    }
    assert(slides_in(occ2, a, df, dr, n, z));
}

/// A slide that one piece alone had barred passes over the square of that piece.
proof fn lemma_slide_opened(occ: Set<int>, occ2: Set<int>, a: int, df: int, dr: int, x: int, z: int)
    requires
        on_board(a),
        is_direction(df, dr),
        slides_to(occ2, a, df, dr, z),
        forall|s: int| occ.contains(s) && s != x ==> occ2.contains(s),
    ensures
        slides_to(occ, a, df, dr, z) || screens(occ, a, df, dr, x, z),
{
    let n = choose|n: int| slides_in(occ2, a, df, dr, n, z);
    if !slides_in(occ, a, df, dr, n, z) {
        let j = choose|j: int| 1 <= j < n && occ.contains(#[trigger] ray_square(a, df, dr, j));
        assert(!occ2.contains(ray_square(a, df, dr, j)));
        assert(ray_square(a, df, dr, j) == x);
        lemma_ray_distinct(a, df, dr, j, n);
        assert forall|k: int| 1 <= k < j implies !occ.contains(#[trigger] ray_square(a, df, dr, k)) by {
            lemma_ray_distinct(a, df, dr, k, j);
            assert(!occ2.contains(ray_square(a, df, dr, k)));
        }
        assert(slides_in(occ, a, df, dr, j, x));
        assert(z == ray_square(a, df, dr, n));
    }
}

/// A rook or queen on `a` reaches `x` on its way to `z`.
pub open spec fn screens_line(occ: Set<int>, a: int, x: int, z: int) -> bool {
    screens(occ, a, 0, 1, x, z) || screens(occ, a, 0, -1, x, z) || screens(occ, a, 1, 0, x, z)
        || screens(occ, a, -1, 0, x, z)
}

/// A bishop or queen on `a` reaches `x` on its way to `z`.
pub open spec fn screens_diagonal(occ: Set<int>, a: int, x: int, z: int) -> bool {
    screens(occ, a, 1, 1, x, z) || screens(occ, a, -1, 1, x, z) || screens(occ, a, 1, -1, x, z)
        || screens(occ, a, -1, -1, x, z)
}

proof fn lemma_rook_opened(occ: Set<int>, occ2: Set<int>, a: int, x: int, z: int)
    requires
        rook_reach(occ2, a, z),
        forall|s: int| occ.contains(s) && s != x ==> occ2.contains(s),
    ensures
        rook_reach(occ, a, z) || screens_line(occ, a, x, z),
{
    if slides_to(occ2, a, 0, 1, z) {
        lemma_slide_opened(occ, occ2, a, 0, 1, x, z);
    } else if slides_to(occ2, a, 0, -1, z) {
        lemma_slide_opened(occ, occ2, a, 0, -1, x, z);
    } else if slides_to(occ2, a, 1, 0, z) {
        lemma_slide_opened(occ, occ2, a, 1, 0, x, z);
    } else {
        lemma_slide_opened(occ, occ2, a, -1, 0, x, z);
    }
}

proof fn lemma_bishop_opened(occ: Set<int>, occ2: Set<int>, a: int, x: int, z: int)
    requires
        bishop_reach(occ2, a, z),
        forall|s: int| occ.contains(s) && s != x ==> occ2.contains(s),
    ensures
        bishop_reach(occ, a, z) || screens_diagonal(occ, a, x, z),
{
    if slides_to(occ2, a, 1, 1, z) {
        lemma_slide_opened(occ, occ2, a, 1, 1, x, z);
    } else if slides_to(occ2, a, -1, 1, z) {
        lemma_slide_opened(occ, occ2, a, -1, 1, x, z);
    } else if slides_to(occ2, a, 1, -1, z) {
        lemma_slide_opened(occ, occ2, a, 1, -1, x, z);
    } else {
        lemma_slide_opened(occ, occ2, a, -1, -1, x, z);
    }
}

proof fn lemma_rook_kept(occ: Set<int>, occ2: Set<int>, a: int, z: int)
    requires
        rook_reach(occ, a, z),
        forall|s: int| occ2.contains(s) && s != z ==> occ.contains(s),
    ensures
        rook_reach(occ2, a, z),
{
    if slides_to(occ, a, 0, 1, z) {
        lemma_slide_kept(occ, occ2, a, 0, 1, z);
    } else if slides_to(occ, a, 0, -1, z) {
        lemma_slide_kept(occ, occ2, a, 0, -1, z);
    } else if slides_to(occ, a, 1, 0, z) {
        lemma_slide_kept(occ, occ2, a, 1, 0, z);
    } else {
        lemma_slide_kept(occ, occ2, a, -1, 0, z);
    }
}

proof fn lemma_bishop_kept(occ: Set<int>, occ2: Set<int>, a: int, z: int)
    requires
        bishop_reach(occ, a, z),
        forall|s: int| occ2.contains(s) && s != z ==> occ.contains(s),
    ensures
        bishop_reach(occ2, a, z),
{
    if slides_to(occ, a, 1, 1, z) {
        lemma_slide_kept(occ, occ2, a, 1, 1, z);
    } else if slides_to(occ, a, -1, 1, z) {
        lemma_slide_kept(occ, occ2, a, -1, 1, z);
    } else if slides_to(occ, a, 1, -1, z) {
        lemma_slide_kept(occ, occ2, a, 1, -1, z);
    } else {
        lemma_slide_kept(occ, occ2, a, -1, -1, z);
    }
}

/// An attack that the move of a piece from `x` brings about is an attack
/// along a ray that the piece had barred.
pub proof fn lemma_attack_opened(
    b1: Seq<piece::Piece>,
    b2: Seq<piece::Piece>,
    x: int,
    t: int,
    a: int,
    z: int,
)
    requires
        moved_to(b1, b2, x, t),
        a != x,
        a != t,
        attacks(b2, a, z),
        !attacks(b1, a, z),
    ensures
        ({
            let k = piece::kind_of(b1[a]);
            ||| ((k == piece::ROOK || k == piece::QUEEN) && screens_line(occupied(b1), a, x, z))
            ||| ((k == piece::BISHOP || k == piece::QUEEN) && screens_diagonal(
                occupied(b1),
                a,
                x,
                z,
            ))
        }),
        piece::is_piece(b1[a]),
{
    let occ = occupied(b1);
    let occ2 = occupied(b2);
    assert(b2[a] == b1[a]);
    assert forall|s: int| occ.contains(s) && s != x implies occ2.contains(s) by {
        if s != t {
            assert(b2[s] == b1[s]);
        }
    }
    let k = piece::kind_of(b1[a]);
    if (k == piece::ROOK || k == piece::QUEEN) && rook_reach(occ2, a, z) {
        lemma_rook_opened(occ, occ2, a, x, z);
    }
    if (k == piece::BISHOP || k == piece::QUEEN) && bishop_reach(occ2, a, z) {
        lemma_bishop_opened(occ, occ2, a, x, z);
    }
}

/// An attack on the square that a piece moves to is still there once the
/// piece has arrived.
pub proof fn lemma_attack_kept(b1: Seq<piece::Piece>, b2: Seq<piece::Piece>, x: int, t: int, a: int)
    requires
        moved_to(b1, b2, x, t),
        a != x,
        a != t,
        attacks(b1, a, t),
    ensures
        attacks(b2, a, t),
{
    let occ = occupied(b1);
    let occ2 = occupied(b2);
    assert(b2[a] == b1[a]);
    assert forall|s: int| occ2.contains(s) && s != t implies occ.contains(s) by {
        if s != x {
            assert(b2[s] == b1[s]);
        }
    }
    let k = piece::kind_of(b1[a]);
    if (k == piece::ROOK || k == piece::QUEEN) && rook_reach(occ, a, t) {
        lemma_rook_kept(occ, occ2, a, t);
    }
    if (k == piece::BISHOP || k == piece::QUEEN) && bishop_reach(occ, a, t) {
        lemma_bishop_kept(occ, occ2, a, t);
    }
}

/// No piece attacks the square that it stands on.
pub proof fn lemma_no_self_attack(b: Seq<piece::Piece>, a: int)
    ensures
        !attacks(b, a, a),
{
    let occ = occupied(b);
    if on_board(a) {
        if rook_reach(occ, a, a) {
            crate::moves::legal::lemma_rook_on_line(occ, a, a);
        }
        if bishop_reach(occ, a, a) {
            crate::moves::legal::lemma_bishop_on_line(occ, a, a);
        }
    }
}

/// A square that screens another from a slider shares a line with both.
pub proof fn lemma_screen_lines(occ: Set<int>, a: int, df: int, dr: int, x: int, z: int)
    requires
        on_board(a),
        is_direction(df, dr),
        screens(occ, a, df, dr, x, z),
    ensures
        slides_to(occ, a, df, dr, x),
        on_board(x),
        on_board(z),
        df == 0 ==> same_file(a, x) && same_file(x, z),
        dr == 0 ==> same_rank(a, x) && same_rank(x, z),
        df != 0 && df == dr ==> same_diag(a, x) && same_diag(x, z),
        df != 0 && df == -dr ==> same_anti_diag(a, x) && same_anti_diag(x, z),
{
    let (j, n) = choose|j: int, n: int|
        1 <= j < n && #[trigger] slides_in(occ, a, df, dr, j, x) && in_range(
            coord(file_ix(a), df, n),
            coord(rank_ix(a), dr, n),
        ) && z == #[trigger] ray_square(a, df, dr, n);
    lemma_ray_step(a, df, dr, j);
    lemma_ray_step(a, df, dr, n);
}

/// A slider that would attack `z` but for the piece on `x` attacks `x`.
pub proof fn lemma_screen_attacked(b1: Seq<piece::Piece>, a: int, x: int, z: int)
    requires
        b1.len() == 64,
        on_board(a),
        piece::is_piece(b1[a]),
        ({
            let k = piece::kind_of(b1[a]);
            ||| ((k == piece::ROOK || k == piece::QUEEN) && screens_line(occupied(b1), a, x, z))
            ||| ((k == piece::BISHOP || k == piece::QUEEN) && screens_diagonal(
                occupied(b1),
                a,
                x,
                z,
            ))
        }),
    ensures
        attacks(b1, a, x),
        forall|c: color::Color|
            (c == color::WHITE || c == color::BLACK) && piece::color_of(b1[a]) == c
                ==> may_be_pinned(b1, x, z, c),
{
    let occ = occupied(b1);
    let k = piece::kind_of(b1[a]);
    if (k == piece::ROOK || k == piece::QUEEN) && screens_line(occ, a, x, z) {
        if screens(occ, a, 0, 1, x, z) {
            lemma_screen_lines(occ, a, 0, 1, x, z);
        } else if screens(occ, a, 0, -1, x, z) {
            lemma_screen_lines(occ, a, 0, -1, x, z);
        } else if screens(occ, a, 1, 0, x, z) {
            lemma_screen_lines(occ, a, 1, 0, x, z);
        } else {
            lemma_screen_lines(occ, a, -1, 0, x, z);
        }
        assert(rook_reach(occ, a, x));
    } else {
        if screens(occ, a, 1, 1, x, z) {
            lemma_screen_lines(occ, a, 1, 1, x, z);
        } else if screens(occ, a, -1, 1, x, z) {
            lemma_screen_lines(occ, a, -1, 1, x, z);
        } else if screens(occ, a, 1, -1, x, z) {
            lemma_screen_lines(occ, a, 1, -1, x, z);
        } else {
            lemma_screen_lines(occ, a, -1, -1, x, z);
        }
        assert(bishop_reach(occ, a, x));
    }
    assert forall|c: color::Color|
        (c == color::WHITE || c == color::BLACK) && piece::color_of(b1[a])
            == c implies may_be_pinned(b1, x, z, c) by {
        lemma_piece_is(b1[a], piece::ROOK, c);
        lemma_piece_is(b1[a], piece::QUEEN, c);
        lemma_piece_is(b1[a], piece::BISHOP, c);
        if (k == piece::ROOK || k == piece::QUEEN) && screens_line(occ, a, x, z) {
            assert(is_line_slider(b1[a], c));
            if same_file(a, x) && same_file(x, z) {
                assert(slider_on_file(b1, x, c));
            } else {
                assert(same_rank(a, x) && same_rank(x, z));
                assert(slider_on_rank(b1, x, c));
            }
        } else {
            assert(is_diagonal_slider(b1[a], c));
            if same_diag(a, x) && same_diag(x, z) {
                assert(slider_on_diag(b1, x, c));
            } else {
                assert(same_anti_diag(a, x) && same_anti_diag(x, z));
                assert(slider_on_anti_diag(b1, x, c));
            }
        }
    }
}

/// Where the king of the mover stands once a move is made for probing.
pub proof fn lemma_king_after(st: StateInfo, m: Move)
    requires
        consistent(st),
        generable(st),
        one_king(st),
        pseudo_legal(st, m),
    ensures
        king_square(probe_board(st, m, is_en_passant(m)), st.side) == if m.origin() == king_square(
            st.board@,
            st.side,
        ) {
            m.target()
        } else {
            king_square(st.board@, st.side)
        },
{
    lemma_pseudo_legal_shape(st, m);
    lemma_pseudo_legal_probe(st, m);
    let king = piece::make(piece::KING, st.side);
    let k = king_square(st.board@, st.side);
    let b = probe_board(st, m, is_en_passant(m));
    let w0 = choose|sq: int| 0 <= sq < 64 && st.board@[sq] == king;
    lemma_first_exists(st.board@, king, w0);
    assert(is_first(st.board@, king, k));
    let w = choose|sq: int| 0 <= sq < 64 && b[sq] == king;
    lemma_first_exists(b, king, w);
    let k2 = king_square(b, st.side);
    assert(is_first(b, king, k2));
    let target = if m.origin() == k {
        m.target()
    } else {
        k
    };
    let b1 = st.board@;
    color::lemma_color_flags(st.side);
    lemma_piece_is(b1[m.origin()], piece::KING, st.side);
    lemma_piece_is(king, piece::PAWN, enemy_of(st));
    if k2 != target {
        assert(b[k2] == king);
        assert(b[m.origin()] == piece::NONE);
        if m.origin() != k {
            assert(b[m.target()] == b1[m.origin()]);
        }
        assert(k2 != m.origin() && k2 != m.target());
        assert(b1[k2] == king);
        assert(b1[k] == king);
    }
}

/// The quick test agrees with the probe: a move that the rules allow
/// passes the test exactly when it leaves the own king out of check. This
/// holds for every state with one king of the side to move, and for every
/// move but a capture en passant that uncovers the king.
pub proof fn lemma_filter_agrees(st: StateInfo, m: Move)
    requires
        consistent(st),
        generable(st),
        one_king(st),
        pseudo_legal(st, m),
        !en_passant_uncovers(st, m),
    ensures
        passes(st, m) <==> safe_after(st, m),
{
    lemma_pseudo_legal_shape(st, m);
    lemma_pseudo_legal_probe(st, m);
    lemma_king_after(st, m);
    let king = piece::make(piece::KING, st.side);
    let k = king_square(st.board@, st.side);
    let enemy = enemy_of(st);
    let b1 = st.board@;
    let b2 = probe_board(st, m, is_en_passant(m));
    let x = m.origin();
    let t = m.target();
    let w0 = choose|sq: int| 0 <= sq < 64 && st.board@[sq] == king;
    lemma_first_exists(st.board@, king, w0);
    assert(is_first(b1, king, k));
    color::lemma_color_flags(st.side);
    piece::lemma_make(piece::KING, st.side);
    lemma_piece_is(b1[x], piece::KING, st.side);
    piece::lemma_piece_flags(b1[x]);
    assert(b1[x] & piece::KING != 0 <==> x == k);
    if in_check(st) {
        assert(passes(st, m) <==> safe_after(st, m));
    } else if is_en_passant(m) {
        piece::lemma_make(piece::PAWN, st.side);
        assert(x != k);
        assert(passes(st, m) <==> safe_after(st, m));
    } else if x == k {
        assert(king_square(b2, st.side) == t);
        assert(passes(st, m) == !attacked_by(b1, t, enemy));
        assert(safe_after(st, m) == !attacked_by(b2, t, enemy));
    } else {
        assert(king_square(b2, st.side) == k);
        assert(safe_after(st, m) == !attacked_by(b2, k, enemy));
        assert(!attacked_by(b1, k, enemy));
    }
    if !in_check(st) && !is_en_passant(m) {
        assert(b2 == relocated(b1, x, t));
        assert(moved_to(b1, b2, x, t));
        if x == k {
            if attacked_by(b2, t, enemy) {
                let a = choose|a: int| #[trigger] attacker(b2, a, t, enemy);
                lemma_no_self_attack(b2, t);
                lemma_piece_is(b2[t], piece::KING, st.side);
                assert(a != x && a != t);
                if !attacks(b1, a, t) {
                    lemma_attack_opened(b1, b2, x, t, a, t);
                    lemma_screen_attacked(b1, a, x, t);
                    assert(attacker(b1, a, k, enemy));
                }
                assert(attacker(b1, a, t, enemy));
            }
            if attacked_by(b1, t, enemy) {
                let a = choose|a: int| #[trigger] attacker(b1, a, t, enemy);
                lemma_no_self_attack(b1, t);
                assert(a != x && a != t);
                lemma_attack_kept(b1, b2, x, t, a);
                assert(attacker(b2, a, t, enemy));
            }
        } else if !may_be_pinned(b1, x, k, enemy) {
            if attacked_by(b2, k, enemy) {
                let a = choose|a: int| #[trigger] attacker(b2, a, k, enemy);
                assert(a != x);
                assert(a != t);
                if !attacks(b1, a, k) {
                    lemma_attack_opened(b1, b2, x, t, a, k);
                    lemma_screen_attacked(b1, a, x, k);
                    assert(may_be_pinned(b1, x, k, enemy));
                }
                assert(attacker(b1, a, k, enemy));
            }
        }
    }
}

} // verus!
