//! Which squares the pieces of a board attack, stated over the board itself.

use vstd::prelude::*;
use crate::{color, piece};
use crate::geometry::{
    bishop_reach, coord, file_ix, in_range, is_direction, king_step, knight_step, on_board,
    pawn_step, rank_ix, ray_square, rook_reach, same_anti_diag, same_diag, same_file, same_rank,
    slides_in, slides_to,
};
use crate::rays::lemma_ray_step;

verus! {

/// The occupied squares of a board.
pub open spec fn occupied(board: Seq<piece::Piece>) -> Set<int> {
    Set::new(|s: int| 0 <= s < 64 && board[s] != piece::NONE)
}

/// The piece on `a` attacks `t`: a pawn, knight or king by its step, a
/// rook, bishop or queen along a ray that no piece interrupts.
pub open spec fn attacks(board: Seq<piece::Piece>, a: int, t: int) -> bool {
    let p = board[a];
    let k = piece::kind_of(p);
    &&& on_board(a)
    &&& on_board(t)
    &&& piece::is_piece(p)
    &&& ({
        ||| (k == piece::PAWN && pawn_step(piece::color_of(p) == color::WHITE, a, t))
        ||| (k == piece::KNIGHT && knight_step(a, t))
        ||| (k == piece::KING && king_step(a, t))
        ||| ((k == piece::ROOK || k == piece::QUEEN) && rook_reach(occupied(board), a, t))
        ||| ((k == piece::BISHOP || k == piece::QUEEN) && bishop_reach(occupied(board), a, t))
    })
}

/// The piece on `a` belongs to `by` and attacks `t`.
pub open spec fn attacker(board: Seq<piece::Piece>, a: int, t: int, by: color::Color) -> bool {
    piece::color_of(board[a]) == by && attacks(board, a, t)
}

/// Some piece of colour `by` attacks `t`.
pub open spec fn attacked_by(board: Seq<piece::Piece>, t: int, by: color::Color) -> bool {
    exists|a: int| #[trigger] attacker(board, a, t, by)
}

/// `p` is a rook or a queen of colour `c`.
pub open spec fn is_line_slider(p: piece::Piece, c: color::Color) -> bool {
    p == piece::make(piece::ROOK, c) || p == piece::make(piece::QUEEN, c)
}

/// `p` is a bishop or a queen of colour `c`.
pub open spec fn is_diagonal_slider(p: piece::Piece, c: color::Color) -> bool {
    p == piece::make(piece::BISHOP, c) || p == piece::make(piece::QUEEN, c)
}

/// A rook or queen of colour `c` stands on the file of `sq`.
pub open spec fn slider_on_file(board: Seq<piece::Piece>, sq: int, c: color::Color) -> bool {
    exists|t: int| on_board(t) && same_file(t, sq) && is_line_slider(#[trigger] board[t], c)
}

/// A rook or queen of colour `c` stands on the rank of `sq`.
pub open spec fn slider_on_rank(board: Seq<piece::Piece>, sq: int, c: color::Color) -> bool {
    exists|t: int| on_board(t) && same_rank(t, sq) && is_line_slider(#[trigger] board[t], c)
}

/// A bishop or queen of colour `c` stands on the diagonal of `sq`.
pub open spec fn slider_on_diag(board: Seq<piece::Piece>, sq: int, c: color::Color) -> bool {
    exists|t: int| on_board(t) && same_diag(t, sq) && is_diagonal_slider(#[trigger] board[t], c)
}

/// A bishop or queen of colour `c` stands on the anti-diagonal of `sq`.
pub open spec fn slider_on_anti_diag(board: Seq<piece::Piece>, sq: int, c: color::Color) -> bool {
    exists|t: int|
        on_board(t) && same_anti_diag(t, sq) && is_diagonal_slider(#[trigger] board[t], c)
}

/// The piece on `sq` may be pinned to a king on `k` by a piece of colour
/// `enemy`: the two squares share a line, and somewhere on that line stands
/// an enemy piece that slides along such lines. Whether anything stands in
/// between is not looked at.
pub open spec fn may_be_pinned(board: Seq<piece::Piece>, sq: int, k: int, enemy: color::Color) -> bool {
    ||| (same_file(sq, k) && slider_on_file(board, sq, enemy))
    ||| (same_rank(sq, k) && slider_on_rank(board, sq, enemy))
    ||| (same_diag(sq, k) && slider_on_diag(board, sq, enemy))
    ||| (same_anti_diag(sq, k) && slider_on_anti_diag(board, sq, enemy))
}

/// A slide read backwards is a slide: the squares in between are the same.
pub proof fn lemma_slide_back(occ: Set<int>, a: int, df: int, dr: int, b: int)
    requires
        on_board(a),
        is_direction(df, dr),
        slides_to(occ, a, df, dr, b),
    ensures
        on_board(b),
        slides_to(occ, b, -df, -dr, a),
{
    let n = choose|n: int| slides_in(occ, a, df, dr, n, b);
    lemma_ray_step(a, df, dr, n);
    lemma_ray_step(a, df, dr, 0);
    assert(in_range(coord(file_ix(b), -df, n), coord(rank_ix(b), -dr, n)));
    lemma_ray_step(b, -df, -dr, n);
    assert forall|k: int| 1 <= k < n implies !occ.contains(#[trigger] ray_square(b, -df, -dr, k)) by {
        lemma_ray_step(b, -df, -dr, k);
        lemma_ray_step(a, df, dr, n - k);
        assert(ray_square(b, -df, -dr, k) == ray_square(a, df, dr, n - k));
    }
    assert(slides_in(occ, b, -df, -dr, n, a));
}

/// A rook on `a` attacks `b` exactly when a rook on `b` attacks `a`.
pub proof fn lemma_rook_reach_symmetric(occ: Set<int>, a: int, b: int)
    ensures
        rook_reach(occ, a, b) <==> rook_reach(occ, b, a),
{
    if rook_reach(occ, a, b) {
        lemma_rook_back(occ, a, b);
    }
    if rook_reach(occ, b, a) {
        lemma_rook_back(occ, b, a);
    }
}

proof fn lemma_rook_back(occ: Set<int>, a: int, b: int)
    requires
        rook_reach(occ, a, b),
    ensures
        rook_reach(occ, b, a),
{
    if slides_to(occ, a, 0, 1, b) {
        lemma_slide_back(occ, a, 0, 1, b);
    } else if slides_to(occ, a, 0, -1, b) {
        lemma_slide_back(occ, a, 0, -1, b);
    } else if slides_to(occ, a, 1, 0, b) {
        lemma_slide_back(occ, a, 1, 0, b);
    } else {
        lemma_slide_back(occ, a, -1, 0, b);
    }
}

/// A bishop on `a` attacks `b` exactly when a bishop on `b` attacks `a`.
pub proof fn lemma_bishop_reach_symmetric(occ: Set<int>, a: int, b: int)
    ensures
        bishop_reach(occ, a, b) <==> bishop_reach(occ, b, a),
{
    if bishop_reach(occ, a, b) {
        lemma_bishop_back(occ, a, b);
    }
    if bishop_reach(occ, b, a) {
        lemma_bishop_back(occ, b, a);
    }
}

proof fn lemma_bishop_back(occ: Set<int>, a: int, b: int)
    requires
        bishop_reach(occ, a, b),
    ensures
        bishop_reach(occ, b, a),
{
    if slides_to(occ, a, 1, 1, b) {
        lemma_slide_back(occ, a, 1, 1, b);
    } else if slides_to(occ, a, -1, 1, b) {
        lemma_slide_back(occ, a, -1, 1, b);
    } else if slides_to(occ, a, 1, -1, b) {
        lemma_slide_back(occ, a, 1, -1, b);
    } else {
        lemma_slide_back(occ, a, -1, -1, b);
    }
}

/// What it takes for the piece on a square to be a given kind of a given colour.
pub proof fn lemma_piece_is(p: piece::Piece, k: piece::Piece, c: color::Color)
    requires
        piece::is_kind(k),
        c == color::WHITE || c == color::BLACK,
    ensures
        piece::is_piece(piece::make(k, c)),
        piece::index_of(piece::make(k, c)) < 12,
        piece::piece_at_index(piece::index_of(piece::make(k, c))) == piece::make(k, c),
        p == piece::make(k, c) <==> piece::is_piece(p) && piece::kind_of(p) == k && piece::color_of(
            p,
        ) == c,
{
    piece::lemma_make(k, c);
    piece::lemma_index_of(piece::make(k, c));
    piece::lemma_index_of(p);
}

} // verus!
