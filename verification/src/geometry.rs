//! Board geometry over plain integers: files, ranks, lines and the steps of
//! each piece kind. Squares are numbered rank by rank, a1 = 0 up to h8 = 63.

use vstd::prelude::*;

verus! {

/// Whether `sq` names one of the 64 squares.
pub open spec fn on_board(sq: int) -> bool {
    0 <= sq < 64
}

/// The file of a square, 0 for the a-file.
pub open spec fn file_ix(sq: int) -> int {
    sq % 8
}

/// The rank of a square, 0 for the first rank.
pub open spec fn rank_ix(sq: int) -> int {
    sq / 8
}

/// The square on file `f` and rank `r`.
pub open spec fn square_at(f: int, r: int) -> int {
    r * 8 + f
}

/// Whether `f` and `r` are coordinates of a square.
pub open spec fn in_range(f: int, r: int) -> bool {
    0 <= f < 8 && 0 <= r < 8
}

/// The distance between two coordinates.
pub open spec fn dist(a: int, b: int) -> int {
    if a <= b {
        b - a
    } else {
        a - b
    }
}

/// A knight on `a` attacks `b`.
pub open spec fn knight_step(a: int, b: int) -> bool {
    &&& on_board(a)
    &&& on_board(b)
    &&& ({
        let df = dist(file_ix(a), file_ix(b));
        let dr = dist(rank_ix(a), rank_ix(b));
        (df == 1 && dr == 2) || (df == 2 && dr == 1)
    })
}

/// A king on `a` attacks `b`.
pub open spec fn king_step(a: int, b: int) -> bool {
    &&& on_board(a)
    &&& on_board(b)
    &&& a != b
    &&& dist(file_ix(a), file_ix(b)) <= 1
    &&& dist(rank_ix(a), rank_ix(b)) <= 1
}

/// A pawn on `a` attacks `b`; a white pawn looks up the board, a black one down.
pub open spec fn pawn_step(white: bool, a: int, b: int) -> bool {
    &&& on_board(a)
    &&& on_board(b)
    &&& dist(file_ix(a), file_ix(b)) == 1
    &&& rank_ix(b) == rank_ix(a) + if white {
        1int
    } else {
        -1int
    }
}

pub open spec fn same_file(a: int, b: int) -> bool {
    file_ix(a) == file_ix(b)
}

pub open spec fn same_rank(a: int, b: int) -> bool {
    rank_ix(a) == rank_ix(b)
}

/// On one diagonal, the lines that run from south-west to north-east.
pub open spec fn same_diag(a: int, b: int) -> bool {
    file_ix(a) - rank_ix(a) == file_ix(b) - rank_ix(b)
}

/// On one anti-diagonal, the lines that run from south-east to north-west.
pub open spec fn same_anti_diag(a: int, b: int) -> bool {
    file_ix(a) + rank_ix(a) == file_ix(b) + rank_ix(b)
}

/// `b` lies on the file or the rank of `a` and is not `a` itself.
pub open spec fn rook_line(a: int, b: int) -> bool {
    on_board(a) && on_board(b) && a != b && (same_file(a, b) || same_rank(a, b))
}

/// `b` lies on a diagonal of `a` and is not `a` itself.
pub open spec fn bishop_line(a: int, b: int) -> bool {
    on_board(a) && on_board(b) && a != b && (same_diag(a, b) || same_anti_diag(a, b))
}

/// A direction on the board: each component is -1, 0 or 1, and not both are 0.
pub open spec fn is_direction(df: int, dr: int) -> bool {
    -1 <= df <= 1 && -1 <= dr <= 1 && !(df == 0 && dr == 0)
}

/// The coordinate `k` steps from `c` along a component `d` of a direction.
pub open spec fn coord(c: int, d: int, k: int) -> int {
    if d == 0 {
        c
    } else if d > 0 {
        c + k
    } else {
        c - k
    }
}

/// The square `k` steps from `a` in the direction `(df, dr)`.
pub open spec fn ray_square(a: int, df: int, dr: int, k: int) -> int {
    square_at(coord(file_ix(a), df, k), coord(rank_ix(a), dr, k))
}

/// A slider on `a` reaches `b` in `n` steps of `(df, dr)`: every step stays
/// on the board and no square strictly between the two is occupied.
pub open spec fn slides_in(occ: Set<int>, a: int, df: int, dr: int, n: int, b: int) -> bool {
    &&& n >= 1
    &&& in_range(coord(file_ix(a), df, n), coord(rank_ix(a), dr, n))
    &&& b == ray_square(a, df, dr, n)
    &&& forall|k: int| 1 <= k < n ==> !occ.contains(#[trigger] ray_square(a, df, dr, k))
}

/// A slider on `a` reaches `b` along the direction `(df, dr)`.
pub open spec fn slides_to(occ: Set<int>, a: int, df: int, dr: int, b: int) -> bool {
    exists|n: int| slides_in(occ, a, df, dr, n, b)
}

/// A rook on `a` attacks `b` when `occ` is the set of occupied squares: the
/// square-by-square cast along the four orthogonal rays, each of which ends
/// on the first occupied square or at the edge.
pub open spec fn rook_reach(occ: Set<int>, a: int, b: int) -> bool {
    &&& on_board(a)
    &&& (slides_to(occ, a, 0, 1, b) || slides_to(occ, a, 0, -1, b) || slides_to(occ, a, 1, 0, b)
        || slides_to(occ, a, -1, 0, b))
}

/// A bishop on `a` attacks `b` when `occ` is the set of occupied squares.
pub open spec fn bishop_reach(occ: Set<int>, a: int, b: int) -> bool {
    &&& on_board(a)
    &&& (slides_to(occ, a, 1, 1, b) || slides_to(occ, a, -1, 1, b) || slides_to(occ, a, 1, -1, b)
        || slides_to(occ, a, -1, -1, b))
}

/// A queen on `a` attacks `b` when `occ` is the set of occupied squares.
pub open spec fn queen_reach(occ: Set<int>, a: int, b: int) -> bool {
    rook_reach(occ, a, b) || bishop_reach(occ, a, b)
}

} // verus!
