//! The walk of a sliding piece along one direction, and why the walk over
//! bitboards reaches the same squares as a cast over the squares of the board.

use vstd::prelude::*;
use crate::bits::{has_sq, lemma_sq_ops, squares};
use crate::geometry::{
    bishop_line, coord, file_ix, in_range, is_direction, on_board, rank_ix, ray_square,
    rook_line, slides_in, slides_to,
};

verus! {

/// The index reached from `start` after `j` steps of `dir`.
pub open spec fn step_sq(start: int, dir: int, j: int) -> int {
    start + j * dir
}

/// The first `k` squares of the walk are on the board and none of them stops it.
pub open spec fn walk_clear(start: int, stops: u64, dir: int, k: int) -> bool {
    forall|j: int|
        0 <= j < k ==> on_board(#[trigger] step_sq(start, dir, j)) && !has_sq(
            stops,
            step_sq(start, dir, j),
        )
}

/// The walk stops on its square number `n`: the first that `stops` holds.
pub open spec fn walk_stops(start: int, stops: u64, dir: int, n: int) -> bool {
    &&& 0 <= n
    &&& walk_clear(start, stops, dir, n)
    &&& on_board(step_sq(start, dir, n))
    &&& has_sq(stops, step_sq(start, dir, n))
}

/// The walk visits `t`: it is `k` steps from the start, for some `k` that the
/// walk reaches without passing a stopping square.
pub open spec fn walked(start: int, stops: u64, dir: int, t: int) -> bool {
    exists|k: int|
        0 <= k && walk_clear(start, stops, dir, k) && on_board(#[trigger] step_sq(start, dir, k))
            && t == step_sq(start, dir, k)
}

/// How many steps the walk takes before it stops.
pub open spec fn stop_index(start: int, stops: u64, dir: int) -> int {
    choose|n: int| walk_stops(start, stops, dir, n)
}

/// One step further from the start is one step less from the next square.
pub proof fn lemma_step_shift(start: int, dir: int, j: int)
    ensures
        step_sq(start + dir, dir, j) == step_sq(start, dir, j + 1),
        step_sq(start, dir, 0) == start,
{
    assert((j + 1) * dir == j * dir + dir) by (nonlinear_arith);
}

/// A walk stops once only.
pub proof fn lemma_stop_unique(start: int, stops: u64, dir: int, a: int, b: int)
    requires
        walk_stops(start, stops, dir, a),
        walk_stops(start, stops, dir, b),
    ensures
        a == b,
{
    if a < b {
        assert(!has_sq(stops, step_sq(start, dir, a)));
    }
    if b < a {
        assert(!has_sq(stops, step_sq(start, dir, b)));
    }
}

/// A walk that does not stop on its first square goes on from the next one.
pub proof fn lemma_walk_next(start: int, stops: u64, dir: int)
    requires
        exists|n: int| walk_stops(start, stops, dir, n),
        !has_sq(stops, start),
    ensures
        walk_stops(start + dir, stops, dir, stop_index(start, stops, dir) - 1),
        stop_index(start + dir, stops, dir) == stop_index(start, stops, dir) - 1,
        stop_index(start, stops, dir) >= 1,
        on_board(start + dir),
        forall|t: int|
            walked(start, stops, dir, t) <==> t == start || walked(start + dir, stops, dir, t),
{
    let n = stop_index(start, stops, dir);
    lemma_step_shift(start, dir, 0);
    assert(n >= 1);
    assert forall|j: int| 0 <= j < n - 1 implies on_board(#[trigger] step_sq(start + dir, dir, j))
        && !has_sq(stops, step_sq(start + dir, dir, j)) by {
        lemma_step_shift(start, dir, j);
        assert(on_board(step_sq(start, dir, j + 1)));
    }
    lemma_step_shift(start, dir, n - 1);
    assert(walk_stops(start + dir, stops, dir, n - 1));
    lemma_stop_unique(start + dir, stops, dir, n - 1, stop_index(start + dir, stops, dir));
    assert(on_board(step_sq(start, dir, 0)));
    assert(step_sq(start + dir, dir, 0) == start + dir);
    assert(on_board(step_sq(start + dir, dir, 0))) by {
        if n - 1 > 0 {
        }
    }
    assert forall|t: int|
        walked(start, stops, dir, t) <==> t == start || walked(start + dir, stops, dir, t) by {
        if walked(start, stops, dir, t) {
            let k = choose|k: int|
                0 <= k && walk_clear(start, stops, dir, k) && on_board(
                    #[trigger] step_sq(start, dir, k),
                ) && t == step_sq(start, dir, k);
            if k > 0 {
                assert forall|j: int| 0 <= j < k - 1 implies on_board(
                    #[trigger] step_sq(start + dir, dir, j),
                ) && !has_sq(stops, step_sq(start + dir, dir, j)) by {
                    lemma_step_shift(start, dir, j);
                    assert(on_board(step_sq(start, dir, j + 1)));
                }
                lemma_step_shift(start, dir, k - 1);
                assert(t == step_sq(start + dir, dir, k - 1));
            }
        }
        if t == start {
            assert(walk_clear(start, stops, dir, 0));
            assert(t == step_sq(start, dir, 0));
        }
        if walked(start + dir, stops, dir, t) {
            let k = choose|k: int|
                0 <= k && walk_clear(start + dir, stops, dir, k) && on_board(
                    #[trigger] step_sq(start + dir, dir, k),
                ) && t == step_sq(start + dir, dir, k);
            assert forall|j: int| 0 <= j < k + 1 implies on_board(
                #[trigger] step_sq(start, dir, j),
            ) && !has_sq(stops, step_sq(start, dir, j)) by {
                if j > 0 {
                    lemma_step_shift(start, dir, j - 1);
                    assert(on_board(step_sq(start + dir, dir, j - 1)));
                }
            }
            lemma_step_shift(start, dir, k);
            assert(t == step_sq(start, dir, k + 1));
        }
    }
}

/// A walk that stops on its first square visits that square alone.
pub proof fn lemma_walk_done(start: int, stops: u64, dir: int)
    requires
        on_board(start),
        has_sq(stops, start),
    ensures
        forall|t: int| walked(start, stops, dir, t) <==> t == start,
{
    lemma_step_shift(start, dir, 0);
    assert forall|t: int| walked(start, stops, dir, t) <==> t == start by {
        if walked(start, stops, dir, t) {
            let k = choose|k: int|
                0 <= k && walk_clear(start, stops, dir, k) && on_board(
                    #[trigger] step_sq(start, dir, k),
                ) && t == step_sq(start, dir, k);
            if k > 0 {
                assert(!has_sq(stops, step_sq(start, dir, 0)));
            }
        }
        if t == start {
            assert(walk_clear(start, stops, dir, 0));
            assert(t == step_sq(start, dir, 0));
        }
    }
}

/// The index that a direction adds at each step.
pub open spec fn dir_offset(df: int, dr: int) -> int {
    8 * dr + df
}

/// Steps by index and steps by coordinates meet on the same square, as long
/// as the coordinates stay on the board.
pub proof fn lemma_ray_step(sq: int, df: int, dr: int, k: int)
    requires
        on_board(sq),
        is_direction(df, dr),
        0 <= k,
        in_range(coord(file_ix(sq), df, k), coord(rank_ix(sq), dr, k)),
    ensures
        step_sq(sq, dir_offset(df, dr), k) == ray_square(sq, df, dr, k),
        on_board(ray_square(sq, df, dr, k)),
        file_ix(ray_square(sq, df, dr, k)) == coord(file_ix(sq), df, k),
        rank_ix(ray_square(sq, df, dr, k)) == coord(rank_ix(sq), dr, k),
        k > 0 ==> ray_square(sq, df, dr, k) != sq,
{
    let d = dir_offset(df, dr);
    assert(k * d == 8 * (k * dr) + k * df) by (nonlinear_arith)
        requires
            d == 8 * dr + df,
    ;
    assert(k * df == coord(0, df, k)) by (nonlinear_arith)
        requires
            -1 <= df <= 1,
            coord(0, df, k) == if df == 0 {
                0
            } else if df > 0 {
                k
            } else {
                -k
            },
    ;
    assert(k * dr == coord(0, dr, k)) by (nonlinear_arith)
        requires
            -1 <= dr <= 1,
            coord(0, dr, k) == if dr == 0 {
                0
            } else if dr > 0 {
                k
            } else {
                -k
            },
    ;
}

/// What the bridging lemmas assume of the masks handed to a walk: the edge
/// mask holds the squares from which one more step leaves the board, and the
/// blockers are the occupied squares of the ray.
pub open spec fn walk_setting(sq: int, occ: u64, blockers: u64, edges: u64, df: int, dr: int) -> bool {
    &&& on_board(sq)
    &&& is_direction(df, dr)
    &&& forall|s: int|
        #[trigger] has_sq(edges, s) <==> on_board(s) && !in_range(
            file_ix(s) + df,
            rank_ix(s) + dr,
        )
    &&& !has_sq(blockers, sq)
    &&& forall|k: int|
        1 <= k && in_range(coord(file_ix(sq), df, k), coord(rank_ix(sq), dr, k)) ==> (has_sq(
            blockers,
            #[trigger] ray_square(sq, df, dr, k),
        ) <==> has_sq(occ, ray_square(sq, df, dr, k)))
}

/// A walk that has come `k` squares without stopping is still on the board.
proof fn lemma_clear_in_range(
    sq: int,
    occ: u64,
    blockers: u64,
    edges: u64,
    df: int,
    dr: int,
    k: int,
)
    requires
        walk_setting(sq, occ, blockers, edges, df, dr),
        0 <= k,
        walk_clear(sq, blockers | edges, dir_offset(df, dr), k),
    ensures
        in_range(coord(file_ix(sq), df, k), coord(rank_ix(sq), dr, k)),
    decreases k,
{
    if k > 0 {
        lemma_clear_in_range(sq, occ, blockers, edges, df, dr, k - 1);
        lemma_ray_step(sq, df, dr, k - 1);
        lemma_sq_ops();
        let s = step_sq(sq, dir_offset(df, dr), k - 1);
        assert(!has_sq(blockers | edges, s));
        assert(!has_sq(edges, s));
    }
}

/// From any square that the walk reaches without stopping, it goes on to a stop.
proof fn lemma_find_stop(sq: int, occ: u64, blockers: u64, edges: u64, df: int, dr: int, k: int)
    requires
        walk_setting(sq, occ, blockers, edges, df, dr),
        0 <= k,
        walk_clear(sq, blockers | edges, dir_offset(df, dr), k),
        in_range(coord(file_ix(sq), df, k), coord(rank_ix(sq), dr, k)),
    ensures
        exists|n: int| walk_stops(sq, blockers | edges, dir_offset(df, dr), n),
    decreases 8 - k,
{
    let d = dir_offset(df, dr);
    let stops = blockers | edges;
    lemma_ray_step(sq, df, dr, k);
    lemma_sq_ops();
    let s = step_sq(sq, d, k);
    if has_sq(stops, s) {
        assert(walk_stops(sq, stops, d, k));
    } else {
        assert(!has_sq(edges, s));
        assert(in_range(coord(file_ix(sq), df, k + 1), coord(rank_ix(sq), dr, k + 1)));
        assert forall|j: int| 0 <= j < k + 1 implies on_board(#[trigger] step_sq(sq, d, j))
            && !has_sq(stops, step_sq(sq, d, j)) by {
            if j == k {
            }
        }
        lemma_find_stop(sq, occ, blockers, edges, df, dr, k + 1);
    }
}

/// The walk over bitboards along one direction stops, and it visits the
/// start and the squares that a slider reaches along that direction.
pub proof fn lemma_walk_is_slide(sq: int, occ: u64, blockers: u64, edges: u64, df: int, dr: int)
    requires
        walk_setting(sq, occ, blockers, edges, df, dr),
    ensures
        exists|n: int| walk_stops(sq, blockers | edges, dir_offset(df, dr), n),
        forall|t: int|
            walked(sq, blockers | edges, dir_offset(df, dr), t) <==> t == sq || slides_to(
                squares(occ),
                sq,
                df,
                dr,
                t,
            ),
{
    let d = dir_offset(df, dr);
    let stops = blockers | edges;
    lemma_find_stop(sq, occ, blockers, edges, df, dr, 0);
    lemma_step_shift(sq, d, 0);
    lemma_sq_ops();
    assert forall|t: int|
        walked(sq, stops, d, t) <==> t == sq || slides_to(squares(occ), sq, df, dr, t) by {
        if walked(sq, stops, d, t) && t != sq {
            let k = choose|k: int|
                0 <= k && walk_clear(sq, stops, d, k) && on_board(#[trigger] step_sq(sq, d, k))
                    && t == step_sq(sq, d, k);
            lemma_clear_in_range(sq, occ, blockers, edges, df, dr, k);
            lemma_ray_step(sq, df, dr, k);
            assert forall|j: int| 1 <= j < k implies !squares(occ).contains(
                #[trigger] ray_square(sq, df, dr, j),
            ) by {
                lemma_ray_step(sq, df, dr, j);
                assert(!has_sq(stops, step_sq(sq, d, j)));
            }
            assert(slides_in(squares(occ), sq, df, dr, k, t));
        }
        if t == sq {
            assert(walk_clear(sq, stops, d, 0));
            assert(t == step_sq(sq, d, 0));
        }
        if slides_to(squares(occ), sq, df, dr, t) {
            let n = choose|n: int| slides_in(squares(occ), sq, df, dr, n, t);
            assert forall|j: int| 0 <= j < n implies on_board(#[trigger] step_sq(sq, d, j))
                && !has_sq(stops, step_sq(sq, d, j)) by {
                lemma_ray_step(sq, df, dr, j);
                lemma_ray_step(sq, df, dr, j + 1);
                if j >= 1 {
                    assert(!squares(occ).contains(ray_square(sq, df, dr, j)));
                }
            }
            lemma_ray_step(sq, df, dr, n);
            assert(t == step_sq(sq, d, n));
        }
    }
}

/// The masks of a rook's walk along an orthogonal direction fit the bridging lemma.
pub proof fn lemma_rook_setting(sq: int, occ: u64, blockers: u64, edges: u64, df: int, dr: int)
    requires
        on_board(sq),
        is_direction(df, dr),
        df == 0 || dr == 0,
        forall|s: int| #[trigger] has_sq(blockers, s) <==> has_sq(occ, s) && rook_line(sq, s),
        forall|s: int|
            #[trigger] has_sq(edges, s) <==> on_board(s) && !in_range(
                file_ix(s) + df,
                rank_ix(s) + dr,
            ),
    ensures
        walk_setting(sq, occ, blockers, edges, df, dr),
{
    assert forall|k: int|
        1 <= k && in_range(coord(file_ix(sq), df, k), coord(rank_ix(sq), dr, k)) implies (has_sq(
        blockers,
        #[trigger] ray_square(sq, df, dr, k),
    ) <==> has_sq(occ, ray_square(sq, df, dr, k))) by {
        lemma_ray_step(sq, df, dr, k);
    }
}

/// The masks of a bishop's walk along a diagonal direction fit the bridging lemma.
pub proof fn lemma_bishop_setting(sq: int, occ: u64, blockers: u64, edges: u64, df: int, dr: int)
    requires
        on_board(sq),
        is_direction(df, dr),
        df != 0 && dr != 0,
        forall|s: int| #[trigger] has_sq(blockers, s) <==> has_sq(occ, s) && bishop_line(sq, s),
        forall|s: int|
            #[trigger] has_sq(edges, s) <==> on_board(s) && !in_range(
                file_ix(s) + df,
                rank_ix(s) + dr,
            ),
    ensures
        walk_setting(sq, occ, blockers, edges, df, dr),
{
    assert forall|k: int|
        1 <= k && in_range(coord(file_ix(sq), df, k), coord(rank_ix(sq), dr, k)) implies (has_sq(
        blockers,
        #[trigger] ray_square(sq, df, dr, k),
    ) <==> has_sq(occ, ray_square(sq, df, dr, k))) by {
        lemma_ray_step(sq, df, dr, k);
    }
}

/// A slider never reaches the square it stands on.
pub proof fn lemma_slide_moves(occ: Set<int>, sq: int, df: int, dr: int, t: int)
    requires
        on_board(sq),
        is_direction(df, dr),
        slides_to(occ, sq, df, dr, t),
    ensures
        t != sq,
        on_board(t),
{
    let n = choose|n: int| slides_in(occ, sq, df, dr, n, t);
    lemma_ray_step(sq, df, dr, n);
}

} // verus!
