//! From one state of a game to the next: what a legal move keeps in order.

use vstd::prelude::*;
use crate::{color, piece, ZobristValues};
use crate::attack::{attacked_by, attacker, attacks, occupied};
use crate::geometry::{
    coord, file_ix, in_range, is_direction, on_board, rank_ix, ray_square, slides_in,
};
use crate::moves::{Move, MoveType};
use crate::moves::agreement::{lemma_attack_opened, lemma_king_after, moved_to, screens};
use crate::moves::legal::{
    ep_sound, is_en_passant, king_home, legal, lemma_pseudo_legal_applicable,
    lemma_pseudo_legal_probe, lemma_pseudo_legal_shape, safe_after,
};
use crate::moves::orderly::{
    board_before_double_step, ep_settled, last_rank, lemma_capture_is_attack,
    lemma_orderly_playable, lemma_sole_king_square, orderly, pawns_in_play, rights_backed,
    sole_king,
};
use crate::moves::rules::{castle_move, enemy_of, pawn_double_push, pawn_move, pseudo_legal};
use crate::pos::{
    consistent, king_side_right, Position, queen_side_right, spec_ahead, spec_behind, StateInfo,
};
use crate::pos::apply::{
    applicable, board_after, castle_rook, ep_after, made, probe_board, relocated, right_taken,
    rights_after, rights_after_leaving,
};
use crate::pos::query::king_square;
use crate::rays::lemma_ray_step;

verus! {

/// `next` is the state that `m` leads to from `st`, as far as board, side
/// to move, castling rights and en-passant target go.
pub open spec fn follows(st: StateInfo, m: Move, next: StateInfo) -> bool {
    &&& consistent(next)
    &&& next.board@ == board_after(st, m)
    &&& next.side == st.side ^ color::MASK
    &&& next.castling == rights_after(st, m)
    &&& next.ep_square == ep_after(st, m)
}

/// The pieces are twelve different values, none of them the empty value.
proof fn lemma_pieces_differ(c: color::Color)
    requires
        c == color::WHITE || c == color::BLACK,
    ensures
        ({
            let e = c ^ color::MASK;
            let p = piece::make(piece::PAWN, c);
            let n = piece::make(piece::KNIGHT, c);
            let b = piece::make(piece::BISHOP, c);
            let r = piece::make(piece::ROOK, c);
            let q = piece::make(piece::QUEEN, c);
            let k = piece::make(piece::KING, c);
            &&& (e == color::WHITE || e == color::BLACK)
            &&& e != c
            &&& p != n && p != b && p != r && p != q && p != k && n != b && n != r && n != q && n
                != k && b != r && b != q && b != k && r != q && r != k && q != k
            &&& piece::color_of(p) == c && piece::color_of(n) == c && piece::color_of(b) == c
                && piece::color_of(r) == c && piece::color_of(q) == c && piece::color_of(k) == c
            &&& piece::is_piece(p) && piece::is_piece(n) && piece::is_piece(b) && piece::is_piece(r)
                && piece::is_piece(q) && piece::is_piece(k)
        }),
{
    color::lemma_color_flags(c);
    piece::lemma_make(piece::PAWN, c);
    piece::lemma_make(piece::KNIGHT, c);
    piece::lemma_make(piece::BISHOP, c);
    piece::lemma_make(piece::ROOK, c);
    piece::lemma_make(piece::QUEEN, c);
    piece::lemma_make(piece::KING, c);
}

/// What a move puts on its target: the piece that moves, or the piece
/// that a pawn promotes to.
pub open spec fn landing_piece(st: StateInfo, m: Move) -> piece::Piece {
    match m.kind() {
        MoveType::Promotion(p) => p,
        MoveType::PromoCapture(p, _) => p,
        _ => st.board[m.origin()],
    }
}

/// The square of the rook that a castle moves, and where it goes; for any
/// other move, the origin and the target of the move itself.
pub open spec fn second_hop(st: StateInfo, m: Move) -> (int, int) {
    match m.kind() {
        MoveType::KingSideCastle => castle_rook(st.side, true),
        MoveType::QueenSideCastle => castle_rook(st.side, false),
        _ => (m.origin(), m.target()),
    }
}

/// The square that a move empties besides its origin: the square of the
/// pawn taken en passant or the corner that a castling rook leaves; for any
/// other move, the origin itself.
pub open spec fn also_emptied(st: StateInfo, m: Move) -> int {
    match m.kind() {
        MoveType::EnPassant => spec_behind(m.target(), st.side),
        MoveType::KingSideCastle => castle_rook(st.side, true).0,
        MoveType::QueenSideCastle => castle_rook(st.side, false).0,
        _ => m.origin(),
    }
}

/// Square by square, the board after a legal move in an orderly state: the
/// origin is empty, the target holds what landed, a castle has moved its
/// rook, a capture en passant has taken its pawn, and nothing else has
/// changed.
pub proof fn lemma_board_after(st: StateInfo, m: Move)
    requires
        orderly(st),
        pseudo_legal(st, m),
    ensures
        board_after(st, m).len() == 64,
        board_after(st, m)[m.origin()] == piece::NONE,
        board_after(st, m)[m.target()] == landing_piece(st, m),
        board_after(st, m)[also_emptied(st, m)] == piece::NONE,
        board_after(st, m)[second_hop(st, m).1] == if second_hop(st, m).1 == m.target() {
            landing_piece(st, m)
        } else {
            piece::make(piece::ROOK, st.side)
        },
        forall|s: int|
            0 <= s < 64 && s != m.origin() && s != m.target() && s != also_emptied(st, m) && s
                != second_hop(st, m).1 ==> #[trigger] board_after(st, m)[s] == st.board[s],
        on_board(also_emptied(st, m)),
        on_board(second_hop(st, m).1),
        also_emptied(st, m) != m.target(),
        piece::is_piece(landing_piece(st, m)),
        piece::color_of(landing_piece(st, m)) == st.side,
        landing_piece(st, m) == piece::make(piece::KING, st.side) <==> m.origin() == king_square(
            st.board@,
            st.side,
        ),
        landing_piece(st, m) == piece::make(piece::PAWN, st.side) ==> rank_ix(m.target())
            != last_rank(st.side),
        m.kind() is KingSideCastle || m.kind() is QueenSideCastle ==> m.origin() == king_home(
            st.side,
        ) && second_hop(st, m).1 != m.origin() && second_hop(st, m).1 != m.target()
            && also_emptied(st, m) != m.origin() && rank_ix(also_emptied(st, m)) == rank_ix(
            m.target(),
        ) && (file_ix(also_emptied(st, m)) == 0 || file_ix(also_emptied(st, m)) == 7),
{
    lemma_orderly_playable(st);
    lemma_pseudo_legal_shape(st, m);
    lemma_pseudo_legal_probe(st, m);
    lemma_pieces_differ(st.side);
    let k = king_square(st.board@, st.side);
    let w = choose|sq: int| 0 <= sq < 64 && st.board@[sq] == piece::make(piece::KING, st.side);
    lemma_sole_king_square(st.board@, st.side, w);
    piece::lemma_index_of(piece::make(piece::QUEEN, st.side));
    if castle_move(st, m) {
        assert(m.origin() == king_home(st.side));
    }
}

/// No legal move in an orderly state takes a king, and none lands on,
/// empties or crosses the square of the enemy king.
proof fn lemma_enemy_king_stays(st: StateInfo, m: Move)
    requires
        orderly(st),
        pseudo_legal(st, m),
    ensures
        ({
            let ke = king_square(st.board@, enemy_of(st));
            &&& 0 <= ke < 64
            &&& st.board[ke] == piece::make(piece::KING, enemy_of(st))
            &&& ke != m.origin()
            &&& ke != m.target()
            &&& ke != also_emptied(st, m)
            &&& ke != second_hop(st, m).1
            &&& board_after(st, m)[ke] == st.board[ke]
        }),
{
    lemma_orderly_playable(st);
    lemma_board_after(st, m);
    lemma_pseudo_legal_shape(st, m);
    lemma_pieces_differ(st.side);
    lemma_pieces_differ(enemy_of(st));
    let enemy = enemy_of(st);
    let w = choose|sq: int| 0 <= sq < 64 && st.board@[sq] == piece::make(piece::KING, enemy);
    lemma_sole_king_square(st.board@, enemy, w);
    let ke = king_square(st.board@, enemy);
    if ke == m.target() {
        lemma_capture_is_attack(st, m);
    }
}

/// After a legal move in an orderly state each side has its one king: the
/// king of the mover where the move has put it, the other where it was.
pub proof fn lemma_kings_after(st: StateInfo, m: Move)
    requires
        orderly(st),
        pseudo_legal(st, m),
    ensures
        sole_king(board_after(st, m), st.side),
        sole_king(board_after(st, m), enemy_of(st)),
        king_square(board_after(st, m), enemy_of(st)) == king_square(st.board@, enemy_of(st)),
        king_square(board_after(st, m), st.side) == if m.origin() == king_square(
            st.board@,
            st.side,
        ) {
            m.target()
        } else {
            king_square(st.board@, st.side)
        },
{
    lemma_orderly_playable(st);
    lemma_board_after(st, m);
    lemma_enemy_king_stays(st, m);
    lemma_pseudo_legal_shape(st, m);
    lemma_pieces_differ(st.side);
    lemma_pieces_differ(enemy_of(st));
    let after = board_after(st, m);
    let side = st.side;
    let enemy = enemy_of(st);
    let ke = king_square(st.board@, enemy);
    let w = choose|sq: int| 0 <= sq < 64 && st.board@[sq] == piece::make(piece::KING, side);
    lemma_sole_king_square(st.board@, side, w);
    let ks = king_square(st.board@, side);
    let ks2 = if m.origin() == ks {
        m.target()
    } else {
        ks
    };
    assert(after[ks2] == piece::make(piece::KING, side));
    assert(after[ke] == piece::make(piece::KING, enemy));
    assert forall|a: int, b: int|
        0 <= a < 64 && 0 <= b < 64 && #[trigger] after[a] == piece::make(piece::KING, side)
            && #[trigger] after[b] == piece::make(piece::KING, side) implies a == b by {
        assert(a == ks2) by {
            if a != ks2 {
                assert(after[a] == st.board[a]);
            }
        }
        assert(b == ks2) by {
            if b != ks2 {
                assert(after[b] == st.board[b]);
            }
        }
    }
    assert forall|a: int, b: int|
        0 <= a < 64 && 0 <= b < 64 && #[trigger] after[a] == piece::make(piece::KING, enemy)
            && #[trigger] after[b] == piece::make(piece::KING, enemy) implies a == b by {
        assert(a == ke) by {
            if a != ke {
                assert(after[a] == st.board[a]);
            }
        }
        assert(b == ke) by {
            if b != ke {
                assert(after[b] == st.board[b]);
            }
        }
    }
    lemma_sole_king_square(after, side, ks2);
    lemma_sole_king_square(after, enemy, ke);
}

/// After a legal move in an orderly state no pawn stands on its last rank.
pub proof fn lemma_pawns_after(st: StateInfo, m: Move)
    requires
        orderly(st),
        pseudo_legal(st, m),
    ensures
        pawns_in_play(board_after(st, m), color::WHITE),
        pawns_in_play(board_after(st, m), color::BLACK),
{
    lemma_board_after(st, m);
    lemma_pieces_differ(st.side);
    lemma_pieces_differ(enemy_of(st));
    let after = board_after(st, m);
    assert forall|sq: int|
        0 <= sq < 64 && #[trigger] after[sq] == piece::make(
            piece::PAWN,
            color::WHITE,
        ) implies rank_ix(sq) != last_rank(color::WHITE) by {
        if sq != m.target() && sq != second_hop(st, m).1 {
            assert(after[sq] == st.board[sq]);
        }
    }
    assert forall|sq: int|
        0 <= sq < 64 && #[trigger] after[sq] == piece::make(
            piece::PAWN,
            color::BLACK,
        ) implies rank_ix(sq) != last_rank(color::BLACK) by {
        if sq != m.target() && sq != second_hop(st, m).1 {
            assert(after[sq] == st.board[sq]);
        }
    }
}

/// After a pawn's double step in an orderly state the en-passant target
/// tells of that step; after any other move there is no target.
pub proof fn lemma_ep_after(st: StateInfo, m: Move, next: StateInfo)
    requires
        orderly(st),
        pseudo_legal(st, m),
        follows(st, m, next),
    ensures
        ep_sound(next),
        ep_settled(next),
{
    lemma_orderly_playable(st);
    lemma_board_after(st, m);
    lemma_kings_after(st, m);
    lemma_pseudo_legal_shape(st, m);
    lemma_pieces_differ(st.side);
    lemma_pieces_differ(enemy_of(st));
    if m.kind() == MoveType::PawnTwoUp {
        assert(pawn_move(st, m) && pawn_double_push(st, m));
        let e = spec_behind(m.target(), st.side);
        let after = board_after(st, m);
        assert(after[e] == st.board[e]);
        assert(spec_behind(e, next.side) == m.target());
        assert(spec_ahead(e, next.side) == m.origin());
        assert(board_before_double_step(next, e) =~= st.board@);
    }
}

/// A ray does not pass over a corner of the board on its way to a square
/// on the rank of that corner.
proof fn lemma_corner_not_crossed(occ: Set<int>, a: int, df: int, dr: int, x: int, z: int)
    requires
        on_board(a),
        is_direction(df, dr),
        screens(occ, a, df, dr, x, z),
    ensures
        !(rank_ix(x) == rank_ix(z) && (file_ix(x) == 0 || file_ix(x) == 7)),
{
    let (j, n) = choose|j: int, n: int|
        1 <= j < n && #[trigger] slides_in(occ, a, df, dr, j, x) && in_range(
            coord(file_ix(a), df, n),
            coord(rank_ix(a), dr, n),
        ) && z == #[trigger] ray_square(a, df, dr, n);
    lemma_ray_step(a, df, dr, j);
    lemma_ray_step(a, df, dr, n);
}

/// A rook that leaves its corner to castle opens no attack on a square of
/// the rank of that corner.
proof fn lemma_corner_opens_nothing(
    b1: Seq<piece::Piece>,
    b2: Seq<piece::Piece>,
    x: int,
    t: int,
    a: int,
    z: int,
)
    requires
        moved_to(b1, b2, x, t),
        a != x,
        a != t,
        on_board(a),
        attacks(b2, a, z),
        rank_ix(x) == rank_ix(z),
        file_ix(x) == 0 || file_ix(x) == 7,
    ensures
        attacks(b1, a, z),
{
    if !attacks(b1, a, z) {
        lemma_attack_opened(b1, b2, x, t, a, z);
        let occ = occupied(b1);
        if screens(occ, a, 0, 1, x, z) {
            lemma_corner_not_crossed(occ, a, 0, 1, x, z);
        }
        if screens(occ, a, 0, -1, x, z) {
            lemma_corner_not_crossed(occ, a, 0, -1, x, z);
        }
        if screens(occ, a, 1, 0, x, z) {
            lemma_corner_not_crossed(occ, a, 1, 0, x, z);
        }
        if screens(occ, a, -1, 0, x, z) {
            lemma_corner_not_crossed(occ, a, -1, 0, x, z);
        }
        if screens(occ, a, 1, 1, x, z) {
            lemma_corner_not_crossed(occ, a, 1, 1, x, z);
        }
        if screens(occ, a, -1, 1, x, z) {
            lemma_corner_not_crossed(occ, a, -1, 1, x, z);
        }
        if screens(occ, a, 1, -1, x, z) {
            lemma_corner_not_crossed(occ, a, 1, -1, x, z);
        }
        if screens(occ, a, -1, -1, x, z) {
            lemma_corner_not_crossed(occ, a, -1, -1, x, z);
        }
    }
}

/// A legal move in an orderly state leaves the king of the mover out of
/// check on the board as the move leaves it, with a castled rook in its
/// new place and a promoted pawn replaced.
pub proof fn lemma_king_safe_after(st: StateInfo, m: Move)
    requires
        orderly(st),
        legal(st, m),
    ensures
        !attacked_by(
            board_after(st, m),
            king_square(board_after(st, m), st.side),
            enemy_of(st),
        ),
{
    lemma_orderly_playable(st);
    lemma_board_after(st, m);
    lemma_kings_after(st, m);
    lemma_king_after(st, m);
    lemma_pseudo_legal_shape(st, m);
    lemma_pseudo_legal_probe(st, m);
    lemma_pieces_differ(st.side);
    lemma_pieces_differ(enemy_of(st));
    let side = st.side;
    let enemy = enemy_of(st);
    let after = board_after(st, m);
    let probe = probe_board(st, m, is_en_passant(m));
    let k2 = king_square(after, side);
    assert(safe_after(st, m));
    assert(k2 == king_square(probe, side));
    assert(!attacked_by(probe, k2, enemy));
    if attacked_by(after, k2, enemy) {
        let a = choose|a: int| #[trigger] attacker(after, a, k2, enemy);
        assert(a != m.origin() && a != m.target() && a != also_emptied(st, m) && a != second_hop(
            st,
            m,
        ).1);
        assert(after[a] == st.board[a]);
        assert(probe[a] == st.board[a]);
        if m.kind() is KingSideCastle || m.kind() is QueenSideCastle {
            let rf = second_hop(st, m).0;
            let rt = second_hop(st, m).1;
            assert(after =~= relocated(probe, rf, rt));
            assert(moved_to(probe, after, rf, rt));
            lemma_corner_opens_nothing(probe, after, rf, rt, a, k2);
        } else {
            assert(occupied(after) =~= occupied(probe)) by {
                assert forall|s: int| occupied(after).contains(s) == occupied(probe).contains(s) by {
                    if 0 <= s < 64 && s != m.origin() && s != m.target() && s != also_emptied(
                        st,
                        m,
                    ) {
                        assert(after[s] == st.board[s]);
                    }
                }
            }
        }
        assert(attacks(probe, a, k2));
        assert(attacker(probe, a, k2, enemy));
    }
}

/// A right that is still held when others have been given up was held
/// before and is none of those given up.
proof fn lemma_right_survives(c: u8, m: u8, r: u8)
    by (bit_vector)
    requires
        r == 2 || r == 4 || r == 8 || r == 16,
        m == 0 || m == 2 || m == 4 || m == 8 || m == 16,
        (c & !m) & r != 0,
    ensures
        c & r != 0,
        m != r,
{
}

/// After a legal move in an orderly state every castling right that is
/// left has its king and its rook in place.
pub proof fn lemma_rights_after(st: StateInfo, m: Move)
    requires
        orderly(st),
        pseudo_legal(st, m),
    ensures
        rights_backed(board_after(st, m), rights_after(st, m), color::WHITE),
        rights_backed(board_after(st, m), rights_after(st, m), color::BLACK),
{
    lemma_right_backed(st, m, color::WHITE, true);
    lemma_right_backed(st, m, color::WHITE, false);
    lemma_right_backed(st, m, color::BLACK, true);
    lemma_right_backed(st, m, color::BLACK, false);
}

/// The right of `c` to castle on one side.
pub open spec fn right_of(c: color::Color, king_side: bool) -> u8 {
    if king_side {
        king_side_right(c)
    } else {
        queen_side_right(c)
    }
}

/// One right that is left after a legal move has its king and rook in place.
proof fn lemma_right_backed(st: StateInfo, m: Move, c: color::Color, king_side: bool)
    requires
        orderly(st),
        pseudo_legal(st, m),
        c == color::WHITE || c == color::BLACK,
    ensures
        rights_after(st, m) & right_of(c, king_side) != 0 ==> board_after(st, m)[king_home(c)]
            == piece::make(piece::KING, c) && board_after(st, m)[castle_rook(c, king_side).0]
            == piece::make(piece::ROOK, c),
{
    let r = right_of(c, king_side);
    if rights_after(st, m) & r != 0 {
        lemma_orderly_playable(st);
        lemma_board_after(st, m);
        lemma_enemy_king_stays(st, m);
        lemma_pseudo_legal_shape(st, m);
        lemma_pieces_differ(st.side);
        lemma_pieces_differ(enemy_of(st));
        let side = st.side;
        let after = board_after(st, m);
        let home = king_home(c);
        let corner = castle_rook(c, king_side).0;
        let left = rights_after_leaving(st, m);
        let taken = right_taken(st, m);
        let x = m.origin();
        let t = m.target();
        let mover = st.board[x];
        piece::lemma_piece_flags(mover);
        piece::lemma_piece_flags(st.board[t]);
        crate::pos::lemma_rights(st.castling);
        lemma_right_survives(left, taken, r);
        let ks = king_side_right(side);
        let qs = king_side_right(side);
        if mover & piece::KING != 0 {
            lemma_right_survives(st.castling & !king_side_right(side), queen_side_right(side), r);
            lemma_right_survives(st.castling, king_side_right(side), r);
        } else if mover & piece::ROOK != 0 {
            if file_ix(x) == 0 {
                lemma_right_survives(st.castling, queen_side_right(side), r);
            } else if file_ix(x) == 7 {
                lemma_right_survives(st.castling, king_side_right(side), r);
            }
        }
        assert(st.castling & r != 0);
        assert(st.board[home] == piece::make(piece::KING, c));
        assert(st.board[corner] == piece::make(piece::ROOK, c));
        let w = choose|sq: int| 0 <= sq < 64 && st.board@[sq] == piece::make(piece::KING, side);
        lemma_sole_king_square(st.board@, side, w);
        if c == side {
            assert(x != home);
            assert(x != corner);
            assert(after[home] == st.board[home]);
            assert(after[corner] == st.board[corner]);
        } else {
            lemma_sole_king_square(st.board@, c, home);
            assert(after[home] == st.board[home]);
            assert(t != corner);
            assert(after[corner] == st.board[corner]);
        }
    }
}

/// A legal move leads from an orderly state to an orderly state.
pub proof fn lemma_orderly_kept(st: StateInfo, m: Move, next: StateInfo)
    requires
        orderly(st),
        legal(st, m),
        follows(st, m, next),
    ensures
        orderly(next),
{
    lemma_pieces_differ(st.side);
    lemma_kings_after(st, m);
    lemma_king_safe_after(st, m);
    lemma_pawns_after(st, m);
    lemma_rights_after(st, m);
    lemma_ep_after(st, m, next);
    color::lemma_color_flags(st.side);
}

/// In an orderly state the legal moves are the moves that the rules of
/// movement allow and that leave the king of the mover out of check once
/// they are applied.
pub proof fn lemma_legal_iff_king_safe(st: StateInfo, m: Move)
    requires
        orderly(st),
        pseudo_legal(st, m),
    ensures
        legal(st, m) <==> !attacked_by(
            board_after(st, m),
            king_square(board_after(st, m), st.side),
            enemy_of(st),
        ),
{
    lemma_orderly_playable(st);
    let side = st.side;
    let enemy = enemy_of(st);
    let after = board_after(st, m);
    let k2 = king_square(after, side);
    if legal(st, m) {
        lemma_king_safe_after(st, m);
    } else if !attacked_by(after, k2, enemy) {
        lemma_board_after(st, m);
        lemma_kings_after(st, m);
        lemma_king_after(st, m);
        lemma_pseudo_legal_shape(st, m);
        lemma_pseudo_legal_probe(st, m);
        lemma_pieces_differ(side);
        lemma_pieces_differ(enemy);
        crate::moves::legal::lemma_castle_legality(st, m);
        let probe = probe_board(st, m, is_en_passant(m));
        assert(!(m.kind() is KingSideCastle) && !(m.kind() is QueenSideCastle));
        assert(attacked_by(probe, k2, enemy));
        let a = choose|a: int| #[trigger] attacker(probe, a, k2, enemy);
        assert(a != m.origin() && a != m.target() && a != also_emptied(st, m));
        assert(probe[a] == st.board[a]);
        assert(after[a] == st.board[a]);
        assert(occupied(after) =~= occupied(probe)) by {
            assert forall|s: int| occupied(after).contains(s) == occupied(probe).contains(s) by {
                if 0 <= s < 64 && s != m.origin() && s != m.target() && s != also_emptied(st, m) {
                    assert(after[s] == st.board[s]);
                }
            }
        }
        assert(attacker(after, a, k2, enemy));
    }
}

/// In an orderly state every legal move can be applied, as long as the
/// counters have room for one more ply.
pub proof fn lemma_legal_applicable(st: StateInfo, m: Move)
    requires
        orderly(st),
        legal(st, m),
        st.rule50 < u8::MAX,
        st.ply < usize::MAX,
    ensures
        applicable(st, m),
{
    lemma_orderly_playable(st);
    lemma_pseudo_legal_applicable(st, m);
}

/// A game stays in order: when a legal move is applied to a position in
/// an orderly state, the position that results is in an orderly state, and
/// its key is the key of its content.
pub proof fn lemma_game_step(pre: Position, m: Move, zb: ZobristValues, post: Position)
    requires
        orderly(pre.state()),
        legal(pre.state(), m),
        made(pre, m, zb, post),
    ensures
        orderly(post.state()),
        post.wf(zb),
{
    lemma_orderly_kept(pre.state(), m, post.state());
}

} // verus!
