//! Legal moves: the moves that the rules of movement allow and that leave
//! the own king out of check.

use vstd::prelude::*;
use crate::{AttackMasks, color, piece, pos, ZobristValues};
use crate::attack::{attacked_by, lemma_piece_is, may_be_pinned};
use crate::bits::{has_sq, lemma_empty, lemma_sq_ops};
use crate::geometry::on_board;
use crate::moves::{Move, MoveType};
use crate::moves::generate::{
    bishop_or_queen_moves, king_moves, knight_moves, pawn_moves, rook_or_queen_moves,
};
use crate::moves::rules::{
    added, castle_move, castles_fit, diagonal_move, enemy_of, grown, king_move, knight_move,
    lemma_concat_contains, lemma_grown_twice, lemma_push_contains, line_move,
    may_castle_king_side, may_castle_queen_side, own_king_side, own_queen_side, pawn_en_passant,
    pawn_move, pawns_can_advance, promotion_rank, pseudo_legal,
};
use crate::piece::bb;
use crate::piece::bb::BitboardUtil;
use crate::pos::{consistent, spec_behind, StateInfo};
use crate::pos::apply::{applicable, castle_rook, lemma_probe_restores, probe_board, probeable};
use crate::pos::query::{has_piece, in_check, is_first, king_square};
use crate::rays::lemma_slide_moves;

verus! {

/// The en-passant target, if there is one, is an empty square behind which
/// stands a pawn of the side that is not to move.
pub open spec fn ep_sound(st: StateInfo) -> bool {
    st.ep_square matches Some(e) ==> {
        &&& e < 64
        &&& st.board[e as int] == piece::NONE
        &&& on_board(spec_behind(e as int, st.side))
        &&& st.board[spec_behind(e as int, st.side)] == piece::make(piece::PAWN, enemy_of(st))
    }
}

/// What move generation asks of a state: a side to move that has a king,
/// castling rights that fit the place of the king, pawns that have a square
/// ahead of them, and an en-passant target that makes sense.
pub open spec fn generable(st: StateInfo) -> bool {
    &&& (st.side == color::WHITE || st.side == color::BLACK)
    &&& has_piece(st.board@, piece::make(piece::KING, st.side))
    &&& castles_fit(st)
    &&& pawns_can_advance(st)
    &&& ep_sound(st)
}

/// Whether the move is a capture en passant.
pub open spec fn is_en_passant(m: Move) -> bool {
    m.kind() == MoveType::EnPassant
}

/// The move leaves the own king out of check: on the board with the move
/// made, no enemy piece attacks the king of the mover.
pub open spec fn safe_after(st: StateInfo, m: Move) -> bool {
    let b = probe_board(st, m, is_en_passant(m));
    !attacked_by(b, king_square(b, st.side), enemy_of(st))
}

/// The test that a move has to pass to be generated as legal. In check,
/// and for a piece that may be pinned, the move is made on the board and
/// the king looked at. A move of the king out of check only needs a target
/// that is not attacked. Any other move passes.
pub open spec fn passes(st: StateInfo, m: Move) -> bool {
    if in_check(st) {
        safe_after(st, m)
    } else if st.board[m.origin()] & piece::KING != 0 {
        !attacked_by(st.board@, m.target(), enemy_of(st))
    } else if may_be_pinned(
        st.board@,
        m.origin(),
        king_square(st.board@, st.side),
        enemy_of(st),
    ) {
        safe_after(st, m)
    } else {
        true
    }
}

/// A move that the rules of movement allow and that passes the test.
pub open spec fn legal(st: StateInfo, m: Move) -> bool {
    pseudo_legal(st, m) && passes(st, m)
}

/// A move that the rules allow goes from one square of the board to
/// another, moves a piece of the side to move, and does not take its king.
pub proof fn lemma_pseudo_legal_shape(st: StateInfo, m: Move)
    requires
        consistent(st),
        generable(st),
        pseudo_legal(st, m),
    ensures
        m.wf(),
        m.reversible(),
        m.origin() != m.target(),
        piece::is_piece(st.board[m.origin()]),
        piece::color_of(st.board[m.origin()]) == st.side,
        st.board[m.target()] != piece::make(piece::KING, st.side),
        is_en_passant(m) <==> pawn_move(st, m) && pawn_en_passant(st, m),
        st.board[m.origin()] == piece::make(piece::KING, st.side) <==> m.origin() == king_square(
            st.board@,
            st.side,
        ),
{
    let k = king_square(st.board@, st.side);
    let p = st.board[m.origin()];
    let king = piece::make(piece::KING, st.side);
    let w = choose|sq: int| 0 <= sq < 64 && st.board@[sq] == king;
    lemma_first_exists(st.board@, king, w);
    assert(is_first(st.board@, king, k));
    lemma_piece_is(p, piece::KING, st.side);
    lemma_piece_is(p, piece::PAWN, st.side);
    lemma_piece_is(p, piece::KNIGHT, st.side);
    lemma_piece_is(p, piece::ROOK, st.side);
    lemma_piece_is(p, piece::BISHOP, st.side);
    lemma_piece_is(p, piece::QUEEN, st.side);
    lemma_piece_is(st.board[m.target()], piece::KING, st.side);
    color::lemma_color_flags(st.side);
    if line_move(st, m) {
        lemma_slide_reach(st, m.origin(), m.target());
    }
    if diagonal_move(st, m) {
        lemma_slide_reach(st, m.origin(), m.target());
    }
}

/// A square that a rook or a bishop reaches is another square of the board.
proof fn lemma_slide_reach(st: StateInfo, a: int, b: int)
    requires
        crate::geometry::rook_reach(crate::attack::occupied(st.board@), a, b)
            || crate::geometry::bishop_reach(crate::attack::occupied(st.board@), a, b),
    ensures
        on_board(b),
        a != b,
{
    let occ = crate::attack::occupied(st.board@);
    if crate::geometry::slides_to(occ, a, 0, 1, b) {
        lemma_slide_moves(occ, a, 0, 1, b);
    } else if crate::geometry::slides_to(occ, a, 0, -1, b) {
        lemma_slide_moves(occ, a, 0, -1, b);
    } else if crate::geometry::slides_to(occ, a, 1, 0, b) {
        lemma_slide_moves(occ, a, 1, 0, b);
    } else if crate::geometry::slides_to(occ, a, -1, 0, b) {
        lemma_slide_moves(occ, a, -1, 0, b);
    } else if crate::geometry::slides_to(occ, a, 1, 1, b) {
        lemma_slide_moves(occ, a, 1, 1, b);
    } else if crate::geometry::slides_to(occ, a, -1, 1, b) {
        lemma_slide_moves(occ, a, -1, 1, b);
    } else if crate::geometry::slides_to(occ, a, 1, -1, b) {
        lemma_slide_moves(occ, a, 1, -1, b);
    } else {
        lemma_slide_moves(occ, a, -1, -1, b);
    }
}

/// A board that holds a piece has a lowest square that holds it.
pub proof fn lemma_first_exists(board: Seq<piece::Piece>, p: piece::Piece, w: int)
    requires
        0 <= w < 64,
        board[w] == p,
    ensures
        exists|sq: int| is_first(board, p, sq),
    decreases w,
{
    if forall|j: int| 0 <= j < w ==> board[j] != p {
        assert(is_first(board, p, w));
    } else {
        let j = choose|j: int| 0 <= j < w && board[j] == p;
        lemma_first_exists(board, p, j);
    }
}

/// A move that the rules allow can be probed, and the mover still has its
/// king once the move is made.
pub proof fn lemma_pseudo_legal_probe(st: StateInfo, m: Move)
    requires
        consistent(st),
        generable(st),
        pseudo_legal(st, m),
    ensures
        probeable(st, m, is_en_passant(m)),
        has_piece(probe_board(st, m, is_en_passant(m)), piece::make(piece::KING, st.side)),
{
    lemma_pseudo_legal_shape(st, m);
    let k = king_square(st.board@, st.side);
    let king = piece::make(piece::KING, st.side);
    let b = probe_board(st, m, is_en_passant(m));
    let pawn = piece::make(piece::PAWN, enemy_of(st));
    color::lemma_color_flags(st.side);
    lemma_piece_is(st.board[m.origin()], piece::PAWN, enemy_of(st));
    lemma_piece_is(king, piece::PAWN, enemy_of(st));
    lemma_piece_is(king, piece::KING, st.side);
    let w = choose|sq: int| 0 <= sq < 64 && st.board@[sq] == king;
    lemma_first_exists(st.board@, king, w);
    assert(is_first(st.board@, king, k));
    if m.origin() == k {
        assert(b[m.target()] == king);
    } else {
        assert(b[k] == king);
    }
}

/// Whether `m` leaves the own king out of check, found by making the move
/// on the board, looking at the king, and taking the move back.
fn is_legal(m: Move, pos: &mut pos::Position, masks: &AttackMasks, zb: &ZobristValues) -> (r: bool)
    requires
        masks.wf(),
        consistent(old(pos).state()),
        generable(old(pos).state()),
        pseudo_legal(old(pos).state(), m),
    ensures
        final(pos).state() == old(pos).state(),
        final(pos).past() == old(pos).past(),
        r == safe_after(old(pos).state(), m),
{
    let ghost st = pos.state();
    proof {
        lemma_pseudo_legal_shape(st, m);
        lemma_pseudo_legal_probe(st, m);
    }
    let ep = match m.type_of() {
        MoveType::EnPassant => true,
        _ => false,
    };
    let cap = pos.fast_make(m, ep, zb);
    let ghost mid = pos.state();
    let is_legal = !pos.is_check(masks);
    pos.fast_unmake(m, cap, ep, zb);
    proof {
        lemma_probe_restores(*zb, st, mid, pos.state(), m, ep);
    }
    is_legal
}

/// The legal moves of the side to move: every move that the rules of
/// movement allow is generated and then put to the test. The position is
/// used for probing and is left as it was found.
pub fn gen_legal(pos: &mut pos::Position, masks: &AttackMasks, zb: &ZobristValues) -> (legal_moves:
    Vec<Move>)
    requires
        masks.wf(),
        consistent(old(pos).state()),
        generable(old(pos).state()),
    ensures
        final(pos).state() == old(pos).state(),
        final(pos).past() == old(pos).past(),
        legal_moves@.no_duplicates(),
        forall|m: Move| #[trigger] legal_moves@.contains(m) <==> legal(old(pos).state(), m),
{
    let ghost st = pos.state();
    let mut moves: Vec<Move> = Vec::with_capacity(238);
    let side = pos.side_to_move();
    let ghost e0 = moves@;
    pawn_moves(pos, &mut moves, masks);
    let ghost e1 = moves@;
    knight_moves(pos, &mut moves, masks);
    let ghost e2 = moves@;
    rook_or_queen_moves(pos, &mut moves, masks);
    let ghost e3 = moves@;
    bishop_or_queen_moves(pos, &mut moves, masks);
    let ghost e4 = moves@;
    king_moves(pos, &mut moves, masks);
    let ghost all = moves@;
    proof {
        lemma_all_generated(st, e0, e1, e2, e3, e4, all);
    }
    let checked = pos.is_check(masks);
    let mut legal_moves: Vec<Move> = Vec::new();
    let mut i: usize = 0;
    while i < moves.len()
        invariant
            i <= moves@.len(),
            moves@ == all,
            masks.wf(),
            pos.state() == st,
            pos.past() == old(pos).past(),
            consistent(st),
            generable(st),
            side == st.side,
            checked == in_check(st),
            all.no_duplicates(),
            forall|m: Move| #[trigger] all.contains(m) <==> pseudo_legal(st, m),
            legal_moves@.no_duplicates(),
            forall|m: Move|
                #[trigger] legal_moves@.contains(m) <==> (exists|j: int|
                    0 <= j < i && all[j] == m) && passes(st, m),
        decreases moves@.len() - i,
    {
        let m = moves[i];
        proof {
            assert(all.contains(m));
            lemma_pseudo_legal_shape(st, m);
            color::lemma_color_flags(side);
        }
        let keep = if checked {
            is_legal(m, pos, masks, zb)
        } else if pos.piece_on(m.from_sq()) & piece::KING != 0 {
            !bb::is_attacked(m.to_sq(), pos, color::other(side), masks)
        } else if bb::might_be_pinned(pos, m.from_sq()) {
            is_legal(m, pos, masks, zb)
        } else {
            true
        };
        assert(keep == passes(st, m));
        if keep {
            proof {
                lemma_push_contains(legal_moves@, m);
                assert(!legal_moves@.contains(m)) by {
                    if legal_moves@.contains(m) {
                        let j = choose|j: int| 0 <= j < i && all[j] == m;
                        assert(all[j] == all[i as int]);
                    }
                }
            }
            legal_moves.push(m);
        }
        proof {
            assert forall|x: Move|
                #[trigger] legal_moves@.contains(x) <==> (exists|j: int|
                    0 <= j < i + 1 && all[j] == x) && passes(st, x) by {
                if (exists|j: int| 0 <= j < i + 1 && all[j] == x) && passes(st, x) {
                    let j = choose|j: int| 0 <= j < i + 1 && all[j] == x;
                    if j < i {
                    } else {
                        assert(x == m);
                    }
                }
                if legal_moves@.contains(x) {
                    if x == m {
                        assert(all[i as int] == x);
                    } else {
                        let j = choose|j: int| 0 <= j < i && all[j] == x;
                        assert(0 <= j < i + 1 && all[j] == x);
                    }
                }
            }
        }
        i += 1;
    }
    proof {
        assert forall|m: Move| #[trigger] legal_moves@.contains(m) <==> legal(st, m) by {
            if legal(st, m) {
                assert(all.contains(m));
                let j = choose|j: int| 0 <= j < all.len() && all[j] == m;
                assert(0 <= j < i && all[j] == m);
            }
            if legal_moves@.contains(m) {
                let j = choose|j: int| 0 <= j < i && all[j] == m;
                assert(all.contains(all[j]));
            }
        }
    }
    legal_moves
}

/// The five generators together give every move that the rules allow, once.
proof fn lemma_all_generated(
    st: StateInfo,
    e0: Seq<Move>,
    e1: Seq<Move>,
    e2: Seq<Move>,
    e3: Seq<Move>,
    e4: Seq<Move>,
    e5: Seq<Move>,
)
    requires
        consistent(st),
        generable(st),
        e0.len() == 0,
        grown(e0, e1),
        grown(e1, e2),
        grown(e2, e3),
        grown(e3, e4),
        grown(e4, e5),
        added(e0, e1).no_duplicates(),
        added(e1, e2).no_duplicates(),
        added(e2, e3).no_duplicates(),
        added(e3, e4).no_duplicates(),
        added(e4, e5).no_duplicates(),
        forall|m: Move| #[trigger] added(e0, e1).contains(m) <==> pawn_move(st, m),
        forall|m: Move| #[trigger] added(e1, e2).contains(m) <==> knight_move(st, m),
        forall|m: Move| #[trigger] added(e2, e3).contains(m) <==> line_move(st, m),
        forall|m: Move| #[trigger] added(e3, e4).contains(m) <==> diagonal_move(st, m),
        forall|m: Move| #[trigger] added(e4, e5).contains(m) <==> king_move(st, m),
    ensures
        e5.no_duplicates(),
        forall|m: Move| #[trigger] e5.contains(m) <==> pseudo_legal(st, m),
{
    lemma_grown_twice(e0, e1, e2);
    lemma_concat_contains(added(e0, e1), added(e1, e2));
    assert forall|m: Move| !(added(e0, e1).contains(m) && added(e1, e2).contains(m)) by {
        if pseudo_legal(st, m) {
            lemma_exclusive(st, m);
        }
    }
    lemma_grown_twice(e0, e2, e3);
    lemma_concat_contains(added(e0, e2), added(e2, e3));
    assert forall|m: Move| !(added(e0, e2).contains(m) && added(e2, e3).contains(m)) by {
        if pseudo_legal(st, m) {
            lemma_exclusive(st, m);
        }
    }
    lemma_grown_twice(e0, e3, e4);
    lemma_concat_contains(added(e0, e3), added(e3, e4));
    assert forall|m: Move| !(added(e0, e3).contains(m) && added(e3, e4).contains(m)) by {
        if pseudo_legal(st, m) {
            lemma_exclusive(st, m);
        }
    }
    lemma_grown_twice(e0, e4, e5);
    lemma_concat_contains(added(e0, e4), added(e4, e5));
    assert forall|m: Move| !(added(e0, e4).contains(m) && added(e4, e5).contains(m)) by {
        if pseudo_legal(st, m) {
            lemma_exclusive(st, m);
        }
    }
    assert(added(e0, e5) =~= e5);
}

/// At most one of the five generators gives a move.
pub open spec fn exclusive(st: StateInfo, m: Move) -> bool {
    &&& pawn_move(st, m) ==> !knight_move(st, m) && !line_move(st, m) && !diagonal_move(st, m)
        && !king_move(st, m)
    &&& knight_move(st, m) ==> !line_move(st, m) && !diagonal_move(st, m) && !king_move(st, m)
    &&& line_move(st, m) ==> !diagonal_move(st, m) && !king_move(st, m)
    &&& diagonal_move(st, m) ==> !king_move(st, m)
}

/// A move belongs to one piece, and a queen's move to one kind of line.
proof fn lemma_exclusive(st: StateInfo, m: Move)
    requires
        consistent(st),
        generable(st),
        pseudo_legal(st, m),
    ensures
        exclusive(st, m),
{
    lemma_pseudo_legal_shape(st, m);
    let p = st.board[m.origin()];
    lemma_piece_is(p, piece::KING, st.side);
    lemma_piece_is(p, piece::PAWN, st.side);
    lemma_piece_is(p, piece::KNIGHT, st.side);
    lemma_piece_is(p, piece::ROOK, st.side);
    lemma_piece_is(p, piece::BISHOP, st.side);
    lemma_piece_is(p, piece::QUEEN, st.side);
    if line_move(st, m) && diagonal_move(st, m) {
        lemma_lines_apart(st, m.origin(), m.target());
    }
}

/// No square lies both on a rook's ray and on a bishop's ray from one square.
proof fn lemma_lines_apart(st: StateInfo, a: int, b: int)
    ensures
        crate::geometry::rook_reach(crate::attack::occupied(st.board@), a, b)
            ==> !crate::geometry::bishop_reach(crate::attack::occupied(st.board@), a, b),
{
    let occ = crate::attack::occupied(st.board@);
    if crate::geometry::rook_reach(occ, a, b) && crate::geometry::bishop_reach(occ, a, b) {
        lemma_rook_on_line(occ, a, b);
        lemma_bishop_on_line(occ, a, b);
    }
}

/// A square that a rook reaches shares its file or its rank.
pub proof fn lemma_rook_on_line(occ: Set<int>, a: int, b: int)
    requires
        crate::geometry::rook_reach(occ, a, b),
    ensures
        crate::geometry::rook_line(a, b),
{
    if crate::geometry::slides_to(occ, a, 0, 1, b) {
        lemma_slide_coords(occ, a, 0, 1, b);
    } else if crate::geometry::slides_to(occ, a, 0, -1, b) {
        lemma_slide_coords(occ, a, 0, -1, b);
    } else if crate::geometry::slides_to(occ, a, 1, 0, b) {
        lemma_slide_coords(occ, a, 1, 0, b);
    } else {
        lemma_slide_coords(occ, a, -1, 0, b);
    }
}

/// A square that a bishop reaches shares one of its diagonals.
pub proof fn lemma_bishop_on_line(occ: Set<int>, a: int, b: int)
    requires
        crate::geometry::bishop_reach(occ, a, b),
    ensures
        crate::geometry::bishop_line(a, b),
        !crate::geometry::same_file(a, b),
        !crate::geometry::same_rank(a, b),
{
    if crate::geometry::slides_to(occ, a, 1, 1, b) {
        lemma_slide_coords(occ, a, 1, 1, b);
    } else if crate::geometry::slides_to(occ, a, -1, 1, b) {
        lemma_slide_coords(occ, a, -1, 1, b);
    } else if crate::geometry::slides_to(occ, a, 1, -1, b) {
        lemma_slide_coords(occ, a, 1, -1, b);
    } else {
        lemma_slide_coords(occ, a, -1, -1, b);
    }
}

/// The coordinates of a square that a slider reaches.
pub proof fn lemma_slide_coords(occ: Set<int>, a: int, df: int, dr: int, b: int)
    requires
        on_board(a),
        crate::geometry::is_direction(df, dr),
        crate::geometry::slides_to(occ, a, df, dr, b),
    ensures
        on_board(b),
        a != b,
        exists|n: int|
            n >= 1 && crate::geometry::file_ix(b) == #[trigger] crate::geometry::coord(
                crate::geometry::file_ix(a),
                df,
                n,
            ) && crate::geometry::rank_ix(b) == crate::geometry::coord(
                crate::geometry::rank_ix(a),
                dr,
                n,
            ),
{
    let n = choose|n: int| crate::geometry::slides_in(occ, a, df, dr, n, b);
    crate::rays::lemma_ray_step(a, df, dr, n);
    assert(crate::geometry::file_ix(b) == crate::geometry::coord(
        crate::geometry::file_ix(a),
        df,
        n,
    ));
}

/// The square on which the king of `side` starts.
pub open spec fn king_home(side: color::Color) -> int {
    if side == color::WHITE {
        4
    } else {
        60
    }
}

/// A right that the side to move holds comes with its king on the square
/// where it started and with a rook of its own in the corner of that side.
pub open spec fn castles_sound(st: StateInfo) -> bool {
    let k = king_square(st.board@, st.side);
    let rook = piece::make(piece::ROOK, st.side);
    &&& st.castling & own_king_side(st) != 0 ==> k == king_home(st.side) && st.board[castle_rook(
        st.side,
        true,
    ).0] == rook
    &&& st.castling & own_queen_side(st) != 0 ==> k == king_home(st.side) && st.board[castle_rook(
        st.side,
        false,
    ).0] == rook
}

/// What it takes for the moves of a state to be generated and then applied:
/// what move generation asks, and castling rights that have their rooks.
pub open spec fn playable(st: StateInfo) -> bool {
    generable(st) && castles_sound(st)
}

/// A castle is legal exactly when the right is held, the squares between
/// king and rook are empty, the king is not in check, and the squares that
/// the king crosses and reaches are not attacked. Whoever takes one of
/// these away takes the castle out of the legal moves.
pub proof fn lemma_castle_legality(st: StateInfo, m: Move)
    requires
        consistent(st),
        generable(st),
    ensures
        m.kind() == MoveType::KingSideCastle ==> (legal(st, m) <==> m.reversible() && m.origin()
            == king_square(st.board@, st.side) && m.target() == m.origin() + 2
            && may_castle_king_side(st)),
        m.kind() == MoveType::QueenSideCastle ==> (legal(st, m) <==> m.reversible() && m.origin()
            == king_square(st.board@, st.side) && m.target() == m.origin() - 2
            && may_castle_queen_side(st)),
{
    let k = king_square(st.board@, st.side);
    let king = piece::make(piece::KING, st.side);
    let w = choose|sq: int| 0 <= sq < 64 && st.board@[sq] == king;
    lemma_first_exists(st.board@, king, w);
    assert(is_first(st.board@, king, k));
    piece::lemma_make(piece::KING, st.side);
    if castle_move(st, m) {
        assert(pseudo_legal(st, m));
        assert(st.board[m.origin()] & piece::KING != 0);
    }
}

/// Every move that the rules allow in a playable state can be applied to
/// it, as long as its counters have room for one more ply.
pub proof fn lemma_pseudo_legal_applicable(st: StateInfo, m: Move)
    requires
        consistent(st),
        playable(st),
        pseudo_legal(st, m),
        st.rule50 < u8::MAX,
        st.ply < usize::MAX,
    ensures
        applicable(st, m),
{
    lemma_pseudo_legal_shape(st, m);
    lemma_pseudo_legal_probe(st, m);
    let k = king_square(st.board@, st.side);
    piece::lemma_make(piece::QUEEN, st.side);
    piece::lemma_make(piece::ROOK, st.side);
    piece::lemma_make(piece::BISHOP, st.side);
    piece::lemma_make(piece::KNIGHT, st.side);
    piece::lemma_make(piece::KING, st.side);
    piece::lemma_index_of(piece::make(piece::QUEEN, st.side));
    piece::lemma_index_of(piece::make(piece::ROOK, st.side));
    piece::lemma_index_of(piece::make(piece::BISHOP, st.side));
    piece::lemma_index_of(piece::make(piece::KNIGHT, st.side));
}

/// Whether the moves of `pos` can be generated and applied: the side to
/// move is white or black and has a king, none of its pawns stands on the
/// last rank, the castling rights that it holds have king and rook in
/// place, and the en-passant target, if there is one, is an empty square
/// with an enemy pawn behind it.
pub fn is_playable(pos: &pos::Position) -> (r: bool)
    requires
        consistent(pos.state()),
    ensures
        r == playable(pos.state()),
{
    let ghost st = pos.state();
    let side = pos.side_to_move();
    if side != color::WHITE && side != color::BLACK {
        return false;
    }
    let enemy = color::other(side);
    proof {
        lemma_piece_is(0, piece::KING, side);
        lemma_piece_is(0, piece::ROOK, side);
        lemma_piece_is(0, piece::PAWN, side);
        lemma_piece_is(0, piece::PAWN, enemy);
        lemma_sq_ops();
        bb::lemma_mask_squares();
    }
    let kings = pos.piece_bb(piece::KING | side);
    proof {
        lemma_empty(kings);
    }
    if kings == bb::EMPTY {
        assert(!has_piece(st.board@, piece::make(piece::KING, side))) by {
            if has_piece(st.board@, piece::make(piece::KING, side)) {
                let w = choose|sq: int|
                    0 <= sq < 64 && st.board@[sq] == piece::make(piece::KING, side);
                assert(has_sq(kings, w));
            }
        }
        return false;
    }
    proof {
        let w = choose|sq: int| has_sq(kings, sq);
        assert(st.board@[w] == piece::make(piece::KING, side));
    }
    let king = pos.king_sq();
    let (home, k_right, q_right, k_corner, q_corner, last_rank): (
        usize,
        u8,
        u8,
        usize,
        usize,
        bb::Bitboard,
    ) = if side == color::WHITE {
        (4, pos::WK_CASTLE, pos::WQ_CASTLE, pos::WK_ROOK_SQ, pos::WQ_ROOK_SQ, bb::RANK_8_MASK)
    } else {
        (60, pos::BK_CASTLE, pos::BQ_CASTLE, pos::BK_ROOK_SQ, pos::BQ_ROOK_SQ, bb::RANK_1_MASK)
    };
    let rook = piece::ROOK | side;
    let rights = pos.castle_rights();
    if rights & k_right != 0 && (king != home || pos.piece_on(k_corner) != rook) {
        return false;
    }
    if rights & q_right != 0 && (king != home || pos.piece_on(q_corner) != rook) {
        return false;
    }
    let pawns = pos.piece_bb(piece::PAWN | side);
    let stuck = pawns & last_rank;
    proof {
        lemma_empty(stuck);
    }
    if stuck != bb::EMPTY {
        proof {
            let w = choose|sq: int| has_sq(stuck, sq);
            assert(has_sq(pawns, w) && has_sq(last_rank, w));
            assert(st.board[w] == piece::make(piece::PAWN, side));
        }
        return false;
    }
    proof {
        assert forall|sq: int|
            0 <= sq < 64 && #[trigger] st.board[sq] == piece::make(
                piece::PAWN,
                st.side,
            ) implies crate::geometry::rank_ix(sq) != promotion_rank(st) by {
            assert(has_sq(pawns, sq));
            assert(!has_sq(stuck, sq));
        }
    }
    match pos.ep_square() {
        Some(e) => {
            if e >= 64 || pos.piece_on(e) != piece::NONE {
                return false;
            }
            if side == color::WHITE {
                e >= 8 && pos.piece_on(e - 8) == piece::PAWN | enemy
            } else {
                e < 56 && pos.piece_on(e + 8) == piece::PAWN | enemy
            }
        },
        None => true,
    }
}

} // verus!
