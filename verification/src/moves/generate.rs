//! Generating the moves that the rules of movement allow.

use vstd::prelude::*;
use crate::{AttackMasks, color, piece, pos};
use crate::attack::{is_diagonal_slider, is_line_slider, occupied};
use crate::bits::{has_sq, lemma_empty, lemma_lowest, lemma_sq_ops, lowest, squares};
use crate::geometry::{on_board, rank_ix};
use crate::moves::{Move, MoveType};
use crate::moves::rules::{
    added, castles_fit, diagonal_move, grown, holds_enemy, king_move, king_step_move,
    knight_move, lands, lemma_concat_contains, lemma_grown_twice, lemma_push_contains,
    line_move, may_castle_king_side, may_castle_queen_side, pawn_capture, pawn_double_push,
    pawn_en_passant, pawn_move, pawn_push, pawns_can_advance, promotes_to, promotion_piece,
    promotion_rank,
};
use crate::piece::bb;
use crate::piece::bb::BitboardUtil;
use crate::pos::{consistent, spec_ahead};
use crate::pos::query::has_piece;

verus! {

/// Takes the lowest square out of a set that is not empty.
fn take_lowest(rest: &mut bb::Bitboard) -> (sq: pos::Square)
    requires
        *old(rest) != 0,
    ensures
        sq < 64,
        has_sq(*old(rest), sq as int),
        forall|t: int|
            #![trigger has_sq(*final(rest), t)]
            #![trigger has_sq(*old(rest), t)]
            has_sq(*final(rest), t) <==> has_sq(*old(rest), t) && t > sq,
        forall|t: int| 0 <= t < sq ==> !has_sq(*old(rest), t),
{
    proof {
        lemma_lowest(*rest);
    }
    rest.serialize_once()
}

/// The enemy pieces and the empty squares among `attacks`.
fn split_targets(pos: &pos::Position, attacks: bb::Bitboard) -> (r: (bb::Bitboard, bb::Bitboard))
    requires
        consistent(pos.state()),
        pos.state().side == color::WHITE || pos.state().side == color::BLACK,
    ensures
        forall|t: int|
            #[trigger] has_sq(r.0, t) <==> has_sq(attacks, t) && holds_enemy(pos.state(), t),
        forall|t: int|
            #[trigger] has_sq(r.1, t) <==> has_sq(attacks, t) && pos.state().board[t]
                == piece::NONE,
{
    let side = pos.side_to_move();
    let enemy = pos.color_bb(color::other(side));
    let empty = pos.empty_bb();
    proof {
        lemma_sq_ops();
        assert forall|t: int| #[trigger] has_sq(enemy, t) <==> on_board(t) && holds_enemy(pos.state(), t) by {
            if on_board(t) {
                piece::lemma_index_of(pos.state().board[t]);
            }
        }
    }
    (attacks & enemy, attacks & empty)
}

/// Adds the moves of a piece on `from` that attacks the squares of
/// `attacks`: a capture for every enemy piece among them and a normal move
/// for every empty square.
fn push_steps(pos: &pos::Position, moves: &mut Vec<Move>, from: pos::Square, attacks: bb::Bitboard)
    requires
        consistent(pos.state()),
        pos.state().side == color::WHITE || pos.state().side == color::BLACK,
        from < 64,
    ensures
        grown(old(moves)@, final(moves)@),
        added(old(moves)@, final(moves)@).no_duplicates(),
        forall|m: Move|
            #[trigger] added(old(moves)@, final(moves)@).contains(m) <==> m.origin() == from
                && has_sq(attacks, m.target()) && lands(pos.state(), m),
{
    let ghost st = pos.state();
    let (captures, quiets) = split_targets(pos, attacks);
    let mut rest = captures;
    let ghost mut done: int = 0;
    let ghost mut part: Seq<Move> = Seq::empty();
    assert(moves@ =~= old(moves)@ + part);
    while rest != bb::EMPTY
        invariant
            0 <= done <= 64,
            from < 64,
            st == pos.state(),
            forall|t: int|
                #![trigger has_sq(rest, t)]
                #![trigger has_sq(captures, t)]
                has_sq(rest, t) <==> has_sq(captures, t) && t >= done,
            moves@ == old(moves)@ + part,
            part.no_duplicates(),
            forall|m: Move|
                #[trigger] part.contains(m) <==> m.origin() == from && has_sq(captures, m.target())
                    && m.target() < done && m.kind() == MoveType::Capture(st.board[m.target()])
                    && m.reversible(),
        decreases 64 - done,
    {
        let to = take_lowest(&mut rest);
        let cap = pos.piece_on(to);
        let mov = Move::new(from, to, MoveType::Capture(cap));
        proof {
            lemma_push_contains(part, mov);
            assert(moves@.push(mov) =~= old(moves)@ + part.push(mov));
            assert forall|m: Move|
                #[trigger] part.push(mov).contains(m) <==> m.origin() == from && has_sq(
                    captures,
                    m.target(),
                ) && m.target() < to + 1 && m.kind() == MoveType::Capture(st.board[m.target()])
                    && m.reversible() by {
                if m.origin() == from && m.target() == to && m.kind() == MoveType::Capture(
                    st.board[m.target()],
                ) && m.reversible() {
                    Move::lemma_same(m, mov);
                }
            }
            part = part.push(mov);
            done = to + 1;
        }
        moves.push(mov);
    }
    let ghost caps = part;
    let mut rest = quiets;
    proof {
        done = 0;
    }
    while rest != bb::EMPTY
        invariant
            0 <= done <= 64,
            from < 64,
            st == pos.state(),
            forall|t: int|
                #![trigger has_sq(rest, t)]
                #![trigger has_sq(quiets, t)]
                has_sq(rest, t) <==> has_sq(quiets, t) && t >= done,
            moves@ == old(moves)@ + part,
            part.no_duplicates(),
            forall|m: Move|
                #[trigger] part.contains(m) <==> caps.contains(m) || (m.origin() == from && has_sq(
                    quiets,
                    m.target(),
                ) && m.target() < done && m.kind() == MoveType::Normal && m.reversible()),
            forall|m: Move|
                #[trigger] caps.contains(m) ==> m.kind() == MoveType::Capture(st.board[m.target()]),
        decreases 64 - done,
    {
        let to = take_lowest(&mut rest);
        let mov = Move::new(from, to, MoveType::Normal);
        proof {
            lemma_push_contains(part, mov);
            assert(moves@.push(mov) =~= old(moves)@ + part.push(mov));
            assert forall|m: Move|
                #[trigger] part.push(mov).contains(m) <==> caps.contains(m) || (m.origin() == from
                    && has_sq(quiets, m.target()) && m.target() < to + 1 && m.kind()
                    == MoveType::Normal && m.reversible()) by {
                if m.origin() == from && m.target() == to && m.kind() == MoveType::Normal
                    && m.reversible() {
                    Move::lemma_same(m, mov);
                }
            }
            assert(!part.contains(mov)) by {
                if caps.contains(mov) {
                    assert(mov.kind() == MoveType::Capture(st.board[mov.target()]));
                }
            }
            part = part.push(mov);
            done = to + 1;
        }
        moves.push(mov);
    }
    proof {
        lemma_empty(rest);
        assert(added(old(moves)@, moves@) =~= part);
        assert(moves@.subrange(0, old(moves)@.len() as int) =~= old(moves)@);
        assert forall|m: Move|
            #[trigger] part.contains(m) <==> m.origin() == from && has_sq(attacks, m.target())
                && lands(st, m) by {
            if m.origin() == from && has_sq(attacks, m.target()) && lands(st, m) {
                if m.kind() == MoveType::Normal {
                    assert(has_sq(quiets, m.target()));
                } else {
                    assert(has_sq(captures, m.target()));
                }
            }
            if part.contains(m) {
                if caps.contains(m) {
                    assert(has_sq(captures, m.target()));
                } else {
                    assert(has_sq(quiets, m.target()));
                }
            }
        }
    }
}

/// Adds to `moves` the moves of the knights of the side to move.
pub fn knight_moves(pos: &pos::Position, moves: &mut Vec<Move>, masks: &AttackMasks)
    requires
        masks.wf(),
        consistent(pos.state()),
        pos.state().side == color::WHITE || pos.state().side == color::BLACK,
    ensures
        grown(old(moves)@, final(moves)@),
        added(old(moves)@, final(moves)@).no_duplicates(),
        forall|m: Move|
            #[trigger] added(old(moves)@, final(moves)@).contains(m) <==> knight_move(
                pos.state(),
                m,
            ),
{
    let side = pos.side_to_move();
    let ghost st = pos.state();
    proof {
        crate::attack::lemma_piece_is(0, piece::KNIGHT, side);
    }
    let knights = pos.piece_bb(piece::KNIGHT | side);
    let mut rest = knights;
    let ghost mut done: int = 0;
    assert(added(old(moves)@, moves@) =~= Seq::<Move>::empty());
    assert(moves@.subrange(0, old(moves)@.len() as int) =~= old(moves)@);
    while rest != bb::EMPTY
        invariant
            0 <= done <= 64,
            masks.wf(),
            st == pos.state(),
            consistent(st),
            st.side == color::WHITE || st.side == color::BLACK,
            forall|t: int|
                #[trigger] has_sq(knights, t) <==> on_board(t) && st.board[t] == piece::make(
                    piece::KNIGHT,
                    st.side,
                ),
            forall|t: int|
                #![trigger has_sq(rest, t)]
                #![trigger has_sq(knights, t)]
                has_sq(rest, t) <==> has_sq(knights, t) && t >= done,
            grown(old(moves)@, moves@),
            added(old(moves)@, moves@).no_duplicates(),
            forall|m: Move|
                #[trigger] added(old(moves)@, moves@).contains(m) <==> knight_move(st, m)
                    && m.origin() < done,
        decreases 64 - done,
    {
        let from = take_lowest(&mut rest);
        let attacks = masks.knight_attacks(from);
        let ghost before = moves@;
        push_steps(pos, moves, from, attacks);
        proof {
            lemma_grown_twice(old(moves)@, before, moves@);
            lemma_concat_contains(added(old(moves)@, before), added(before, moves@));
            assert forall|m: Move|
                #[trigger] added(old(moves)@, moves@).contains(m) <==> knight_move(st, m)
                    && m.origin() < from + 1 by {
                if knight_move(st, m) && m.origin() < from + 1 {
                    assert(has_sq(knights, m.origin()));
                    if m.origin() == from {
                        assert(has_sq(attacks, m.target()));
                        assert(added(before, moves@).contains(m));
                    }
                }
            }
            done = from + 1;
        }
    }
    proof {
        lemma_empty(rest);
        assert forall|m: Move|
            #[trigger] added(old(moves)@, moves@).contains(m) <==> knight_move(st, m) by {
            if knight_move(st, m) {
                assert(has_sq(knights, m.origin()));
            }
        }
    }
}


/// Adds to `moves` the moves of the rooks of the side to move, and those of its queens along files and ranks.
pub fn rook_or_queen_moves(pos: &pos::Position, moves: &mut Vec<Move>, masks: &AttackMasks)
    requires
        masks.wf(),
        consistent(pos.state()),
        pos.state().side == color::WHITE || pos.state().side == color::BLACK,
    ensures
        grown(old(moves)@, final(moves)@),
        added(old(moves)@, final(moves)@).no_duplicates(),
        forall|m: Move|
            #[trigger] added(old(moves)@, final(moves)@).contains(m) <==> line_move(
                pos.state(),
                m,
            ),
{
    let side = pos.side_to_move();
    let ghost st = pos.state();
    let sources = bb::line_sliders(pos, side);
    let occ = bb::occupancy(pos);
    let mut rest = sources;
    let ghost mut done: int = 0;
    assert(added(old(moves)@, moves@) =~= Seq::<Move>::empty());
    assert(moves@.subrange(0, old(moves)@.len() as int) =~= old(moves)@);
    while rest != bb::EMPTY
        invariant
            0 <= done <= 64,
            masks.wf(),
            st == pos.state(),
            consistent(st),
            st.side == color::WHITE || st.side == color::BLACK,
            squares(occ) == occupied(st.board@),
            forall|t: int|
                #[trigger] has_sq(sources, t) <==> on_board(t) && is_line_slider(st.board[t], st.side),
            forall|t: int|
                #![trigger has_sq(rest, t)]
                #![trigger has_sq(sources, t)]
                has_sq(rest, t) <==> has_sq(sources, t) && t >= done,
            grown(old(moves)@, moves@),
            added(old(moves)@, moves@).no_duplicates(),
            forall|m: Move|
                #[trigger] added(old(moves)@, moves@).contains(m) <==> line_move(st, m)
                    && m.origin() < done,
        decreases 64 - done,
    {
        let from = take_lowest(&mut rest);
        let attacks = masks.rook_attacks_rt(from, occ);
        let ghost before = moves@;
        push_steps(pos, moves, from, attacks);
        proof {
            lemma_grown_twice(old(moves)@, before, moves@);
            lemma_concat_contains(added(old(moves)@, before), added(before, moves@));
            assert forall|m: Move|
                #[trigger] added(old(moves)@, moves@).contains(m) <==> line_move(st, m)
                    && m.origin() < from + 1 by {
                if line_move(st, m) && m.origin() < from + 1 {
                    assert(has_sq(sources, m.origin()));
                    if m.origin() == from {
                        assert(has_sq(attacks, m.target()));
                        assert(added(before, moves@).contains(m));
                    }
                }
            }
            done = from + 1;
        }
    }
    proof {
        lemma_empty(rest);
        assert forall|m: Move|
            #[trigger] added(old(moves)@, moves@).contains(m) <==> line_move(st, m) by {
            if line_move(st, m) {
                assert(has_sq(sources, m.origin()));
            }
        }
    }
}

/// Adds to `moves` the moves of the bishops of the side to move, and those of its queens along diagonals.
pub fn bishop_or_queen_moves(pos: &pos::Position, moves: &mut Vec<Move>, masks: &AttackMasks)
    requires
        masks.wf(),
        consistent(pos.state()),
        pos.state().side == color::WHITE || pos.state().side == color::BLACK,
    ensures
        grown(old(moves)@, final(moves)@),
        added(old(moves)@, final(moves)@).no_duplicates(),
        forall|m: Move|
            #[trigger] added(old(moves)@, final(moves)@).contains(m) <==> diagonal_move(
                pos.state(),
                m,
            ),
{
    let side = pos.side_to_move();
    let ghost st = pos.state();
    let sources = bb::diagonal_sliders(pos, side);
    let occ = bb::occupancy(pos);
    let mut rest = sources;
    let ghost mut done: int = 0;
    assert(added(old(moves)@, moves@) =~= Seq::<Move>::empty());
    assert(moves@.subrange(0, old(moves)@.len() as int) =~= old(moves)@);
    while rest != bb::EMPTY
        invariant
            0 <= done <= 64,
            masks.wf(),
            st == pos.state(),
            consistent(st),
            st.side == color::WHITE || st.side == color::BLACK,
            squares(occ) == occupied(st.board@),
            forall|t: int|
                #[trigger] has_sq(sources, t) <==> on_board(t) && is_diagonal_slider(st.board[t], st.side),
            forall|t: int|
                #![trigger has_sq(rest, t)]
                #![trigger has_sq(sources, t)]
                has_sq(rest, t) <==> has_sq(sources, t) && t >= done,
            grown(old(moves)@, moves@),
            added(old(moves)@, moves@).no_duplicates(),
            forall|m: Move|
                #[trigger] added(old(moves)@, moves@).contains(m) <==> diagonal_move(st, m)
                    && m.origin() < done,
        decreases 64 - done,
    {
        let from = take_lowest(&mut rest);
        let attacks = masks.bishop_attacks_rt(from, occ);
        let ghost before = moves@;
        push_steps(pos, moves, from, attacks);
        proof {
            lemma_grown_twice(old(moves)@, before, moves@);
            lemma_concat_contains(added(old(moves)@, before), added(before, moves@));
            assert forall|m: Move|
                #[trigger] added(old(moves)@, moves@).contains(m) <==> diagonal_move(st, m)
                    && m.origin() < from + 1 by {
                if diagonal_move(st, m) && m.origin() < from + 1 {
                    assert(has_sq(sources, m.origin()));
                    if m.origin() == from {
                        assert(has_sq(attacks, m.target()));
                        assert(added(before, moves@).contains(m));
                    }
                }
            }
            done = from + 1;
        }
    }
    proof {
        lemma_empty(rest);
        assert forall|m: Move|
            #[trigger] added(old(moves)@, moves@).contains(m) <==> diagonal_move(st, m) by {
            if diagonal_move(st, m) {
                assert(has_sq(sources, m.origin()));
            }
        }
    }
}

/// Adds to `moves` the moves of the king of the side to move: its steps,
/// and the castles that are open to it.
pub fn king_moves(pos: &pos::Position, moves: &mut Vec<Move>, masks: &AttackMasks)
    requires
        masks.wf(),
        consistent(pos.state()),
        pos.state().side == color::WHITE || pos.state().side == color::BLACK,
        has_piece(pos.state().board@, piece::make(piece::KING, pos.state().side)),
        castles_fit(pos.state()),
    ensures
        grown(old(moves)@, final(moves)@),
        added(old(moves)@, final(moves)@).no_duplicates(),
        forall|m: Move|
            #[trigger] added(old(moves)@, final(moves)@).contains(m) <==> king_move(pos.state(), m),
{
    let side = pos.side_to_move();
    let ghost st = pos.state();
    let from = pos.king_sq();
    let attacks = masks.king_attacks(from);
    push_steps(pos, moves, from, attacks);
    let ghost steps = added(old(moves)@, moves@);
    let ghost after_steps = moves@;
    assert forall|m: Move| #[trigger] steps.contains(m) <==> king_step_move(st, m) by {}
    let (kcastle, qcastle) = if side == color::WHITE {
        (pos::WK_CASTLE, pos::WQ_CASTLE)
    } else {
        (pos::BK_CASTLE, pos::BQ_CASTLE)
    };
    let enemy = color::other(side);
    let ghost mut king_side: Option<Move> = None;
    let ghost mut queen_side: Option<Move> = None;
    if pos.castle_rights() & kcastle != 0 && !pos.is_occupied(from + 1) && !pos.is_occupied(
        from + 2,
    ) && !pos.is_check(masks) && !bb::is_attacked(from + 1, pos, enemy, masks) && !bb::is_attacked(
        from + 2,
        pos,
        enemy,
        masks,
    ) {
        let mov = Move::new(from, from + 2, MoveType::KingSideCastle);
        proof {
            king_side = Some(mov);
            lemma_push_contains(added(old(moves)@, moves@), mov);
            assert(added(old(moves)@, moves@.push(mov)) =~= added(old(moves)@, moves@).push(mov));
            assert(moves@.push(mov).subrange(0, old(moves)@.len() as int) =~= old(moves)@);
        }
        moves.push(mov);
    }
    let ghost with_k = added(old(moves)@, moves@);
    assert forall|m: Move|
        #[trigger] with_k.contains(m) <==> king_step_move(st, m) || (m.reversible() && m.origin()
            == from && m.kind() == MoveType::KingSideCastle && m.target() == from + 2
            && may_castle_king_side(st)) by {
        if m.reversible() && m.origin() == from && m.kind() == MoveType::KingSideCastle
            && m.target() == from + 2 && may_castle_king_side(st) {
            Move::lemma_same(m, king_side->0);
        }
    }
    if pos.castle_rights() & qcastle != 0 && !pos.is_occupied(from - 1) && !pos.is_occupied(
        from - 2,
    ) && !pos.is_occupied(from - 3) && !pos.is_check(masks) && !bb::is_attacked(
        from - 1,
        pos,
        enemy,
        masks,
    ) && !bb::is_attacked(from - 2, pos, enemy, masks) {
        let mov = Move::new(from, from - 2, MoveType::QueenSideCastle);
        proof {
            queen_side = Some(mov);
            lemma_push_contains(added(old(moves)@, moves@), mov);
            assert(added(old(moves)@, moves@.push(mov)) =~= added(old(moves)@, moves@).push(mov));
            assert(moves@.push(mov).subrange(0, old(moves)@.len() as int) =~= old(moves)@);
        }
        moves.push(mov);
    }
    proof {
        assert forall|m: Move|
            #[trigger] added(old(moves)@, moves@).contains(m) <==> king_move(st, m) by {
            if m.reversible() && m.origin() == from && m.kind() == MoveType::QueenSideCastle
                && m.target() == from - 2 && may_castle_queen_side(st) {
                Move::lemma_same(m, queen_side->0);
            }
        }
    }
}


/// The kind of a promotion to `p` that takes `cap`, or takes nothing.
pub open spec fn promotion_kind(p: piece::Piece, cap: Option<piece::Piece>) -> MoveType {
    match cap {
        Some(c) => MoveType::PromoCapture(p, c),
        None => MoveType::Promotion(p),
    }
}

/// Adds `mov` alone.
fn push_one(moves: &mut Vec<Move>, mov: Move)
    ensures
        grown(old(moves)@, final(moves)@),
        added(old(moves)@, final(moves)@) == seq![mov],
        added(old(moves)@, final(moves)@).no_duplicates(),
        forall|m: Move| #[trigger] added(old(moves)@, final(moves)@).contains(m) <==> m == mov,
{
    moves.push(mov);
    proof {
        assert(moves@.subrange(0, old(moves)@.len() as int) =~= old(moves)@);
        assert(added(old(moves)@, moves@) =~= seq![mov]);
        assert(seq![mov][0] == mov);
    }
}

/// Adds nothing; states what that means.
proof fn lemma_added_nothing(s: Seq<Move>)
    ensures
        grown(s, s),
        added(s, s) == Seq::<Move>::empty(),
        added(s, s).no_duplicates(),
        forall|m: Move| !#[trigger] added(s, s).contains(m),
{
    assert(s.subrange(0, s.len() as int) =~= s);
    assert(added(s, s) =~= Seq::<Move>::empty());
}

/// Two additions one after the other are one addition of both.
proof fn lemma_added_twice(a: Seq<Move>, b: Seq<Move>, c: Seq<Move>)
    requires
        grown(a, b),
        grown(b, c),
    ensures
        grown(a, c),
        forall|m: Move|
            #[trigger] added(a, c).contains(m) <==> added(a, b).contains(m) || added(b, c).contains(
                m,
            ),
        added(a, b).no_duplicates() && added(b, c).no_duplicates() && (forall|m: Move|
            !(added(a, b).contains(m) && added(b, c).contains(m))) ==> added(a, c).no_duplicates(),
{
    lemma_grown_twice(a, b, c);
    lemma_concat_contains(added(a, b), added(b, c));
}

/// Adds the four promotions of a pawn that goes from `from` to `to`, to
/// queen, rook, bishop and knight in that order; `cap` is the piece taken.
fn push_promotions(
    moves: &mut Vec<Move>,
    from: pos::Square,
    to: pos::Square,
    side: color::Color,
    cap: Option<piece::Piece>,
)
    requires
        from < 64,
        to < 64,
        side == color::WHITE || side == color::BLACK,
    ensures
        grown(old(moves)@, final(moves)@),
        added(old(moves)@, final(moves)@).no_duplicates(),
        forall|m: Move|
            #[trigger] added(old(moves)@, final(moves)@).contains(m) <==> m.origin() == from
                && m.target() == to && m.reversible() && exists|p: piece::Piece|
                #[trigger] promotion_piece(side, p) && m.kind() == promotion_kind(p, cap),
{
    proof {
        piece::lemma_make(piece::QUEEN, side);
        piece::lemma_make(piece::ROOK, side);
        piece::lemma_make(piece::BISHOP, side);
        piece::lemma_make(piece::KNIGHT, side);
    }
    let q = piece::QUEEN | side;
    let r = piece::ROOK | side;
    let b = piece::BISHOP | side;
    let n = piece::KNIGHT | side;
    let (kq, kr, kb, kn) = match cap {
        Some(c) => (
            MoveType::PromoCapture(q, c),
            MoveType::PromoCapture(r, c),
            MoveType::PromoCapture(b, c),
            MoveType::PromoCapture(n, c),
        ),
        None => (
            MoveType::Promotion(q),
            MoveType::Promotion(r),
            MoveType::Promotion(b),
            MoveType::Promotion(n),
        ),
    };
    let mq = Move::new(from, to, kq);
    let mr = Move::new(from, to, kr);
    let mb = Move::new(from, to, kb);
    let mn = Move::new(from, to, kn);
    moves.push(mq);
    moves.push(mr);
    moves.push(mb);
    moves.push(mn);
    proof {
        let part = seq![mq, mr, mb, mn];
        assert(moves@.subrange(0, old(moves)@.len() as int) =~= old(moves)@);
        assert(added(old(moves)@, moves@) =~= part);
        assert(part[0] == mq && part[1] == mr && part[2] == mb && part[3] == mn);
        assert(promotion_piece(side, q) && promotion_piece(side, r) && promotion_piece(side, b)
            && promotion_piece(side, n));
        assert forall|m: Move|
            #[trigger] part.contains(m) <==> m.origin() == from && m.target() == to
                && m.reversible() && exists|p: piece::Piece|
                #[trigger] promotion_piece(side, p) && m.kind() == promotion_kind(p, cap) by {
            if m.origin() == from && m.target() == to && m.reversible() && exists|p: piece::Piece|
                #[trigger] promotion_piece(side, p) && m.kind() == promotion_kind(p, cap) {
                let p = choose|p: piece::Piece|
                    #[trigger] promotion_piece(side, p) && m.kind() == promotion_kind(p, cap);
                if p == q {
                    Move::lemma_same(m, mq);
                } else if p == r {
                    Move::lemma_same(m, mr);
                } else if p == b {
                    Move::lemma_same(m, mb);
                } else {
                    Move::lemma_same(m, mn);
                }
            }
        }
    }
}

/// A capture by a pawn on `from` is of the kind that its target calls for.
pub open spec fn capture_from(st: pos::StateInfo, from: int, m: Move) -> bool {
    &&& m.origin() == from
    &&& m.reversible()
    &&& if rank_ix(m.target()) == promotion_rank(st) {
        exists|p: piece::Piece|
            #[trigger] promotes_to(st, p) && m.kind() == MoveType::PromoCapture(
                p,
                st.board[m.target()],
            )
    } else {
        m.kind() == MoveType::Capture(st.board[m.target()])
    }
}

/// Adds the captures of the pawn on `from` onto the squares of `captures`.
fn push_pawn_captures(
    pos: &pos::Position,
    moves: &mut Vec<Move>,
    from: pos::Square,
    captures: bb::Bitboard,
)
    requires
        pos.state().side == color::WHITE || pos.state().side == color::BLACK,
        from < 64,
    ensures
        grown(old(moves)@, final(moves)@),
        added(old(moves)@, final(moves)@).no_duplicates(),
        forall|m: Move|
            #[trigger] added(old(moves)@, final(moves)@).contains(m) <==> has_sq(
                captures,
                m.target(),
            ) && capture_from(pos.state(), from as int, m),
{
    let ghost st = pos.state();
    let side = pos.side_to_move();
    let promo_rank = if side == color::WHITE {
        pos::RANK_8
    } else {
        pos::RANK_1
    };
    let mut rest = captures;
    let ghost mut done: int = 0;
    proof {
        lemma_added_nothing(moves@);
    }
    while rest != bb::EMPTY
        invariant
            0 <= done <= 64,
            from < 64,
            st == pos.state(),
            side == st.side,
            side == color::WHITE || side == color::BLACK,
            promo_rank == promotion_rank(st),
            forall|t: int|
                #![trigger has_sq(rest, t)]
                #![trigger has_sq(captures, t)]
                has_sq(rest, t) <==> has_sq(captures, t) && t >= done,
            grown(old(moves)@, moves@),
            added(old(moves)@, moves@).no_duplicates(),
            forall|m: Move|
                #[trigger] added(old(moves)@, moves@).contains(m) <==> has_sq(captures, m.target())
                    && m.target() < done && capture_from(st, from as int, m),
        decreases 64 - done,
    {
        let to = take_lowest(&mut rest);
        let cap = pos.piece_on(to);
        let ghost before = moves@;
        if pos::rank_of(to) == promo_rank {
            push_promotions(moves, from, to, side, Some(cap));
        } else {
            push_one(moves, Move::new(from, to, MoveType::Capture(cap)));
        }
        proof {
            lemma_added_twice(old(moves)@, before, moves@);
            assert forall|m: Move|
                #[trigger] added(old(moves)@, moves@).contains(m) <==> has_sq(captures, m.target())
                    && m.target() < to + 1 && capture_from(st, from as int, m) by {
                if has_sq(captures, m.target()) && m.target() == to && capture_from(
                    st,
                    from as int,
                    m,
                ) {
                    if rank_ix(to as int) == promotion_rank(st) {
                        let p = choose|p: piece::Piece|
                            #[trigger] promotes_to(st, p) && m.kind() == MoveType::PromoCapture(
                                p,
                                st.board[m.target()],
                            );
                        assert(promotion_piece(side, p) && m.kind() == promotion_kind(
                            p,
                            Some(cap),
                        ));
                    } else {
                        Move::lemma_same(m, added(before, moves@)[0]);
                    }
                    assert(added(before, moves@).contains(m));
                }
                if added(before, moves@).contains(m) {
                    if rank_ix(to as int) == promotion_rank(st) {
                        let p = choose|p: piece::Piece|
                            #[trigger] promotion_piece(side, p) && m.kind() == promotion_kind(
                                p,
                                Some(cap),
                            );
                        assert(promotes_to(st, p));
                    }
                }
            }
            done = to + 1;
        }
    }
    proof {
        lemma_empty(rest);
    }
}

/// An advance by one square of a pawn on `from` is of the kind that its
/// target calls for.
pub open spec fn push_from(st: pos::StateInfo, from: int, m: Move) -> bool {
    &&& m.origin() == from
    &&& m.reversible()
    &&& m.target() == spec_ahead(from, st.side)
    &&& if rank_ix(m.target()) == promotion_rank(st) {
        exists|p: piece::Piece| #[trigger] promotes_to(st, p) && m.kind() == MoveType::Promotion(p)
    } else {
        m.kind() == MoveType::Normal
    }
}

/// Adds the advances of the pawn on `from`: one square if that square is
/// empty, and two from the starting rank if the second is empty as well.
fn push_pawn_advances(pos: &pos::Position, moves: &mut Vec<Move>, from: pos::Square)
    requires
        pos.state().side == color::WHITE || pos.state().side == color::BLACK,
        from < 64,
        rank_ix(from as int) != promotion_rank(pos.state()),
    ensures
        grown(old(moves)@, final(moves)@),
        added(old(moves)@, final(moves)@).no_duplicates(),
        forall|m: Move|
            #[trigger] added(old(moves)@, final(moves)@).contains(m) <==> m.origin() == from
                && m.reversible() && (pawn_push(pos.state(), m) || pawn_double_push(
                pos.state(),
                m,
            )),
{
    let ghost st = pos.state();
    let side = pos.side_to_move();
    let (start_rank, promo_rank) = if side == color::WHITE {
        (pos::RANK_2, pos::RANK_8)
    } else {
        (pos::RANK_7, pos::RANK_1)
    };
    let up1 = pos::ahead(from, side);
    proof {
        lemma_added_nothing(moves@);
    }
    if !pos.is_occupied(up1) {
        if pos::rank_of(up1) == promo_rank {
            push_promotions(moves, from, up1, side, None);
        } else {
            push_one(moves, Move::new(from, up1, MoveType::Normal));
        }
        let ghost single = moves@;
        proof {
            assert forall|m: Move|
                #[trigger] added(old(moves)@, single).contains(m) <==> push_from(
                    st,
                    from as int,
                    m,
                ) by {
                if push_from(st, from as int, m) {
                    if rank_ix(up1 as int) == promotion_rank(st) {
                        let p = choose|p: piece::Piece|
                            #[trigger] promotes_to(st, p) && m.kind() == MoveType::Promotion(p);
                        assert(promotion_piece(side, p) && m.kind() == promotion_kind(p, None));
                    } else {
                        Move::lemma_same(m, added(old(moves)@, single)[0]);
                    }
                }
                if added(old(moves)@, single).contains(m) {
                    if rank_ix(up1 as int) == promotion_rank(st) {
                        let p = choose|p: piece::Piece|
                            #[trigger] promotion_piece(side, p) && m.kind() == promotion_kind(
                                p,
                                None,
                            );
                        assert(promotes_to(st, p));
                    }
                }
            }
        }
        if pos::rank_of(from) == start_rank {
            let up2 = pos::ahead(up1, side);
            if !pos.is_occupied(up2) {
                push_one(moves, Move::new(from, up2, MoveType::PawnTwoUp));
                proof {
                    lemma_added_twice(old(moves)@, single, moves@);
                    assert forall|m: Move|
                        m.origin() == from && m.reversible() && pawn_double_push(
                            st,
                            m,
                        ) implies #[trigger] added(single, moves@).contains(m) by {
                        Move::lemma_same(m, added(single, moves@)[0]);
                    }
                }
            }
        }
    }
}

/// Adds the moves of the pawn on `from`.
fn push_pawn(pos: &pos::Position, moves: &mut Vec<Move>, from: pos::Square, masks: &AttackMasks)
    requires
        masks.wf(),
        consistent(pos.state()),
        pos.state().side == color::WHITE || pos.state().side == color::BLACK,
        from < 64,
        rank_ix(from as int) != promotion_rank(pos.state()),
        pos.state().ep_square matches Some(e) ==> e < 64,
    ensures
        grown(old(moves)@, final(moves)@),
        added(old(moves)@, final(moves)@).no_duplicates(),
        forall|m: Move|
            #[trigger] added(old(moves)@, final(moves)@).contains(m) <==> m.origin() == from
                && m.reversible() && (pawn_capture(pos.state(), m) || pawn_en_passant(
                pos.state(),
                m,
            ) || pawn_push(pos.state(), m) || pawn_double_push(pos.state(), m)),
{
    let ghost st = pos.state();
    let side = pos.side_to_move();
    let ep: bb::Bitboard = match pos.ep_square() {
        Some(e) => 1u64 << e,
        None => 0,
    };
    let attacks = masks.pawn_attacks(side, from);
    let (captures, _quiets) = split_targets(pos, attacks);
    let mut ep_captures = attacks & ep;
    proof {
        lemma_sq_ops();
        lemma_empty(ep_captures);
    }
    push_pawn_captures(pos, moves, from, captures);
    let ghost with_captures = moves@;
    assert forall|m: Move|
        #[trigger] added(old(moves)@, with_captures).contains(m) <==> m.origin() == from
            && m.reversible() && pawn_capture(st, m) by {}
    if ep_captures != bb::EMPTY {
        let to = take_lowest(&mut ep_captures);
        push_one(moves, Move::new(from, to, MoveType::EnPassant));
    }
    let ghost with_ep = moves@;
    proof {
        if with_ep == with_captures {
            lemma_added_nothing(with_captures);
        }
        lemma_added_twice(old(moves)@, with_captures, with_ep);
        assert forall|m: Move|
            #[trigger] added(with_captures, with_ep).contains(m) <==> m.origin() == from
                && m.reversible() && pawn_en_passant(st, m) by {
            if m.origin() == from && m.reversible() && pawn_en_passant(st, m) {
                assert(has_sq(attacks, m.target()));
                assert(has_sq(ep, m.target()));
                assert(has_sq(attacks & ep, m.target()));
                Move::lemma_same(m, added(with_captures, with_ep)[0]);
            }
        }
    }
    push_pawn_advances(pos, moves, from);
    proof {
        lemma_added_twice(old(moves)@, with_ep, moves@);
    }
}

/// Adds to `moves` the moves of the pawns of the side to move: captures,
/// captures en passant, advances of one and of two squares, with the four
/// promotions wherever a pawn reaches the last rank.
pub fn pawn_moves(pos: &pos::Position, moves: &mut Vec<Move>, masks: &AttackMasks)
    requires
        masks.wf(),
        consistent(pos.state()),
        pos.state().side == color::WHITE || pos.state().side == color::BLACK,
        pawns_can_advance(pos.state()),
        pos.state().ep_square matches Some(e) ==> e < 64,
    ensures
        grown(old(moves)@, final(moves)@),
        added(old(moves)@, final(moves)@).no_duplicates(),
        forall|m: Move|
            #[trigger] added(old(moves)@, final(moves)@).contains(m) <==> pawn_move(pos.state(), m),
{
    let side = pos.side_to_move();
    let ghost st = pos.state();
    let pawns = bb::kind_bb(pos, piece::PAWN, side);
    proof {
        crate::attack::lemma_piece_is(0, piece::PAWN, side);
        assert forall|t: int|
            #[trigger] has_sq(pawns, t) <==> on_board(t) && st.board[t] == piece::make(
                piece::PAWN,
                st.side,
            ) by {
            crate::attack::lemma_piece_is(st.board[t], piece::PAWN, side);
        }
        lemma_added_nothing(moves@);
    }
    let mut rest = pawns;
    let ghost mut done: int = 0;
    while rest != bb::EMPTY
        invariant
            0 <= done <= 64,
            masks.wf(),
            st == pos.state(),
            consistent(st),
            st.side == color::WHITE || st.side == color::BLACK,
            pawns_can_advance(st),
            st.ep_square matches Some(e) ==> e < 64,
            forall|t: int|
                #[trigger] has_sq(pawns, t) <==> on_board(t) && st.board[t] == piece::make(
                    piece::PAWN,
                    st.side,
                ),
            forall|t: int|
                #![trigger has_sq(rest, t)]
                #![trigger has_sq(pawns, t)]
                has_sq(rest, t) <==> has_sq(pawns, t) && t >= done,
            grown(old(moves)@, moves@),
            added(old(moves)@, moves@).no_duplicates(),
            forall|m: Move|
                #[trigger] added(old(moves)@, moves@).contains(m) <==> pawn_move(st, m)
                    && m.origin() < done,
        decreases 64 - done,
    {
        let from = take_lowest(&mut rest);
        let ghost before = moves@;
        push_pawn(pos, moves, from, masks);
        proof {
            lemma_added_twice(old(moves)@, before, moves@);
            assert forall|m: Move|
                #[trigger] added(old(moves)@, moves@).contains(m) <==> pawn_move(st, m)
                    && m.origin() < from + 1 by {
                if pawn_move(st, m) && m.origin() < from + 1 {
                    assert(has_sq(pawns, m.origin()));
                    if m.origin() == from {
                        assert(added(before, moves@).contains(m));
                    }
                }
            }
            done = from + 1;
        }
    }
    proof {
        lemma_empty(rest);
        assert forall|m: Move|
            #[trigger] added(old(moves)@, moves@).contains(m) <==> pawn_move(st, m) by {
            if pawn_move(st, m) {
                assert(has_sq(pawns, m.origin()));
            }
        }
    }
}

} // verus!
