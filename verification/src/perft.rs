//! Counting the leaves of the tree of legal moves.

use vstd::prelude::*;
use crate::{AttackMasks, ZobristValues};
use crate::moves::Move;
use crate::moves::legal::{gen_legal, legal};
use crate::moves::orderly::orderly;
use crate::moves::succession::{follows, lemma_game_step, lemma_legal_applicable};
use crate::pos::{lemma_consistent_unique, Position, StateInfo};
use crate::pos::apply::{lemma_make_unmake, recorded, resets_count};
use crate::zobrist::state_key;

verus! {

/// `next` is the state that `m` leads to from `st`, in every field.
pub open spec fn succeeds(st: StateInfo, m: Move, zb: ZobristValues, next: StateInfo) -> bool {
    &&& follows(st, m, next)
    &&& next.key == state_key(zb, next)
    &&& next.rule50 == if resets_count(st, m) {
        0
    } else {
        st.rule50 + 1
    }
    &&& next.ply == st.ply + 1
    &&& next.move_played == Some(recorded(st, m))
}

/// The state that `m` leads to from `st`.
pub open spec fn successor(st: StateInfo, m: Move, zb: ZobristValues) -> StateInfo {
    choose|next: StateInfo| succeeds(st, m, zb, next)
}

/// `ms` lists the legal moves of `st`, each of them once.
pub open spec fn lists_legal(st: StateInfo, ms: Seq<Move>) -> bool {
    &&& ms.no_duplicates()
    &&& forall|m: Move| #[trigger] ms.contains(m) <==> legal(st, m)
}

/// The legal moves of `st` in some order.
pub open spec fn legal_moves(st: StateInfo) -> Seq<Move> {
    choose|ms: Seq<Move>| lists_legal(st, ms)
}

/// The number of ways to play `depth` legal moves in a row from `st`: one
/// for no move at all, and else the sum, over the legal moves of `st`, of
/// the number of ways to go on from the state that each leads to.
pub open spec fn leaves(st: StateInfo, zb: ZobristValues, depth: nat) -> nat
    decreases depth, 0nat,
{
    if depth == 0 {
        1
    } else {
        leaves_below(st, zb, legal_moves(st), (depth - 1) as nat)
    }
}

/// The sum, over the moves of `ms`, of the number of ways to play `depth`
/// legal moves in a row from the state that each leads to.
pub open spec fn leaves_below(st: StateInfo, zb: ZobristValues, ms: Seq<Move>, depth: nat) -> nat
    decreases depth, ms.len() + 1,
{
    if ms.len() == 0 {
        0
    } else {
        leaves_below(st, zb, ms.drop_last(), depth) + leaves(
            successor(st, ms.last(), zb),
            zb,
            depth,
        )
    }
}

/// A count as a signed machine word, if it fits into one.
pub open spec fn counted(n: nat) -> Option<i64> {
    if n <= i64::MAX {
        Some(n as i64)
    } else {
        None
    }
}

/// Only one state succeeds a state by a move.
pub proof fn lemma_successor_unique(st: StateInfo, m: Move, zb: ZobristValues, next: StateInfo)
    requires
        succeeds(st, m, zb, next),
    ensures
        successor(st, m, zb) == next,
{
    let other = successor(st, m, zb);
    assert(succeeds(st, m, zb, other));
    lemma_consistent_unique(other, next);
}

/// One more move adds the count of its subtree.
proof fn lemma_leaves_push(st: StateInfo, zb: ZobristValues, ms: Seq<Move>, m: Move, depth: nat)
    ensures
        leaves_below(st, zb, ms.push(m), depth) == leaves_below(st, zb, ms, depth) + leaves(
            successor(st, m, zb),
            zb,
            depth,
        ),
{
    assert(ms.push(m).drop_last() =~= ms);
    assert(ms.push(m).last() == m);
}

/// Taking a move out takes the count of its subtree out.
proof fn lemma_leaves_remove(st: StateInfo, zb: ZobristValues, ms: Seq<Move>, i: int, depth: nat)
    requires
        0 <= i < ms.len(),
    ensures
        leaves_below(st, zb, ms, depth) == leaves_below(st, zb, ms.remove(i), depth) + leaves(
            successor(st, ms[i], zb),
            zb,
            depth,
        ),
    decreases ms.len(),
{
    if i == ms.len() - 1 {
        assert(ms.remove(i) =~= ms.drop_last());
    } else {
        lemma_leaves_remove(st, zb, ms.drop_last(), i, depth);
        assert(ms.remove(i).drop_last() =~= ms.drop_last().remove(i));
        assert(ms.remove(i).last() == ms.last());
        assert(ms.drop_last()[i] == ms[i]);
    }
}

/// The sum over a list of moves does not depend on the order of the list.
proof fn lemma_leaves_any_order(
    st: StateInfo,
    zb: ZobristValues,
    a: Seq<Move>,
    b: Seq<Move>,
    depth: nat,
)
    requires
        a.no_duplicates(),
        b.no_duplicates(),
        forall|m: Move| a.contains(m) <==> b.contains(m),
    ensures
        leaves_below(st, zb, a, depth) == leaves_below(st, zb, b, depth),
    decreases a.len(),
{
    if a.len() == 0 {
        if b.len() > 0 {
            assert(b.contains(b[0]));
        }
    } else {
        let x = a.last();
        assert(a.contains(x));
        let i = choose|i: int| 0 <= i < b.len() && b[i] == x;
        let a2 = a.drop_last();
        let b2 = b.remove(i);
        assert forall|m: Move| a2.contains(m) <==> b2.contains(m) by {
            if a2.contains(m) {
                let j = choose|j: int| 0 <= j < a2.len() && a2[j] == m;
                assert(a[j] == m);
                assert(a.contains(m));
                assert(m != x);
                let k = choose|k: int| 0 <= k < b.len() && b[k] == m;
                if k < i {
                    assert(b2[k] == m);
                } else {
                    assert(b2[k - 1] == m);
                }
            }
            if b2.contains(m) {
                let k = choose|k: int| 0 <= k < b2.len() && b2[k] == m;
                let k0 = if k < i {
                    k
                } else {
                    k + 1
                };
                assert(b[k0] == m);
                assert(b.contains(m));
                assert(m != x);
                let j = choose|j: int| 0 <= j < a.len() && a[j] == m;
                assert(a2[j] == m);
            }
        }
        assert(b2.no_duplicates()) by {
            assert forall|p: int, q: int| 0 <= p < b2.len() && 0 <= q < b2.len() && p != q implies b2[p]
                != b2[q] by {
                let p0 = if p < i {
                    p
                } else {
                    p + 1
                };
                let q0 = if q < i {
                    q
                } else {
                    q + 1
                };
                assert(b2[p] == b[p0] && b2[q] == b[q0]);
            }
        }
        lemma_leaves_any_order(st, zb, a2, b2, depth);
        lemma_leaves_remove(st, zb, b, i, depth);
    }
}

/// A list of the legal moves of a state gives the count of the state.
pub proof fn lemma_leaves_of_list(st: StateInfo, zb: ZobristValues, ms: Seq<Move>, depth: nat)
    requires
        lists_legal(st, ms),
        depth > 0,
    ensures
        leaves(st, zb, depth) == leaves_below(st, zb, ms, (depth - 1) as nat),
{
    let chosen = legal_moves(st);
    assert(lists_legal(st, chosen));
    lemma_leaves_any_order(st, zb, chosen, ms, (depth - 1) as nat);
}

/// The number of ways to play `depth` legal moves in a row from `pos`, or
/// `None` if that number does not fit into 63 bits. The position is played
/// on and is left as it was found. The last move of each line is counted
/// without being played.
pub fn perft(pos: &mut Position, depth: i32, masks: &AttackMasks, zb: &ZobristValues) -> (nodes:
    Option<i64>)
    requires
        masks.wf(),
        old(pos).wf(*zb),
        orderly(old(pos).state()),
        0 <= depth,
        old(pos).state().rule50 + depth <= u8::MAX,
        old(pos).state().ply + depth <= usize::MAX,
    ensures
        final(pos).state() == old(pos).state(),
        final(pos).past() == old(pos).past(),
        nodes == counted(leaves(old(pos).state(), *zb, depth as nat)),
    decreases depth,
{
    if depth == 0 {
        return Some(1);
    }
    let ghost st = pos.state();
    let ghost below = (depth - 1) as nat;
    proof {
        crate::moves::orderly::lemma_orderly_playable(st);
    }
    let moves = gen_legal(pos, masks, zb);
    if depth == 1 {
        proof {
            lemma_leaves_of_list(st, *zb, moves@, 1);
            lemma_leaves_at_bottom(st, *zb, moves@);
        }
        let found = moves.len() as u64;
        if found > 0x7fff_ffff_ffff_ffff {
            return None;
        }
        return Some(found as i64);
    }
    let mut total: i64 = 0;
    let mut i: usize = 0;
    proof {
        assert(moves@.subrange(0, 0) =~= Seq::<Move>::empty());
    }
    while i < moves.len()
        invariant
            i <= moves@.len(),
            masks.wf(),
            pos.wf(*zb),
            pos.state() == st,
            st == old(pos).state(),
            pos.past() == old(pos).past(),
            orderly(st),
            depth > 0,
            below == depth - 1,
            0 <= total,
            st.rule50 + depth <= u8::MAX,
            st.ply + depth <= usize::MAX,
            lists_legal(st, moves@),
            total == leaves_below(st, *zb, moves@.subrange(0, i as int), below),
        decreases moves@.len() - i,
    {
        let m = moves[i];
        let ghost pre = *pos;
        proof {
            assert(moves@.contains(m));
            lemma_legal_applicable(st, m);
        }
        pos.make_move(m, zb);
        let ghost mid = *pos;
        proof {
            lemma_game_step(pre, m, *zb, mid);
            lemma_successor_unique(st, m, *zb, mid.state());
        }
        let sub = perft(pos, depth - 1, masks, zb);
        pos.unmake_move();
        proof {
            lemma_make_unmake(pre, m, *zb, mid, *pos);
            let done = moves@.subrange(0, i as int);
            assert(moves@.subrange(0, i + 1) =~= done.push(m));
            lemma_leaves_push(st, *zb, done, m, below);
            lemma_leaves_of_list(st, *zb, moves@, depth as nat);
            lemma_leaves_prefix(st, *zb, moves@, i + 1, below);
        }
        let sum = match sub {
            Some(n) => total.checked_add(n),
            None => None,
        };
        match sum {
            Some(t) => {
                total = t;
            },
            None => {
                proof {
                    let done = moves@.subrange(0, i as int);
                    let grown = leaves_below(st, *zb, done.push(m), below);
                    assert(grown == total + leaves(successor(st, m, *zb), *zb, below));
                    assert(grown > i64::MAX);
                    assert(grown <= leaves(st, *zb, depth as nat));
                }
                return None;
            },
        }
        i += 1;
    }
    proof {
        assert(moves@.subrange(0, i as int) =~= moves@);
        lemma_leaves_of_list(st, *zb, moves@, depth as nat);
    }
    Some(total)
}

/// With no move left to play, every move of a list counts for one.
proof fn lemma_leaves_at_bottom(st: StateInfo, zb: ZobristValues, ms: Seq<Move>)
    ensures
        leaves_below(st, zb, ms, 0) == ms.len(),
    decreases ms.len(),
{
    if ms.len() > 0 {
        lemma_leaves_at_bottom(st, zb, ms.drop_last());
        assert(leaves(successor(st, ms.last(), zb), zb, 0) == 1);
    }
}

/// The sum over the first moves of a list is no more than the sum over all.
proof fn lemma_leaves_prefix(st: StateInfo, zb: ZobristValues, ms: Seq<Move>, n: int, depth: nat)
    requires
        0 <= n <= ms.len(),
    ensures
        leaves_below(st, zb, ms.subrange(0, n), depth) <= leaves_below(st, zb, ms, depth),
    decreases ms.len() - n,
{
    if n < ms.len() {
        lemma_leaves_prefix(st, zb, ms, n + 1, depth);
        assert(ms.subrange(0, n + 1) =~= ms.subrange(0, n).push(ms[n]));
        lemma_leaves_push(st, zb, ms.subrange(0, n), ms[n], depth);
    } else {
        assert(ms.subrange(0, n) =~= ms);
    }
}

} // verus!
