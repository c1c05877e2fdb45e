//! The mathematical reading of a 64-bit word as a set of board squares, and
//! the facts about bitwise operators that the rest of the crate builds on.

use vstd::prelude::*;
use vstd::std_specs::bits::{axiom_u64_trailing_zeros, u64_trailing_zeros};

verus! {

/// Bit `i` of `b`, for an index that is itself a machine word.
pub open spec fn bit(b: u64, i: u64) -> bool {
    (b >> i) & 1 == 1
}

/// Whether square `sq` belongs to the set that `b` encodes.
pub open spec fn has_sq(b: u64, sq: int) -> bool {
    0 <= sq < 64 && bit(b, sq as u64)
}

/// The squares of `b` as a mathematical set.
pub open spec fn squares(b: u64) -> Set<int> {
    Set::new(|sq: int| has_sq(b, sq))
}

/// The index of the least significant set bit, and 64 for the empty set.
pub open spec fn lowest(b: u64) -> int {
    u64_trailing_zeros(b) as int
}

/// How the bitwise operators act on single bits.
pub proof fn lemma_bit_ops()
    by (bit_vector)
    ensures
        forall|a: u64, b: u64, i: u64| i < 64 ==> #[trigger] bit(a | b, i) == (bit(a, i) || bit(b, i)),
        forall|a: u64, b: u64, i: u64| i < 64 ==> #[trigger] bit(a & b, i) == (bit(a, i) && bit(b, i)),
        forall|a: u64, b: u64, i: u64| i < 64 ==> #[trigger] bit(a ^ b, i) == (bit(a, i) != bit(b, i)),
        forall|a: u64, i: u64| i < 64 ==> #[trigger] bit(!a, i) == !bit(a, i),
        forall|i: u64| i < 64 ==> !#[trigger] bit(0u64, i),
        forall|j: u64, i: u64| i < 64 && j < 64 ==> #[trigger] bit(1u64 << j, i) == (i == j),
{
}

/// How constant shifts act on single bits.
pub proof fn lemma_bit_shifts()
    by (bit_vector)
    ensures
        forall|a: u64, k: u64, i: u64| i < 64 && k < 64 ==> #[trigger] bit(a << k, i) == (i >= k && bit(a, (i - k) as u64)),
        forall|a: u64, k: u64, i: u64| i < 64 && k < 64 ==> #[trigger] bit(a >> k, i) == (i + k < 64 && bit(a, (i + k) as u64)),
{
}

/// How the bitwise operators act on sets of squares.
pub proof fn lemma_sq_ops()
    ensures
        forall|a: u64, b: u64, sq: int| #[trigger] has_sq(a | b, sq) <==> has_sq(a, sq) || has_sq(b, sq),
        forall|a: u64, b: u64, sq: int| #[trigger] has_sq(a & b, sq) <==> has_sq(a, sq) && has_sq(b, sq),
        forall|a: u64, b: u64, sq: int|
            #[trigger] has_sq(a ^ b, sq) <==> 0 <= sq < 64 && (has_sq(a, sq) != has_sq(b, sq)),
        forall|a: u64, sq: int| #[trigger] has_sq(!a, sq) <==> 0 <= sq < 64 && !has_sq(a, sq),
        forall|sq: int| !#[trigger] has_sq(0u64, sq),
        forall|j: u64, sq: int| j < 64 ==> (#[trigger] has_sq(1u64 << j, sq) <==> sq == j),
        forall|a: u64, k: u64, sq: int|
            k < 64 ==> (#[trigger] has_sq(a << k, sq) <==> 0 <= sq < 64 && has_sq(a, sq - k)),
        forall|a: u64, k: u64, sq: int|
            k < 64 ==> (#[trigger] has_sq(a >> k, sq) <==> 0 <= sq < 64 && has_sq(a, sq + k)),
{
    lemma_bit_ops();
    lemma_bit_shifts();
    assert forall|a: u64, k: u64, sq: int| k < 64 implies (#[trigger] has_sq(a << k, sq) <==> 0
        <= sq < 64 && has_sq(a, sq - k)) by {
        if 0 <= sq < 64 {
            let i = sq as u64;
            assert(bit(a << k, i) == (i >= k && bit(a, (i - k) as u64)));
        }
    }
    assert forall|a: u64, k: u64, sq: int| k < 64 implies (#[trigger] has_sq(a >> k, sq) <==> 0
        <= sq < 64 && has_sq(a, sq + k)) by {
        if 0 <= sq < 64 {
            let i = sq as u64;
            assert(bit(a >> k, i) == (i + k < 64 && bit(a, (i + k) as u64)));
        }
    }
}

/// A word is empty exactly when it holds no square.
pub proof fn lemma_empty(a: u64)
    ensures
        a == 0 <==> forall|sq: int| !has_sq(a, sq),
{
    lemma_bit_ops();
    lemma_lowest(a);
}

/// Two words that agree on every square are the same word.
pub proof fn lemma_ext(a: u64, b: u64)
    requires
        forall|sq: int| 0 <= sq < 64 ==> has_sq(a, sq) == has_sq(b, sq),
    ensures
        a == b,
{
    let x = a ^ b;
    lemma_bit_ops();
    axiom_u64_trailing_zeros(x);
    if x != 0 {
        let t = u64_trailing_zeros(x) as u64;
        assert(bit(x, t));
        assert(has_sq(a, t as int) == has_sq(b, t as int));
    }
    assert(a ^ b == 0 ==> a == b) by (bit_vector);
}

/// A non-empty word holds its lowest square and nothing beneath it.
pub proof fn lemma_lowest(b: u64)
    ensures
        0 <= lowest(b) <= 64,
        b == 0 <==> lowest(b) == 64,
        b != 0 ==> has_sq(b, lowest(b)),
        forall|sq: int| 0 <= sq < lowest(b) ==> !has_sq(b, sq),
{
    axiom_u64_trailing_zeros(b);
    assert forall|sq: int| 0 <= sq < lowest(b) implies !has_sq(b, sq) by {
        let j = sq as u64;
        assert((b >> j) & 1u64 == 0u64);
    }
}

/// The squares of `b` below `n`, in ascending order.
pub open spec fn squares_below(b: u64, n: int) -> Seq<int>
    decreases n,
{
    if n <= 0 {
        Seq::empty()
    } else if has_sq(b, n - 1) {
        squares_below(b, n - 1).push(n - 1)
    } else {
        squares_below(b, n - 1)
    }
}

/// How many squares `b` holds.
pub open spec fn count(b: u64) -> nat {
    squares_below(b, 64).len()
}

/// Squares that `b` does not hold add nothing to the ascending list.
pub proof fn lemma_squares_below_skip(b: u64, m: int, n: int)
    requires
        0 <= m <= n,
        forall|sq: int| m <= sq < n ==> !has_sq(b, sq),
    ensures
        squares_below(b, n) == squares_below(b, m),
    decreases n - m,
{
    if m < n {
        lemma_squares_below_skip(b, m, n - 1);
    }
}

/// The ascending list below `n` holds at most `n` squares, each of them in `b`.
pub proof fn lemma_squares_below_len(b: u64, n: int)
    requires
        0 <= n,
    ensures
        squares_below(b, n).len() <= n,
        forall|i: int|
            0 <= i < squares_below(b, n).len() ==> 0 <= #[trigger] squares_below(b, n)[i] < n
                && has_sq(b, squares_below(b, n)[i]),
    decreases n,
{
    if n > 0 {
        lemma_squares_below_len(b, n - 1);
    }
}

} // verus!
