//! Position keys: the random values behind them and the key of a position
//! computed from scratch.

use vstd::prelude::*;
use rand::Rng;
use crate::{color, piece, pos, ZobristValues};
use crate::piece::bb;

verus! {

pub type Key = u64;

#[verifier::external_type_specification]
#[verifier::external_body]
pub struct ExThreadRng(rand::rngs::ThreadRng);

/// `rand::rng`: a handle to the generator of the current thread. Nothing is
/// claimed of it.
#[verifier::external_body]
fn thread_generator() -> rand::rngs::ThreadRng {
    rand::rng()
}

/// `Rng::random` at `u64`: the next random word. Nothing is claimed of the
/// value: every word may come out.
#[verifier::external_body]
fn next_value(rng: &mut rand::rngs::ThreadRng) -> u64 {
    rng.random()
}

/// Draws a fresh random value for every entry of `zb`.
pub(crate) fn init_zb_values(zb: &mut ZobristValues) {
    let mut rng = thread_generator();
    let mut draws: Vec<u64> = Vec::with_capacity(ZB_VALUES);
    while draws.len() < ZB_VALUES
        invariant
            draws@.len() <= ZB_VALUES,
        decreases ZB_VALUES - draws@.len(),
    {
        draws.push(next_value(&mut rng));
    }
    fill_zb_values(zb, &draws);
}

/// How many values a table of key values holds: one for the side to move,
/// four for the castling rights, eight for the en-passant files, and one for
/// each of the twelve pieces on each of the 64 squares.
pub const ZB_VALUES: usize = 781;

/// Where the value of the piece with index `index` on square `sq` stands
/// among the values of a table.
pub open spec fn piece_slot(index: int, sq: int) -> int {
    13 + 64 * index + sq
}

/// The table `zb` holds the values of `draws`, each entry a value of its
/// own: first the value for the side to move, then those for the castling
/// rights of white on the king's and on the queen's side and of black on
/// the king's and on the queen's side, then those for the en-passant files
/// from a to h, then those for the pieces, index by index and square by
/// square.
pub open spec fn holds_draws(zb: ZobristValues, draws: Seq<u64>) -> bool {
    &&& draws.len() == ZB_VALUES
    &&& zb.side_value() == draws[0]
    &&& zb.castle_value(pos::WK_CASTLE) == draws[1]
    &&& zb.castle_value(pos::WQ_CASTLE) == draws[2]
    &&& zb.castle_value(pos::BK_CASTLE) == draws[3]
    &&& zb.castle_value(pos::BQ_CASTLE) == draws[4]
    &&& forall|file: int| 0 <= file < 8 ==> #[trigger] zb.ep_value(file) == draws[5 + file]
    &&& forall|index: int, sq: int|
        0 <= index < 12 && 0 <= sq < 64 ==> #[trigger] zb.piece_value(index, sq) == draws[piece_slot(
            index,
            sq,
        )]
}

/// Gives every entry of `zb` its value from `draws`, a value of its own for
/// each entry, in the order that `holds_draws` lays down.
pub fn fill_zb_values(zb: &mut ZobristValues, draws: &Vec<u64>)
    requires
        draws@.len() == ZB_VALUES,
    ensures
        holds_draws(*final(zb), draws@),
{
    zb.black_to_move = draws[0];
    zb.wk_castle = draws[1];
    zb.wq_castle = draws[2];
    zb.bk_castle = draws[3];
    zb.bq_castle = draws[4];
    let mut file: usize = 0;
    while file < 8
        invariant
            file <= 8,
            draws@.len() == ZB_VALUES,
            zb.black_to_move == draws@[0],
            zb.wk_castle == draws@[1],
            zb.wq_castle == draws@[2],
            zb.bk_castle == draws@[3],
            zb.bq_castle == draws@[4],
            forall|f: int| 0 <= f < file ==> zb.ep_files[f] == draws@[5 + f],
        decreases 8 - file,
    {
        zb.ep_files[file] = draws[5 + file];
        file += 1;
    }
    let mut p: usize = 0;
    while p < 12
        invariant
            p <= 12,
            draws@.len() == ZB_VALUES,
            zb.black_to_move == draws@[0],
            zb.wk_castle == draws@[1],
            zb.wq_castle == draws@[2],
            zb.bk_castle == draws@[3],
            zb.bq_castle == draws@[4],
            forall|f: int| 0 <= f < 8 ==> zb.ep_files[f] == draws@[5 + f],
            forall|i: int, s: int|
                0 <= i < p && 0 <= s < 64 ==> zb.piece_sq[i][s] == draws@[piece_slot(i, s)],
        decreases 12 - p,
    {
        let mut sq: usize = 0;
        while sq < 64
            invariant
                sq <= 64,
                p < 12,
                draws@.len() == ZB_VALUES,
                zb.black_to_move == draws@[0],
                zb.wk_castle == draws@[1],
                zb.wq_castle == draws@[2],
                zb.bk_castle == draws@[3],
                zb.bq_castle == draws@[4],
                forall|f: int| 0 <= f < 8 ==> zb.ep_files[f] == draws@[5 + f],
                forall|i: int, s: int|
                    0 <= i < p && 0 <= s < 64 ==> zb.piece_sq[i][s] == draws@[piece_slot(i, s)],
                forall|s: int| 0 <= s < sq ==> zb.piece_sq[p as int][s] == draws@[piece_slot(p as int, s)],
            decreases 64 - sq,
        {
            zb.piece_sq[p][sq] = draws[13 + 64 * p + sq];
            sq += 1;
        }
        p += 1;
    }
}

/// What the piece `p` on square `sq` adds to a key; an empty square adds nothing.
pub open spec fn square_key(zb: ZobristValues, p: piece::Piece, sq: int) -> Key {
    if p == piece::NONE {
        0
    } else {
        zb.piece_value(piece::index_of(p), sq)
    }
}

/// What the squares below `n` add to a key.
pub open spec fn board_key(zb: ZobristValues, board: Seq<piece::Piece>, n: int) -> Key
    decreases n,
{
    if n <= 0 {
        0
    } else {
        board_key(zb, board, n - 1) ^ square_key(zb, board[n - 1], n - 1)
    }
}

/// What the side to move adds to a key: the side value when black moves.
pub open spec fn side_key(zb: ZobristValues, side: color::Color) -> Key {
    if side == color::BLACK {
        zb.side_value()
    } else {
        0
    }
}

/// What the en-passant target adds to a key: the value of its file.
pub open spec fn ep_key(zb: ZobristValues, ep: Option<pos::Square>) -> Key {
    match ep {
        Some(sq) => zb.ep_value(sq as int % 8),
        None => 0,
    }
}

/// What one castling right adds to a key, if `rights` holds it.
pub open spec fn right_key(zb: ZobristValues, rights: pos::CastleRights, right: u8) -> Key {
    if rights & right != 0 {
        zb.castle_value(right)
    } else {
        0
    }
}

/// What the castling rights add to a key.
pub open spec fn castle_key(zb: ZobristValues, rights: pos::CastleRights) -> Key {
    right_key(zb, rights, pos::WK_CASTLE) ^ right_key(zb, rights, pos::WQ_CASTLE) ^ right_key(
        zb,
        rights,
        pos::BK_CASTLE,
    ) ^ right_key(zb, rights, pos::BQ_CASTLE)
}

/// What everything but the board adds to a key.
pub open spec fn rest_key(zb: ZobristValues, st: pos::StateInfo) -> Key {
    side_key(zb, st.side) ^ ep_key(zb, st.ep_square) ^ castle_key(zb, st.castling)
}

/// The key of a state computed from scratch: the values of all pieces on
/// their squares, of the side to move, of the en-passant file and of the
/// castling rights, combined by exclusive or.
pub open spec fn state_key(zb: ZobristValues, st: pos::StateInfo) -> Key {
    board_key(zb, st.board@, 64) ^ rest_key(zb, st)
}

/// The key of `pos` computed from scratch: from the pieces on their
/// squares, the side to move, the en-passant file and the castling rights.
/// Equal positions get equal keys.
pub fn hash(pos: &pos::Position, zb: &ZobristValues) -> (key: Key)
    requires
        pos::pieces_valid(pos.state().board@),
        pos.state().ep_square matches Some(e) ==> e < 64,
    ensures
        key == state_key(*zb, pos.state()),
{
    let mut key: Key = 0;
    let mut sq: usize = 0;
    while sq < 64
        invariant
            sq <= 64,
            pos::pieces_valid(pos.state().board@),
            key == board_key(*zb, pos.state().board@, sq as int),
        decreases 64 - sq,
    {
        if pos.is_occupied(sq) {
            proof {
                piece::lemma_index_of(pos.state().board@[sq as int]);
            }
            key ^= zb.piece_sq[bb::p_to_idx(pos.piece_on(sq))][sq];
        } else {
            proof {
                lemma_xor(key, 0, 0);
            }
        }
        sq += 1;
    }
    let ghost board_part = key;
    if pos.side_to_move() == color::BLACK {
        key ^= zb.black_to_move;
    }
    proof {
        lemma_xor(key, 0, 0);
    }
    let ghost s = side_key(*zb, pos.state().side);
    assert(key == board_part ^ s);
    match pos.ep_square() {
        Some(square) => {
            key ^= zb.ep_files[pos::file_of(square) as usize];
        },
        None => {},
    }
    let ghost e = ep_key(*zb, pos.state().ep_square);
    assert(key == (board_part ^ s) ^ e);
    let rights = pos.castle_rights();
    if rights & pos::WK_CASTLE != 0 {
        key ^= zb.wk_castle;
    }
    if rights & pos::WQ_CASTLE != 0 {
        key ^= zb.wq_castle;
    }
    if rights & pos::BK_CASTLE != 0 {
        key ^= zb.bk_castle;
    }
    if rights & pos::BQ_CASTLE != 0 {
        key ^= zb.bq_castle;
    }
    proof {
        let a = right_key(*zb, rights, pos::WK_CASTLE);
        let b = right_key(*zb, rights, pos::WQ_CASTLE);
        let c = right_key(*zb, rights, pos::BK_CASTLE);
        let d = right_key(*zb, rights, pos::BQ_CASTLE);
        let k = (board_part ^ s) ^ e;
        lemma_xor(k, 0, 0);
        lemma_xor(k ^ a, 0, 0);
        lemma_xor((k ^ a) ^ b, 0, 0);
        lemma_xor(((k ^ a) ^ b) ^ c, 0, 0);
        assert(key == (((k ^ a) ^ b) ^ c) ^ d);
        lemma_chain(board_part, s, e, a, b, c, d);
    }
    key
}

/// The parts of a key may be combined one after the other or grouped.
pub proof fn lemma_chain(p: u64, s: u64, e: u64, a: u64, b: u64, c: u64, d: u64)
    by (bit_vector)
    ensures
        (((((p ^ s) ^ e) ^ a) ^ b) ^ c) ^ d == p ^ ((s ^ e) ^ (((a ^ b) ^ c) ^ d)),
{
}

/// The part of a key that the board does not account for.
pub open spec fn residue(zb: ZobristValues, st: pos::StateInfo) -> Key {
    st.key ^ board_key(zb, st.board@, 64)
}

/// Exclusive or: the few identities that key bookkeeping needs.
pub proof fn lemma_xor(a: u64, b: u64, c: u64)
    by (bit_vector)
    ensures
        a ^ 0 == a,
        0 ^ a == a,
        a ^ a == 0,
        a ^ b == b ^ a,
        (a ^ b) ^ c == a ^ (b ^ c),
        (a ^ b) ^ b == a,
        (a ^ b) ^ c == (a ^ c) ^ b,
        a ^ b == c <==> a == c ^ b,
        a ^ b == c <==> a ^ c == b,
{
}

/// A value that enters both a key and the board's part of it leaves what the
/// board does not account for unchanged.
pub proof fn lemma_xor_cancel(k: u64, b: u64, x: u64)
    by (bit_vector)
    ensures
        (k ^ x) ^ ((b ^ 0) ^ x) == k ^ b,
        (k ^ x) ^ ((b ^ x) ^ 0) == k ^ b,
        (k ^ x) ^ (b ^ x) == k ^ b,
{
}

/// Replacing the piece on one square changes the board's part of a key by
/// the values of the old and of the new piece on that square.
pub proof fn lemma_board_key_update(
    zb: ZobristValues,
    board: Seq<piece::Piece>,
    sq: int,
    p: piece::Piece,
    n: int,
)
    requires
        0 <= sq < 64,
        0 <= n <= 64,
        board.len() == 64,
    ensures
        board_key(zb, board.update(sq, p), n) == if sq < n {
            board_key(zb, board, n) ^ square_key(zb, board[sq], sq) ^ square_key(zb, p, sq)
        } else {
            board_key(zb, board, n)
        },
    decreases n,
{
    if n > 0 {
        lemma_board_key_update(zb, board, sq, p, n - 1);
        let a = board_key(zb, board, n - 1);
        let o = square_key(zb, board[sq], sq);
        let x = square_key(zb, p, sq);
        let c = square_key(zb, board[n - 1], n - 1);
        if n - 1 == sq {
            lemma_xor(a, o, x);
        } else if sq < n - 1 {
            lemma_xor(a ^ o, x, c);
            lemma_xor(a, o, c);
        }
    }
}

/// The key of a state is the key of its content computed from scratch.
pub open spec fn keyed(zb: ZobristValues, st: pos::StateInfo) -> bool {
    st.key == state_key(zb, st)
}

/// A value that enters a key and one of its parts enters nothing else.
pub proof fn lemma_parts(b: u64, s: u64, e: u64, c: u64, d: u64)
    by (bit_vector)
    ensures
        (b ^ ((s ^ e) ^ c)) ^ d == b ^ (((s ^ d) ^ e) ^ c),
        (b ^ ((s ^ e) ^ c)) ^ d == b ^ ((s ^ (e ^ d)) ^ c),
        (b ^ ((s ^ e) ^ c)) ^ d == b ^ ((s ^ e) ^ (c ^ d)),
{
}

/// A value that enters one of the four parts of the rights enters their key.
pub proof fn lemma_four(a: u64, b: u64, c: u64, d: u64, x: u64)
    by (bit_vector)
    ensures
        (((a ^ x) ^ b) ^ c) ^ d == (((a ^ b) ^ c) ^ d) ^ x,
        ((a ^ (b ^ x)) ^ c) ^ d == (((a ^ b) ^ c) ^ d) ^ x,
        ((a ^ b) ^ (c ^ x)) ^ d == (((a ^ b) ^ c) ^ d) ^ x,
        ((a ^ b) ^ c) ^ (d ^ x) == (((a ^ b) ^ c) ^ d) ^ x,
        x ^ x == 0,
        x ^ 0 == x,
        0 ^ x == x,
{
}

/// Giving up one right changes the key of the rights by the value of that
/// right if it was held, and not at all otherwise.
pub proof fn lemma_castle_lose(zb: ZobristValues, rights: pos::CastleRights, right: u8)
    requires
        right == pos::NO_CASTLING || right == pos::WK_CASTLE || right == pos::WQ_CASTLE || right
            == pos::BK_CASTLE || right == pos::BQ_CASTLE,
    ensures
        castle_key(zb, rights & !right) == castle_key(zb, rights) ^ right_key(zb, rights, right),
{
    pos::lemma_rights(rights);
    let a = right_key(zb, rights, pos::WK_CASTLE);
    let b = right_key(zb, rights, pos::WQ_CASTLE);
    let c = right_key(zb, rights, pos::BK_CASTLE);
    let d = right_key(zb, rights, pos::BQ_CASTLE);
    let x = right_key(zb, rights, right);
    lemma_four(a, b, c, d, x);
    lemma_four(a, b, c, d, 0);
    lemma_xor(castle_key(zb, rights), 0, 0);
}

/// A step that changes the key and one of side, en-passant target and
/// rights by the same value keeps the key in line with the content.
pub proof fn lemma_keyed_step(zb: ZobristValues, a: pos::StateInfo, b: pos::StateInfo, d: u64)
    requires
        keyed(zb, a),
        b.board == a.board,
        b.key == a.key ^ d,
        ({
            ||| (side_key(zb, b.side) == side_key(zb, a.side) ^ d && b.ep_square == a.ep_square
                && b.castling == a.castling)
            ||| (ep_key(zb, b.ep_square) == ep_key(zb, a.ep_square) ^ d && b.side == a.side
                && b.castling == a.castling)
            ||| (castle_key(zb, b.castling) == castle_key(zb, a.castling) ^ d && b.side == a.side
                && b.ep_square == a.ep_square)
        }),
    ensures
        keyed(zb, b),
{
    lemma_parts(
        board_key(zb, a.board@, 64),
        side_key(zb, a.side),
        ep_key(zb, a.ep_square),
        castle_key(zb, a.castling),
        d,
    );
}

/// A step that leaves untouched what the board does not account for, and
/// side, en-passant target and rights with it, keeps the key in line.
pub proof fn lemma_keyed_board(zb: ZobristValues, a: pos::StateInfo, b: pos::StateInfo)
    requires
        keyed(zb, a),
        residue(zb, b) == residue(zb, a),
        b.side == a.side,
        b.ep_square == a.ep_square,
        b.castling == a.castling,
    ensures
        keyed(zb, b),
{
    lemma_residue(zb, a);
    lemma_residue(zb, b);
}

/// A state carries the key of its content exactly when the board accounts
/// for all of the key but the part of side, en-passant file and rights.
pub proof fn lemma_residue(zb: ZobristValues, st: pos::StateInfo)
    ensures
        st.key == state_key(zb, st) <==> residue(zb, st) == rest_key(zb, st),
{
    lemma_xor(st.key, board_key(zb, st.board@, 64), rest_key(zb, st));
    lemma_xor(board_key(zb, st.board@, 64), rest_key(zb, st), st.key);
}

} // verus!
