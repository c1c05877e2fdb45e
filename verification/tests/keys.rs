use libchess::moves::{Move, MoveType};
use libchess::pos::Position;
use libchess::zobrist::{fill_zb_values, hash, ZB_VALUES};
use libchess::{init, ZobristValues};

fn known_values() -> (ZobristValues, Vec<u64>) {
    let (_masks, mut zb) = init();
    let mut draws = Vec::new();
    let mut next: u64 = 0x2545F4914F6CDD1D;
    for _ in 0..ZB_VALUES {
        next ^= next << 13;
        next ^= next >> 7;
        next ^= next << 17;
        draws.push(next);
    }
    fill_zb_values(&mut zb, &draws);
    (zb, draws)
}

fn slot(index: usize, sq: usize) -> usize {
    13 + 64 * index + sq
}

#[test]
fn table_has_a_value_for_every_entry() {
    assert_eq!(ZB_VALUES, 1 + 4 + 8 + 12 * 64);
    assert_eq!(slot(11, 63), ZB_VALUES - 1);
}

#[test]
fn key_is_built_from_the_values_of_the_table() {
    let (zb, d) = known_values();
    let kings = Position::from_fen("4k3/8/8/8/8/8/8/4K3 w - - 0 1", &zb);
    assert_eq!(kings.key(), d[slot(5, 4)] ^ d[slot(11, 60)]);
    let black = Position::from_fen("4k3/8/8/8/8/8/8/4K3 b - - 0 1", &zb);
    assert_eq!(black.key(), d[slot(5, 4)] ^ d[slot(11, 60)] ^ d[0]);
    let rook = Position::from_fen("4k3/8/8/8/8/8/8/4K2R w K - 0 1", &zb);
    assert_eq!(rook.key(), d[slot(5, 4)] ^ d[slot(11, 60)] ^ d[slot(3, 7)] ^ d[1]);
    let all = Position::from_fen("r3k2r/8/8/8/8/8/8/R3K2R w KQkq - 0 1", &zb);
    let pieces = d[slot(3, 0)]
        ^ d[slot(5, 4)]
        ^ d[slot(3, 7)]
        ^ d[slot(9, 56)]
        ^ d[slot(11, 60)]
        ^ d[slot(9, 63)];
    assert_eq!(all.key(), pieces ^ d[1] ^ d[2] ^ d[3] ^ d[4]);
    let target = Position::from_fen("4k3/8/8/3pP3/8/8/8/4K3 w - d6 0 1", &zb);
    assert_eq!(
        target.key(),
        d[slot(5, 4)] ^ d[slot(11, 60)] ^ d[slot(0, 36)] ^ d[slot(6, 35)] ^ d[5 + 3]
    );
    assert_eq!(hash(&target, &zb), target.key());
}

#[test]
fn key_follows_the_moves_value_by_value() {
    let (zb, d) = known_values();
    let mut pos = Position::from_fen("r3k2r/8/8/8/8/8/4P3/R3K2R w KQkq - 0 1", &zb);
    let start = pos.key();
    pos.make_move(Move::new(12, 28, MoveType::PawnTwoUp), &zb);
    let after_push = start ^ d[slot(0, 12)] ^ d[slot(0, 28)] ^ d[5 + 4] ^ d[0];
    assert_eq!(pos.key(), after_push);
    pos.make_move(Move::new(60, 62, MoveType::KingSideCastle), &zb);
    let after_castle = after_push
        ^ d[5 + 4]
        ^ d[slot(11, 60)]
        ^ d[slot(11, 62)]
        ^ d[slot(9, 63)]
        ^ d[slot(9, 61)]
        ^ d[3]
        ^ d[4]
        ^ d[0];
    assert_eq!(pos.key(), after_castle);
    pos.make_move(Move::new(7, 63, MoveType::Normal), &zb);
    assert_eq!(
        pos.key(),
        after_castle ^ d[slot(3, 7)] ^ d[slot(3, 63)] ^ d[1] ^ d[0]
    );
    assert_eq!(pos.key(), hash(&pos, &zb));
}

#[test]
fn fresh_tables_differ() {
    let (_m1, zb1) = init();
    let (_m2, zb2) = init();
    let a = Position::from_fen("r3k2r/8/8/8/8/8/4P3/R3K2R b KQkq - 0 1", &zb1);
    let b = Position::from_fen("r3k2r/8/8/8/8/8/4P3/R3K2R b KQkq - 0 1", &zb2);
    assert_ne!(a.key(), b.key());
    assert_ne!(a.key(), 0);
}
