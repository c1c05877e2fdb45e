use libchess::piece::bb::{
    anti_diag_mask, blockers_from_idx, c_to_idx, diag_mask, east, file_mask, no_ea, no_we, north,
    p_to_idx, rank_mask, so_ea, so_we, south, walk_to_blocker, west, BitboardUtil, FILE_A_MASK,
    FILE_H_MASK, RANK_1_MASK, RANK_8_MASK,
};
use libchess::{color, piece};

#[test]
fn lowest_bit_is_isolated() {
    assert_eq!(0b1011000u64.ls1b(), 0b1000);
    assert_eq!(0u64.ls1b(), 0);
    assert_eq!((1u64 << 63).ls1b(), 1u64 << 63);
}

#[test]
fn serialize_once_pops_lowest_square() {
    let mut b: u64 = (1 << 5) | (1 << 17) | (1 << 63);
    assert_eq!(b.serialize_once(), 5);
    assert_eq!(b, (1 << 17) | (1 << 63));
    assert_eq!(b.serialize_once(), 17);
    assert_eq!(b.serialize_once(), 63);
    assert_eq!(b, 0);
    assert_eq!(b.serialize_once(), 64);
    assert_eq!(b, 0);
}

#[test]
fn serialize_to_vec_appends_in_ascending_order() {
    let mut v = vec![99usize];
    ((1u64 << 40) | (1u64 << 3) | (1u64 << 12)).serialize_to_vec(&mut v);
    assert_eq!(v, vec![99, 3, 12, 40]);
}

#[test]
fn serialize_to_arr_counts_squares() {
    let (arr, cnt) = ((1u64 << 7) | (1u64 << 8)).serialize_to_arr();
    assert_eq!(cnt, 2);
    assert_eq!(arr[0], 7);
    assert_eq!(arr[1], 8);
    assert_eq!(arr[2], 0);
    let (full, all) = u64::MAX.serialize_to_arr();
    assert_eq!(all, 64);
    assert_eq!(full[63], 63);
}

#[test]
fn set_and_pop_bit() {
    let mut b: u64 = 0;
    assert_eq!(b.set_bit(10), 1 << 10);
    assert_eq!(b.set_bit(10), 1 << 10);
    assert_eq!(b.set_bit(0), (1 << 10) | 1);
    assert_eq!(b.pop_bit(10), 1);
    assert_eq!(b.pop_bit(10), 1);
    assert_eq!(b, 1);
}

#[test]
fn piece_and_colour_indices() {
    assert_eq!(p_to_idx(piece::WHITE_PAWN), 0);
    assert_eq!(p_to_idx(piece::WHITE_KING), 5);
    assert_eq!(p_to_idx(piece::BLACK_PAWN), 6);
    assert_eq!(p_to_idx(piece::BLACK_QUEEN), 10);
    assert_eq!(p_to_idx(piece::BLACK_KING), 11);
    assert_eq!(p_to_idx(piece::NONE), 8);
    assert_eq!(c_to_idx(color::WHITE), 0);
    assert_eq!(c_to_idx(color::BLACK), 1);
    assert_eq!(c_to_idx(color::NONE), 0);
}

#[test]
fn line_masks() {
    assert_eq!(file_mask(0), FILE_A_MASK);
    assert_eq!(file_mask(63), FILE_H_MASK);
    assert_eq!(file_mask(12), FILE_A_MASK << 4);
    assert_eq!(rank_mask(3), RANK_1_MASK);
    assert_eq!(rank_mask(60), RANK_8_MASK);
    assert_eq!(rank_mask(17), 0xFF0000);
    assert_eq!(diag_mask(0), 0x8040201008040201);
    assert_eq!(diag_mask(63), 0x8040201008040201);
    assert_eq!(diag_mask(7), 0x80);
    assert_eq!(diag_mask(56), 0x0100000000000000);
    assert_eq!(diag_mask(1), 0x0080402010080402);
    assert_eq!(anti_diag_mask(7), 0x0102040810204080);
    assert_eq!(anti_diag_mask(0), 0x1);
    assert_eq!(anti_diag_mask(63), 0x8000000000000000);
    assert_eq!(anti_diag_mask(8), 0x0102);
}

#[test]
fn shifts_move_one_square() {
    let e4: u64 = 1 << 28;
    assert_eq!(north(e4), 1 << 36);
    assert_eq!(south(e4), 1 << 20);
    assert_eq!(east(e4), 1 << 29);
    assert_eq!(west(e4), 1 << 27);
    assert_eq!(no_ea(e4), 1 << 37);
    assert_eq!(no_we(e4), 1 << 35);
    assert_eq!(so_ea(e4), 1 << 21);
    assert_eq!(so_we(e4), 1 << 19);
    assert_eq!(north(RANK_8_MASK), 0);
    assert_eq!(south(RANK_1_MASK), 0);
}

#[test]
fn walk_stops_on_blocker_and_on_edge() {
    assert_eq!(
        walk_to_blocker(0, 1 << 24, RANK_8_MASK, 8),
        1 | (1 << 8) | (1 << 16) | (1 << 24)
    );
    assert_eq!(walk_to_blocker(5, 0, FILE_H_MASK, 1), (1 << 5) | (1 << 6) | (1 << 7));
    assert_eq!(walk_to_blocker(7, 0, FILE_H_MASK, 1), 1 << 7);
    assert_eq!(
        walk_to_blocker(63, 0, FILE_A_MASK | RANK_1_MASK, -9),
        0x8040201008040201
    );
}

#[test]
fn blockers_follow_the_index_bits() {
    let attacks: u64 = (1 << 9) | (1 << 10) | (1 << 11) | (1 << 15);
    assert_eq!(blockers_from_idx(0, attacks), 0);
    assert_eq!(blockers_from_idx(0b0001, attacks), 1 << 9);
    assert_eq!(blockers_from_idx(0b0101, attacks), (1 << 9) | (1 << 11));
    assert_eq!(blockers_from_idx(0b1000, attacks), 0);
    assert_eq!(blockers_from_idx(0b1111, attacks), (1 << 9) | (1 << 10) | (1 << 11));
}
