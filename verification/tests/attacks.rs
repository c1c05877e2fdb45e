use libchess::piece::bb::{attackers_of, is_attacked};
use libchess::pos::{Position, START_FEN};
use libchess::{color, init};

fn ray_cast(occupied: u64, from: usize, dirs: &[(i32, i32)]) -> u64 {
    let mut out = 0u64;
    for &(df, dr) in dirs {
        let mut f = (from % 8) as i32 + df;
        let mut r = (from / 8) as i32 + dr;
        while (0..8).contains(&f) && (0..8).contains(&r) {
            let sq = (r * 8 + f) as usize;
            out |= 1 << sq;
            if occupied & (1 << sq) != 0 {
                break;
            }
            f += df;
            r += dr;
        }
    }
    out
}

#[test]
fn knight_in_the_corner_attacks_two_squares() {
    let (masks, _zb) = init();
    assert_eq!(masks.knight_attacks(0), (1u64 << 10) | (1u64 << 17));
    assert_eq!(masks.knight_attacks(63), (1u64 << 46) | (1u64 << 53));
}

#[test]
fn king_and_pawn_tables() {
    let (masks, _zb) = init();
    assert_eq!(masks.king_attacks(0), (1 << 1) | (1 << 8) | (1 << 9));
    assert_eq!(masks.king_attacks(28).count_ones(), 8);
    assert_eq!(masks.pawn_attacks(color::WHITE, 8), 1 << 17);
    assert_eq!(masks.pawn_attacks(color::WHITE, 12), (1 << 19) | (1 << 21));
    assert_eq!(masks.pawn_attacks(color::BLACK, 52), (1 << 43) | (1 << 45));
    assert_eq!(masks.pawn_attacks(color::WHITE, 60), 0);
    assert_eq!(masks.pawn_attacks(color::BLACK, 3), 0);
}

#[test]
fn rays_are_the_lines_without_the_square() {
    let (masks, _zb) = init();
    assert_eq!(masks.rook_rays(0), 0x01010101010101FE);
    assert_eq!(masks.bishop_rays(0), 0x8040201008040200);
    assert_eq!(masks.queen_rays(0), 0x01010101010101FE | 0x8040201008040200);
    for sq in 0..64 {
        assert_eq!(masks.rook_rays(sq).count_ones(), 14);
        assert_eq!(masks.rook_rays(sq) & (1 << sq), 0);
        assert_eq!(masks.bishop_rays(sq) & (1 << sq), 0);
    }
}

#[test]
fn rook_walk_stops_on_first_blocker() {
    let (masks, _zb) = init();
    let occupied = (1u64 << 3) | (1u64 << 24) | (1u64 << 40);
    let expected =
        (1u64 << 1) | (1u64 << 2) | (1u64 << 3) | (1u64 << 8) | (1u64 << 16) | (1u64 << 24);
    assert_eq!(masks.rook_attacks_rt(0, occupied), expected);
}

#[test]
fn sliders_agree_with_a_square_by_square_cast() {
    let (masks, _zb) = init();
    let orth = [(0, 1), (0, -1), (1, 0), (-1, 0)];
    let diag = [(1, 1), (1, -1), (-1, 1), (-1, -1)];
    let mut occupied: u64 = 0x9E3779B97F4A7C15;
    for round in 0..200 {
        occupied ^= occupied << 13;
        occupied ^= occupied >> 7;
        occupied ^= occupied << 17;
        let occ = if round % 3 == 0 { occupied & (occupied >> 3) } else { occupied };
        for sq in 0..64 {
            assert_eq!(masks.rook_attacks_rt(sq, occ), ray_cast(occ, sq, &orth));
            assert_eq!(masks.bishop_attacks_rt(sq, occ), ray_cast(occ, sq, &diag));
            assert_eq!(
                masks.queen_attacks_rt(sq, occ),
                ray_cast(occ, sq, &orth) | ray_cast(occ, sq, &diag)
            );
        }
    }
}

#[test]
fn attackers_in_the_start_position() {
    let (masks, zb) = init();
    let pos = Position::from_fen(START_FEN, &zb);
    assert_eq!(attackers_of(20, &pos, color::WHITE, &masks), (1 << 11) | (1 << 13));
    assert_eq!(attackers_of(18, &pos, color::WHITE, &masks), (1 << 9) | (1 << 11) | (1 << 1));
    assert!(is_attacked(20, &pos, color::WHITE, &masks));
    assert!(!is_attacked(28, &pos, color::WHITE, &masks));
    assert!(is_attacked(44, &pos, color::BLACK, &masks));
    assert!(!is_attacked(44, &pos, color::WHITE, &masks));
    assert_eq!(attackers_of(28, &pos, color::BLACK, &masks), 0);
}

#[test]
fn check_is_seen_through_empty_squares_only() {
    let (masks, zb) = init();
    let open = Position::from_fen("4k3/8/8/8/8/8/8/r3K3 w - - 0 1", &zb);
    assert!(open.is_check(&masks));
    let blocked = Position::from_fen("4k3/8/8/8/8/8/8/r1N1K3 w - - 0 1", &zb);
    assert!(!blocked.is_check(&masks));
    let knight = Position::from_fen("4k3/8/8/8/8/3n4/8/4K3 w - - 0 1", &zb);
    assert!(knight.is_check(&masks));
    let pawn = Position::from_fen("4k3/8/8/8/8/8/3p4/4K3 w - - 0 1", &zb);
    assert!(pawn.is_check(&masks));
    let own_pawn_direction = Position::from_fen("4k3/3P4/8/8/8/8/8/4K3 b - - 0 1", &zb);
    assert!(own_pawn_direction.is_check(&masks));
}
