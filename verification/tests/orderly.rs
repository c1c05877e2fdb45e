use libchess::moves::{gen_legal, is_orderly, is_playable, Move, MoveType};
use libchess::piece::bb::is_attacked;
use libchess::pos::{Position, START_FEN};
use libchess::zobrist::hash;
use libchess::{color, init, piece};

#[test]
fn usual_positions_are_orderly() {
    let (masks, zb) = init();
    let fens = [
        START_FEN,
        "r3k2r/p1ppqpb1/bn2pnp1/3PN3/1p2P3/2N2Q1p/PPPBBPPP/R3K2R w KQkq - 0 1",
        "8/2p5/3p4/KP5r/1R3p1k/8/4P1P1/8 w - - 0 1",
        "rnbqkbnr/ppp1p1pp/8/3pPp2/8/8/PPPP1PPP/RNBQKBNR w KQkq f6 0 3",
        "rnbq1k1r/pp1Pbppp/2p5/8/2B5/8/PPP1NnPP/RNBQK2R w KQ - 1 8",
    ];
    for fen in fens {
        let pos = Position::from_fen(fen, &zb);
        assert!(is_orderly(&pos, &masks, &zb));
        assert!(is_playable(&pos));
    }
}

#[test]
fn disorderly_positions_are_told_apart() {
    let (masks, zb) = init();
    let not_orderly = [
        "8/8/8/8/8/8/8/4K3 w - - 0 1",
        "4k3/8/8/8/8/8/8/8 w - - 0 1",
        "4k3/8/8/8/8/8/8/3KK3 w - - 0 1",
        "4k3/8/8/8/8/8/8/4K2R w Q - 0 1",
        "4k3/8/8/8/8/8/8/R4K2 w Q - 0 1",
        "4k3/8/8/8/8/8/8/4K3 w k - 0 1",
        "3Pk3/8/8/8/8/8/8/4K3 w - - 0 1",
        "4k3/8/8/8/8/8/8/3pK3 w - - 0 1",
        "4k3/4R3/8/8/8/8/8/4K3 w - - 0 1",
        "4k3/8/8/8/8/8/8/4K3 w - e6 0 1",
        "4k3/8/8/4p3/8/8/8/4K3 w - e3 0 1",
        "4k3/4p3/8/4p3/8/8/8/4K3 w - e6 0 1",
        "1b2k3/8/8/3Pp3/8/8/7K/8 w - e6 0 1",
    ];
    for fen in not_orderly {
        let pos = Position::from_fen(fen, &zb);
        assert!(!is_orderly(&pos, &masks, &zb), "{fen}");
    }
    assert!(!is_orderly(&Position::blank(), &masks, &zb));
    assert!(!is_playable(&Position::blank()));
    let no_rook = Position::from_fen("4k3/8/8/8/8/8/8/4K3 w K - 0 1", &zb);
    assert!(!is_playable(&no_rook));
    let in_order = Position::from_fen("4k3/8/8/3Pp3/8/8/7K/8 w - e6 0 1", &zb);
    assert!(is_orderly(&in_order, &masks, &zb));
}

#[test]
fn games_stay_orderly() {
    let (masks, zb) = init();
    let fens = [
        START_FEN,
        "r3k2r/p1ppqpb1/bn2pnp1/3PN3/1p2P3/2N2Q1p/PPPBBPPP/R3K2R w KQkq - 0 1",
        "rnbq1k1r/pp1Pbppp/2p5/8/2B5/8/PPP1NnPP/RNBQK2R w KQ - 1 8",
    ];
    let mut pick: usize = 12345;
    for fen in fens {
        for game in 0..20 {
            let mut pos = Position::from_fen(fen, &zb);
            for _ply in 0..80 {
                let moves = gen_legal(&mut pos, &masks, &zb);
                if moves.is_empty() || pos.rule50() == 255 {
                    break;
                }
                pick = pick
                    .wrapping_mul(6364136223846793005)
                    .wrapping_add(1442695040888963407 + game);
                let mov = moves[(pick >> 33) % moves.len()];
                pos.make_move(mov, &zb);
                assert!(is_orderly(&pos, &masks, &zb));
                assert_eq!(pos.key(), hash(&pos, &zb));
            }
            while !pos.history().is_empty() {
                pos.unmake_move();
            }
            assert_eq!(pos, Position::from_fen(fen, &zb));
        }
    }
}

#[test]
fn en_passant_that_uncovers_the_king_is_outside_orderly_play() {
    let (masks, zb) = init();
    let mut pos = Position::from_fen("1b2k3/8/8/3Pp3/8/8/7K/8 w - e6 0 1", &zb);
    assert!(is_playable(&pos));
    assert!(!is_orderly(&pos, &masks, &zb));
    let capture = Move::new(35, 44, MoveType::EnPassant);
    let moves = gen_legal(&mut pos, &masks, &zb);
    assert!(moves.contains(&capture));
    pos.make_move(capture, &zb);
    let king = pos.piece_bb(piece::WHITE_KING).trailing_zeros() as usize;
    assert!(is_attacked(king, &pos, color::BLACK, &masks));
}
