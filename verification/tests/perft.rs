use libchess::moves::{gen_legal, is_orderly};
use libchess::perft::perft;
use libchess::pos::{Position, START_FEN};
use libchess::{init, AttackMasks, ZobristValues};

fn count_by_hand(pos: &mut Position, depth: u32, masks: &AttackMasks, zb: &ZobristValues) -> i64 {
    if depth == 0 {
        return 1;
    }
    let mut nodes = 0;
    for mov in gen_legal(pos, masks, zb) {
        pos.make_move(mov, zb);
        nodes += count_by_hand(pos, depth - 1, masks, zb);
        pos.unmake_move();
    }
    nodes
}

fn nodes_from(fen: &str, depth: i32) -> i64 {
    let (masks, zb) = init();
    let mut pos = Position::from_fen(fen, &zb);
    assert!(is_orderly(&pos, &masks, &zb));
    let before = pos.clone();
    let nodes = perft(&mut pos, depth, &masks, &zb).unwrap();
    assert_eq!(pos, before);
    nodes
}

#[test]
fn start_position_depth_1() {
    assert_eq!(nodes_from(START_FEN, 1), 20);
}

#[test]
fn start_position_depth_2() {
    assert_eq!(nodes_from(START_FEN, 2), 400);
}

#[test]
fn start_position_depth_3() {
    assert_eq!(nodes_from(START_FEN, 3), 8902);
}

#[test]
fn start_position_depth_4() {
    assert_eq!(nodes_from(START_FEN, 4), 197281);
}

#[test]
fn castles_and_pins_depth_1() {
    let fen = "r3k2r/p1ppqpb1/bn2pnp1/3PN3/1p2P3/2N2Q1p/PPPBBPPP/R3K2R w KQkq - 0 1";
    assert_eq!(nodes_from(fen, 1), 48);
}

#[test]
fn castles_and_pins_depth_2() {
    let fen = "r3k2r/p1ppqpb1/bn2pnp1/3PN3/1p2P3/2N2Q1p/PPPBBPPP/R3K2R w KQkq - 0 1";
    assert_eq!(nodes_from(fen, 2), 2039);
}

#[test]
fn castles_and_pins_depth_3() {
    let fen = "r3k2r/p1ppqpb1/bn2pnp1/3PN3/1p2P3/2N2Q1p/PPPBBPPP/R3K2R w KQkq - 0 1";
    assert_eq!(nodes_from(fen, 3), 97862);
}

#[test]
fn en_passant_along_the_rank_depth_1_to_4() {
    let fen = "8/2p5/3p4/KP5r/1R3p1k/8/4P1P1/8 w - - 0 1";
    assert_eq!(nodes_from(fen, 1), 14);
    assert_eq!(nodes_from(fen, 2), 191);
    assert_eq!(nodes_from(fen, 3), 2812);
    assert_eq!(nodes_from(fen, 4), 43238);
}

#[test]
fn promotions_under_check_depth_1_to_3() {
    let fen = "r3k2r/Pppp1ppp/1b3nbN/nP6/BBP1P3/q4N2/Pp1P2PP/R2Q1RK1 w kq - 0 1";
    assert_eq!(nodes_from(fen, 1), 6);
    assert_eq!(nodes_from(fen, 2), 264);
    assert_eq!(nodes_from(fen, 3), 9467);
}

#[test]
fn promotion_with_capture_depth_1_to_3() {
    let fen = "rnbq1k1r/pp1Pbppp/2p5/8/2B5/8/PPP1NnPP/RNBQK2R w KQ - 1 8";
    assert_eq!(nodes_from(fen, 1), 44);
    assert_eq!(nodes_from(fen, 2), 1486);
    assert_eq!(nodes_from(fen, 3), 62379);
}

#[test]
fn start_position_depth_5() {
    assert_eq!(nodes_from(START_FEN, 5), 4865609);
}

#[test]
fn start_position_depth_6() {
    assert_eq!(nodes_from(START_FEN, 6), 119060324);
}

#[test]
fn depth_0_counts_the_position_itself() {
    assert_eq!(nodes_from(START_FEN, 0), 1);
    assert_eq!(nodes_from("7k/6Q1/6K1/8/8/8/8/8 b - - 0 1", 0), 1);
    assert_eq!(nodes_from("7k/6Q1/6K1/8/8/8/8/8 b - - 0 1", 1), 0);
    assert_eq!(nodes_from("7k/6Q1/6K1/8/8/8/8/8 b - - 0 1", 3), 0);
}

#[test]
fn counting_agrees_with_playing_every_move() {
    let (masks, zb) = init();
    let fens = [
        START_FEN,
        "r3k2r/p1ppqpb1/bn2pnp1/3PN3/1p2P3/2N2Q1p/PPPBBPPP/R3K2R w KQkq - 0 1",
        "8/2p5/3p4/KP5r/1R3p1k/8/4P1P1/8 w - - 0 1",
    ];
    for fen in fens {
        let mut pos = Position::from_fen(fen, &zb);
        for depth in 1..4 {
            let by_hand = count_by_hand(&mut pos, depth, &masks, &zb);
            assert_eq!(perft(&mut pos, depth as i32, &masks, &zb), Some(by_hand));
        }
    }
}

#[test]
fn test_main() {
    let (masks, zb) = init();
    let mut pos = Position::from_fen(START_FEN, &zb);

    let timer = std::time::Instant::now();
    let nodes = perft(&mut pos, 6, &masks, &zb);
    println!("perft took {}s", timer.elapsed().as_secs_f32());
    assert_eq!(nodes, Some(119060324));
}
