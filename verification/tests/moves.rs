use libchess::moves::{
    bishop_or_queen_moves, gen_legal, king_moves, knight_moves, pawn_moves, rook_or_queen_moves,
    Move, MoveType,
};
use libchess::piece::bb::is_attacked;
use libchess::pos::{Position, START_FEN};
use libchess::{color, init, piece, AttackMasks};

fn pseudo_legal(pos: &Position, masks: &AttackMasks) -> Vec<Move> {
    let mut moves = Vec::new();
    pawn_moves(pos, &mut moves, masks);
    knight_moves(pos, &mut moves, masks);
    rook_or_queen_moves(pos, &mut moves, masks);
    bishop_or_queen_moves(pos, &mut moves, masks);
    king_moves(pos, &mut moves, masks);
    moves
}

fn has(moves: &[Move], from: usize, to: usize, kind: MoveType) -> bool {
    moves.iter().any(|m| m.from_sq() == from && m.to_sq() == to && m.type_of() == kind)
}

#[test]
fn move_keeps_what_it_was_made_of() {
    let m = Move::new(12, 28, MoveType::PawnTwoUp);
    assert_eq!(m.from_sq(), 12);
    assert_eq!(m.to_sq(), 28);
    assert_eq!(m.type_of(), MoveType::PawnTwoUp);
    assert!(m.is_reversible());
}

#[test]
fn moves_are_written_as_text() {
    assert_eq!(Move::new(12, 28, MoveType::PawnTwoUp).to_uci_fmt(), "e2e4");
    assert_eq!(Move::new(52, 60, MoveType::Promotion(piece::WHITE_QUEEN)).to_uci_fmt(), "e7e8q");
    assert_eq!(
        Move::new(9, 0, MoveType::PromoCapture(piece::BLACK_KNIGHT, piece::WHITE_ROOK)).to_uci_fmt(),
        "b2a1n"
    );
    assert_eq!(Move::new(4, 6, MoveType::KingSideCastle).to_uci_fmt(), "e1g1");
}

#[test]
fn moves_are_read_from_text() {
    let (_masks, zb) = init();
    let start = Position::from_fen(START_FEN, &zb);
    assert_eq!(Move::from_str_move("e2e4", &start), Move::new(12, 28, MoveType::PawnTwoUp));
    assert_eq!(Move::from_str_move("  e2e3 \n", &start), Move::new(12, 20, MoveType::Normal));
    assert_eq!(Move::from_str_move("g1f3", &start), Move::new(6, 21, MoveType::Normal));
    let pos = Position::from_fen("r3k2r/1P6/8/3pP3/8/8/8/R3K2R w KQkq d6 0 1", &zb);
    assert_eq!(Move::from_str_move("e1g1", &pos), Move::new(4, 6, MoveType::KingSideCastle));
    assert_eq!(Move::from_str_move("e1c1", &pos), Move::new(4, 2, MoveType::QueenSideCastle));
    assert_eq!(Move::from_str_move("e5d6", &pos), Move::new(36, 43, MoveType::EnPassant));
    assert_eq!(
        Move::from_str_move("a1a8", &pos),
        Move::new(0, 56, MoveType::Capture(piece::BLACK_ROOK))
    );
    assert_eq!(
        Move::from_str_move("b7b8q", &pos),
        Move::new(49, 57, MoveType::Promotion(piece::WHITE_QUEEN))
    );
    assert_eq!(
        Move::from_str_move("b7a8=N", &pos),
        Move::new(49, 56, MoveType::PromoCapture(piece::WHITE_KNIGHT, piece::BLACK_ROOK))
    );
    assert_eq!(Move::from_str_move("e1f1", &pos), Move::new(4, 5, MoveType::Normal));
}

#[test]
fn unreadable_move_text_is_refused() {
    let (_masks, zb) = init();
    let start = Position::from_fen(START_FEN, &zb);
    assert_eq!(Move::try_from_str_move(" e2e4 ", &start), Some(Move::new(12, 28, MoveType::PawnTwoUp)));
    assert_eq!(Move::try_from_str_move("e2e", &start), None);
    assert_eq!(Move::try_from_str_move("e2e4qqq", &start), None);
    assert_eq!(Move::try_from_str_move("i2e4", &start), None);
    assert_eq!(Move::try_from_str_move("e2e9", &start), None);
    assert_eq!(Move::try_from_str_move("", &start), None);
}

#[test]
fn text_round_trip_for_generated_moves() {
    let (masks, zb) = init();
    let fens = [
        START_FEN,
        "r3k2r/p1ppqpb1/bn2pnp1/3PN3/1p2P3/2N2Q1p/PPPBBPPP/R3K2R w KQkq - 0 1",
        "rnbq1k1r/pp1Pbppp/2p5/8/2B5/8/PPP1NnPP/RNBQK2R w KQ - 1 8",
        "rnbqkbnr/ppp1p1pp/8/3pPp2/8/8/PPPP1PPP/RNBQKBNR w KQkq f6 0 3",
    ];
    for fen in fens {
        let mut pos = Position::from_fen(fen, &zb);
        for mov in gen_legal(&mut pos, &masks, &zb) {
            assert_eq!(Move::from_str_move(&mov.to_uci_fmt(), &pos), mov);
        }
    }
}

#[test]
fn start_position_has_twenty_moves() {
    let (masks, zb) = init();
    let mut pos = Position::from_fen(START_FEN, &zb);
    let before = pos.clone();
    let moves = gen_legal(&mut pos, &masks, &zb);
    assert_eq!(pos, before);
    assert_eq!(moves.len(), 20);
    assert!(has(&moves, 12, 28, MoveType::PawnTwoUp));
    assert!(has(&moves, 12, 20, MoveType::Normal));
    assert!(has(&moves, 1, 18, MoveType::Normal));
    assert!(!has(&moves, 4, 12, MoveType::Normal));
    for (i, a) in moves.iter().enumerate() {
        for b in &moves[i + 1..] {
            assert_ne!(a, b);
        }
    }
}

#[test]
fn pawn_moves_cover_captures_promotions_and_en_passant() {
    let (masks, zb) = init();
    let pos = Position::from_fen("3r4/4P3/8/1pP5/8/5n2/4P1P1/4K2k w - b6 0 1", &zb);
    let mut moves = Vec::new();
    pawn_moves(&pos, &mut moves, &masks);
    assert!(has(&moves, 34, 41, MoveType::EnPassant));
    assert!(has(&moves, 34, 42, MoveType::Normal));
    assert!(has(&moves, 12, 21, MoveType::Capture(piece::BLACK_KNIGHT)));
    assert!(has(&moves, 14, 21, MoveType::Capture(piece::BLACK_KNIGHT)));
    assert!(has(&moves, 12, 20, MoveType::Normal));
    assert!(has(&moves, 12, 28, MoveType::PawnTwoUp));
    assert!(has(&moves, 14, 30, MoveType::PawnTwoUp));
    for p in [piece::WHITE_QUEEN, piece::WHITE_ROOK, piece::WHITE_BISHOP, piece::WHITE_KNIGHT] {
        assert!(has(&moves, 52, 60, MoveType::Promotion(p)));
        assert!(has(&moves, 52, 59, MoveType::PromoCapture(p, piece::BLACK_ROOK)));
    }
    assert_eq!(moves.len(), 8 + 8);
    let first_promo = moves.iter().position(|m| m.from_sq() == 52).unwrap();
    assert_eq!(
        moves[first_promo].type_of(),
        MoveType::PromoCapture(piece::WHITE_QUEEN, piece::BLACK_ROOK)
    );
    let blocked = Position::from_fen("4k3/8/8/8/8/4n3/4P3/4K3 w - - 0 1", &zb);
    let mut none = Vec::new();
    pawn_moves(&blocked, &mut none, &masks);
    assert!(none.is_empty());
}

#[test]
fn piece_moves_split_into_captures_and_quiet_moves() {
    let (masks, zb) = init();
    let pos = Position::from_fen("4k3/8/8/3p4/8/2N5/8/R2QK2r w - - 0 1", &zb);
    let mut knights = Vec::new();
    knight_moves(&pos, &mut knights, &masks);
    assert_eq!(knights.len(), 7);
    assert!(has(&knights, 18, 35, MoveType::Capture(piece::BLACK_PAWN)));
    assert!(has(&knights, 18, 1, MoveType::Normal));
    let mut lines = Vec::new();
    rook_or_queen_moves(&pos, &mut lines, &masks);
    assert!(has(&lines, 0, 56, MoveType::Normal));
    assert!(has(&lines, 0, 2, MoveType::Normal));
    assert!(!has(&lines, 0, 3, MoveType::Normal));
    assert!(has(&lines, 3, 35, MoveType::Capture(piece::BLACK_PAWN)));
    assert!(!has(&lines, 3, 43, MoveType::Normal));
    let mut diagonals = Vec::new();
    bishop_or_queen_moves(&pos, &mut diagonals, &masks);
    assert!(has(&diagonals, 3, 39, MoveType::Normal));
    assert!(has(&diagonals, 3, 24, MoveType::Normal));
    assert!(!has(&diagonals, 3, 35, MoveType::Capture(piece::BLACK_PAWN)));
    let mut kings = Vec::new();
    king_moves(&pos, &mut kings, &masks);
    assert!(has(&kings, 4, 5, MoveType::Normal));
    assert!(has(&kings, 4, 12, MoveType::Normal));
    assert!(!has(&kings, 4, 3, MoveType::Normal));
}

#[test]
fn castle_needs_right_empty_squares_and_safe_path() {
    let (masks, zb) = init();
    let castles = |fen: &str| {
        let mut pos = Position::from_fen(fen, &zb);
        let moves = gen_legal(&mut pos, &masks, &zb);
        (
            has(&moves, 4, 6, MoveType::KingSideCastle),
            has(&moves, 4, 2, MoveType::QueenSideCastle),
        )
    };
    assert_eq!(castles("4k3/8/8/8/8/8/8/R3K2R w KQ - 0 1"), (true, true));
    assert_eq!(castles("4k3/8/8/8/8/8/8/R3K2R w K - 0 1"), (true, false));
    assert_eq!(castles("4k3/8/8/8/8/8/8/R3K2R w Q - 0 1"), (false, true));
    assert_eq!(castles("4k3/8/8/8/8/8/8/R3K2R w - - 0 1"), (false, false));
    assert_eq!(castles("4k3/8/8/8/8/8/8/RN2K1NR w KQ - 0 1"), (false, false));
    assert_eq!(castles("4k3/8/8/8/8/8/8/R2BKB1R w KQ - 0 1"), (false, false));
    assert_eq!(castles("4k3/8/8/8/8/8/8/R1B1K2R w KQ - 0 1"), (true, false));
    assert_eq!(castles("4r3/8/8/8/8/8/8/R3K2R w KQ - 0 1"), (false, false));
    assert_eq!(castles("5r2/8/8/8/8/8/8/R3K2R w KQ - 0 1"), (false, true));
    assert_eq!(castles("6r1/8/8/8/8/8/8/R3K2R w KQ - 0 1"), (false, true));
    assert_eq!(castles("3r4/8/8/8/8/8/8/R3K2R w KQ - 0 1"), (true, false));
    assert_eq!(castles("2r5/8/8/8/8/8/8/R3K2R w KQ - 0 1"), (true, false));
    assert_eq!(castles("1r6/8/8/8/8/8/8/R3K2R w KQ - 0 1"), (true, true));
    assert_eq!(castles("r6r/8/8/8/8/8/8/R3K2R w KQ - 0 1"), (true, true));
    let mut black = Position::from_fen("r3k2r/8/8/8/8/8/8/4K3 b kq - 0 1", &zb);
    let moves = gen_legal(&mut black, &masks, &zb);
    assert!(has(&moves, 60, 62, MoveType::KingSideCastle));
    assert!(has(&moves, 60, 58, MoveType::QueenSideCastle));
}

#[test]
fn filter_agrees_with_checking_every_move() {
    let (masks, zb) = init();
    let fens = [
        START_FEN,
        "r3k2r/p1ppqpb1/bn2pnp1/3PN3/1p2P3/2N2Q1p/PPPBBPPP/R3K2R w KQkq - 0 1",
        "8/2p5/3p4/KP5r/1R3p1k/8/4P1P1/8 w - - 0 1",
        "r3k2r/Pppp1ppp/1b3nbN/nP6/BBP1P3/q4N2/Pp1P2PP/R2Q1RK1 w kq - 0 1",
        "rnbq1k1r/pp1Pbppp/2p5/8/2B5/8/PPP1NnPP/RNBQK2R w KQ - 1 8",
        "8/8/8/2k5/3Pp3/8/8/4K2B b - d3 0 1",
        "4k3/8/8/8/1b6/8/3N4/4K3 w - - 0 1",
        "4k3/4r3/8/8/8/8/4R3/4K3 w - - 0 1",
        "4k3/8/8/8/8/8/3q4/4K3 w - - 0 1",
    ];
    for fen in fens {
        let mut pos = Position::from_fen(fen, &zb);
        let side = pos.side_to_move();
        let king = piece::KING | side;
        let mut slow = Vec::new();
        for mov in pseudo_legal(&pos, &masks) {
            let mut probe = pos.clone();
            probe.make_move(mov, &zb);
            let king_sq = probe.piece_bb(king).trailing_zeros() as usize;
            if !is_attacked(king_sq, &probe, color::other(side), &masks) {
                slow.push(mov);
            }
        }
        let fast = gen_legal(&mut pos, &masks, &zb);
        assert_eq!(fast, slow);
    }
}

#[test]
fn pinned_piece_may_only_move_along_the_pin() {
    let (masks, zb) = init();
    let mut pos = Position::from_fen("4k3/4r3/8/8/8/8/4R3/4K3 w - - 0 1", &zb);
    let moves = gen_legal(&mut pos, &masks, &zb);
    assert!(has(&moves, 12, 52, MoveType::Capture(piece::BLACK_ROOK)));
    assert!(has(&moves, 12, 20, MoveType::Normal));
    assert!(!has(&moves, 12, 11, MoveType::Normal));
    assert!(!has(&moves, 12, 15, MoveType::Normal));
}

#[test]
fn mate_and_stalemate_have_no_moves() {
    let (masks, zb) = init();
    let mut mate = Position::from_fen("7k/6Q1/6K1/8/8/8/8/8 b - - 0 1", &zb);
    assert!(mate.is_check(&masks));
    assert!(gen_legal(&mut mate, &masks, &zb).is_empty());
    let mut stale = Position::from_fen("7k/5Q2/6K1/8/8/8/8/8 b - - 0 1", &zb);
    assert!(!stale.is_check(&masks));
    assert!(gen_legal(&mut stale, &masks, &zb).is_empty());
}
