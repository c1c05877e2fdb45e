use libchess::moves::{gen_legal, Move, MoveType};
use libchess::pos::{
    ahead, behind, file_of, lose_kcastle_rights, lose_qcastle_rights, make_sq, make_tuple, rank_of,
    set_all_true, str_to_sq, string_to_sq, to_algn, PieceValues, Position, BK_CASTLE, BQ_CASTLE,
    NO_CASTLING, START_FEN, WK_CASTLE, WQ_CASTLE,
};
use libchess::zobrist::hash;
use libchess::{color, init, piece};

#[test]
fn squares_and_their_names() {
    assert_eq!(make_sq(0, 0), 0);
    assert_eq!(make_sq(7, 7), 63);
    assert_eq!(make_sq(4, 1), 12);
    assert_eq!(make_tuple(12), (4, 1));
    assert_eq!(file_of(63), 7);
    assert_eq!(rank_of(63), 7);
    assert_eq!(str_to_sq("a1"), 0);
    assert_eq!(str_to_sq("h8"), 63);
    assert_eq!(str_to_sq("e4"), 28);
    assert_eq!(string_to_sq(&String::from("c7")), 50);
    assert_eq!(to_algn(0), "a1");
    assert_eq!(to_algn(28), "e4");
    assert_eq!(to_algn(63), "h8");
    for sq in 0..64 {
        assert_eq!(str_to_sq(&to_algn(sq)), sq);
    }
    assert_eq!(behind(28, color::WHITE), 20);
    assert_eq!(behind(28, color::BLACK), 36);
    assert_eq!(ahead(28, color::WHITE), 36);
    assert_eq!(ahead(28, color::BLACK), 20);
}

#[test]
fn castle_rights_are_lost_once() {
    let (_masks, zb) = init();
    let mut rights = NO_CASTLING;
    set_all_true(&mut rights);
    assert_eq!(rights, WK_CASTLE | WQ_CASTLE | BK_CASTLE | BQ_CASTLE);
    let first = lose_kcastle_rights(&mut rights, color::WHITE, &zb);
    assert_eq!(rights, WQ_CASTLE | BK_CASTLE | BQ_CASTLE);
    let again = lose_kcastle_rights(&mut rights, color::WHITE, &zb);
    assert_eq!(again, 0);
    assert_eq!(rights, WQ_CASTLE | BK_CASTLE | BQ_CASTLE);
    let third = lose_qcastle_rights(&mut rights, color::BLACK, &zb);
    assert_eq!(rights, WQ_CASTLE | BK_CASTLE);
    assert_eq!(lose_qcastle_rights(&mut rights, color::NONE, &zb), 0);
    assert_eq!(rights, WQ_CASTLE | BK_CASTLE);
    let mut other = WK_CASTLE | BQ_CASTLE;
    assert_eq!(lose_kcastle_rights(&mut other, color::WHITE, &zb), first);
    assert_eq!(lose_qcastle_rights(&mut other, color::BLACK, &zb), third);
    assert_eq!(other, NO_CASTLING);
}

#[test]
fn blank_position_is_empty() {
    let pos = Position::blank();
    assert_eq!(pos.side_to_move(), color::NONE);
    assert_eq!(pos.key(), 0);
    assert_eq!(pos.ply(), 0);
    assert_eq!(pos.rule50(), 0);
    assert_eq!(pos.castle_rights(), NO_CASTLING);
    assert_eq!(pos.ep_square(), None);
    assert_eq!(pos.move_played(), None);
    assert_eq!(pos.occupied_bb(), 0);
    assert_eq!(pos.empty_bb(), u64::MAX);
    assert!(pos.history().is_empty());
    assert_eq!(pos.history_i().len(), 1);
    assert!(pos.board().iter().all(|&p| p == piece::NONE));
}

#[test]
fn start_position_is_read_field_by_field() {
    let (_masks, zb) = init();
    let pos = Position::from_fen(START_FEN, &zb);
    assert_eq!(pos.side_to_move(), color::WHITE);
    assert_eq!(pos.castle_rights(), WK_CASTLE | WQ_CASTLE | BK_CASTLE | BQ_CASTLE);
    assert_eq!(pos.ep_square(), None);
    assert_eq!(pos.rule50(), 0);
    assert_eq!(pos.ply(), 0);
    assert_eq!(pos.piece_on(0), piece::WHITE_ROOK);
    assert_eq!(pos.piece_on(4), piece::WHITE_KING);
    assert_eq!(pos.piece_on(12), piece::WHITE_PAWN);
    assert_eq!(pos.piece_on(28), piece::NONE);
    assert_eq!(pos.piece_on(59), piece::BLACK_QUEEN);
    assert_eq!(pos.piece_on_fr(4, 7), piece::BLACK_KING);
    assert!(pos.is_occupied(63));
    assert!(!pos.is_occupied(32));
    assert_eq!(pos.piece_bb(piece::WHITE_PAWN), 0xFF00);
    assert_eq!(pos.piece_bb(piece::BLACK_PAWN), 0x00FF000000000000);
    assert_eq!(pos.color_bb(color::WHITE), 0xFFFF);
    assert_eq!(pos.color_bb(color::BLACK), 0xFFFF000000000000);
    assert_eq!(pos.occupied_bb(), 0xFFFF00000000FFFF);
    assert_eq!(pos.empty_bb(), 0x0000FFFFFFFF0000);
    assert_eq!(pos.key(), hash(&pos, &zb));
}

#[test]
fn description_fields_are_read() {
    let (_masks, zb) = init();
    let pos = Position::from_fen("8/8/8/3pP3/8/8/8/4K2k w Kq d6 37 12", &zb);
    assert_eq!(pos.ep_square(), Some(43));
    assert_eq!(pos.rule50(), 37);
    assert_eq!(pos.castle_rights(), WK_CASTLE | BQ_CASTLE);
    assert_eq!(pos.piece_on(35), piece::BLACK_PAWN);
    assert_eq!(pos.piece_on(36), piece::WHITE_PAWN);
    let black = Position::from_fen("4k3/8/8/8/8/8/8/4K3 b - - 255", &zb);
    assert_eq!(black.side_to_move(), color::BLACK);
    assert_eq!(black.rule50(), 255);
    assert_eq!(black.castle_rights(), NO_CASTLING);
}

#[test]
fn malformed_descriptions_are_refused() {
    let (_masks, zb) = init();
    assert!(Position::parse_fen(START_FEN, &zb).is_some());
    assert!(Position::parse_fen("", &zb).is_none());
    assert!(Position::parse_fen("rnbqkbnr/pppppppp/8/8/8/8/PPPPPPPP/RNBQKBNR", &zb).is_none());
    assert!(Position::parse_fen("rnbqkbnr/pppppppp/8/8/8/8/PPPPPPPP/RNBQKBNR w KQkq -", &zb).is_none());
    assert!(Position::parse_fen("rnbqkbnr/ppppxppp/8/8/8/8/PPPPPPPP/RNBQKBNR w KQkq - 0 1", &zb).is_none());
    assert!(Position::parse_fen("rnbqkbnrr/pppppppp/8/8/8/8/PPPPPPPP/RNBQKBNR w KQkq - 0 1", &zb).is_none());
    assert!(Position::parse_fen("8/8/8/8/8/8/8/8/8 w - - 0 1", &zb).is_none());
    assert!(Position::parse_fen("4k3/8/8/8/8/8/8/4K3 w X - 0 1", &zb).is_none());
    assert!(Position::parse_fen("4k3/8/8/8/8/8/8/4K3 w - z9 0 1", &zb).is_none());
    assert!(Position::parse_fen("4k3/8/8/8/8/8/8/4K3 w - - 256 1", &zb).is_none());
    assert!(Position::parse_fen("4k3/8/8/8/8/8/8/4K3 w - - x 1", &zb).is_none());
}

#[test]
fn make_then_unmake_restores_the_state() {
    let (masks, zb) = init();
    let fens = [
        START_FEN,
        "r3k2r/p1ppqpb1/bn2pnp1/3PN3/1p2P3/2N2Q1p/PPPBBPPP/R3K2R w KQkq - 0 1",
        "8/2p5/3p4/KP5r/1R3p1k/8/4P1P1/8 w - - 0 1",
        "rnbq1k1r/pp1Pbppp/2p5/8/2B5/8/PPP1NnPP/RNBQK2R w KQ - 1 8",
        "rnbqkbnr/ppp1p1pp/8/3pPp2/8/8/PPPP1PPP/RNBQKBNR w KQkq f6 0 3",
    ];
    for fen in fens {
        let mut pos = Position::from_fen(fen, &zb);
        let before = pos.clone();
        for mov in gen_legal(&mut pos, &masks, &zb) {
            pos.make_move(mov, &zb);
            assert_eq!(pos.history().len(), 1);
            assert_eq!(pos.key(), hash(&pos, &zb));
            pos.unmake_move();
            assert_eq!(pos, before);
        }
    }
}

#[test]
fn key_stays_the_key_from_scratch() {
    let (masks, zb) = init();
    let mut pos = Position::from_fen(
        "r3k2r/p1ppqpb1/bn2pnp1/3PN3/1p2P3/2N2Q1p/PPPBBPPP/R3K2R w KQkq - 0 1",
        &zb,
    );
    let mut pick: usize = 7;
    for ply in 0..60 {
        let moves = gen_legal(&mut pos, &masks, &zb);
        if moves.is_empty() || pos.rule50() == 255 {
            break;
        }
        pick = pick.wrapping_mul(6364136223846793005).wrapping_add(1442695040888963407);
        let mov = moves[(pick >> 33) % moves.len()];
        pos.make_move(mov, &zb);
        assert_eq!(pos.key(), hash(&pos, &zb));
        assert_eq!(pos.ply(), ply + 1);
        let rebuilt = pos.from_ply(pos.history().len());
        assert_eq!(rebuilt.key(), pos.key());
        assert_eq!(rebuilt.board(), pos.board());
        for p in [piece::WHITE_PAWN, piece::BLACK_KING, piece::WHITE_QUEEN, piece::BLACK_ROOK] {
            let mut expected = 0u64;
            for sq in 0..64 {
                if pos.piece_on(sq) == p {
                    expected |= 1 << sq;
                }
            }
            assert_eq!(pos.piece_bb(p), expected);
        }
    }
}

#[test]
fn make_move_updates_rights_target_and_counters() {
    let (_masks, zb) = init();
    let mut pos = Position::from_fen(START_FEN, &zb);
    pos.make_move(Move::new(12, 28, MoveType::PawnTwoUp), &zb);
    assert_eq!(pos.ep_square(), Some(20));
    assert_eq!(pos.side_to_move(), color::BLACK);
    assert_eq!(pos.rule50(), 0);
    assert_eq!(pos.ply(), 1);
    assert_eq!(pos.piece_on(28), piece::WHITE_PAWN);
    assert_eq!(pos.piece_on(12), piece::NONE);
    assert!(!pos.move_played().unwrap().is_reversible());
    pos.make_move(Move::new(62, 45, MoveType::Normal), &zb);
    assert_eq!(pos.ep_square(), None);
    assert_eq!(pos.rule50(), 1);
    assert!(pos.move_played().unwrap().is_reversible());
    assert_eq!(pos.moves().len(), 2);
    assert_eq!(pos.moves_opt().len(), 3);
    assert_eq!(pos.moves_opt()[0], None);

    let mut castle = Position::from_fen("r3k2r/8/8/8/8/8/8/R3K2R w KQkq - 5 1", &zb);
    castle.make_move(Move::new(4, 6, MoveType::KingSideCastle), &zb);
    assert_eq!(castle.piece_on(6), piece::WHITE_KING);
    assert_eq!(castle.piece_on(5), piece::WHITE_ROOK);
    assert_eq!(castle.piece_on(7), piece::NONE);
    assert_eq!(castle.castle_rights(), BK_CASTLE | BQ_CASTLE);
    assert_eq!(castle.rule50(), 6);
    assert!(!castle.move_played().unwrap().is_reversible());
    castle.make_move(Move::new(60, 58, MoveType::QueenSideCastle), &zb);
    assert_eq!(castle.piece_on(58), piece::BLACK_KING);
    assert_eq!(castle.piece_on(59), piece::BLACK_ROOK);
    assert_eq!(castle.piece_on(56), piece::NONE);
    assert_eq!(castle.castle_rights(), NO_CASTLING);

    let mut rook = Position::from_fen("r3k2r/8/8/8/8/8/8/R3K2R w KQkq - 0 1", &zb);
    rook.make_move(Move::new(0, 56, MoveType::Capture(piece::BLACK_ROOK)), &zb);
    assert_eq!(rook.castle_rights(), WK_CASTLE | BK_CASTLE);
    assert_eq!(rook.key(), hash(&rook, &zb));

    let mut ep = Position::from_fen("4k3/8/8/3pP3/8/8/8/4K3 w - d6 0 1", &zb);
    ep.make_move(Move::new(36, 43, MoveType::EnPassant), &zb);
    assert_eq!(ep.piece_on(43), piece::WHITE_PAWN);
    assert_eq!(ep.piece_on(35), piece::NONE);
    assert_eq!(ep.piece_on(36), piece::NONE);

    let mut promo = Position::from_fen("3r4/4P3/8/8/8/8/8/4K2k w - - 0 1", &zb);
    promo.make_move(
        Move::new(52, 59, MoveType::PromoCapture(piece::WHITE_QUEEN, piece::BLACK_ROOK)),
        &zb,
    );
    assert_eq!(promo.piece_on(59), piece::WHITE_QUEEN);
    assert_eq!(promo.piece_on(52), piece::NONE);
    assert_eq!(promo.piece_bb(piece::WHITE_PAWN), 0);
    assert_eq!(promo.key(), hash(&promo, &zb));
}

#[test]
fn material_is_counted_by_value() {
    let (_masks, zb) = init();
    let pos = Position::from_fen(START_FEN, &zb);
    assert_eq!(pos.count_material(color::WHITE), 39);
    assert_eq!(pos.count_material(color::BLACK), 39);
    assert_eq!(pos.material_diff(), 0);
    let odd = Position::from_fen("4k3/8/8/8/8/8/PPP5/RN2K3 w - - 0 1", &zb);
    assert_eq!(odd.count_material(color::WHITE), 11);
    assert_eq!(odd.material_diff(), 11);
    let values = PieceValues { pawn: 100, knight: 320, bishop: 330, rook: 500, queen: 900, king: 0 };
    assert_eq!(odd.count_material_custom(color::WHITE, values), 1120);
    assert_eq!(odd.count_material_custom(color::BLACK, values), 0);
}

#[test]
fn insufficient_material_cases() {
    let (_masks, zb) = init();
    let yes = [
        "4k3/8/8/8/8/8/8/4K3 w - - 0 1",
        "4k3/8/8/8/8/8/8/3NK3 w - - 0 1",
        "4k3/8/8/8/8/8/8/3BK3 w - - 0 1",
        "4k3/8/8/8/8/8/8/2NNK3 w - - 0 1",
    ];
    for fen in yes {
        assert!(Position::from_fen(fen, &zb).insufficient_material(color::WHITE));
    }
    let no = [
        "4k3/8/8/8/8/8/4P3/4K3 w - - 0 1",
        "4k3/8/8/8/8/8/8/3RK3 w - - 0 1",
        "4k3/8/8/8/8/8/8/3QK3 w - - 0 1",
        "4k3/8/8/8/8/8/8/2BNK3 w - - 0 1",
        "4k3/8/8/8/8/8/8/1NNNK3 w - - 0 1",
        "4k3/8/8/8/8/8/8/2BBK3 w - - 0 1",
    ];
    for fen in no {
        assert!(!Position::from_fen(fen, &zb).insufficient_material(color::WHITE));
    }
    let black = Position::from_fen("4k3/8/8/8/8/8/4P3/4K3 w - - 0 1", &zb);
    assert!(black.insufficient_material(color::BLACK));
}

#[test]
fn threefold_repetition_needs_two_earlier_occurrences() {
    let (_masks, zb) = init();
    let mut pos = Position::from_fen(START_FEN, &zb);
    let out_w = Move::new(6, 21, MoveType::Normal);
    let out_b = Move::new(62, 45, MoveType::Normal);
    let back_w = Move::new(21, 6, MoveType::Normal);
    let back_b = Move::new(45, 62, MoveType::Normal);
    let mut seen = Vec::new();
    for round in 0..2 {
        for mov in [out_w, out_b, back_w, back_b] {
            assert!(!pos.is_3_rep());
            pos.make_move(mov, &zb);
            seen.push(pos.key());
        }
        if round == 0 {
            assert!(!pos.is_3_rep());
        }
    }
    assert!(pos.is_3_rep());
    assert_eq!(seen[3], seen[7]);
    pos.make_move(Move::new(12, 28, MoveType::PawnTwoUp), &zb);
    assert!(!pos.is_3_rep());
}

#[test]
fn applicable_moves_are_told_apart() {
    let (masks, zb) = init();
    let mut pos = Position::from_fen(
        "r3k2r/p1ppqpb1/bn2pnp1/3PN3/1p2P3/2N2Q1p/PPPBBPPP/R3K2R w KQkq - 0 1",
        &zb,
    );
    for mov in gen_legal(&mut pos, &masks, &zb) {
        assert!(pos.is_applicable(mov));
    }
    assert!(!pos.is_applicable(Move::new(16, 24, MoveType::Normal)));
    assert!(!pos.is_applicable(Move::new(12, 20, MoveType::Promotion(piece::NONE))));
    assert!(!pos.is_applicable(Move::new(12, 20, MoveType::Promotion(color::WHITE))));
    assert!(pos.is_applicable(Move::new(12, 20, MoveType::Promotion(piece::WHITE_QUEEN))));
    assert!(!pos.is_applicable(Move::new(8, 0, MoveType::PawnTwoUp)));
    assert!(!pos.is_applicable(Move::new(35, 42, MoveType::EnPassant)));
    let bare = Position::from_fen("4k3/8/8/8/8/8/8/4K3 w - - 0 1", &zb);
    assert!(!bare.is_applicable(Move::new(4, 6, MoveType::KingSideCastle)));
    assert!(!bare.is_applicable(Move::new(4, 2, MoveType::QueenSideCastle)));
    assert!(bare.is_applicable(Move::new(4, 5, MoveType::Normal)));
    let full = Position::from_fen("4k3/8/8/8/8/8/8/4K3 w - - 255 1", &zb);
    assert!(!full.is_applicable(Move::new(4, 5, MoveType::Normal)));
    assert!(!Position::blank().is_applicable(Move::new(4, 5, MoveType::Normal)));
    assert!(piece::is_real(piece::BLACK_KNIGHT));
    assert!(!piece::is_real(piece::KNIGHT));
    assert!(!piece::is_real(piece::NONE));
}
