use libchess::{color, piece};

#[test]
fn colours_switch_and_name_themselves() {
    let mut c = color::WHITE;
    assert_eq!(color::switch(&mut c), color::BLACK);
    assert_eq!(c, color::BLACK);
    assert_eq!(color::switch(&mut c), color::WHITE);
    assert_eq!(color::other(color::WHITE), color::BLACK);
    assert_eq!(color::other(color::BLACK), color::WHITE);
    assert_eq!(color::of(piece::BLACK_QUEEN), color::BLACK);
    assert_eq!(color::of(piece::WHITE_PAWN), color::WHITE);
    assert_eq!(color::of(piece::KNIGHT), color::NONE);
    assert_eq!(color::to_str(color::WHITE), "white");
    assert_eq!(color::to_str(color::BLACK), "black");
    assert_eq!(color::to_str(color::NONE), "no color");
    assert_eq!(color::to_str(color::MASK), "unknown");
}

#[test]
fn pieces_and_letters() {
    assert_eq!(piece::from_char('p'), piece::BLACK_PAWN);
    assert_eq!(piece::from_char('P'), piece::WHITE_PAWN);
    assert_eq!(piece::from_char('K'), piece::WHITE_KING);
    assert_eq!(piece::from_char('q'), piece::BLACK_QUEEN);
    assert_eq!(piece::from_char('x'), color::BLACK);
    assert_eq!(piece::from_char('1'), color::BLACK);
    assert_eq!(piece::as_char(piece::BLACK_PAWN), 'p');
    assert_eq!(piece::as_char(piece::WHITE_ROOK), 'R');
    assert_eq!(piece::as_char(piece::BISHOP), 'b');
    assert_eq!(piece::as_char(piece::NONE), ' ');
    assert_eq!(piece::as_char(color::WHITE), ' ');
    for ch in ['P', 'N', 'B', 'R', 'Q', 'K', 'p', 'n', 'b', 'r', 'q', 'k'] {
        assert_eq!(piece::as_char(piece::from_char(ch)), ch);
    }
    assert_eq!(piece::as_symbol(piece::WHITE_KING), "♔");
    assert_eq!(piece::as_symbol(piece::BLACK_PAWN), "♟");
    assert_eq!(piece::as_symbol(piece::NONE), " ");
    assert_eq!(piece::of(piece::BLACK_ROOK), piece::ROOK);
    assert_eq!(piece::of(piece::WHITE_QUEEN), piece::QUEEN);
    assert!(piece::is_either(piece::WHITE_ROOK, &vec![piece::BISHOP, piece::ROOK]));
    assert!(piece::is_either(piece::BLACK_QUEEN, &vec![piece::SLIDING_PIECE]));
    assert!(!piece::is_either(piece::BLACK_KNIGHT, &vec![piece::SLIDING_PIECE, piece::PAWN]));
    assert!(!piece::is_either(piece::WHITE_KING, &vec![]));
}
