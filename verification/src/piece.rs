//! Piece kinds and the small integers that encode "kind + owner".

use vstd::prelude::*;
use vstd::std_specs::bits::{axiom_u8_trailing_zeros, u8_trailing_zeros};
use crate::color;

pub mod bb;

verus! {

pub type Piece = u8;

pub const NONE: Piece = 0x0;

pub const PAWN: Piece = 0x1;

pub const KNIGHT: Piece = 0x2;

pub const BISHOP: Piece = 0x4;

pub const ROOK: Piece = 0x8;

pub const QUEEN: Piece = 0x10;

pub const KING: Piece = 0x20;

pub const MASK: Piece = 0x3F;

pub const WHITE_PAWN: Piece = 0x41;

pub const WHITE_KNIGHT: Piece = 0x42;

pub const WHITE_BISHOP: Piece = 0x44;

pub const WHITE_ROOK: Piece = 0x48;

pub const WHITE_QUEEN: Piece = 0x50;

pub const WHITE_KING: Piece = 0x60;

pub const BLACK_PAWN: Piece = 0x81;

pub const BLACK_KNIGHT: Piece = 0x82;

pub const BLACK_BISHOP: Piece = 0x84;

pub const BLACK_ROOK: Piece = 0x88;

pub const BLACK_QUEEN: Piece = 0x90;

pub const BLACK_KING: Piece = 0xA0;

pub const SLIDING_PIECE: Piece = 0x1C;

/// Exactly one kind flag is set and no colour flag.
pub open spec fn is_kind(k: Piece) -> bool {
    k == PAWN || k == KNIGHT || k == BISHOP || k == ROOK || k == QUEEN || k == KING
}

/// A value that stands for a real piece: one kind flag and one colour flag.
pub open spec fn is_piece(p: Piece) -> bool {
    ||| p == WHITE_PAWN
    ||| p == WHITE_KNIGHT
    ||| p == WHITE_BISHOP
    ||| p == WHITE_ROOK
    ||| p == WHITE_QUEEN
    ||| p == WHITE_KING
    ||| p == BLACK_PAWN
    ||| p == BLACK_KNIGHT
    ||| p == BLACK_BISHOP
    ||| p == BLACK_ROOK
    ||| p == BLACK_QUEEN
    ||| p == BLACK_KING
}

/// The kind flags of `p`.
pub open spec fn kind_of(p: Piece) -> Piece {
    p & MASK
}

/// The colour flags of `p`.
pub open spec fn color_of(p: Piece) -> color::Color {
    p & color::MASK
}

/// The piece of kind `k` owned by colour `c`.
pub open spec fn make(k: Piece, c: color::Color) -> Piece {
    k | c
}

/// Where the bitboard of a piece value is kept: the position of its lowest
/// flag, moved up by six for the black pieces.
pub open spec fn index_of(p: Piece) -> int {
    u8_trailing_zeros(p) + if p & color::MASK == color::BLACK {
        6int
    } else {
        0int
    }
}

/// Where the bitboard of a colour is kept: 1 for black, 0 otherwise.
pub open spec fn color_index_of(c: color::Color) -> int {
    if c == color::BLACK {
        1
    } else {
        0
    }
}

/// The piece that is kept at index `i`, for `i` below twelve.
pub open spec fn piece_at_index(i: int) -> Piece {
    if i == 0 {
        WHITE_PAWN
    } else if i == 1 {
        WHITE_KNIGHT
    } else if i == 2 {
        WHITE_BISHOP
    } else if i == 3 {
        WHITE_ROOK
    } else if i == 4 {
        WHITE_QUEEN
    } else if i == 5 {
        WHITE_KING
    } else if i == 6 {
        BLACK_PAWN
    } else if i == 7 {
        BLACK_KNIGHT
    } else if i == 8 {
        BLACK_BISHOP
    } else if i == 9 {
        BLACK_ROOK
    } else if i == 10 {
        BLACK_QUEEN
    } else {
        BLACK_KING
    }
}

/// The lowest flag of a byte, read off its low bits.
pub proof fn lemma_low_flag(p: u8, t: u8)
    by (bit_vector)
    requires
        t <= 8,
        t < 8 ==> (p >> t) & 1 == 1,
        p << ((8 - t) as u8) == 0,
    ensures
        p & 1 != 0 ==> t == 0,
        p & 3 == 2 ==> t == 1,
        p & 7 == 4 ==> t == 2,
        p & 15 == 8 ==> t == 3,
        p & 31 == 16 ==> t == 4,
        p & 63 == 32 ==> t == 5,
        p & 127 == 64 ==> t == 6,
        p == 128 ==> t == 7,
        p == 0 ==> t == 8,
{
}

/// The flags of each of the twelve pieces, and of the empty value.
pub proof fn lemma_piece_flags(p: u8)
    by (bit_vector)
    ensures
        p == 0 ==> p & 0xC0 == 0 && p & 0x3F == 0,
        is_piece(p) ==> (p & 0x3F) | (p & 0xC0) == p,
        is_piece(p) ==> (p & 0xC0 == 0x40 <==> p < 0x80) && (p & 0xC0 == 0x80 <==> p >= 0x80),
        is_piece(p) ==> (p & 0x40 != 0 <==> p < 0x80),
        is_piece(p) ==> (p & 1 != 0 <==> p & 0x3F == 1) && (p & 3 == 2 <==> p & 0x3F == 2) && (p
            & 7 == 4 <==> p & 0x3F == 4) && (p & 15 == 8 <==> p & 0x3F == 8) && (p & 31 == 16
            <==> p & 0x3F == 16) && (p & 63 == 32 <==> p & 0x3F == 32),
        is_piece(p) ==> (p & 1 != 0 <==> p == 0x41 || p == 0x81) && (p & 2 != 0 <==> p == 0x42
            || p == 0x82) && (p & 4 != 0 <==> p == 0x44 || p == 0x84) && (p & 8 != 0 <==> p
            == 0x48 || p == 0x88) && (p & 16 != 0 <==> p == 0x50 || p == 0x90) && (p & 32 != 0
            <==> p == 0x60 || p == 0xA0),
        is_piece(p) ==> (p & 0x3F == 1 <==> p == 0x41 || p == 0x81) && (p & 0x3F == 2 <==> p
            == 0x42 || p == 0x82) && (p & 0x3F == 4 <==> p == 0x44 || p == 0x84) && (p & 0x3F
            == 8 <==> p == 0x48 || p == 0x88) && (p & 0x3F == 16 <==> p == 0x50 || p == 0x90)
            && (p & 0x3F == 32 <==> p == 0x60 || p == 0xA0),
{
}

/// A kind and a colour combine into one of the twelve pieces.
pub proof fn lemma_make(k: u8, c: u8)
    by (bit_vector)
    requires
        k == 1 || k == 2 || k == 4 || k == 8 || k == 16 || k == 32,
        c == 0x40 || c == 0x80,
    ensures
        k | c == k + c,
        (k | c) & 0x3F == k,
        (k | c) & 0xC0 == c,
        (k | c) & k != 0,
        k != 1 ==> (k | c) & 1 == 0,
        k != 2 ==> (k | c) & 2 == 0,
        k != 4 ==> (k | c) & 4 == 0,
        k != 8 ==> (k | c) & 8 == 0,
        k != 16 ==> (k | c) & 16 == 0,
        k != 32 ==> (k | c) & 32 == 0,
{
}

/// The index of every byte, and of each of the twelve pieces in particular.
pub proof fn lemma_index_of(p: Piece)
    ensures
        0 <= index_of(p) <= 14,
        p == NONE ==> index_of(p) == 8,
        is_piece(p) ==> 0 <= index_of(p) < 12 && piece_at_index(index_of(p)) == p,
        is_piece(p) ==> kind_of(p) != NONE && is_kind(kind_of(p)) && (color_of(p) == color::WHITE
            || color_of(p) == color::BLACK) && p == make(kind_of(p), color_of(p)),
        is_piece(p) && color_of(p) == color::WHITE ==> index_of(p) < 6,
        is_piece(p) && color_of(p) == color::BLACK ==> index_of(p) >= 6,
{
    axiom_u8_trailing_zeros(p);
    let t = u8_trailing_zeros(p) as u8;
    lemma_low_flag(p, t);
    lemma_piece_flags(p);
}

/// The twelve indices name twelve different pieces.
pub proof fn lemma_piece_at_index(i: int)
    requires
        0 <= i < 12,
    ensures
        is_piece(piece_at_index(i)),
        index_of(piece_at_index(i)) == i,
{
    lemma_index_of(piece_at_index(i));
}

/// The piece that `ch` names: upper case for white, lower case for black.
/// A character that names no piece gives the bare black flag.
pub open spec fn spec_from_char(ch: char) -> Piece {
    if ch == 'P' {
        WHITE_PAWN
    } else if ch == 'N' {
        WHITE_KNIGHT
    } else if ch == 'B' {
        WHITE_BISHOP
    } else if ch == 'R' {
        WHITE_ROOK
    } else if ch == 'Q' {
        WHITE_QUEEN
    } else if ch == 'K' {
        WHITE_KING
    } else if ch == 'p' {
        BLACK_PAWN
    } else if ch == 'n' {
        BLACK_KNIGHT
    } else if ch == 'b' {
        BLACK_BISHOP
    } else if ch == 'r' {
        BLACK_ROOK
    } else if ch == 'q' {
        BLACK_QUEEN
    } else if ch == 'k' {
        BLACK_KING
    } else {
        color::BLACK
    }
}

/// Reads a piece letter: `'P'` is the white pawn, `'p'` the black one.
/// Any other character gives `NONE` with the black flag set.
pub fn from_char(ch: char) -> (piece: Piece)
    ensures
        piece == spec_from_char(ch),
        is_piece(piece) || piece == color::BLACK,
{
    if ch == 'P' {
        WHITE_PAWN
    } else if ch == 'N' {
        WHITE_KNIGHT
    } else if ch == 'B' {
        WHITE_BISHOP
    } else if ch == 'R' {
        WHITE_ROOK
    } else if ch == 'Q' {
        WHITE_QUEEN
    } else if ch == 'K' {
        WHITE_KING
    } else if ch == 'p' {
        BLACK_PAWN
    } else if ch == 'n' {
        BLACK_KNIGHT
    } else if ch == 'b' {
        BLACK_BISHOP
    } else if ch == 'r' {
        BLACK_ROOK
    } else if ch == 'q' {
        BLACK_QUEEN
    } else if ch == 'k' {
        BLACK_KING
    } else {
        color::BLACK
    }
}

/// The lower-case letter of the first kind flag that `piece` carries, and a
/// blank where it carries none.
pub open spec fn kind_letter(piece: Piece) -> char {
    if piece & PAWN != 0 {
        'p'
    } else if piece & KNIGHT != 0 {
        'n'
    } else if piece & BISHOP != 0 {
        'b'
    } else if piece & ROOK != 0 {
        'r'
    } else if piece & QUEEN != 0 {
        'q'
    } else if piece & KING != 0 {
        'k'
    } else {
        ' '
    }
}

/// The upper-case form of a kind letter; the blank stays a blank.
pub open spec fn upper_letter(ch: char) -> char {
    if ch == 'p' {
        'P'
    } else if ch == 'n' {
        'N'
    } else if ch == 'b' {
        'B'
    } else if ch == 'r' {
        'R'
    } else if ch == 'q' {
        'Q'
    } else if ch == 'k' {
        'K'
    } else {
        ch
    }
}

/// The letter that stands for `piece`.
pub open spec fn spec_as_char(piece: Piece) -> char {
    if piece & color::WHITE != 0 {
        upper_letter(kind_letter(piece))
    } else {
        kind_letter(piece)
    }
}

/// The letter of `piece`: upper case for white, lower case otherwise, and a
/// blank for a value without a kind flag.
pub fn as_char(piece: Piece) -> (ch: char)
    ensures
        ch == spec_as_char(piece),
{
    let white = piece & color::WHITE != 0;
    if piece & PAWN != 0 {
        if white { 'P' } else { 'p' }
    } else if piece & KNIGHT != 0 {
        if white { 'N' } else { 'n' }
    } else if piece & BISHOP != 0 {
        if white { 'B' } else { 'b' }
    } else if piece & ROOK != 0 {
        if white { 'R' } else { 'r' }
    } else if piece & QUEEN != 0 {
        if white { 'Q' } else { 'q' }
    } else if piece & KING != 0 {
        if white { 'K' } else { 'k' }
    } else {
        ' '
    }
}

/// The figurine of each of the twelve pieces, and a blank for anything else.
pub open spec fn spec_as_symbol(piece: Piece) -> Seq<char> {
    if piece == WHITE_PAWN {
        "♙"@
    } else if piece == WHITE_KNIGHT {
        "♘"@
    } else if piece == WHITE_BISHOP {
        "♗"@
    } else if piece == WHITE_ROOK {
        "♖"@
    } else if piece == WHITE_QUEEN {
        "♕"@
    } else if piece == WHITE_KING {
        "♔"@
    } else if piece == BLACK_PAWN {
        "♟"@
    } else if piece == BLACK_KNIGHT {
        "♞"@
    } else if piece == BLACK_BISHOP {
        "♝"@
    } else if piece == BLACK_ROOK {
        "♜"@
    } else if piece == BLACK_QUEEN {
        "♛"@
    } else if piece == BLACK_KING {
        "♚"@
    } else {
        " "@
    }
}

/// A figurine for `piece`; fonts without chess symbols may not show it.
pub fn as_symbol(piece: Piece) -> (s: &'static str)
    ensures
        s@ == spec_as_symbol(piece),
{
    if piece == WHITE_PAWN {
        "♙"
    } else if piece == WHITE_KNIGHT {
        "♘"
    } else if piece == WHITE_BISHOP {
        "♗"
    } else if piece == WHITE_ROOK {
        "♖"
    } else if piece == WHITE_QUEEN {
        "♕"
    } else if piece == WHITE_KING {
        "♔"
    } else if piece == BLACK_PAWN {
        "♟"
    } else if piece == BLACK_KNIGHT {
        "♞"
    } else if piece == BLACK_BISHOP {
        "♝"
    } else if piece == BLACK_ROOK {
        "♜"
    } else if piece == BLACK_QUEEN {
        "♛"
    } else if piece == BLACK_KING {
        "♚"
    } else {
        " "
    }
}

/// Whether `piece` shares a flag with any entry of `pieces`.
#[inline(always)]
pub fn is_either(piece: Piece, pieces: &Vec<Piece>) -> (r: bool)
    ensures
        r <==> exists|i: int| 0 <= i < pieces@.len() && piece & #[trigger] pieces@[i] != 0,
{
    let mut i: usize = 0;
    while i < pieces.len()
        invariant
            i <= pieces@.len(),
            forall|j: int| 0 <= j < i ==> piece & #[trigger] pieces@[j] == 0,
        decreases pieces@.len() - i,
    {
        if piece & pieces[i] != 0 {
            return true;
        }
        i += 1;
    }
    false
}

/// Whether `piece` is one of the twelve pieces.
pub fn is_real(piece: Piece) -> (r: bool)
    ensures
        r == is_piece(piece),
{
    piece == WHITE_PAWN || piece == WHITE_KNIGHT || piece == WHITE_BISHOP || piece == WHITE_ROOK
        || piece == WHITE_QUEEN || piece == WHITE_KING || piece == BLACK_PAWN || piece
        == BLACK_KNIGHT || piece == BLACK_BISHOP || piece == BLACK_ROOK || piece == BLACK_QUEEN
        || piece == BLACK_KING
}

/// The kind flags of `piece`, with the colour flags cleared.
#[inline(always)]
pub fn of(piece: Piece) -> (r: Piece)
    ensures
        r == kind_of(piece),
        is_piece(piece) ==> is_kind(r),
{
    proof {
        lemma_index_of(piece);
    }
    piece & MASK
}

} // verus!
