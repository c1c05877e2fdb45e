//! Colour tags, encoded as two disjoint bit flags that combine with a piece kind.

use vstd::prelude::*;

verus! {

pub type Color = u8;

pub const NONE: Color = 0x0;

pub const WHITE: Color = 0x40;

pub const BLACK: Color = 0x80;

pub const MASK: Color = 0xC0;

/// The flags that carry a colour are exactly the two highest bits.
pub proof fn lemma_color_flags(p: u8)
    by (bit_vector)
    ensures
        p & 0xC0 == 0 || p & 0xC0 == 0x40 || p & 0xC0 == 0x80 || p & 0xC0 == 0xC0,
        (p ^ 0xC0) ^ 0xC0 == p,
        p == 0x40 ==> p ^ 0xC0 == 0x80,
        p == 0x80 ==> p ^ 0xC0 == 0x40,
        (p & 0xC0) & 0x3F == 0,
{
}

/// Flips `color` in place between `WHITE` and `BLACK` and returns the new value.
#[inline(always)]
pub fn switch(color: &mut Color) -> (r: Color)
    ensures
        *final(color) == *old(color) ^ MASK,
        r == *final(color),
        *old(color) == WHITE ==> r == BLACK,
        *old(color) == BLACK ==> r == WHITE,
{
    proof {
        lemma_color_flags(*color);
    }
    *color ^= MASK;
    *color
}

/// The opposite colour: `WHITE` for `BLACK` and the reverse.
#[inline(always)]
pub fn other(color: Color) -> (r: Color)
    ensures
        r == color ^ MASK,
        color == WHITE ==> r == BLACK,
        color == BLACK ==> r == WHITE,
{
    proof {
        lemma_color_flags(color);
    }
    color ^ MASK
}

/// The colour flags of `piece`, with the kind flags cleared.
#[inline(always)]
pub fn of(piece: u8) -> (r: Color)
    ensures
        r == piece & MASK,
        r == NONE || r == WHITE || r == BLACK || r == MASK,
{
    proof {
        lemma_color_flags(piece);
    }
    piece & MASK
}

/// A lower-case English name for `color`.
#[inline(always)]
pub fn to_str(color: Color) -> (r: &'static str)
    ensures
        color == WHITE ==> r@ == "white"@,
        color == BLACK ==> r@ == "black"@,
        color == NONE ==> r@ == "no color"@,
        color != WHITE && color != BLACK && color != NONE ==> r@ == "unknown"@,
{
    if color == WHITE {
        "white"
    } else if color == BLACK {
        "black"
    } else if color == NONE {
        "no color"
    } else {
        "unknown"
    }
}

} // verus!
