//! Small helpers for the text forms of squares and moves.

use vstd::prelude::*;

verus! {

/// `String::push`: appends one character to a string.
#[verifier::external_body]
pub(crate) fn push_char(s: &mut String, c: char)
    ensures
        final(s)@ == old(s)@.push(c),
{
    s.push(c)
}

/// `str::trim`: the slice without leading and trailing white space, as
/// Unicode defines it.
#[verifier::external_body]
pub(crate) fn trim_text(s: &str) -> (r: &str)
    ensures
        r@ == trimmed(s@),
{
    s.trim()
}

/// What is left of a text once leading and trailing white space is removed.
pub uninterp spec fn trimmed(s: Seq<char>) -> Seq<char>;

/// `char::is_alphabetic`: whether Unicode counts the character as a letter.
#[verifier::external_body]
pub(crate) fn is_letter(c: char) -> (r: bool)
    ensures
        r == alphabetic(c),
{
    c.is_alphabetic()
}

/// Whether Unicode counts a character as alphabetic.
pub uninterp spec fn alphabetic(c: char) -> bool;

/// The letter of file `f`, `'a'` for 0.
pub open spec fn file_letter(f: int) -> char {
    (f + 97) as char
}

/// The digit of rank `r`, `'1'` for 0.
pub open spec fn rank_digit(r: int) -> char {
    (r + 49) as char
}

/// The character with the code `code`, for the codes of ASCII.
pub(crate) fn ascii_char(code: u8) -> (c: char)
    requires
        code < 128,
    ensures
        c == code as char,
        c as int == code,
{
    code as char
}

/// The code of a character.
pub(crate) fn char_code(c: char) -> (code: u32)
    ensures
        code == c as u32,
        code as int == c as int,
{
    c as u32
}

} // verus!
