//! Reading a position from its one-line description: placement of the
//! pieces, side to move, castling rights, en-passant target and the count
//! of plies since the last irreversible move.

use vstd::prelude::*;
use vstd::string::StrSliceExecFns;
use crate::{color, piece, zobrist, ZobristValues};
use crate::geometry::square_at;
use crate::pos::{
    BK_CASTLE, BQ_CASTLE, CastleRights, consistent, make_sq, names_square, NO_CASTLING,
    Position, Square, square_named, StateInfo, WK_CASTLE, WQ_CASTLE,
};
use crate::text::char_code;

verus! {

/// What a board description says.
pub struct FenFields {
    pub board: Seq<piece::Piece>,
    pub side: color::Color,
    pub castling: CastleRights,
    pub ep_square: Option<Square>,
    pub rule50: u8,
}

/// Where the field that starts at `from` ends: at the next space, or at
/// the end of the text.
pub open spec fn field_end(s: Seq<char>, from: int) -> int
    decreases s.len() - from,
{
    if from >= s.len() {
        from
    } else if s[from] == ' ' {
        from
    } else {
        field_end(s, from + 1)
    }
}

/// One of the twelve letters that stand for a piece.
pub open spec fn is_piece_letter(c: char) -> bool {
    c == 'P' || c == 'N' || c == 'B' || c == 'R' || c == 'Q' || c == 'K' || c == 'p' || c == 'n'
        || c == 'b' || c == 'r' || c == 'q' || c == 'k'
}

/// A decimal digit.
pub open spec fn is_digit(c: char) -> bool {
    '0' <= c <= '9'
}

/// The value of a decimal digit.
pub open spec fn digit_value(c: char) -> int {
    c as int - 48
}

/// The board with no piece on it.
pub open spec fn empty_board() -> Seq<piece::Piece> {
    Seq::new(64, |i: int| piece::NONE)
}

/// The board, the file and the rank reached after the first `n` characters
/// of the placement field. Reading starts on the a-file of the eighth rank;
/// a slash goes to the a-file of the rank below, a digit skips that many
/// files, and a letter puts its piece down and moves on by one file.
/// Nothing is reached if a character is none of these, or if a piece, a
/// skip or a slash would leave the board.
pub open spec fn placed(s: Seq<char>, n: int) -> Option<(Seq<piece::Piece>, int, int)>
    decreases n,
{
    if n <= 0 {
        Some((empty_board(), 0, 7))
    } else {
        match placed(s, n - 1) {
            None => None,
            Some((board, file, rank)) => {
                let c = s[n - 1];
                if c == '/' {
                    if rank >= 1 {
                        Some((board, 0, rank - 1))
                    } else {
                        None
                    }
                } else if is_digit(c) {
                    if file + digit_value(c) <= 8 {
                        Some((board, file + digit_value(c), rank))
                    } else {
                        None
                    }
                } else if is_piece_letter(c) {
                    if file <= 7 {
                        Some(
                            (
                                board.update(square_at(file, rank), piece::spec_from_char(c)),
                                file + 1,
                                rank,
                            ),
                        )
                    } else {
                        None
                    }
                } else {
                    None
                }
            },
        }
    }
}

/// The board that reading has reached, and the empty board if it has
/// reached nothing.
pub open spec fn board_reached(r: Option<(Seq<piece::Piece>, int, int)>) -> Seq<piece::Piece> {
    match r {
        Some((board, _, _)) => board,
        None => empty_board(),
    }
}

/// The rights read from the characters of `s` from `start` up to `end`: a
/// letter adds its right, a dash takes all rights away, and any other
/// character makes the field unreadable.
pub open spec fn rights_read(s: Seq<char>, start: int, end: int) -> Option<CastleRights>
    decreases end - start,
{
    if end <= start {
        Some(NO_CASTLING)
    } else {
        match rights_read(s, start, end - 1) {
            None => None,
            Some(r) => {
                let c = s[end - 1];
                if c == '-' {
                    Some(NO_CASTLING)
                } else if c == 'K' {
                    Some(r | WK_CASTLE)
                } else if c == 'Q' {
                    Some(r | WQ_CASTLE)
                } else if c == 'k' {
                    Some(r | BK_CASTLE)
                } else if c == 'q' {
                    Some(r | BQ_CASTLE)
                } else {
                    None
                }
            },
        }
    }
}

/// The number that the digits of `s` from `start` up to `end` spell, if
/// all of them are digits and the number is at most 255.
pub open spec fn number_read(s: Seq<char>, start: int, end: int) -> Option<int>
    decreases end - start,
{
    if end <= start {
        Some(0)
    } else {
        match number_read(s, start, end - 1) {
            None => None,
            Some(v) => {
                let c = s[end - 1];
                if is_digit(c) && v * 10 + digit_value(c) <= 255 {
                    Some(v * 10 + digit_value(c))
                } else {
                    None
                }
            },
        }
    }
}

/// What the description `s` says, if it is well formed: a placement field
/// that stays on the board, a side, a castling field of `K`, `Q`, `k`, `q`
/// and `-`, an en-passant field that is `-` or names a square, and a count
/// of plies from 0 to 255, each field one space after the one before.
pub open spec fn fen_fields(s: Seq<char>) -> Option<FenFields> {
    let p_end = field_end(s, 0);
    let c_start = p_end + 3;
    let c_end = field_end(s, c_start);
    let ep_at = c_end + 1;
    if p_end + 1 < s.len() && placed(s, p_end) is Some && ep_at < s.len() && rights_read(
        s,
        c_start,
        c_end,
    ) is Some {
        let side = if s[p_end + 1] == 'w' {
            color::WHITE
        } else {
            color::BLACK
        };
        let dash = s[ep_at] == '-';
        let h_start = if dash {
            ep_at + 2
        } else {
            ep_at + 3
        };
        let h_end = field_end(s, h_start);
        if (dash || (ep_at + 1 < s.len() && names_square(s.subrange(ep_at, ep_at + 2))))
            && h_start < h_end && number_read(s, h_start, h_end) is Some {
            Some(
                FenFields {
                    board: board_reached(placed(s, p_end)),
                    side,
                    castling: rights_read(s, c_start, c_end)->0,
                    ep_square: if dash {
                        None
                    } else {
                        Some(square_named(s.subrange(ep_at, ep_at + 2)) as usize)
                    },
                    rule50: number_read(s, h_start, h_end)->0 as u8,
                },
            )
        } else {
            None
        }
    } else {
        None
    }
}

/// `p` is the position that a description with the fields `f` stands for:
/// a position without history, at ply 0, with no move played.
pub open spec fn described(p: Position, f: FenFields) -> bool {
    &&& p.past() == Seq::<StateInfo>::empty()
    &&& p.state().board@ == f.board
    &&& p.state().side == f.side
    &&& p.state().castling == f.castling
    &&& p.state().ep_square == f.ep_square
    &&& p.state().rule50 == f.rule50
    &&& p.state().ply == 0
    &&& p.state().move_played is None
}

/// A field that has no space up to `i` ends where it ends from `i` on.
proof fn lemma_field_end_step(s: Seq<char>, from: int, i: int)
    requires
        0 <= from <= i,
        i <= s.len(),
        forall|j: int| from <= j < i ==> s[j] != ' ',
    ensures
        field_end(s, from) == field_end(s, i),
    decreases i - from,
{
    if from < i {
        lemma_field_end_step(s, from + 1, i);
    }
}

/// The end of a field is at or after its start, and not beyond the text
/// unless the start is.
proof fn lemma_field_end_bounds(s: Seq<char>, from: int)
    requires
        0 <= from,
    ensures
        from <= field_end(s, from),
        from <= s.len() ==> field_end(s, from) <= s.len(),
        forall|j: int| from <= j < field_end(s, from) ==> s[j] != ' ',
        field_end(s, from) < s.len() ==> s[field_end(s, from)] == ' ',
    decreases s.len() - from,
{
    if from < s.len() && s[from] != ' ' {
        lemma_field_end_bounds(s, from + 1);
    }
}

/// A field that cannot be read up to some character cannot be read beyond it.
proof fn lemma_placed_fails(s: Seq<char>, n: int, m: int)
    requires
        0 <= n <= m,
        placed(s, n) is None,
    ensures
        placed(s, m) is None,
    decreases m - n,
{
    if n < m {
        lemma_placed_fails(s, n, m - 1);
    }
}

proof fn lemma_rights_fail(s: Seq<char>, start: int, n: int, m: int)
    requires
        start <= n <= m,
        rights_read(s, start, n) is None,
    ensures
        rights_read(s, start, m) is None,
    decreases m - n,
{
    if n < m {
        lemma_rights_fail(s, start, n, m - 1);
    }
}

proof fn lemma_number_fails(s: Seq<char>, start: int, n: int, m: int)
    requires
        start <= n <= m,
        number_read(s, start, n) is None,
    ensures
        number_read(s, start, m) is None,
    decreases m - n,
{
    if n < m {
        lemma_number_fails(s, start, n, m - 1);
    }
}

/// The boards that the placement field reaches hold pieces or nothing.
proof fn lemma_placed_shape(s: Seq<char>, n: int)
    requires
        placed(s, n) is Some,
    ensures
        placed(s, n) matches Some((board, file, rank)) && board.len() == 64 && 0 <= file <= 8 && 0
            <= rank <= 7,
    decreases n,
{
    if n > 0 {
        lemma_placed_shape(s, n - 1);
    }
}

/// Reads the castling field of `fen`, which starts at `start`. Returns the
/// rights and where the field ends, or `None` if the field holds a
/// character that it may not hold.
fn read_rights(fen: &str, len: usize, start: usize) -> (r: Option<(CastleRights, usize)>)
    requires
        len == fen@.len(),
        start <= len,
    ensures
        r is Some <==> rights_read(fen@, start as int, field_end(fen@, start as int)) is Some,
        r matches Some(found) ==> found.1 == field_end(fen@, start as int) && found.1 <= len
            && rights_read(fen@, start as int, found.1 as int) == Some(found.0),
{
    let ghost s = fen@;
    let mut rights: CastleRights = NO_CASTLING;
    let mut i = start;
    proof {
        lemma_field_end_bounds(s, start as int);
    }
    while i < len
        invariant
            start <= i <= len,
            len == s.len(),
            s == fen@,
            forall|j: int| start <= j < i ==> s[j] != ' ',
            rights_read(s, start as int, i as int) == Some(rights),
        ensures
            i < len ==> s[i as int] == ' ',
        decreases len - i,
    {
        let ch = fen.get_char(i);
        if ch == ' ' {
            break ;
        }
        if ch == '-' {
            rights = NO_CASTLING;
        } else if ch == 'K' {
            rights |= WK_CASTLE;
        } else if ch == 'Q' {
            rights |= WQ_CASTLE;
        } else if ch == 'k' {
            rights |= BK_CASTLE;
        } else if ch == 'q' {
            rights |= BQ_CASTLE;
        } else {
            proof {
                lemma_field_end_step(s, start as int, i as int);
                lemma_field_end_bounds(s, i as int + 1);
                assert(field_end(s, i as int) == field_end(s, i + 1));
                assert(rights_read(s, start as int, i + 1) is None);
                lemma_rights_fail(s, start as int, i + 1, field_end(s, start as int));
            }
            return None;
        }
        i += 1;
    }
    proof {
        lemma_field_end_step(s, start as int, i as int);
    }
    Some((rights, i))
}

/// Reads the count of plies of `fen`, which starts at `start`: one or more
/// digits that spell a number up to 255.
fn read_number(fen: &str, len: usize, start: usize) -> (r: Option<u8>)
    requires
        len == fen@.len(),
        start <= len,
    ensures
        r is Some <==> start < field_end(fen@, start as int) && number_read(
            fen@,
            start as int,
            field_end(fen@, start as int),
        ) is Some,
        r matches Some(v) ==> number_read(fen@, start as int, field_end(fen@, start as int))
            == Some(v as int),
{
    let ghost s = fen@;
    let mut value: u8 = 0;
    let mut i = start;
    proof {
        lemma_field_end_bounds(s, start as int);
    }
    while i < len
        invariant
            start <= i <= len,
            len == s.len(),
            s == fen@,
            forall|j: int| start <= j < i ==> s[j] != ' ',
            number_read(s, start as int, i as int) == Some(value as int),
        ensures
            i < len ==> s[i as int] == ' ',
        decreases len - i,
    {
        let ch = fen.get_char(i);
        if ch == ' ' {
            break ;
        }
        let code = char_code(ch);
        if !(48 <= code && code <= 57) || value > 25 || (value == 25 && code > 53) {
            proof {
                lemma_field_end_step(s, start as int, i as int);
                lemma_field_end_bounds(s, i as int + 1);
                assert(field_end(s, i as int) == field_end(s, i + 1));
                assert(number_read(s, start as int, i + 1) is None);
                lemma_number_fails(s, start as int, i + 1, field_end(s, start as int));
            }
            return None;
        }
        value = value * 10 + (code - 48) as u8;
        i += 1;
    }
    proof {
        lemma_field_end_step(s, start as int, i as int);
    }
    if i == start {
        return None;
    }
    Some(value)
}

impl Position {
    /// Reads the placement field of `fen` and puts its pieces on the board
    /// of `self`, which is empty. Returns where the field ends, or `None`
    /// if the field is not well formed.
    fn read_placement(&mut self, fen: &str, len: usize, zb: &ZobristValues) -> (end: Option<usize>)
        requires
            len == fen@.len(),
            consistent(old(self).state()),
            old(self).state().board@ == empty_board(),
        ensures
            consistent(final(self).state()),
            final(self).past() == old(self).past(),
            crate::pos::same_frame(final(self).state(), old(self).state()),
            end is Some <==> placed(fen@, field_end(fen@, 0)) is Some,
            end matches Some(e) ==> e == field_end(fen@, 0) && e <= len,
            end is Some ==> final(self).state().board@ == board_reached(
                placed(fen@, field_end(fen@, 0)),
            ),
    {
        let mut file: isize = 0;
        let mut rank: isize = 7;
        let mut i: usize = 0;
        proof {
            lemma_field_end_bounds(fen@, 0);
        }
        while i < len
            invariant
                i <= len,
                len == fen@.len(),
                consistent(self.state()),
                self.past() == old(self).past(),
                crate::pos::same_frame(self.state(), old(self).state()),
                forall|j: int| 0 <= j < i ==> fen@[j] != ' ',
                placed(fen@, i as int) == Some((self.state().board@, file as int, rank as int)),
                0 <= file <= 8,
                0 <= rank <= 7,
            ensures
                i < len ==> fen@[i as int] == ' ',
            decreases len - i,
        {
            let ch = fen.get_char(i);
            if ch == ' ' {
                break ;
            }
            let code = char_code(ch);
            proof {
                lemma_placed_shape(fen@, i as int);
            }
            if ch == '/' {
                if rank < 1 {
                    proof {
                        lemma_field_end_step(fen@, 0, i as int);
                        lemma_field_end_bounds(fen@, i as int + 1);
                        lemma_placed_fails(fen@, i + 1, field_end(fen@, 0));
                    }
                    return None;
                }
                file = 0;
                rank -= 1;
            } else if 48 <= code && code <= 57 {
                let skipped = (code - 48) as isize;
                if file + skipped > 8 {
                    proof {
                        lemma_field_end_step(fen@, 0, i as int);
                        lemma_field_end_bounds(fen@, i as int + 1);
                        lemma_placed_fails(fen@, i + 1, field_end(fen@, 0));
                    }
                    return None;
                }
                file += skipped;
            } else {
                let piece = piece::from_char(ch);
                if piece == color::BLACK || file > 7 {
                    proof {
                        lemma_field_end_step(fen@, 0, i as int);
                        lemma_field_end_bounds(fen@, i as int + 1);
                        lemma_placed_fails(fen@, i + 1, field_end(fen@, 0));
                    }
                    return None;
                }
                self.put_piece(piece, make_sq(file, rank), zb);
                file += 1;
            }
            i += 1;
        }
        proof {
            lemma_field_end_step(fen@, 0, i as int);
        }
        Some(i)
    }

    /// Reads the position that the description `fen` stands for, with keys
    /// built from `zb`, or `None` if the description is not well formed.
    pub fn parse_fen(fen: &str, zb: &ZobristValues) -> (r: Option<Position>)
        ensures
            r is Some <==> fen_fields(fen@) is Some,
            r matches Some(p) ==> p.wf(*zb) && described(p, fen_fields(fen@)->0),
    {
        let len = fen.unicode_len();
        let ghost s = fen@;
        let mut pos = Position::blank();
        proof {
            assert(pos.state().board@ =~= empty_board());
        }
        let p_end = match pos.read_placement(fen, len, zb) {
            Some(e) => e,
            None => {
                return None;
            },
        };
        if len < 4 || p_end >= len - 3 {
            proof {
                lemma_field_end_bounds(s, p_end + 3);
            }
            return None;
        }
        let side = if fen.get_char(p_end + 1) == 'w' {
            color::WHITE
        } else {
            color::BLACK
        };
        let c_start = p_end + 3;
        let (rights, c_end) = match read_rights(fen, len, c_start) {
            Some(found) => found,
            None => {
                return None;
            },
        };
        if c_end >= len - 1 {
            return None;
        }
        let ep_at = c_end + 1;
        let (ep_square, h_start): (Option<Square>, usize) = if fen.get_char(ep_at) == '-' {
            if ep_at >= len - 1 {
                proof {
                    lemma_field_end_bounds(s, ep_at + 2);
                }
                return None;
            }
            (None, ep_at + 2)
        } else {
            if ep_at >= len - 2 {
                proof {
                    lemma_field_end_bounds(s, ep_at + 3);
                }
                return None;
            }
            let f = char_code(fen.get_char(ep_at));
            let r = char_code(fen.get_char(ep_at + 1));
            proof {
                let part = s.subrange(ep_at as int, ep_at + 2);
                assert(part[0] == s[ep_at as int] && part[1] == s[ep_at + 1]);
            }
            if !(97 <= f && f <= 104 && 49 <= r && r <= 56) {
                return None;
            }
            (Some(make_sq((f - 97) as isize, (r - 49) as isize)), ep_at + 3)
        };
        let value = match read_number(fen, len, h_start) {
            Some(found) => found,
            None => {
                return None;
            },
        };
        pos.st.side = side;
        pos.st.castling = rights;
        pos.st.ep_square = ep_square;
        pos.st.rule50 = value;
        pos.st.key = zobrist::hash(&pos, zb);
        pos.history.reserve(400);
        Some(pos)
    }

    /// The position that the description `fen` stands for, with keys built
    /// from `zb`. The description has to be well formed.
    pub fn from_fen(fen_str: &str, zb: &ZobristValues) -> (p: Position)
        requires
            fen_fields(fen_str@) is Some,
        ensures
            p.wf(*zb),
            described(p, fen_fields(fen_str@)->0),
    {
        match Position::parse_fen(fen_str, zb) {
            Some(p) => p,
            None => Position::blank(),
        }
    }
}

} // verus!
