//! Square, file, rank and piece letters as text.
use vstd::prelude::*;
use vstd::string::*;
use crate::bb_ops::{coords_to_index, index_to_coords, sq_index};
use crate::patterns::{BISHOP, KING, KNIGHT, PAWN, QUEEN, ROOK};

verus! {

/// Relies on `String::push`: appends one character.
#[verifier::external_body]
pub(crate) fn push_char(s: &mut String, c: char)
    ensures
        final(s)@ == old(s)@.push(c),
{
    s.push(c)
}

/// The letter of file `f` (`'a'` for 0).
pub open spec fn file_char(f: int) -> char {
    (97 + f) as char
}

/// The digit of rank `r` (`'1'` for 0).
pub open spec fn rank_char(r: int) -> char {
    (49 + r) as char
}

/// The file with letter `c`, if any.
pub open spec fn file_of_char(c: char) -> Option<u8> {
    if 'a' <= c <= 'h' {
        Some((c as u32 - 97) as u8)
    } else {
        None
    }
}

/// The rank with digit `c`, if any.
pub open spec fn rank_of_char(c: char) -> Option<u8> {
    if '1' <= c <= '8' {
        Some((c as u32 - 49) as u8)
    } else {
        None
    }
}

/// The name of the square on rank `rk` and file `fl` (e.g. `e4`).
pub open spec fn square_name(rk: int, fl: int) -> Seq<char> {
    seq![file_char(fl), rank_char(rk)]
}

/// The square named by the first two characters of `s`, as `(rank, file)`.
pub open spec fn coords_of_name(s: Seq<char>) -> Option<(u8, u8)> {
    if s.len() >= 2 {
        match (file_of_char(s[0]), rank_of_char(s[1])) {
            (Some(f), Some(r)) => Some((r, f)),
            _ => None,
        }
    } else {
        None
    }
}

/// The letter of piece type `pt` in move text: none (a space) for a pawn.
pub open spec fn piece_char(pt: int) -> char {
    if pt == KNIGHT {
        'N'
    } else if pt == BISHOP {
        'B'
    } else if pt == ROOK {
        'R'
    } else if pt == QUEEN {
        'Q'
    } else if pt == KING {
        'K'
    } else {
        ' '
    }
}

/// The piece type of letter `c`, in either case; any other character is a pawn.
pub open spec fn piece_of_char(c: char) -> u8 {
    if c == 'N' || c == 'n' {
        KNIGHT
    } else if c == 'B' || c == 'b' {
        BISHOP
    } else if c == 'R' || c == 'r' {
        ROOK
    } else if c == 'Q' || c == 'q' {
        QUEEN
    } else if c == 'K' || c == 'k' {
        KING
    } else {
        PAWN
    }
}

/// The letter of file `fl`.
pub fn file_to_string(fl: u8) -> (r: Option<char>)
    ensures
        r == (if fl < 8 {
            Some(file_char(fl as int))
        } else {
            None
        }),
{
    if fl < 8 {
        Some((97 + fl) as char)
    } else {
        None
    }
}

/// The file named by letter `fl`.
pub fn string_to_file(fl: char) -> (r: Option<u8>)
    ensures
        r == file_of_char(fl),
{
    if 'a' <= fl && fl <= 'h' {
        Some((fl as u32 - 97) as u8)
    } else {
        None
    }
}

/// The digit of rank `rk`.
pub fn rank_to_string(rk: u8) -> (r: Option<char>)
    ensures
        r == (if rk < 8 {
            Some(rank_char(rk as int))
        } else {
            None
        }),
{
    if rk < 8 {
        Some((49 + rk) as char)
    } else {
        None
    }
}

/// The rank named by digit `rk`.
pub fn string_to_rank(rk: char) -> (r: Option<u8>)
    ensures
        r == rank_of_char(rk),
{
    if '1' <= rk && rk <= '8' {
        Some((rk as u32 - 49) as u8)
    } else {
        None
    }
}

/// The name of the square on rank `rk` and file `fl`.
pub fn coords_to_string(rk: u8, fl: u8) -> (r: Option<String>)
    ensures
        match r {
            Some(s) => rk < 8 && fl < 8 && s@ == square_name(rk as int, fl as int),
            None => !(rk < 8 && fl < 8),
        },
{
    match (rank_to_string(rk), file_to_string(fl)) {
        (Some(r), Some(f)) => {
            let mut s = String::new();
            push_char(&mut s, f);
            push_char(&mut s, r);
            assert(s@ =~= square_name(rk as int, fl as int));
            Some(s)
        },
        _ => None,
    }
}

/// The name of square `idx`.
pub fn index_to_string(idx: u8) -> (r: Option<String>)
    ensures
        match r {
            Some(s) => idx < 64 && s@ == square_name(idx as int / 8, idx as int % 8),
            None => idx >= 64,
        },
{
    if idx < 64 {
        let (rk, fl) = index_to_coords(idx);
        coords_to_string(rk, fl)
    } else {
        None
    }
}

/// The square, as `(rank, file)`, named by the first two characters of `s`.
pub fn string_to_coords(s: String) -> (r: Option<(u8, u8)>)
    ensures
        r == coords_of_name(s@),
{
    let st = s.as_str();
    if st.unicode_len() < 2 {
        return None;
    }
    let fl = string_to_file(st.get_char(0));
    let rk = string_to_rank(st.get_char(1));
    match (fl, rk) {
        (Some(f), Some(r)) => Some((r, f)),
        _ => None,
    }
}

/// The square named by the first two characters of `s`.
pub fn string_to_index(s: String) -> (r: Option<u8>)
    ensures
        r == (match coords_of_name(s@) {
            Some((rk, fl)) => Some(sq_index(rk as int, fl as int) as u8),
            None => None,
        }),
{
    match string_to_coords(s) {
        Some((rk, fl)) => Some(coords_to_index(rk, fl)),
        None => None,
    }
}

/// The letter of piece type `piece_type` in move text.
pub fn piece_to_string(piece_type: u8) -> (r: char)
    ensures
        r == piece_char(piece_type as int),
{
    if piece_type == KNIGHT {
        'N'
    } else if piece_type == BISHOP {
        'B'
    } else if piece_type == ROOK {
        'R'
    } else if piece_type == QUEEN {
        'Q'
    } else if piece_type == KING {
        'K'
    } else {
        ' '
    }
}

/// The piece type of letter `c`.
pub fn string_to_piece(c: char) -> (r: u8)
    ensures
        r == piece_of_char(c),
{
    if c == 'N' || c == 'n' {
        KNIGHT
    } else if c == 'B' || c == 'b' {
        BISHOP
    } else if c == 'R' || c == 'r' {
        ROOK
    } else if c == 'Q' || c == 'q' {
        QUEEN
    } else if c == 'K' || c == 'k' {
        KING
    } else {
        PAWN
    }
}

} // verus!
