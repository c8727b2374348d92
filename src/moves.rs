//! The four shapes of a chess move.
use vstd::prelude::*;
use vstd::string::*;
use crate::squares::{index_to_string, piece_char, piece_to_string, push_char, square_name};

verus! {

/// A move, as produced by the move generator of a position.
///
/// `StandardMove(piece_type, origin, target, captured_type, promotion_type,
/// new_en_passant_target)` moves one piece; `EnPassant(origin, target)` is a pawn
/// capture onto the en passant target square; the castles carry no data, the
/// side being the one to move.
#[derive(Clone, Copy, Debug, PartialEq, Eq)]
pub enum Move {
    StandardMove(u8, u8, u8, Option<u8>, Option<u8>, Option<u8>),
    EnPassant(u8, u8),
    ShortCastle,
    LongCastle,
}

/// Whether the squares that `m` names lie on the board.
pub open spec fn squares_on_board(m: Move) -> bool {
    match m {
        Move::StandardMove(_, o, t, _, _, _) => o < 64 && t < 64,
        Move::EnPassant(o, t) => o < 64 && t < 64,
        _ => true,
    }
}

/// The name of square `s`.
pub open spec fn name_of(s: int) -> Seq<char> {
    square_name(s / 8, s % 8)
}

/// The text of a move: piece letter (a space for a pawn), origin, `x` for a
/// capture or `:` otherwise, target, and `=` with the promotion letter; the
/// castles are `O-O` and `O-O-O`.
pub open spec fn move_text(m: Move) -> Seq<char> {
    match m {
        Move::StandardMove(pt, o, t, cap, promo, _) => seq![piece_char(pt as int)] + name_of(
            o as int,
        ) + seq![
            if cap is Some {
                'x'
            } else {
                ':'
            },
        ] + name_of(t as int) + match promo {
            Some(q) => seq!['=', piece_char(q as int)],
            None => Seq::empty(),
        },
        Move::EnPassant(o, t) => seq![' '] + name_of(o as int) + seq!['x'] + name_of(t as int),
        Move::ShortCastle => seq!['O', '-', 'O'],
        Move::LongCastle => seq!['O', '-', 'O', '-', 'O'],
    }
}

/// Appends the name of square `s` to `text`.
fn push_square(text: &mut String, s: u8)
    requires
        s < 64,
    ensures
        final(text)@ == old(text)@ + name_of(s as int),
{
    match index_to_string(s) {
        Some(name) => {
            let name = name.as_str();
            assert(name@.len() == 2);
            push_char(text, name.get_char(0));
            push_char(text, name.get_char(1));
            assert(final(text)@ =~= old(text)@ + name_of(s as int));
        },
        None => {},
    }
}

impl Move {
    /// The text of this move.
    pub fn to_string(&self) -> (r: String)
        requires
            squares_on_board(*self),
        ensures
            r@ == move_text(*self),
    {
        let mut text = String::new();
        match *self {
            Move::StandardMove(piece_type, origin, target, captures, promotes_to, _) => {
                push_char(&mut text, piece_to_string(piece_type));
                push_square(&mut text, origin);
                push_char(
                    &mut text,
                    if captures.is_some() {
                        'x'
                    } else {
                        ':'
                    },
                );
                push_square(&mut text, target);
                match promotes_to {
                    Some(q) => {
                        push_char(&mut text, '=');
                        push_char(&mut text, piece_to_string(q));
                    },
                    None => {},
                }
            },
            Move::EnPassant(origin, target) => {
                push_char(&mut text, ' ');
                push_square(&mut text, origin);
                push_char(&mut text, 'x');
                push_square(&mut text, target);
            },
            Move::ShortCastle => {
                push_char(&mut text, 'O');
                push_char(&mut text, '-');
                push_char(&mut text, 'O');
            },
            Move::LongCastle => {
                push_char(&mut text, 'O');
                push_char(&mut text, '-');
                push_char(&mut text, 'O');
                push_char(&mut text, '-');
                push_char(&mut text, 'O');
            },
        }
        assert(text@ =~= move_text(*self));
        text
    }
}

} // verus!
