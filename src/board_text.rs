//! A plain-text picture of the board, for diagnostics: the eighth rank first,
//! one character per square separated by spaces, ranks on lines of their own.
use vstd::prelude::*;
use crate::patterns::{BLACK, PAWN};
use crate::position::{piece_and_color_on, Position};
use crate::san::lower;
use crate::squares::{piece_char, piece_to_string, push_char};

verus! {

/// The character for square `s`: the piece letter (`P` for a pawn), in upper
/// case for white and lower case for black, or `_` when the square is empty.
pub open spec fn square_glyph(b: Seq<u64>, s: int) -> char {
    match piece_and_color_on(b, s) {
        Some((t, c)) => {
            let u = if t == PAWN {
                'P'
            } else {
                piece_char(t as int)
            };
            if c == BLACK {
                lower(u)
            } else {
                u
            }
        },
        None => '_',
    }
}

/// Character `i` of the picture: each line holds eight glyphs with a space
/// between two of them, and a line break ends every line but the last.
pub open spec fn picture_char(b: Seq<u64>, i: int) -> char {
    let row = i / 16;
    let col = i % 16;
    if col == 15 {
        '\n'
    } else if col % 2 == 1 {
        ' '
    } else {
        square_glyph(b, (7 - row) * 8 + col / 2)
    }
}

/// The picture of the board `b`.
pub open spec fn picture(b: Seq<u64>) -> Seq<char> {
    Seq::new(127, |i: int| picture_char(b, i))
}

impl Position {
    /// The character for square `idx`.
    fn glyph_at(&self, idx: u8) -> (r: char)
        requires
            idx < 64,
        ensures
            r == square_glyph(self.board(), idx as int),
    {
        match self.get_piece_and_color_at(idx) {
            Some((t, c)) => {
                let u = if t == PAWN {
                    'P'
                } else {
                    piece_to_string(t)
                };
                if c == BLACK {
                    if 'A' <= u && u <= 'Z' {
                        ((u as u8) + 32) as char
                    } else {
                        u
                    }
                } else {
                    u
                }
            },
            None => '_',
        }
    }

    /// The picture of this position's board.
    pub fn to_string(&self) -> (r: String)
        ensures
            r@ == picture(self.board()),
    {
        let ghost b = self.board();
        let mut text = String::new();
        let mut row: u8 = 0;
        while row < 8
            invariant
                b == self.board(),
                row <= 8,
                row < 8 ==> text@ == picture(b).take(16 * row),
                row == 8 ==> text@ == picture(b),
            decreases 8 - row,
        {
            let mut col: u8 = 0;
            while col < 8
                invariant
                    b == self.board(),
                    row < 8,
                    col <= 8,
                    col < 8 ==> text@ == picture(b).take(16 * row + 2 * col),
                    col == 8 ==> text@ == picture(b).take(16 * row + 15),
                decreases 8 - col,
            {
                let ghost k = 16 * row as int + 2 * col as int;
                assert(k / 16 == row && k % 16 == 2 * col) by (nonlinear_arith)
                    requires
                        k == 16 * row + 2 * col,
                        col < 8,
                ;
                push_char(&mut text, self.glyph_at((7 - row) * 8 + col));
                assert(text@ =~= picture(b).take(k + 1));
                if col < 7 {
                    assert((k + 1) / 16 == row && (k + 1) % 16 == 2 * col + 1) by (nonlinear_arith)
                        requires
                            k == 16 * row + 2 * col,
                            col < 7,
                    ;
                    push_char(&mut text, ' ');
                    assert(text@ =~= picture(b).take(k + 2));
                }
                col = col + 1;
            }
            if row < 7 {
                let ghost k = 16 * row as int + 15;
                assert(k / 16 == row && k % 16 == 15) by (nonlinear_arith)
                    requires
                        k == 16 * row + 15,
                ;
                push_char(&mut text, '\n');
                assert(text@ =~= picture(b).take(k + 1));
            } else {
                assert(text@ =~= picture(b));
            }
            row = row + 1;
        }
        text
    }
}

} // verus!
