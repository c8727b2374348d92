//! A chess position as twelve bitboards, with a legal move generator, FEN
//! decoding, a board picture, and a resolver for short move notation.
//!
//! Squares are numbered `8 * rank + file` from a1 = 0 to h8 = 63. Colors are
//! `WHITE` = 0 and `BLACK` = 1; piece types run from `PAWN` = 0 to `KING` = 5.
pub mod attacks;
pub mod bb_ops;
pub mod board_text;
pub mod fen;
pub mod movegen;
pub mod moves;
pub mod patterns;
pub mod position;
pub mod san;
pub mod sliding;
pub mod squares;
