//! Which squares the pieces of a side attack, and whether a king is in check.
use vstd::prelude::*;
use crate::bb_ops::{
    has_bit, index_lookup, lemma_has_bit_and, lemma_has_bit_or, lemma_has_bit_zero,
    lemma_zero_iff_empty,
};
use crate::patterns::{
    get_king_attacks, get_knight_attacks, get_pawn_captures, king_step, knight_step, pawn_capture,
    BISHOP, KING, KNIGHT, PAWN, QUEEN, ROOK,
};
use crate::position::{all_bits, occupied, piece_on, slot, Position};
use crate::sliding::{bishop_attack, get_bishop_attacks, get_rook_attacks, rook_attack};

verus! {

/// Whether a piece of type `pt` and color `c` on `from` attacks `to`, the
/// occupied squares being `occ`. A pawn attacks its forward diagonals only.
pub open spec fn attacks_from(c: int, pt: int, from: int, occ: u64, to: int) -> bool {
    if pt == PAWN {
        pawn_capture(c, from, to)
    } else if pt == KNIGHT {
        knight_step(from, to)
    } else if pt == BISHOP {
        bishop_attack(from, occ, to)
    } else if pt == ROOK {
        rook_attack(from, occ, to)
    } else if pt == QUEEN {
        rook_attack(from, occ, to) || bishop_attack(from, occ, to)
    } else {
        king_step(from, to)
    }
}

/// Whether some piece of color `c` on the board `b` attacks `to`.
pub open spec fn attacked(b: Seq<u64>, c: int, to: int) -> bool {
    exists|pt: int, from: int|
        0 <= pt < 6 && #[trigger] piece_on(b, c, pt, from) && attacks_from(
            c,
            pt,
            from,
            all_bits(b),
            to,
        )
}

/// Whether some piece of color `c` of type `pt` on the board `b` attacks `to`.
pub open spec fn attacked_by_type(b: Seq<u64>, c: int, pt: int, to: int) -> bool {
    exists|from: int| #[trigger] piece_on(b, c, pt, from) && attacks_from(c, pt, from, all_bits(b), to)
}

/// Whether a king of color `c` on the board `b` stands on an attacked square.
pub open spec fn in_check(b: Seq<u64>, c: int) -> bool {
    exists|s: int| #[trigger] piece_on(b, c, KING as int, s) && attacked(b, 1 - c, s)
}

impl Position {
    /// The squares a piece of type `piece_type` and color `color` on `idx`
    /// attacks, whatever stands on them.
    pub fn get_piece_attacks_bb(&self, color: u8, idx: u8, piece_type: u8) -> (r: u64)
        requires
            color < 2,
            idx < 64,
            piece_type < 6,
        ensures
            forall|t: int| #[trigger]
                has_bit(r, t) == attacks_from(
                    color as int,
                    piece_type as int,
                    idx as int,
                    all_bits(self.board()),
                    t,
                ),
    {
        let occ = self.occupancy();
        if piece_type == PAWN {
            get_pawn_captures(color, idx)
        } else if piece_type == KNIGHT {
            get_knight_attacks(idx)
        } else if piece_type == BISHOP {
            get_bishop_attacks(idx, occ)
        } else if piece_type == ROOK {
            get_rook_attacks(idx, occ)
        } else if piece_type == QUEEN {
            let a = get_rook_attacks(idx, occ);
            let b = get_bishop_attacks(idx, occ);
            proof {
                assert forall|t: int| #[trigger] has_bit(a | b, t) == (rook_attack(
                    idx as int,
                    occ,
                    t,
                ) || bishop_attack(idx as int, occ, t)) by {
                    lemma_has_bit_or(a, b, t);
                }
            }
            a | b
        } else {
            get_king_attacks(idx)
        }
    }

    /// The squares attacked by the pieces of type `piece_type` and color `color`.
    pub fn get_all_piece_attacks_bb(&self, color: u8, piece_type: u8) -> (r: u64)
        requires
            color < 2,
            piece_type < 6,
        ensures
            forall|t: int| #[trigger]
                has_bit(r, t) == attacked_by_type(
                    self.board(),
                    color as int,
                    piece_type as int,
                    t,
                ),
    {
        let ghost b = self.board();
        let ghost (c, pt) = (color as int, piece_type as int);
        let k = (color * 6 + piece_type) as usize;
        let mut r: u64 = 0;
        let mut from: u8 = 0;
        proof {
            assert forall|t: int| #[trigger] has_bit(r, t) == false by {
                lemma_has_bit_zero(t);
            }
        }
        while from < 64
            invariant
                b == self.board(),
                c == color,
                pt == piece_type,
                color < 2,
                piece_type < 6,
                k == slot(c, pt),
                from <= 64,
                forall|t: int| #[trigger]
                    has_bit(r, t) == exists|f: int|
                        0 <= f < from && #[trigger] piece_on(b, c, pt, f) && attacks_from(
                            c,
                            pt,
                            f,
                            all_bits(b),
                            t,
                        ),
            decreases 64 - from,
        {
            let ghost prev = r;
            if index_lookup(self.piece_bbs[k], from) {
                let a = self.get_piece_attacks_bb(color, from, piece_type);
                r = r | a;
                assert forall|t: int| #[trigger]
                    has_bit(r, t) == exists|f: int|
                        0 <= f < from + 1 && #[trigger] piece_on(b, c, pt, f) && attacks_from(
                            c,
                            pt,
                            f,
                            all_bits(b),
                            t,
                        ) by {
                    lemma_has_bit_or(prev, a, t);
                    if has_bit(a, t) {
                        assert(piece_on(b, c, pt, from as int));
                    }
                    if exists|f: int|
                        0 <= f < from + 1 && #[trigger] piece_on(b, c, pt, f) && attacks_from(
                            c,
                            pt,
                            f,
                            all_bits(b),
                            t,
                        ) {
                        let f = choose|f: int|
                            0 <= f < from + 1 && #[trigger] piece_on(b, c, pt, f)
                                && attacks_from(c, pt, f, all_bits(b), t);
                        if f < from {
                            assert(has_bit(prev, t));
                        }
                    }
                }
            } else {
                assert forall|t: int| #[trigger]
                    has_bit(r, t) == exists|f: int|
                        0 <= f < from + 1 && #[trigger] piece_on(b, c, pt, f) && attacks_from(
                            c,
                            pt,
                            f,
                            all_bits(b),
                            t,
                        ) by {
                    if exists|f: int|
                        0 <= f < from + 1 && #[trigger] piece_on(b, c, pt, f) && attacks_from(
                            c,
                            pt,
                            f,
                            all_bits(b),
                            t,
                        ) {
                        let f = choose|f: int|
                            0 <= f < from + 1 && #[trigger] piece_on(b, c, pt, f)
                                && attacks_from(c, pt, f, all_bits(b), t);
                        if f < from {
                            assert(has_bit(prev, t));
                        }
                    }
                }
            }
            from = from + 1;
        }
        proof {
            assert forall|t: int| #[trigger]
                has_bit(r, t) == attacked_by_type(b, c, pt, t) by {
                if attacked_by_type(b, c, pt, t) {
                    let f = choose|f: int|
                        #[trigger] piece_on(b, c, pt, f) && attacks_from(c, pt, f, all_bits(b), t);
                    crate::bb_ops::lemma_has_bit_def(b[slot(c, pt)], f);
                }
            }
        }
        r
    }

    /// The squares attacked by at least one piece of `color`.
    pub fn get_all_attack_bitboard(&self, color: u8) -> (r: u64)
        requires
            color < 2,
        ensures
            forall|t: int| #[trigger] has_bit(r, t) == attacked(self.board(), color as int, t),
    {
        let ghost b = self.board();
        let ghost c = color as int;
        let p = self.get_all_piece_attacks_bb(color, PAWN);
        let n = self.get_all_piece_attacks_bb(color, KNIGHT);
        let bi = self.get_all_piece_attacks_bb(color, BISHOP);
        let ro = self.get_all_piece_attacks_bb(color, ROOK);
        let q = self.get_all_piece_attacks_bb(color, QUEEN);
        let k = self.get_all_piece_attacks_bb(color, KING);
        let r = p | n | bi | ro | q | k;
        proof {
            assert forall|t: int| #[trigger] has_bit(r, t) == attacked(b, c, t) by {
                lemma_has_bit_or(p | n | bi | ro | q, k, t);
                lemma_has_bit_or(p | n | bi | ro, q, t);
                lemma_has_bit_or(p | n | bi, ro, t);
                lemma_has_bit_or(p | n, bi, t);
                lemma_has_bit_or(p, n, t);
                if attacked(b, c, t) {
                    let (pt, f) = choose|pt: int, f: int|
                        0 <= pt < 6 && #[trigger] piece_on(b, c, pt, f) && attacks_from(
                            c,
                            pt,
                            f,
                            all_bits(b),
                            t,
                        );
                    assert(attacked_by_type(b, c, pt, t));
                }
                if attacked_by_type(b, c, 0, t) {
                    let f = choose|f: int| #[trigger] piece_on(b, c, 0, f)
                        && attacks_from(c, 0, f, all_bits(b), t);
                    assert(piece_on(b, c, 0, f));
                }
                if attacked_by_type(b, c, 1, t) {
                    let f = choose|f: int| #[trigger] piece_on(b, c, 1, f)
                        && attacks_from(c, 1, f, all_bits(b), t);
                    assert(piece_on(b, c, 1, f));
                }
                if attacked_by_type(b, c, 2, t) {
                    let f = choose|f: int| #[trigger] piece_on(b, c, 2, f)
                        && attacks_from(c, 2, f, all_bits(b), t);
                    assert(piece_on(b, c, 2, f));
                }
                if attacked_by_type(b, c, 3, t) {
                    let f = choose|f: int| #[trigger] piece_on(b, c, 3, f)
                        && attacks_from(c, 3, f, all_bits(b), t);
                    assert(piece_on(b, c, 3, f));
                }
                if attacked_by_type(b, c, 4, t) {
                    let f = choose|f: int| #[trigger] piece_on(b, c, 4, f)
                        && attacks_from(c, 4, f, all_bits(b), t);
                    assert(piece_on(b, c, 4, f));
                }
                if attacked_by_type(b, c, 5, t) {
                    let f = choose|f: int| #[trigger] piece_on(b, c, 5, f)
                        && attacks_from(c, 5, f, all_bits(b), t);
                    assert(piece_on(b, c, 5, f));
                }
            }
        }
        r
    }

    /// Whether the king of `color` stands on a square the opponent attacks.
    pub fn is_checked(&self, color: u8) -> (r: bool)
        requires
            color < 2,
        ensures
            r == in_check(self.board(), color as int),
    {
        let ghost b = self.board();
        let attacked_squares = self.get_all_attack_bitboard(1 - color);
        let king_bb = self.piece_bbs[(color * 6 + KING) as usize];
        let x = attacked_squares & king_bb;
        proof {
            lemma_zero_iff_empty(x);
            if x != 0 {
                let s = choose|s: int| 0 <= s < 64 && has_bit(x, s);
                lemma_has_bit_and(attacked_squares, king_bb, s);
                assert(piece_on(b, color as int, KING as int, s));
            }
            if in_check(b, color as int) {
                let s = choose|s: int| #[trigger] piece_on(b, color as int, KING as int, s)
                    && attacked(b, 1 - color, s);
                lemma_has_bit_and(attacked_squares, king_bb, s);
                crate::bb_ops::lemma_has_bit_def(king_bb, s);
            }
        }
        x != 0
    }
}

} // verus!
