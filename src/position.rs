//! The board state: twelve piece bitboards, the side to move, castling rights
//! and the en passant target square. Every move yields a new value.
use vstd::prelude::*;
use crate::bb_ops::{
    erase_idx_bit, has_bit, idx_bitscan, index_lookup, lemma_has_bit_def, lemma_has_bit_or,
    lemma_has_bit_zero, lemma_with_bit, lemma_without_bit, set_idx_bit, with_bit, without_bit,
};
use crate::moves::Move;
use crate::patterns::{
    back_rank, file_of, home_rank, rank_of, BISHOP, BLACK, KING, KNIGHT, PAWN, QUEEN, ROOK, WHITE,
};

verus! {

const WHITE_PAWNS_INIT: u64 = 0xFF00;

const BLACK_PAWNS_INIT: u64 = 0xFF000000000000;

const WHITE_KNIGHTS_INIT: u64 = 0x42;

const BLACK_KNIGHTS_INIT: u64 = 0x4200000000000000;

const WHITE_BISHOPS_INIT: u64 = 0x24;

const BLACK_BISHOPS_INIT: u64 = 0x2400000000000000;

const WHITE_ROOKS_INIT: u64 = 0x81;

const BLACK_ROOKS_INIT: u64 = 0x8100000000000000;

const WHITE_KINGS_INIT: u64 = 0x10;

const BLACK_KINGS_INIT: u64 = 0x1000000000000000;

const WHITE_QUEENS_INIT: u64 = 0x8;

const BLACK_QUEENS_INIT: u64 = 0x800000000000000;

pub const RANKS: u8 = 8;

pub const FILES: u8 = 8;

pub const NUM_PIECE_TYPES: u8 = 6;

/// Given a color, the opponent's color.
pub fn flip_color(color: u8) -> (r: u8)
    requires
        color < 2,
    ensures
        r == 1 - color,
{
    1 - color
}

/// The type of the piece that starts the game on file `f` of a back rank.
pub open spec fn start_type(f: int) -> int {
    if f == 0 || f == 7 {
        ROOK as int
    } else if f == 1 || f == 6 {
        KNIGHT as int
    } else if f == 2 || f == 5 {
        BISHOP as int
    } else if f == 3 {
        QUEEN as int
    } else {
        KING as int
    }
}

/// Whether a piece of type `pt` and color `c` stands on `s` when the game starts.
pub open spec fn start_piece(c: int, pt: int, s: int) -> bool {
    &&& 0 <= s < 64
    &&& (rank_of(s) == home_rank(c) && pt == PAWN) || (rank_of(s) == back_rank(c) && pt
        == start_type(file_of(s)))
}

proof fn lemma_start_bits(s: u64)
    by (bit_vector)
    requires
        s < 64,
    ensures
        ((WHITE_PAWNS_INIT >> s) & 1 == 1) == (s / 8 == 1),
        ((BLACK_PAWNS_INIT >> s) & 1 == 1) == (s / 8 == 6),
        ((WHITE_KNIGHTS_INIT >> s) & 1 == 1) == (s == 1 || s == 6),
        ((BLACK_KNIGHTS_INIT >> s) & 1 == 1) == (s == 57 || s == 62),
        ((WHITE_BISHOPS_INIT >> s) & 1 == 1) == (s == 2 || s == 5),
        ((BLACK_BISHOPS_INIT >> s) & 1 == 1) == (s == 58 || s == 61),
        ((WHITE_ROOKS_INIT >> s) & 1 == 1) == (s == 0 || s == 7),
        ((BLACK_ROOKS_INIT >> s) & 1 == 1) == (s == 56 || s == 63),
        ((WHITE_QUEENS_INIT >> s) & 1 == 1) == (s == 3),
        ((BLACK_QUEENS_INIT >> s) & 1 == 1) == (s == 59),
        ((WHITE_KINGS_INIT >> s) & 1 == 1) == (s == 4),
        ((BLACK_KINGS_INIT >> s) & 1 == 1) == (s == 60),
{
}

/// `b` with square `s` cleared on every bitboard.
pub open spec fn cleared(b: Seq<u64>, s: int) -> Seq<u64> {
    Seq::new(b.len(), |i: int| without_bit(b[i], s))
}

/// `b` with square `s` emptied and then given to bitboard `k`.
pub open spec fn placed(b: Seq<u64>, k: int, s: int) -> Seq<u64> {
    cleared(b, s).update(k, with_bit(cleared(b, s)[k], s))
}

/// No square is marked on two of the bitboards of `b`.
pub open spec fn disjoint(b: Seq<u64>) -> bool {
    forall|i: int, j: int, s: int|
        0 <= i < b.len() && 0 <= j < b.len() && i != j
            && #[trigger] has_bit(b[i], s) ==> !#[trigger] has_bit(b[j], s)
}

/// The bitboard index of the pieces of type `pt` and color `c`.
pub open spec fn slot(c: int, pt: int) -> int {
    c * 6 + pt
}

/// The square of the pawn taken en passant by a pawn of `color` that lands on `target`.
pub open spec fn ep_victim(color: int, target: int) -> int {
    if color == WHITE {
        target - 8
    } else {
        target + 8
    }
}

/// The piece that stands on the target square of a standard move afterwards.
pub open spec fn landing_type(pt: u8, promo: Option<u8>) -> int {
    match promo {
        Some(q) => q as int,
        None => pt as int,
    }
}

/// Whether a piece of type `pt` and color `c` stands on `s` on the board `b`.
pub open spec fn piece_on(b: Seq<u64>, c: int, pt: int, s: int) -> bool {
    has_bit(b[slot(c, pt)], s)
}

/// Whether a piece of color `c` stands on `s`.
pub open spec fn occupied_by(b: Seq<u64>, c: int, s: int) -> bool {
    exists|pt: int| 0 <= pt < 6 && #[trigger] piece_on(b, c, pt, s)
}

/// Whether any piece stands on `s`.
pub open spec fn occupied(b: Seq<u64>, s: int) -> bool {
    occupied_by(b, WHITE as int, s) || occupied_by(b, BLACK as int, s)
}

/// The type of the piece of color `c` on `s`, trying the types in order.
pub open spec fn type_on(b: Seq<u64>, c: int, s: int) -> Option<u8> {
    if piece_on(b, c, 0, s) {
        Some(0u8)
    } else if piece_on(b, c, 1, s) {
        Some(1u8)
    } else if piece_on(b, c, 2, s) {
        Some(2u8)
    } else if piece_on(b, c, 3, s) {
        Some(3u8)
    } else if piece_on(b, c, 4, s) {
        Some(4u8)
    } else if piece_on(b, c, 5, s) {
        Some(5u8)
    } else {
        None
    }
}

/// The type and color of the piece on `s`, white taking precedence.
pub open spec fn piece_and_color_on(b: Seq<u64>, s: int) -> Option<(u8, u8)> {
    match type_on(b, WHITE as int, s) {
        Some(t) => Some((t, WHITE)),
        None => match type_on(b, BLACK as int, s) {
            Some(t) => Some((t, BLACK)),
            None => None,
        },
    }
}

/// The union of the bitboards of color `c`.
pub open spec fn color_bits(b: Seq<u64>, c: int) -> u64 {
    b[slot(c, 0)] | b[slot(c, 1)] | b[slot(c, 2)] | b[slot(c, 3)] | b[slot(c, 4)] | b[slot(c, 5)]
}

/// The union of all twelve bitboards.
pub open spec fn all_bits(b: Seq<u64>) -> u64 {
    color_bits(b, WHITE as int) | color_bits(b, BLACK as int)
}

/// The union of the bitboards of a color marks exactly the squares of its pieces.
pub proof fn lemma_color_bits(b: Seq<u64>, c: int)
    requires
        0 <= c < 2,
        b.len() == 12,
    ensures
        forall|s: int| #[trigger] has_bit(color_bits(b, c), s) == occupied_by(b, c, s),
        forall|s: int| #[trigger] has_bit(all_bits(b), s) == occupied(b, s),
{
    assert forall|s: int| #[trigger] has_bit(color_bits(b, c), s) == occupied_by(b, c, s) by {
        lemma_color_bits_at(b, c, s);
    }
    assert forall|s: int| #[trigger] has_bit(all_bits(b), s) == occupied(b, s) by {
        lemma_color_bits_at(b, WHITE as int, s);
        lemma_color_bits_at(b, BLACK as int, s);
        lemma_has_bit_or(color_bits(b, WHITE as int), color_bits(b, BLACK as int), s);
    }
}

proof fn lemma_color_bits_at(b: Seq<u64>, c: int, s: int)
    requires
        0 <= c < 2,
        b.len() == 12,
    ensures
        has_bit(color_bits(b, c), s) == occupied_by(b, c, s),
{
    let b0 = b[slot(c, 0)];
    let b1 = b[slot(c, 1)];
    let b2 = b[slot(c, 2)];
    let b3 = b[slot(c, 3)];
    let b4 = b[slot(c, 4)];
    let b5 = b[slot(c, 5)];
    lemma_has_bit_or(b0 | b1 | b2 | b3 | b4, b5, s);
    lemma_has_bit_or(b0 | b1 | b2 | b3, b4, s);
    lemma_has_bit_or(b0 | b1 | b2, b3, s);
    lemma_has_bit_or(b0 | b1, b2, s);
    lemma_has_bit_or(b0, b1, s);
    if has_bit(color_bits(b, c), s) {
        if has_bit(b0, s) {
            assert(piece_on(b, c, 0, s));
        } else if has_bit(b1, s) {
            assert(piece_on(b, c, 1, s));
        } else if has_bit(b2, s) {
            assert(piece_on(b, c, 2, s));
        } else if has_bit(b3, s) {
            assert(piece_on(b, c, 3, s));
        } else if has_bit(b4, s) {
            assert(piece_on(b, c, 4, s));
        } else {
            assert(piece_on(b, c, 5, s));
        }
    }
}

/// Clearing a square keeps the bitboards disjoint.
pub proof fn lemma_cleared_disjoint(b: Seq<u64>, s: int)
    requires
        disjoint(b),
        0 <= s < 64,
    ensures
        disjoint(cleared(b, s)),
        cleared(b, s).len() == b.len(),
{
    let c = cleared(b, s);
    assert forall|i: int, j: int, t: int|
        0 <= i < c.len() && 0 <= j < c.len() && i != j && #[trigger] has_bit(c[i], t)
            implies !#[trigger] has_bit(c[j], t) by {
        lemma_without_bit(b[i], s);
        lemma_without_bit(b[j], s);
    }
}

/// Placing a piece on an emptied square keeps the bitboards disjoint.
pub proof fn lemma_placed_disjoint(b: Seq<u64>, k: int, s: int)
    requires
        disjoint(b),
        0 <= s < 64,
        0 <= k < b.len(),
    ensures
        disjoint(placed(b, k, s)),
        placed(b, k, s).len() == b.len(),
        forall|i: int, t: int|
            0 <= i < b.len() ==> #[trigger] has_bit(placed(b, k, s)[i], t) == (if t == s {
                i == k
            } else {
                has_bit(b[i], t)
            }),
{
    let c = cleared(b, s);
    let p = placed(b, k, s);
    lemma_with_bit(c[k], s);
    assert forall|i: int, t: int|
        0 <= i < b.len() implies #[trigger] has_bit(p[i], t) == (if t == s {
            i == k
        } else {
            has_bit(b[i], t)
        }) by {
        lemma_without_bit(b[i], s);
        lemma_without_bit(b[k], s);
    }
}

/// A move whose squares and piece types lie in range, for a side `color` to move.
pub open spec fn move_fits(m: Move, color: int) -> bool {
    match m {
        Move::StandardMove(pt, o, t, cap, promo, ep) => {
            &&& pt < 6
            &&& o < 64
            &&& t < 64
            &&& (promo matches Some(q) ==> q < 6)
            &&& (ep matches Some(e) ==> e < 64)
        },
        Move::EnPassant(o, t) => o < 64 && t < 64 && 0 <= ep_victim(color, t as int) < 64,
        _ => true,
    }
}

/// A position: bitboard `6 * color + piece_type` marks the squares of those pieces.
#[derive(Clone, Copy, Debug, PartialEq, Eq)]
pub struct Position {
    pub turn: u8,
    pub piece_bbs: [u64; 12],
    pub qs_castle: [bool; 2],
    pub ks_castle: [bool; 2],
    pub en_passant: Option<u8>,
}

impl Position {
    /// The twelve bitboards.
    pub open spec fn board(&self) -> Seq<u64> {
        self.piece_bbs@
    }

    /// The position's invariant: a valid side to move and en passant square, and
    /// at most one piece on any square.
    pub open spec fn wf(&self) -> bool {
        &&& self.turn < 2
        &&& (self.en_passant matches Some(e) ==> e < 64)
        &&& disjoint(self.piece_bbs@)
    }

    /// The bitboards after move `m` by the side to move.
    pub open spec fn board_after(&self, m: Move) -> Seq<u64> {
        let c = self.turn as int;
        let b = self.piece_bbs@;
        let base = back_rank(c) * 8;
        match m {
            Move::StandardMove(pt, o, t, _, promo, _) => placed(
                cleared(b, o as int),
                slot(c, landing_type(pt, promo)),
                t as int,
            ),
            Move::EnPassant(o, t) => cleared(
                placed(cleared(b, o as int), slot(c, PAWN as int), t as int),
                ep_victim(c, t as int),
            ),
            Move::ShortCastle => placed(
                cleared(placed(cleared(b, base + 4), slot(c, KING as int), base + 6), base + 7),
                slot(c, ROOK as int),
                base + 5,
            ),
            Move::LongCastle => placed(
                cleared(placed(cleared(b, base + 4), slot(c, KING as int), base + 2), base),
                slot(c, ROOK as int),
                base + 3,
            ),
        }
    }

    /// The en passant target after move `m`.
    pub open spec fn en_passant_after(&self, m: Move) -> Option<u8> {
        match m {
            Move::StandardMove(_, _, _, _, _, ep) => ep,
            _ => None,
        }
    }

    /// Whether `q` is the position after move `m` by the side to move: the
    /// pieces moved, the side to move flipped, the en passant target taken from
    /// the move, and the mover's castling rights gone after a castle.
    pub open spec fn is_after(&self, m: Move, q: Position) -> bool {
        let c = self.turn as int;
        let castles = m is ShortCastle || m is LongCastle;
        &&& q.turn == 1 - self.turn
        &&& q.piece_bbs@ == self.board_after(m)
        &&& q.en_passant == self.en_passant_after(m)
        &&& forall|i: int|
            0 <= i < 2 ==> #[trigger] q.ks_castle@[i] == (self.ks_castle@[i] && !(castles && i
                == c))
        &&& forall|i: int|
            0 <= i < 2 ==> #[trigger] q.qs_castle@[i] == (self.qs_castle@[i] && !(castles && i
                == c))
    }
}

/// Applying any move whose squares fit the board keeps every square to at most
/// one piece.
pub proof fn lemma_move_keeps_squares_single(p: Position, m: Move)
    requires
        p.wf(),
        move_fits(m, p.turn as int),
    ensures
        disjoint(p.board_after(m)),
        p.board_after(m).len() == 12,
{
    let c = p.turn as int;
    let b0 = p.piece_bbs@;
    match m {
        Move::StandardMove(pt, o, t, _, promo, _) => {
            lemma_cleared_disjoint(b0, o as int);
            lemma_placed_disjoint(cleared(b0, o as int), slot(c, landing_type(pt, promo)), t as int);
        },
        Move::EnPassant(o, t) => {
            lemma_cleared_disjoint(b0, o as int);
            let b1 = cleared(b0, o as int);
            lemma_placed_disjoint(b1, slot(c, PAWN as int), t as int);
            lemma_cleared_disjoint(placed(b1, slot(c, PAWN as int), t as int), ep_victim(c, t as int));
        },
        Move::ShortCastle => {
            let e = back_rank(c) * 8 + 4;
            let k = slot(c, KING as int);
            lemma_cleared_disjoint(b0, e);
            let b1 = cleared(b0, e);
            lemma_placed_disjoint(b1, k, e + 2);
            let b2 = placed(b1, k, e + 2);
            lemma_cleared_disjoint(b2, e + 3);
            lemma_placed_disjoint(cleared(b2, e + 3), slot(c, ROOK as int), e + 1);
        },
        Move::LongCastle => {
            let e = back_rank(c) * 8 + 4;
            let k = slot(c, KING as int);
            lemma_cleared_disjoint(b0, e);
            let b1 = cleared(b0, e);
            lemma_placed_disjoint(b1, k, e - 2);
            let b2 = placed(b1, k, e - 2);
            lemma_cleared_disjoint(b2, e - 4);
            lemma_placed_disjoint(cleared(b2, e - 4), slot(c, ROOK as int), e - 1);
        },
    }
}

/// Castling rights are never regained by a move, and a castle takes both
/// rights of the side that castles.
pub proof fn lemma_castling_rights_only_fall(p: Position, m: Move, q: Position)
    requires
        p.wf(),
        p.is_after(m, q),
    ensures
        forall|i: int| 0 <= i < 2 && #[trigger] q.ks_castle@[i] ==> p.ks_castle@[i],
        forall|i: int| 0 <= i < 2 && #[trigger] q.qs_castle@[i] ==> p.qs_castle@[i],
        (m is ShortCastle || m is LongCastle) ==> !q.ks_castle@[p.turn as int] && !q.qs_castle@[
            p.turn as int],
{
}

impl Position {
    /// The board with no pieces, white to move and every castling right held.
    pub fn empty() -> (r: Position)
        ensures
            r.wf(),
            r.turn == WHITE,
            forall|i: int, s: int| 0 <= i < 12 ==> !#[trigger] has_bit(r.piece_bbs@[i], s),
            r.qs_castle@ == seq![true, true],
            r.ks_castle@ == seq![true, true],
            r.en_passant is None,
    {
        let r = Position {
            turn: WHITE,
            piece_bbs: [0; 12],
            qs_castle: [true, true],
            ks_castle: [true, true],
            en_passant: None,
        };
        proof {
            assert forall|i: int, s: int| 0 <= i < 12 implies !#[trigger] has_bit(
                r.piece_bbs@[i],
                s,
            ) by {
                lemma_has_bit_zero(s);
            }
            assert(r.qs_castle@ =~= seq![true, true]);
            assert(r.ks_castle@ =~= seq![true, true]);
        }
        r
    }

    /// A position made of the given parts.
    pub fn new(
        turn: u8,
        piece_bbs: [u64; 12],
        qs_castle: [bool; 2],
        ks_castle: [bool; 2],
        en_passant: Option<u8>,
    ) -> (r: Position)
        ensures
            r == (Position { turn, piece_bbs, qs_castle, ks_castle, en_passant }),
    {
        Position { turn, piece_bbs, qs_castle, ks_castle, en_passant }
    }

    /// The position in which a game of chess starts.
    pub fn starting_position() -> (r: Position)
        ensures
            r.wf(),
            r.turn == WHITE,
            forall|c: int, pt: int, s: int|
                0 <= c < 2 && 0 <= pt < 6 ==> #[trigger] piece_on(r.board(), c, pt, s)
                    == start_piece(c, pt, s),
            r.qs_castle@ == seq![true, true],
            r.ks_castle@ == seq![true, true],
            r.en_passant is None,
    {
        let r = Position {
            turn: WHITE,
            piece_bbs: [
                WHITE_PAWNS_INIT,
                WHITE_KNIGHTS_INIT,
                WHITE_BISHOPS_INIT,
                WHITE_ROOKS_INIT,
                WHITE_QUEENS_INIT,
                WHITE_KINGS_INIT,
                BLACK_PAWNS_INIT,
                BLACK_KNIGHTS_INIT,
                BLACK_BISHOPS_INIT,
                BLACK_ROOKS_INIT,
                BLACK_QUEENS_INIT,
                BLACK_KINGS_INIT,
            ],
            qs_castle: [true, true],
            ks_castle: [true, true],
            en_passant: None,
        };
        proof {
            assert forall|c: int, pt: int, s: int|
                0 <= c < 2 && 0 <= pt < 6 implies #[trigger] piece_on(r.board(), c, pt, s)
                    == start_piece(c, pt, s) by {
                lemma_has_bit_def(r.piece_bbs@[slot(c, pt)], s);
                if 0 <= s < 64 {
                    lemma_start_bits(s as u64);
                }
            }
            assert forall|i: int, j: int, s: int|
                0 <= i < 12 && 0 <= j < 12 && i != j && #[trigger] has_bit(r.piece_bbs@[i], s)
                    implies !#[trigger] has_bit(r.piece_bbs@[j], s) by {
                lemma_has_bit_def(r.piece_bbs@[i], s);
                assert(0 <= s < 64);
                assert(piece_on(r.board(), i / 6, i % 6, s) == start_piece(i / 6, i % 6, s));
                assert(piece_on(r.board(), j / 6, j % 6, s) == start_piece(j / 6, j % 6, s));
            }
            assert(r.qs_castle@ =~= seq![true, true]);
            assert(r.ks_castle@ =~= seq![true, true]);
        }
        r
    }

    /// Clears square `idx` on every bitboard.
    fn remove_piece(&mut self, idx: u8)
        requires
            idx < 64,
        ensures
            final(self).piece_bbs@ == cleared(old(self).piece_bbs@, idx as int),
            final(self).turn == old(self).turn,
            final(self).qs_castle == old(self).qs_castle,
            final(self).ks_castle == old(self).ks_castle,
            final(self).en_passant == old(self).en_passant,
    {
        let mut i: usize = 0;
        while i < 12
            invariant
                idx < 64,
                i <= 12,
                forall|j: int|
                    0 <= j < i ==> self.piece_bbs@[j] == without_bit(
                        old(self).piece_bbs@[j],
                        idx as int,
                    ),
                forall|j: int| i <= j < 12 ==> self.piece_bbs@[j] == old(self).piece_bbs@[j],
                self.turn == old(self).turn,
                self.qs_castle == old(self).qs_castle,
                self.ks_castle == old(self).ks_castle,
                self.en_passant == old(self).en_passant,
            decreases 12 - i,
        {
            self.piece_bbs[i] = erase_idx_bit(self.piece_bbs[i], idx);
            i = i + 1;
        }
        assert(self.piece_bbs@ =~= cleared(old(self).piece_bbs@, idx as int));
    }

    /// Puts a piece of type `piece_type` and color `color` on square `idx`,
    /// taking away whatever stood there.
    pub(crate) fn add_piece(&mut self, color: u8, piece_type: u8, idx: u8)
        requires
            color < 2,
            piece_type < 6,
            idx < 64,
        ensures
            final(self).piece_bbs@ == placed(
                old(self).piece_bbs@,
                slot(color as int, piece_type as int),
                idx as int,
            ),
            final(self).turn == old(self).turn,
            final(self).qs_castle == old(self).qs_castle,
            final(self).ks_castle == old(self).ks_castle,
            final(self).en_passant == old(self).en_passant,
    {
        self.remove_piece(idx);
        let k = (color * NUM_PIECE_TYPES + piece_type) as usize;
        self.piece_bbs[k] = set_idx_bit(self.piece_bbs[k], idx);
        assert(self.piece_bbs@ =~= placed(
            old(self).piece_bbs@,
            slot(color as int, piece_type as int),
            idx as int,
        ));
    }

    /// Hands the move to the other side.
    pub fn flip_turn(&mut self)
        requires
            old(self).turn < 2,
        ensures
            final(self).turn == 1 - old(self).turn,
            final(self).piece_bbs == old(self).piece_bbs,
            final(self).qs_castle == old(self).qs_castle,
            final(self).ks_castle == old(self).ks_castle,
            final(self).en_passant == old(self).en_passant,
    {
        self.turn = flip_color(self.turn);
    }

    /// The position after move `m` by the side to move. The move is not checked
    /// for legality: it should come from this position's move generator.
    pub fn make_move(&self, m: Move) -> (r: Position)
        requires
            self.wf(),
            move_fits(m, self.turn as int),
        ensures
            self.is_after(m, r),
            r.wf(),
    {
        proof {
            lemma_move_keeps_squares_single(*self, m);
        }
        let mut p = *self;
        let c = self.turn;
        match m {
            Move::StandardMove(piece_type, origin, target, _, promotes_to, en_passant) => {
                p.remove_piece(origin);
                let tgt_type = match promotes_to {
                    Some(t) => t,
                    None => piece_type,
                };
                p.add_piece(c, tgt_type, target);
                p.en_passant = en_passant;
            },
            Move::EnPassant(origin, target) => {
                p.remove_piece(origin);
                p.add_piece(c, PAWN, target);
                let captured_square = if c == WHITE {
                    target - FILES
                } else {
                    target + FILES
                };
                p.remove_piece(captured_square);
                p.en_passant = None;
            },
            Move::ShortCastle => {
                let e: u8 = if c == WHITE {
                    4
                } else {
                    60
                };
                p.remove_piece(e);
                p.add_piece(c, KING, e + 2);
                p.remove_piece(e + 3);
                p.add_piece(c, ROOK, e + 1);
                p.remove_castling_rights(c);
                p.en_passant = None;
            },
            Move::LongCastle => {
                let e: u8 = if c == WHITE {
                    4
                } else {
                    60
                };
                p.remove_piece(e);
                p.add_piece(c, KING, e - 2);
                p.remove_piece(e - 4);
                p.add_piece(c, ROOK, e - 1);
                p.remove_castling_rights(c);
                p.en_passant = None;
            },
        }
        p.flip_turn();
        p
    }

    /// Whether `color` still holds the right to castle on the king's side.
    pub fn can_castle_kingside(&self, color: u8) -> (r: bool)
        requires
            color < 2,
        ensures
            r == self.ks_castle@[color as int],
    {
        self.ks_castle[color as usize]
    }

    /// Whether `color` still holds the right to castle on the queen's side.
    pub fn can_castle_queenside(&self, color: u8) -> (r: bool)
        requires
            color < 2,
        ensures
            r == self.qs_castle@[color as int],
    {
        self.qs_castle[color as usize]
    }

    /// Takes both castling rights from `color`.
    pub fn remove_castling_rights(&mut self, color: u8)
        requires
            color < 2,
        ensures
            final(self).ks_castle@ == old(self).ks_castle@.update(color as int, false),
            final(self).qs_castle@ == old(self).qs_castle@.update(color as int, false),
            final(self).turn == old(self).turn,
            final(self).piece_bbs == old(self).piece_bbs,
            final(self).en_passant == old(self).en_passant,
    {
        self.ks_castle[color as usize] = false;
        self.qs_castle[color as usize] = false;
    }

    /// Gives both castling rights back to `color`; for setting up positions.
    pub fn restore_castling_rights(&mut self, color: u8)
        requires
            color < 2,
        ensures
            final(self).ks_castle@ == old(self).ks_castle@.update(color as int, true),
            final(self).qs_castle@ == old(self).qs_castle@.update(color as int, true),
            final(self).turn == old(self).turn,
            final(self).piece_bbs == old(self).piece_bbs,
            final(self).en_passant == old(self).en_passant,
    {
        self.ks_castle[color as usize] = true;
        self.qs_castle[color as usize] = true;
    }

    /// The bitboard with index `idx` (`6 * color + piece_type`).
    pub fn get_bitboard(&self, idx: usize) -> (r: u64)
        requires
            idx < 12,
        ensures
            r == self.piece_bbs@[idx as int],
    {
        self.piece_bbs[idx]
    }

    /// The pieces of type `piece_type` and color `color`.
    pub fn get_piece_bitboard(&self, color: u8, piece_type: u8) -> (r: u64)
        requires
            color < 2,
            piece_type < 6,
        ensures
            r == self.piece_bbs@[slot(color as int, piece_type as int)],
    {
        self.piece_bbs[(color * NUM_PIECE_TYPES + piece_type) as usize]
    }

    /// All pieces of `color`.
    pub fn get_all_piece_bitboard(&self, color: u8) -> (r: u64)
        requires
            color < 2,
        ensures
            r == color_bits(self.board(), color as int),
    {
        let k = (color * 6) as usize;
        self.piece_bbs[k] | self.piece_bbs[k + 1] | self.piece_bbs[k + 2] | self.piece_bbs[k + 3]
            | self.piece_bbs[k + 4] | self.piece_bbs[k + 5]
    }

    /// All pieces of both colors.
    pub(crate) fn occupancy(&self) -> (r: u64)
        ensures
            r == all_bits(self.board()),
    {
        self.get_all_piece_bitboard(WHITE) | self.get_all_piece_bitboard(BLACK)
    }

    /// The pieces of `color`, which block its own sliding pieces.
    pub(crate) fn get_friendly_blockers(&self, color: u8) -> (r: u64)
        requires
            color < 2,
        ensures
            r == color_bits(self.board(), color as int),
    {
        self.get_all_piece_bitboard(color)
    }

    /// The pieces of the opponent of `color`.
    pub(crate) fn get_opponent_blockers(&self, color: u8) -> (r: u64)
        requires
            color < 2,
        ensures
            r == color_bits(self.board(), 1 - color),
    {
        self.get_all_piece_bitboard(flip_color(color))
    }

    /// The pieces of both colors.
    pub(crate) fn get_all_blockers(&self, color: u8) -> (r: u64)
        requires
            color < 2,
        ensures
            forall|s: int| #[trigger] has_bit(r, s) == occupied(self.board(), s),
    {
        let a = self.get_friendly_blockers(color);
        let b = self.get_opponent_blockers(color);
        proof {
            lemma_color_bits(self.board(), 0);
            lemma_color_bits(self.board(), 1);
            assert forall|s: int| #[trigger] has_bit(a | b, s) == occupied(self.board(), s) by {
                lemma_has_bit_or(a, b, s);
            }
        }
        a | b
    }

    /// Whether a piece of `color` stands on `sq`.
    pub fn is_occupied_by(&self, color: u8, sq: u8) -> (r: bool)
        requires
            color < 2,
            sq < 64,
        ensures
            r == occupied_by(self.board(), color as int, sq as int),
    {
        proof {
            lemma_color_bits(self.board(), color as int);
        }
        index_lookup(self.get_all_piece_bitboard(color), sq)
    }

    /// The type of the piece of `color` on `idx`, if any.
    pub fn get_piece_at(&self, color: u8, idx: u8) -> (r: Option<u8>)
        requires
            color < 2,
            idx < 64,
        ensures
            r == type_on(self.board(), color as int, idx as int),
    {
        let mut piece_type: u8 = 0;
        while piece_type < NUM_PIECE_TYPES
            invariant
                color < 2,
                idx < 64,
                piece_type <= 6,
                forall|pt: int|
                    0 <= pt < piece_type ==> !#[trigger] piece_on(
                        self.board(),
                        color as int,
                        pt,
                        idx as int,
                    ),
            decreases 6 - piece_type,
        {
            if index_lookup(self.piece_bbs[(color * NUM_PIECE_TYPES + piece_type) as usize], idx) {
                assert(piece_on(self.board(), color as int, piece_type as int, idx as int));
                return Some(piece_type);
            }
            piece_type = piece_type + 1;
        }
        None
    }

    /// The type and color of the piece on `idx`, if any.
    pub fn get_piece_and_color_at(&self, idx: u8) -> (r: Option<(u8, u8)>)
        requires
            idx < 64,
        ensures
            r == piece_and_color_on(self.board(), idx as int),
    {
        match self.get_piece_at(WHITE, idx) {
            Some(t) => Some((t, WHITE)),
            None => match self.get_piece_at(BLACK, idx) {
                Some(t) => Some((t, BLACK)),
                None => None,
            },
        }
    }

    /// The squares of the pieces of type `piece_type` and color `color`, in
    /// increasing order.
    pub(crate) fn get_piece_indices(&self, color: u8, piece_type: u8) -> (r: Vec<u8>)
        requires
            color < 2,
            piece_type < 6,
        ensures
            forall|i: int, j: int| 0 <= i < j < r@.len() ==> r@[i] < r@[j],
            forall|i: int|
                0 <= i < r@.len() ==> piece_on(
                    self.board(),
                    color as int,
                    piece_type as int,
                    #[trigger] r@[i] as int,
                ),
            forall|s: int|
                #[trigger] piece_on(self.board(), color as int, piece_type as int, s)
                    ==> r@.contains(s as u8),
    {
        idx_bitscan(self.get_piece_bitboard(color, piece_type))
    }
}

} // verus!
