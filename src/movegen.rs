//! Legal move generation. Candidate moves follow each piece's movement rules;
//! each candidate is then applied to a copy of the position, and kept only if
//! the mover's king is not attacked afterwards. King steps already avoid the
//! squares the opponent attacks, and castles already require an unattacked
//! path; they pass the same test all the same, which also keeps a king from
//! stepping back along the line of a piece that checks it.
use vstd::prelude::*;
use crate::attacks::{attacked, attacks_from, in_check};
use crate::bb_ops::{
    has_bit, index_lookup, lemma_has_bit_and, lemma_has_bit_not, lemma_has_bit_zero,
};
use crate::moves::Move;
use crate::sliding::{get_bishop_attacks, get_rook_attacks};
use crate::patterns::{
    back_rank, castle_gap, get_king_attacks, get_knight_attacks, get_pawn_captures,
    get_pawn_double_steps, get_pawn_moves, pawn_capture, pawn_double, pawn_push, promotion_rank,
    rank_of, castle_transit, forward, get_castling_transit, get_ks_castling_squares,
    get_qs_castling_squares, BISHOP, KING, KNIGHT, PAWN, QUEEN, ROOK, WHITE,
};
use crate::position::{
    lemma_color_bits, move_fits, occupied, occupied_by, piece_on, type_on, Position,
};

verus! {

/// Pushing `x` adds `x` and keeps everything else.
pub proof fn lemma_push_contains<A>(s: Seq<A>, x: A)
    ensures
        forall|y: A| #[trigger] s.push(x).contains(y) == (s.contains(y) || y == x),
{
    assert forall|y: A| #[trigger] s.push(x).contains(y) == (s.contains(y) || y == x) by {
        if s.contains(y) {
            let i = choose|i: int| 0 <= i < s.len() && s[i] == y;
            assert(s.push(x)[i] == y);
        }
        if y == x {
            assert(s.push(x)[s.len() as int] == y);
        }
        if s.push(x).contains(y) {
            let i = choose|i: int| 0 <= i < s.len() + 1 && s.push(x)[i] == y;
            if i < s.len() {
                assert(s[i] == y);
            }
        }
    }
}

/// A concatenation holds what either part holds.
pub proof fn lemma_concat_contains<A>(a: Seq<A>, b: Seq<A>)
    ensures
        forall|y: A| #[trigger] (a + b).contains(y) == (a.contains(y) || b.contains(y)),
{
    assert forall|y: A| #[trigger] (a + b).contains(y) == (a.contains(y) || b.contains(y)) by {
        if a.contains(y) {
            let i = choose|i: int| 0 <= i < a.len() && a[i] == y;
            assert((a + b)[i] == y);
        }
        if b.contains(y) {
            let i = choose|i: int| 0 <= i < b.len() && b[i] == y;
            assert((a + b)[a.len() + i] == y);
        }
        if (a + b).contains(y) {
            let i = choose|i: int| 0 <= i < a.len() + b.len() && (a + b)[i] == y;
            if i < a.len() {
                assert(a[i] == y);
            } else {
                assert(b[i - a.len()] == y);
            }
        }
    }
}

/// Pushing an element not yet held keeps a sequence free of duplicates.
pub proof fn lemma_push_no_duplicates<A>(s: Seq<A>, x: A)
    ensures
        s.no_duplicates() && !s.contains(x) ==> s.push(x).no_duplicates(),
{
    if s.no_duplicates() && !s.contains(x) {
        assert forall|i: int, j: int|
            0 <= i < s.len() + 1 && 0 <= j < s.len() + 1 && i != j implies s.push(x)[i] != s.push(
                x,
            )[j] by {
            if i == s.len() {
                assert(s[j] == s.push(x)[j]);
            } else if j == s.len() {
                assert(s[i] == s.push(x)[i]);
            }
        }
    }
}

/// Two sequences free of duplicates and with nothing in common concatenate to
/// one free of duplicates.
pub proof fn lemma_concat_no_duplicates<A>(a: Seq<A>, b: Seq<A>)
    requires
        a.no_duplicates(),
        b.no_duplicates(),
        forall|x: A| #[trigger] a.contains(x) ==> !b.contains(x),
    ensures
        (a + b).no_duplicates(),
{
    assert forall|i: int, j: int|
        0 <= i < a.len() + b.len() && 0 <= j < a.len() + b.len() && i != j implies (a + b)[i] != (a
        + b)[j] by {
        if i < a.len() && j >= a.len() {
            assert(a.contains(a[i]));
            assert(b[j - a.len()] == (a + b)[j]);
        } else if j < a.len() && i >= a.len() {
            assert(a.contains(a[j]));
            assert(b[i - a.len()] == (a + b)[i]);
        }
    }
}

/// A move offered for a piece names that piece's square: no move is offered
/// for two squares.
pub proof fn lemma_legal_origin_unique(p: Position, c: int, pt: int, o1: int, o2: int, m: Move)
    requires
        piece_legal(p, c, pt, o1, m),
        piece_legal(p, c, pt, o2, m),
    ensures
        o1 == o2,
{
}

/// A move offered for a piece type names that type: no move is offered for
/// two types.
pub proof fn lemma_legal_type_unique(
    p: Position,
    c: int,
    pt1: int,
    pt2: int,
    o1: int,
    o2: int,
    m: Move,
)
    requires
        piece_legal(p, c, pt1, o1, m),
        piece_legal(p, c, pt2, o2, m),
    ensures
        pt1 == pt2,
{
}

/// Whether move `m` by the side to move leaves that side's king unattacked.
pub open spec fn keeps_king_safe(p: Position, m: Move) -> bool {
    !in_check(p.board_after(m), p.turn as int)
}

/// The squares a piece of type `pt` (not a pawn) and color `c` on `o` may move
/// to: those it attacks that hold no piece of its own, and for a king only
/// those the opponent does not attack either.
pub open spec fn piece_target(b: Seq<u64>, c: int, pt: int, o: int, t: int) -> bool {
    &&& 0 <= t < 64
    &&& attacks_from(c, pt, o, crate::position::all_bits(b), t)
    &&& !occupied_by(b, c, t)
    &&& (pt == KING ==> !attacked(b, 1 - c, t))
}

/// The square a pawn of color `c` on `o` jumps over with a double step.
pub open spec fn jumped_square(c: int, o: int) -> int {
    o + 8 * forward(c)
}

/// The squares a pawn of color `c` on `o` reaches in one move: an empty square
/// ahead, or an opponent's piece on a forward diagonal.
pub open spec fn pawn_single_target(b: Seq<u64>, c: int, o: int, t: int) -> bool {
    (pawn_push(c, o, t) && !occupied(b, t)) || (pawn_capture(c, o, t) && occupied_by(b, 1 - c, t))
}

/// The square a pawn of color `c` on `o` reaches with a double step through
/// two empty squares.
pub open spec fn pawn_double_target(b: Seq<u64>, c: int, o: int, t: int) -> bool {
    pawn_double(c, o, t) && !occupied(b, jumped_square(c, o)) && !occupied(b, t)
}

/// Whether `q` is a piece type a pawn may promote to.
pub open spec fn promotable(q: u8) -> bool {
    q == KNIGHT || q == BISHOP || q == ROOK || q == QUEEN
}

/// Whether `m` follows the movement rules of a pawn of color `c` on `o`.
pub open spec fn pawn_move_ok(p: Position, c: int, o: int, m: Move) -> bool {
    let b = p.board();
    match m {
        Move::StandardMove(pt, o2, t, cap, promo, ep) => {
            &&& pt == PAWN
            &&& o2 == o
            &&& {
                ||| {
                    &&& pawn_single_target(b, c, o, t as int)
                    &&& cap == type_on(b, 1 - c, t as int)
                    &&& ep is None
                    &&& if rank_of(t as int) == promotion_rank(c) {
                        promo matches Some(q) && promotable(q)
                    } else {
                        promo is None
                    }
                }
                ||| {
                    &&& pawn_double_target(b, c, o, t as int)
                    &&& cap is None
                    &&& promo is None
                    &&& ep == Some(jumped_square(c, o) as u8)
                }
            }
        },
        Move::EnPassant(o2, t) => o2 == o && p.en_passant == Some(t) && pawn_capture(
            c,
            o,
            t as int,
        ),
        _ => false,
    }
}

/// Whether `c` may castle on the given side: the right is held, the squares
/// between king and rook are empty, and the king's path is not attacked.
pub open spec fn castle_ok(p: Position, c: int, kingside: bool) -> bool {
    let b = p.board();
    &&& if kingside {
        p.ks_castle@[c]
    } else {
        p.qs_castle@[c]
    }
    &&& forall|s: int| #[trigger] castle_gap(c, kingside, s) ==> !occupied(b, s)
    &&& forall|s: int| #[trigger] castle_transit(c, kingside, s) ==> !attacked(b, 1 - c, s)
}

/// The square on which the king of color `c` starts.
pub open spec fn king_home(c: int) -> int {
    back_rank(c) * 8 + 4
}

/// Whether `m` follows the movement rules of a piece of type `pt` and color
/// `c` on `o`. A king castles from its starting square.
pub open spec fn piece_move_ok(p: Position, c: int, pt: int, o: int, m: Move) -> bool {
    let b = p.board();
    if pt == PAWN {
        pawn_move_ok(p, c, o, m)
    } else {
        match m {
            Move::StandardMove(pt2, o2, t, cap, promo, ep) => {
                &&& pt2 == pt
                &&& o2 == o
                &&& piece_target(b, c, pt, o, t as int)
                &&& cap == type_on(b, 1 - c, t as int)
                &&& promo is None
                &&& ep is None
            },
            Move::ShortCastle => pt == KING && o == king_home(c) && castle_ok(p, c, true),
            Move::LongCastle => pt == KING && o == king_home(c) && castle_ok(p, c, false),
            _ => false,
        }
    }
}

/// Whether the generator offers `m` for a piece of type `pt` and color `c` on
/// `o`: it follows the movement rules, can be applied, and leaves the mover's
/// king safe.
pub open spec fn piece_legal(p: Position, c: int, pt: int, o: int, m: Move) -> bool {
    &&& piece_move_ok(p, c, pt, o, m)
    &&& move_fits(m, p.turn as int)
    &&& keeps_king_safe(p, m)
}

/// Whether the generator offers `m` for some piece of type `pt` and color `c`.
pub open spec fn type_legal(p: Position, c: int, pt: int, m: Move) -> bool {
    exists|o: int| #[trigger] piece_on(p.board(), c, pt, o) && piece_legal(p, c, pt, o, m)
}

/// Whether `m` is a legal move of color `c`.
pub open spec fn color_legal(p: Position, c: int, m: Move) -> bool {
    exists|pt: int| 0 <= pt < 6 && #[trigger] type_legal(p, c, pt, m)
}

/// The square a move lands on, if it names one.
pub open spec fn target_of(m: Move) -> int {
    match m {
        Move::StandardMove(_, _, t, _, _, _) => t as int,
        Move::EnPassant(_, t) => t as int,
        _ => 64,
    }
}

/// The piece type that makes `m`.
pub open spec fn move_type(m: Move) -> int {
    match m {
        Move::StandardMove(pt, _, _, _, _, _) => pt as int,
        Move::EnPassant(_, _) => PAWN as int,
        _ => KING as int,
    }
}

/// The square `m` starts from, for a move of color `c`.
pub open spec fn move_origin(c: int, m: Move) -> int {
    match m {
        Move::StandardMove(_, o, _, _, _, _) => o as int,
        Move::EnPassant(o, _) => o as int,
        _ => king_home(c),
    }
}

/// The rank of `m` among the moves of one piece to one square: a plain move
/// first, then the promotions to knight, bishop, rook and queen, a double step,
/// and an en passant capture; the short castle before the long one.
pub open spec fn move_variant(m: Move) -> int {
    match m {
        Move::StandardMove(_, _, _, _, promo, ep) => match promo {
            Some(q) => q as int,
            None => if ep is Some {
                5
            } else {
                0
            },
        },
        Move::EnPassant(_, _) => 6,
        Move::ShortCastle => 0,
        Move::LongCastle => 1,
    }
}

/// The first place in the move order of the moves of a piece of type `pt` on
/// `o` that land on `t`.
pub open spec fn order_base(pt: int, o: int, t: int) -> int {
    ((pt * 64 + o) * 65 + t) * 8
}

/// The place of move `m` of color `c` in the move order: by piece type, then
/// origin square, then target square, then variant.
pub open spec fn move_order(c: int, m: Move) -> int {
    order_base(move_type(m), move_origin(c, m), target_of(m)) + move_variant(m)
}

/// Whether the moves of `s` stand in strictly increasing move order.
pub open spec fn in_move_order(c: int, s: Seq<Move>) -> bool {
    forall|i: int, j: int| 0 <= i < j < s.len() ==> move_order(c, s[i]) < move_order(c, s[j])
}

/// Whether every move of `s` has its place in `lo..hi`.
pub open spec fn orders_within(c: int, s: Seq<Move>, lo: int, hi: int) -> bool {
    forall|i: int| 0 <= i < s.len() ==> lo <= #[trigger] move_order(c, s[i]) < hi
}

/// Appending a move placed after all others keeps the order.
pub proof fn lemma_order_step(c: int, s: Seq<Move>, s2: Seq<Move>, m: Move, lo: int, hi: int)
    requires
        s2 == s || s2 == s.push(m),
        in_move_order(c, s),
        orders_within(c, s, lo, move_order(c, m)),
        lo <= move_order(c, m) < hi,
    ensures
        in_move_order(c, s2),
        orders_within(c, s2, lo, hi),
{
    assert forall|i: int| 0 <= i < s2.len() implies lo <= #[trigger] move_order(c, s2[i]) < hi by {
        if i < s.len() {
            assert(s2[i] == s[i]);
        }
    }
    assert forall|i: int, j: int| 0 <= i < j < s2.len() implies move_order(c, s2[i]) < move_order(
        c,
        s2[j],
    ) by {
        assert(s2[i] == s[i]);
        if j < s.len() {
            assert(s2[j] == s[j]);
        }
    }
}

/// Two ordered runs, the first wholly before the second, concatenate to an
/// ordered run.
pub proof fn lemma_order_concat(c: int, a: Seq<Move>, b: Seq<Move>, lo: int, mid: int, hi: int)
    requires
        in_move_order(c, a),
        in_move_order(c, b),
        orders_within(c, a, lo, mid),
        orders_within(c, b, mid, hi),
        lo <= mid <= hi,
    ensures
        in_move_order(c, a + b),
        orders_within(c, a + b, lo, hi),
{
    assert forall|i: int| 0 <= i < (a + b).len() implies lo <= #[trigger] move_order(c, (a + b)[i])
        < hi by {
        if i < a.len() {
            assert((a + b)[i] == a[i]);
        } else {
            assert((a + b)[i] == b[i - a.len()]);
        }
    }
    assert forall|i: int, j: int| 0 <= i < j < (a + b).len() implies move_order(c, (a + b)[i])
        < move_order(c, (a + b)[j]) by {
        if j < a.len() {
            assert((a + b)[i] == a[i] && (a + b)[j] == a[j]);
        } else if i < a.len() {
            assert((a + b)[i] == a[i] && (a + b)[j] == b[j - a.len()]);
            assert(move_order(c, a[i]) < mid);
            assert(mid <= move_order(c, b[j - a.len()]));
        } else {
            assert((a + b)[i] == b[i - a.len()] && (a + b)[j] == b[j - a.len()]);
        }
    }
}

/// Two lists in strictly increasing move order that hold the same moves are
/// equal: a move list of this module is fixed by which moves it holds.
pub proof fn lemma_ordered_lists_equal(c: int, a: Seq<Move>, b: Seq<Move>)
    requires
        in_move_order(c, a),
        in_move_order(c, b),
        forall|x: Move| #[trigger] a.contains(x) == b.contains(x),
    ensures
        a == b,
    decreases a.len(),
{
    if a.len() == 0 {
        if b.len() > 0 {
            assert(b.contains(b[0]));
            assert(!a.contains(b[0]));
        }
        assert(a =~= b);
    } else {
        assert(a.contains(a[0]));
        assert(b.len() > 0);
        assert(b.contains(b[0]));
        assert(b.contains(a[0]));
        assert(a.contains(b[0]));
        let i = choose|i: int| 0 <= i < b.len() && b[i] == a[0];
        let j = choose|j: int| 0 <= j < a.len() && a[j] == b[0];
        if i > 0 {
            assert(move_order(c, b[0]) < move_order(c, b[i]));
        }
        if j > 0 {
            assert(move_order(c, a[0]) < move_order(c, a[j]));
        }
        assert(a[0] == b[0]);
        let a1 = a.drop_first();
        let b1 = b.drop_first();
        assert forall|x: Move| #[trigger] a1.contains(x) == b1.contains(x) by {
            if a1.contains(x) {
                let k = choose|k: int| 0 <= k < a1.len() && a1[k] == x;
                assert(a[k + 1] == x);
                assert(move_order(c, a[0]) < move_order(c, a[k + 1]));
                assert(a.contains(x));
                assert(b.contains(x));
                let l = choose|l: int| 0 <= l < b.len() && b[l] == x;
                assert(l != 0);
                assert(b1[l - 1] == x);
            }
            if b1.contains(x) {
                let k = choose|k: int| 0 <= k < b1.len() && b1[k] == x;
                assert(b[k + 1] == x);
                assert(move_order(c, b[0]) < move_order(c, b[k + 1]));
                assert(b.contains(x));
                assert(a.contains(x));
                let l = choose|l: int| 0 <= l < a.len() && a[l] == x;
                assert(l != 0);
                assert(a1[l - 1] == x);
            }
        }
        assert forall|i: int, j: int| 0 <= i < j < a1.len() implies move_order(c, a1[i])
            < move_order(c, a1[j]) by {
            assert(a1[i] == a[i + 1] && a1[j] == a[j + 1]);
        }
        assert forall|i: int, j: int| 0 <= i < j < b1.len() implies move_order(c, b1[i])
            < move_order(c, b1[j]) by {
            assert(b1[i] == b[i + 1] && b1[j] == b[j + 1]);
        }
        lemma_ordered_lists_equal(c, a1, b1);
        assert(a =~= seq![a[0]] + a1);
        assert(b =~= seq![b[0]] + b1);
        assert(a =~= b);
    }
}

/// A move offered for a piece of type `pt` on `o` lies in that piece's part
/// of the move order.
pub proof fn lemma_legal_order(p: Position, c: int, pt: int, o: int, m: Move)
    requires
        piece_legal(p, c, pt, o, m),
        0 <= pt < 6,
        0 <= o < 64,
    ensures
        order_base(pt, o, 0) <= move_order(c, m) < order_base(pt, o, 65),
{
}

impl Position {
    /// Whether move `m` leaves the king of the side to move attacked.
    fn exposes_friendly_king(&self, m: Move) -> (r: bool)
        requires
            self.wf(),
            move_fits(m, self.turn as int),
        ensures
            r == !keeps_king_safe(*self, m),
    {
        self.make_move(m).is_checked(self.turn)
    }

    /// Appends `m` to `moves` if it leaves the mover's king safe.
    fn add_if_safe(&self, moves: &mut Vec<Move>, m: Move)
        requires
            self.wf(),
            move_fits(m, self.turn as int),
        ensures
            forall|x: Move| #[trigger]
                final(moves)@.contains(x) == (old(moves)@.contains(x) || (x == m
                    && keeps_king_safe(*self, m))),
            old(moves)@.no_duplicates() && !old(moves)@.contains(m)
                ==> final(moves)@.no_duplicates(),
            final(moves)@ == if keeps_king_safe(*self, m) {
                old(moves)@.push(m)
            } else {
                old(moves)@
            },
    {
        proof {
            lemma_push_contains(moves@, m);
            lemma_push_no_duplicates(moves@, m);
        }
        if !self.exposes_friendly_king(m) {
            moves.push(m);
        }
    }

    /// `a` without the squares of the pieces of `color`.
    fn without_own(&self, color: u8, a: u64) -> (r: u64)
        requires
            color < 2,
        ensures
            forall|t: int| #[trigger]
                has_bit(r, t) == (0 <= t < 64 && has_bit(a, t) && !occupied_by(
                    self.board(),
                    color as int,
                    t,
                )),
    {
        let own = self.get_friendly_blockers(color);
        let r = a & !own;
        proof {
            lemma_color_bits(self.board(), color as int);
            assert forall|t: int| #[trigger]
                has_bit(r, t) == (0 <= t < 64 && has_bit(a, t) && !occupied_by(
                    self.board(),
                    color as int,
                    t,
                )) by {
                lemma_has_bit_and(a, !own, t);
                crate::bb_ops::lemma_has_bit_def(r, t);
                if 0 <= t < 64 {
                    lemma_has_bit_not(own, t);
                }
            }
        }
        r
    }

    /// The squares a knight of `color` on `idx` may move to.
    fn get_knight_attacks_bb(&self, color: u8, idx: u8) -> (r: u64)
        requires
            color < 2,
            idx < 64,
        ensures
            forall|t: int| #[trigger]
                has_bit(r, t) == piece_target(self.board(), color as int, KNIGHT as int, idx as int, t),
    {
        self.without_own(color, get_knight_attacks(idx))
    }

    /// The squares a bishop, rook or queen (`piece_type`) of `color` on `idx`
    /// may move to: its rays over the occupied squares, less its own pieces.
    fn get_sliding_piece_attacks_bb(&self, color: u8, idx: u8, piece_type: u8) -> (r: u64)
        requires
            color < 2,
            idx < 64,
            piece_type == BISHOP || piece_type == ROOK || piece_type == QUEEN,
        ensures
            forall|t: int| #[trigger]
                has_bit(r, t) == piece_target(
                    self.board(),
                    color as int,
                    piece_type as int,
                    idx as int,
                    t,
                ),
    {
        let blockers = self.occupancy();
        let mut bb: u64 = 0;
        let ghost b = self.board();
        proof {
            assert forall|t: int| #[trigger] has_bit(bb, t) == false by {
                lemma_has_bit_zero(t);
            }
        }
        if piece_type != BISHOP {
            let ghost prev = bb;
            let a = get_rook_attacks(idx, blockers);
            bb = bb | a;
            proof {
                assert forall|t: int| #[trigger] has_bit(bb, t)
                    == crate::sliding::rook_attack(idx as int, blockers, t) by {
                    crate::bb_ops::lemma_has_bit_or(prev, a, t);
                }
            }
        }
        let ghost mid = bb;
        if piece_type != ROOK {
            let a = get_bishop_attacks(idx, blockers);
            bb = bb | a;
            proof {
                assert forall|t: int| #[trigger] has_bit(bb, t)
                    == (has_bit(mid, t) || crate::sliding::bishop_attack(idx as int, blockers, t)) by {
                    crate::bb_ops::lemma_has_bit_or(mid, a, t);
                }
            }
        }
        assert forall|t: int| #[trigger] has_bit(bb, t)
            == attacks_from(color as int, piece_type as int, idx as int, blockers, t) by {
        }
        self.without_own(color, bb)
    }

    /// The squares the king of `color` on `idx` may step to: those it attacks
    /// that hold no piece of its own and that the opponent does not attack.
    fn get_king_moves_bb(&self, color: u8, idx: u8) -> (r: u64)
        requires
            color < 2,
            idx < 64,
        ensures
            forall|t: int| #[trigger]
                has_bit(r, t) == piece_target(self.board(), color as int, KING as int, idx as int, t),
    {
        let bb = self.without_own(color, get_king_attacks(idx));
        let opp = self.get_all_attack_bitboard(1 - color);
        let r = bb & !opp;
        proof {
            assert forall|t: int| #[trigger]
                has_bit(r, t) == piece_target(self.board(), color as int, KING as int, idx as int, t) by {
                lemma_has_bit_and(bb, !opp, t);
                crate::bb_ops::lemma_has_bit_def(r, t);
                if 0 <= t < 64 {
                    lemma_has_bit_not(opp, t);
                }
            }
        }
        r
    }

    /// The squares a piece of type `piece_type` (not a pawn) and color `color`
    /// on `idx` may move to, before the check test.
    fn get_piece_moves_bb(&self, color: u8, idx: u8, piece_type: u8) -> (r: u64)
        requires
            color < 2,
            idx < 64,
            piece_type < 6,
            piece_type != PAWN,
        ensures
            forall|t: int| #[trigger]
                has_bit(r, t) == piece_target(
                    self.board(),
                    color as int,
                    piece_type as int,
                    idx as int,
                    t,
                ),
    {
        if piece_type == KNIGHT {
            self.get_knight_attacks_bb(color, idx)
        } else if piece_type == KING {
            self.get_king_moves_bb(color, idx)
        } else {
            self.get_sliding_piece_attacks_bb(color, idx, piece_type)
        }
    }

    /// Appends the safe move of the piece of type `piece_type` on `o` to `t`,
    /// where `is_target` tells whether `t` is one of its targets.
    fn add_piece_moves_to(
        &self,
        moves: &mut Vec<Move>,
        color: u8,
        piece_type: u8,
        o: u8,
        t: u8,
        is_target: bool,
    )
        requires
            self.wf(),
            color < 2,
            piece_type < 6,
            piece_type != PAWN,
            o < 64,
            t < 64,
            is_target == piece_target(self.board(), color as int, piece_type as int, o as int, t as int),
            old(moves)@.no_duplicates(),
            forall|x: Move| #[trigger] old(moves)@.contains(x) ==> target_of(x) < t,
            in_move_order(color as int, old(moves)@),
            orders_within(
                color as int,
                old(moves)@,
                order_base(piece_type as int, o as int, 0),
                order_base(piece_type as int, o as int, t as int),
            ),
        ensures
            final(moves)@.no_duplicates(),
            in_move_order(color as int, final(moves)@),
            orders_within(
                color as int,
                final(moves)@,
                order_base(piece_type as int, o as int, 0),
                order_base(piece_type as int, o as int, t + 1),
            ),
            forall|x: Move| #[trigger]
                final(moves)@.contains(x) == (old(moves)@.contains(x) || (piece_legal(
                    *self,
                    color as int,
                    piece_type as int,
                    o as int,
                    x,
                ) && target_of(x) == t && x is StandardMove)),
    {
        if is_target {
            let captures = self.get_piece_at(1 - color, t);
            let m = Move::StandardMove(piece_type, o, t, captures, None, None);
            let ghost prev = moves@;
            self.add_if_safe(moves, m);
            proof {
                lemma_order_step(
                    color as int,
                    prev,
                    moves@,
                    m,
                    order_base(piece_type as int, o as int, 0),
                    order_base(piece_type as int, o as int, t + 1),
                );
            }
        }
    }

    /// The squares a pawn of `color` on `idx` reaches in one step or capture.
    fn get_pawn_single_bb(&self, color: u8, idx: u8) -> (r: u64)
        requires
            color < 2,
            idx < 64,
        ensures
            forall|t: int| #[trigger]
                has_bit(r, t) == pawn_single_target(self.board(), color as int, idx as int, t),
    {
        let ghost b = self.board();
        let occ = self.get_all_blockers(color);
        let opp = self.get_opponent_blockers(color);
        let pushes = get_pawn_moves(color, idx);
        let caps = get_pawn_captures(color, idx);
        let r = (pushes & !occ) | (caps & opp);
        proof {
            lemma_color_bits(b, 1 - color);
            assert forall|t: int| #[trigger]
                has_bit(r, t) == pawn_single_target(b, color as int, idx as int, t) by {
                crate::bb_ops::lemma_has_bit_or(pushes & !occ, caps & opp, t);
                lemma_has_bit_and(pushes, !occ, t);
                lemma_has_bit_and(caps, opp, t);
                crate::bb_ops::lemma_has_bit_def(pushes, t);
                if 0 <= t < 64 {
                    lemma_has_bit_not(occ, t);
                }
            }
        }
        r
    }

    /// The square a pawn of `color` on `idx` reaches with a double step.
    fn get_pawn_double_bb(&self, color: u8, idx: u8) -> (r: u64)
        requires
            color < 2,
            idx < 64,
        ensures
            forall|t: int| #[trigger]
                has_bit(r, t) == pawn_double_target(self.board(), color as int, idx as int, t),
    {
        let ghost b = self.board();
        let occ = self.get_all_blockers(color);
        let dbl = get_pawn_double_steps(color, idx);
        if dbl == 0 {
            proof {
                assert forall|t: int| #[trigger]
                    has_bit(dbl, t) == pawn_double_target(b, color as int, idx as int, t) by {
                    lemma_has_bit_zero(t);
                }
            }
            return dbl;
        }
        proof {
            crate::bb_ops::lemma_zero_iff_empty(dbl);
            let t = choose|t: int| 0 <= t < 64 && has_bit(dbl, t);
            assert(pawn_double(color as int, idx as int, t));
        }
        let jumped = if color == WHITE {
            idx + 8
        } else {
            idx - 8
        };
        assert(jumped == jumped_square(color as int, idx as int));
        if index_lookup(occ, jumped) {
            proof {
                assert forall|t: int| #[trigger]
                    has_bit(0u64, t) == pawn_double_target(b, color as int, idx as int, t) by {
                    lemma_has_bit_zero(t);
                }
            }
            0
        } else {
            let r = dbl & !occ;
            proof {
                assert forall|t: int| #[trigger]
                    has_bit(r, t) == pawn_double_target(b, color as int, idx as int, t) by {
                    lemma_has_bit_and(dbl, !occ, t);
                    crate::bb_ops::lemma_has_bit_def(dbl, t);
                    if 0 <= t < 64 {
                        lemma_has_bit_not(occ, t);
                    }
                }
            }
            r
        }
    }

    /// The squares a pawn of `color` on `idx` may move to, before the check test.
    fn get_pawn_moves_bb(&self, color: u8, idx: u8) -> (r: u64)
        requires
            color < 2,
            idx < 64,
        ensures
            forall|t: int| #[trigger]
                has_bit(r, t) == (pawn_single_target(self.board(), color as int, idx as int, t)
                    || pawn_double_target(self.board(), color as int, idx as int, t)),
    {
        let a = self.get_pawn_single_bb(color, idx);
        let d = self.get_pawn_double_bb(color, idx);
        proof {
            assert forall|t: int| #[trigger]
                has_bit(a | d, t) == (has_bit(a, t) || has_bit(d, t)) by {
                crate::bb_ops::lemma_has_bit_or(a, d, t);
            }
        }
        a | d
    }

    /// Appends the safe moves of the pawn of `color` on `o` that land on `t`.
    #[verifier::rlimit(100)]
    #[verifier::spinoff_prover]
    fn add_pawn_moves_to(
        &self,
        moves: &mut Vec<Move>,
        color: u8,
        o: u8,
        t: u8,
        single: bool,
        double: bool,
    )
        requires
            self.wf(),
            color < 2,
            o < 64,
            t < 64,
            single == pawn_single_target(self.board(), color as int, o as int, t as int),
            double == pawn_double_target(self.board(), color as int, o as int, t as int),
            old(moves)@.no_duplicates(),
            forall|x: Move| #[trigger] old(moves)@.contains(x) ==> target_of(x) < t,
            in_move_order(color as int, old(moves)@),
            orders_within(
                color as int,
                old(moves)@,
                order_base(PAWN as int, o as int, 0),
                order_base(PAWN as int, o as int, t as int),
            ),
        ensures
            final(moves)@.no_duplicates(),
            in_move_order(color as int, final(moves)@),
            orders_within(
                color as int,
                final(moves)@,
                order_base(PAWN as int, o as int, 0),
                order_base(PAWN as int, o as int, t + 1),
            ),
            forall|x: Move| #[trigger]
                final(moves)@.contains(x) == (old(moves)@.contains(x) || (piece_legal(
                    *self,
                    color as int,
                    PAWN as int,
                    o as int,
                    x,
                ) && target_of(x) == t)),
    {
        let ghost start = moves@;
        let ghost c = color as int;
        let ghost lo = order_base(PAWN as int, o as int, 0);
        let ghost hi = order_base(PAWN as int, o as int, t + 1);
        if single {
            let captures = self.get_piece_at(1 - color, t);
            let promotes = if color == WHITE {
                t >= 56
            } else {
                t < 8
            };
            if promotes {
                let m = Move::StandardMove(PAWN, o, t, captures, Some(KNIGHT), None);
                let ghost prev = moves@;
                self.add_if_safe(moves, m);
                proof {
                    lemma_order_step(c, prev, moves@, m, lo, hi);
                }
                let m = Move::StandardMove(PAWN, o, t, captures, Some(BISHOP), None);
                let ghost prev = moves@;
                self.add_if_safe(moves, m);
                proof {
                    lemma_order_step(c, prev, moves@, m, lo, hi);
                }
                let m = Move::StandardMove(PAWN, o, t, captures, Some(ROOK), None);
                let ghost prev = moves@;
                self.add_if_safe(moves, m);
                proof {
                    lemma_order_step(c, prev, moves@, m, lo, hi);
                }
                let m = Move::StandardMove(PAWN, o, t, captures, Some(QUEEN), None);
                let ghost prev = moves@;
                self.add_if_safe(moves, m);
                proof {
                    lemma_order_step(c, prev, moves@, m, lo, hi);
                }
            } else {
                let m = Move::StandardMove(PAWN, o, t, captures, None, None);
                let ghost prev = moves@;
                self.add_if_safe(moves, m);
                proof {
                    lemma_order_step(c, prev, moves@, m, lo, hi);
                }
            }
        }
        if double {
            let jumped = if color == WHITE {
                o + 8
            } else {
                o - 8
            };
            let m = Move::StandardMove(PAWN, o, t, None, None, Some(jumped));
            let ghost prev = moves@;
            self.add_if_safe(moves, m);
            proof {
                lemma_order_step(c, prev, moves@, m, lo, hi);
            }
        }
        if self.en_passant == Some(t) && index_lookup(get_pawn_captures(color, o), t) {
            let fits = if self.turn == WHITE {
                t >= 8
            } else {
                t < 56
            };
            if fits {
                let m = Move::EnPassant(o, t);
                let ghost prev = moves@;
                self.add_if_safe(moves, m);
                proof {
                    lemma_order_step(c, prev, moves@, m, lo, hi);
                }
            }
        }
        assert forall|x: Move| #[trigger] moves@.contains(x) && !start.contains(x) implies piece_legal(
            *self,
            c,
            PAWN as int,
            o as int,
            x,
        ) && target_of(x) == t by {}
        assert forall|x: Move|
            piece_legal(*self, c, PAWN as int, o as int, x) && target_of(x) == t
                implies #[trigger] moves@.contains(x) by {}
    }

    /// Whether `color` may castle on the given side now.
    fn castling_allowed(&self, color: u8, kingside: bool) -> (r: bool)
        requires
            color < 2,
        ensures
            r == castle_ok(*self, color as int, kingside),
    {
        let ghost b = self.board();
        let right = if kingside {
            self.can_castle_kingside(color)
        } else {
            self.can_castle_queenside(color)
        };
        let gap = if kingside {
            get_ks_castling_squares(color)
        } else {
            get_qs_castling_squares(color)
        };
        let transit = get_castling_transit(color, kingside);
        let occ = self.get_all_blockers(color);
        let attacked_squares = self.get_all_attack_bitboard(1 - color);
        let blocked = gap & occ;
        let exposed = transit & attacked_squares;
        proof {
            crate::bb_ops::lemma_zero_iff_empty(blocked);
            crate::bb_ops::lemma_zero_iff_empty(exposed);
            assert forall|s: int| #[trigger] has_bit(blocked, s)
                == (castle_gap(color as int, kingside, s) && occupied(b, s)) by {
                lemma_has_bit_and(gap, occ, s);
            }
            assert forall|s: int| #[trigger] has_bit(exposed, s)
                == (castle_transit(color as int, kingside, s) && attacked(b, 1 - color, s)) by {
                lemma_has_bit_and(transit, attacked_squares, s);
            }
            if blocked == 0 {
                assert forall|s: int| #[trigger] castle_gap(color as int, kingside, s)
                    implies !occupied(b, s) by {
                    assert(!has_bit(blocked, s));
                }
            }
            if exposed == 0 {
                assert forall|s: int| #[trigger] castle_transit(color as int, kingside, s)
                    implies !attacked(b, 1 - color, s) by {
                    assert(!has_bit(exposed, s));
                }
            }
        }
        right && blocked == 0 && exposed == 0
    }

    /// The safe standard moves of the piece of type `piece_type` (not a pawn)
    /// and color `color` on `idx`.
    fn get_stepping_moves(&self, color: u8, idx: u8, piece_type: u8) -> (r: Vec<Move>)
        requires
            self.wf(),
            color < 2,
            idx < 64,
            piece_type < 6,
            piece_type != PAWN,
        ensures
            forall|x: Move| #[trigger]
                r@.contains(x) == (piece_legal(
                    *self,
                    color as int,
                    piece_type as int,
                    idx as int,
                    x,
                ) && x is StandardMove),
            r@.no_duplicates(),
            forall|x: Move| #[trigger] r@.contains(x) ==> target_of(x) < 64,
            in_move_order(color as int, r@),
            orders_within(
                color as int,
                r@,
                order_base(piece_type as int, idx as int, 0),
                order_base(piece_type as int, idx as int, 64),
            ),
    {
        let targets = self.get_piece_moves_bb(color, idx, piece_type);
        let mut moves: Vec<Move> = Vec::new();
        let mut t: u8 = 0;
        while t < 64
            invariant
                self.wf(),
                color < 2,
                idx < 64,
                piece_type < 6,
                piece_type != PAWN,
                t <= 64,
                forall|t2: int| #[trigger]
                    has_bit(targets, t2) == piece_target(
                        self.board(),
                        color as int,
                        piece_type as int,
                        idx as int,
                        t2,
                    ),
                forall|x: Move| #[trigger]
                    moves@.contains(x) == (piece_legal(
                        *self,
                        color as int,
                        piece_type as int,
                        idx as int,
                        x,
                    ) && x is StandardMove && target_of(x) < t),
                moves@.no_duplicates(),
                in_move_order(color as int, moves@),
                orders_within(
                    color as int,
                    moves@,
                    order_base(piece_type as int, idx as int, 0),
                    order_base(piece_type as int, idx as int, t as int),
                ),
            decreases 64 - t,
        {
            let is_target = index_lookup(targets, t);
            self.add_piece_moves_to(&mut moves, color, piece_type, idx, t, is_target);
            t = t + 1;
        }
        moves
    }

    /// The legal moves of the pawn of `color` on `idx`.
    fn get_pawn_moves(&self, color: u8, idx: u8) -> (r: Vec<Move>)
        requires
            self.wf(),
            color < 2,
            idx < 64,
        ensures
            forall|x: Move| #[trigger]
                r@.contains(x) == piece_legal(*self, color as int, PAWN as int, idx as int, x),
            r@.no_duplicates(),
            in_move_order(color as int, r@),
            orders_within(
                color as int,
                r@,
                order_base(PAWN as int, idx as int, 0),
                order_base(PAWN as int, idx as int, 65),
            ),
    {
        let single_bb = self.get_pawn_single_bb(color, idx);
        let double_bb = self.get_pawn_double_bb(color, idx);
        let mut moves: Vec<Move> = Vec::new();
        let mut t: u8 = 0;
        while t < 64
            invariant
                self.wf(),
                color < 2,
                idx < 64,
                t <= 64,
                forall|t2: int| #[trigger]
                    has_bit(single_bb, t2) == pawn_single_target(
                        self.board(),
                        color as int,
                        idx as int,
                        t2,
                    ),
                forall|t2: int| #[trigger]
                    has_bit(double_bb, t2) == pawn_double_target(
                        self.board(),
                        color as int,
                        idx as int,
                        t2,
                    ),
                forall|x: Move| #[trigger]
                    moves@.contains(x) == (piece_legal(
                        *self,
                        color as int,
                        PAWN as int,
                        idx as int,
                        x,
                    ) && target_of(x) < t),
                moves@.no_duplicates(),
                in_move_order(color as int, moves@),
                orders_within(
                    color as int,
                    moves@,
                    order_base(PAWN as int, idx as int, 0),
                    order_base(PAWN as int, idx as int, t as int),
                ),
            decreases 64 - t,
        {
            let single = index_lookup(single_bb, t);
            let double = index_lookup(double_bb, t);
            self.add_pawn_moves_to(&mut moves, color, idx, t, single, double);
            t = t + 1;
        }
        moves
    }

    /// The legal moves of the king of `color` on `idx`, castling included.
    fn get_king_moves(&self, color: u8, idx: u8) -> (r: Vec<Move>)
        requires
            self.wf(),
            color < 2,
            idx < 64,
        ensures
            forall|x: Move| #[trigger]
                r@.contains(x) == piece_legal(*self, color as int, KING as int, idx as int, x),
            r@.no_duplicates(),
            in_move_order(color as int, r@),
            orders_within(
                color as int,
                r@,
                order_base(KING as int, idx as int, 0),
                order_base(KING as int, idx as int, 65),
            ),
    {
        let mut moves = self.get_stepping_moves(color, idx, KING);
        let home: u8 = if color == WHITE {
            4
        } else {
            60
        };
        let ghost lo = order_base(KING as int, idx as int, 0);
        let ghost hi = order_base(KING as int, idx as int, 65);
        if idx == home && self.castling_allowed(color, true) {
            let ghost prev = moves@;
            self.add_if_safe(&mut moves, Move::ShortCastle);
            proof {
                lemma_order_step(color as int, prev, moves@, Move::ShortCastle, lo, hi);
            }
        }
        if idx == home && self.castling_allowed(color, false) {
            let ghost prev = moves@;
            self.add_if_safe(&mut moves, Move::LongCastle);
            proof {
                lemma_order_step(color as int, prev, moves@, Move::LongCastle, lo, hi);
            }
        }
        moves
    }

    /// The legal moves of a piece of type `piece_type` on `idx`, for `color`,
    /// the side to move. They come in increasing order of target square; to
    /// one square a plain move comes first, then the promotions to knight,
    /// bishop, rook and queen, a double step, and an en passant capture. A
    /// king's castles come last, the short one first.
    pub fn get_piece_moves(&self, color: u8, idx: u8, piece_type: u8) -> (r: Vec<Move>)
        requires
            self.wf(),
            color == self.turn,
            idx < 64,
            piece_type < 6,
        ensures
            forall|x: Move| #[trigger]
                r@.contains(x) == piece_legal(
                    *self,
                    color as int,
                    piece_type as int,
                    idx as int,
                    x,
                ),
            r@.no_duplicates(),
            in_move_order(color as int, r@),
            orders_within(
                color as int,
                r@,
                order_base(piece_type as int, idx as int, 0),
                order_base(piece_type as int, idx as int, 65),
            ),
    {
        if piece_type == PAWN {
            self.get_pawn_moves(color, idx)
        } else if piece_type == KING {
            self.get_king_moves(color, idx)
        } else {
            self.get_stepping_moves(color, idx, piece_type)
        }
    }

    /// The legal moves of all pieces of type `piece_type` of `color`, the side
    /// to move: by origin square, and for each piece in the order of
    /// `get_piece_moves`.
    pub fn get_all_piece_moves(&self, color: u8, piece_type: u8) -> (r: Vec<Move>)
        requires
            self.wf(),
            color == self.turn,
            piece_type < 6,
        ensures
            forall|x: Move| #[trigger]
                r@.contains(x) == type_legal(*self, color as int, piece_type as int, x),
            r@.no_duplicates(),
            in_move_order(color as int, r@),
            orders_within(
                color as int,
                r@,
                order_base(piece_type as int, 0, 0),
                order_base(piece_type as int, 64, 0),
            ),
    {
        let ghost (c, pt) = (color as int, piece_type as int);
        let bb = self.get_piece_bitboard(color, piece_type);
        let mut moves: Vec<Move> = Vec::new();
        let mut o: u8 = 0;
        while o < 64
            invariant
                self.wf(),
                color < 2,
                piece_type < 6,
                c == color,
                pt == piece_type,
                bb == self.piece_bbs@[crate::position::slot(c, pt)],
                o <= 64,
                forall|x: Move| #[trigger]
                    moves@.contains(x) == exists|o2: int|
                        0 <= o2 < o && #[trigger] piece_on(self.board(), c, pt, o2) && piece_legal(
                            *self,
                            c,
                            pt,
                            o2,
                            x,
                        ),
                moves@.no_duplicates(),
                color == self.turn,
                in_move_order(c, moves@),
                orders_within(c, moves@, order_base(pt, 0, 0), order_base(pt, o as int, 0)),
            decreases 64 - o,
        {
            let ghost prev = moves@;
            if index_lookup(bb, o) {
                let mut found = self.get_piece_moves(color, o, piece_type);
                let ghost got = found@;
                proof {
                    assert forall|x: Move| #[trigger] prev.contains(x) implies !got.contains(x) by {
                        let o2 = choose|o2: int|
                            0 <= o2 < o && #[trigger] piece_on(self.board(), c, pt, o2)
                                && piece_legal(*self, c, pt, o2, x);
                        if got.contains(x) {
                            lemma_legal_origin_unique(*self, c, pt, o2, o as int, x);
                        }
                    }
                    lemma_concat_no_duplicates(prev, got);
                    lemma_order_concat(
                        c,
                        prev,
                        got,
                        order_base(pt, 0, 0),
                        order_base(pt, o as int, 0),
                        order_base(pt, o + 1, 0),
                    );
                }
                moves.append(&mut found);
                proof {
                    lemma_concat_contains(prev, got);
                }
            }
            assert forall|x: Move| #[trigger]
                moves@.contains(x) == exists|o2: int|
                    0 <= o2 < o + 1 && #[trigger] piece_on(self.board(), c, pt, o2) && piece_legal(
                        *self,
                        c,
                        pt,
                        o2,
                        x,
                    ) by {
                if exists|o2: int|
                    0 <= o2 < o + 1 && #[trigger] piece_on(self.board(), c, pt, o2) && piece_legal(
                        *self,
                        c,
                        pt,
                        o2,
                        x,
                    ) {
                    let o2 = choose|o2: int|
                        0 <= o2 < o + 1 && #[trigger] piece_on(self.board(), c, pt, o2)
                            && piece_legal(*self, c, pt, o2, x);
                    if o2 < o {
                        assert(prev.contains(x));
                    }
                }
                if moves@.contains(x) && !prev.contains(x) {
                    assert(piece_on(self.board(), c, pt, o as int));
                }
            }
            o = o + 1;
        }
        proof {
            assert forall|x: Move| #[trigger]
                moves@.contains(x) == type_legal(*self, c, pt, x) by {
                if type_legal(*self, c, pt, x) {
                    let o2 = choose|o2: int|
                        #[trigger] piece_on(self.board(), c, pt, o2)
                            && piece_legal(*self, c, pt, o2, x);
                    crate::bb_ops::lemma_has_bit_def(self.piece_bbs@[crate::position::slot(c, pt)], o2);
                }
            }
        }
        moves
    }

    /// The legal moves of `color`, the side to move: by piece type (pawn,
    /// knight, bishop, rook, queen, king), and for each type in the order of
    /// `get_all_piece_moves`.
    pub fn get_all_moves(&self, color: u8) -> (r: Vec<Move>)
        requires
            self.wf(),
            color == self.turn,
        ensures
            forall|x: Move| #[trigger] r@.contains(x) == color_legal(*self, color as int, x),
            r@.no_duplicates(),
            in_move_order(color as int, r@),
    {
        let mut moves: Vec<Move> = Vec::new();
        let mut pt: u8 = 0;
        while pt < 6
            invariant
                self.wf(),
                color < 2,
                pt <= 6,
                forall|x: Move| #[trigger]
                    moves@.contains(x) == exists|p2: int|
                        0 <= p2 < pt && #[trigger] type_legal(*self, color as int, p2, x),
                moves@.no_duplicates(),
                color == self.turn,
                in_move_order(color as int, moves@),
                orders_within(color as int, moves@, 0, order_base(pt as int, 0, 0)),
            decreases 6 - pt,
        {
            let ghost prev = moves@;
            let mut found = self.get_all_piece_moves(color, pt);
            let ghost got = found@;
            proof {
                assert forall|x: Move| #[trigger] prev.contains(x) implies !got.contains(x) by {
                    let p2 = choose|p2: int|
                        0 <= p2 < pt && #[trigger] type_legal(*self, color as int, p2, x);
                    if got.contains(x) {
                        let o1 = choose|o1: int|
                            #[trigger] piece_on(self.board(), color as int, p2, o1) && piece_legal(
                                *self,
                                color as int,
                                p2,
                                o1,
                                x,
                            );
                        let o2 = choose|o2: int|
                            #[trigger] piece_on(self.board(), color as int, pt as int, o2)
                                && piece_legal(*self, color as int, pt as int, o2, x);
                        lemma_legal_type_unique(*self, color as int, p2, pt as int, o1, o2, x);
                    }
                }
                lemma_concat_no_duplicates(prev, got);
                lemma_order_concat(
                    color as int,
                    prev,
                    got,
                    0,
                    order_base(pt as int, 0, 0),
                    order_base(pt as int, 64, 0),
                );
            }
            moves.append(&mut found);
            proof {
                lemma_concat_contains(prev, got);
            }
            assert forall|x: Move| #[trigger]
                moves@.contains(x) == exists|p2: int|
                    0 <= p2 < pt + 1 && #[trigger] type_legal(*self, color as int, p2, x) by {
                if exists|p2: int| 0 <= p2 < pt + 1 && #[trigger] type_legal(*self, color as int, p2, x) {
                    let p2 = choose|p2: int| 0 <= p2 < pt + 1
                        && #[trigger] type_legal(*self, color as int, p2, x);
                    if p2 < pt {
                        assert(prev.contains(x));
                    }
                }
            }
            pt = pt + 1;
        }
        moves
    }

    /// The legal moves of the side to move, in the order of `get_all_moves`.
    /// Each of them can be applied and leaves the mover's king unattacked.
    pub fn get_all_legal_moves(&self) -> (r: Vec<Move>)
        requires
            self.wf(),
        ensures
            forall|x: Move| #[trigger] r@.contains(x) == color_legal(*self, self.turn as int, x),
            r@.no_duplicates(),
            in_move_order(self.turn as int, r@),
            forall|i: int|
                0 <= i < r@.len() ==> move_fits(#[trigger] r@[i], self.turn as int)
                    && keeps_king_safe(*self, r@[i]),
    {
        let r = self.get_all_moves(self.turn);
        proof {
            assert forall|i: int| 0 <= i < r@.len()
                implies move_fits(#[trigger] r@[i], self.turn as int)
                && keeps_king_safe(*self, r@[i]) by {
                assert(r@.contains(r@[i]));
                lemma_legal_moves_keep_king_safe(*self, r@[i]);
            }
        }
        r
    }
}

/// A move that the generator offers never leaves the mover's king attacked.
pub proof fn lemma_legal_moves_keep_king_safe(p: Position, m: Move)
    requires
        p.wf(),
        color_legal(p, p.turn as int, m),
    ensures
        !in_check(p.board_after(m), p.turn as int),
        move_fits(m, p.turn as int),
{
    let pt = choose|pt: int| 0 <= pt < 6 && #[trigger] type_legal(p, p.turn as int, pt, m);
    let o = choose|o: int| #[trigger] piece_on(p.board(), p.turn as int, pt, o)
        && piece_legal(p, p.turn as int, pt, o, m);
}

} // verus!
