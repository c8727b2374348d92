//! Fixed attack geometry: knight and king steps, pawn pushes, captures and
//! double steps, promotion ranks and castling paths. Each pattern is a pure
//! function of its square (and color), computed when asked for;
//! `generate_patterns` gathers all of them into one table value.
use vstd::prelude::*;
use crate::bb_ops::{
    has_bit, index_to_coords, is_legal_square, lemma_has_bit_mask, lemma_has_bit_or,
    lemma_has_bit_zero, lemma_with_bit, on_board, set_coords_bit, set_idx_bit, sq_index, sq_mask,
};

verus! {

pub const WHITE: u8 = 0;

pub const BLACK: u8 = 1;

pub const PAWN: u8 = 0;

pub const KNIGHT: u8 = 1;

pub const BISHOP: u8 = 2;

pub const ROOK: u8 = 3;

pub const QUEEN: u8 = 4;

pub const KING: u8 = 5;

/// The rank (row) of square `s`.
pub open spec fn rank_of(s: int) -> int {
    s / 8
}

/// The file (column) of square `s`.
pub open spec fn file_of(s: int) -> int {
    s % 8
}

pub open spec fn abs(v: int) -> int {
    if v < 0 {
        -v
    } else {
        v
    }
}

/// Whether `to` lies a knight's jump away from `from`.
pub open spec fn knight_step(from: int, to: int) -> bool {
    let dy = abs(rank_of(to) - rank_of(from));
    let dx = abs(file_of(to) - file_of(from));
    &&& 0 <= from < 64
    &&& 0 <= to < 64
    &&& ((dy == 1 && dx == 2) || (dy == 2 && dx == 1))
}

/// Whether `to` is one of the (up to eight) squares next to `from`.
pub open spec fn king_step(from: int, to: int) -> bool {
    let dy = abs(rank_of(to) - rank_of(from));
    let dx = abs(file_of(to) - file_of(from));
    &&& 0 <= from < 64
    &&& 0 <= to < 64
    &&& dy <= 1
    &&& dx <= 1
    &&& !(dy == 0 && dx == 0)
}

/// The rank step of a pawn of `color` toward the opponent's side.
pub open spec fn forward(color: int) -> int {
    if color == WHITE {
        1
    } else {
        -1
    }
}

/// Whether a pawn of `color` on `from` steps forward onto `to`.
pub open spec fn pawn_push(color: int, from: int, to: int) -> bool {
    &&& 0 <= from < 64
    &&& 0 <= to < 64
    &&& rank_of(to) == rank_of(from) + forward(color)
    &&& file_of(to) == file_of(from)
}

/// Whether a pawn of `color` on `from` attacks `to` (a forward diagonal).
pub open spec fn pawn_capture(color: int, from: int, to: int) -> bool {
    &&& 0 <= from < 64
    &&& 0 <= to < 64
    &&& rank_of(to) == rank_of(from) + forward(color)
    &&& abs(file_of(to) - file_of(from)) == 1
}

/// The rank on which the pawns of `color` start.
pub open spec fn home_rank(color: int) -> int {
    if color == WHITE {
        1
    } else {
        6
    }
}

/// Whether a pawn of `color` on its home square `from` may jump two ranks to `to`.
pub open spec fn pawn_double(color: int, from: int, to: int) -> bool {
    &&& 0 <= from < 64
    &&& 0 <= to < 64
    &&& rank_of(from) == home_rank(color)
    &&& rank_of(to) == rank_of(from) + 2 * forward(color)
    &&& file_of(to) == file_of(from)
}

/// The rank on which the pawns of `color` promote: the opponent's back rank.
pub open spec fn promotion_rank(color: int) -> int {
    if color == WHITE {
        7
    } else {
        0
    }
}

/// The back rank of `color`.
pub open spec fn back_rank(color: int) -> int {
    if color == WHITE {
        0
    } else {
        7
    }
}

/// The squares between king and rook that must be empty for `color` to castle
/// on the king's side (`kingside`) or the queen's side.
pub open spec fn castle_gap(color: int, kingside: bool, s: int) -> bool {
    &&& 0 <= s < 64
    &&& rank_of(s) == back_rank(color)
    &&& if kingside {
        file_of(s) == 5 || file_of(s) == 6
    } else {
        1 <= file_of(s) <= 3
    }
}

/// The squares the king of `color` crosses when castling on the given side,
/// its start and end included.
pub open spec fn castle_transit(color: int, kingside: bool, s: int) -> bool {
    &&& 0 <= s < 64
    &&& rank_of(s) == back_rank(color)
    &&& if kingside {
        4 <= file_of(s) <= 6
    } else {
        2 <= file_of(s) <= 4
    }
}

/// `mask` with the square at `(y + dy, x + dx)` marked, if that is on the board.
fn add_offset(mask: u64, y: u8, x: u8, dy: i8, dx: i8) -> (r: u64)
    requires
        y < 8,
        x < 8,
        -2 <= dy <= 2,
        -2 <= dx <= 2,
    ensures
        forall|t: int| #[trigger]
            has_bit(r, t) == (has_bit(mask, t) || (on_board(y + dy, x + dx) && t == sq_index(
                y + dy,
                x + dx,
            ))),
{
    let ny = y as i8 + dy;
    let nx = x as i8 + dx;
    if is_legal_square(ny, nx) {
        let r = set_coords_bit(mask, ny as u8, nx as u8);
        proof {
            assert forall|t: int| #[trigger]
                has_bit(r, t) == (has_bit(mask, t) || t == sq_index(ny as int, nx as int)) by {
                lemma_has_bit_mask(sq_index(ny as int, nx as int), t);
                lemma_has_bit_or(mask, sq_mask(sq_index(ny as int, nx as int)), t);
            }
        }
        r
    } else {
        mask
    }
}

/// Relates a square to its rank and file.
pub proof fn lemma_coords(t: int, y: int, x: int)
    requires
        0 <= t < 64,
    ensures
        0 <= rank_of(t) < 8,
        0 <= file_of(t) < 8,
        t == sq_index(rank_of(t), file_of(t)),
        on_board(y, x) ==> (t == sq_index(y, x) <==> (rank_of(t) == y && file_of(t) == x)),
{
}

/// The squares a knight on `sq` attacks.
pub fn get_knight_attacks(sq: u8) -> (r: u64)
    requires
        sq < 64,
    ensures
        forall|t: int| #[trigger] has_bit(r, t) == knight_step(sq as int, t),
{
    let (y, x) = index_to_coords(sq);
    let mut m: u64 = 0;
    m = add_offset(m, y, x, 1, 2);
    m = add_offset(m, y, x, 2, 1);
    m = add_offset(m, y, x, 2, -1);
    m = add_offset(m, y, x, 1, -2);
    m = add_offset(m, y, x, -1, -2);
    m = add_offset(m, y, x, -2, -1);
    m = add_offset(m, y, x, -2, 1);
    m = add_offset(m, y, x, -1, 2);
    proof {
        assert forall|t: int| #[trigger] has_bit(m, t) == knight_step(sq as int, t) by {
            lemma_has_bit_zero(t);
            if 0 <= t < 64 {
                lemma_coords(t, 0, 0);
            }
        }
    }
    m
}

/// The squares a king on `sq` attacks.
pub fn get_king_attacks(sq: u8) -> (r: u64)
    requires
        sq < 64,
    ensures
        forall|t: int| #[trigger] has_bit(r, t) == king_step(sq as int, t),
{
    generate_king_mask(sq)
}

/// Computes the squares next to `idx`.
fn generate_king_mask(idx: u8) -> (r: u64)
    requires
        idx < 64,
    ensures
        forall|t: int| #[trigger] has_bit(r, t) == king_step(idx as int, t),
{
    let (y, x) = index_to_coords(idx);
    let mut m: u64 = 0;
    m = add_offset(m, y, x, 1, -1);
    m = add_offset(m, y, x, 1, 0);
    m = add_offset(m, y, x, 1, 1);
    m = add_offset(m, y, x, 0, -1);
    m = add_offset(m, y, x, 0, 1);
    m = add_offset(m, y, x, -1, -1);
    m = add_offset(m, y, x, -1, 0);
    m = add_offset(m, y, x, -1, 1);
    proof {
        assert forall|t: int| #[trigger] has_bit(m, t) == king_step(idx as int, t) by {
            lemma_has_bit_zero(t);
            if 0 <= t < 64 {
                lemma_coords(t, 0, 0);
            }
        }
    }
    m
}

/// The squares a pawn of `color` on `sq` steps forward to (empty or not).
pub fn get_pawn_moves(color: u8, sq: u8) -> (r: u64)
    requires
        color < 2,
        sq < 64,
    ensures
        forall|t: int| #[trigger] has_bit(r, t) == pawn_push(color as int, sq as int, t),
{
    let (y, x) = index_to_coords(sq);
    let dy: i8 = if color == WHITE {
        1
    } else {
        -1
    };
    let m = add_offset(0, y, x, dy, 0);
    proof {
        assert forall|t: int| #[trigger] has_bit(m, t) == pawn_push(color as int, sq as int, t) by {
            lemma_has_bit_zero(t);
            if 0 <= t < 64 {
                lemma_coords(t, 0, 0);
            }
        }
    }
    m
}

/// The squares a pawn of `color` on `sq` attacks.
pub fn get_pawn_captures(color: u8, sq: u8) -> (r: u64)
    requires
        color < 2,
        sq < 64,
    ensures
        forall|t: int| #[trigger] has_bit(r, t) == pawn_capture(color as int, sq as int, t),
{
    let (y, x) = index_to_coords(sq);
    let dy: i8 = if color == WHITE {
        1
    } else {
        -1
    };
    let m = add_offset(0, y, x, dy, -1);
    let m = add_offset(m, y, x, dy, 1);
    proof {
        assert forall|t: int| #[trigger] has_bit(m, t)
            == pawn_capture(color as int, sq as int, t) by {
            lemma_has_bit_zero(t);
            if 0 <= t < 64 {
                lemma_coords(t, 0, 0);
            }
        }
    }
    m
}

/// The square a pawn of `color` on `sq` reaches with a double step: empty
/// unless `sq` is on the pawn's home rank.
pub fn get_pawn_double_steps(color: u8, sq: u8) -> (r: u64)
    requires
        color < 2,
        sq < 64,
    ensures
        forall|t: int| #[trigger] has_bit(r, t) == pawn_double(color as int, sq as int, t),
{
    let (y, x) = index_to_coords(sq);
    let (home, dy): (u8, i8) = if color == WHITE {
        (1, 2)
    } else {
        (6, -2)
    };
    let m = if y == home {
        add_offset(0, y, x, dy, 0)
    } else {
        0
    };
    proof {
        assert forall|t: int| #[trigger] has_bit(m, t)
            == pawn_double(color as int, sq as int, t) by {
            lemma_has_bit_zero(t);
            if 0 <= t < 64 {
                lemma_coords(t, 0, 0);
            }
        }
    }
    m
}

/// The squares of rank `y` whose file lies in `lo..hi`.
fn rank_segment(y: u8, lo: u8, hi: u8) -> (r: u64)
    requires
        y < 8,
        lo <= hi <= 8,
    ensures
        forall|t: int| #[trigger]
            has_bit(r, t) == (0 <= t < 64 && rank_of(t) == y && lo <= file_of(t) < hi),
{
    let mut m: u64 = 0;
    let mut x: u8 = lo;
    proof {
        assert forall|t: int| #[trigger] has_bit(m, t) == false by {
            lemma_has_bit_zero(t);
        }
    }
    while x < hi
        invariant
            y < 8,
            lo <= x <= hi <= 8,
            forall|t: int| #[trigger]
                has_bit(m, t) == (0 <= t < 64 && rank_of(t) == y && lo <= file_of(t) < x),
        decreases hi - x,
    {
        let ghost prev = m;
        m = set_coords_bit(m, y, x);
        assert forall|t: int| #[trigger]
            has_bit(m, t) == (0 <= t < 64 && rank_of(t) == y && lo <= file_of(t) < x + 1) by {
            lemma_has_bit_mask(sq_index(y as int, x as int), t);
            lemma_has_bit_or(prev, sq_mask(sq_index(y as int, x as int)), t);
            if 0 <= t < 64 {
                lemma_coords(t, y as int, x as int);
            }
        }
        x = x + 1;
    }
    proof {
        assert forall|t: int| #[trigger]
            has_bit(m, t) == (0 <= t < 64 && rank_of(t) == y && lo <= file_of(t) < hi) by {
            if 0 <= t < 64 {
                lemma_coords(t, 0, 0);
            }
        }
    }
    m
}

/// The squares on which a pawn of `color` promotes.
pub fn get_pawn_promotion_squares(color: u8) -> (r: u64)
    requires
        color < 2,
    ensures
        forall|t: int| #[trigger]
            has_bit(r, t) == (0 <= t < 64 && rank_of(t) == promotion_rank(color as int)),
{
    if color == WHITE {
        rank_segment(7, 0, 8)
    } else {
        rank_segment(0, 0, 8)
    }
}

/// The squares the king of `color` crosses when castling on the given side.
pub fn get_castling_transit(color: u8, kingside: bool) -> (r: u64)
    requires
        color < 2,
    ensures
        forall|t: int| #[trigger] has_bit(r, t) == castle_transit(color as int, kingside, t),
{
    let y: u8 = if color == WHITE {
        0
    } else {
        7
    };
    if kingside {
        rank_segment(y, 4, 7)
    } else {
        rank_segment(y, 2, 5)
    }
}

/// The squares that must be empty for `color` to castle on the king's side.
pub fn get_ks_castling_squares(color: u8) -> (r: u64)
    requires
        color < 2,
    ensures
        forall|t: int| #[trigger] has_bit(r, t) == castle_gap(color as int, true, t),
{
    if color == WHITE {
        rank_segment(0, 5, 7)
    } else {
        rank_segment(7, 5, 7)
    }
}

/// The squares that must be empty for `color` to castle on the queen's side.
pub fn get_qs_castling_squares(color: u8) -> (r: u64)
    requires
        color < 2,
    ensures
        forall|t: int| #[trigger] has_bit(r, t) == castle_gap(color as int, false, t),
{
    if color == WHITE {
        rank_segment(0, 1, 4)
    } else {
        rank_segment(7, 1, 4)
    }
}

/// Whether `to` shares exactly one of rank and file with `from`: the squares a
/// rook on `from` could ever reach.
pub open spec fn rook_line(from: int, to: int) -> bool {
    &&& 0 <= to < 64
    &&& (rank_of(to) == rank_of(from)) != (file_of(to) == file_of(from))
}

/// Whether `to` lies on a diagonal through `from`, other than `from` itself.
pub open spec fn bishop_line(from: int, to: int) -> bool {
    &&& 0 <= to < 64
    &&& abs(rank_of(to) - rank_of(from)) == abs(file_of(to) - file_of(from))
    &&& file_of(to) != file_of(from)
}

/// The squares on the rank and file of `idx`, `idx` excluded.
fn generate_rook_mask(idx: u8) -> (r: u64)
    requires
        idx < 64,
    ensures
        forall|t: int| #[trigger] has_bit(r, t) == rook_line(idx as int, t),
{
    let (y, x) = index_to_coords(idx);
    let mut mask: u64 = 0;
    let mut i: u8 = 0;
    proof {
        assert forall|t: int| #[trigger] has_bit(mask, t) == false by {
            lemma_has_bit_zero(t);
        }
    }
    while i < 64
        invariant
            idx < 64,
            y == rank_of(idx as int),
            x == file_of(idx as int),
            i <= 64,
            forall|t: int| #[trigger] has_bit(mask, t) == (t < i && rook_line(idx as int, t)),
        decreases 64 - i,
    {
        let (cy, cx) = index_to_coords(i);
        let ghost prev = mask;
        if (cy == y) != (cx == x) {
            mask = set_idx_bit(mask, i);
            proof {
                lemma_with_bit(prev, i as int);
            }
        }
        i = i + 1;
    }
    mask
}

/// The squares on the diagonals through `idx`, `idx` excluded.
fn generate_bishop_mask(idx: u8) -> (r: u64)
    requires
        idx < 64,
    ensures
        forall|t: int| #[trigger] has_bit(r, t) == bishop_line(idx as int, t),
{
    let (y, x) = index_to_coords(idx);
    let mut mask: u64 = 0;
    let mut i: u8 = 0;
    proof {
        assert forall|t: int| #[trigger] has_bit(mask, t) == false by {
            lemma_has_bit_zero(t);
        }
    }
    while i < 64
        invariant
            idx < 64,
            y == rank_of(idx as int),
            x == file_of(idx as int),
            i <= 64,
            forall|t: int| #[trigger] has_bit(mask, t) == (t < i && bishop_line(idx as int, t)),
        decreases 64 - i,
    {
        let (cy, cx) = index_to_coords(i);
        let dy: i16 = cy as i16 - y as i16;
        let dx: i16 = cx as i16 - x as i16;
        let ady = if dy < 0 {
            -dy
        } else {
            dy
        };
        let adx = if dx < 0 {
            -dx
        } else {
            dx
        };
        let ghost prev = mask;
        if ady == adx && dx != 0 {
            mask = set_idx_bit(mask, i);
            proof {
                lemma_with_bit(prev, i as int);
            }
        }
        i = i + 1;
    }
    mask
}

/// All fixed attack geometry, one entry per square (and per color, for pawns).
pub struct Patterns {
    pub knight_masks: Vec<u64>,
    pub king_masks: Vec<u64>,
    pub rook_masks: Vec<u64>,
    pub bishop_masks: Vec<u64>,
    pub pawn_move_masks: [Vec<u64>; 2],
    pub pawn_capture_masks: [Vec<u64>; 2],
    pub pawn_double_step_masks: [Vec<u64>; 2],
    pub pawn_promotion_squares: [u64; 2],
    pub ks_castling_masks: [u64; 2],
    pub qs_castling_masks: [u64; 2],
}

impl Patterns {
    /// Every table is complete and each entry marks exactly its squares.
    pub open spec fn wf(&self) -> bool {
        &&& self.knight_masks@.len() == 64
        &&& self.king_masks@.len() == 64
        &&& self.rook_masks@.len() == 64
        &&& self.bishop_masks@.len() == 64
        &&& forall|c: int| 0 <= c < 2 ==> #[trigger] self.pawn_move_masks@[c]@.len() == 64
        &&& forall|c: int| 0 <= c < 2 ==> #[trigger] self.pawn_capture_masks@[c]@.len() == 64
        &&& forall|c: int| 0 <= c < 2 ==> #[trigger] self.pawn_double_step_masks@[c]@.len() == 64
        &&& forall|s: int, t: int|
            0 <= s < 64 ==> (#[trigger] has_bit(self.knight_masks@[s], t) == knight_step(s, t))
        &&& forall|s: int, t: int|
            0 <= s < 64 ==> (#[trigger] has_bit(self.king_masks@[s], t) == king_step(s, t))
        &&& forall|s: int, t: int|
            0 <= s < 64 ==> (#[trigger] has_bit(self.rook_masks@[s], t) == rook_line(s, t))
        &&& forall|s: int, t: int|
            0 <= s < 64 ==> (#[trigger] has_bit(self.bishop_masks@[s], t) == bishop_line(s, t))
        &&& forall|c: int, s: int, t: int|
            0 <= c < 2 && 0 <= s < 64 ==> (#[trigger] has_bit(self.pawn_move_masks@[c]@[s], t)
                == pawn_push(c, s, t))
        &&& forall|c: int, s: int, t: int|
            0 <= c < 2 && 0 <= s < 64 ==> (#[trigger] has_bit(self.pawn_capture_masks@[c]@[s], t)
                == pawn_capture(c, s, t))
        &&& forall|c: int, s: int, t: int|
            0 <= c < 2 && 0 <= s < 64 ==> (#[trigger] has_bit(
                self.pawn_double_step_masks@[c]@[s],
                t,
            ) == pawn_double(c, s, t))
        &&& forall|c: int, t: int|
            0 <= c < 2 ==> (#[trigger] has_bit(self.pawn_promotion_squares@[c], t) == (0 <= t < 64
                && rank_of(t) == promotion_rank(c)))
        &&& forall|c: int, t: int|
            0 <= c < 2 ==> (#[trigger] has_bit(self.ks_castling_masks@[c], t) == castle_gap(
                c,
                true,
                t,
            ))
        &&& forall|c: int, t: int|
            0 <= c < 2 ==> (#[trigger] has_bit(self.qs_castling_masks@[c], t) == castle_gap(
                c,
                false,
                t,
            ))
    }
}

/// The table of all attack patterns, built once and read afterwards.
pub fn generate_patterns() -> (r: Patterns)
    ensures
        r.wf(),
{
    let mut knight: Vec<u64> = Vec::new();
    let mut king: Vec<u64> = Vec::new();
    let mut rook: Vec<u64> = Vec::new();
    let mut bishop: Vec<u64> = Vec::new();
    let mut wmove: Vec<u64> = Vec::new();
    let mut bmove: Vec<u64> = Vec::new();
    let mut wcap: Vec<u64> = Vec::new();
    let mut bcap: Vec<u64> = Vec::new();
    let mut wdbl: Vec<u64> = Vec::new();
    let mut bdbl: Vec<u64> = Vec::new();
    let mut i: u8 = 0;
    while i < 64
        invariant
            i <= 64,
            knight@.len() == i,
            king@.len() == i,
            rook@.len() == i,
            bishop@.len() == i,
            wmove@.len() == i,
            bmove@.len() == i,
            wcap@.len() == i,
            bcap@.len() == i,
            wdbl@.len() == i,
            bdbl@.len() == i,
            forall|s: int, t: int|
                0 <= s < i ==> (#[trigger] has_bit(knight@[s], t) == knight_step(s, t)),
            forall|s: int, t: int| 0 <= s < i ==> (#[trigger] has_bit(king@[s], t) == king_step(s, t)),
            forall|s: int, t: int| 0 <= s < i ==> (#[trigger] has_bit(rook@[s], t) == rook_line(s, t)),
            forall|s: int, t: int|
                0 <= s < i ==> (#[trigger] has_bit(bishop@[s], t) == bishop_line(s, t)),
            forall|s: int, t: int|
                0 <= s < i ==> (#[trigger] has_bit(wmove@[s], t) == pawn_push(0, s, t)),
            forall|s: int, t: int|
                0 <= s < i ==> (#[trigger] has_bit(bmove@[s], t) == pawn_push(1, s, t)),
            forall|s: int, t: int|
                0 <= s < i ==> (#[trigger] has_bit(wcap@[s], t) == pawn_capture(0, s, t)),
            forall|s: int, t: int|
                0 <= s < i ==> (#[trigger] has_bit(bcap@[s], t) == pawn_capture(1, s, t)),
            forall|s: int, t: int|
                0 <= s < i ==> (#[trigger] has_bit(wdbl@[s], t) == pawn_double(0, s, t)),
            forall|s: int, t: int|
                0 <= s < i ==> (#[trigger] has_bit(bdbl@[s], t) == pawn_double(1, s, t)),
        decreases 64 - i,
    {
        knight.push(get_knight_attacks(i));
        king.push(get_king_attacks(i));
        rook.push(generate_rook_mask(i));
        bishop.push(generate_bishop_mask(i));
        wmove.push(get_pawn_moves(WHITE, i));
        bmove.push(get_pawn_moves(BLACK, i));
        wcap.push(get_pawn_captures(WHITE, i));
        bcap.push(get_pawn_captures(BLACK, i));
        wdbl.push(get_pawn_double_steps(WHITE, i));
        bdbl.push(get_pawn_double_steps(BLACK, i));
        i = i + 1;
    }
    let r = Patterns {
        knight_masks: knight,
        king_masks: king,
        rook_masks: rook,
        bishop_masks: bishop,
        pawn_move_masks: [wmove, bmove],
        pawn_capture_masks: [wcap, bcap],
        pawn_double_step_masks: [wdbl, bdbl],
        pawn_promotion_squares: [get_pawn_promotion_squares(WHITE), get_pawn_promotion_squares(BLACK)],
        ks_castling_masks: [get_ks_castling_squares(WHITE), get_ks_castling_squares(BLACK)],
        qs_castling_masks: [get_qs_castling_squares(WHITE), get_qs_castling_squares(BLACK)],
    };
    r
}

} // verus!
