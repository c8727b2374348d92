//! Ray casting for the sliding pieces: a rook slides along ranks and files, a
//! bishop along diagonals, and a queen both ways. Each ray runs until it leaves
//! the board or marks a square that holds a blocker; that square is attacked too.
use vstd::prelude::*;
use crate::bb_ops::{
    coords_lookup, has_bit, index_to_coords, is_legal_square, lemma_has_bit_mask, lemma_has_bit_or,
    lemma_has_bit_zero, on_board, set_coords_bit, sq_index, sq_mask,
};
use crate::patterns::{file_of, rank_of};

verus! {

/// `v` moved `k` steps in the direction of the sign of `d`.
pub open spec fn shift(v: int, d: int, k: int) -> int {
    if d > 0 {
        v + k
    } else if d < 0 {
        v - k
    } else {
        v
    }
}

/// Whether the square `k` steps from `from` in direction `(dy, dx)` is on the board.
pub open spec fn ray_on(from: int, dy: int, dx: int, k: int) -> bool {
    on_board(shift(rank_of(from), dy, k), shift(file_of(from), dx, k))
}

/// The square `k` steps from `from` in direction `(dy, dx)`.
pub open spec fn ray_sq(from: int, dy: int, dx: int, k: int) -> int {
    sq_index(shift(rank_of(from), dy, k), shift(file_of(from), dx, k))
}

/// Whether no blocker stands on the ray from `from` before step `k`.
pub open spec fn ray_clear(from: int, dy: int, dx: int, blockers: u64, k: int) -> bool {
    forall|j: int| 1 <= j < k ==> !has_bit(blockers, #[trigger] ray_sq(from, dy, dx, j))
}

/// Whether a piece on `from` sliding in direction `(dy, dx)` reaches `to`.
pub open spec fn ray_reaches(from: int, dy: int, dx: int, blockers: u64, to: int) -> bool {
    exists|k: int|
        1 <= k && ray_on(from, dy, dx, k) && to == #[trigger] ray_sq(from, dy, dx, k)
            && ray_clear(from, dy, dx, blockers, k)
}

/// Whether a rook on `from` attacks `to` given the blockers.
pub open spec fn rook_attack(from: int, blockers: u64, to: int) -> bool {
    ray_reaches(from, 1, 0, blockers, to) || ray_reaches(from, -1, 0, blockers, to)
        || ray_reaches(from, 0, 1, blockers, to) || ray_reaches(from, 0, -1, blockers, to)
}

/// Whether a bishop on `from` attacks `to` given the blockers.
pub open spec fn bishop_attack(from: int, blockers: u64, to: int) -> bool {
    ray_reaches(from, 1, 1, blockers, to) || ray_reaches(from, 1, -1, blockers, to)
        || ray_reaches(from, -1, 1, blockers, to) || ray_reaches(from, -1, -1, blockers, to)
}

/// The squares attacked along one ray from `sq`.
fn ray_attacks(sq: u8, blockers: u64, dy: i8, dx: i8) -> (r: u64)
    requires
        sq < 64,
        -1 <= dy <= 1,
        -1 <= dx <= 1,
        dy != 0 || dx != 0,
    ensures
        forall|t: int| #[trigger]
            has_bit(r, t) == ray_reaches(sq as int, dy as int, dx as int, blockers, t),
{
    let ghost from = sq as int;
    let ghost (gy, gx) = (dy as int, dx as int);
    let (y, x) = index_to_coords(sq);
    let mut r: u64 = 0;
    let mut k: i8 = 1;
    let mut cy: i8 = y as i8 + dy;
    let mut cx: i8 = x as i8 + dx;
    let mut blocked = false;
    proof {
        assert forall|t: int| #[trigger] has_bit(r, t) == false by {
            lemma_has_bit_zero(t);
        }
    }
    while !blocked && is_legal_square(cy, cx)
        invariant
            sq < 64,
            y == rank_of(from),
            x == file_of(from),
            y < 8,
            x < 8,
            -1 <= gy <= 1,
            -1 <= gx <= 1,
            gy != 0 || gx != 0,
            gy == dy,
            gx == dx,
            1 <= k <= 8,
            cy == shift(y as int, gy, k as int),
            cx == shift(x as int, gx, k as int),
            forall|j: int| 1 <= j < k ==> #[trigger] ray_on(from, gy, gx, j),
            !blocked ==> ray_clear(from, gy, gx, blockers, k as int),
            blocked ==> k >= 2 && has_bit(blockers, ray_sq(from, gy, gx, k - 1)) && ray_clear(
                from,
                gy,
                gx,
                blockers,
                k - 1,
            ),
            forall|t: int| #[trigger]
                has_bit(r, t) == exists|j: int|
                    1 <= j < k && t == #[trigger] ray_sq(from, gy, gx, j),
        decreases 8 - k,
    {
        let ghost prev = r;
        let ghost cur = sq_index(cy as int, cx as int);
        r = set_coords_bit(r, cy as u8, cx as u8);
        assert(cur == ray_sq(from, gy, gx, k as int));
        assert forall|t: int| #[trigger]
            has_bit(r, t) == exists|j: int|
                1 <= j < k + 1 && t == #[trigger] ray_sq(from, gy, gx, j) by {
            lemma_has_bit_mask(cur, t);
            lemma_has_bit_or(prev, sq_mask(cur), t);
            if t == cur {
                assert(t == ray_sq(from, gy, gx, k as int));
            }
            if exists|j: int| 1 <= j < k + 1 && t == #[trigger] ray_sq(from, gy, gx, j) {
                let j = choose|j: int| 1 <= j < k + 1 && t == #[trigger] ray_sq(from, gy, gx, j);
                if j < k {
                    assert(has_bit(prev, t));
                }
            }
        }
        if coords_lookup(blockers, cy as u8, cx as u8) {
            blocked = true;
        }
        assert(ray_on(from, gy, gx, k as int));
        k = k + 1;
        cy = cy + dy;
        cx = cx + dx;
    }
    proof {
        assert forall|t: int| #[trigger]
            has_bit(r, t) == ray_reaches(from, gy, gx, blockers, t) by {
            if has_bit(r, t) {
                let j = choose|j: int| 1 <= j < k && t == #[trigger] ray_sq(from, gy, gx, j);
                assert(ray_on(from, gy, gx, j));
                assert(ray_clear(from, gy, gx, blockers, j));
            }
            if ray_reaches(from, gy, gx, blockers, t) {
                let m = choose|m: int|
                    1 <= m && ray_on(from, gy, gx, m) && t == #[trigger] ray_sq(from, gy, gx, m)
                        && ray_clear(from, gy, gx, blockers, m);
                if m >= k {
                    if blocked {
                        assert(!has_bit(blockers, ray_sq(from, gy, gx, k - 1)));
                    } else {
                        assert(!on_board(cy as int, cx as int));
                    }
                }
                assert(1 <= m < k && t == ray_sq(from, gy, gx, m));
            }
        }
    }
    r
}

/// The squares a rook on `sq` attacks, given the occupied squares `blockers`.
pub fn get_rook_attacks(sq: u8, blockers: u64) -> (r: u64)
    requires
        sq < 64,
    ensures
        forall|t: int| #[trigger] has_bit(r, t) == rook_attack(sq as int, blockers, t),
{
    let a = ray_attacks(sq, blockers, 1, 0);
    let b = ray_attacks(sq, blockers, -1, 0);
    let c = ray_attacks(sq, blockers, 0, 1);
    let d = ray_attacks(sq, blockers, 0, -1);
    let r = a | b | c | d;
    proof {
        assert forall|t: int| #[trigger] has_bit(r, t) == rook_attack(sq as int, blockers, t) by {
            lemma_has_bit_or(a | b | c, d, t);
            lemma_has_bit_or(a | b, c, t);
            lemma_has_bit_or(a, b, t);
        }
    }
    r
}

/// The squares a bishop on `sq` attacks, given the occupied squares `blockers`.
pub fn get_bishop_attacks(sq: u8, blockers: u64) -> (r: u64)
    requires
        sq < 64,
    ensures
        forall|t: int| #[trigger] has_bit(r, t) == bishop_attack(sq as int, blockers, t),
{
    let a = ray_attacks(sq, blockers, 1, 1);
    let b = ray_attacks(sq, blockers, 1, -1);
    let c = ray_attacks(sq, blockers, -1, 1);
    let d = ray_attacks(sq, blockers, -1, -1);
    let r = a | b | c | d;
    proof {
        assert forall|t: int| #[trigger] has_bit(r, t) == bishop_attack(sq as int, blockers, t) by {
            lemma_has_bit_or(a | b | c, d, t);
            lemma_has_bit_or(a | b, c, t);
            lemma_has_bit_or(a, b, t);
        }
    }
    r
}

} // verus!
