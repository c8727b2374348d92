//! Squares and bitboards: a bitboard is a `u64` whose bit `i` marks square `i`,
//! and square `i` lies on rank `i / 8` and file `i % 8`.
use vstd::prelude::*;

verus! {

/// Whether square `sq` is marked in the bitboard `bb`.
pub closed spec fn has_bit(bb: u64, sq: int) -> bool {
    0 <= sq < 64 && (bb >> (sq as u64)) & 1u64 == 1u64
}

/// The bitboard that marks square `sq` alone.
pub closed spec fn sq_mask(sq: int) -> u64 {
    1u64 << (sq as u64)
}

/// `bb` with square `sq` marked.
pub open spec fn with_bit(bb: u64, sq: int) -> u64 {
    bb | sq_mask(sq)
}

/// `bb` with square `sq` cleared.
pub open spec fn without_bit(bb: u64, sq: int) -> u64 {
    bb & !sq_mask(sq)
}

/// The index of the square on rank `y` and file `x`.
pub open spec fn sq_index(y: int, x: int) -> int {
    y * 8 + x
}

/// Whether `(y, x)` names a square of the board.
pub open spec fn on_board(y: int, x: int) -> bool {
    0 <= y < 8 && 0 <= x < 8
}

pub broadcast proof fn lemma_has_bit_or(a: u64, b: u64, s: int)
    ensures
        #[trigger] has_bit(a | b, s) == (has_bit(a, s) || has_bit(b, s)),
{
    if 0 <= s < 64 {
        let t = s as u64;
        assert(((a | b) >> t) & 1u64 == 1u64 <==> ((a >> t) & 1u64 == 1u64 || (b >> t) & 1u64
            == 1u64)) by (bit_vector);
    }
}

pub broadcast proof fn lemma_has_bit_and(a: u64, b: u64, s: int)
    ensures
        #[trigger] has_bit(a & b, s) == (has_bit(a, s) && has_bit(b, s)),
{
    if 0 <= s < 64 {
        let t = s as u64;
        assert(((a & b) >> t) & 1u64 == 1u64 <==> ((a >> t) & 1u64 == 1u64 && (b >> t) & 1u64
            == 1u64)) by (bit_vector);
    }
}

pub broadcast proof fn lemma_has_bit_not(a: u64, s: int)
    requires
        0 <= s < 64,
    ensures
        #[trigger] has_bit(!a, s) == !has_bit(a, s),
{
    let t = s as u64;
    assert(((!a) >> t) & 1u64 == 1u64 <==> !((a >> t) & 1u64 == 1u64)) by (bit_vector)
        requires
            t < 64,
    ;
}

pub broadcast proof fn lemma_has_bit_mask(i: int, s: int)
    requires
        0 <= i < 64,
    ensures
        #[trigger] has_bit(sq_mask(i), s) == (s == i),
{
    if 0 <= s < 64 {
        let t = s as u64;
        let j = i as u64;
        assert(((1u64 << j) >> t) & 1u64 == 1u64 <==> t == j) by (bit_vector)
            requires
                j < 64,
                t < 64,
        ;
    }
}

pub broadcast proof fn lemma_has_bit_zero(s: int)
    ensures
        !#[trigger] has_bit(0u64, s),
{
    if 0 <= s < 64 {
        let t = s as u64;
        assert((0u64 >> t) & 1u64 != 1u64) by (bit_vector);
    }
}

/// A bitboard is zero exactly when it marks no square.
pub proof fn lemma_zero_iff_empty(bb: u64)
    ensures
        bb == 0 <==> forall|s: int| 0 <= s < 64 ==> !#[trigger] has_bit(bb, s),
{
    broadcast use lemma_has_bit_zero;

    if bb != 0 {
        assert(bb >> 0u64 == bb) by (bit_vector);
        lemma_some_bit_from(bb, 0);
    }
}

proof fn lemma_some_bit_from(bb: u64, i: u64)
    requires
        i < 64,
        bb >> i != 0,
    ensures
        exists|k: int| i <= k < 64 && has_bit(bb, k),
    decreases 64 - i,
{
    if (bb >> i) & 1u64 == 1u64 {
        assert(has_bit(bb, i as int));
    } else {
        let j = (i + 1) as u64;
        assert(j < 64 && bb >> j != 0) by (bit_vector)
            requires
                i < 64,
                j == i + 1,
                bb >> i != 0,
                (bb >> i) & 1u64 != 1u64,
        ;
        lemma_some_bit_from(bb, j);
    }
}

/// `has_bit` unfolded: only squares of the board are marked, and a square is
/// marked when its bit is one.
pub proof fn lemma_has_bit_def(bb: u64, s: int)
    ensures
        has_bit(bb, s) == (0 <= s < 64 && (bb >> (s as u64)) & 1u64 == 1u64),
{
}

/// What marking square `s` does to every square.
pub proof fn lemma_with_bit(bb: u64, s: int)
    requires
        0 <= s < 64,
    ensures
        forall|t: int| #[trigger] has_bit(with_bit(bb, s), t) == (t == s || has_bit(bb, t)),
{
    assert forall|t: int| #[trigger] has_bit(with_bit(bb, s), t) == (t == s || has_bit(bb, t)) by {
        lemma_has_bit_mask(s, t);
        lemma_has_bit_or(bb, sq_mask(s), t);
    }
}

/// What clearing square `s` does to every square.
pub proof fn lemma_without_bit(bb: u64, s: int)
    requires
        0 <= s < 64,
    ensures
        forall|t: int| #[trigger] has_bit(without_bit(bb, s), t) == (t != s && has_bit(bb, t)),
{
    assert forall|t: int| #[trigger] has_bit(without_bit(bb, s), t)
        == (t != s && has_bit(bb, t)) by {
        lemma_has_bit_mask(s, t);
        lemma_has_bit_and(bb, !sq_mask(s), t);
        if 0 <= t < 64 {
            lemma_has_bit_not(sq_mask(s), t);
        }
    }
}

pub broadcast group group_bits {
    lemma_has_bit_or,
    lemma_has_bit_and,
    lemma_has_bit_not,
    lemma_has_bit_mask,
    lemma_has_bit_zero,
}

/// The bitboard that marks square `idx` alone.
pub fn index_lookup_mask(idx: u8) -> (r: u64)
    requires
        idx < 64,
    ensures
        r == sq_mask(idx as int),
{
    1u64 << idx
}

/// Marks square `idx` in `bb`.
pub fn set_idx_bit(bb: u64, idx: u8) -> (r: u64)
    requires
        idx < 64,
    ensures
        r == with_bit(bb, idx as int),
{
    bb | index_lookup_mask(idx)
}

/// Clears square `idx` in `bb`.
pub fn erase_idx_bit(bb: u64, idx: u8) -> (r: u64)
    requires
        idx < 64,
    ensures
        r == without_bit(bb, idx as int),
{
    bb & !index_lookup_mask(idx)
}

/// Marks the square on rank `y` and file `x` in `bb`.
pub fn set_coords_bit(bb: u64, y: u8, x: u8) -> (r: u64)
    requires
        y < 8,
        x < 8,
    ensures
        r == with_bit(bb, sq_index(y as int, x as int)),
{
    set_idx_bit(bb, coords_to_index(y, x))
}

/// Clears the square on rank `y` and file `x` in `bb`.
pub fn erase_coords_bit(bb: u64, y: u8, x: u8) -> (r: u64)
    requires
        y < 8,
        x < 8,
    ensures
        r == without_bit(bb, sq_index(y as int, x as int)),
{
    erase_idx_bit(bb, coords_to_index(y, x))
}

/// Marks every square of `idxs` in `bb`.
pub fn set_idx_bits(bb: u64, idxs: Vec<u8>) -> (r: u64)
    requires
        forall|i: int| 0 <= i < idxs@.len() ==> idxs@[i] < 64,
    ensures
        forall|s: int| #[trigger]
            has_bit(r, s) == (has_bit(bb, s) || (0 <= s < 64 && idxs@.contains(s as u8))),
{
    broadcast use group_bits;

    let mut r = bb;
    let mut k: usize = 0;
    while k < idxs.len()
        invariant
            k <= idxs@.len(),
            forall|i: int| 0 <= i < idxs@.len() ==> idxs@[i] < 64,
            forall|s: int| #[trigger]
                has_bit(r, s) == (has_bit(bb, s) || (0 <= s < 64 && idxs@.subrange(
                    0,
                    k as int,
                ).contains(s as u8))),
        decreases idxs@.len() - k,
    {
        let ghost prev = r;
        r = set_idx_bit(r, idxs[k]);
        assert forall|s: int| #[trigger] has_bit(r, s) == (has_bit(bb, s) || (0 <= s < 64
            && idxs@.subrange(0, k + 1).contains(s as u8))) by {
            let sub = idxs@.subrange(0, k as int);
            let ext = idxs@.subrange(0, k + 1);
            assert(ext =~= sub.push(idxs@[k as int]));
            lemma_has_bit_mask(idxs@[k as int] as int, s);
            lemma_has_bit_or(prev, sq_mask(idxs@[k as int] as int), s);
            assert(has_bit(r, s) == (has_bit(prev, s) || s == idxs@[k as int] as int));
            if 0 <= s < 64 {
                if sub.contains(s as u8) {
                    let j = choose|j: int| 0 <= j < sub.len() && sub[j] == s as u8;
                    assert(ext[j] == s as u8);
                }
                if idxs@[k as int] == s as u8 {
                    assert(ext[k as int] == s as u8);
                }
                if ext.contains(s as u8) {
                    let j = choose|j: int| 0 <= j < ext.len() && ext[j] == s as u8;
                    if j < k {
                        assert(sub[j] == s as u8);
                    }
                }
            }
        }
        k = k + 1;
    }
    assert(idxs@.subrange(0, k as int) =~= idxs@);
    r
}

/// The bitboard that marks the square on rank `y` and file `x` alone.
pub fn coords_lookup_mask(y: u8, x: u8) -> (r: u64)
    requires
        y < 8,
        x < 8,
    ensures
        r == sq_mask(sq_index(y as int, x as int)),
{
    index_lookup_mask(coords_to_index(y, x))
}

/// Whether square `idx` is marked in `bb`.
pub fn index_lookup(bb: u64, idx: u8) -> (r: bool)
    requires
        idx < 64,
    ensures
        r == has_bit(bb, idx as int),
{
    broadcast use group_bits;

    let m = index_lookup_mask(idx);
    let r = bb & m != 0;
    proof {
        lemma_zero_iff_empty(bb & m);
        assert(has_bit(bb & m, idx as int) == has_bit(bb, idx as int));
        if r {
            let s = choose|s: int| 0 <= s < 64 && has_bit(bb & m, s);
            assert(s == idx);
        }
    }
    r
}

/// Whether the square on rank `y` and file `x` is marked in `bb`.
pub fn coords_lookup(bb: u64, y: u8, x: u8) -> (r: bool)
    requires
        y < 8,
        x < 8,
    ensures
        r == has_bit(bb, sq_index(y as int, x as int)),
{
    index_lookup(bb, coords_to_index(y, x))
}

/// The marked squares of `bb`, in increasing order.
pub fn idx_bitscan(bb: u64) -> (r: Vec<u8>)
    ensures
        forall|i: int, j: int| 0 <= i < j < r@.len() ==> r@[i] < r@[j],
        forall|i: int| 0 <= i < r@.len() ==> has_bit(bb, #[trigger] r@[i] as int),
        forall|s: int| #[trigger] has_bit(bb, s) ==> r@.contains(s as u8),
{
    let mut r: Vec<u8> = Vec::new();
    let mut idx: u8 = 0;
    while idx < 64
        invariant
            idx <= 64,
            forall|i: int, j: int| 0 <= i < j < r@.len() ==> r@[i] < r@[j],
            forall|i: int| 0 <= i < r@.len() ==> r@[i] < idx,
            forall|i: int| 0 <= i < r@.len() ==> has_bit(bb, #[trigger] r@[i] as int),
            forall|s: int| 0 <= s < idx && #[trigger] has_bit(bb, s) ==> r@.contains(s as u8),
        decreases 64 - idx,
    {
        let ghost prev = r@;
        if index_lookup(bb, idx) {
            r.push(idx);
            assert(r@[r@.len() - 1] == idx);
        }
        assert forall|s: int| 0 <= s <= idx && #[trigger] has_bit(bb, s) implies r@.contains(
            s as u8,
        ) by {
            if s < idx {
                let j = choose|j: int| 0 <= j < prev.len() && prev[j] == s as u8;
                assert(r@[j] == s as u8);
            }
        }
        idx = idx + 1;
    }
    r
}

/// The marked squares of `bb` as `(rank, file)` pairs, in increasing order of
/// square index.
pub fn coords_bitscan(bb: u64) -> (r: Vec<(u8, u8)>)
    ensures
        forall|i: int, j: int|
            0 <= i < j < r@.len() ==> sq_index(r@[i].0 as int, r@[i].1 as int) < sq_index(
                r@[j].0 as int,
                r@[j].1 as int,
            ),
        forall|i: int|
            0 <= i < r@.len() ==> r@[i].0 < 8 && r@[i].1 < 8 && has_bit(
                bb,
                sq_index(#[trigger] r@[i].0 as int, r@[i].1 as int),
            ),
        forall|s: int|
            #[trigger] has_bit(bb, s) ==> exists|i: int|
                0 <= i < r@.len() && sq_index(r@[i].0 as int, r@[i].1 as int) == s,
{
    let idxs = idx_bitscan(bb);
    let mut r: Vec<(u8, u8)> = Vec::new();
    let mut k: usize = 0;
    while k < idxs.len()
        invariant
            k <= idxs@.len(),
            r@.len() == k,
            forall|i: int| 0 <= i < idxs@.len() ==> has_bit(bb, #[trigger] idxs@[i] as int),
            forall|i: int|
                0 <= i < k ==> r@[i].0 < 8 && r@[i].1 < 8 && sq_index(
                    #[trigger] r@[i].0 as int,
                    r@[i].1 as int,
                ) == idxs@[i],
        decreases idxs@.len() - k,
    {
        r.push(index_to_coords(idxs[k]));
        k = k + 1;
    }
    assert forall|s: int| #[trigger] has_bit(bb, s) implies exists|i: int|
        0 <= i < r@.len() && sq_index(r@[i].0 as int, r@[i].1 as int) == s by {
        assert(idxs@.contains(s as u8));
        let i = choose|i: int| 0 <= i < idxs@.len() && idxs@[i] == s as u8;
        assert(sq_index(r@[i].0 as int, r@[i].1 as int) == s);
    }
    r
}

/// The index of the square on rank `y` and file `x`.
pub fn coords_to_index(y: u8, x: u8) -> (r: u8)
    requires
        y < 8,
        x < 8,
    ensures
        r == sq_index(y as int, x as int),
        r < 64,
{
    y * 8 + x
}

/// The rank and file of square `idx`.
pub fn index_to_coords(idx: u8) -> (r: (u8, u8))
    requires
        idx < 64,
    ensures
        r.0 == idx / 8,
        r.1 == idx % 8,
        r.0 < 8,
        r.1 < 8,
        sq_index(r.0 as int, r.1 as int) == idx,
{
    (idx / 8, idx % 8)
}

/// Whether `(y, x)` names a square of the board.
pub fn is_legal_square(y: i8, x: i8) -> (r: bool)
    ensures
        r == on_board(y as int, x as int),
{
    y >= 0 && y < 8 && x >= 0 && x < 8
}

} // verus!
