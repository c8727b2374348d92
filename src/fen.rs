//! Reading positions from FEN text. Of the space-separated fields only the
//! first four are read: piece placement, side to move, castling rights and
//! en passant square; the move counters after them are passed over.
use vstd::prelude::*;
use vstd::string::*;
use crate::bb_ops::{coords_to_index, sq_index};
use crate::patterns::{file_of, rank_of, BLACK, WHITE};
use crate::position::{lemma_placed_disjoint, piece_on, placed, slot, Position};
use crate::squares::{
    coords_of_name, piece_of_char, string_to_file, string_to_rank, string_to_piece,
};

verus! {

/// The parts of `s` between the occurrences of `sep`.
pub open spec fn split(s: Seq<char>, sep: char) -> Seq<Seq<char>>
    decreases s.len(),
{
    if s.len() == 0 {
        seq![Seq::empty()]
    } else {
        let r = split(s.drop_last(), sep);
        if s.last() == sep {
            r.push(Seq::empty())
        } else {
            r.update(r.len() - 1, r.last().push(s.last()))
        }
    }
}

pub open spec fn is_digit(c: char) -> bool {
    '0' <= c <= '9'
}

pub open spec fn is_letter(c: char) -> bool {
    ('a' <= c <= 'z') || ('A' <= c <= 'Z')
}

/// The color of a piece letter: upper case for white.
pub open spec fn letter_color(c: char) -> int {
    if 'A' <= c <= 'Z' {
        WHITE as int
    } else {
        BLACK as int
    }
}

/// The number of files that the rank text `g` covers: a digit skips that many
/// files, a letter takes one.
pub open spec fn width(g: Seq<char>) -> int
    decreases g.len(),
{
    if g.len() == 0 {
        0
    } else {
        width(g.drop_last()) + if is_digit(g.last()) {
            g.last() as int - 48
        } else {
            1
        }
    }
}

/// Whether the rank text `g` is made of digits and letters and covers eight files.
pub open spec fn group_ok(g: Seq<char>) -> bool {
    &&& forall|j: int| 0 <= j < g.len() ==> is_digit(#[trigger] g[j]) || is_letter(g[j])
    &&& width(g) == 8
}

/// Whether one of the first `n` characters of the rank text `g` is the piece
/// letter `ch` on file `f`.
pub open spec fn letter_before(g: Seq<char>, n: int, f: int, ch: char) -> bool {
    exists|j: int| 0 <= j < n && #[trigger] g[j] == ch && is_letter(ch) && width(g.take(j)) == f
}

/// Whether the placement field `f` holds eight well-formed ranks.
pub open spec fn placement_ok(f: Seq<char>) -> bool {
    let gs = split(f, '/');
    gs.len() == 8 && forall|i: int| 0 <= i < 8 ==> #[trigger] group_ok(gs[i])
}

/// Whether the placement field `f` puts a piece of color `c` and type `pt` on `s`.
/// Its first rank text describes the eighth rank.
pub open spec fn placement_piece(f: Seq<char>, c: int, pt: int, s: int) -> bool {
    let g = split(f, '/')[7 - rank_of(s)];
    0 <= s < 64 && group_piece_before(g, g.len() as int, c, pt, file_of(s))
}

/// The side to move named by a field: `w` or `b`, in either case.
pub open spec fn turn_of_field(f: Seq<char>) -> Option<u8> {
    if f == seq!['w'] || f == seq!['W'] {
        Some(WHITE)
    } else if f == seq!['b'] || f == seq!['B'] {
        Some(BLACK)
    } else {
        None
    }
}

/// The en passant square named by a field (`-` or nothing for none), or `None`
/// when the field is malformed.
pub open spec fn ep_of_field(f: Seq<char>) -> Option<Option<u8>> {
    if f.len() == 0 || f == seq!['-'] {
        Some(None)
    } else if f.len() == 2 && coords_of_name(f) is Some {
        let (r, fl) = coords_of_name(f)->0;
        Some(Some(sq_index(r as int, fl as int) as u8))
    } else {
        None
    }
}

/// Whether `p` is the position that the FEN text `s` describes.
pub open spec fn fen_position(s: Seq<char>, p: Position) -> bool {
    let fs = split(s, ' ');
    &&& p.wf()
    &&& p.turn == turn_of_field(fs[1])->0
    &&& forall|c: int, pt: int, sq: int|
        0 <= c < 2 && 0 <= pt < 6 ==> #[trigger] piece_on(p.board(), c, pt, sq)
            == placement_piece(fs[0], c, pt, sq)
    &&& p.ks_castle@ == seq![fs[2].contains('K'), fs[2].contains('k')]
    &&& p.qs_castle@ == seq![fs[2].contains('Q'), fs[2].contains('q')]
    &&& p.en_passant == ep_of_field(fs[3])->0
}

/// Whether `s` is a FEN text that decodes.
pub open spec fn fen_ok(s: Seq<char>) -> bool {
    let fs = split(s, ' ');
    &&& fs.len() >= 4
    &&& placement_ok(fs[0])
    &&& turn_of_field(fs[1]) is Some
    &&& ep_of_field(fs[3]) is Some
}

pub proof fn lemma_split_len(s: Seq<char>, sep: char)
    ensures
        split(s, sep).len() >= 1,
    decreases s.len(),
{
    if s.len() > 0 {
        lemma_split_len(s.drop_last(), sep);
    }
}

/// Each character widens a rank text by at least as much as a digit says,
/// and a letter by one.
proof fn lemma_width_step(g: Seq<char>, j: int)
    requires
        0 <= j < g.len(),
        is_digit(g[j]) || is_letter(g[j]),
    ensures
        width(g.take(j + 1)) == width(g.take(j)) + if is_digit(g[j]) {
            g[j] as int - 48
        } else {
            1
        },
{
    assert(g.take(j + 1).drop_last() =~= g.take(j));
}

/// Widths of prefixes only grow, by one at least past each letter.
proof fn lemma_width_mono(g: Seq<char>, j: int, k: int)
    requires
        0 <= j < k <= g.len(),
        forall|i: int| 0 <= i < g.len() ==> is_digit(#[trigger] g[i]) || is_letter(g[i]),
    ensures
        width(g.take(k)) >= width(g.take(j)) + if is_letter(g[j]) {
            1int
        } else {
            0
        },
    decreases k - j,
{
    lemma_width_step(g, k - 1);
    if k - 1 > j {
        lemma_width_mono(g, j, k - 1);
    }
}

/// The characters of `s`.
pub(crate) fn to_chars(s: &str) -> (r: Vec<char>)
    ensures
        r@ == s@,
{
    let n = s.unicode_len();
    let mut r: Vec<char> = Vec::new();
    let mut i: usize = 0;
    while i < n
        invariant
            n == s@.len(),
            i <= n,
            r@ == s@.take(i as int),
        decreases n - i,
    {
        r.push(s.get_char(i));
        i = i + 1;
        assert(r@ =~= s@.take(i as int));
    }
    assert(s@.take(n as int) =~= s@);
    r
}

/// The parts of `s` between the occurrences of `sep`.
fn split_chars(s: &Vec<char>, sep: char) -> (r: Vec<Vec<char>>)
    ensures
        r@.len() == split(s@, sep).len(),
        forall|i: int| 0 <= i < r@.len() ==> #[trigger] r@[i]@ == split(s@, sep)[i],
{
    let mut done: Vec<Vec<char>> = Vec::new();
    let mut cur: Vec<char> = Vec::new();
    let mut i: usize = 0;
    while i < s.len()
        invariant
            i <= s@.len(),
            done@.len() + 1 == split(s@.take(i as int), sep).len(),
            forall|k: int| 0 <= k < done@.len() ==> #[trigger] done@[k]@ == split(s@.take(i as int), sep)[k],
            cur@ == split(s@.take(i as int), sep).last(),
        decreases s@.len() - i,
    {
        let ghost before = split(s@.take(i as int), sep);
        assert(s@.take(i + 1).drop_last() =~= s@.take(i as int));
        proof {
            lemma_split_len(s@.take(i as int), sep);
        }
        let c = s[i];
        if c == sep {
            done.push(cur);
            cur = Vec::new();
            assert(cur@ =~= Seq::<char>::empty());
        } else {
            cur.push(c);
        }
        i = i + 1;

    }
    assert(s@.take(i as int) =~= s@);
    done.push(cur);
    assert forall|i: int| 0 <= i < done@.len() implies #[trigger] done@[i]@
        == split(s@, sep)[i] by {
    }
    done
}

/// Whether the first `n` characters of the rank text `g` put a piece of color
/// `c` and type `pt` on file `f`.
pub open spec fn group_piece_before(g: Seq<char>, n: int, c: int, pt: int, f: int) -> bool {
    exists|ch: char| #[trigger] letter_before(g, n, f, ch) && letter_color(ch) == c && piece_of_char(ch) == pt
}

/// Reads the rank text `g` onto rank `rank` of `pos`, whose squares on that
/// rank are empty. Returns whether the text is well formed.
fn parse_rank(g: &Vec<char>, rank: u8, pos: &mut Position) -> (ok: bool)
    requires
        rank < 8,
        old(pos).wf(),
        forall|c: int, pt: int, s: int|
            0 <= c < 2 && 0 <= pt < 6 && rank_of(s) == rank ==> !#[trigger] piece_on(
                old(pos).board(),
                c,
                pt,
                s,
            ),
    ensures
        ok == group_ok(g@),
        final(pos).wf(),
        final(pos).turn == old(pos).turn,
        final(pos).qs_castle == old(pos).qs_castle,
        final(pos).ks_castle == old(pos).ks_castle,
        final(pos).en_passant == old(pos).en_passant,
        ok ==> forall|c: int, pt: int, s: int|
            0 <= c < 2 && 0 <= pt < 6 ==> #[trigger] piece_on(final(pos).board(), c, pt, s) == (
            if 0 <= s < 64 && rank_of(s) == rank {
                group_piece_before(g@, g@.len() as int, c, pt, file_of(s))
            } else {
                piece_on(old(pos).board(), c, pt, s)
            }),
{
    let ghost b0 = old(pos).board();
    let mut fi: u8 = 0;
    let mut j: usize = 0;
    while j < g.len()
        invariant
            rank < 8,
            j <= g@.len(),
            fi == width(g@.take(j as int)),
            fi <= 8,
            forall|k: int| 0 <= k < j ==> is_digit(#[trigger] g@[k]) || is_letter(g@[k]),
            pos.wf(),
            pos.turn == old(pos).turn,
            pos.qs_castle == old(pos).qs_castle,
            pos.ks_castle == old(pos).ks_castle,
            pos.en_passant == old(pos).en_passant,
            b0 == old(pos).board(),
            forall|c: int, pt: int, s: int|
                0 <= c < 2 && 0 <= pt < 6 ==> #[trigger] piece_on(pos.board(), c, pt, s) == (
                if 0 <= s < 64 && rank_of(s) == rank {
                    group_piece_before(g@, j as int, c, pt, file_of(s))
                } else {
                    piece_on(b0, c, pt, s)
                }),
        decreases g@.len() - j,
    {
        let ch = g[j];
        let ghost bj = pos.board();
        if '0' <= ch && ch <= '9' {
            let d = (ch as u32 - 48) as u8;
            if fi + d > 8 {
                proof {
                    lemma_width_step(g@, j as int);
                    lemma_width_prefix(g@, j as int + 1);
                }
                return false;
            }
            proof {
                lemma_width_step(g@, j as int);
                assert forall|c: int, pt: int, f: int|
                    group_piece_before(g@, j as int + 1, c, pt, f)
                        == group_piece_before(g@, j as int, c, pt, f) by {
                    if group_piece_before(g@, j as int + 1, c, pt, f) {
                        let ch2 = choose|ch2: char| #[trigger] letter_before(g@, j as int + 1, f, ch2)
                            && letter_color(ch2) == c && piece_of_char(ch2) == pt;
                        let k = choose|k: int| 0 <= k < j + 1 && #[trigger] g@[k] == ch2
                            && is_letter(ch2) && width(g@.take(k)) == f;
                        assert(letter_before(g@, j as int, f, ch2));
                    }
                    if group_piece_before(g@, j as int, c, pt, f) {
                        let ch2 = choose|ch2: char| #[trigger] letter_before(g@, j as int, f, ch2)
                            && letter_color(ch2) == c && piece_of_char(ch2) == pt;
                        let k = choose|k: int| 0 <= k < j && #[trigger] g@[k] == ch2
                            && is_letter(ch2) && width(g@.take(k)) == f;
                        assert(letter_before(g@, j as int + 1, f, ch2));
                    }
                }
            }
            fi = fi + d;
        } else if ('a' <= ch && ch <= 'z') || ('A' <= ch && ch <= 'Z') {
            if fi >= 8 {
                proof {
                    lemma_width_step(g@, j as int);
                    lemma_width_prefix(g@, j as int + 1);
                }
                return false;
            }
            let color = if 'A' <= ch && ch <= 'Z' {
                WHITE
            } else {
                BLACK
            };
            let piece_type = string_to_piece(ch);
            let sq = coords_to_index(rank, fi);
            proof {
                lemma_width_step(g@, j as int);
                lemma_placed_disjoint(bj, slot(color as int, piece_type as int), sq as int);
            }
            pos.add_piece(color, piece_type, sq);
            proof {
                assert forall|f: int, ch2: char|
                    #[trigger] letter_before(g@, j as int + 1, f, ch2) == (letter_before(g@, j as int, f, ch2) || (f == fi && ch2 == ch)) by {
                    if letter_before(g@, j as int + 1, f, ch2) {
                        let k = choose|k: int| 0 <= k < j + 1 && #[trigger] g@[k] == ch2
                            && is_letter(ch2) && width(g@.take(k)) == f;
                        if k < j {
                            assert(letter_before(g@, j as int, f, ch2));
                        }
                    }
                    if letter_before(g@, j as int, f, ch2) {
                        let k = choose|k: int| 0 <= k < j && #[trigger] g@[k] == ch2
                            && is_letter(ch2) && width(g@.take(k)) == f;
                        assert(letter_before(g@, j as int + 1, f, ch2));
                    }
                    if f == fi && ch2 == ch {
                        assert(g@[j as int] == ch2);
                    }
                }
                assert forall|f: int, ch2: char| #[trigger] letter_before(g@, j as int, f, ch2)
                    implies f < fi by {
                    let k = choose|k: int| 0 <= k < j && #[trigger] g@[k] == ch2 && is_letter(ch2)
                        && width(g@.take(k)) == f;
                    lemma_width_mono(g@.take(j as int), k, j as int);
                    assert(g@.take(j as int).take(k) =~= g@.take(k));
                    assert(g@.take(j as int).take(j as int) =~= g@.take(j as int));
                }
                assert forall|c: int, pt: int, s: int|
                    0 <= c < 2 && 0 <= pt < 6 implies #[trigger] piece_on(pos.board(), c, pt, s)
                        == (
                    if 0 <= s < 64 && rank_of(s) == rank {
                        group_piece_before(g@, j as int + 1, c, pt, file_of(s))
                    } else {
                        piece_on(b0, c, pt, s)
                    }) by {
                    assert(pos.board() == placed(bj, slot(color as int, piece_type as int), sq as int));
                    assert(piece_on(pos.board(), c, pt, s) == (if s == sq {
                        slot(c, pt) == slot(color as int, piece_type as int)
                    } else {
                        piece_on(bj, c, pt, s)
                    }));
                    if s == sq {
                        assert(file_of(s) == fi);
                        assert(rank_of(s) == rank);
                        assert(letter_before(g@, j as int + 1, fi as int, ch));
                        assert(letter_color(ch) == color);
                        assert(piece_of_char(ch) == piece_type);
                        if group_piece_before(g@, j as int + 1, c, pt, file_of(s)) {
                            let ch2 = choose|ch2: char| #[trigger] letter_before(g@, j as int + 1, file_of(s), ch2)
                                && letter_color(ch2) == c && piece_of_char(ch2) == pt;
                            assert(ch2 == ch);
                        }
                        if c == color && pt == piece_type {
                            assert(group_piece_before(g@, j as int + 1, c, pt, file_of(s)));
                        }
                    } else if 0 <= s < 64 && rank_of(s) == rank {
                        assert(file_of(s) != fi);
                        if group_piece_before(g@, j as int + 1, c, pt, file_of(s)) {
                            let ch2 = choose|ch2: char| #[trigger] letter_before(g@, j as int + 1, file_of(s), ch2)
                                && letter_color(ch2) == c && piece_of_char(ch2) == pt;
                            assert(letter_before(g@, j as int, file_of(s), ch2));
                        }
                        if group_piece_before(g@, j as int, c, pt, file_of(s)) {
                            let ch2 = choose|ch2: char| #[trigger] letter_before(g@, j as int, file_of(s), ch2)
                                && letter_color(ch2) == c && piece_of_char(ch2) == pt;
                            assert(letter_before(g@, j as int + 1, file_of(s), ch2));
                        }
                    }
                }
            }
            fi = fi + 1;
        } else {
            return false;
        }
        j = j + 1;
        assert(g@.take(j as int).drop_last() =~= g@.take(j - 1));
    }
    assert(g@.take(j as int) =~= g@);
    fi == 8
}

/// A prefix of a rank text made of digits and letters is no wider than the text.
proof fn lemma_width_prefix(g: Seq<char>, k: int)
    requires
        0 <= k <= g.len(),
    ensures
        (forall|i: int| 0 <= i < g.len() ==> is_digit(#[trigger] g[i]) || is_letter(g[i]))
            ==> width(g) >= width(g.take(k)),
    decreases g.len() - k,
{
    if k < g.len() {
        lemma_width_prefix(g, k + 1);
        if forall|i: int| 0 <= i < g.len() ==> is_digit(#[trigger] g[i]) || is_letter(g[i]) {
            lemma_width_step(g, k);
        }
    } else {
        assert(g.take(k) =~= g);
    }
}

/// Whether `v` holds `c`.
fn has_char(v: &Vec<char>, c: char) -> (r: bool)
    ensures
        r == v@.contains(c),
{
    let mut i: usize = 0;
    while i < v.len()
        invariant
            i <= v@.len(),
            forall|k: int| 0 <= k < i ==> v@[k] != c,
        decreases v@.len() - i,
    {
        if v[i] == c {
            return true;
        }
        i = i + 1;
    }
    false
}

impl Position {
    /// The position described by the FEN text `fen`, or `None` when one of its
    /// first four fields is missing or malformed.
    pub fn from_fen(fen: String) -> (r: Option<Position>)
        ensures
            r is Some == fen_ok(fen@),
            r matches Some(p) ==> fen_position(fen@, p),
    {
        let chars = to_chars(fen.as_str());
        let fields = split_chars(&chars, ' ');
        let ghost fs = split(fen@, ' ');
        if fields.len() < 4 {
            return None;
        }
        let groups = split_chars(&fields[0], '/');
        let ghost gs = split(fs[0], '/');
        if groups.len() != 8 {
            return None;
        }
        let mut pos = Position::empty();
        let mut ri: usize = 0;
        while ri < 8
            invariant
                fs == split(fen@, ' '),
                fs.len() >= 4,
                groups@.len() == 8,
                gs == split(fs[0], '/'),
                forall|i: int| 0 <= i < 8 ==> #[trigger] groups@[i]@ == gs[i],
                ri <= 8,
                pos.wf(),
                pos.turn == WHITE,
                pos.en_passant is None,
                forall|i: int| 0 <= i < ri ==> #[trigger] group_ok(gs[i]),
                forall|c: int, pt: int, s: int|
                    0 <= c < 2 && 0 <= pt < 6 ==> #[trigger] piece_on(pos.board(), c, pt, s) == (
                    0 <= s < 64 && rank_of(s) > 7 - ri && group_piece_before(
                        gs[7 - rank_of(s)],
                        gs[7 - rank_of(s)].len() as int,
                        c,
                        pt,
                        file_of(s),
                    )),
            decreases 8 - ri,
        {
            if !parse_rank(&groups[ri], (7 - ri) as u8, &mut pos) {
                assert(!group_ok(gs[ri as int]));
                return None;
            }
            ri = ri + 1;
        }
        let f1 = &fields[1];
        if f1.len() != 1 {
            assert(!(fs[1] =~= seq!['w']) && !(fs[1] =~= seq!['W']) && !(fs[1] =~= seq!['b']) && !(
            fs[1] =~= seq!['B']));
            return None;
        }
        let t = f1[0];
        let turn = if t == 'w' || t == 'W' {
            WHITE
        } else if t == 'b' || t == 'B' {
            BLACK
        } else {
            assert(!(fs[1] =~= seq!['w']) && !(fs[1] =~= seq!['W']) && !(fs[1] =~= seq!['b']) && !(
            fs[1] =~= seq!['B']));
            return None;
        };
        assert(fs[1] =~= seq![t]);
        let f2 = &fields[2];
        let ks_castle = [has_char(f2, 'K'), has_char(f2, 'k')];
        let qs_castle = [has_char(f2, 'Q'), has_char(f2, 'q')];
        let f3 = &fields[3];
        let en_passant = if f3.len() == 0 {
            None
        } else if f3.len() == 1 && f3[0] == '-' {
            assert(fs[3] =~= seq!['-']);
            None
        } else if f3.len() == 2 {
            assert(!(fs[3] =~= seq!['-']));
            match (string_to_file(f3[0]), string_to_rank(f3[1])) {
                (Some(fl), Some(rk)) => Some(coords_to_index(rk, fl)),
                _ => {
                    return None;
                },
            }
        } else {
            assert(!(fs[3] =~= seq!['-']));
            return None;
        };
        let r = Position { turn, piece_bbs: pos.piece_bbs, qs_castle, ks_castle, en_passant };
        proof {
            assert(r.ks_castle@ =~= seq![fs[2].contains('K'), fs[2].contains('k')]);
            assert(r.qs_castle@ =~= seq![fs[2].contains('Q'), fs[2].contains('q')]);
            assert forall|c: int, pt: int, sq: int|
                0 <= c < 2 && 0 <= pt < 6 implies #[trigger] piece_on(r.board(), c, pt, sq)
                    == placement_piece(fs[0], c, pt, sq) by {
                assert(piece_on(pos.board(), c, pt, sq) == piece_on(r.board(), c, pt, sq));
            }
        }
        Some(r)
    }
}

} // verus!
