//! Short move notation (`e4`, `Nf3`, `exd5`, `e8=Q`, `O-O`), read without
//! regard to case and resolved against the legal moves of a position.
use vstd::prelude::*;
use vstd::string::*;
use crate::moves::Move;
use crate::movegen::{color_legal, piece_legal, type_legal};
use crate::patterns::{file_of, rank_of, KING, PAWN};
use crate::position::{piece_on, Position};
use crate::squares::{
    coords_of_name, file_of_char, piece_of_char, rank_of_char, string_to_file, string_to_piece,
    string_to_rank,
};
use crate::bb_ops::{coords_to_index, sq_index};

verus! {

/// A parsed move text: a piece move with its piece type, origin file and rank
/// hints, target square and promotion type, or one of the castles.
#[derive(Clone, Copy, Debug, PartialEq, Eq)]
pub enum Notation {
    Standard(u8, Option<u8>, Option<u8>, u8, Option<u8>),
    LongCastle,
    ShortCastle,
}

/// `c` in lower case, for ASCII letters.
pub open spec fn lower(c: char) -> char {
    if 'A' <= c <= 'Z' {
        ((c as u32) + 32) as char
    } else {
        c
    }
}

/// `s` without one trailing check or mate sign.
pub open spec fn strip_check(s: Seq<char>) -> Seq<char> {
    if s.len() > 0 && (s.last() == '+' || s.last() == '#') {
        s.drop_last()
    } else {
        s
    }
}

/// Whether `c` is a piece letter (in lower case).
pub open spec fn is_piece_letter(c: char) -> bool {
    c == 'k' || c == 'q' || c == 'r' || c == 'b' || c == 'n'
}

/// Whether `c` names a piece a pawn may promote to (in lower case).
pub open spec fn is_promotion_letter(c: char) -> bool {
    c == 'q' || c == 'r' || c == 'b' || c == 'n'
}

/// The origin hint `h`: nothing, a file, a rank, or a file and a rank.
pub open spec fn parse_hint(h: Seq<char>) -> Option<(Option<u8>, Option<u8>)> {
    if h.len() == 0 {
        Some((None, None))
    } else if h.len() == 1 && file_of_char(h[0]) is Some {
        Some((file_of_char(h[0]), None))
    } else if h.len() == 1 && rank_of_char(h[0]) is Some {
        Some((None, rank_of_char(h[0])))
    } else if h.len() == 2 && file_of_char(h[0]) is Some && rank_of_char(h[1]) is Some {
        Some((file_of_char(h[0]), rank_of_char(h[1])))
    } else {
        None
    }
}

/// A piece move in lower-case text `t`: piece letter, origin hint, capture
/// sign, target square and promotion, in that order, all but the target optional.
pub open spec fn parse_standard(t: Seq<char>) -> Option<Notation> {
    let n = t.len() as int;
    let has_promo = n >= 2 && t[n - 2] == '=' && is_promotion_letter(t[n - 1]);
    let body = if has_promo {
        t.take(n - 2)
    } else {
        t
    };
    let promo = if has_promo {
        Some(piece_of_char(t[n - 1]))
    } else {
        None
    };
    let m = body.len() as int;
    if m < 2 || coords_of_name(body.subrange(m - 2, m)) is None {
        None
    } else {
        let (r, f) = coords_of_name(body.subrange(m - 2, m))->0;
        let target = sq_index(r as int, f as int) as u8;
        let pre0 = body.take(m - 2);
        let pre = if pre0.len() > 0 && pre0.last() == 'x' {
            pre0.drop_last()
        } else {
            pre0
        };
        if pre.len() > 0 && is_piece_letter(pre[0]) && parse_hint(pre.drop_first()) is Some {
            let (hf, hr) = parse_hint(pre.drop_first())->0;
            Some(Notation::Standard(piece_of_char(pre[0]), hf, hr, target, promo))
        } else if parse_hint(pre) is Some {
            let (hf, hr) = parse_hint(pre)->0;
            Some(Notation::Standard(PAWN, hf, hr, target, promo))
        } else {
            None
        }
    }
}

/// The move text `s` parsed, if it follows the grammar.
pub open spec fn parse_notation(s: Seq<char>) -> Option<Notation> {
    let t = strip_check(s).map_values(|c: char| lower(c));
    if t == seq!['o', '-', 'o', '-', 'o'] || t == seq!['0', '-', '0', '-', '0'] {
        Some(Notation::LongCastle)
    } else if t == seq!['o', '-', 'o'] || t == seq!['0', '-', '0'] {
        Some(Notation::ShortCastle)
    } else {
        parse_standard(t)
    }
}

/// Whether square `o` agrees with the file and rank hints.
pub open spec fn hint_ok(hf: Option<u8>, hr: Option<u8>, o: int) -> bool {
    (hf matches Some(f) ==> file_of(o) == f) && (hr matches Some(r) ==> rank_of(o) == r)
}

/// Whether move `m` is one that notation `n` describes.
pub open spec fn describes(n: Notation, m: Move) -> bool {
    match n {
        Notation::Standard(pt, hf, hr, target, promo) => match m {
            Move::StandardMove(pt2, o, t, _, promo2, _) => pt2 == pt && t == target && promo2
                == promo && hint_ok(hf, hr, o as int),
            Move::EnPassant(o, t) => pt == PAWN && t == target && promo is None && hint_ok(
                hf,
                hr,
                o as int,
            ),
            _ => false,
        },
        Notation::LongCastle => m is LongCastle,
        Notation::ShortCastle => m is ShortCastle,
    }
}

/// The origin square of a move that names one.
pub open spec fn origin_of(m: Move) -> int {
    match m {
        Move::StandardMove(_, o, _, _, _, _) => o as int,
        Move::EnPassant(o, _) => o as int,
        _ => 0,
    }
}

fn lower_char(c: char) -> (r: char)
    ensures
        r == lower(c),
{
    if 'A' <= c && c <= 'Z' {
        ((c as u8) + 32) as char
    } else {
        c
    }
}

/// The origin hint made of `t[lo..hi]`.
fn parse_hint_at(t: &Vec<char>, lo: usize, hi: usize) -> (r: Option<(Option<u8>, Option<u8>)>)
    requires
        lo <= hi <= t@.len(),
    ensures
        r == parse_hint(t@.subrange(lo as int, hi as int)),
{
    let ghost h = t@.subrange(lo as int, hi as int);
    if hi == lo {
        Some((None, None))
    } else if hi - lo == 1 {
        assert(h[0] == t@[lo as int]);
        let f = string_to_file(t[lo]);
        if f.is_some() {
            Some((f, None))
        } else {
            let r = string_to_rank(t[lo]);
            if r.is_some() {
                Some((None, r))
            } else {
                None
            }
        }
    } else if hi - lo == 2 {
        assert(h[0] == t@[lo as int]);
        assert(h[1] == t@[lo + 1]);
        let f = string_to_file(t[lo]);
        let r = string_to_rank(t[lo + 1]);
        if f.is_some() && r.is_some() {
            Some((f, r))
        } else {
            None
        }
    } else {
        None
    }
}

/// A piece move in lower-case text `t`.
fn parse_standard_at(t: &Vec<char>) -> (r: Option<Notation>)
    ensures
        r == parse_standard(t@),
{
    let n = t.len();
    let has_promo = n >= 2 && t[n - 2] == '=' && (t[n - 1] == 'q' || t[n - 1] == 'r' || t[n - 1]
        == 'b' || t[n - 1] == 'n');
    let m = if has_promo {
        n - 2
    } else {
        n
    };
    let ghost body = if has_promo {
        t@.take(n - 2)
    } else {
        t@
    };
    assert(body =~= t@.take(m as int));
    let promo = if has_promo {
        Some(string_to_piece(t[n - 1]))
    } else {
        None
    };
    if m < 2 {
        return None;
    }
    let ghost sq_text = body.subrange(m - 2, m as int);
    assert(sq_text[0] == t@[m - 2]);
    assert(sq_text[1] == t@[m - 1]);
    let (f, r) = match (string_to_file(t[m - 2]), string_to_rank(t[m - 1])) {
        (Some(f), Some(r)) => (f, r),
        _ => {
            return None;
        },
    };
    let target = coords_to_index(r, f);
    let mut pe = m - 2;
    assert(body.take(m - 2) =~= t@.take(pe as int));
    if pe > 0 && t[pe - 1] == 'x' {
        assert(t@.take(pe as int).drop_last() =~= t@.take(pe - 1));
        pe = pe - 1;
    }
    let ghost pre = t@.take(pe as int);
    assert(pre =~= t@.subrange(0, pe as int));
    if pe > 0 && (t[0] == 'k' || t[0] == 'q' || t[0] == 'r' || t[0] == 'b' || t[0] == 'n') {
        assert(pre.drop_first() =~= t@.subrange(1, pe as int));
        match parse_hint_at(t, 1, pe) {
            Some((hf, hr)) => {
                return Some(Notation::Standard(string_to_piece(t[0]), hf, hr, target, promo));
            },
            None => {},
        }
    }
    match parse_hint_at(t, 0, pe) {
        Some((hf, hr)) => Some(Notation::Standard(PAWN, hf, hr, target, promo)),
        None => None,
    }
}

/// The move text `s` parsed, if it follows the grammar.
pub fn parse_move_text(s: &str) -> (r: Option<Notation>)
    ensures
        r == parse_notation(s@),
{
    let raw = crate::fen::to_chars(s);
    let mut n = raw.len();
    if n > 0 && (raw[n - 1] == '+' || raw[n - 1] == '#') {
        n = n - 1;
    }
    let ghost stripped = strip_check(s@);
    assert(stripped =~= s@.take(n as int));
    let mut t: Vec<char> = Vec::new();
    let mut i: usize = 0;
    while i < n
        invariant
            n <= raw@.len(),
            raw@ == s@,
            stripped == s@.take(n as int),
            i <= n,
            t@ == stripped.take(i as int).map_values(|c: char| lower(c)),
        decreases n - i,
    {
        t.push(lower_char(raw[i]));
        i = i + 1;
        assert(t@ =~= stripped.take(i as int).map_values(|c: char| lower(c)));
    }
    assert(stripped.take(n as int) =~= stripped);
    let ghost tv = t@;
    if t.len() == 5 && t[1] == '-' && t[3] == '-' && ((t[0] == 'o' && t[2] == 'o' && t[4] == 'o')
        || (t[0] == '0' && t[2] == '0' && t[4] == '0')) {
        assert(tv =~= seq!['o', '-', 'o', '-', 'o'] || tv =~= seq!['0', '-', '0', '-', '0']);
        return Some(Notation::LongCastle);
    }
    assert(!(tv =~= seq!['o', '-', 'o', '-', 'o']) && !(tv =~= seq!['0', '-', '0', '-', '0'])) by {
        if tv =~= seq!['o', '-', 'o', '-', 'o'] {
            assert(tv[0] == 'o' && tv[1] == '-');
        }
        if tv =~= seq!['0', '-', '0', '-', '0'] {
            assert(tv[0] == '0' && tv[1] == '-');
        }
    }
    if t.len() == 3 && t[1] == '-' && ((t[0] == 'o' && t[2] == 'o') || (t[0] == '0' && t[2]
        == '0')) {
        assert(tv =~= seq!['o', '-', 'o'] || tv =~= seq!['0', '-', '0']);
        return Some(Notation::ShortCastle);
    }
    assert(!(tv =~= seq!['o', '-', 'o']) && !(tv =~= seq!['0', '-', '0'])) by {
        if tv =~= seq!['o', '-', 'o'] {
            assert(tv[0] == 'o' && tv[1] == '-');
        }
        if tv =~= seq!['0', '-', '0'] {
            assert(tv[0] == '0' && tv[1] == '-');
        }
    }
    parse_standard_at(&t)
}

/// Whether `m` is one that notation `n` describes.
fn describes_move(n: Notation, m: Move) -> (r: bool)
    ensures
        r == describes(n, m),
{
    match n {
        Notation::Standard(pt, hf, hr, target, promo) => match m {
            Move::StandardMove(pt2, o, t, _, promo2, _) => pt2 == pt && t == target && promo2
                == promo && hint_matches(hf, hr, o),
            Move::EnPassant(o, t) => pt == PAWN && t == target && promo.is_none() && hint_matches(
                hf,
                hr,
                o,
            ),
            _ => false,
        },
        Notation::LongCastle => match m {
            Move::LongCastle => true,
            _ => false,
        },
        Notation::ShortCastle => match m {
            Move::ShortCastle => true,
            _ => false,
        },
    }
}

/// Whether square `o` agrees with the file and rank hints.
fn hint_matches(hf: Option<u8>, hr: Option<u8>, o: u8) -> (r: bool)
    ensures
        r == hint_ok(hf, hr, o as int),
{
    let file_ok = match hf {
        Some(f) => o % 8 == f,
        None => true,
    };
    let rank_ok = match hr {
        Some(r) => o / 8 == r,
        None => true,
    };
    file_ok && rank_ok
}

/// The first move of `ms` that `n` describes.
fn find_described(ms: &Vec<Move>, n: Notation) -> (r: Option<Move>)
    ensures
        match r {
            Some(m) => ms@.contains(m) && describes(n, m),
            None => forall|m: Move| #[trigger] ms@.contains(m) ==> !describes(n, m),
        },
{
    let mut i: usize = 0;
    while i < ms.len()
        invariant
            i <= ms@.len(),
            forall|k: int| 0 <= k < i ==> !describes(n, #[trigger] ms@[k]),
        decreases ms@.len() - i,
    {
        if describes_move(n, ms[i]) {
            assert(ms@[i as int] == ms[i as int]);
            return Some(ms[i]);
        }
        i = i + 1;
    }
    None
}

/// The square a move lands on.
fn move_target(m: Move) -> (r: u8)
    ensures
        r == crate::movegen::target_of(m),
{
    match m {
        Move::StandardMove(_, _, t, _, _, _) => t,
        Move::EnPassant(_, t) => t,
        _ => 64,
    }
}

impl Position {
    /// The squares, in increasing order, of the pieces of type `piece_type` and
    /// color `color` that have a legal move to `sq`.
    pub fn can_move_to(&self, color: u8, piece_type: u8, sq: u8) -> (r: Vec<u8>)
        requires
            self.wf(),
            color == self.turn,
            piece_type < 6,
            sq < 64,
        ensures
            forall|i: int, j: int| 0 <= i < j < r@.len() ==> r@[i] < r@[j],
            forall|i: int| 0 <= i < r@.len() ==> #[trigger] r@[i] < 64,
            forall|i: int|
                0 <= i < r@.len() ==> piece_on(
                    self.board(),
                    color as int,
                    piece_type as int,
                    #[trigger] r@[i] as int,
                ) && exists|m: Move|
                    piece_legal(*self, color as int, piece_type as int, r@[i] as int, m)
                        && crate::movegen::target_of(m) == sq,
            forall|o: int, m: Move|
                piece_on(self.board(), color as int, piece_type as int, o) && #[trigger] piece_legal(
                    *self,
                    color as int,
                    piece_type as int,
                    o,
                    m,
                ) && crate::movegen::target_of(m) == sq ==> r@.contains(o as u8),
    {
        let ghost (c, pt) = (color as int, piece_type as int);
        let bb = self.get_piece_bitboard(color, piece_type);
        let mut r: Vec<u8> = Vec::new();
        let mut o: u8 = 0;
        while o < 64
            invariant
                self.wf(),
                color < 2,
                color == self.turn,
                piece_type < 6,
                sq < 64,
                c == color,
                pt == piece_type,
                bb == self.piece_bbs@[crate::position::slot(c, pt)],
                o <= 64,
                forall|i: int, j: int| 0 <= i < j < r@.len() ==> r@[i] < r@[j],
                forall|i: int| 0 <= i < r@.len() ==> r@[i] < o,
                forall|i: int|
                    0 <= i < r@.len() ==> piece_on(self.board(), c, pt, #[trigger] r@[i] as int)
                        && exists|m: Move|
                        piece_legal(*self, c, pt, r@[i] as int, m) && crate::movegen::target_of(m)
                            == sq,
                forall|o2: int, m: Move|
                    0 <= o2 < o && piece_on(self.board(), c, pt, o2) && #[trigger] piece_legal(
                        *self,
                        c,
                        pt,
                        o2,
                        m,
                    ) && crate::movegen::target_of(m) == sq ==> r@.contains(o2 as u8),
            decreases 64 - o,
        {
            let ghost prev = r@;
            if crate::bb_ops::index_lookup(bb, o) {
                let ms = self.get_piece_moves(color, o, piece_type);
                let mut k: usize = 0;
                let mut found = false;
                while k < ms.len() && !found
                    invariant
                        k <= ms@.len(),
                        sq < 64,
                        found ==> exists|m: Move|
                            piece_legal(*self, c, pt, o as int, m) && crate::movegen::target_of(m)
                                == sq,
                        !found ==> forall|i: int|
                            0 <= i < k ==> crate::movegen::target_of(#[trigger] ms@[i]) != sq,
                        forall|m: Move| #[trigger]
                            ms@.contains(m) == piece_legal(*self, c, pt, o as int, m),
                    decreases ms@.len() - k,
                {
                    if move_target(ms[k]) == sq {
                        assert(ms@.contains(ms@[k as int]));
                        found = true;
                    }
                    k = k + 1;
                }
                if found {
                    r.push(o);
                    proof {
                        crate::movegen::lemma_push_contains(prev, o);
                    }
                } else {
                    assert forall|m: Move|
                        #[trigger] piece_legal(*self, c, pt, o as int, m)
                            implies crate::movegen::target_of(m) != sq by {
                        assert(ms@.contains(m));
                        let i = choose|i: int| 0 <= i < ms@.len() && ms@[i] == m;
                    }
                }
            }
            assert forall|o2: int, m: Move|
                0 <= o2 < o + 1 && piece_on(self.board(), c, pt, o2) && #[trigger] piece_legal(
                    *self,
                    c,
                    pt,
                    o2,
                    m,
                ) && crate::movegen::target_of(m) == sq implies r@.contains(o2 as u8) by {
                if o2 < o {
                    assert(prev.contains(o2 as u8));
                    let i = choose|i: int| 0 <= i < prev.len() && prev[i] == o2 as u8;
                    assert(r@[i] == o2 as u8);
                } else {
                    assert(piece_on(self.board(), c, pt, o as int));
                    assert(r@[r@.len() - 1] == o);
                }
            }
            o = o + 1;
        }
        proof {
            assert forall|o2: int, m: Move|
                piece_on(self.board(), c, pt, o2) && #[trigger] piece_legal(*self, c, pt, o2, m)
                    && crate::movegen::target_of(m) == sq implies r@.contains(o2 as u8) by {
                crate::bb_ops::lemma_has_bit_def(self.piece_bbs@[crate::position::slot(c, pt)], o2);
            }
            assert forall|i: int| 0 <= i < r@.len() implies piece_on(
                self.board(),
                color as int,
                piece_type as int,
                #[trigger] r@[i] as int,
            ) && exists|m: Move|
                piece_legal(*self, color as int, piece_type as int, r@[i] as int, m)
                    && crate::movegen::target_of(m) == sq by {
                let m = choose|m: Move|
                    piece_legal(*self, c, pt, r@[i] as int, m) && crate::movegen::target_of(m)
                        == sq;
                assert(piece_legal(*self, color as int, piece_type as int, r@[i] as int, m));
            }
        }
        r
    }

    /// The move that the move text `string` names.
    ///
    /// A castling token (`O-O`, `0-0`, `O-O-O`, `0-0-0`, in either case) gives
    /// that castle whether or not it is legal here; check it against
    /// `get_all_legal_moves` before applying it. A piece move resolves to a
    /// legal move that it describes: the file or rank hint, where given, first
    /// narrows the pieces that may make it, and of those left the one on the
    /// lowest square is taken. The result is `None` when the text follows no
    /// grammar, or when it names a piece move that no legal move matches.
    pub fn string_to_move(&self, string: &str) -> (r: Option<Move>)
        requires
            self.wf(),
        ensures
            parse_notation(string@) is None ==> r is None,
            parse_notation(string@) == Some(Notation::LongCastle) ==> r == Some(Move::LongCastle),
            parse_notation(string@) == Some(Notation::ShortCastle) ==> r == Some(
                Move::ShortCastle,
            ),
            match parse_notation(string@) {
                Some(n) => n is Standard ==> match r {
                    Some(m) => describes(n, m) && color_legal(*self, self.turn as int, m)
                        && forall|m2: Move|
                        color_legal(*self, self.turn as int, m2) && #[trigger] describes(n, m2)
                            ==> origin_of(m) <= origin_of(m2),
                    None => forall|m2: Move|
                        color_legal(*self, self.turn as int, m2) ==> !#[trigger] describes(
                            n,
                            m2,
                        ),
                },
                None => true,
            },
    {
        let c = self.turn;
        let n = match parse_move_text(string) {
            Some(n) => n,
            None => {
                return None;
            },
        };
        match n {
            Notation::Standard(pt, hf, hr, target, promo) => {
                assert(pt < 6 && target < 64);
                let origins = self.can_move_to(c, pt, target);
                let mut k: usize = 0;
                while k < origins.len()
                    invariant
                        self.wf(),
                        c == self.turn,
                        n == Notation::Standard(pt, hf, hr, target, promo),
                        parse_notation(string@) == Some(n),
                        forall|i: int| 0 <= i < origins@.len() ==> #[trigger] origins@[i] < 64,
                        pt < 6,
                        target < 64,
                        k <= origins@.len(),
                        forall|i: int, j: int|
                            0 <= i < j < origins@.len() ==> origins@[i] < origins@[j],
                        forall|o: int, m: Move|
                            piece_on(self.board(), c as int, pt as int, o) && #[trigger] piece_legal(
                                *self,
                                c as int,
                                pt as int,
                                o,
                                m,
                            ) && crate::movegen::target_of(m) == target ==> origins@.contains(
                                o as u8,
                            ),
                        forall|i: int|
                            0 <= i < origins@.len() ==> piece_on(
                                self.board(),
                                c as int,
                                pt as int,
                                #[trigger] origins@[i] as int,
                            ),
                        forall|i: int, m: Move|
                            0 <= i < k && #[trigger] piece_legal(
                                *self,
                                c as int,
                                pt as int,
                                origins@[i] as int,
                                m,
                            ) ==> !describes(n, m),
                    decreases origins@.len() - k,
                {
                    let o = origins[k];
                    if hint_matches(hf, hr, o) {
                        let ms = self.get_piece_moves(c, o, pt);
                        match find_described(&ms, n) {
                            Some(m) => {
                                proof {
                                    assert(piece_legal(*self, c as int, pt as int, o as int, m));
                                    assert(type_legal(*self, c as int, pt as int, m));
                                    assert forall|m2: Move|
                                        color_legal(*self, self.turn as int, m2)
                                            && #[trigger] describes(n, m2)
                                            implies origin_of(m) <= origin_of(m2) by {
                                        self.lemma_described_origin(n, m2);
                                        let o2 = origin_of(m2);
                                        assert(origins@.contains(o2 as u8));
                                        let i = choose|i: int| 0 <= i < origins@.len()
                                            && origins@[i] == o2 as u8;
                                        if o2 < o {
                                            if i >= k {
                                                if i > k {
                                                    assert(origins@[k as int] < origins@[i]);
                                                }
                                            }
                                            assert(piece_legal(*self, c as int, pt as int, origins@[i] as int, m2));
                                        }
                                    }
                                }
                                return Some(m);
                            },
                            None => {
                                assert forall|m: Move| #[trigger] piece_legal(
                                    *self,
                                    c as int,
                                    pt as int,
                                    origins@[k as int] as int,
                                    m,
                                ) implies !describes(n, m) by {
                                    assert(ms@.contains(m));
                                }
                            },
                        }
                    } else {
                        assert forall|m: Move| #[trigger] piece_legal(
                            *self,
                            c as int,
                            pt as int,
                            origins@[k as int] as int,
                            m,
                        ) implies !describes(n, m) by {
                            if describes(n, m) {
                                assert(origin_of(m) == o);
                            }
                        }
                    }
                    k = k + 1;
                }
                proof {
                    assert forall|m2: Move|
                        color_legal(*self, self.turn as int, m2)
                            implies !#[trigger] describes(n, m2) by {
                        if describes(n, m2) {
                            self.lemma_described_origin(n, m2);
                            let o2 = origin_of(m2);
                            let i = choose|i: int| 0 <= i < origins@.len() && origins@[i]
                                == o2 as u8;
                            assert(piece_legal(*self, c as int, pt as int, origins@[i] as int, m2));
                        }
                    }
                }
                None
            },
            Notation::LongCastle => Some(Move::LongCastle),
            Notation::ShortCastle => Some(Move::ShortCastle),
        }
    }

    /// A legal move that a piece notation describes is made by a piece of the
    /// named type from the move's origin, and lands on the named target.
    proof fn lemma_described_origin(&self, n: Notation, m: Move)
        requires
            n is Standard,
            color_legal(*self, self.turn as int, m),
            describes(n, m),
        ensures
            piece_on(self.board(), self.turn as int, n->Standard_0 as int, origin_of(m)),
            piece_legal(*self, self.turn as int, n->Standard_0 as int, origin_of(m), m),
            crate::movegen::target_of(m) == n->Standard_3,
    {
        let c = self.turn as int;
        let p2 = choose|p2: int| 0 <= p2 < 6 && #[trigger] type_legal(*self, c, p2, m);
        let o2 = choose|o2: int| #[trigger] piece_on(self.board(), c, p2, o2)
            && piece_legal(*self, c, p2, o2, m);
    }
}

} // verus!
