use chess_core::bb_ops::{coords_bitscan, idx_bitscan, index_lookup, set_idx_bit, set_idx_bits};
use chess_core::moves::Move;
use chess_core::position::Position;
use chess_core::san::{parse_move_text, Notation};
use chess_core::squares::{index_to_string, string_to_index, string_to_piece};

const START: &str = "rnbqkbnr/pppppppp/8/8/8/8/PPPPPPPP/RNBQKBNR w KQkq - 0 1";

#[test]
fn start_fen_decodes_to_the_starting_position() {
    let decoded = Position::from_fen(START.to_string()).unwrap();
    assert_eq!(decoded, Position::starting_position());
}

#[test]
fn bad_side_to_move_fails() {
    let r = Position::from_fen("rnbqkbnr/pppppppp/8/8/8/8/PPPPPPPP/RNBQKBNR x KQkq - 0 1".to_string());
    assert!(r.is_none());
}

#[test]
fn side_to_move_is_case_insensitive() {
    let p = Position::from_fen("4k3/8/8/8/8/8/8/4K3 B - - 0 1".to_string()).unwrap();
    assert_eq!(p.turn, 1);
}

#[test]
fn missing_fields_fail() {
    assert!(Position::from_fen("4k3/8/8/8/8/8/8/4K3 w -".to_string()).is_none());
    assert!(Position::from_fen("".to_string()).is_none());
}

#[test]
fn malformed_placement_fails() {
    assert!(Position::from_fen("4k3/8/8/8/8/8/8 w - - 0 1".to_string()).is_none());
    assert!(Position::from_fen("4k4/8/8/8/8/8/8/4K3 w - - 0 1".to_string()).is_none());
    assert!(Position::from_fen("4k2/8/8/8/8/8/8/4K3 w - - 0 1".to_string()).is_none());
    assert!(Position::from_fen("4k3/8/8/8/8/8/8/4K3? w - - 0 1".to_string()).is_none());
}

#[test]
fn castling_and_en_passant_fields() {
    let p = Position::from_fen("4k3/8/8/3pP3/8/8/8/4K3 w Kq d6 0 1".to_string()).unwrap();
    assert!(p.can_castle_kingside(0));
    assert!(!p.can_castle_queenside(0));
    assert!(!p.can_castle_kingside(1));
    assert!(p.can_castle_queenside(1));
    assert_eq!(p.en_passant, Some(43));
    assert!(Position::from_fen("4k3/8/8/8/8/8/8/4K3 w - z9 0 1".to_string()).is_none());
    let q = Position::from_fen("4k3/8/8/8/8/8/8/4K3 w - - 0 1".to_string()).unwrap();
    assert_eq!(q.en_passant, None);
}

#[test]
fn fen_pieces_land_on_their_squares() {
    let p = Position::from_fen("r3k2r/8/8/8/8/8/8/R3K2R w KQkq - 0 1".to_string()).unwrap();
    assert_eq!(p.get_piece_and_color_at(0), Some((3, 0)));
    assert_eq!(p.get_piece_and_color_at(7), Some((3, 0)));
    assert_eq!(p.get_piece_and_color_at(4), Some((5, 0)));
    assert_eq!(p.get_piece_and_color_at(56), Some((3, 1)));
    assert_eq!(p.get_piece_and_color_at(60), Some((5, 1)));
    assert_eq!(p.get_piece_and_color_at(1), None);
}

#[test]
fn board_picture_of_the_start() {
    let text = Position::starting_position().to_string();
    let expected = "r n b q k b n r\np p p p p p p p\n_ _ _ _ _ _ _ _\n_ _ _ _ _ _ _ _\n_ _ _ _ _ _ _ _\n_ _ _ _ _ _ _ _\nP P P P P P P P\nR N B Q K B N R";
    assert_eq!(text, expected);
}

#[test]
fn move_text() {
    assert_eq!(Move::StandardMove(0, 12, 28, None, None, Some(20)).to_string(), " e2:e4");
    assert_eq!(Move::StandardMove(1, 6, 21, None, None, None).to_string(), "Ng1:f3");
    assert_eq!(Move::StandardMove(0, 48, 57, Some(1), Some(4), None).to_string(), " a7xb8=Q");
    assert_eq!(Move::EnPassant(36, 43).to_string(), " e5xd6");
    assert_eq!(Move::ShortCastle.to_string(), "O-O");
    assert_eq!(Move::LongCastle.to_string(), "O-O-O");
}

#[test]
fn square_names() {
    assert_eq!(index_to_string(0), Some("a1".to_string()));
    assert_eq!(index_to_string(63), Some("h8".to_string()));
    assert_eq!(index_to_string(64), None);
    assert_eq!(string_to_index("e4".to_string()), Some(28));
    assert_eq!(string_to_index("i4".to_string()), None);
    assert_eq!(string_to_piece('q'), 4);
    assert_eq!(string_to_piece('P'), 0);
}

#[test]
fn move_text_grammar() {
    assert_eq!(parse_move_text("e4"), Some(Notation::Standard(0, None, None, 28, None)));
    assert_eq!(parse_move_text("Nbd7+"), Some(Notation::Standard(1, Some(1), None, 51, None)));
    assert_eq!(parse_move_text("exd5"), Some(Notation::Standard(0, Some(4), None, 35, None)));
    assert_eq!(parse_move_text("e8=Q#"), Some(Notation::Standard(0, None, None, 60, Some(4))));
    assert_eq!(parse_move_text("o-o-o"), Some(Notation::LongCastle));
    assert_eq!(parse_move_text("0-0"), Some(Notation::ShortCastle));
    assert_eq!(parse_move_text("zz"), None);
    assert_eq!(parse_move_text(""), None);
}

#[test]
fn resolver_uses_origin_hint_and_lowest_square() {
    let p = Position::from_fen("4k3/8/8/8/8/8/8/R3K2R w - - 0 1".to_string()).unwrap();
    assert_eq!(p.string_to_move("Rd1"), Some(Move::StandardMove(3, 0, 3, None, None, None)));
    assert_eq!(p.string_to_move("Rf1"), Some(Move::StandardMove(3, 7, 5, None, None, None)));
    assert_eq!(p.string_to_move("Rhf1"), Some(Move::StandardMove(3, 7, 5, None, None, None)));
    assert_eq!(p.string_to_move("Nf3"), None);
    assert_eq!(p.string_to_move("hello"), None);
}

#[test]
fn bitboard_helpers() {
    assert_eq!(set_idx_bit(0, 5), 32);
    assert!(index_lookup(32, 5));
    assert!(!index_lookup(32, 4));
    assert_eq!(set_idx_bits(0, vec![0, 63]), 0x8000000000000001);
    assert_eq!(idx_bitscan(0x8000000000000005), vec![0, 2, 63]);
    assert_eq!(coords_bitscan(0x200), vec![(1, 1)]);
}
