use chess_core::moves::Move;
use chess_core::position::Position;

fn play(pos: Position, texts: &[&str]) -> Position {
    let mut pos = pos;
    for t in texts {
        let m = pos.string_to_move(t).expect("move text should resolve");
        pos = pos.make_move(m);
    }
    pos
}

fn count(pos: &Position) -> usize {
    pos.get_all_legal_moves().len()
}

#[test]
fn starting_position_has_twenty_moves() {
    let pos = Position::starting_position();
    assert_eq!(pos.get_all_legal_moves().len(), 20);
}

#[test]
fn black_also_has_twenty_replies() {
    let pos = play(Position::starting_position(), &["e4"]);
    assert_eq!(count(&pos), 20);
}

#[test]
fn en_passant_capture_removes_the_passed_pawn() {
    let pos = play(Position::starting_position(), &["e4", "Nf6", "e5", "d5"]);
    assert_eq!(pos.en_passant, Some(43));
    let moves = pos.get_all_legal_moves();
    assert!(moves.contains(&Move::EnPassant(36, 43)));
    let after = pos.make_move(Move::EnPassant(36, 43));
    assert_eq!(after.get_piece_and_color_at(35), None);
    assert_eq!(after.get_piece_and_color_at(43), Some((0, 0)));
    assert_eq!(after.get_piece_and_color_at(36), None);
    assert_eq!(after.en_passant, None);
}

#[test]
fn en_passant_chance_lapses_after_another_move() {
    let pos = play(Position::starting_position(), &["e4", "Nf6", "e5", "d5", "Nc3", "Nc6"]);
    assert_eq!(pos.en_passant, None);
    assert!(!pos.get_all_legal_moves().contains(&Move::EnPassant(36, 43)));
}

#[test]
fn en_passant_by_notation() {
    let pos = play(Position::starting_position(), &["e4", "Nf6", "e5", "d5"]);
    assert_eq!(pos.string_to_move("exd6"), Some(Move::EnPassant(36, 43)));
}

#[test]
fn short_castle_is_legal_and_takes_the_rights() {
    let pos = play(Position::starting_position(), &["e4", "e5", "Nf3", "Nc6", "Bb5", "Nf6"]);
    let moves = pos.get_all_legal_moves();
    assert!(moves.contains(&Move::ShortCastle));
    assert!(!moves.contains(&Move::LongCastle));
    let after = pos.make_move(Move::ShortCastle);
    assert!(!after.can_castle_kingside(0));
    assert!(!after.can_castle_queenside(0));
    assert!(after.can_castle_kingside(1));
    assert_eq!(after.get_piece_and_color_at(6), Some((5, 0)));
    assert_eq!(after.get_piece_and_color_at(5), Some((3, 0)));
    assert_eq!(after.get_piece_and_color_at(4), None);
    assert_eq!(after.get_piece_and_color_at(7), None);
    for m in after.get_all_legal_moves() {
        let next = after.make_move(m);
        assert!(!next.can_castle_kingside(0));
        assert!(!next.can_castle_queenside(0));
    }
}

#[test]
fn castle_by_notation() {
    let pos = play(Position::starting_position(), &["e4", "e5", "Nf3", "Nc6", "Bb5", "Nf6"]);
    assert_eq!(pos.string_to_move("O-O"), Some(Move::ShortCastle));
    assert_eq!(pos.string_to_move("0-0"), Some(Move::ShortCastle));
    assert_eq!(pos.string_to_move("O-O-O"), Some(Move::LongCastle));
}

#[test]
fn castle_tokens_resolve_at_the_start() {
    let p = Position::starting_position();
    assert_eq!(p.string_to_move("O-O-O"), Some(Move::LongCastle));
    assert_eq!(p.string_to_move("0-0-0"), Some(Move::LongCastle));
    assert_eq!(p.string_to_move("O-O"), Some(Move::ShortCastle));
    assert_eq!(p.string_to_move("0-0"), Some(Move::ShortCastle));
    assert_eq!(p.string_to_move("o-o+"), Some(Move::ShortCastle));
    assert!(!p.get_all_legal_moves().contains(&Move::ShortCastle));
}

#[test]
fn black_long_castle_moves_black_pieces() {
    let pos = Position::from_fen("r3k3/8/8/8/8/8/8/4K3 b q - 0 1".to_string()).unwrap();
    assert!(pos.get_all_legal_moves().contains(&Move::LongCastle));
    let after = pos.make_move(Move::LongCastle);
    assert_eq!(after.get_piece_and_color_at(58), Some((5, 1)));
    assert_eq!(after.get_piece_and_color_at(59), Some((3, 1)));
    assert_eq!(after.get_piece_and_color_at(56), None);
    assert_eq!(after.get_piece_and_color_at(60), None);
    assert!(!after.can_castle_queenside(1));
}

#[test]
fn no_castle_through_attacked_square() {
    // The black rook on f8 attacks f1.
    let pos = Position::from_fen("4kr2/8/8/8/8/8/8/4K2R w K - 0 1".to_string()).unwrap();
    assert!(!pos.get_all_legal_moves().contains(&Move::ShortCastle));
}

#[test]
fn no_castle_out_of_check() {
    let pos = Position::from_fen("4k3/4r3/8/8/8/8/8/4K2R w K - 0 1".to_string()).unwrap();
    assert!(pos.is_checked(0));
    assert!(!pos.get_all_legal_moves().contains(&Move::ShortCastle));
}

#[test]
fn every_generated_move_leaves_the_king_safe() {
    let fens = [
        "r1b1kb1r/3p1ppp/p1n1p1n1/qp1N2B1/4P3/1B3N2/PP3PPP/R2QR1K1 b kq - 7 11",
        "4k3/4r3/8/8/8/8/8/4K2R w K - 0 1",
        "rnbqkbnr/pppppppp/8/8/8/8/PPPPPPPP/RNBQKBNR w KQkq - 0 1",
    ];
    for f in fens {
        let pos = Position::from_fen(f.to_string()).unwrap();
        for m in pos.get_all_legal_moves() {
            assert!(!pos.make_move(m).is_checked(pos.turn));
        }
    }
}

#[test]
fn king_cannot_retreat_along_the_checking_line() {
    // The rook on a1 checks the king on d1; c1 and e1 stay on the rook's line.
    let pos = Position::from_fen("7k/8/8/8/8/8/8/r2K4 w - - 0 1".to_string()).unwrap();
    let moves = pos.get_all_legal_moves();
    assert!(!moves.contains(&Move::StandardMove(5, 3, 4, None, None, None)));
    assert!(!moves.contains(&Move::StandardMove(5, 3, 2, None, None, None)));
    assert!(moves.contains(&Move::StandardMove(5, 3, 11, None, None, None)));
    assert_eq!(moves.len(), 3);
}

#[test]
fn pinned_piece_stays() {
    // The knight on e2 is pinned by the rook on e8.
    let pos = Position::from_fen("4r2k/8/8/8/8/8/4N3/4K3 w - - 0 1".to_string()).unwrap();
    for m in pos.get_piece_moves(0, 12, 1) {
        panic!("pinned knight moved: {:?}", m);
    }
}

#[test]
fn promotion_offers_four_pieces() {
    let pos = Position::from_fen("7k/P7/8/8/8/8/8/K7 w - - 0 1".to_string()).unwrap();
    let moves = pos.get_piece_moves(0, 48, 0);
    assert_eq!(moves.len(), 4);
    for q in [1u8, 2, 3, 4] {
        assert!(moves.contains(&Move::StandardMove(0, 48, 56, None, Some(q), None)));
    }
    let after = pos.make_move(Move::StandardMove(0, 48, 56, None, Some(4), None));
    assert_eq!(after.get_piece_and_color_at(56), Some((4, 0)));
    assert_eq!(pos.string_to_move("a8=Q"), Some(Move::StandardMove(0, 48, 56, None, Some(4), None)));
    assert_eq!(pos.string_to_move("a8=n"), Some(Move::StandardMove(0, 48, 56, None, Some(1), None)));
    assert_eq!(pos.string_to_move("a8"), None);
}

#[test]
fn double_step_needs_two_empty_squares() {
    let pos = Position::from_fen("4k3/8/8/8/8/4n3/4P3/4K3 w - - 0 1".to_string()).unwrap();
    assert!(pos.get_piece_moves(0, 12, 0).is_empty());
    let pos = Position::from_fen("4k3/8/8/8/4n3/8/4P3/4K3 w - - 0 1".to_string()).unwrap();
    let moves = pos.get_piece_moves(0, 12, 0);
    assert_eq!(moves, vec![Move::StandardMove(0, 12, 20, None, None, None)]);
}

#[test]
fn double_step_sets_en_passant_square() {
    let pos = Position::starting_position();
    let m = pos.string_to_move("e4").unwrap();
    assert_eq!(m, Move::StandardMove(0, 12, 28, None, None, Some(20)));
    let after = pos.make_move(m);
    assert_eq!(after.en_passant, Some(20));
    assert_eq!(after.turn, 1);
}

#[test]
fn capture_replaces_the_taken_piece() {
    let pos = play(Position::starting_position(), &["e4", "d5"]);
    let m = pos.string_to_move("exd5").unwrap();
    assert_eq!(m, Move::StandardMove(0, 28, 35, Some(0), None, None));
    let after = pos.make_move(m);
    assert_eq!(after.get_piece_and_color_at(35), Some((0, 0)));
    assert_eq!(after.get_piece_at(1, 35), None);
}

#[test]
fn defended_piece_cannot_be_taken_by_the_king() {
    // The rook on d2 is defended by the rook on d8.
    let pos = Position::from_fen("3rk3/8/8/8/8/8/3r4/4K3 w - - 0 1".to_string()).unwrap();
    let moves = pos.get_all_legal_moves();
    assert_eq!(moves, vec![Move::StandardMove(5, 4, 5, None, None, None)]);
}

#[test]
fn checkmate_has_no_moves() {
    let pos = play(Position::starting_position(), &["f3", "e5", "g4", "Qh4#"]);
    assert!(pos.is_checked(0));
    assert!(pos.get_all_legal_moves().is_empty());
}

#[test]
fn castling_needs_the_king_on_its_square() {
    let pos = Position::from_fen("4k3/8/8/8/8/8/8/R2K3R w KQ - 0 1".to_string()).unwrap();
    let moves = pos.get_all_legal_moves();
    assert!(!moves.contains(&Move::ShortCastle));
    assert!(!moves.contains(&Move::LongCastle));
}

#[test]
fn both_castles_when_the_way_is_free() {
    let pos = Position::from_fen("r3k2r/8/8/8/8/8/8/R3K2R w KQkq - 0 1".to_string()).unwrap();
    let moves = pos.get_all_legal_moves();
    assert!(moves.contains(&Move::ShortCastle));
    assert!(moves.contains(&Move::LongCastle));
    assert_eq!(moves.len(), 26);
}

#[test]
fn generated_moves_are_distinct() {
    let pos = Position::from_fen(
        "r1b1kb1r/3p1ppp/p1n1p1n1/qp1N2B1/4P3/1B3N2/PP3PPP/R2QR1K1 b kq - 7 11".to_string(),
    )
    .unwrap();
    let moves = pos.get_all_legal_moves();
    for (i, a) in moves.iter().enumerate() {
        for b in moves.iter().skip(i + 1) {
            assert_ne!(a, b);
        }
    }
}

#[test]
fn knight_moves_come_by_target() {
    let p = Position::starting_position();
    assert_eq!(
        p.get_piece_moves(0, 6, 1),
        vec![
            Move::StandardMove(1, 6, 21, None, None, None),
            Move::StandardMove(1, 6, 23, None, None, None),
        ]
    );
}

#[test]
fn move_list_is_piece_type_major() {
    let p = play(Position::starting_position(), &["e4", "e5", "Nf3", "Nc6"]);
    let mut joined = Vec::new();
    for pt in 0u8..6 {
        joined.extend(p.get_all_piece_moves(p.turn, pt));
    }
    assert_eq!(p.get_all_moves(p.turn), joined);
    assert_eq!(p.get_all_legal_moves(), joined);
    assert_eq!(p.get_all_legal_moves(), p.get_all_legal_moves());
}

#[test]
fn promotions_come_knight_to_queen() {
    let pos = Position::from_fen("7k/P7/8/8/8/8/8/K7 w - - 0 1".to_string()).unwrap();
    let promos: Vec<Option<u8>> = pos
        .get_piece_moves(0, 48, 0)
        .into_iter()
        .map(|m| match m {
            Move::StandardMove(_, _, _, _, q, _) => q,
            _ => None,
        })
        .collect();
    assert_eq!(promos, vec![Some(1), Some(2), Some(3), Some(4)]);
}
