use chess_core::patterns::{
    get_king_attacks, get_knight_attacks, get_ks_castling_squares, get_pawn_captures,
    get_pawn_double_steps, get_pawn_moves, get_pawn_promotion_squares, get_qs_castling_squares,
};
use chess_core::sliding::{get_bishop_attacks, get_rook_attacks};

#[test]
fn knight_in_the_corner() {
    assert_eq!(get_knight_attacks(0), 0x20400);
    assert_eq!(get_knight_attacks(63), 0x20400000000000);
    assert_eq!(get_knight_attacks(27), 0x142200221400);
}

#[test]
fn king_steps_do_not_wrap() {
    assert_eq!(get_king_attacks(0), 0x302);
    assert_eq!(get_king_attacks(7), 0xc040);
    assert_eq!(get_king_attacks(9), 0x70507);
}

#[test]
fn pawn_patterns() {
    assert_eq!(get_pawn_moves(0, 12), 1 << 20);
    assert_eq!(get_pawn_moves(1, 52), 1 << 44);
    assert_eq!(get_pawn_captures(0, 8), 1 << 17);
    assert_eq!(get_pawn_captures(1, 52), (1 << 43) | (1 << 45));
    assert_eq!(get_pawn_double_steps(0, 12), 1 << 28);
    assert_eq!(get_pawn_double_steps(0, 20), 0);
    assert_eq!(get_pawn_double_steps(1, 52), 1 << 36);
    assert_eq!(get_pawn_moves(0, 60), 0);
}

#[test]
fn rank_masks() {
    assert_eq!(get_pawn_promotion_squares(0), 0xFF00000000000000);
    assert_eq!(get_pawn_promotion_squares(1), 0xFF);
    assert_eq!(get_ks_castling_squares(0), 0x60);
    assert_eq!(get_qs_castling_squares(0), 0xE);
    assert_eq!(get_ks_castling_squares(1), 0x6000000000000000);
    assert_eq!(get_qs_castling_squares(1), 0x0E00000000000000);
}

#[test]
fn sliding_rays_stop_at_blockers() {
    assert_eq!(get_rook_attacks(0, 0), 0x01010101010101FE);
    // Blocker on a3 and on c1: the rook on a1 reaches a2, a3, b1, c1.
    assert_eq!(get_rook_attacks(0, (1 << 16) | (1 << 2)), (1 << 8) | (1 << 16) | (1 << 1) | (1 << 2));
    assert_eq!(get_bishop_attacks(0, 0), 0x8040201008040200);
    assert_eq!(get_bishop_attacks(0, 1 << 18), (1 << 9) | (1 << 18));
    // The blocker on the piece's own square changes nothing.
    assert_eq!(get_rook_attacks(0, 1), 0x01010101010101FE);
}
