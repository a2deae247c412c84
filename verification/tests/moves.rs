use chess::moves::{
    attacks_king_moves, attacks_knight_moves, bishop_attacks_on_the_fly, check_pawn_moves,
    computed_king_moves, computed_knight_attacks, computed_pawn_attacks, computed_pawn_moves,
    generate_rook_attacks_on_the_fly, mask_pawn_attacks, queen_attacks_on_the_fly,
};
use chess::Color;

#[test]
fn rook_from_corner_sweeps_rank_and_file() {
    let attacks = generate_rook_attacks_on_the_fly(0, 0);
    let first_rank: u64 = 0xFE; // squares 1..=7
    let a_file: u64 = 0x0101_0101_0101_0100; // squares 8, 16, ..., 56
    assert_eq!(attacks, first_rank | a_file);
}

#[test]
fn bishop_from_corner_sweeps_long_diagonal() {
    let attacks = bishop_attacks_on_the_fly(0, 0);
    assert_eq!(attacks, 0x8040_2010_0804_0200);
}

#[test]
fn knight_from_corner_reaches_two_squares() {
    assert_eq!(attacks_knight_moves(0), (1u64 << 10) | (1u64 << 17));
}

#[test]
fn white_pawn_double_step_only_from_start_rank() {
    let e2 = 12;
    assert_eq!(
        check_pawn_moves(e2, &Color::White),
        (1u64 << 20) | (1u64 << 28)
    );
    let e3 = 20;
    assert_eq!(check_pawn_moves(e3, &Color::White), 1u64 << 28);
}

#[test]
fn black_pawn_double_step_only_from_start_rank() {
    let d7 = 51;
    assert_eq!(
        check_pawn_moves(d7, &Color::Black),
        (1u64 << 43) | (1u64 << 35)
    );
    let d6 = 43;
    assert_eq!(check_pawn_moves(d6, &Color::Black), 1u64 << 35);
}

#[test]
fn pawn_attacks_never_wrap_at_board_edges() {
    // a2 attacks only b3
    assert_eq!(mask_pawn_attacks(8, &Color::White), 1u64 << 17);
    // h2 attacks only g3
    assert_eq!(mask_pawn_attacks(15, &Color::White), 1u64 << 22);
    // a7 attacks only b6
    assert_eq!(mask_pawn_attacks(48, &Color::Black), 1u64 << 41);
    // h7 attacks only g6
    assert_eq!(mask_pawn_attacks(55, &Color::Black), 1u64 << 46);
}

#[test]
fn pawn_attack_files_stay_adjacent() {
    for s in 0..64u8 {
        for color in [Color::White, Color::Black] {
            let attacks = mask_pawn_attacks(s, &color);
            for t in 0..64u64 {
                if attacks & (1u64 << t) != 0 {
                    let from_file = (s % 8) as i32;
                    let to_file = (t % 8) as i32;
                    assert_eq!((from_file - to_file).abs(), 1);
                }
            }
        }
    }
}

#[test]
fn knight_attack_counts_match_edge_proximity() {
    for s in 0..64u8 {
        let attacks = attacks_knight_moves(s);
        assert_eq!(attacks & (1u64 << s), 0);
        let n = attacks.count_ones();
        assert!(matches!(n, 2 | 3 | 4 | 6 | 8));
    }
    assert_eq!(attacks_knight_moves(0).count_ones(), 2); // corner
    assert_eq!(attacks_knight_moves(1).count_ones(), 3); // next to a corner
    assert_eq!(attacks_knight_moves(10).count_ones(), 6); // one step inside
    assert_eq!(attacks_knight_moves(24).count_ones(), 4); // edge
    assert_eq!(attacks_knight_moves(28).count_ones(), 8); // interior
}

#[test]
fn king_attack_counts_match_edge_proximity() {
    for s in 0..64u8 {
        let n = attacks_king_moves(s).count_ones();
        let rank = s / 8;
        let file = s % 8;
        let corner = (rank == 0 || rank == 7) && (file == 0 || file == 7);
        let edge = rank == 0 || rank == 7 || file == 0 || file == 7;
        let expected = if corner { 3 } else if edge { 5 } else { 8 };
        assert_eq!(n, expected, "king on square {}", s);
    }
}

#[test]
fn queen_is_union_of_rook_and_bishop() {
    let occupancies = [
        0u64,
        (1u64 << 36) | (1u64 << 12) | (1u64 << 27),
        0x00FF_0000_0000_FF00,
        0x8142_2418_1824_4281,
    ];
    for s in 0..64u8 {
        for &block in &occupancies {
            let queen = queen_attacks_on_the_fly(s, block);
            let rook = generate_rook_attacks_on_the_fly(s, block);
            let bishop = bishop_attacks_on_the_fly(s, block);
            assert_eq!(queen, rook | bishop);
        }
    }
}

#[test]
fn blocker_is_included_and_its_shadow_excluded() {
    // Rook on a1 with a blocker on a3: the file ray holds a2 and a3 only.
    let block = 1u64 << 16;
    let attacks = generate_rook_attacks_on_the_fly(0, block);
    assert_ne!(attacks & (1u64 << 8), 0);
    assert_ne!(attacks & (1u64 << 16), 0);
    for t in [24u64, 32, 40, 48, 56] {
        assert_eq!(attacks & (1u64 << t), 0);
    }
    // The first rank is unaffected by the file blocker.
    assert_eq!(attacks & 0xFF, 0xFE);

    // Bishop on d4 with a blocker on f6: e5 and f6 reached, g7 and h8 not.
    let block = 1u64 << 45;
    let attacks = bishop_attacks_on_the_fly(27, block);
    assert_ne!(attacks & (1u64 << 36), 0);
    assert_ne!(attacks & (1u64 << 45), 0);
    assert_eq!(attacks & (1u64 << 54), 0);
    assert_eq!(attacks & (1u64 << 63), 0);
}

#[test]
fn tables_match_per_square_generators() {
    let white_pushes = computed_pawn_moves(&Color::White);
    let black_pushes = computed_pawn_moves(&Color::Black);
    let white_attacks = computed_pawn_attacks(&Color::White);
    let black_attacks = computed_pawn_attacks(&Color::Black);
    let knights = computed_knight_attacks();
    let kings = computed_king_moves();
    assert_eq!(white_pushes.len(), 64);
    assert_eq!(black_pushes.len(), 64);
    assert_eq!(white_attacks.len(), 64);
    assert_eq!(black_attacks.len(), 64);
    assert_eq!(knights.len(), 64);
    assert_eq!(kings.len(), 64);
    for s in 0..64u8 {
        let i = s as usize;
        assert_eq!(white_pushes[i], check_pawn_moves(s, &Color::White));
        assert_eq!(black_pushes[i], check_pawn_moves(s, &Color::Black));
        assert_eq!(white_attacks[i], mask_pawn_attacks(s, &Color::White));
        assert_eq!(black_attacks[i], mask_pawn_attacks(s, &Color::Black));
        assert_eq!(knights[i], attacks_knight_moves(s));
        assert_eq!(kings[i], attacks_king_moves(s));
    }
}

#[test]
fn attacks_from_the_last_square() {
    // Rook on h8: the rest of the last rank and the rest of the h-file.
    let last_rank: u64 = 0x7F00_0000_0000_0000;
    let h_file: u64 = 0x0080_8080_8080_8080;
    assert_eq!(generate_rook_attacks_on_the_fly(63, 0), last_rank | h_file);
    // Knight on h8 reaches only f7 and g6.
    assert_eq!(attacks_knight_moves(63), (1u64 << 46) | (1u64 << 53));
    // King on h8 reaches its three neighbors.
    assert_eq!(
        attacks_king_moves(63),
        (1u64 << 62) | (1u64 << 55) | (1u64 << 54)
    );
}

#[test]
fn pawn_on_the_last_rank_has_no_forward_square() {
    // A white pawn on e8 has nowhere forward to push or attack.
    assert_eq!(check_pawn_moves(60, &Color::White), 0);
    assert_eq!(mask_pawn_attacks(60, &Color::White), 0);
    // A black pawn on e1 likewise.
    assert_eq!(check_pawn_moves(4, &Color::Black), 0);
    assert_eq!(mask_pawn_attacks(4, &Color::Black), 0);
}
