use chess_attacks::bitboard::{
    bitboard_representation, left_most_significant_square, remove_pieces, shift_direction,
    Direction,
};
use chess_attacks::moves::Square;
use chess_attacks::piece::{AttackTables, PieceType, Slider};
use chess_attacks::position::Color;
use chess_attacks::utils::log2n;

#[test]
fn king_attacks_corner() {
    let tables = AttackTables::new();
    // a1 attacks b1, a2, b2 and nothing across the edges
    assert_eq!(tables.king_attacks(&Square(0)), 0x302);
    // h1 attacks g1, g2, h2
    assert_eq!(tables.king_attacks(&Square(7)), (1u64 << 6) | (1 << 14) | (1 << 15));
}

#[test]
fn king_attacks_center() {
    let tables = AttackTables::new();
    // e4 attacks its eight neighbours
    assert_eq!(tables.king_attacks(&Square(28)), 0x0000_0038_2838_0000);
}

#[test]
fn knight_attacks_corner_and_edge() {
    let tables = AttackTables::new();
    // a1 attacks b3 and c2 only
    assert_eq!(tables.knight_attacks(&Square(0)), (1u64 << 17) | (1 << 10));
    // b1 attacks a3, c3, d2
    assert_eq!(tables.knight_attacks(&Square(1)), (1u64 << 16) | (1 << 18) | (1 << 11));
}

#[test]
fn knight_attacks_center() {
    let tables = AttackTables::new();
    // e4 attacks the eight (1,2)/(2,1) offsets
    assert_eq!(tables.knight_attacks(&Square(28)), 0x0000_2844_0044_2800);
}

#[test]
fn pawn_attacks_both_colors() {
    let tables = AttackTables::new();
    // white pawn on e4 attacks d5 and f5
    assert_eq!(tables.pawn_attacks(&Color::White, &Square(28)), (1u64 << 35) | (1 << 37));
    // black pawn on e4 attacks d3 and f3
    assert_eq!(tables.pawn_attacks(&Color::Black, &Square(28)), (1u64 << 19) | (1 << 21));
    // white pawn on a2 attacks b3 only: no wrap onto the h-file
    assert_eq!(tables.pawn_attacks(&Color::White, &Square(8)), 1u64 << 17);
    // white pawn on the top rank attacks nothing
    assert_eq!(tables.pawn_attacks(&Color::White, &Square(60)), 0);
}

#[test]
fn rook_attacks_empty_board_full_cross() {
    let tables = AttackTables::new();
    let attacks = PieceType::Rook.attact_bitboard(&Color::White, &Square(28), &0, &0, &tables);
    // the full e-file and fourth rank, without e4 itself
    assert_eq!(attacks, 0x1010_1010_EF10_1010);
}

#[test]
fn bishop_attacks_empty_board_full_diagonals() {
    let tables = AttackTables::new();
    let attacks = PieceType::Bishop.attact_bitboard(&Color::White, &Square(28), &0, &0, &tables);
    let diagonal = (1u64 << 1) | (1 << 10) | (1 << 19) | (1 << 37) | (1 << 46) | (1 << 55);
    let anti_diagonal =
        (1u64 << 7) | (1 << 14) | (1 << 21) | (1 << 35) | (1 << 42) | (1 << 49) | (1 << 56);
    assert_eq!(attacks, diagonal | anti_diagonal);
}

#[test]
fn queen_attacks_empty_board() {
    let tables = AttackTables::new();
    let rook = PieceType::Rook.attact_bitboard(&Color::White, &Square(28), &0, &0, &tables);
    let bishop = PieceType::Bishop.attact_bitboard(&Color::White, &Square(28), &0, &0, &tables);
    let queen = PieceType::Queen.attact_bitboard(&Color::White, &Square(28), &0, &0, &tables);
    assert_eq!(queen, rook | bishop);
}

#[test]
fn single_blocker_truncates_ray_and_is_included() {
    let tables = AttackTables::new();
    // rook on a1, enemy piece on a4: the file ray stops at (and includes) a4
    let attacks =
        PieceType::Rook.attact_bitboard(&Color::White, &Square(0), &1u64, &(1u64 << 24), &tables);
    assert_eq!(attacks, 0x0101_0100 | 0xFE);
}

#[test]
fn friendly_blocker_also_truncates_and_stays_in_the_set() {
    let tables = AttackTables::new();
    // rook on a1 with an own pawn on a2: the raw visibility set includes a2
    let own = 1u64 | (1u64 << 8);
    let attacks = PieceType::Rook.attact_bitboard(&Color::White, &Square(0), &own, &0, &tables);
    assert_eq!(attacks, (1u64 << 8) | 0xFE);
    // callers subtract their own pieces themselves
    assert_eq!(remove_pieces(&attacks, &own), 0xFE);
}

#[test]
fn slider_attacks_are_pure() {
    let tables = AttackTables::new();
    let occupied = (1u64 << 24) | (1 << 3) | (1 << 44);
    let first = Slider::File.slider_attacks(&Square(28), &occupied, &tables);
    let second = Slider::File.slider_attacks(&Square(28), &occupied, &tables);
    assert_eq!(first, second);
}

#[test]
fn shift_direction_masks_the_edges() {
    // a single step north from a1
    assert_eq!(shift_direction(&1u64, &[Direction::North]), 1u64 << 8);
    // east from h1 falls off the board instead of wrapping to a2
    assert_eq!(shift_direction(&(1u64 << 7), &[Direction::East]), 0);
    // a knight-like compound step: both parts masked
    assert_eq!(
        shift_direction(&(1u64 << 7), &[Direction::North, Direction::NorthEast]),
        0
    );
}

#[test]
fn least_significant_square() {
    assert_eq!(left_most_significant_square(&0b1100), Square(2));
    assert_eq!(left_most_significant_square(&(1u64 << 63)), Square(63));
    assert_eq!(left_most_significant_square(&u64::MAX), Square(0));
}

#[test]
fn log2n_values() {
    assert_eq!(log2n(&0), None);
    assert_eq!(log2n(&1), Some(0));
    assert_eq!(log2n(&1024), Some(10));
    assert_eq!(log2n(&1500), Some(10));
    assert_eq!(log2n(&u64::MAX), Some(63));
}

#[test]
fn bitboard_rendering() {
    let rendered = bitboard_representation(0x8040_2010_0804_0200);
    let expected = ". . . . . . . 1 \n. . . . . . 1 . \n. . . . . 1 . . \n. . . . 1 . . . \n. . . 1 . . . . \n. . 1 . . . . . \n. 1 . . . . . . \n. . . . . . . . \n";
    assert_eq!(rendered, expected);
}

#[test]
fn piece_glyphs_and_names() {
    assert_eq!(PieceType::King.piece_rep(&Color::White), '\u{2654}');
    assert_eq!(PieceType::King.piece_rep(&Color::Black), '\u{265A}');
    assert_eq!(PieceType::Pawn.piece_rep(&Color::White), '\u{2659}');
    assert_eq!(PieceType::Queen.string(), "Queen");
    assert_eq!(Color::White.string(), "White");
    assert_eq!(Color::Black.string(), "Black");
}

#[test]
fn piece_properties() {
    assert!(!PieceType::Pawn.is_slider());
    assert!(!PieceType::Knight.is_slider());
    assert!(!PieceType::King.is_slider());
    assert!(PieceType::Bishop.is_slider());
    assert!(PieceType::Rook.is_slider());
    assert!(PieceType::Queen.is_slider());
    assert_eq!(PieceType::iterator().len(), 6);
    assert_eq!(Color::iterator(), vec![Color::White, Color::Black]);
}

#[test]
fn square_construction() {
    assert_eq!(Square::from_file_rank(4, 3), Some(Square(28)));
    assert_eq!(Square::from_file_rank(0, 0), Some(Square(0)));
    assert_eq!(Square::from_file_rank(7, 7), Some(Square(63)));
    assert_eq!(Square::from_file_rank(8, 0), None);
    assert_eq!(Square::from_file_rank(0, 8), None);
}
