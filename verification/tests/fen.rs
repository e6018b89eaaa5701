use chess_attacks::fen_parser::{parse_fen, FenError};
use chess_attacks::moves::Square;
use chess_attacks::piece::{AttackTables, PieceType};
use chess_attacks::position::{CastlingRights, CastlingTypes, Color};

#[test]
fn initial_position_round_trip() {
    let position = parse_fen("rnbqkbnr/pppppppp/8/8/8/8/PPPPPPPP/RNBQKBNR w KQkq - 0 1").unwrap();
    let white = position.piece_placement.white;
    let black = position.piece_placement.black;
    // white pawns on exactly a2 through h2, black pawns on a7 through h7
    assert_eq!(white.pawn, 0xFF00);
    assert_eq!(black.pawn, 0x00FF_0000_0000_0000);
    // kings on e1 and e8
    assert_eq!(white.king, 1u64 << 4);
    assert_eq!(black.king, 1u64 << 60);
    assert_eq!(white.queen, 1u64 << 3);
    assert_eq!(black.queen, 1u64 << 59);
    assert_eq!(white.rook, 0x81);
    assert_eq!(black.rook, 0x8100_0000_0000_0000);
    assert_eq!(white.knight, 0x42);
    assert_eq!(black.knight, 0x4200_0000_0000_0000);
    assert_eq!(white.bishop, 0x24);
    assert_eq!(black.bishop, 0x2400_0000_0000_0000);
    assert_eq!(white.occupied(), 0xFFFF);
    assert_eq!(black.occupied(), 0xFFFF_0000_0000_0000);
    assert_eq!(position.active_color, Color::White);
    // full castling rights for both sides
    assert_eq!(
        position.castling_rights,
        Some(CastlingRights {
            white: CastlingTypes(true, true),
            black: CastlingTypes(true, true),
        })
    );
    assert_eq!(position.en_passant_target, None);
    assert_eq!(position.half_move_clock, 0);
    assert_eq!(position.full_move_number, 1);
}

#[test]
fn one_sided_castling_rights() {
    let position = parse_fen("4k2r/6r1/8/8/8/8/3R4/R3K3 w Qk - 0 1").unwrap();
    // white queen-side only, black king-side only
    assert_eq!(
        position.castling_rights,
        Some(CastlingRights {
            white: CastlingTypes(false, true),
            black: CastlingTypes(true, false),
        })
    );
}

#[test]
fn five_fields_is_malformed() {
    let result = parse_fen("rnbqkbnr/pppppppp/8/8/8/8/PPPPPPPP/RNBQKBNR w KQkq - 0");
    assert_eq!(result, Err(FenError::MalformedInput));
}

#[test]
fn empty_and_garbage_inputs() {
    assert_eq!(parse_fen(""), Err(FenError::MalformedInput));
    assert_eq!(parse_fen("   "), Err(FenError::MalformedInput));
    assert_eq!(
        parse_fen("rnbqkbnr/pppppppp/8/8/8/8/PPPPPPPP/RNBQKBNR w KQkq - 0 1 extra"),
        Err(FenError::MalformedInput)
    );
}

#[test]
fn invalid_empty_square_count() {
    // 9 is not a valid empty-square count
    let result = parse_fen("9/8/8/8/8/8/8/8 w - - 0 1");
    assert_eq!(result, Err(FenError::InvalidCharacter));
    // 0 is not valid either
    assert_eq!(parse_fen("08/8/8/8/8/8/8/8 w - - 0 1"), Err(FenError::InvalidCharacter));
}

#[test]
fn invalid_piece_letter() {
    let result = parse_fen("x7/8/8/8/8/8/8/8 w - - 0 1");
    assert_eq!(result, Err(FenError::InvalidCharacter));
}

#[test]
fn rank_shape_errors() {
    // only seven ranks
    assert_eq!(parse_fen("8/8/8/8/8/8/8 w - - 0 1"), Err(FenError::MalformedInput));
    // nine ranks
    assert_eq!(parse_fen("8/8/8/8/8/8/8/8/8 w - - 0 1"), Err(FenError::MalformedInput));
    // a rank expressing only seven files
    assert_eq!(parse_fen("7/8/8/8/8/8/8/8 w - - 0 1"), Err(FenError::MalformedInput));
    // a rank overflowing eight files
    assert_eq!(
        parse_fen("PPPPPPPPP/8/8/8/8/8/8/8 w - - 0 1"),
        Err(FenError::MalformedInput)
    );
    assert_eq!(parse_fen("44P/8/8/8/8/8/8/8 w - - 0 1"), Err(FenError::MalformedInput));
}

#[test]
fn invalid_active_color() {
    assert_eq!(parse_fen("8/8/8/8/8/8/8/8 x - - 0 1"), Err(FenError::InvalidColor));
    assert_eq!(parse_fen("8/8/8/8/8/8/8/8 W - - 0 1"), Err(FenError::InvalidColor));
    assert_eq!(parse_fen("8/8/8/8/8/8/8/8 ww - - 0 1"), Err(FenError::InvalidColor));
}

#[test]
fn castling_field_errors_and_duplicates() {
    // more than four characters
    assert_eq!(parse_fen("8/8/8/8/8/8/8/8 w KQkqK - 0 1"), Err(FenError::MalformedInput));
    // a character other than K, Q, k, q
    assert_eq!(parse_fen("8/8/8/8/8/8/8/8 w KX - 0 1"), Err(FenError::InvalidCharacter));
    // duplicates are tolerated
    let position = parse_fen("8/8/8/8/8/8/8/8 w KK - 0 1").unwrap();
    assert_eq!(
        position.castling_rights,
        Some(CastlingRights {
            white: CastlingTypes(true, false),
            black: CastlingTypes(false, false),
        })
    );
    // a dash means no rights at all
    let none = parse_fen("8/8/8/8/8/8/8/8 w - - 0 1").unwrap();
    assert_eq!(none.castling_rights, None);
}

#[test]
fn en_passant_parsing() {
    let position = parse_fen("8/8/8/8/8/8/8/8 w - e3 0 1").unwrap();
    assert_eq!(position.en_passant_target, Some(Square(20)));
    let h8 = parse_fen("8/8/8/8/8/8/8/8 w - h8 0 1").unwrap();
    assert_eq!(h8.en_passant_target, Some(Square(63)));
    assert_eq!(parse_fen("8/8/8/8/8/8/8/8 w - e9 0 1"), Err(FenError::InvalidCoordinate));
    assert_eq!(parse_fen("8/8/8/8/8/8/8/8 w - i3 0 1"), Err(FenError::InvalidCoordinate));
    assert_eq!(parse_fen("8/8/8/8/8/8/8/8 w - e33 0 1"), Err(FenError::InvalidCoordinate));
}

#[test]
fn clock_parsing() {
    let position = parse_fen("8/8/8/8/8/8/8/8 w - - 65535 007").unwrap();
    assert_eq!(position.half_move_clock, 65535);
    assert_eq!(position.full_move_number, 7);
    assert_eq!(parse_fen("8/8/8/8/8/8/8/8 w - - 65536 1"), Err(FenError::InvalidNumber));
    assert_eq!(parse_fen("8/8/8/8/8/8/8/8 w - - abc 1"), Err(FenError::InvalidNumber));
    assert_eq!(parse_fen("8/8/8/8/8/8/8/8 w - - -1 1"), Err(FenError::InvalidNumber));
    assert_eq!(
        parse_fen("8/8/8/8/8/8/8/8 w - - 99999999999999999999 1"),
        Err(FenError::InvalidNumber)
    );
}

#[test]
fn position_after_a_double_pawn_push() {
    let position =
        parse_fen("rnbqkbnr/pppppppp/8/8/4P3/8/PPPP1PPP/RNBQKBNR b KQkq e4 0 1").unwrap();
    assert_eq!(position.active_color, Color::Black);
    assert_eq!(position.en_passant_target, Some(Square(28)));
    // the e-pawn moved from e2 to e4
    assert_eq!(position.piece_placement.white.pawn, (0xFF00 & !(1u64 << 12)) | (1u64 << 28));
}

#[test]
fn queen_attacks_in_the_initial_position() {
    let position = parse_fen("rnbqkbnr/pppppppp/8/8/8/8/PPPPPPPP/RNBQKBNR w KQkq - 0 1").unwrap();
    let tables = AttackTables::new();
    let own = position.piece_placement.white.occupied();
    let opponent = position.piece_placement.black.occupied();
    // the white queen on d1 sees only the adjacent squares c1, e1, c2, d2, e2
    let attacks =
        PieceType::Queen.attact_bitboard(&Color::White, &Square(3), &own, &opponent, &tables);
    assert_eq!(
        attacks,
        (1u64 << 2) | (1 << 4) | (1 << 10) | (1 << 11) | (1 << 12)
    );
}

#[test]
fn extra_whitespace_between_fields() {
    let position = parse_fen("  8/8/8/8/8/8/8/8 \t w  -\n- 0   1  ").unwrap();
    assert_eq!(position.active_color, Color::White);
    assert_eq!(position.full_move_number, 1);
}
