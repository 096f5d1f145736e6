use chess_fen::{
    CastlingAbility, CastlingStatus, EnpassantTarget, Fen, FenParsingError, Piece, PieceType,
    Player,
};

const START: &str = "rnbqkbnr/pppppppp/8/8/8/8/PPPPPPPP/RNBQKBNR w KQkq - 0 1";

fn square(player: Player, piece: PieceType) -> Piece {
    Piece { player, piece }
}

#[test]
fn empty_text_is_the_default_record() {
    assert_eq!(Fen::parse(""), Ok(Fen::default()));
    assert_eq!(Fen::parse("   "), Ok(Fen::default()));
    assert_eq!(Fen::parse("\t\n \r"), Ok(Fen::default()));
    assert_eq!(Fen::parse("\u{a0}\u{3000}\u{2003}\u{85}"), Ok(Fen::default()));
}

#[test]
fn default_record_is_blank() {
    let fen = Fen::default();
    let empty = square(Player::Unspecified, PieceType::Empty);
    for rank in 0..8 {
        for file in 0..8 {
            assert_eq!(fen.board[rank][file], empty);
        }
    }
    assert_eq!(fen.player, Player::Unspecified);
    assert_eq!(fen.castling_status, CastlingStatus::from((false, false, false, false)));
    assert_eq!(fen.enpassent_target, None);
    assert_eq!(fen.halfmove_clock, 0);
    assert_eq!(fen.fullmove_counter, 0);
}

#[test]
fn start_position_fills_the_board() {
    let fen = Fen::parse(START).unwrap();
    let back = [
        PieceType::Rook,
        PieceType::Knight,
        PieceType::Bishop,
        PieceType::Queen,
        PieceType::King,
        PieceType::Bishop,
        PieceType::Knight,
        PieceType::Rook,
    ];
    let empty = square(Player::Unspecified, PieceType::Empty);
    for file in 0..8 {
        assert_eq!(fen.board[7][file], square(Player::Black, back[file]));
        assert_eq!(fen.board[6][file], square(Player::Black, PieceType::Pawn));
        for rank in 2..6 {
            assert_eq!(fen.board[rank][file], empty);
        }
        assert_eq!(fen.board[1][file], square(Player::White, PieceType::Pawn));
        assert_eq!(fen.board[0][file], square(Player::White, back[file]));
    }
    assert_eq!(fen.player, Player::White);
    assert_eq!(fen.enpassent_target, None);
    assert_eq!(fen.halfmove_clock, 0);
    assert_eq!(fen.fullmove_counter, 1);
}

#[test]
fn pieces_land_on_their_squares() {
    let fen = Fen::parse("rnbqkbnr/pp1ppppp/8/2p5/4P3/8/PPPP1PPP/RNBQKBNR b KQkq e3 0 2").unwrap();
    let empty = square(Player::Unspecified, PieceType::Empty);
    assert_eq!(fen.board[4][2], square(Player::Black, PieceType::Pawn));
    assert_eq!(fen.board[4][1], empty);
    assert_eq!(fen.board[4][3], empty);
    assert_eq!(fen.board[3][4], square(Player::White, PieceType::Pawn));
    assert_eq!(fen.board[3][3], empty);
    assert_eq!(fen.board[6][2], empty);
    assert_eq!(fen.board[1][4], empty);
    assert_eq!(fen.board[7][0], square(Player::Black, PieceType::Rook));
    assert_eq!(fen.board[0][4], square(Player::White, PieceType::King));
    assert_eq!(fen.player, Player::Black);
    assert_eq!(fen.enpassent_target, Some(EnpassantTarget { file: 'e', rank: 3 }));
    assert_eq!(fen.fullmove_counter, 2);
}

#[test]
fn white_space_around_the_text_does_not_count() {
    let plain = Fen::parse(START).unwrap();
    assert_eq!(Fen::parse("  rnbqkbnr/pppppppp/8/8/8/8/PPPPPPPP/RNBQKBNR w KQkq - 0 1\n"), Ok(plain));
    let plain = Fen::parse(START).unwrap();
    assert_eq!(
        Fen::parse("\u{2003}\trnbqkbnr/pppppppp/8/8/8/8/PPPPPPPP/RNBQKBNR w KQkq - 0 1\u{3000}"),
        Ok(plain)
    );
}

#[test]
fn field_count_is_six() {
    let too_few = Err(FenParsingError::InsufficentFields);
    assert_eq!(Fen::parse("8/8/8/8 w K - 0"), too_few);
    assert_eq!(Fen::parse("8/8/8/8/8/8/8/8 w - - 0"), too_few);
    assert_eq!(Fen::parse("8/8/8/8/8/8/8/8 w - - 0 "), too_few);
    assert_eq!(Fen::parse(" w - - 0 1"), too_few);
    assert_eq!(Fen::parse("8/8/8/8/8/8/8/8"), too_few);
    assert_eq!(Fen::parse("x"), too_few);
    assert_eq!(Fen::parse("8/8/8/8/8/8/8/8 w - - 0 1 7"), too_few);
    assert_eq!(Fen::parse("8/8/8/8/8/8/8/8 w  - - 0 1"), too_few);
    assert_eq!(Fen::parse("8/8/8/8/8/8/8/8  w - - 0 1"), too_few);
}

#[test]
fn six_fields_with_four_ranks_are_no_position() {
    assert_eq!(Fen::parse("8/8/8/8 w K - 0 1"), Err(FenParsingError::InvalidPosition));
}

#[test]
fn field_count_goes_before_the_fields() {
    assert_eq!(Fen::parse("?? x y z 99"), Err(FenParsingError::InsufficentFields));
    assert_eq!(Fen::parse("?? x y z 99 100 101"), Err(FenParsingError::InsufficentFields));
}

#[test]
fn tabs_do_not_part_fields() {
    assert_eq!(
        Fen::parse("8/8/8/8/8/8/8/8\tw\t-\t-\t0\t1"),
        Err(FenParsingError::InsufficentFields)
    );
}

#[test]
fn empty_castling_field_is_no_right() {
    let fen = Fen::parse("8/8/8/8/8/8/8/8 w  - 0 1").unwrap();
    assert_eq!(fen.castling_status, CastlingStatus::from((false, false, false, false)));
    assert_eq!(fen.player, Player::White);
    assert_eq!(fen.fullmove_counter, 1);
}

#[test]
fn other_empty_fields_are_turned_down() {
    assert_eq!(Fen::parse("8/8/8/8/8/8/8/8  - - 0 1"), Err(FenParsingError::InvalidPlayer));
    assert_eq!(
        Fen::parse("8/8/8/8/8/8/8/8 w -  0 1"),
        Err(FenParsingError::InvalidEnpassentTarget)
    );
    assert_eq!(Fen::parse("8/8/8/8/8/8/8/8 w - -  1"), Err(FenParsingError::InvalidNumericValue));
}

#[test]
fn first_bad_field_decides() {
    assert_eq!(Fen::parse("9/8/8/8/8/8/8/8 x ? zz 10 11"), Err(FenParsingError::RowOverflow));
    assert_eq!(Fen::parse("8/8/8/8/8/8/8/8 x ? zz 10 11"), Err(FenParsingError::InvalidPlayer));
    assert_eq!(
        Fen::parse("8/8/8/8/8/8/8/8 w ? zz 10 11"),
        Err(FenParsingError::InvalidCastlingStatus)
    );
    assert_eq!(
        Fen::parse("8/8/8/8/8/8/8/8 w - zz 10 11"),
        Err(FenParsingError::InvalidEnpassentTarget)
    );
    assert_eq!(
        Fen::parse("8/8/8/8/8/8/8/8 w - - 10 11"),
        Err(FenParsingError::InvalidNumericValue)
    );
    assert_eq!(
        Fen::parse("8/8/8/8/8/8/8/8 w - - 1 11"),
        Err(FenParsingError::InvalidNumericValue)
    );
}

#[test]
fn side_is_w_or_b() {
    assert_eq!(Fen::parse("8/8/8/8/8/8/8/8 w - - 0 1").unwrap().player, Player::White);
    assert_eq!(Fen::parse("8/8/8/8/8/8/8/8 b - - 0 1").unwrap().player, Player::Black);
    for side in ["W", "B", "x", "wb", "ww", "-", "white"] {
        let text = format!("8/8/8/8/8/8/8/8 {} - - 0 1", side);
        assert_eq!(Fen::parse(&text), Err(FenParsingError::InvalidPlayer));
    }
}

#[test]
fn placement_errors() {
    let overflow = Err(FenParsingError::RowOverflow);
    let position = Err(FenParsingError::InvalidPosition);
    let token = Err(FenParsingError::InvalidToken);
    assert!(Fen::is_valid_piece_pos("8/8/8/8/8/8/8/8").is_ok());
    assert!(Fen::is_valid_piece_pos("44/17/71/1p6/6P1/3k4/4K3/2r2R2").is_ok());
    assert_eq!(Fen::is_valid_piece_pos("9/8/8/8/8/8/8/8"), overflow);
    assert_eq!(Fen::is_valid_piece_pos("8/8/8/8/8/8/8/71p"), overflow);
    assert_eq!(Fen::is_valid_piece_pos("8/8/8/8/8/8/8/ppppppppp"), overflow);
    assert_eq!(Fen::is_valid_piece_pos("rnbqkbnrr/pppppppp/8/8/8/8/PPPPPPPP/RNBQKBNR"), overflow);
    assert_eq!(Fen::is_valid_piece_pos("8/8/8/8/8/8/8/81"), overflow);
    assert_eq!(Fen::is_valid_piece_pos("8/8/8/8/8/8/8/8p"), overflow);
    assert_eq!(Fen::is_valid_piece_pos(""), position);
    assert_eq!(Fen::is_valid_piece_pos("8"), position);
    assert_eq!(Fen::is_valid_piece_pos("8/8/8/8/8/8/8"), position);
    assert_eq!(Fen::is_valid_piece_pos("8/8/8/8/8/8/8/7"), position);
    assert_eq!(Fen::is_valid_piece_pos("8/8/8/8/8/8/8/8/"), position);
    assert_eq!(Fen::is_valid_piece_pos("8/8/8/8/8/8/8/8/8"), position);
    assert_eq!(Fen::is_valid_piece_pos("/8/8/8/8/8/8/8/8"), position);
    assert_eq!(Fen::is_valid_piece_pos("8//8/8/8/8/8/8"), position);
    assert_eq!(Fen::is_valid_piece_pos("7/8/8/8/8/8/8/8"), position);
    assert_eq!(Fen::is_valid_piece_pos("8/8/8/8/8/8/8/8x"), token);
    assert_eq!(Fen::is_valid_piece_pos("x"), token);
    assert_eq!(Fen::is_valid_piece_pos("8/8/8/8/8/8/8/8 "), token);
    assert_eq!(Fen::is_valid_piece_pos("8/8/8/8/8/8/8/8-"), token);
    assert_eq!(Fen::is_valid_piece_pos("8/8/8/8/8/8/8/\u{ff18}"), token);
    assert_eq!(Fen::is_valid_piece_pos("p\u{e9}"), token);
}

#[test]
fn zero_is_no_run_of_squares() {
    assert_eq!(Fen::is_valid_piece_pos("80/8/8/8/8/8/8/8"), Err(FenParsingError::InvalidToken));
    assert_eq!(Fen::is_valid_piece_pos("0"), Err(FenParsingError::InvalidToken));
}

#[test]
fn nul_is_no_end_of_the_field() {
    assert_eq!(
        Fen::is_valid_piece_pos("8/8/8/8/8/8/8/8\u{0}"),
        Err(FenParsingError::InvalidToken)
    );
}

#[test]
fn first_fault_of_the_placement_decides() {
    assert_eq!(Fen::is_valid_piece_pos("7/9x"), Err(FenParsingError::InvalidPosition));
    assert_eq!(Fen::is_valid_piece_pos("9/x"), Err(FenParsingError::RowOverflow));
    assert_eq!(Fen::is_valid_piece_pos("x/9"), Err(FenParsingError::InvalidToken));
    assert_eq!(Fen::is_valid_piece_pos("8/8/8/8/8/8/8/8/x"), Err(FenParsingError::InvalidPosition));
}

#[test]
fn runs_may_be_split() {
    let split = Fen::is_valid_piece_pos("44/1111p111/8/8/8/8/8/8").unwrap();
    let whole = Fen::is_valid_piece_pos("8/4p3/8/8/8/8/8/8").unwrap();
    assert_eq!(split, whole);
}

#[test]
fn castling_fields() {
    let read = |field: &str| Fen::validate_castling_status(field);
    assert_eq!(read("-"), Ok(CastlingStatus::from((false, false, false, false))));
    assert_eq!(read(""), Ok(CastlingStatus::from((false, false, false, false))));
    assert_eq!(read("KQkq"), Ok(CastlingStatus::from((true, true, true, true))));
    assert_eq!(read("Kkq"), Ok(CastlingStatus::from((true, false, true, true))));
    assert_eq!(read("K"), Ok(CastlingStatus::from((true, false, false, false))));
    assert_eq!(read("Q"), Ok(CastlingStatus::from((false, true, false, false))));
    assert_eq!(read("k"), Ok(CastlingStatus::from((false, false, true, false))));
    assert_eq!(read("q"), Ok(CastlingStatus::from((false, false, false, true))));
    assert_eq!(read("qkQK"), Ok(CastlingStatus::from((true, true, true, true))));
    assert_eq!(read("KKKK"), Ok(CastlingStatus::from((true, false, false, false))));
    assert_eq!(read("qKq"), Ok(CastlingStatus::from((true, false, false, true))));
    let bad = Err(FenParsingError::InvalidCastlingStatus);
    for field in ["x", "K-", "-K", "--", "KQkqp", "P", "R", "r", "n", "b", "1", "KQ kq", "k\u{e9}"] {
        assert_eq!(read(field), bad);
    }
}

#[test]
fn castling_subset_is_written_as_read() {
    let status = Fen::validate_castling_status("Kkq").unwrap();
    assert_eq!(
        status,
        CastlingStatus {
            white: CastlingAbility { king: true, queen: false },
            black: CastlingAbility { king: true, queen: true },
        }
    );
    assert_eq!(status.to_string(), "Kkq");
}

#[test]
fn castling_rights_are_written_in_order() {
    let mut count = 0;
    for bits in 0..16 {
        let flags = (bits & 1 != 0, bits & 2 != 0, bits & 4 != 0, bits & 8 != 0);
        let status = CastlingStatus::from(flags);
        let mut expected = String::new();
        if flags.0 {
            expected.push('K');
        }
        if flags.1 {
            expected.push('Q');
        }
        if flags.2 {
            expected.push('k');
        }
        if flags.3 {
            expected.push('q');
        }
        assert_eq!(status.to_string(), expected);
        assert_eq!(Fen::validate_castling_status(&expected), Ok(status));
        count += 1;
    }
    assert_eq!(count, 16);
    assert_eq!(CastlingStatus::from((false, false, false, false)).to_string(), "");
    assert_eq!(CastlingStatus::default().to_string(), "");
}

#[test]
fn granting_rights() {
    let mut status = CastlingStatus::default();
    assert_eq!(status.set_enabled(square(Player::White, PieceType::King)), Ok(()));
    assert_eq!(status, CastlingStatus::from((true, false, false, false)));
    assert_eq!(status.set_enabled(square(Player::Black, PieceType::Queen)), Ok(()));
    assert_eq!(status, CastlingStatus::from((true, false, false, true)));
    assert_eq!(status.set_enabled(square(Player::White, PieceType::King)), Ok(()));
    assert_eq!(status, CastlingStatus::from((true, false, false, true)));
    let bad = Err(FenParsingError::InvalidCastlingStatus);
    assert_eq!(status.set_enabled(square(Player::White, PieceType::Rook)), bad);
    assert_eq!(status.set_enabled(square(Player::Black, PieceType::Pawn)), bad);
    assert_eq!(status.set_enabled(square(Player::Unspecified, PieceType::Empty)), bad);
    assert_eq!(status, CastlingStatus::from((true, false, false, true)));
    let rook = square(Player::Black, PieceType::Rook);
    let queen = square(Player::Black, PieceType::Queen);
    let king = square(Player::White, PieceType::King);
    assert_eq!(status.set_white_castling_ability(&rook), bad);
    assert_eq!(status.set_black_castling_ability(&rook), bad);
    assert_eq!(status.set_white_castling_ability(&queen), Ok(()));
    assert_eq!(status, CastlingStatus::from((true, true, false, true)));
    assert_eq!(status.set_black_castling_ability(&king), Ok(()));
    assert_eq!(status, CastlingStatus::from((true, true, true, true)));
}

#[test]
fn en_passant_rank_is_three_or_six() {
    let bad = Err(FenParsingError::InvalidEnpassentTarget);
    assert_eq!(EnpassantTarget::try_from("a4"), bad);
    assert_eq!(EnpassantTarget::try_from("c6"), Ok(EnpassantTarget { file: 'c', rank: 6 }));
    assert_eq!(EnpassantTarget::try_from("c3"), Ok(EnpassantTarget { file: 'c', rank: 3 }));
    assert_eq!(EnpassantTarget::try_from("a3"), Ok(EnpassantTarget { file: 'a', rank: 3 }));
    assert_eq!(EnpassantTarget::try_from("h6"), Ok(EnpassantTarget { file: 'h', rank: 6 }));
    for field in [
        "", "-", "a", "3", "a33", "c36", "i3", "`3", "A3", "C6", "a1", "a2", "a5", "a7", "a8",
        "a0", "a9", "3a", "6c", "a!", "\u{e9}", "a\u{ff13}", " a3", "a3 ",
    ] {
        assert_eq!(EnpassantTarget::try_from(field), bad);
    }
}

#[test]
fn en_passant_field_of_a_notation() {
    let none = Fen::parse("8/8/8/8/8/8/8/8 w - - 0 1").unwrap();
    assert_eq!(none.enpassent_target, None);
    let some = Fen::parse("8/8/8/8/8/8/8/8 w - h3 0 1").unwrap();
    assert_eq!(some.enpassent_target, Some(EnpassantTarget { file: 'h', rank: 3 }));
    assert_eq!(
        Fen::parse("8/8/8/8/8/8/8/8 w - a4 0 1"),
        Err(FenParsingError::InvalidEnpassentTarget)
    );
    assert_eq!(
        Fen::parse("8/8/8/8/8/8/8/8 w - -- 0 1"),
        Err(FenParsingError::InvalidEnpassentTarget)
    );
}

#[test]
fn counters_are_numbers_up_to_nine() {
    for value in 0..=9u8 {
        assert_eq!(Fen::validate_move_counter(&value.to_string()), Ok(value));
    }
    assert_eq!(Fen::validate_move_counter("+7"), Ok(7));
    assert_eq!(Fen::validate_move_counter("007"), Ok(7));
    assert_eq!(Fen::validate_move_counter("+0000"), Ok(0));
    assert_eq!(Fen::validate_move_counter("0000000000000000000000000000000000000009"), Ok(9));
    let bad = Err(FenParsingError::InvalidNumericValue);
    for field in [
        "", "+", "-", "-0", "-1", "10", "11", "99", "255", "256", "010", "100", "1000", "90", "x",
        "1x", "x1", "1 ", " 1", "++1", "+-1", "1+", "0x1", "1.0", "\u{663}", "1\u{663}",
        "99999999999999999999999999999999999999",
    ] {
        assert_eq!(Fen::validate_move_counter(field), bad);
    }
}

#[test]
fn counters_of_a_notation() {
    let fen = Fen::parse("8/8/8/8/8/8/8/8 b - - 9 7").unwrap();
    assert_eq!(fen.halfmove_clock, 9);
    assert_eq!(fen.fullmove_counter, 7);
    let fen = Fen::parse("8/8/8/8/8/8/8/8 b - - +3 04").unwrap();
    assert_eq!(fen.halfmove_clock, 3);
    assert_eq!(fen.fullmove_counter, 4);
    assert_eq!(
        Fen::parse("8/8/8/8/8/8/8/8 b - - 0 10"),
        Err(FenParsingError::InvalidNumericValue)
    );
    assert_eq!(
        Fen::parse("8/8/8/8/8/8/8/8 b - - 50 1"),
        Err(FenParsingError::InvalidNumericValue)
    );
}

#[test]
fn one_field_at_a_time() {
    let mut fen = Fen::default();
    assert_eq!(Fen::validate((1, "b"), &mut fen), Ok(()));
    assert_eq!(fen.player, Player::Black);
    assert_eq!(Fen::validate((2, "Qk"), &mut fen), Ok(()));
    assert_eq!(fen.castling_status, CastlingStatus::from((false, true, true, false)));
    assert_eq!(Fen::validate((3, "d6"), &mut fen), Ok(()));
    assert_eq!(fen.enpassent_target, Some(EnpassantTarget { file: 'd', rank: 6 }));
    assert_eq!(Fen::validate((3, "-"), &mut fen), Ok(()));
    assert_eq!(fen.enpassent_target, None);
    assert_eq!(Fen::validate((4, "5"), &mut fen), Ok(()));
    assert_eq!(fen.halfmove_clock, 5);
    assert_eq!(Fen::validate((5, "8"), &mut fen), Ok(()));
    assert_eq!(fen.fullmove_counter, 8);
    assert_eq!(Fen::validate((0, "k7/8/8/8/8/8/8/7K"), &mut fen), Ok(()));
    assert_eq!(fen.board[7][0], square(Player::Black, PieceType::King));
    assert_eq!(fen.board[0][7], square(Player::White, PieceType::King));
    assert_eq!(fen.to_string(), "k7/8/8/8/8/8/8/7K b Qk - 5 8");
}

#[test]
fn a_bad_field_changes_nothing() {
    let mut fen = Fen::parse(START).unwrap();
    let before = Fen::parse(START).unwrap();
    assert_eq!(Fen::validate((0, "8/8"), &mut fen), Err(FenParsingError::InvalidPosition));
    assert_eq!(Fen::validate((1, "x"), &mut fen), Err(FenParsingError::InvalidPlayer));
    assert_eq!(Fen::validate((2, "x"), &mut fen), Err(FenParsingError::InvalidCastlingStatus));
    assert_eq!(Fen::validate((3, "x"), &mut fen), Err(FenParsingError::InvalidEnpassentTarget));
    assert_eq!(Fen::validate((4, "x"), &mut fen), Err(FenParsingError::InvalidNumericValue));
    assert_eq!(Fen::validate((5, "x"), &mut fen), Err(FenParsingError::InvalidNumericValue));
    assert_eq!(fen, before);
}

#[test]
fn a_seventh_field_changes_nothing() {
    let mut fen = Fen::parse(START).unwrap();
    let before = Fen::parse(START).unwrap();
    assert_eq!(Fen::validate((6, "anything"), &mut fen), Ok(()));
    assert_eq!(Fen::validate((usize::MAX, ""), &mut fen), Ok(()));
    assert_eq!(fen, before);
}

#[test]
fn owned_text_is_read_alike() {
    assert_eq!(Fen::try_from(String::from(START)), Fen::parse(START));
    assert_eq!(Fen::try_from(String::new()), Ok(Fen::default()));
    assert_eq!(
        Fen::try_from(String::from("8/8 w - - 0 1")),
        Err(FenParsingError::InvalidPosition)
    );
}
