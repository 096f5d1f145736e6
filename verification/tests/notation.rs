use chess_fen::{CastlingStatus, EnpassantTarget, Fen, FenParsingError, Player};

#[test]
fn check_fen() {
    assert_eq!(Fen::parse("    "), Ok(Fen::default()));
    let notation = "rnbqkbnr/pppppppp/8/8/8/8/PPPPPPPP/RNBQKBNR w KQkq - 0 1";
    let board = Fen::parse(&notation).unwrap();
    assert_eq!(board.player, Player::White);
    assert_eq!(
        board.castling_status,
        CastlingStatus::from((true, true, true, true))
    );
    assert!(board.enpassent_target.is_none());
    assert!(board.halfmove_clock == 0 && board.fullmove_counter == 1);
    assert_eq!(notation, board.to_string());
}

#[test]
fn check_fen_1() {
    let notation = "rnbqkbnr/pp1ppppp/8/2p5/4P3/8/PPPP1PPP/RNBQKBNR w Kkq c6 0 2";
    let board = Fen::parse(&notation).unwrap();
    assert_eq!(board.player, Player::White);
    assert_eq!(
        board.castling_status,
        CastlingStatus::from((true, false, true, true))
    );
    assert!(board.enpassent_target == Some(EnpassantTarget { file: 'c', rank: 6 }));
    assert!(board.halfmove_clock == 0 && board.fullmove_counter == 2);
    assert_eq!(
        notation,
        "rnbqkbnr/pp1ppppp/8/2p5/4P3/8/PPPP1PPP/RNBQKBNR w Kkq c6 0 2"
    );
}

#[test]
fn check_fen_2() {
    let notation = "rnbqkbnr/pppppppp/8/8/8/PPPP/QKBNR/PPPPPPPP w KQkq - 0 1";
    let board = Fen::parse(&notation);
    assert_eq!(board, Err(FenParsingError::InvalidPosition));
}

#[test]
fn check_less_fields() {
    let notation = "8/8/8/8 w K - 0 1";
    let board = Fen::parse(&notation);
    assert!(board.is_err());
}
