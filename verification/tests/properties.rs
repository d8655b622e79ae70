use my_chess::decode_notation;
use my_chess::decode_promotion;
use my_chess::demap_fen;
use my_chess::encode_notation;
use my_chess::map_fen;
use my_chess::start;
use my_chess::ChessError;
use my_chess::Color;
use my_chess::GameState;
use my_chess::PieceType;
use my_chess::PositionContent;

#[test]
fn notation_round_trip_all_squares() {
    for f in 0..8usize {
        for r in 0..8usize {
            let text = encode_notation((f, r));
            assert_eq!(decode_notation(&text), Ok((f, r)));
        }
    }
}

#[test]
fn notation_examples() {
    assert_eq!(encode_notation((0, 0)), "a1");
    assert_eq!(encode_notation((7, 7)), "h8");
    assert_eq!(encode_notation((4, 1)), "e2");
    assert_eq!(decode_notation("E2"), Ok((4, 1)));
}

#[test]
fn notation_rejects_malformed_input() {
    assert_eq!(decode_notation(""), Err(ChessError::InvalidInput));
    assert_eq!(decode_notation("e"), Err(ChessError::InvalidInput));
    assert_eq!(decode_notation("z9"), Err(ChessError::InvalidInput));
    assert_eq!(decode_notation("a9"), Err(ChessError::InvalidInput));
    assert_eq!(decode_notation("i1"), Err(ChessError::InvalidInput));
}

#[test]
fn promotion_selector_decoding() {
    assert_eq!(decode_promotion("Q"), PieceType::QUEEN);
    assert_eq!(decode_promotion("r"), PieceType::ROOK);
    assert_eq!(decode_promotion("n"), PieceType::KNIGHT);
    assert_eq!(decode_promotion("B"), PieceType::BISHIOP);
    assert_eq!(decode_promotion("x"), PieceType::NONE);
    assert_eq!(decode_promotion(""), PieceType::NONE);
}

#[test]
fn fen_characters_round_trip() {
    let chars = ['p', 'n', 'b', 'r', 'q', 'k', 'P', 'N', 'B', 'R', 'Q', 'K', '.'];
    for c in chars {
        assert_eq!(demap_fen(map_fen(c)), c);
    }
    let white_king = map_fen('K');
    match white_king.content {
        PositionContent::PIECE_CONT(p) => {
            assert_eq!(p.variant, PieceType::KING);
            assert_eq!(p.color, Color::W);
            assert!(!p.has_moved);
        },
        PositionContent::NONE => panic!("expected a piece"),
    }
}

#[test]
fn color_inversion() {
    assert_eq!(Color::W.get_inverted(), Color::B);
    assert_eq!(Color::B.get_inverted(), Color::W);
}

#[test]
fn starting_position_has_twenty_moves() {
    let gam = start();
    let moves = gam.get_all_legal_moves();
    assert_eq!(moves.len(), 20);
}

#[test]
fn classification_is_idempotent() {
    let mut gam = start();
    assert_eq!(gam.check_state(), gam.check_state());
    let _ = gam.move_piece("e2", "e4", "x");
    let first = gam.check_state();
    let second = gam.check_state();
    assert_eq!(first, second);
    assert_eq!(first, GameState::ONGOING);
}

#[test]
fn castle_move_is_listed_and_moves_both_pieces() {
    let mut gam = start();
    let _ = gam.move_piece("a2", "a4", "x");
    let _ = gam.move_piece("a7", "a5", "x");
    let _ = gam.move_piece("b1", "a3", "x");
    let _ = gam.move_piece("a8", "a6", "x");
    let _ = gam.move_piece("d2", "d4", "x");
    let _ = gam.move_piece("a6", "a8", "x");
    let _ = gam.move_piece("c1", "h6", "x");
    let _ = gam.move_piece("a8", "a6", "x");
    let _ = gam.move_piece("d1", "d3", "x");
    let _ = gam.move_piece("a6", "a8", "x");

    // the squares between king and rook are clear and neither has moved,
    // so the queen-side castle must be offered
    let king_moves = gam.get_legal_moves("e1");
    assert!(king_moves.contains(&(2, 0)));

    assert_eq!(gam.move_piece("e1", "c1", "x"), Ok(true));
    let representation = gam.get_board_representation();
    // king on c1, rook on d1, both origin squares empty (rank 1 is the
    // last row of the representation)
    assert_eq!(representation.as_bytes()[7 * 9], b'.');
    assert_eq!(representation.as_bytes()[7 * 9 + 2], b'K');
    assert_eq!(representation.as_bytes()[7 * 9 + 3], b'R');
    assert_eq!(representation.as_bytes()[7 * 9 + 4], b'.');
}

#[test]
fn en_passant_expires_after_one_turn() {
    let mut gam = start();
    let _ = gam.move_piece("a2", "a4", "x");
    let _ = gam.move_piece("a7", "a6", "x");
    let _ = gam.move_piece("a4", "a5", "x");
    let _ = gam.move_piece("b7", "b5", "x");

    // decline the capture: one full turn later it is no longer offered
    assert_eq!(gam.move_piece("h2", "h3", "x"), Ok(true));
    assert_eq!(gam.move_piece("h7", "h6", "x"), Ok(true));
    assert_eq!(gam.move_piece("a5", "b6", "x"), Ok(false));
}

#[test]
fn promotion_requires_a_piece() {
    let mut gam = start();
    let _ = gam.move_piece("a2", "a4", "x");
    let _ = gam.move_piece("a7", "a6", "x");
    let _ = gam.move_piece("a4", "a5", "x");
    let _ = gam.move_piece("b7", "b5", "x");
    let _ = gam.move_piece("a5", "b6", "x");
    let _ = gam.move_piece("a8", "a7", "x");
    let _ = gam.move_piece("b6", "a7", "x");
    let _ = gam.move_piece("c8", "b7", "x");

    let before = gam.get_board_representation();
    // no promotion piece named: the submission fails fast with an
    // invalid-input error, distinct from a plain rejection, and changes
    // nothing
    assert_eq!(gam.move_piece("a7", "b8", "x"), Err(ChessError::InvalidInput));
    assert_eq!(gam.get_board_representation(), before);
    // naming a knight installs exactly a knight
    assert_eq!(gam.move_piece("a7", "b8", "N"), Ok(true));
    let representation = gam.get_board_representation();
    assert_eq!(representation.as_bytes()[1], b'N');
}

#[test]
fn threefold_repetition_is_a_draw() {
    let mut gam = start();
    let _ = gam.move_piece("a2", "a4", "x");
    let _ = gam.move_piece("a7", "a5", "x");
    let _ = gam.move_piece("a1", "a3", "x");
    let _ = gam.move_piece("a8", "a6", "x");

    for _ in 0..2 {
        assert_eq!(gam.move_piece("a3", "h3", "x"), Ok(true));
        assert_eq!(gam.move_piece("a6", "h6", "x"), Ok(true));
        assert_eq!(gam.move_piece("h3", "a3", "x"), Ok(true));
        assert_eq!(gam.move_piece("h6", "a6", "x"), Ok(true));
    }

    assert_eq!(gam.max_repeated, 3);
    assert_eq!(gam.check_state(), GameState::DRAW);
}

#[test]
fn fifty_turns_without_capture_is_a_draw() {
    let mut gam = start();
    let files = ["a", "b", "c", "d", "e", "f", "g", "h"];
    let knight_cycle = [("b8", "a6"), ("a6", "b8"), ("g8", "h6"), ("h6", "g8")];
    let mut knight_at: usize = 0;
    // 24 white pawn single steps, each answered by a black knight shuffle:
    // every position is fresh while the clock runs
    for step in 0..3 {
        for file in files {
            let from = format!("{}{}", file, 2 + step);
            let to = format!("{}{}", file, 3 + step);
            assert_eq!(gam.move_piece(&from, &to, "x"), Ok(true), "{} {}", from, to);
            let (kf, kt) = knight_cycle[knight_at % 4];
            knight_at += 1;
            assert_eq!(gam.move_piece(kf, kt, "x"), Ok(true), "{} {}", kf, kt);
        }
    }
    // two more quiet moves reach the fifty-turn threshold
    assert_eq!(gam.move_piece("b1", "a3", "x"), Ok(true));
    assert_eq!(gam.move_piece("b8", "a6", "x"), Ok(true));
    assert!(gam.max_repeated < 3);
    assert_eq!(gam.check_state(), GameState::DRAW);
}

#[test]
fn check_detection_after_fools_mate() {
    let mut gam = start();
    let _ = gam.move_piece("f2", "f3", "x");
    let _ = gam.move_piece("e7", "e6", "x");
    let _ = gam.move_piece("g2", "g4", "x");
    let _ = gam.move_piece("d8", "h4", "x");

    // the white king is attacked, the black king is not
    assert!(gam.board.is_in_check(gam.board.wk_pos));
    assert!(!gam.board.is_in_check(gam.board.bk_pos));
    // and the mated side has no legal reply
    assert!(gam.get_all_legal_moves().is_empty());
}

#[test]
fn rejected_moves_change_nothing() {
    let mut gam = start();
    let before = gam.get_board_representation();
    // out of turn
    assert_eq!(gam.move_piece("e7", "e5", "x"), Ok(false));
    // not a legal destination
    assert_eq!(gam.move_piece("e2", "e5", "x"), Ok(false));
    // empty origin square
    assert_eq!(gam.move_piece("e4", "e5", "x"), Ok(false));
    // malformed text is invalid input, not a mere rejection
    assert_eq!(gam.move_piece("z9", "e5", "x"), Err(ChessError::InvalidInput));
    assert_eq!(gam.get_board_representation(), before);
    assert_eq!(gam.turn_counter, 1);
}

#[test]
fn restart_resets_everything() {
    let mut gam = start();
    let _ = gam.move_piece("e2", "e4", "x");
    let _ = gam.move_piece("e7", "e5", "x");
    gam.restart();
    assert_eq!(gam.turn_counter, 1);
    assert_eq!(gam.max_repeated, 0);
    assert_eq!(gam.last_capture, 0);
    assert_eq!(
        gam.get_board_representation(),
        "rnbqkbnr/pppppppp/......../......../......../......../PPPPPPPP/RNBQKBNR"
    );
}

#[test]
fn load_state_installs_the_described_position() {
    let mut gam = start();
    let text = "rnbqkbnr\npppppppp\n........\n........\n........\n........\nPPPPPPPP\nRNBQKBNR";
    gam.load_state(text.to_string());
    assert_eq!(
        gam.get_board_representation(),
        "rnbqkbnr/pppppppp/......../......../......../......../PPPPPPPP/RNBQKBNR"
    );
    // the loaded game plays on: white opens normally
    assert_eq!(gam.move_piece("e2", "e4", "x"), Ok(true));
}
