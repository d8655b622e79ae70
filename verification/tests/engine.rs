use my_chess::start;
use my_chess::GameState;

#[test]
fn stalemate() {
    let mut gam = start();

    let _ = gam.move_piece("e2", "e3", "x");
    let _ = gam.move_piece("a7", "a5", "x");
    let _ = gam.move_piece("d1", "h5", "x");
    let _ = gam.move_piece("a8", "a6", "x");
    let _ = gam.move_piece("h5", "a5", "x");
    let _ = gam.move_piece("h7", "h5", "x");
    let _ = gam.move_piece("h2", "h4", "x");
    let _ = gam.move_piece("a6", "h6", "x");

    let _ = gam.move_piece("a5", "c7", "x");
    let _ = gam.move_piece("f7", "f6", "x");
    let _ = gam.move_piece("c7", "d7", "x");
    let _ = gam.move_piece("e8", "f7", "x");

    let _ = gam.move_piece("d7", "b7", "x");
    let _ = gam.move_piece("d8", "d3", "x");
    let _ = gam.move_piece("b7", "b8", "x");
    let _ = gam.move_piece("d3", "h7", "x");

    let _ = gam.move_piece("b8", "c8", "x");
    let _ = gam.move_piece("f7", "g6", "x");
    let _ = gam.move_piece("c8", "e6", "x");

    let moves = gam.get_all_legal_moves();
    let state = gam.check_state();

    assert_eq!(moves, vec![]);
    assert_eq!(state, GameState::DRAW);
}

#[test]
fn repetition() {
    let mut gam = start();

    let _ = gam.move_piece("a2", "a4", "x");
    let _ = gam.move_piece("a7", "a5", "x");
    let _ = gam.move_piece("a1", "a3", "x");
    let _ = gam.move_piece("a8", "a6", "x");

    let _ = gam.move_piece("a3", "h3", "x");
    let _ = gam.move_piece("a6", "h6", "x");
    let _ = gam.move_piece("h3", "a3", "x");
    let _ = gam.move_piece("h6", "a6", "x");

    let _ = gam.move_piece("a3", "h3", "x");
    let _ = gam.move_piece("a6", "h6", "x");
    let _ = gam.move_piece("h3", "a3", "x");
    let _ = gam.move_piece("h6", "a6", "x");

    println!("REP{:?}", gam.max_repeated);
}

#[test]
fn castle() {
    let mut gam = start();

    let _ = gam.move_piece("a2", "a4", "x");
    let _ = gam.move_piece("a7", "a5", "x");
    let _ = gam.move_piece("b1", "a3", "x");
    let _ = gam.move_piece("a8", "a6", "x");

    let _ = gam.move_piece("d2", "d4", "x");
    let _ = gam.move_piece("a6", "a8", "x");
    let _ = gam.move_piece("c1", "h6", "x");
    let _ = gam.move_piece("a8", "a6", "x");

    let _ = gam.move_piece("d1", "d3", "x");
    let _ = gam.move_piece("a6", "a8", "x");
    let _ = gam.move_piece("b6", "b5", "x");
    let _ = gam.move_piece("e1", "c1", "x");

    println!("REP{:?}", gam.max_repeated);

    let _moves = gam.get_all_legal_moves();
    let _state = gam.check_state();

    let representation = gam.get_board_representation();
    let correct_state = "rnbqkbnr/.ppppppp/.......B/p......./P..P..../N..Q..../.PP.PPPP/..KR.BNR";
    println!("{:?}", representation);
    assert_eq!(correct_state, representation);
}

#[test]
fn check_representation() {
    let mut gam = start();

    let representation = gam.get_board_representation();
    let _strt_moves = gam.get_all_legal_moves();

    let correct_state = "rnbqkbnr/pppppppp/......../......../......../......../PPPPPPPP/RNBQKBNR";

    assert_eq!(correct_state, representation);
}

#[test]
fn enpassant() {
    let mut gam = start();

    let _ = gam.move_piece("a2", "a4", "x");
    let _ = gam.move_piece("a7", "a6", "x");
    let _ = gam.move_piece("a4", "a5", "x");
    let _ = gam.move_piece("b7", "b5", "x");

    // en passant
    let _ = gam.move_piece("a5", "b6", "x");

    println!("REP{:?}", gam.max_repeated);

    let state = gam.check_state();

    let representation = gam.get_board_representation();
    let correct_state = "rnbqkbnr/..pppppp/pP....../......../......../......../.PPPPPPP/RNBQKBNR";
    assert_eq!(state, GameState::ONGOING);
    assert_eq!(correct_state, representation);
}

#[test]
fn promotion() {
    let mut gam = start();

    let _ = gam.move_piece("a2", "a4", "x");
    let _ = gam.move_piece("a7", "a6", "x");
    let _ = gam.move_piece("a4", "a5", "x");
    let _ = gam.move_piece("b7", "b5", "x");

    // en passant
    let _ = gam.move_piece("a5", "b6", "x");
    let _ = gam.move_piece("a8", "a7", "x");
    let _ = gam.move_piece("b6", "a7", "x");
    let _ = gam.move_piece("c8", "b7", "x");
    // promotion
    let _ = gam.move_piece("a7", "b8", "Q");

    println!("REP{:?}", gam.max_repeated);

    let state = gam.check_state();

    let representation = gam.get_board_representation();
    let correct_state = ".Q.qkbnr/.bpppppp/p......./......../......../......../.PPPPPPP/RNBQKBNR";

    assert_eq!(state, GameState::ONGOING);
    assert_eq!(correct_state, representation);
}

#[test]
fn checkmate() {
    let mut gam = start();

    let _ = gam.move_piece("f2", "f3", "x");
    let _ = gam.move_piece("e7", "e6", "x");
    let _ = gam.move_piece("g2", "g4", "x");

    // fool's mate
    let _ = gam.move_piece("d8", "h4", "x");

    println!("REP{:?}", gam.max_repeated);

    let state = gam.check_state();

    let representation = gam.get_board_representation();
    let correct_state = "rnb.kbnr/pppp.ppp/....p.../......../......Pq/.....P../PPPPP..P/RNBQKBNR";

    assert_eq!(state, GameState::WIN_B);
    assert_eq!(correct_state, representation);
}
