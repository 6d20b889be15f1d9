use hive::game_state::{GameState, Turn};
use hive::hex::Hex;
use hive::notation::parse_move_string;
use hive::piece::{Bug, Piece, Player};

fn play_and_verify(game: &mut GameState, move_strings: Vec<&str>) {
    for move_str in move_strings {
        let turn = parse_move_string(move_str, &game.board, &game.stacks).unwrap();
        assert!(game.submit_turn(turn).is_ok());
    }
}

/// A mate in one for Black, then a save for White.
fn check_select_move() {
    let mut game = GameState::new(Player::White);
    // setup a mate-in-one situation for black
    play_and_verify(&mut game, vec![
        "wA1",
        "bA1 -wA1",
        "wQ wA1/",
        "bQ \\bA1",
        "wS wA1\\",
        "bA2 -bA1",
        "wS1 wQ1/",
        "bQ -wQ",
        "wG1 wQ\\",
        "bS1 bA2\\",
        "wB1 wQ-",
    ]);
    let winning_move = Turn::Move(Piece {
        bug: Bug::Ant,
        owner: Player::Black,
        id: 2
    }, Hex::new(1, 1, -2));
    assert_eq!(game.select_action(&game.get_valid_moves()), winning_move);
    // do something irrelevant
    play_and_verify(&mut game, vec!["bS2 -bS1"]);
    // the best move for white is moving wS1 from wQ to bQ
    let saving_move = Turn::Move(Piece::new(Bug::Spider, Player::White), Hex::new(-1, 2, -1));
    assert_eq!(game.select_action(&game.get_valid_moves()), saving_move);
}

#[test]
fn ai_test_select_move() {
    check_select_move();
}

#[test]
fn mod_test_select_move() {
    check_select_move();
}

#[test]
fn placements_score_nothing() {
    let game = GameState::new(Player::White);
    let t = Turn::Place(Piece::new(Bug::Ant, Player::White), Hex::new(0, 0, 0));
    assert_eq!(game.score_turn(&t), 0);
    let moves = game.get_valid_moves();
    assert!(moves.contains(&game.select_action(&moves)));
}

#[test]
fn piece_difference_counts_black_minus_white() {
    let mut game = GameState::new(Player::White);
    assert_eq!(game.piece_difference(), 0);
    play_and_verify(&mut game, vec!["wA1", "bA1 -wA1", "wQ wA1/"]);
    assert_eq!(game.piece_difference(), -1);
    play_and_verify(&mut game, vec!["bQ \\bA1"]);
    assert_eq!(game.piece_difference(), 0);
}

#[test]
fn terminal_values() {
    let mut game = GameState::new(Player::White);
    assert_eq!(game.terminal_value(Player::White), None);
    game.status = hive::game_state::GameStatus::Win(Player::Black);
    assert_eq!(game.terminal_value(Player::Black), Some(true));
    assert_eq!(game.terminal_value(Player::White), Some(false));
    game.status = hive::game_state::GameStatus::Draw;
    assert_eq!(game.terminal_value(Player::Black), Some(false));
}
