use hive::game_state::{GameState, GameStatus, GameType, Turn};
use hive::game_string::{parse_first_player, parse_game_status, parse_game_string, parse_game_turn, parse_game_type};
use hive::hex::{origin, Hex};
use hive::notation::{get_turn_string, parse_move_string, parse_piece_string};
use hive::piece::{Bug, Piece, Player};

#[test]
fn parser_test_parse_move_string() {
    let board: Vec<(Hex, Piece)> = vec![
        (origin(), Piece::new(Bug::Queen, Player::White)),
        (origin().w(), Piece::new(Bug::Ant, Player::Black)),
    ];
    let stacks: Vec<(Hex, Vec<Piece>)> = vec![];

    assert_eq!(parse_move_string("wS1", &board, &stacks), Ok(Turn::Place(Piece::new(Bug::Spider, Player::White), origin())));
    assert_eq!(parse_move_string("wS1 wQ-", &board, &stacks), Ok(Turn::Place(Piece::new(Bug::Spider, Player::White), origin().e())));
    assert_eq!(parse_move_string("bA1 /wQ", &board, &stacks), Ok(Turn::Move(Piece::new(Bug::Ant, Player::Black), origin().sw())));

    assert!(parse_move_string("foo", &board, &stacks).is_err());
    assert!(parse_move_string("wwQ", &board, &stacks).is_err());
    assert!(parse_move_string("wQ foo", &board, &stacks).is_err());
    assert!(parse_move_string("wQ -bQ2", &board, &stacks).is_err());
}

#[test]
fn test_stacking_moves() {
    let board: Vec<(Hex, Piece)> = vec![
        (origin(), Piece::new(Bug::Queen, Player::White)),
        (origin().w(), Piece::new(Bug::Beetle, Player::Black)),
    ];
    let stacks: Vec<(Hex, Vec<Piece>)> = vec![];

    assert_eq!(parse_move_string("bB1 wQ", &board, &stacks), Ok(Turn::Move(Piece::new(Bug::Beetle, Player::Black), origin())));
}

#[test]
fn test_moves_involving_stacks() {
    let board: Vec<(Hex, Piece)> = vec![
        (origin(), Piece::new(Bug::Beetle, Player::White)),
        (origin().w(), Piece::new(Bug::Ant, Player::Black)),
    ];
    let stacks: Vec<(Hex, Vec<Piece>)> = vec![
        (origin(), vec![Piece::new(Bug::Queen, Player::White)]),
    ];

    assert_eq!(parse_move_string("wB1 wQ1-", &board, &stacks), Ok(Turn::Move(Piece::new(Bug::Beetle, Player::White), origin().e())));
}

#[test]
fn parser_test_parse_game_string() {
    assert!(parse_game_string("Base;NotStarted;White[1]").is_ok());
    assert!(parse_game_string("Base;InProgress;White[3];wS1;bG1 -wS1;wA1 wS1/;bG2 /bG1").is_ok());
}

#[test]
fn test_parse_game_type() {
    assert_eq!(parse_game_type("Base"), Ok(GameType::Base));
    assert_eq!(parse_game_type("Base+MP"), Ok(GameType::PLM(true, false, true)));
}

#[test]
fn test_parse_first_player() {
    assert_eq!(parse_first_player("Black[1]", 0), Ok(Player::Black));
    assert_eq!(parse_first_player("White[1]", 0), Ok(Player::White));
    assert_eq!(parse_first_player("Black[1]", 1), Ok(Player::White));
    assert_eq!(parse_first_player("White[1]", 1), Ok(Player::Black));
}

#[test]
fn game_type_errors() {
    assert!(parse_game_type("Base+X").is_err());
    assert!(parse_game_type("base").is_err());
    assert_eq!(parse_game_type("Base+"), Ok(GameType::PLM(false, false, false)));
    assert_eq!(parse_game_type("Base+PLM"), Ok(GameType::PLM(true, true, true)));
}

#[test]
fn game_status_tokens() {
    assert_eq!(parse_game_status("NotStarted"), Ok(GameStatus::NotStarted));
    assert_eq!(parse_game_status("InProgress"), Ok(GameStatus::InProgress));
    assert_eq!(parse_game_status("Draw"), Ok(GameStatus::Draw));
    assert_eq!(parse_game_status("WhiteWins"), Ok(GameStatus::Win(Player::White)));
    assert_eq!(parse_game_status("BlackWins"), Ok(GameStatus::Win(Player::Black)));
    assert!(parse_game_status("Won").is_err());
}

#[test]
fn first_player_errors() {
    assert!(parse_first_player("Green[1]", 0).is_err());
    assert!(parse_first_player("", 0).is_err());
}

#[test]
fn piece_strings() {
    assert_eq!(parse_piece_string("bA2"), Ok(Piece { id: 2, bug: Bug::Ant, owner: Player::Black }));
    assert_eq!(parse_piece_string("wM"), Ok(Piece::new(Bug::Mosquito, Player::White)));
    assert!(parse_piece_string("wX1").is_err());
    assert!(parse_piece_string("w").is_err());
    assert!(parse_piece_string("wAx").is_err());
}

#[test]
fn pass_is_parsed() {
    let board: Vec<(Hex, Piece)> = vec![];
    let stacks: Vec<(Hex, Vec<Piece>)> = vec![];
    assert_eq!(parse_move_string("pass", &board, &stacks), Ok(Turn::Pass));
    assert!(parse_move_string("", &board, &stacks).is_err());
}

#[test]
fn game_string_with_wrong_status_is_refused() {
    assert!(parse_game_string("Base;NotStarted;White[3];wS1;bG1 -wS1;wA1 wS1/;bG2 /bG1").is_err());
    assert!(parse_game_string("Base;InProgress").is_err());
}

#[test]
fn turn_strings_name_turn_numbers() {
    assert_eq!(parse_game_turn("White[3]"), Ok(5));
    assert_eq!(parse_game_turn("Black[1]"), Ok(2));
    assert!(parse_game_turn("Green[1]").is_err());
    assert!(parse_game_turn("White[0]").is_err());
    assert!(parse_game_turn("White").is_err());
}

#[test]
fn turns_are_written_against_the_board() {
    let mut game = GameState::new(Player::White);
    let first = Turn::Place(Piece::new(Bug::Spider, Player::White), origin());
    assert_eq!(get_turn_string(&first, &game), "wS1");
    game.submit_turn(first).unwrap();
    let second = Turn::Place(Piece::new(Bug::Grasshopper, Player::Black), origin().w());
    assert_eq!(get_turn_string(&second, &game), "bG1 -wS1");
    let on_top = Turn::Move(Piece::new(Bug::Beetle, Player::Black), origin());
    assert_eq!(get_turn_string(&on_top, &game), "bB1 wS1");
    assert_eq!(get_turn_string(&Turn::Pass, &game), "pass");
}
