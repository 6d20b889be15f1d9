use std::collections::HashSet;
use std::hash::Hash;
use std::fmt::Debug;
use hive::game_state::{get_initial_pieces, GameState, GameStatus, GameType, Turn, TurnError};
use hive::hex::{origin, Hex};
use hive::notation::{parse_move_string, parse_piece_string};
use hive::piece::{Bug, Piece, Player};

fn assert_set_equality<T>(got: Vec<T>, expected: Vec<T>)
    where T: Clone + Eq + Hash + Debug {
    let got_hash: HashSet<T> = got.iter().cloned().collect();
    let expected_hash: HashSet<T> = expected.iter().cloned().collect();
    if got_hash != expected_hash {
        let unwanted: HashSet<&T> = got_hash.difference(&expected_hash).collect();
        let needed: HashSet<&T> = expected_hash.difference(&got_hash).collect();
        panic!("set inequality! expected len {}, got {}\nmissing {:?}\nunwanted {:?}",
            expected_hash.len(), got_hash.len(), needed, unwanted);
    }
}

fn board_get(game: &GameState, hex: Hex) -> Option<Piece> {
    game.board.iter().find(|(h, _)| *h == hex).map(|(_, p)| *p)
}

fn stack_get(game: &GameState, hex: Hex) -> Option<Vec<Piece>> {
    game.stacks.iter().find(|(h, _)| *h == hex).map(|(_, s)| s.clone())
}

fn check_move(game: &mut GameState, turn: Turn) {
    assert!(game.submit_turn(turn).is_ok());
}

fn get_valid_movements(game: &GameState) -> Vec<Turn> {
    game.get_valid_moves().iter().filter(|turn| match turn {
        Turn::Move(_, _) => true,
        _ => false,
    }).cloned().collect()
}

fn play_and_verify(game: &mut GameState, move_strings: Vec<&str>) {
    for move_str in move_strings {
        let turn = parse_move_string(move_str, &game.board, &game.stacks).unwrap();
        check_move(game, turn);
    }
}

fn assert_piece_movements(game: &GameState, piece_string: &str, move_strings: Vec<&str>) {
    let piece = parse_piece_string(piece_string).unwrap();
    let expected = move_strings.iter()
        .map(|move_str| parse_move_string(move_str, &game.board, &game.stacks).unwrap())
        .collect();
    let got = get_valid_movements(game).iter()
        .filter(|turn| match turn {
            Turn::Move(turn_piece, _) => *turn_piece == piece,
            _ => false,
        }).cloned().collect::<Vec<Turn>>();
    assert_set_equality(got, expected);
}

fn assert_valid_movements(game: &GameState, move_strings: Vec<&str>) {
    assert_set_equality(get_valid_movements(game), move_strings.iter()
        .map(|move_str| parse_move_string(move_str, &game.board, &game.stacks).unwrap())
        .collect());
}

#[test]
fn test_first_valid_moves() {
    let new_game = GameState::new(Player::Black);
    let all_but_queen = vec![
        Turn::Place(Piece::new(Bug::Ant, Player::Black), origin()),
        Turn::Place(Piece::new(Bug::Beetle, Player::Black), origin()),
        Turn::Place(Piece::new(Bug::Grasshopper, Player::Black), origin()),
        Turn::Place(Piece::new(Bug::Spider, Player::Black), origin()),
    ];
    assert_set_equality(new_game.get_valid_moves(), all_but_queen);
}

#[test]
fn test_make_first_move() {
    let mut new_game = GameState::new(Player::Black);
    let black_ant_1 = Piece::new(Bug::Ant, Player::Black);
    let turn = Turn::Place(black_ant_1, origin());
    check_move(&mut new_game, turn);
    assert_eq!(new_game.current_player, Player::White);
    assert_eq!(board_get(&new_game, origin()), Some(black_ant_1));
    assert_eq!(new_game.unplayed_pieces.len(), get_initial_pieces(GameType::Base).len() - 1);
    assert_eq!(new_game.status, GameStatus::InProgress);
    assert_eq!(new_game.turns, vec![turn]);
}

#[test]
fn test_make_second_move() {
    let mut game = GameState::new(Player::Black);
    let black_ant_1 = Piece::new(Bug::Ant, Player::Black);
    let turn_1 = Turn::Place(black_ant_1, origin());
    check_move(&mut game, turn_1);

    // 6 possible hexes * 4 possible pieces = 24 possible moves for Player::White
    assert_eq!(game.get_valid_moves().len(), 24);
    let white_spider_1 = Piece::new(Bug::Spider, Player::White);
    let west_of_origin = origin().w();
    let turn_2 = Turn::Place(white_spider_1, west_of_origin);
    check_move(&mut game, turn_2);
    assert_eq!(board_get(&game, origin()), Some(black_ant_1));
    assert_eq!(board_get(&game, west_of_origin), Some(white_spider_1));
    assert_eq!(game.unplayed_pieces.len(), get_initial_pieces(GameType::Base).len() - 2);
}

#[test]
fn test_make_third_move() {
    let mut game = GameState::new(Player::Black);
    let black_ant_1 = Piece::new(Bug::Ant, Player::Black);
    let turn_1 = Turn::Place(black_ant_1, origin());
    check_move(&mut game, turn_1);
    let white_spider_1 = Piece::new(Bug::Spider, Player::White);
    let west_of_origin = origin().w();
    let turn_2 = Turn::Place(white_spider_1, west_of_origin);
    check_move(&mut game, turn_2);

    let mut pieces = Vec::new();
    let mut hexes = Vec::new();
    game.get_valid_moves().iter().for_each(|m| match m {
        &Turn::Place(piece, hex) => {
            pieces.push(piece);
            hexes.push(hex);
        },
        _ => panic!("moves are invalid here!"),
    });
    // Only 3 valid hexes remain for placement, and 5 pieces = 15 moves
    assert_set_equality(pieces, vec![
        Piece { bug: Bug::Ant, owner: Player::Black, id: 2 },
        Piece::new(Bug::Beetle, Player::Black),
        Piece::new(Bug::Grasshopper, Player::Black),
        Piece::new(Bug::Queen, Player::Black),
        Piece::new(Bug::Spider, Player::Black),
    ]);
    assert_set_equality(hexes, vec![origin().ne(), origin().e(), origin().se()]);
    assert_eq!(game.get_valid_moves().len(), 15);

    let black_ant_2 = Piece { bug: Bug::Ant, owner: Player::Black, id: 2 };
    let east_of_origin = origin().e();
    let turn_3 = Turn::Place(black_ant_2, east_of_origin);
    check_move(&mut game, turn_3);
}

#[test]
fn test_queen_placement_rule() {
    let mut game = GameState::new(Player::Black);
    play_and_verify(&mut game, vec![
        "bA1",
        "wA1 -bA1",
        "bS1 bA1-",
        "wS1 -wA1",
        "bB1 bS1-",
        "wB1 -wS1",
    ]);
    let mut pieces = Vec::new();
    game.get_valid_moves().iter().for_each(|m| match m {
        &Turn::Place(piece, _) => pieces.push(piece),
        _ => panic!("moves are invalid here!"),
    });
    assert_set_equality(pieces, vec![Piece::new(Bug::Queen, Player::Black)]);
    play_and_verify(&mut game, vec!["bQ1 \\bS1"]);
    let mut pieces = Vec::new();
    game.get_valid_moves().iter().for_each(|m| match m {
        &Turn::Place(piece, _) => pieces.push(piece),
        _ => panic!("moves are invalid here!"),
    });
    assert_set_equality(pieces, vec![Piece::new(Bug::Queen, Player::White)]);
    play_and_verify(&mut game, vec!["wQ1 \\wA1"]);
}

#[test]
fn test_simple_movement() {
    let mut game = GameState::new(Player::Black);
    play_and_verify(&mut game, vec![
        "bA1",
        "wA1 -bA1",
        "bQ1 bA1-",
        "wS1 -wA1",
    ]);
    assert_valid_movements(&game, vec![
        "bQ1 bA1/",
        "bQ1 bA1\\",
    ]);
    play_and_verify(&mut game, vec![
        "bQ1 \\bQ1",
        "wQ1 \\wA1",
    ]);
    assert_valid_movements(&game, vec![
        "bQ1 bA1-",
        "bQ1 \\bA1",
    ]);
    play_and_verify(&mut game, vec!["bS1 bQ1\\"]);
    assert_valid_movements(&game, vec![
        "wS1 wQ1/",
        "wS1 bA1\\",
        "wQ1 wA1/",
        "wQ1 \\wS1",
    ]);
    play_and_verify(&mut game, vec![
        "wS1 /bS1",
        "bQ1 \\bA1",
    ]);
    assert_valid_movements(&game, vec![
        "wS1 bS1/",
        "wS1 -wA1",
        "wQ1 \\bQ1",
        "wQ1 -wA1",
        "wA1 /bA1",
        "wA1 -wS1",
        "wA1 /wS1",
        "wA1 wS1\\",
        "wA1 wS1-",
        "wA1 bS1\\",
        "wA1 bS1-",
        "wA1 bS1/",
        "wA1 \\bS1",
        "wA1 bQ1-",
        "wA1 bQ1/",
        "wA1 \\bQ1",
        "wA1 \\wQ1",
        "wA1 -wQ1",
        "wA1 /wQ1",
    ]);
}

#[test]
fn test_grasshoppers() {
    let mut game = GameState::new(Player::Black);
    play_and_verify(&mut game, vec![
        "bG1",
        "wS1 -bG1",
        "bQ1 bG1/",
        "wA1 \\wS1",
        "bQ1 \\bG1",
        "wQ1 -wA1",
    ]);
    assert_valid_movements(&game, vec![
        "bQ1 bG1/",
        "bQ1 wA1/",
        "bG1 \\bQ1",
        "bG1 -wS1",
    ]);
    play_and_verify(&mut game, vec![
        "bG1 /wA1",
        "wG1 \\wQ1",
    ]);
    assert_valid_movements(&game, vec![
        "bQ1 wS1-",
        "bQ1 wA1/",
        "bG1 wA1/",
        "bG1 \\wG1",
        "bG1 wS1-",
    ]);
}

#[test]
fn test_beetles() {
    let mut game = GameState::new(Player::Black);
    play_and_verify(&mut game, vec![
        "bB1",
        "wS1 -bB1",
        "bQ1 bB1/",
        "wB1 \\wS1",
        "bQ1 \\bB1",
        "wQ1 /wB1",
    ]);
    assert_valid_movements(&game, vec![
        "bQ1 bB1/",
        "bQ1 wB1/",
        "bB1 bQ1-",
        "bB1 wS1\\",
        "bB1 /bQ1",
        "bB1 wS1/",
    ]);
    play_and_verify(&mut game, vec!["bB1 /bQ1"]);
    assert_eq!(stack_get(&game, origin().w()), Some(vec![Piece::new(Bug::Spider, Player::White)]));
    assert_eq!(board_get(&game, origin().w()), Some(Piece::new(Bug::Beetle, Player::Black)));
    play_and_verify(&mut game, vec!["wB1 /bQ1"]);
    assert_eq!(stack_get(&game, origin().w()), Some(vec![Piece::new(Bug::Spider, Player::White), Piece::new(Bug::Beetle, Player::Black)]));
    assert_eq!(board_get(&game, origin().w()), Some(Piece::new(Bug::Beetle, Player::White)));
    play_and_verify(&mut game, vec![
        "bQ1 bQ1\\",
        "wB1 wB1-",
    ]);
    assert_eq!(stack_get(&game, origin().w()), Some(vec![Piece::new(Bug::Spider, Player::White)]));
    assert_eq!(board_get(&game, origin().w()), Some(Piece::new(Bug::Beetle, Player::Black)));
    assert_valid_movements(&game, vec![
        "bB1 /wB1",
        "bB1 \\wB1",
        "bB1 wQ1/",
        "bB1 wQ1\\",
        "bB1 wS1-",
        "bB1 -wS1",
    ]);

    // complete a circle to test placing beetles in holes
    play_and_verify(&mut game, vec![
        "bB1 /wB1",
        "wB1 \\bB1",
        "bA1 bQ1-",
        "wA1 \\wB1",
        "bA1 /bB1",
        "wA1 \\bQ1",
        "bS1 -bA1",
        "wA1 /wQ1",
        "bG1 bQ1/",
    ]);

    // finally, move the beetle into the center of the hole
    play_and_verify(&mut game, vec![
        "wB1 /wB1",
        "bA2 bG1/",
    ]);
    // and move it out
    play_and_verify(&mut game, vec!["wB1 /bQ1"]);
}

#[test]
fn test_gap_jumps() {
    /* in a case where there's a curve of pieces w/ a wide gap, hex neighbors that aren't
     * adjacent may appear that way. e.g.
     *
     *     / \ / \ / \
     *    |wG1|wQ1| 4 |
     *   / \ / \ / \ /
     *  |bB1| 2 | 3 |
     *   \ / \ / \ /
     *    |bQ1| 1 |
     *     \ / \ /
     *      |bS1|
     *       \ /
     *
     * here, although hexes 1 and 3 are "adjacent" on the board, wS1 must cross through
     * 2 before hitting 3.
     */
    let mut game = GameState::new(Player::Black);
    play_and_verify(&mut game, vec![
        "bB1",
        "wG1 bB1/",
        "bQ1 bB1\\",
        "wQ1 wG1-",
        "bS1 bQ1\\",
        "wA1 \\wG1",
    ]);
    assert_valid_movements(&game, vec![
        "bS1 wQ1\\",
        "bS1 -bB1",
    ]);
}

#[test]
fn test_win_condition() {
    let mut game = GameState::new(Player::Black);
    play_and_verify(&mut game, vec![
        "bB1",
        "wS1 -bB1",
        "bQ1 bB1/",
        "wQ1 -wS1",
        "bG1 bQ1\\",
        "wA1 \\wS1",
        "bS1 bG1/",
        "wA1 \\bB1",
        "bA1 \\bS1",
        "wA2 \\wS1",
        "bA2 bS1\\",
        "wA2 \\bQ1",
    ]);
    assert_eq!(game.status, GameStatus::Win(Player::White));
    assert_eq!(game.submit_turn(Turn::Move(Piece::new(Bug::Beetle, Player::Black), origin().ne())).err(),
               Some(TurnError::GameOver));
}

fn count_pieces(game: &GameState, player: Player) -> Vec<(Bug, usize)> {
    let mut counts = std::collections::HashMap::new();
    game.unplayed_pieces.iter()
        .for_each(|piece| { if piece.owner == player { *counts.entry(piece.bug).or_insert(0) += 1 }});
    counts.iter().map(|(&a, &b)| (a, b)).collect()
}

#[test]
fn test_initial_pieces() {
    assert_set_equality(count_pieces(&GameState::new(Player::Black), Player::Black), vec![
        (Bug::Queen, 1), (Bug::Beetle, 2), (Bug::Spider, 2), (Bug::Grasshopper, 3), (Bug::Ant, 3),
    ]);
    let p = GameState::new_with_type(Player::Black, GameType::PLM(true, false, false));
    assert_set_equality(count_pieces(&p, Player::Black), vec![
        (Bug::Queen, 1), (Bug::Beetle, 2), (Bug::Spider, 2), (Bug::Grasshopper, 3), (Bug::Ant, 3), (Bug::Pillbug, 1),
    ]);
    let l = GameState::new_with_type(Player::Black, GameType::PLM(false, true, false));
    assert_set_equality(count_pieces(&l, Player::Black), vec![
        (Bug::Queen, 1), (Bug::Beetle, 2), (Bug::Spider, 2), (Bug::Grasshopper, 3), (Bug::Ant, 3), (Bug::Ladybug, 1),
    ]);
    let m = GameState::new_with_type(Player::Black, GameType::PLM(false, false, true));
    assert_set_equality(count_pieces(&m, Player::Black), vec![
        (Bug::Queen, 1), (Bug::Beetle, 2), (Bug::Spider, 2), (Bug::Grasshopper, 3), (Bug::Ant, 3), (Bug::Mosquito, 1),
    ]);
    let plm = GameState::new_with_type(Player::Black, GameType::PLM(true, true, true));
    assert_set_equality(count_pieces(&plm, Player::Black), vec![
        (Bug::Queen, 1), (Bug::Beetle, 2), (Bug::Spider, 2), (Bug::Grasshopper, 3), (Bug::Ant, 3),
        (Bug::Pillbug, 1), (Bug::Ladybug, 1), (Bug::Mosquito, 1),
    ]);
}

#[test]
fn test_pillbug() {
    let mut game = GameState::new_with_type(Player::Black, GameType::PLM(true, false, false));
    play_and_verify(&mut game, vec![
        "bP1",
        "wS1 -bP1",
        "bQ1 bP1/",
        "wQ1 \\wS1",
        "bQ1 \\bP1",
        "wQ1 \\bQ1",
    ]);
    assert_valid_movements(&game, vec![
        "bP1 wS1\\",
        "bP1 bQ1-",
        "wS1 /bP1",
        "wS1 bP1\\",
        "wS1 bP1-",
        "wS1 bP1/",
    ]);
    play_and_verify(&mut game, vec!["wS1 bP1-"]);
    // make sure white can't move the white spider, since it was just pillbug'd
    assert_valid_movements(&game, vec![
        "wQ1 bQ1/",
        "wQ1 -bQ1",
    ]);
    play_and_verify(&mut game, vec![
        "wQ1 -bQ1",
        "bS1 bQ1/",
        "wS1 -bP1",
    ]);
    // make sure the pillbug can only move normally, since the white Bug::Spider just moved and
    // thus cannot be pillbug'd
    assert_piece_movements(&game, "bP1", vec![
        "bP1 wS1\\",
        "bP1 bQ1-",
    ]);
    play_and_verify(&mut game, vec![
        "bB1 bP1/",
        "wB1 /wS1",
        "bB1 bQ1",
        "wB1 wS1",
    ]);
    // again, the pillbug can only move normally because the two adjacent pieces are stacks
    assert_piece_movements(&game, "bP1", vec![
        "bP1 wB1\\",
        "bP1 bB1-",
    ]);
}

#[test]
fn test_ladybug() {
    let mut game = GameState::new_with_type(Player::Black, GameType::PLM(false, true, false));
    play_and_verify(&mut game, vec![
        "bL1",
        "wS1 -bL1",
        "bQ1 bL1/",
        "wQ1 \\wS1",
        "bQ1 \\bL1",
        "wA1 /wS1",
        "bQ1 wQ1/",
        "wA2 /wA1",
    ]);
    assert_valid_movements(&game, vec![
        "bQ1 wQ1-",
        "bQ1 \\wQ1",
        "bL1 wQ1-",
        "bL1 \\wQ1",
        "bL1 -wQ1",
        "bL1 /wQ1",
        "bL1 wA1-",
        "bL1 wA1\\",
        "bL1 -wA1",
        "bL1 \\wA1",
    ]);

    // from ./test_data/HV-omiomio-andyy-2020-03-28-0355.sgf
    let mut game = GameState::new_with_type(Player::White, GameType::PLM(true, true, true));
    play_and_verify(&mut game, vec![
        "wS1",
        "bG1 /wS1",
        "wS2 wS1-",
        "bL1 bG1\\",
        "wG1 \\wS1",
        "bQ -bL",
        "wQ -wG1",
        "bS1 \\bQ",
        "wS2 bL\\",
        "bS1 -wQ",
        "wA1 wG1-",
        "bB1 \\bS1",
        "wA1 \\bB1",
        "bB2 /bS1",
        "wB1 wQ/",
        "bB2 /wQ",
        "wS2 -bQ",
    ]);
    assert_piece_movements(&game, "bL1", vec![
        "bL1 -wS2",
        "bL1 \\wS2",
        "bL1 /wS2",
        "bL1 wS2\\",
        "bL1 wS2/",
        "bL1 -bG1",
        "bL1 bG1-",
        "bL1 \\bG1",
        "bL1 -wS1",
        "bL1 wS1-",
        "bL1 wS1/",
        "bL1 wS1\\",
        "bL1 bQ1\\",
    ]);
}

#[test]
fn test_mosquito() {
    let mut game = GameState::new_with_type(Player::Black, GameType::PLM(false, false, true));
    play_and_verify(&mut game, vec![
        "bM1",
        "wS1 -bM1",
        "bQ1 bM1/",
        "wQ1 \\wS1",
        "bQ1 \\bM1",
        "wA1 /wS1",
        "bG1 bM1/",
        "wA1 -wS1",
    ]);
    assert_valid_movements(&game, vec![
        "bQ1 \\bG1",
        "bQ1 wQ1/",
        "bG1 -wQ1",
        "bG1 /bM1",
        "bM1 /wA1", // mimic spider
        "bM1 bG1/", // mimic spider
        "bM1 wS1\\", // mimic queen
        "bM1 bG1\\", // mimic queen
        "bM1 bG1/", // mimic grasshopper
        "bM1 \\bQ1", // mimic grasshopper
        "bM1 -wA1", // mimic grasshopper
    ]);

    // test a case where we imitate a pillbug
    let mut game2 = GameState::new_with_type(Player::White, GameType::PLM(true, true, true));
    play_and_verify(&mut game2, vec![
        "wL1",
        "bL1 \\wL1",
        "wP1 wL-",
        "bM1 bL/",
        "wS1 wP-",
        "bQ \\bL",
        "wQ wP\\",
        "bM1 -wQ",
        "wS2 wQ\\",
        "wP1 -bM",
    ]);

    // make sure when a mosquito's on the hive, it can only move like a beetle until it drops
    // back down
    let mut game3 = GameState::new_with_type(Player::White, GameType::PLM(true, true, true));
    play_and_verify(&mut game3, vec![
        "wM1",
        "bB1 -wM1",
        "wQ1 wM1/",
        "bQ1 \\bB1",
        "wQ1 \\wM1",
        "bA1 -bB1",
        "wM1 /wQ1", // beetle movement onto the hive
        "bG1 -bA1",
    ]);
    assert_piece_movements(&game3, "wM1", vec![
        "wM1 -wQ1",
        "wM1 bQ1-",
        "wM1 /bQ1",
        "wM1 /bB1",
        "wM1 bB1\\",
        "wM1 bB1-",
    ]);
    play_and_verify(&mut game3, vec![
        "wM1 -wQ1",
        "bG1 bB1-",
    ]);
    assert_piece_movements(&game3, "wM1", vec![
        "wM1 /wQ1",
        "wM1 bB1/",
        "wM1 -bB1",
        "wM1 \\bA1",
        "wM1 \\bQ1",
        "wM1 bQ1/",
    ]);
}

#[test]
fn test_make_invalid_first_move() {
    let mut new_game = GameState::new(Player::Black);
    let black_queen = Piece::new(Bug::Queen, Player::Black);
    let turn = Turn::Place(black_queen, origin());
    let result = new_game.submit_turn(turn);
    assert_eq!(result.err(), Some(TurnError::InvalidMove));
}
