use std::collections::HashMap;
use hive::game_state::{get_initial_pieces, GameState, GameStatus, GameType, Turn, TurnError};
use hive::game_string::parse_game_string;
use hive::hex::Hex;
use hive::notation::{parse_move_string, turn_chars};
use hive::piece::{Piece, Player};

fn keys(game: &GameState) -> Vec<Hex> {
    game.board.iter().map(|(h, _)| *h).collect()
}

fn piece_counts(game: &GameState) -> HashMap<Piece, usize> {
    let mut counts = HashMap::new();
    for p in game.unplayed_pieces.iter() {
        *counts.entry(*p).or_insert(0) += 1;
    }
    for (_, p) in game.board.iter() {
        *counts.entry(*p).or_insert(0) += 1;
    }
    for (_, stack) in game.stacks.iter() {
        for p in stack.iter() {
            *counts.entry(*p).or_insert(0) += 1;
        }
    }
    counts
}

/// Plays `n` turns, each time taking the valid move at a position that
/// varies with the turn number.
fn play_some(game: &mut GameState, n: usize) {
    for k in 0..n {
        if game.status != GameStatus::InProgress && game.status != GameStatus::NotStarted {
            break;
        }
        let moves = game.get_valid_moves();
        let t = moves[(k * 7 + 3) % moves.len()];
        assert_eq!(game.submit_turn(t), Ok(()));
    }
}

#[test]
fn board_stays_one_hive_and_pieces_are_kept() {
    for gt in [GameType::Base, GameType::PLM(true, true, true)].iter() {
        let mut game = GameState::new_with_type(Player::White, *gt);
        let initial = get_initial_pieces(*gt);
        for k in 0..40 {
            play_some(&mut game, 1);
            assert!(Hex::all_contiguous(&keys(&game)), "hive split after turn {}", k);
            let counts = piece_counts(&game);
            assert_eq!(counts.len(), initial.len());
            for p in initial.iter() {
                assert_eq!(counts.get(p), Some(&1));
            }
        }
    }
}

#[test]
fn every_valid_move_is_accepted() {
    let mut game = GameState::new_with_type(Player::Black, GameType::PLM(true, true, true));
    for _ in 0..12 {
        let moves = game.get_valid_moves();
        for t in moves.iter() {
            let mut copy = game.clone();
            assert_eq!(copy.submit_turn(*t), Ok(()), "{:?} refused", t);
        }
        play_some(&mut game, 1);
    }
}

#[test]
fn first_move_offers_every_kind_but_the_queen() {
    let game = GameState::new(Player::White);
    let moves = game.get_valid_moves();
    assert_eq!(moves.len(), 4);
    assert!(moves.iter().all(|t| match t {
        Turn::Place(p, h) => p.owner == Player::White && *h == Hex::new(0, 0, 0) && p.id == 1,
        _ => false,
    }));
}

#[test]
fn game_string_round_trip() {
    let mut game = GameState::new_with_type(Player::White, GameType::PLM(true, true, true));
    play_some(&mut game, 20);
    let text = game.game_string();
    let parsed = parse_game_string(&text).unwrap();
    assert_eq!(parsed.turns, game.turns);
    assert_eq!(parsed.status, game.status);
    assert_eq!(parsed.current_player, game.current_player);
    assert_eq!(parsed.game_type, game.game_type);
    let mut a = parsed.board.clone();
    let mut b = game.board.clone();
    a.sort_by_key(|(h, _)| (h.x, h.y, h.z));
    b.sort_by_key(|(h, _)| (h.x, h.y, h.z));
    assert_eq!(a, b);
    assert_eq!(parsed.game_string(), text);
}

#[test]
fn formatted_turns_parse_back() {
    let mut game = GameState::new_with_type(Player::Black, GameType::PLM(true, true, true));
    for k in 0..25 {
        let moves = game.get_valid_moves();
        for t in moves.iter() {
            let text: String = turn_chars(t, &game.board).into_iter().collect();
            assert_eq!(parse_move_string(&text, &game.board, &game.stacks), Ok(*t), "{}", text);
        }
        let t = moves[(k * 5 + 1) % moves.len()];
        game.submit_turn(t).unwrap();
    }
}

#[test]
fn finished_game_refuses_turns() {
    let mut game = GameState::new(Player::Black);
    for m in ["bB1", "wS1 -bB1", "bQ1 bB1/", "wQ1 -wS1", "bG1 bQ1\\", "wA1 \\wS1", "bS1 bG1/",
              "wA1 \\bB1", "bA1 \\bS1", "wA2 \\wS1", "bA2 bS1\\", "wA2 \\bQ1"].iter() {
        let t = parse_move_string(m, &game.board, &game.stacks).unwrap();
        game.submit_turn(t).unwrap();
    }
    assert_eq!(game.status, GameStatus::Win(Player::White));
    let before = game.turns.len();
    assert_eq!(game.submit_turn(Turn::Pass), Err(TurnError::GameOver));
    assert_eq!(game.turns.len(), before);
}

#[test]
fn turn_numbering_and_player_alternate() {
    let mut game = GameState::new(Player::White);
    assert_eq!(game.turn_no(), 1);
    game.submit_turn(Turn::Pass).unwrap();
    assert_eq!(game.turn_no(), 2);
    assert_eq!(game.current_player, Player::Black);
    assert_eq!(game.status, GameStatus::InProgress);
    game.submit_turn(Turn::Pass).unwrap();
    assert_eq!(game.current_player, Player::White);
}

