use hive::engine::{Engine, Output};

#[test]
fn engine_test_basics() {
    let mut engine = Engine::new();
    assert_eq!(engine.handle_command("newgame Base"), "Base;NotStarted;White[1]\nok");
    assert_eq!(engine.handle_command("validmoves"), "wA1;wG1;wB1;wS1\nok");
    assert!(engine.handle_command("play bQ").starts_with("err"));
    assert_eq!(engine.handle_command("play wS1"), "Base;InProgress;Black[1];wS1\nok");
}

#[test]
fn engine_test_newgame_inprogress() {
    let mut engine = Engine::new();
    assert_eq!(engine.handle_command("newgame Base;InProgress;White[3];wS1;bG1 -wS1;wA1 wS1/;bG2 /bG1"),
                                     "Base;InProgress;White[3];wS1;bG1 -wS1;wA1 wS1/;bG2 /bG1\nok");
}

#[test]
fn engine_test_undo() {
    let mut engine = Engine::new();
    assert_eq!(engine.handle_command("newgame Base;InProgress;White[3];wS1;bG1 -wS1;wA1 wS1/;bG2 /bG1"),
                                     "Base;InProgress;White[3];wS1;bG1 -wS1;wA1 wS1/;bG2 /bG1\nok");
    assert_eq!(engine.handle_command("undo"), "Base;InProgress;Black[2];wS1;bG1 -wS1;wA1 wS1/\nok");
    assert_eq!(engine.handle_command("undo 2"), "Base;InProgress;Black[1];wS1\nok");
}

#[test]
fn refused_first_queen_leaves_the_game_unchanged() {
    let mut engine = Engine::new();
    engine.handle_command("newgame Base");
    assert!(engine.handle_command("play bQ").starts_with("err"));
    assert_eq!(engine.handle_command("validmoves"), "wA1;wG1;wB1;wS1\nok");
    assert_eq!(engine.game.as_ref().unwrap().turns.len(), 0);
}

#[test]
fn commands_without_a_game_are_errors() {
    let mut engine = Engine::new();
    assert!(engine.handle_command("validmoves").starts_with("err"));
    assert!(engine.handle_command("play wS1").starts_with("err"));
    assert!(engine.handle_command("undo").starts_with("err"));
    assert!(engine.handle_command("frobnicate").starts_with("err"));
}

#[test]
fn options_and_info() {
    let mut engine = Engine::new();
    assert_eq!(engine.handle_command("options"), "ok");
    assert_eq!(engine.handle_command("info"), "id Bazinga v1.0\nMosquito;Ladybug;Pillbug\nok");
}

#[test]
fn undo_zero_changes_nothing() {
    let mut engine = Engine::new();
    let s = "Base;InProgress;White[3];wS1;bG1 -wS1;wA1 wS1/;bG2 /bG1";
    engine.handle_command(&format!("newgame {}", s));
    assert_eq!(engine.handle_command("undo 0"), format!("{}\nok", s));
    assert!(engine.handle_command("undo 5").starts_with("err"));
    assert!(engine.handle_command("undo x").starts_with("err"));
}

#[test]
fn undo_then_replay_returns_to_the_same_game() {
    let mut engine = Engine::new();
    let s = "Base;InProgress;White[3];wS1;bG1 -wS1;wA1 wS1/;bG2 /bG1";
    engine.handle_command(&format!("newgame {}", s));
    engine.handle_command("undo 2");
    engine.handle_command("play wA1 wS1/");
    assert_eq!(engine.handle_command("play bG2 /bG1"), format!("{}\nok", s));
}

#[test]
fn expansion_game_types() {
    let mut engine = Engine::new();
    assert_eq!(engine.handle_command("newgame Base+PLM"), "Base+PLM;NotStarted;White[1]\nok");
    assert_eq!(engine.handle_command("newgame Base+M"), "Base+M;NotStarted;White[1]\nok");
    assert!(engine.handle_command("newgame Nonsense").starts_with("err"));
}

#[test]
fn pass_command_is_accepted() {
    let mut engine = Engine::new();
    engine.handle_command("newgame Base");
    assert_eq!(engine.handle_command("pass"), "Base;InProgress;Black[1]\nok");
}

#[test]
fn win_is_reported_and_play_stops() {
    let mut engine = Engine::new();
    engine.handle_command("newgame Base");
    let moves = [
        "bB1", "wS1 -bB1", "bQ1 bB1/", "wQ1 -wS1", "bG1 bQ1\\", "wA1 \\wS1",
        "bS1 bG1/", "wA1 \\bB1", "bA1 \\bS1", "wA2 \\wS1", "bA2 bS1\\",
    ];
    engine.handle_command("newgame Base;NotStarted;Black[1]");
    let mut last = String::new();
    for m in moves.iter() {
        last = engine.handle_command(&format!("play {}", m));
        assert!(!last.starts_with("err"), "{} gave {}", m, last);
    }
    last = engine.handle_command("play wA2 \\bQ1");
    assert!(last.starts_with("Base;WhiteWins;"), "{}", last);
    assert!(engine.handle_command("play bB1 bB1/").starts_with("err"));
}

#[test]
fn empty_output_is_ok() {
    assert_eq!(Output::empty().to_text(), "ok");
    assert_eq!(Output { text: Some("x".to_string()) }.to_text(), "x\nok");
}
