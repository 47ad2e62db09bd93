use reversi_rs::engine::{move_reply, Engine, EngineAction};
use reversi_rs::game::{GameState, PlayerColor};
use reversi_rs::nboard::MsgFromGui;
use reversi_rs::reversi::{BoardPosition, ReversiPlayerAction, ReversiState};

const RECORD: &str = r"(;GM[Othello]PC[NBoard]DT[2019-09-29 03:22:14 GMT]PB[Andy]PW[rustrs]RE[?]TI[5:00]TY[8]BO[8 ---------------------------O*------*O--------------------------- *]B[C4//5.558]W[C3]B[F5//26.906];)";

fn placed(col: usize, row: usize) -> ReversiPlayerAction {
    ReversiPlayerAction::Move { position: BoardPosition::new(col, row) }
}

#[test]
fn engine_answers_ping_with_pong() {
    let mut engine = Engine::new();
    match engine.on_message(MsgFromGui::Ping(17)) {
        EngineAction::Send(line) => assert_eq!(line, "pong 17"),
        _ => panic!("expected a reply"),
    }
    assert_eq!(engine.move_count, 0);
}

#[test]
fn engine_makes_and_counts_a_move() {
    let mut engine = Engine::new();
    let msg = MsgFromGui::Move("C4".to_string());
    assert!(engine.accepts(&msg));
    let mut expected = ReversiState::initial_state();
    GameState::apply_move(&mut expected, placed(2, 4));
    match engine.on_message(msg) {
        EngineAction::Applied(records) => {
            assert_eq!(records.len(), 1);
            assert_eq!(records[0].0, PlayerColor::Black);
            assert_eq!(records[0].1, placed(2, 4));
            assert_eq!(records[0].2.human_friendly(), expected.human_friendly());
        }
        _ => panic!("expected the move to be applied"),
    }
    assert_eq!(engine.move_count, 1);
    assert_eq!(engine.state.human_friendly(), expected.human_friendly());
    assert_eq!(engine.state.current_player_turn(), PlayerColor::White);
}

#[test]
fn engine_refuses_unreadable_or_occupied_moves() {
    let engine = Engine::new();
    assert!(!engine.accepts(&MsgFromGui::Move("Z9".to_string())));
    assert!(!engine.accepts(&MsgFromGui::Move("x".to_string())));
    // D4 holds a piece from the start.
    assert!(!engine.accepts(&MsgFromGui::Move("D4".to_string())));
}

#[test]
fn engine_applies_only_the_new_moves_of_a_game_record() {
    let mut engine = Engine::new();
    let first = MsgFromGui::Move("C4".to_string());
    engine.on_message(first);
    let msg = MsgFromGui::SetGame(RECORD.to_string());
    assert!(engine.accepts(&msg));
    match engine.on_message(msg) {
        EngineAction::Applied(records) => {
            assert_eq!(records.len(), 2);
            assert_eq!((records[0].0, records[0].1), (PlayerColor::White, placed(2, 5)));
            assert_eq!((records[1].0, records[1].1), (PlayerColor::Black, placed(5, 3)));
        }
        _ => panic!("expected the moves to be applied"),
    }
    assert_eq!(engine.move_count, 3);

    let mut expected = ReversiState::initial_state();
    for m in [placed(2, 4), placed(2, 5), placed(5, 3)] {
        GameState::apply_move(&mut expected, m);
    }
    assert_eq!(engine.state.human_friendly(), expected.human_friendly());
}

#[test]
fn engine_refuses_a_record_shorter_than_what_it_applied() {
    let mut engine = Engine::new();
    for m in ["C4", "C3", "F5", "F4"] {
        engine.on_message(MsgFromGui::Move(m.to_string()));
    }
    assert_eq!(engine.move_count, 4);
    assert!(!engine.accepts(&MsgFromGui::SetGame(RECORD.to_string())));
}

#[test]
fn engine_asks_for_a_move_on_go_and_ignores_the_rest() {
    let mut engine = Engine::new();
    match engine.on_message(MsgFromGui::Go) {
        EngineAction::Pick(color) => assert_eq!(color, PlayerColor::Black),
        _ => panic!("expected a request for a move"),
    }
    match engine.on_message(MsgFromGui::SetDepth(3)) {
        EngineAction::Wait => {}
        _ => panic!("expected nothing to do"),
    }
    assert_eq!(engine.move_count, 0);
}

#[test]
fn move_reply_names_the_move_for_nboard() {
    assert_eq!(move_reply(placed(2, 4)), "=== c4");
    assert_eq!(move_reply(ReversiPlayerAction::PassTurn), "=== ");
}
