use reversi_rs::nboard::{
    get_move_from_GGF, nboard_action_to_reversi_action, parse_game_history, parse_msg, MsgFromGui, NBoardAction,
    NboardError,
};
use reversi_rs::reversi::{BoardPosition, ReversiPlayerAction};
use reversi_rs::action_text::parse_reversi_action;
use std::str::FromStr;

#[test]
fn parse_game_history_finds_one_move() {
    let ggf_string = r"(;GM[Othello]PC[NBoard]DT[2019-09-25 06:42:54 GMT]PB[Andy]PW[]RE[?]TI[5:00]TY[8]BO[8 ---------------------------O*------*O--------------------------- *]B[D3//2.991];)";

    let parsed_move = parse_game_history(ggf_string).iter().last().unwrap().clone();

    match parsed_move {
        ReversiPlayerAction::Move { position } => assert_eq!(position, BoardPosition::new(3, 5)),
        _ => panic!("Expected to find a board position."),
    }
}

#[test]
fn parse_game_history_finds_all_moves() {
    let ggf_string = r"(;GM[Othello]PC[NBoard]DT[2019-09-29 03:22:14 GMT]PB[Andy]PW[rustrs]RE[?]TI[5:00]TY[8]BO[8 ---------------------------O*------*O--------------------------- *]B[C4//5.558]W[C3]B[F5//26.906];)";

    let history = parse_game_history(ggf_string);

    match history[0] {
        ReversiPlayerAction::Move { position } => assert_eq!(position, BoardPosition::new(2, 4)),
        _ => panic!("Expected to find a board position."),
    }

    match history[1] {
        ReversiPlayerAction::Move { position } => assert_eq!(position, BoardPosition::new(2, 5)),
        _ => panic!("Expected to find a board position."),
    }

    match history[2] {
        ReversiPlayerAction::Move { position } => assert_eq!(position, BoardPosition::new(5, 3)),
        _ => panic!("Expected to find a board position."),
    }

    assert_eq!(3, history.len());
}

#[test]
fn nboard_action_from_reversi_action() {
    let bottom_left_position = ReversiPlayerAction::Move { position: BoardPosition::new(0, 0) };

    let nboard_bot_left = NBoardAction::from_reversi_action(bottom_left_position);
    assert_eq!(nboard_bot_left.0, "a8".to_owned());

    let top_right_position = ReversiPlayerAction::Move { position: BoardPosition::new(7, 7) };

    let nboard_top_right = NBoardAction::from_reversi_action(top_right_position);
    assert_eq!(nboard_top_right.0, "h1".to_owned());

    let one_one = ReversiPlayerAction::Move { position: BoardPosition::new(1, 1) };

    let nboard_one_one = NBoardAction::from_reversi_action(one_one);
    assert_eq!(nboard_one_one.0, "b7".to_owned());
}

#[test]
#[allow(non_snake_case)]
fn get_move_from_GGF_finds_move() {
    let ggf_string = r"(;GM[Othello]PC[NBoard]DT[2019-09-25 06:42:54 GMT]PB[Andy]PW[]RE[?]TI[5:00]TY[8]BO[8 ---------------------------O*------*O--------------------------- *]B[D3//2.991];)";

    let parsed_move = get_move_from_GGF(ggf_string);

    assert_eq!("D3", parsed_move, "Expected to parse out the move value from the GGF string.");
}

#[test]
fn nboard_pass_is_empty_and_moves_read_back() {
    assert_eq!(NBoardAction::from_reversi_action(ReversiPlayerAction::PassTurn).0, "");
    let read = nboard_action_to_reversi_action(&NBoardAction("C4".to_string()));
    assert_eq!(read, ReversiPlayerAction::Move { position: BoardPosition::new(2, 4) });
    let read = nboard_action_to_reversi_action(&NBoardAction("H1".to_string()));
    assert_eq!(read, ReversiPlayerAction::Move { position: BoardPosition::new(7, 7) });
}

#[test]
fn parse_game_history_of_record_without_moves_is_empty() {
    assert_eq!(parse_game_history("(;GM[Othello]PB[a]PW[b];)").len(), 0);
}

#[test]
fn parse_msg_reads_known_messages() {
    match parse_msg("nboard 2\n") {
        Ok(MsgFromGui::NBoard(v)) => assert_eq!(v, 2),
        other => panic!("unexpected {:?}", other),
    }
    match parse_msg("set depth 12") {
        Ok(MsgFromGui::SetDepth(d)) => assert_eq!(d, 12),
        other => panic!("unexpected {:?}", other),
    }
    match parse_msg("set game (;GM[Othello]   a  b c d") {
        Ok(MsgFromGui::SetGame(g)) => assert_eq!(g, "(;GM[Othello] a b c d"),
        other => panic!("unexpected {:?}", other),
    }
    match parse_msg("move  C4/1.2 ") {
        Ok(MsgFromGui::Move(m)) => assert_eq!(m, "C4/1.2"),
        other => panic!("unexpected {:?}", other),
    }
    match parse_msg("ping 7") {
        Ok(MsgFromGui::Ping(p)) => assert_eq!(p, 7),
        other => panic!("unexpected {:?}", other),
    }
    assert!(matches!(parse_msg("go"), Ok(MsgFromGui::Go)));
    assert!(matches!(parse_msg("hint 3"), Err(_)));
    assert!(matches!(parse_msg("hint"), Ok(MsgFromGui::Hint(0))));
    assert!(matches!(parse_msg("set contempt"), Ok(MsgFromGui::SetContempt(0))));
    assert!(matches!(parse_msg("learn"), Ok(MsgFromGui::Learn)));
    assert!(matches!(parse_msg("analyze"), Ok(MsgFromGui::Analyze)));
}

#[test]
fn parse_msg_refuses_unknown_messages() {
    match parse_msg("hello there") {
        Err(e) => assert_eq!(e.text(), "testing"),
        Ok(m) => panic!("unexpected {:?}", m),
    }
    match parse_msg("") {
        Err(e) => assert_eq!(e.text(), "testing"),
        Ok(m) => panic!("unexpected {:?}", m),
    }
}

#[test]
fn nboard_errors_hold_their_message() {
    assert_eq!(NboardError::err2("bad").text(), "bad");
    let r: Result<u8, NboardError> = NboardError::err("worse");
    assert_eq!(r.unwrap_err().text(), "worse");
}

#[test]
fn reversi_action_reads_pass_and_positions() {
    assert_eq!(parse_reversi_action("pass"), Ok(ReversiPlayerAction::PassTurn));
    assert_eq!(parse_reversi_action("PaSs"), Ok(ReversiPlayerAction::PassTurn));
    assert_eq!(
        ReversiPlayerAction::from_str(" 3 , 5\n"),
        Ok(ReversiPlayerAction::Move { position: BoardPosition::new(3, 5) })
    );
    assert_eq!(
        parse_reversi_action("8,7"),
        Ok(ReversiPlayerAction::Move { position: BoardPosition::new(8, 7) })
    );
    assert_eq!(parse_reversi_action("+2,0"), Ok(ReversiPlayerAction::Move { position: BoardPosition::new(2, 0) }));
}

#[test]
fn reversi_action_refuses_bad_text() {
    assert_eq!(parse_reversi_action("9,1"), Err(9));
    assert_eq!(parse_reversi_action("1,8"), Err(9));
    assert_eq!(parse_reversi_action("1,2,3"), Err(9));
    assert_eq!(parse_reversi_action("1"), Err(9));
    assert_eq!(parse_reversi_action("a,b"), Err(9));
    assert_eq!(parse_reversi_action("-1,2"), Err(9));
    assert_eq!(parse_reversi_action("passe"), Err(9));
    assert_eq!(parse_reversi_action("99999999999999999999999,1"), Err(9));
}
