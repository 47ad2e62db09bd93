use reversi_rs::connect_four::ConnectFourState;
use reversi_rs::game::{result_from_scores, GameResult, GameState, PlayerColor};
use reversi_rs::games::TicTacToe;
use reversi_rs::runner::{Game, GameAgent, GameRunner, GeneralGameRunner, RandomAgent};
use reversi_rs::tic_tac_toe::{BoardPosition, TicTacToeAction, TicTacToeState};

#[test]
fn is_win_for_player_expects_valid_result() {
    let tie = GameResult::Tie;
    assert!(!tie.is_win_for_player(PlayerColor::White));
    assert!(!tie.is_win_for_player(PlayerColor::Black));

    let black_wins = GameResult::BlackWins;
    assert!(!black_wins.is_win_for_player(PlayerColor::White));
    assert!(black_wins.is_win_for_player(PlayerColor::Black));

    let white_wins = GameResult::WhiteWins;
    assert!(white_wins.is_win_for_player(PlayerColor::White));
    assert!(!white_wins.is_win_for_player(PlayerColor::Black));
}

#[test]
fn opponent_swaps_colors_and_undoes_itself() {
    assert_eq!(PlayerColor::Black.opponent(), PlayerColor::White);
    assert_eq!(PlayerColor::White.opponent(), PlayerColor::Black);
    assert_eq!(PlayerColor::Black.opponent().opponent(), PlayerColor::Black);
}

#[test]
fn result_from_scores_compares_scores() {
    assert_eq!(result_from_scores(false, 3, 1), None);
    assert_eq!(result_from_scores(true, 3, 1), Some(GameResult::WhiteWins));
    assert_eq!(result_from_scores(true, 1, 3), Some(GameResult::BlackWins));
    assert_eq!(result_from_scores(true, 2, 2), Some(GameResult::Tie));
}

#[test]
fn random_agents_play_every_game_to_its_end() {
    let black = RandomAgent::new(PlayerColor::Black);
    let white = RandomAgent::new(PlayerColor::White);
    assert_eq!(GameAgent::<TicTacToeState>::player_color(&black), PlayerColor::Black);
    assert_eq!(GameAgent::<TicTacToeState>::player_color(&white), PlayerColor::White);

    for _ in 0..20 {
        assert!(<GeneralGameRunner as GameRunner<TicTacToeState>>::play_to_end(&black, &white).is_some());
        assert!(<GeneralGameRunner as GameRunner<ConnectFourState>>::play_to_end(&black, &white).is_some());
    }
}

#[test]
fn tic_tac_toe_game_between_random_agents_ends_over() {
    let mut game = TicTacToe::new(RandomAgent::new(PlayerColor::White), RandomAgent::new(PlayerColor::Black));
    assert_eq!(game.white_agent().player_color, PlayerColor::White);
    assert_eq!(game.black_agent().player_color, PlayerColor::Black);
    let result = game.play_to_end();
    assert!(result.is_some());
    assert!(game.game_state().is_game_over());
    assert_eq!(game.game_result(), result);
}

/// Always answers the first move offered.
struct FirstMoveAgent(PlayerColor);

impl GameAgent<TicTacToeState> for FirstMoveAgent {
    fn pick_move(&self, _state: &TicTacToeState, legal_moves: &[TicTacToeAction]) -> TicTacToeAction {
        legal_moves[0]
    }

    fn player_color(&self) -> PlayerColor {
        self.0
    }
}

/// Always answers a move off the board.
struct OffBoardAgent(PlayerColor);

impl GameAgent<TicTacToeState> for OffBoardAgent {
    fn pick_move(&self, _state: &TicTacToeState, _legal_moves: &[TicTacToeAction]) -> TicTacToeAction {
        TicTacToeAction(BoardPosition::new(5, 5))
    }

    fn player_color(&self) -> PlayerColor {
        self.0
    }
}

#[test]
fn a_turn_plays_the_move_the_agent_picked() {
    let mut game = TicTacToe::new(FirstMoveAgent(PlayerColor::White), FirstMoveAgent(PlayerColor::Black));
    let start = game.game_state().clone_state();
    let first = start.legal_moves(PlayerColor::Black)[0];
    assert!(game.player_take_turn(PlayerColor::Black));
    assert_eq!(game.game_state().human_friendly(), start.next_state(first).human_friendly());
}

#[test]
fn an_illegal_pick_stops_the_game() {
    let black = OffBoardAgent(PlayerColor::Black);
    let white = FirstMoveAgent(PlayerColor::White);
    assert!(<GeneralGameRunner as GameRunner<TicTacToeState>>::play_to_end(&black, &white).is_none());

    let mut game = TicTacToe::new(FirstMoveAgent(PlayerColor::White), OffBoardAgent(PlayerColor::Black));
    let start = game.game_state().human_friendly();
    assert!(!game.player_take_turn(PlayerColor::Black));
    assert_eq!(game.game_state().human_friendly(), start);
}
