use reversi_rs::game::{GameResult, GameState, PlayerColor};
use reversi_rs::tic_tac_toe::{BoardPosition, TicTacToeAction, TicTacToePiece, TicTacToeState};

#[test]
fn lib_it_works() {
    assert_eq!(2 + 2, 4);
}

#[test]
fn winning_player_has_higher_score() {
    let mut state = TicTacToeState::initial_state();

    // Start with black's turn
    assert_eq!(state.current_player_turn(), PlayerColor::Black);

    // X__
    // ___
    // ___
    state.apply_move(TicTacToeAction(BoardPosition::new(0, 2)));

    assert_eq!(state.current_player_turn(), PlayerColor::White);

    // X__
    // ___
    // __O
    state.apply_move(TicTacToeAction(BoardPosition::new(2, 0)));

    assert_eq!(state.current_player_turn(), PlayerColor::Black);

    // X_X
    // ___
    // __O
    state.apply_move(TicTacToeAction(BoardPosition::new(2, 2)));

    assert_eq!(state.current_player_turn(), PlayerColor::White);

    // X_X
    // _O_
    // __O
    state.apply_move(TicTacToeAction(BoardPosition::new(1, 1)));

    let white_score = state.player_score(PlayerColor::White);
    let black_score = state.player_score(PlayerColor::Black);

    assert_eq!(white_score, black_score, "No winner yet, so scores should be equal.");

    // XXX
    // _O_
    // __O
    state.apply_move(TicTacToeAction(BoardPosition::new(1, 2)));

    let white_score = state.player_score(PlayerColor::White);
    let black_score = state.player_score(PlayerColor::Black);

    assert!(black_score > white_score, "Black has won, so it should have the higher score.");
}

#[test]
fn tic_tac_toe_top_row_wins_for_black() {
    let mut state = TicTacToeState::initial_state();
    state.apply_move(TicTacToeAction(BoardPosition::new(0, 2)));
    state.apply_move(TicTacToeAction(BoardPosition::new(2, 0)));
    state.apply_move(TicTacToeAction(BoardPosition::new(2, 2)));
    state.apply_move(TicTacToeAction(BoardPosition::new(1, 1)));
    assert!(!state.is_game_over());
    assert_eq!(state.get_winner(), None);
    state.apply_move(TicTacToeAction(BoardPosition::new(1, 2)));
    assert_eq!(state.get_winner(), Some(PlayerColor::Black));
    assert!(state.is_game_over());
    assert_eq!(state.game_result(), Some(GameResult::BlackWins));
}

#[test]
fn tic_tac_toe_initial_state_offers_every_cell() {
    let state = TicTacToeState::initial_state();
    let moves = state.legal_moves(PlayerColor::Black);
    assert_eq!(moves.len(), 9);
    assert_eq!(state.game_result(), None);
}

#[test]
fn tic_tac_toe_pieces_have_colors() {
    assert_eq!(TicTacToePiece::X.player_color(), PlayerColor::Black);
    assert_eq!(TicTacToePiece::O.player_color(), PlayerColor::White);
}
