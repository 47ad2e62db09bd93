use reversi_rs::connect_four::{ConnectFourAction, ConnectFourPiece, ConnectFourState};
use reversi_rs::game::GameResult;
use reversi_rs::game::{GameState, PlayerColor};

#[test]
fn new_connect_four_board_is_empty_with_black_to_play() {
    let state = ConnectFourState::new();
    for col in 0..7 {
        assert_eq!(state.col_height(col), 0);
        for height in 0..6 {
            assert_eq!(state.piece_at(col, height), ConnectFourPiece::Empty);
        }
    }
    assert_eq!(state.current_player_turn(), PlayerColor::Black);
}

#[test]
fn dropped_piece_lands_on_top_of_its_column_only() {
    let mut state = ConnectFourState::initial_state();
    state.drop_piece(3, ConnectFourPiece::Black);
    let before = state.clone_state();
    state.drop_piece(3, ConnectFourPiece::Red);

    assert_eq!(state.piece_at(3, 1), ConnectFourPiece::Red);
    assert_eq!(state.col_height(3), 2);
    for col in 0..7 {
        if col != 3 {
            assert_eq!(state.col_height(col), before.col_height(col));
        }
        for height in 0..6 {
            if (col, height) != (3, 1) {
                assert_eq!(state.piece_at(col, height), before.piece_at(col, height));
            }
        }
    }
    assert_eq!(state.current_player_turn(), before.current_player_turn());
    assert_eq!(state.legal_moves(PlayerColor::Black).len(), 7);
}

#[test]
fn fresh_board_has_no_result() {
    let state = ConnectFourState::new();
    assert_eq!(state.game_result(), None);
    assert!(!state.is_game_over());
}

#[test]
fn filling_the_gap_of_a_bottom_row_wins_for_black() {
    let mut state = ConnectFourState::new();
    state.drop_piece(0, ConnectFourPiece::Black);
    state.drop_piece(1, ConnectFourPiece::Black);
    state.drop_piece(3, ConnectFourPiece::Black);
    assert_eq!(state.game_result(), None);
    assert!(!state.is_pos_four_in_a_row(3, 0));

    state.drop_piece(2, ConnectFourPiece::Black);
    assert!(state.is_pos_four_in_a_row(2, 0));
    assert!(state.is_pos_four_in_a_row(0, 0));
    assert_eq!(state.game_result(), Some(GameResult::BlackWins));
    assert!(state.is_game_over());
}

#[test]
fn four_red_pieces_in_a_column_win_for_white() {
    let mut state = ConnectFourState::new();
    for _ in 0..4 {
        state.drop_piece(6, ConnectFourPiece::Red);
    }
    assert_eq!(state.col_height(6), 4);
    assert_eq!(state.game_result(), Some(GameResult::WhiteWins));
}

#[test]
fn full_column_leaves_the_legal_moves() {
    let mut state = ConnectFourState::initial_state();
    for i in 0..6 {
        let piece = if i % 2 == 0 { ConnectFourPiece::Black } else { ConnectFourPiece::Red };
        state.drop_piece(4, piece);
    }
    assert!(state.is_col_full(4));
    let cols: Vec<usize> = state.legal_moves(PlayerColor::White).iter().map(|a| a.col).collect();
    assert_eq!(cols, vec![0, 1, 2, 3, 5, 6]);
    assert_eq!(state.game_result(), None);
}

#[test]
fn connect_four_action_reads_a_trimmed_column() {
    let a: ConnectFourAction = " 4 \n".parse().unwrap();
    assert_eq!(a.col, 4);
    let b: ConnectFourAction = "+2".parse().unwrap();
    assert_eq!(b.col, 2);
    assert!("x".parse::<ConnectFourAction>().is_err());
    assert!("".parse::<ConnectFourAction>().is_err());
    assert!("-1".parse::<ConnectFourAction>().is_err());
    assert!("1 2".parse::<ConnectFourAction>().is_err());
}
