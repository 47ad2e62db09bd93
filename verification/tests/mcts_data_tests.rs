use reversi_rs::mcts_data::{Data, MctsData, MctsResult};
use reversi_rs::amcts_data::AMctsData;
use reversi_rs::game::{GameResult, GameState};
use reversi_rs::tic_tac_toe::{BoardPosition, TicTacToeAction, TicTacToeState};

#[test]
fn mcts_data_is_saturated_expects_false_on_default_node() {
    let data = <MctsData<TicTacToeState> as Data<TicTacToeState>>::new(&TicTacToeState::new(), 0, 0, None);
    assert!(
        !data.is_saturated(),
        "By default, a node should not be considered saturated."
    );
}

#[test]
fn mcts_data_is_saturated_expects_true_for_expanded_childless_node() {
    let mut data = <MctsData<TicTacToeState> as Data<TicTacToeState>>::new(&TicTacToeState::new(), 0, 0, None);
    data.mark_expanded();

    assert!(
        data.is_saturated(),
        "An expanded node with no children should be considered saturated."
    );
}

#[test]
fn mcts_data_is_saturated_expects_false_for_expanded_node_with_children() {
    let mut data = <MctsData<TicTacToeState> as Data<TicTacToeState>>::new(&TicTacToeState::new(), 0, 0, None);
    data.mark_expanded();
    data.set_children_count(7);

    assert!(
        !data.is_saturated(),
        "An expanded node with children (that have not backprop'd their expansion status or are unexpanded) should be considered unsaturated."
    );
}

#[test]
fn mcts_data_is_saturated_expects_true_after_incrementing_saturation_count_fully() {
    let mut data = <MctsData<TicTacToeState> as Data<TicTacToeState>>::new(&TicTacToeState::new(), 0, 0, None);
    data.mark_expanded();

    // we mark the data as having 7 children
    data.set_children_count(7);

    // and then "increment saturation count" 7 times
    (0..7).for_each(|_| data.increment_saturated_children_count());

    assert!(
        data.is_saturated(),
        "An expanded node with a child count of 7 and a saturated-child count of 7 must therefore be considered saturated."
    );
}

#[test]
fn mcts_data_is_saturated_expects_false_after_incrementing_saturation_count_partially() {
    let mut data = <MctsData<TicTacToeState> as Data<TicTacToeState>>::new(&TicTacToeState::new(), 0, 0, None);
    data.mark_expanded();

    data.set_children_count(7);

    (0..6).for_each(|_| data.increment_saturated_children_count());

    assert!(
        !data.is_saturated(),
        "A node with 7 children, but only 6 saturated children, should not be considered saturated."
    );
}

#[test]
fn amonte_carlo_data_is_saturated_expects_false_on_default_node() {
    let data = AMctsData::new(TicTacToeState::new(), 0, 0, None);
    assert!(
        !data.is_saturated(),
        "By default, a node should not be considered saturated."
    );
}

#[test]
fn amonte_carlo_data_is_saturated_expects_true_for_expanded_childless_node() {
    let mut data = AMctsData::new(TicTacToeState::new(), 0, 0, None);
    data.mark_expanded();

    assert!(
        data.is_saturated(),
        "An expanded node with no children should be considered saturated."
    );
}

#[test]
fn amonte_carlo_data_is_saturated_expects_false_for_expanded_node_with_children() {
    let mut data = AMctsData::new(TicTacToeState::new(), 0, 0, None);
    data.mark_expanded();
    data.set_children_count(7);

    assert!(
        !data.is_saturated(),
        "An expanded node with children (that have not backprop'd their expansion status or are unexpanded) should be considered unsaturated."
    );
}

#[test]
fn amonte_carlo_data_is_saturated_expects_true_after_incrementing_saturation_count_fully() {
    let mut data = AMctsData::new(TicTacToeState::new(), 0, 0, None);
    data.mark_expanded();

    // we mark the data as having 7 children
    data.set_children_count(7);

    // and then "increment saturation count" 7 times
    (0..7).for_each(|_| data.increment_saturated_children_count());

    assert!(
        data.is_saturated(),
        "An expanded node with a child count of 7 and a saturated-child count of 7 must therefore be considered saturated."
    );
}

#[test]
fn amonte_carlo_data_is_saturated_expects_false_after_incrementing_saturation_count_partially() {
    let mut data = AMctsData::new(TicTacToeState::new(), 0, 0, None);
    data.mark_expanded();

    data.set_children_count(7);

    (0..6).for_each(|_| data.increment_saturated_children_count());

    assert!(
        !data.is_saturated(),
        "A node with 7 children, but only 6 saturated children, should not be considered saturated."
    );
}

#[test]
fn monte_carlo_data_is_saturated_expects_false_on_default_node() {
    let data = MctsData::new(TicTacToeState::new(), 0, 0, None);
    assert!(
        !data.is_saturated(),
        "By default, a node should not be considered saturated."
    );
}

#[test]
fn monte_carlo_data_is_saturated_expects_true_for_expanded_childless_node() {
    let mut data = MctsData::new(TicTacToeState::new(), 0, 0, None);
    data.mark_expanded();

    assert!(
        data.is_saturated(),
        "An expanded node with no children should be considered saturated."
    );
}

#[test]
fn monte_carlo_data_is_saturated_expects_false_for_expanded_node_with_children() {
    let mut data = MctsData::new(TicTacToeState::new(), 0, 0, None);
    data.mark_expanded();
    data.set_children_count(7);

    assert!(
        !data.is_saturated(),
        "An expanded node with children (that have not backprop'd their expansion status or are unexpanded) should be considered unsaturated."
    );
}

#[test]
fn monte_carlo_data_is_saturated_expects_true_after_incrementing_saturation_count_fully() {
    let mut data = MctsData::new(TicTacToeState::new(), 0, 0, None);
    data.mark_expanded();

    // we mark the data as having 7 children
    data.set_children_count(7);

    // and then "increment saturation count" 7 times
    (0..7).for_each(|_| data.increment_saturated_children_count());

    assert!(
        data.is_saturated(),
        "An expanded node with a child count of 7 and a saturated-child count of 7 must therefore be considered saturated."
    );
}

#[test]
fn monte_carlo_data_is_saturated_expects_false_after_incrementing_saturation_count_partially() {
    let mut data = MctsData::new(TicTacToeState::new(), 0, 0, None);
    data.mark_expanded();

    data.set_children_count(7);

    (0..6).for_each(|_| data.increment_saturated_children_count());

    assert!(
        !data.is_saturated(),
        "A node with 7 children, but only 6 saturated children, should not be considered saturated."
    );
}

#[test]
fn mcts_data_counts_plays_wins_and_results() {
    let mut data = MctsData::new(TicTacToeState::new(), 2, 1, None);
    assert_eq!(data.wins_plays(), (1, 2));
    data.increment_plays();
    data.increment_wins();
    assert_eq!((data.wins(), data.plays()), (2, 3));
    data.increment_terminal_count(true);
    data.increment_terminal_count(false);
    assert_eq!(data.terminal_count(), 2);
    assert_eq!(data.terminal_wins_count(), 1);
    data.increment_tree_size(9);
    data.increment_descendants_saturated_count(4);
    assert_eq!(data.tree_size(), 9);
    assert_eq!(data.descendants_saturated_count(), 4);
    assert_eq!(data.end_state_result(), None);
    data.set_end_state_result(GameResult::Tie);
    assert_eq!(data.end_state_result(), Some(GameResult::Tie));
    assert_eq!(data.action(), None);
}

#[test]
fn mcts_data_worst_case_keeps_the_lowest_ratio() {
    let mut data = MctsData::new(TicTacToeState::new(), 0, 0, None);
    assert_eq!(data.worst_case_wins_plays(), (0, 0));
    // A ratio with no plays is ignored.
    data.update_worst_case(3, 0);
    assert_eq!(data.worst_case_wins_plays(), (0, 0));
    // The first ratio is taken.
    data.update_worst_case(2, 4);
    assert_eq!(data.worst_case_wins_plays(), (2, 4));
    // A better ratio is not.
    data.update_worst_case(3, 4);
    assert_eq!(data.worst_case_wins_plays(), (2, 4));
    // An equal ratio is not.
    data.update_worst_case(1, 2);
    assert_eq!(data.worst_case_wins_plays(), (2, 4));
    // A worse one is.
    data.update_worst_case(1, 3);
    assert_eq!(data.worst_case_wins_plays(), (1, 3));
}

#[test]
fn amonte_carlo_data_new_keeps_the_counts_given() {
    let data = AMctsData::new(TicTacToeState::initial_state(), 10, 10, None);
    assert_eq!(data.plays(), 10);
    assert_eq!(data.wins(), 10);
    assert!(data.action().is_none());
    assert!(!data.is_expanded());
    assert_eq!(data.children_count(), 0);
    assert!(data.end_state_result().is_none());
}

#[test]
fn mcts_result_summarizes_data() {
    let action = TicTacToeAction(BoardPosition::new(1, 1));
    let mut data = MctsData::new(TicTacToeState::initial_state(), 4, 3, Some(action));
    data.mark_expanded();
    data.increment_tree_size(2);
    let result = MctsResult::from_data(&data);
    assert_eq!(result.plays, 4);
    assert_eq!(result.wins, 3);
    assert!(result.action == action);
    assert!(result.is_saturated);
    assert_eq!(result.tree_size, 2);
    assert_eq!(result.result, None);
    let copy = data.copy_data();
    assert_eq!(copy.wins_plays(), (3, 4));
    assert!(copy.state().legal_moves(copy.state().current_player_turn()).len() == 9);
}

#[test]
fn only_mark_expanded_and_set_end_state_result_change_the_outcome() {
    let mut data = MctsData::new(TicTacToeState::initial_state(), 0, 0, None);
    assert!(!data.is_expanded());
    assert!(data.end_state_result().is_none());
    data.increment_plays();
    data.increment_wins();
    data.increment_tree_size(3);
    data.set_children_count(2);
    data.update_worst_case(1, 2);
    assert!(!data.is_expanded());
    assert!(data.end_state_result().is_none());
    data.mark_expanded();
    data.increment_terminal_count(true);
    assert!(data.is_expanded());
    assert!(data.end_state_result().is_none());
    data.set_end_state_result(GameResult::Tie);
    data.increment_descendants_saturated_count(1);
    assert!(data.is_expanded());
    assert_eq!(data.end_state_result(), Some(GameResult::Tie));
}

#[test]
fn the_last_end_state_result_given_stays() {
    let mut data = MctsData::new(TicTacToeState::initial_state(), 0, 0, None);
    data.set_end_state_result(GameResult::BlackWins);
    data.increment_plays();
    data.mark_expanded();
    assert_eq!(data.end_state_result(), Some(GameResult::BlackWins));
    data.set_end_state_result(GameResult::WhiteWins);
    data.increment_terminal_count(false);
    data.update_worst_case(0, 1);
    assert_eq!(data.end_state_result(), Some(GameResult::WhiteWins));
    assert!(data.is_expanded());
}

#[test]
fn amcts_saturated_children_count_up_to_the_children_count() {
    let mut data = AMctsData::new(TicTacToeState::initial_state(), 0, 0, None);
    data.mark_expanded();
    data.set_children_count(2);
    data.increment_saturated_children_count();
    assert_eq!(data.children_saturated_count(), 1);
    assert!(!data.is_saturated());
    data.increment_saturated_children_count();
    assert_eq!(data.children_saturated_count(), 2);
    assert!(data.is_saturated());
}
