use rand::rngs::SmallRng;
use rand::SeedableRng;
use reversi_rs::game::{GameResult, GameState, PlayerColor};
use reversi_rs::mcts_data::MctsData;
use reversi_rs::ranking::rank_results;
use reversi_rs::report::{best_result_index, pretty_ratio_bar_text, should_stop};
use reversi_rs::search::{
    backprop_increment_tree_size, backprop_saturation, backprop_sim_result, backprop_terminal_count, expand,
    play_out, simulate, traversal_candidates, SearchTree,
};
use reversi_rs::step::mcts_step;
use reversi_rs::tic_tac_toe::{BoardPosition, TicTacToeAction, TicTacToeState};
use reversi_rs::tree::{Tree, ROOT};

fn test_rng() -> SmallRng {
    SmallRng::from_seed([0; 16])
}

fn make_test_data() -> MctsData<TicTacToeState> {
    MctsData::new(TicTacToeState::initial_state(), 0, 0, None)
}

fn act(col: usize, row: usize) -> TicTacToeAction {
    TicTacToeAction(BoardPosition::new(col, row))
}

/// A board with one empty cell left:
/// OXX
/// OO_
/// XOX
fn one_move_left() -> TicTacToeState {
    let mut state = TicTacToeState::initial_state();
    for (c, r) in [(0, 0), (1, 1), (2, 2), (0, 2), (2, 0), (0, 1), (1, 2), (1, 0)] {
        state.apply_move(act(c, r));
    }
    state
}

#[test]
fn tree_search_new_child_expects_add_child_to_parent() {
    let data = make_test_data();
    let mut tree_root = Tree::new_root(data.copy_data());

    let child = tree_root.new_child(ROOT, data.copy_data());

    assert_eq!(1, tree_root.children(ROOT).len());
    assert!(tree_root.parent(child).is_some());
    assert!(tree_root.parent(ROOT).is_none());
}

#[test]
fn tree_search_backprop_sim_results_when_black_wins_expects_update_plays_wins() {
    let mut tree_root = Tree::new_root(make_test_data());
    let is_win = true;

    backprop_sim_result(&mut tree_root, ROOT, is_win);

    let (wins, plays) = tree_root.data(ROOT).wins_plays();

    assert_eq!(1, plays);
    assert_eq!(1, wins);
}

#[test]
fn tree_search_backprop_sim_results_when_black_wins_expects_update_white_plays_not_wins() {
    let mut tree_root = Tree::new_root(make_test_data());
    let is_win = false;

    backprop_sim_result(&mut tree_root, ROOT, is_win);

    let (wins, plays) = tree_root.data(ROOT).wins_plays();

    assert_eq!(1, plays);
    assert_eq!(0, wins);
}

#[test]
fn tree_search_backprop_sim_results_expects_updates_to_root() {
    let data = make_test_data();

    let mut tree: SearchTree<TicTacToeState> = Tree::new_root(data.copy_data());
    let child_level_1 = tree.new_child(ROOT, data.copy_data());
    let child_level_2 = tree.new_child(child_level_1, data.copy_data());
    let child_level_3 = tree.new_child(child_level_2, data.copy_data());
    let child_level_4 = tree.new_child(child_level_3, data.copy_data());

    let is_win = true;
    backprop_sim_result(&mut tree, child_level_3, is_win);

    assert_eq!(1, tree.data(child_level_3).wins_plays().1);
    assert_eq!(1, tree.data(child_level_2).wins_plays().1);
    assert_eq!(1, tree.data(child_level_1).wins_plays().1);
    assert_eq!(1, tree.data(ROOT).wins_plays().1);

    assert_eq!(1, tree.data(child_level_3).wins_plays().0);
    assert_eq!(1, tree.data(child_level_2).wins_plays().0);
    assert_eq!(1, tree.data(child_level_1).wins_plays().0);
    assert_eq!(1, tree.data(ROOT).wins_plays().0);

    assert_eq!(0, tree.data(child_level_4).wins_plays().0);
}

#[test]
fn tree_search_expand_expects_creates_children() {
    let mut tree_root = Tree::new_root(make_test_data());

    expand(&mut tree_root, ROOT).unwrap();

    // The game used for testing is TicTacToe,
    // which has nine intitial legal children positions.
    assert_eq!(9, tree_root.children(ROOT).len());
}

#[test]
fn tree_search_expand_expects_adds_children_to_parent() {
    let mut tree_root = Tree::new_root(make_test_data());

    assert_eq!(0, tree_root.children(ROOT).len());

    expand(&mut tree_root, ROOT).unwrap();

    assert_eq!(9, tree_root.children(ROOT).len());
}

#[test]
fn tree_search_expand_expects_marks_node_expanded() {
    let mut tree_root = Tree::new_root(make_test_data());

    assert!(!tree_root.data(ROOT).is_expanded());

    expand(&mut tree_root, ROOT).unwrap();

    assert!(tree_root.data(ROOT).is_expanded());
}

#[test]
fn tree_search_expand_expects_updates_children_count() {
    let mut tree_root = Tree::new_root(make_test_data());

    assert_eq!(0, tree_root.data(ROOT).children_count());

    expand(&mut tree_root, ROOT).unwrap();

    assert_eq!(9, tree_root.data(ROOT).children_count());
}

#[test]
fn tree_search_backprop_saturation_expects_becomes_saturated_when_all_children_saturated() {
    let mut tree_root = Tree::new_root(MctsData::new(one_move_left(), 0, 0, None));

    expand(&mut tree_root, ROOT).unwrap();
    let children = tree_root.children(ROOT);

    assert!(
        !tree_root.data(ROOT).is_saturated(),
        "Every child is saturated, but not every child has had its saturation status backpropagated, so the root should not be considered saturated."
    );

    // backprop the one remaining child.
    expand(&mut tree_root, children[0]).unwrap();
    backprop_saturation(&mut tree_root, children[0]);

    assert!(
        tree_root.data(ROOT).is_saturated(),
        "Now that every child has had its saturation backpropagated, the parent should be considered saturated as well."
    );
}

#[test]
fn terminal_node_is_considered_saturated() {
    let mut tree_root = Tree::new_root(MctsData::new(one_move_left(), 0, 0, None));

    expand(&mut tree_root, ROOT).unwrap();
    let children = tree_root.children(ROOT);

    assert_eq!(1, children.len(), "Only one move left, so expect only 1 child.");
    assert!(
        !tree_root.data(children[0]).is_saturated(),
        "Not considered saturated, since we have not expanded yet (so we don't know for sure)"
    );

    expand(&mut tree_root, children[0]).unwrap();

    assert!(
        tree_root.data(children[0]).is_saturated(),
        "Now that we've expanded, we know it is saturated."
    );
}

#[test]
fn tree_search_simulate_runs_to_completion_and_terminates() {
    let mut initial_state = TicTacToeState::initial_state();
    initial_state.initialize_board();
    let tree_root = Tree::new_root(make_test_data());

    let _sim_result = simulate(&tree_root, ROOT, &mut test_rng());
}

#[test]
fn expand_twice_is_refused_and_changes_nothing() {
    let mut tree = Tree::new_root(make_test_data());
    expand(&mut tree, ROOT).unwrap();
    assert!(expand(&mut tree, ROOT).is_err());
    assert_eq!(tree.node_count(), 10);
    assert_eq!(tree.data(ROOT).tree_size(), 9);
}

#[test]
fn expand_of_finished_game_has_no_children_and_saturates() {
    let mut state = one_move_left();
    state.apply_move(act(2, 1));
    assert!(state.is_game_over());
    let mut tree = Tree::new_root(MctsData::new(state, 0, 0, None));
    expand(&mut tree, ROOT).unwrap();
    assert_eq!(tree.children(ROOT).len(), 0);
    assert!(tree.data(ROOT).is_saturated());
}

#[test]
fn play_out_of_finished_game_returns_its_result() {
    let mut state = TicTacToeState::initial_state();
    for (c, r) in [(0, 2), (2, 0), (1, 2), (1, 1), (2, 2)] {
        state.apply_move(act(c, r));
    }
    assert_eq!(play_out(&state, &mut test_rng()), GameResult::BlackWins);
}

#[test]
fn backprop_counts_reach_exactly_the_ancestors() {
    let mut tree = Tree::new_root(make_test_data());
    expand(&mut tree, ROOT).unwrap();
    let children = tree.children(ROOT);
    expand(&mut tree, children[0]).unwrap();
    let grandchildren = tree.children(children[0]);
    assert_eq!(grandchildren.len(), 8);
    assert_eq!(tree.data(ROOT).tree_size(), 17);
    assert_eq!(tree.data(children[0]).tree_size(), 8);

    backprop_terminal_count(&mut tree, grandchildren[3], true);
    assert_eq!(tree.data(grandchildren[3]).terminal_count(), 1);
    assert_eq!(tree.data(children[0]).terminal_wins_count(), 1);
    assert_eq!(tree.data(ROOT).terminal_count(), 1);
    assert_eq!(tree.data(children[1]).terminal_count(), 0);

    backprop_increment_tree_size(&mut tree, children[1], 3);
    assert_eq!(tree.data(ROOT).tree_size(), 20);
    assert_eq!(tree.data(children[0]).tree_size(), 8);
}

#[test]
fn traversal_candidates_skip_saturated_children() {
    let mut tree = Tree::new_root(MctsData::new(one_move_left(), 0, 0, None));
    expand(&mut tree, ROOT).unwrap();
    let children = tree.children(ROOT);
    assert_eq!(traversal_candidates(&tree, ROOT, true), children);
    expand(&mut tree, children[0]).unwrap();
    assert_eq!(traversal_candidates(&tree, ROOT, true).len(), 0);
    assert_eq!(traversal_candidates(&tree, ROOT, false), children);
}

/// Runs search steps, always descending into the first unsaturated child,
/// until the root is saturated.
fn search_to_saturation(tree: &mut SearchTree<TicTacToeState>, player: PlayerColor) -> usize {
    let mut rng = test_rng();
    let mut steps = 0;
    while !tree.data(ROOT).is_saturated() {
        let mut leaf = ROOT;
        loop {
            let candidates = traversal_candidates(tree, leaf, true);
            if candidates.is_empty() {
                break;
            }
            leaf = candidates[0];
        }
        mcts_step(tree, leaf, player, &mut rng);
        steps += 1;
        assert!(steps < 100_000);
    }
    steps
}

fn count_terminals(tree: &SearchTree<TicTacToeState>, node: usize) -> usize {
    let children = tree.children(node);
    if children.is_empty() {
        return 1;
    }
    children.iter().map(|&c| count_terminals(tree, c)).sum()
}

#[test]
fn search_saturates_root_and_counts_every_terminal_once() {
    let mut state = TicTacToeState::new();
    // __X
    // _O_
    // X__
    for (c, r) in [(0, 0), (1, 1), (2, 2)] {
        state.apply_move(act(c, r));
    }
    let mut tree = Tree::new_root(MctsData::new(state, 0, 0, None));
    search_to_saturation(&mut tree, PlayerColor::White);

    assert!(tree.data(ROOT).is_saturated());
    assert_eq!(count_terminals(&tree, ROOT), tree.data(ROOT).terminal_count());
    // Every node's count of saturated children is its number of children.
    for node in 0..tree.node_count() {
        if tree.data(node).is_expanded() {
            assert_eq!(tree.data(node).children_count(), tree.children(node).len());
        }
    }
    // A node's play count is the sum of its children's, plus at most one.
    for node in 0..tree.node_count() {
        let sum: usize = tree.children(node).iter().map(|&c| tree.data(c).plays()).sum();
        assert!(tree.data(node).plays() - sum <= 1);
    }
    // Every finished game has been played exactly once.
    for node in 0..tree.node_count() {
        if tree.children(node).is_empty() {
            assert_eq!(tree.data(node).plays(), 1);
        }
    }
}

#[test]
fn ranked_results_put_winning_moves_last() {
    let mut state = TicTacToeState::initial_state();
    // X_X
    // OO_
    // ___
    for (c, r) in [(0, 2), (0, 1), (2, 2), (1, 1)] {
        state.apply_move(act(c, r));
    }
    let mut tree = Tree::new_root(MctsData::new(state, 0, 0, None));
    search_to_saturation(&mut tree, PlayerColor::Black);
    let results = rank_results(&tree, ROOT, PlayerColor::Black);
    assert_eq!(results.len(), 5);
    let last = results.last().unwrap();
    assert!(last.action == act(1, 2), "Black completes the top row.");
    let best = best_result_index(&results);
    assert!(best < results.len());
}

#[test]
fn ratio_bar_shows_white_share() {
    assert_eq!(pretty_ratio_bar_text(4, 1, 2), "B [==|  ] W");
    assert_eq!(pretty_ratio_bar_text(3, 0, 5), "B [|   ] W");
    assert_eq!(pretty_ratio_bar_text(2, 5, 5), "B [==|] W");
}

#[test]
fn search_of_last_free_cell_counts_one_more_terminal() {
    let mut state = TicTacToeState::new();
    // XOX
    // OOX
    // X_O
    for (c, r) in [(0, 0), (1, 1), (2, 2), (1, 2), (0, 2), (0, 1), (2, 1), (2, 0)] {
        state.apply_move(act(c, r));
    }
    let mut tree = Tree::new_root(MctsData::new(state, 0, 0, None));
    assert!(!tree.data(ROOT).is_saturated());
    let before = tree.data(ROOT).terminal_count();
    assert_eq!(PlayerColor::Black, tree.data(ROOT).state().current_player_turn());

    search_to_saturation(&mut tree, PlayerColor::Black);

    assert_eq!(tree.data(ROOT).terminal_count(), before + 1);
}

#[test]
fn search_records_worst_case_of_moves_that_lose_at_once() {
    let mut state = TicTacToeState::initial_state();
    // O_X
    // _O_
    // X__
    for (c, r) in [(0, 0), (1, 1), (2, 2), (0, 2)] {
        state.apply_move(act(c, r));
    }
    let mut tree = Tree::new_root(MctsData::new(state, 0, 0, None));
    search_to_saturation(&mut tree, PlayerColor::Black);
    assert!(tree.data(ROOT).is_saturated());

    for child in tree.children(ROOT) {
        let action = tree.data(child).action().unwrap();
        if action != act(2, 0) {
            assert_eq!((0, 1), tree.data(child).worst_case_wins_plays());
        }
    }
}

#[test]
fn should_stop_after_main_time_on_a_winning_ratio_or_after_extra_time() {
    assert!(!should_stop(999, 1000, false, true));
    assert!(should_stop(600, 1000, true, false));
    assert!(!should_stop(500, 1000, true, false));
    assert!(!should_stop(1, 2, true, false));
    assert!(should_stop(2, 3, true, false));
    assert!(should_stop(0, 1, true, true));
    assert!(!should_stop(0, 1, true, false));
}
