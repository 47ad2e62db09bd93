use rand::rngs::SmallRng;
use rand::SeedableRng;
use reversi_rs::amcts_data::AMctsData;
use reversi_rs::game::{GameState, PlayerColor};
use reversi_rs::par_search::{
    backprop_saturation, backprop_sim_result, expand, mcts_result, mcts_step, saturation_walk_fits, simulate,
    unsaturated_children,
    ASearchTree,
};
use reversi_rs::tic_tac_toe::{BoardPosition, TicTacToeAction, TicTacToeState};
use reversi_rs::tree::{Tree, ROOT};

fn make_test_data() -> AMctsData<TicTacToeState> {
    AMctsData::new(TicTacToeState::initial_state(), 0, 0, None)
}

fn act(col: usize, row: usize) -> TicTacToeAction {
    TicTacToeAction(BoardPosition::new(col, row))
}

#[test]
fn tree_search_par_new_child_expects_add_child_to_parent() {
    let data = make_test_data();
    let mut tree_root = Tree::new_root(data.copy_data());
    let child = tree_root.new_child(ROOT, data.copy_data());

    assert_eq!(1, tree_root.children(ROOT).len());
    assert!(tree_root.parent(child).is_some());
    assert!(tree_root.parent(ROOT).is_none());
}

#[test]
fn tree_search_par_backprop_sim_results_when_black_wins_expects_update_plays_wins() {
    let data = make_test_data();
    let mut tree_root = Tree::new_root(data.copy_data());
    let is_win = true;

    backprop_sim_result(&mut tree_root, ROOT, is_win);

    assert_eq!(1, tree_root.data(ROOT).plays());
    assert_eq!(1, tree_root.data(ROOT).wins());
}

#[test]
fn tree_search_par_backprop_sim_results_when_black_wins_expects_update_white_plays_not_wins() {
    let data = make_test_data();
    let mut tree_root = Tree::new_root(data.copy_data());
    let is_win = false;

    backprop_sim_result(&mut tree_root, ROOT, is_win);

    assert_eq!(1, tree_root.data(ROOT).plays());
    assert_eq!(0, tree_root.data(ROOT).wins());
}

#[test]
fn tree_search_par_backprop_sim_results_expects_updates_to_root() {
    let data = make_test_data();

    let mut tree: ASearchTree<TicTacToeState> = Tree::new_root(data.copy_data());
    let child_level_1 = tree.new_child(ROOT, data.copy_data());
    let child_level_2 = tree.new_child(child_level_1, data.copy_data());
    let child_level_3 = tree.new_child(child_level_2, data.copy_data());
    let child_level_4 = tree.new_child(child_level_3, data.copy_data());

    let is_win = true;
    backprop_sim_result(&mut tree, child_level_3, is_win);

    assert_eq!(1, tree.data(child_level_3).plays());
    assert_eq!(1, tree.data(child_level_2).plays());
    assert_eq!(1, tree.data(child_level_1).plays());
    assert_eq!(1, tree.data(ROOT).plays());

    assert_eq!(1, tree.data(child_level_3).wins());
    assert_eq!(1, tree.data(child_level_2).wins());
    assert_eq!(1, tree.data(child_level_1).wins());
    assert_eq!(1, tree.data(ROOT).wins());

    assert_eq!(0, tree.data(child_level_4).plays());
}

#[test]
fn tree_search_par_expand_expects_creates_children() {
    let mut tree_root = Tree::new_root(make_test_data());

    let expanded_children = expand(&mut tree_root, ROOT);

    // The game used for testing is TicTacToe,
    // which has nine intitial legal children positions.
    assert_eq!(9, expanded_children.len());
}

#[test]
fn tree_search_par_expand_expects_adds_children_to_parent() {
    let mut tree_root = Tree::new_root(make_test_data());

    assert_eq!(0, tree_root.children(ROOT).len());

    expand(&mut tree_root, ROOT);

    assert_eq!(9, tree_root.children(ROOT).len());
}

#[test]
fn tree_search_par_expand_expects_marks_node_expanded() {
    let mut tree_root = Tree::new_root(make_test_data());

    assert!(!tree_root.data(ROOT).is_expanded());

    expand(&mut tree_root, ROOT);

    assert!(tree_root.data(ROOT).is_expanded());
}

#[test]
fn tree_search_par_expand_expects_updates_children_count() {
    let mut tree_root = Tree::new_root(make_test_data());

    assert_eq!(0, tree_root.data(ROOT).children_count());

    expand(&mut tree_root, ROOT);

    assert_eq!(9, tree_root.data(ROOT).children_count());
}

#[test]
fn tree_search_par_backprop_saturation_expects_becomes_saturated_when_all_children_saturated() {
    let data = {
        let mut state = TicTacToeState::initial_state();
        for (c, r) in [(0, 0), (1, 1), (2, 2), (0, 2), (2, 0), (0, 1), (1, 2), (1, 0)] {
            state.apply_move(act(c, r));
        }
        AMctsData::new(state, 0, 0, None)
    };

    let mut tree_root = Tree::new_root(data);

    let children = expand(&mut tree_root, ROOT);

    assert!(
        !tree_root.data(ROOT).is_saturated(),
        "Every child is saturated, but not every child has had its saturation status backpropagated, so the root should not be considered saturated."
    );

    // backprop the one remaining child.
    expand(&mut tree_root, children[0]);
    backprop_saturation(&mut tree_root, children[0]);

    assert!(
        tree_root.data(ROOT).is_saturated(),
        "Now that every child has had its saturation backpropagated, the parent should be considered saturated as well."
    );
}

#[test]
fn tree_search_par_simulate_runs_to_completion_and_terminates() {
    let mut initial_state = TicTacToeState::initial_state();
    initial_state.initialize_board();
    let tree_root = Tree::new_root(make_test_data());

    let _sim_result = simulate(&tree_root, ROOT, &mut SmallRng::from_seed([0; 16]));
}

#[test]
fn par_expand_of_expanded_node_returns_its_children() {
    let mut tree = Tree::new_root(make_test_data());
    let first = expand(&mut tree, ROOT);
    let second = expand(&mut tree, ROOT);
    assert_eq!(first, second);
    assert_eq!(tree.node_count(), 10);
}

#[test]
fn par_search_saturates_and_ranks() {
    let mut state = TicTacToeState::initial_state();
    // X_X
    // OO_
    // ___
    for (c, r) in [(0, 2), (0, 1), (2, 2), (1, 1)] {
        state.apply_move(act(c, r));
    }
    let mut tree = Tree::new_root(AMctsData::new(state, 0, 0, None));
    let mut rng = SmallRng::from_seed([0; 16]);
    let mut steps = 0;
    while !tree.data(ROOT).is_saturated() {
        let mut leaf = ROOT;
        loop {
            let candidates = unsaturated_children(&tree, leaf);
            if candidates.is_empty() {
                break;
            }
            leaf = candidates[0];
        }
        mcts_step(&mut tree, leaf, PlayerColor::Black, &mut rng);
        steps += 1;
        assert!(steps < 100_000);
    }
    let results = mcts_result(&tree, PlayerColor::Black);
    assert_eq!(results.len(), 5);
    assert!(results.last().unwrap().action == act(1, 2), "Black completes the top row.");
    assert!(results.iter().all(|r| r.plays > 0));
    // A node's play count is the sum of its children's, plus at most one,
    // and every finished game has been played exactly once.
    for node in 0..tree.node_count() {
        let sum: usize = tree.children(node).iter().map(|&c| tree.data(c).plays()).sum();
        assert!(tree.data(node).plays() - sum <= 1);
        if tree.children(node).is_empty() {
            assert_eq!(tree.data(node).plays(), 1);
        }
    }
}

#[test]
fn saturation_walk_fits_until_the_parent_counts_the_child() {
    let mut state = TicTacToeState::initial_state();
    for (c, r) in [(0, 0), (1, 1), (2, 2), (0, 2), (2, 0), (0, 1), (1, 2), (1, 0)] {
        state.apply_move(act(c, r));
    }
    let mut tree = Tree::new_root(AMctsData::new(state, 0, 0, None));
    let children = expand(&mut tree, ROOT);
    assert_eq!(children.len(), 1);
    expand(&mut tree, children[0]);
    assert!(saturation_walk_fits(&tree, children[0]));
    backprop_saturation(&mut tree, children[0]);
    assert!(!saturation_walk_fits(&tree, children[0]));
}

#[test]
fn par_search_run_to_saturation_plays_each_finished_game_once() {
    let mut state = TicTacToeState::initial_state();
    for (c, r) in [(0, 0), (1, 1), (2, 2)] {
        state.apply_move(act(c, r));
    }
    let mut tree = Tree::new_root(AMctsData::new(state, 0, 0, None));
    let mut rng = SmallRng::from_seed([7; 16]);
    let mut steps = 0;
    while !tree.data(ROOT).is_saturated() {
        let mut leaf = ROOT;
        loop {
            let candidates = unsaturated_children(&tree, leaf);
            if candidates.is_empty() {
                break;
            }
            leaf = candidates[candidates.len() - 1];
        }
        mcts_step(&mut tree, leaf, PlayerColor::Black, &mut rng);
        steps += 1;
        assert!(steps < 1_000_000);
    }
    for node in 0..tree.node_count() {
        let below: usize = tree.children(node).iter().map(|&c| tree.data(c).plays()).sum();
        let plays = tree.data(node).plays();
        assert!(below <= plays && plays <= below + 1);
        if tree.children(node).is_empty() {
            assert_eq!(plays, 1, "A finished game must have been played exactly once.");
        }
    }
}
