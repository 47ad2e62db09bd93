use reversi_rs::game::{GameResult, GameState, PlayerColor};
use reversi_rs::mcts_data::MctsData;
use reversi_rs::reversi::{
    BoardDirectionIter, BoardPosition, Directions, ReversiMove, ReversiPiece, ReversiPlayerAction, ReversiState,
};
use rand::rngs::SmallRng;
use rand::SeedableRng;
use reversi_rs::search::{backprop_sim_result, expand, simulate};
use reversi_rs::tree::{Tree, ROOT};

fn pos(col: usize, row: usize) -> BoardPosition {
    BoardPosition::new(col, row)
}

#[test]
fn reversi_gamestate_it_works() {
    let mut state = ReversiState::new();

    state.set_piece(pos(2, 3), Some(ReversiPiece::Black));
    let stringified = state.human_friendly();

    println!("{}", stringified);

    assert_eq!(2 + 2, 4);
}

#[test]
fn human_friendly_reserves_correct_size() {
    let state = ReversiState::new();

    let stringified = state.human_friendly();

    assert_eq!(ReversiState::friendly_print_size(), stringified.len());
}

#[test]
fn state_can_set_and_get_piece() {
    let mut state = ReversiState::new();

    let piece_before = state.get_piece(pos(2, 3));

    state.set_piece(pos(2, 3), Some(ReversiPiece::White));

    let piece_after = state.get_piece(pos(2, 3));

    assert_eq!(None, piece_before);
    assert_eq!(Some(ReversiPiece::White), piece_after);
}

#[test]
fn flip_piece_flips_piece() {
    let mut state = ReversiState::new();
    state.set_piece(pos(2, 3), Some(ReversiPiece::White));

    state.flip_piece(pos(2, 3));

    let flipped_piece = state.get_piece(pos(2, 3));

    assert_eq!(Some(ReversiPiece::Black), flipped_piece);
}

#[test]
fn apply_move_flips_pieces_simple() {
    let mut state = ReversiState::new();

    // O X
    state.set_piece(pos(2, 2), Some(ReversiPiece::White));
    state.set_piece(pos(3, 2), Some(ReversiPiece::Black));

    // O X *
    let action = ReversiMove { piece: ReversiPiece::White, position: pos(4, 2) };

    state.apply_move(action);

    assert_eq!(ReversiPiece::White, state.get_piece(pos(2, 2)).unwrap());
    assert_eq!(ReversiPiece::White, state.get_piece(pos(3, 2)).unwrap());
    assert_eq!(ReversiPiece::White, state.get_piece(pos(4, 2)).unwrap());
}

#[test]
fn apply_move_flips_pieces_complex() {
    let mut state = ReversiState::new();

    //       X
    //     O
    //   O
    // * O O O X
    state.set_piece(pos(2, 2), Some(ReversiPiece::White));
    state.set_piece(pos(3, 2), Some(ReversiPiece::White));
    state.set_piece(pos(4, 2), Some(ReversiPiece::White));
    state.set_piece(pos(5, 2), Some(ReversiPiece::Black));

    state.set_piece(pos(2, 3), Some(ReversiPiece::White));
    state.set_piece(pos(3, 4), Some(ReversiPiece::White));
    state.set_piece(pos(4, 5), Some(ReversiPiece::Black));

    let action = ReversiMove { piece: ReversiPiece::Black, position: pos(1, 2) };

    state.apply_move(action);

    assert_eq!(ReversiPiece::Black, state.get_piece(pos(1, 2)).unwrap());
    assert_eq!(ReversiPiece::Black, state.get_piece(pos(2, 2)).unwrap());
    assert_eq!(ReversiPiece::Black, state.get_piece(pos(3, 2)).unwrap());
    assert_eq!(ReversiPiece::Black, state.get_piece(pos(4, 2)).unwrap());
    assert_eq!(ReversiPiece::Black, state.get_piece(pos(5, 2)).unwrap());
    assert_eq!(ReversiPiece::Black, state.get_piece(pos(2, 3)).unwrap());
    assert_eq!(ReversiPiece::Black, state.get_piece(pos(3, 4)).unwrap());
    assert_eq!(ReversiPiece::Black, state.get_piece(pos(4, 5)).unwrap());
}

#[test]
fn expand_works() {
    let mut initial_state = ReversiState::new();

    // default Reversi initial configuration
    initial_state.initialize_board();

    let data = MctsData::new(initial_state, 0, 0, None);
    let mut tree_root = Tree::new_root(data);

    expand(&mut tree_root, ROOT).expect("must have children");
    let expanded_children = tree_root.children(ROOT);

    assert_eq!(4, expanded_children.len());
}

#[test]
fn reversi_opening_moves_and_first_move() {
    let mut state = ReversiState::initial_state();
    assert_eq!(state.current_player_turn(), PlayerColor::Black);
    let moves = state.legal_moves(PlayerColor::Black);
    assert_eq!(moves.len(), 4);
    assert!(moves.contains(&ReversiPlayerAction::Move { position: pos(2, 4) }));
    GameState::apply_move(&mut state, ReversiPlayerAction::Move { position: pos(2, 4) });
    assert_eq!(state.current_player_turn(), PlayerColor::White);
    assert_eq!(state.player_score(PlayerColor::Black), 4);
    assert_eq!(state.player_score(PlayerColor::White), 1);
    assert!(!state.is_game_over());
    assert_eq!(state.game_result(), None);
}

#[test]
fn reversi_full_white_board_is_won_by_white() {
    let mut state = ReversiState::new();
    for col in 0..8 {
        for row in 0..8 {
            state.set_piece(pos(col, row), Some(ReversiPiece::White));
        }
    }
    assert!(state.is_game_over());
    assert_eq!(state.game_result(), Some(GameResult::WhiteWins));
}

#[test]
fn new_child_works() {
    let data = MctsData::new(ReversiState::new(), 0, 0, None);
    let mut tree_root = Tree::new_root(data.copy_data());
    let child = tree_root.new_child(ROOT, data.copy_data());

    assert_eq!(1, tree_root.children(ROOT).len());
    assert!(tree_root.parent(child).is_some());
    assert!(tree_root.parent(ROOT).is_none());
}

#[test]
fn backprop_works_one_node() {
    let agent_color = PlayerColor::White;

    let data = MctsData::new(ReversiState::new(), 0, 0, None);
    let mut tree_root = Tree::new_root(data);

    backprop_sim_result(&mut tree_root, ROOT, GameResult::BlackWins.is_win_for_player(agent_color));

    assert_eq!(1, tree_root.data(ROOT).plays());
}

#[test]
fn backprop_works_several_nodes() {
    let agent_color = PlayerColor::White;

    let data = MctsData::new(ReversiState::new(), 0, 0, None);

    let mut tree_root = Tree::new_root(data.copy_data());
    let child_level_1 = tree_root.new_child(ROOT, data.copy_data());
    let child_level_2 = tree_root.new_child(child_level_1, data.copy_data());
    let child_level_3 = tree_root.new_child(child_level_2, data.copy_data());
    let child_level_4 = tree_root.new_child(child_level_3, data.copy_data());

    backprop_sim_result(&mut tree_root, child_level_3, GameResult::BlackWins.is_win_for_player(agent_color));

    assert_eq!(1, tree_root.data(child_level_3).plays());
    assert_eq!(1, tree_root.data(child_level_2).plays());
    assert_eq!(1, tree_root.data(child_level_1).plays());
    assert_eq!(1, tree_root.data(ROOT).plays());
    assert_eq!(0, tree_root.data(child_level_4).plays());
}

#[test]
fn mcts_agent_simulate_runs_to_completion_and_terminates() {
    let mut initial_state = ReversiState::new();
    initial_state.initialize_board();
    let data = MctsData::new(initial_state, 0, 0, None);

    let tree_root = Tree::new_root(data);

    let mut rng = SmallRng::from_seed([0; 16]);
    let _sim_result = simulate(&tree_root, ROOT, &mut rng);
}

#[test]
fn direction_iter_walks_from_an_origin_off_the_board() {
    let mut iter = BoardDirectionIter::new(pos(10, 3), Directions { col_dir: -3, row_dir: 0 });
    assert_eq!(iter.next(), Some(pos(7, 3)));
    assert_eq!(iter.next(), Some(pos(4, 3)));
    assert_eq!(iter.next(), Some(pos(1, 3)));
    assert_eq!(iter.next(), None);
    assert_eq!(iter.next(), None);
}

#[test]
fn direction_iter_never_yields_its_origin() {
    let mut iter = BoardDirectionIter::new(pos(0, 0), Directions { col_dir: 1, row_dir: 1 });
    for k in 1..8 {
        assert_eq!(iter.next(), Some(pos(k, k)));
    }
    assert_eq!(iter.next(), None);
}

#[test]
fn flip_piece_changes_only_that_cell() {
    let mut state = ReversiState::initial_state();
    let before = state;
    state.flip_piece(pos(3, 3));
    for c in 0..8 {
        for r in 0..8 {
            if (c, r) == (3, 3) {
                assert_ne!(state.get_piece(pos(c, r)), before.get_piece(pos(c, r)));
            } else {
                assert_eq!(state.get_piece(pos(c, r)), before.get_piece(pos(c, r)));
            }
        }
    }
}
