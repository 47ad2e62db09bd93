use reversi_rs::connect_four::ConnectFourAction;
use reversi_rs::dot_visualize::TreeToDotFileFormat;
use reversi_rs::game::{GameMove, GameState};
use reversi_rs::mcts_data::MctsData;
use reversi_rs::reversi::{BoardPosition as ReversiPosition, ReversiPlayerAction};
use reversi_rs::tic_tac_toe::{BoardPosition, TicTacToeAction, TicTacToeState};
use reversi_rs::tree::{Tree, ROOT};
use std::collections::hash_map::DefaultHasher;
use std::hash::{Hash, Hasher};

const HEADER: &str = "digraph prof {\nratio = fill;\nnode [style=filled, shape=box, fontname=courier];\n";

fn hash_of(s: &str) -> u64 {
    let mut hasher = DefaultHasher::new();
    s.hash(&mut hasher);
    hasher.finish()
}

fn act(col: usize, row: usize) -> TicTacToeAction {
    TicTacToeAction(BoardPosition::new(col, row))
}

fn label(data: &MctsData<TicTacToeState>) -> String {
    let action = match data.action() {
        Some(a) => a.text(),
        None => "n/a".to_string(),
    };
    format!(
        "A: {}\nWins: {}\nPlays: {}\n{}",
        action,
        data.wins(),
        data.plays(),
        data.state().human_friendly()
    )
    .replace("\n", "\\n")
}

/// A root with two children; the second has more plays and one child of
/// its own.
fn small_tree() -> Tree<MctsData<TicTacToeState>> {
    let root_state = TicTacToeState::initial_state();
    let mut tree = Tree::new_root(MctsData::new(root_state, 7, 3, None));
    let a = act(0, 0);
    let b = act(1, 1);
    tree.new_child(ROOT, MctsData::new(root_state.next_state(a), 2, 1, Some(a)));
    let second = tree.new_child(ROOT, MctsData::new(root_state.next_state(b), 5, 2, Some(b)));
    let c = act(2, 2);
    let below = root_state.next_state(b).next_state(c);
    tree.new_child(second, MctsData::new(below, 1, 0, Some(c)));
    tree
}

#[test]
fn dot_with_no_levels_is_header_and_footer() {
    let tree = small_tree();
    assert_eq!(tree.to_dot_file_str(Some(0)), format!("{}}}", HEADER));
}

#[test]
fn dot_without_limit_declares_root_and_children() {
    let tree = small_tree();
    let root_label = label(tree.data(ROOT));
    let root_id = hash_of(&root_label);
    let kids = tree.children(ROOT);
    let mut labels = format!("{} [label = \"{}\"]\n", root_id, root_label);
    let mut edges = String::new();
    for &k in kids.iter() {
        let l = label(tree.data(k));
        let id = hash_of(&l).wrapping_add(root_id);
        labels.push_str(&format!("{} [label = \"{}\"]\n", id, l));
        edges.push_str(&format!("{} -> {};\n", root_id, id));
    }
    let expected = format!("{}{}{}}}", HEADER, labels, edges);
    assert_eq!(tree.to_dot_file_str(None), expected);
    assert!(root_label.starts_with("A: n/a\\nWins: 3\\nPlays: 7\\n"));
}

#[test]
fn dot_with_one_level_adds_the_most_played_child_without_an_edge() {
    let tree = small_tree();
    let root_label = label(tree.data(ROOT));
    let root_id = hash_of(&root_label);
    let second = tree.children(ROOT)[1];
    let second_label = label(tree.data(second));
    let second_id = hash_of(&second_label).wrapping_add(root_id);
    let grandchild = tree.children(second)[0];
    let grandchild_label = label(tree.data(grandchild));
    let grandchild_id = hash_of(&grandchild_label).wrapping_add(second_id);
    let expected = format!(
        "{}{} [label = \"{}\"]\n{} [label = \"{}\"]\n{} [label = \"{}\"]\n{} -> {};\n}}",
        HEADER,
        root_id,
        root_label,
        second_id,
        second_label,
        grandchild_id,
        grandchild_label,
        second_id,
        grandchild_id
    );
    assert_eq!(tree.to_dot_file_str(Some(1)), expected);
}

#[test]
fn dot_with_two_levels_walks_every_child() {
    let tree = small_tree();
    let root_label = label(tree.data(ROOT));
    let root_id = hash_of(&root_label);
    let kids = tree.children(ROOT);
    let first_label = label(tree.data(kids[0]));
    let first_id = hash_of(&first_label).wrapping_add(root_id);
    let second_label = label(tree.data(kids[1]));
    let second_id = hash_of(&second_label).wrapping_add(root_id);
    let grandchild = tree.children(kids[1])[0];
    let grandchild_label = label(tree.data(grandchild));
    let grandchild_id = hash_of(&grandchild_label).wrapping_add(second_id);
    let expected = format!(
        "{}{} [label = \"{}\"]\n{} [label = \"{}\"]\n{} [label = \"{}\"]\n{} [label = \"{}\"]\n{} -> {};\n{} -> {};\n}}",
        HEADER,
        root_id,
        root_label,
        first_id,
        first_label,
        second_id,
        second_label,
        grandchild_id,
        grandchild_label,
        root_id,
        first_id,
        root_id,
        second_id
    );
    assert_eq!(tree.to_dot_file_str(Some(2)), expected);
}

#[test]
fn move_texts_read_as_their_fields() {
    assert_eq!(ReversiPlayerAction::PassTurn.text(), "(player passes turn)");
    let placed = ReversiPlayerAction::Move { position: ReversiPosition::new(3, 12) };
    assert_eq!(placed.text(), "(3, 12)");
    assert_eq!(ConnectFourAction { col: 4 }.text(), "col: 4");
    assert_eq!(act(1, 2).text(), "TicTacToeAction(BoardPosition { col: 1, row: 2 })");
}
