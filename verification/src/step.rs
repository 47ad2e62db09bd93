use vstd::prelude::*;
use crate::consistency::{
    consistent, lemma_consistent_frame, lemma_expand_consistent, lemma_record_result, lemma_saturation_consistent,
    lemma_saturation_ready, node_consistent, same_bookkeeping,
};
use crate::game::{spec_is_win_for, GameResult, GameState, PlayerColor};
use crate::mcts_data::{counter_add, fresh_stats, lemma_with_stats, stats_played, stats_terminal, MctsData, NodeStats};
use crate::random::random_pick;
use crate::search::{
    backprop_saturation, backprop_sim_result, backprop_terminal_count, expand, is_expansion,
    is_child_data, moves_at, played, plays_out, saturation_reported, simulate, states_wf, terminal_counted, SearchTree,
};
use crate::tree::applied_up_from;
use crate::terminals::{
    finished, finished_iff_leaf, lemma_finished_below_bound, lemma_finished_below_childless, lemma_finished_below_frame,
    lemma_finished_below_one, lemma_finished_below_tail, lemma_on_path_prefix, lemma_terminals_frame,
    terminal_count_exact, terminals_counted,
};
use crate::balance::{
    Counted, finished_played_at, lemma_balanced_frame, lemma_consistent_children_listed, lemma_played_path_balanced,
    lemma_plays_sum_frame, plays_balanced, plays_bounded_at, plays_sum,
};
use rand::rngs::SmallRng;

verus! {

/// The simulation after an expansion that produced children: the `k`-th
/// new child was played out to `result`, and that result was counted at
/// the child and all its ancestors, as a win or not for `player`.
pub open spec fn child_simulated<S: GameState>(
    new: SearchTree<S>,
    t1: SearchTree<S>,
    leaf: int,
    k: int,
    result: GameResult,
    player: PlayerColor,
) -> bool {
    let c = t1.children_of(leaf)[k] as int;
    &&& 0 <= k < t1.children_of(leaf).len()
    &&& plays_out(t1.data_of(c).view_state(), result)
    &&& applied_up_from(new, t1, c, |d: MctsData<S>| played(d, spec_is_win_for(result, player)))
}

/// The handling of a finished leaf after its expansion: its game was played
/// out to `result` (its own result); if it had never been played, that
/// result was counted up to the root (`t2`); the result was recorded at the
/// leaf (`t3`); its saturation was reported (`t4`); and the finished game
/// was counted at the leaf and all its ancestors (`new`).
pub open spec fn leaf_finished<S: GameState>(
    new: SearchTree<S>,
    t1: SearchTree<S>,
    t2: SearchTree<S>,
    t3: SearchTree<S>,
    t4: SearchTree<S>,
    leaf: int,
    result: GameResult,
    player: PlayerColor,
) -> bool {
    let is_win = spec_is_win_for(result, player);
    let d2 = t2.data_of(leaf);
    &&& plays_out(t1.data_of(leaf).view_state(), result)
    &&& if t1.data_of(leaf).stats().plays == 0 {
        applied_up_from(t2, t1, leaf, |d: MctsData<S>| played(d, is_win))
    } else {
        t2 == t1
    }
    &&& t3.same_shape(t2)
    &&& t3.data_of(leaf) == d2.with_stats(NodeStats { end_state_result: Some(result), ..d2.stats() })
    &&& forall|j: int| 0 <= j < t2.len() && j != leaf ==> #[trigger] t3.data_of(j) == t2.data_of(j)
    &&& saturation_reported(t4, t3, leaf)
    &&& applied_up_from(new, t4, leaf, |d: MctsData<S>| terminal_counted(d, is_win))
}

/// What one step of the search does after the node `leaf` was expanded
/// into `t1`: play out one new child at random, or, if the leaf is a
/// finished game, settle it.
pub open spec fn after_expansion<S: GameState>(
    new: SearchTree<S>,
    t1: SearchTree<S>,
    leaf: int,
    player: PlayerColor,
) -> bool {
    if t1.children_of(leaf).len() > 0 {
        exists|k: int, result: GameResult| #[trigger] child_simulated(new, t1, leaf, k, result, player)
    } else {
        exists|t2: SearchTree<S>, t3: SearchTree<S>, t4: SearchTree<S>, result: GameResult|
            #[trigger] leaf_finished(new, t1, t2, t3, t4, leaf, result, player)
    }
}

/// All plays are zero: so is their sum.
proof fn lemma_plays_sum_zero<S: GameState>(t: SearchTree<S>, cs: Seq<usize>)
    requires
        forall|k: int| 0 <= k < cs.len() ==> (#[trigger] t.data_of(cs[k] as int)).stats().plays == 0,
    ensures
        plays_sum(t, cs) == 0,
    decreases cs.len(),
{
    if cs.len() > 0 {
        assert(t.data_of(cs[cs.len() - 1] as int).stats().plays == 0);
        lemma_plays_sum_zero(t, cs.drop_last());
    }
}

/// One step of the search that expanded `leaf` (from `t0` to `t1`) and then
/// went on to `new` keeps the plays balanced, provided the root can count
/// one more play.
proof fn lemma_step_balanced<S: GameState>(
    t0: SearchTree<S>,
    t1: SearchTree<S>,
    new: SearchTree<S>,
    leaf: int,
    player: PlayerColor,
)
    requires
        consistent(t0),
        consistent(t1),
        states_wf(t0),
        plays_balanced(t0),
        t0.has(leaf),
        !t0.data_of(leaf).stats().is_expanded,
        t0.data_of(0).stats().plays < usize::MAX,
        is_expansion(t1, t0, leaf),
        after_expansion(new, t1, leaf, player),
    ensures
        plays_balanced(new),
{
    let d = t0.data_of(leaf);
    let st = d.view_state();
    assert(node_consistent(t0, leaf));
    assert(t0.children_of(leaf).len() == 0);
    lemma_consistent_children_listed(t1);
    if st.spec_game_over() {
        let s1 = NodeStats { is_expanded: true, children_count: 0, ..d.stats() };
        lemma_with_stats(d, s1);
        crate::tree::lemma_same_shape(t0, t1);
        // Expanding a finished game changes no plays.
        assert forall|j: int| 0 <= j < t1.len() implies #[trigger] plays_bounded_at(t1, j) by {
            let cs = t0.children_of(j);
            assert(plays_bounded_at(t0, j));
            assert forall|k: int| 0 <= k < cs.len() implies (#[trigger] t1.data_of(cs[k] as int)).stats().plays
                == t0.data_of(cs[k] as int).stats().plays by {
                assert(cs[k] < t0.len());
            }
            lemma_plays_sum_frame(t0, t1, cs);
        }
        assert forall|j: int| 0 <= j < t1.len() && j != leaf implies #[trigger] finished_played_at(t1, j) by {
            assert(finished_played_at(t0, j));
        }
        let (t2, t3, t4, result) = choose|t2: SearchTree<S>, t3: SearchTree<S>, t4: SearchTree<S>, result: GameResult|
            #[trigger] leaf_finished(new, t1, t2, t3, t4, leaf, result, player);
        let is_win = spec_is_win_for(result, player);
        if t1.data_of(leaf).stats().plays == 0 {
            let f = |d: MctsData<S>| played(d, is_win);
            assert forall|d: MctsData<S>| (#[trigger] f(d)).counted_plays() == counter_add(d.counted_plays(), 1)
                && f(d).counted_expanded() == d.counted_expanded() by {
                lemma_with_stats(d, stats_played(d.stats(), is_win));
            }
            lemma_played_path_balanced(t1, t2, leaf, f);
        } else {
            assert(plays_bounded_at(t0, leaf));
            assert(finished_played_at(t1, leaf));
        }
        crate::tree::lemma_same_shape(t1, t2);
        let d2 = t2.data_of(leaf);
        lemma_with_stats(d2, NodeStats { end_state_result: Some(result), ..d2.stats() });
        lemma_balanced_frame(t2, t3);
        crate::tree::lemma_same_shape(t2, t3);
        assert forall|j: int| 0 <= j < t3.len() implies (#[trigger] t4.data_of(j)).stats().plays == t3.data_of(
            j,
        ).stats().plays && t4.data_of(j).stats().is_expanded == t3.data_of(j).stats().is_expanded by {
            let s3 = t3.data_of(j).stats();
            if j == leaf {
                lemma_with_stats(t3.data_of(j), crate::mcts_data::stats_worst_case(s3, s3.wins, s3.plays));
            } else if let Some(a) = crate::search::saturation_walk(t3, leaf, j) {
                lemma_with_stats(t3.data_of(j), crate::search::sat_step(s3, a.0, a.1, a.2));
            }
        }
        lemma_balanced_frame(t3, t4);
        crate::tree::lemma_same_shape(t3, t4);
        assert forall|j: int| 0 <= j < t4.len() implies (#[trigger] new.data_of(j)).stats().plays == t4.data_of(
            j,
        ).stats().plays && new.data_of(j).stats().is_expanded == t4.data_of(j).stats().is_expanded by {
            lemma_with_stats(t4.data_of(j), stats_terminal(t4.data_of(j).stats(), is_win));
        }
        lemma_balanced_frame(t4, new);
    } else {
        let n = moves_at(st).len();
        st.lemma_playable();
        let s1 = NodeStats {
            is_expanded: true,
            children_count: n as usize,
            tree_size: counter_add(d.stats().tree_size, n as usize),
            ..d.stats()
        };
        lemma_with_stats(d, s1);
        // The old nodes keep their plays; the new ones have none.
        assert forall|j: int| 0 <= j < t0.len() implies (#[trigger] t1.data_of(j)).stats().plays == t0.data_of(
            j,
        ).stats().plays && (j != leaf ==> t1.data_of(j).stats().is_expanded == t0.data_of(j).stats().is_expanded) by {
            if j != leaf && t0.on_path(leaf, j) {
                let dj = t0.data_of(j);
                lemma_with_stats(dj, NodeStats { tree_size: counter_add(dj.stats().tree_size, n as usize), ..dj.stats() });
            }
        }
        assert forall|j: int|
            #![trigger plays_bounded_at(t1, j)]
            #![trigger finished_played_at(t1, j)]
            0 <= j < t1.len() implies plays_bounded_at(t1, j) && finished_played_at(t1, j) by {
            if j < t0.len() {
                let cs = t1.children_of(j);
                assert(plays_bounded_at(t0, j));
                assert(finished_played_at(t0, j));
                if j == leaf {
                    assert forall|k: int| 0 <= k < cs.len() implies (#[trigger] t1.data_of(cs[k] as int)).stats().plays
                        == 0 by {
                        assert(cs[k] == t0.len() + k);
                        assert(is_child_data(t1.data_of(t0.len() + k), st, moves_at(st)[k]));
                    }
                    lemma_plays_sum_zero(t1, cs);
                    lemma_plays_sum_zero(t0, t0.children_of(j));
                } else {
                    assert(cs == t0.children_of(j));
                    assert forall|k: int| 0 <= k < cs.len() implies (#[trigger] t1.data_of(cs[k] as int)).stats().plays
                        == t0.data_of(cs[k] as int).stats().plays by {
                        assert(cs[k] < t0.len());
                    }
                    lemma_plays_sum_frame(t0, t1, cs);
                }
            } else {
                let k = j - t0.len();
                assert(t1.parent_of(t0.len() + k) == Some(leaf as usize));
                assert(is_child_data(t1.data_of(t0.len() + k), st, moves_at(st)[k]));
                assert(t1.children_of(j) == Seq::<usize>::empty());
            }
        }
        let (k, result) = choose|k: int, result: GameResult| #[trigger] child_simulated(new, t1, leaf, k, result, player);
        let c = t1.children_of(leaf)[k] as int;
        assert(c == t0.len() + k);
        assert(t1.parent_of(t0.len() + k) == Some(leaf as usize));
        assert(is_child_data(t1.data_of(t0.len() + k), st, moves_at(st)[k]));
        let is_win = spec_is_win_for(result, player);
        let f = |d: MctsData<S>| played(d, is_win);
        assert forall|d: MctsData<S>| (#[trigger] f(d)).counted_plays() == counter_add(d.counted_plays(), 1)
            && f(d).counted_expanded() == d.counted_expanded() by {
            lemma_with_stats(d, stats_played(d.stats(), is_win));
        }
        lemma_played_path_balanced(t1, new, c, f);
    }
}

/// One step of the search that expanded `leaf` (from `t0` to `t1`) and then
/// went on to `new` keeps the finished games counted.
proof fn lemma_step_terminals<S: GameState>(
    t0: SearchTree<S>,
    t1: SearchTree<S>,
    new: SearchTree<S>,
    leaf: int,
    player: PlayerColor,
)
    requires
        consistent(t0),
        consistent(t1),
        states_wf(t0),
        terminals_counted(t0),
        t0.has(leaf),
        !t0.data_of(leaf).stats().is_expanded,
        is_expansion(t1, t0, leaf),
        after_expansion(new, t1, leaf, player),
    ensures
        terminals_counted(new),
{
    let d = t0.data_of(leaf);
    let st = d.view_state();
    assert(node_consistent(t0, leaf));
    assert(t0.children_of(leaf).len() == 0);
    lemma_consistent_children_listed(t1);
    if st.spec_game_over() {
        let s1 = NodeStats { is_expanded: true, children_count: 0, ..d.stats() };
        lemma_with_stats(d, s1);
        crate::tree::lemma_same_shape(t0, t1);
        let (t2, t3, t4, result) = choose|t2: SearchTree<S>, t3: SearchTree<S>, t4: SearchTree<S>, result: GameResult|
            #[trigger] leaf_finished(new, t1, t2, t3, t4, leaf, result, player);
        let is_win = spec_is_win_for(result, player);
        crate::tree::lemma_same_shape(t1, t2);
        crate::tree::lemma_same_shape(t2, t3);
        crate::tree::lemma_same_shape(t3, t4);
        crate::tree::lemma_same_shape(t4, new);
        // Up to the recording of the result nothing that is counted changes.
        assert forall|j: int| 0 <= j < t0.len() implies {
            &&& (#[trigger] t2.data_of(j)).stats().terminal_count == t0.data_of(j).stats().terminal_count
            &&& finished(t2.data_of(j)) == finished(t0.data_of(j))
            &&& t2.data_of(j).stats().is_expanded == t1.data_of(j).stats().is_expanded
        } by {
            if t1.data_of(leaf).stats().plays == 0 && t1.on_path(leaf, j) {
                lemma_with_stats(t1.data_of(j), stats_played(t1.data_of(j).stats(), is_win));
            }
        }
        assert(!finished(t2.data_of(leaf)));
        let d2 = t2.data_of(leaf);
        lemma_with_stats(d2, NodeStats { end_state_result: Some(result), ..d2.stats() });
        // From the recording on, nothing that is counted changes but the
        // terminal counts on the path up from the leaf.
        assert forall|j: int| 0 <= j < t0.len() implies {
            &&& (#[trigger] new.data_of(j)).stats().terminal_count == t3.data_of(j).stats().terminal_count
                + if t4.on_path(leaf, j) {
                1int
            } else {
                0int
            }
            &&& finished(new.data_of(j)) == finished(t3.data_of(j))
            &&& new.data_of(j).stats().is_expanded == t3.data_of(j).stats().is_expanded
        } by {
            let s3 = t3.data_of(j).stats();
            if j == leaf {
                lemma_with_stats(t3.data_of(j), crate::mcts_data::stats_worst_case(s3, s3.wins, s3.plays));
            } else if let Some(a) = crate::search::saturation_walk(t3, leaf, j) {
                lemma_with_stats(t3.data_of(j), crate::search::sat_step(s3, a.0, a.1, a.2));
            }
            if t4.on_path(leaf, j) {
                assert(terminal_count_exact(t0, j));
                lemma_finished_below_frame(t0, t2, j, t0.len() as int);
                lemma_finished_below_bound(t2, j, t0.len() as int, leaf);
                lemma_with_stats(t4.data_of(j), stats_terminal(t4.data_of(j).stats(), is_win));
            }
        }
        assert forall|a: int| 0 <= a < new.len() implies #[trigger] terminal_count_exact(new, a) by {
            assert(terminal_count_exact(t0, a));
            lemma_finished_below_frame(t0, t2, a, t0.len() as int);
            lemma_finished_below_one(t2, t3, a, t0.len() as int, leaf);
            lemma_finished_below_frame(t3, new, a, t0.len() as int);
        }
        assert forall|j: int| 0 <= j < new.len() implies #[trigger] finished_iff_leaf(new, j) by {
            assert(finished_iff_leaf(t0, j));
            assert(new.children_of(j) == t0.children_of(j)) by {
                assert(t1.children_of(j) == t0.children_of(j));
                assert(t2.children_of(j) == t1.children_of(j));
                assert(t3.children_of(j) == t2.children_of(j));
                assert(t4.children_of(j) == t3.children_of(j));
                assert(new.children_of(j) == t4.children_of(j));
            }
            assert(new.data_of(j).stats().is_expanded == t3.data_of(j).stats().is_expanded);
            assert(t2.data_of(j).stats().is_expanded == t1.data_of(j).stats().is_expanded);
            if j != leaf {
                if t1.data_of(leaf).stats().plays == 0 && t1.on_path(leaf, j) {
                    lemma_with_stats(t1.data_of(j), stats_played(t1.data_of(j).stats(), is_win));
                }
            }
        }
    } else {
        let n = moves_at(st).len();
        st.lemma_playable();
        let s1 = NodeStats {
            is_expanded: true,
            children_count: n as usize,
            tree_size: counter_add(d.stats().tree_size, n as usize),
            ..d.stats()
        };
        lemma_with_stats(d, s1);
        assert forall|j: int| 0 <= j < t0.len() implies {
            &&& (#[trigger] t1.data_of(j)).stats().terminal_count == t0.data_of(j).stats().terminal_count
            &&& finished(t1.data_of(j)) == finished(t0.data_of(j))
            &&& (j != leaf ==> t1.data_of(j).stats().is_expanded == t0.data_of(j).stats().is_expanded)
        } by {
            if j != leaf && t0.on_path(leaf, j) {
                let dj = t0.data_of(j);
                lemma_with_stats(dj, NodeStats { tree_size: counter_add(dj.stats().tree_size, n as usize), ..dj.stats() });
            }
        }
        assert forall|k: int| t0.len() <= k < t1.len() implies !finished(#[trigger] t1.data_of(k))
            && !t1.data_of(k).stats().is_expanded && t1.children_of(k).len() == 0 by {
            let i = k - t0.len();
            assert(t1.parent_of(t0.len() + i) == Some(leaf as usize));
            assert(is_child_data(t1.data_of(t0.len() + i), st, moves_at(st)[i]));
        }
        assert forall|a: int| 0 <= a < t1.len() implies #[trigger] terminal_count_exact(t1, a) by {
            lemma_finished_below_tail(t1, a, t0.len() as int, t1.len() as int);
            if a < t0.len() {
                assert(terminal_count_exact(t0, a));
                assert forall|j: int| 0 <= j < t0.len() implies (#[trigger] t1.on_path(j, a)) == t0.on_path(j, a)
                    && finished(t1.data_of(j)) == finished(t0.data_of(j)) by {
                    lemma_on_path_prefix(t0, t1, j, a);
                }
                lemma_finished_below_frame(t0, t1, a, t0.len() as int);
            } else {
                let i = a - t0.len();
                assert(t1.parent_of(t0.len() + i) == Some(leaf as usize));
                assert(is_child_data(t1.data_of(t0.len() + i), st, moves_at(st)[i]));
                lemma_finished_below_childless(t1, a, t1.len() as int);
            }
        }
        assert forall|j: int| 0 <= j < t1.len() implies #[trigger] finished_iff_leaf(t1, j) by {
            if j < t0.len() {
                assert(finished_iff_leaf(t0, j));
                if j != leaf {
                    assert(t1.children_of(j) == t0.children_of(j));
                }
            }
        }
        let (k, result) = choose|k: int, result: GameResult| #[trigger] child_simulated(new, t1, leaf, k, result, player);
        let c = t1.children_of(leaf)[k] as int;
        let is_win = spec_is_win_for(result, player);
        assert forall|j: int| 0 <= j < t1.len() implies {
            &&& (#[trigger] new.data_of(j)).stats().terminal_count == t1.data_of(j).stats().terminal_count
            &&& new.data_of(j).stats().is_expanded == t1.data_of(j).stats().is_expanded
            &&& finished(new.data_of(j)) == finished(t1.data_of(j))
        } by {
            if t1.on_path(c, j) {
                lemma_with_stats(t1.data_of(j), stats_played(t1.data_of(j).stats(), is_win));
            }
        }
        lemma_terminals_frame(t1, new);
    }
}

/// What one step of the search at `leaf` may leave of tree `old`: the tree
/// unchanged where the leaf was already expanded; else the leaf expanded,
/// then played out as `after_expansion` describes.
pub open spec fn step_outcome<S: GameState>(
    new: SearchTree<S>,
    old: SearchTree<S>,
    leaf: int,
    player: PlayerColor,
) -> bool {
    if old.data_of(leaf).stats().is_expanded {
        new == old
    } else {
        exists|t1: SearchTree<S>|
            #[trigger] is_expansion(t1, old, leaf) && t1.wf() && after_expansion(new, t1, leaf, player)
    }
}

/// True if `trees` is a run of the search: from a fresh root, each tree is
/// what a step at `leaves` left of the one before, while the root could
/// count one more play; every tree of the run is consistent, as each step
/// leaves it.
pub open spec fn search_run<S: GameState>(trees: Seq<SearchTree<S>>, leaves: Seq<int>, player: PlayerColor) -> bool {
    &&& trees.len() == leaves.len() + 1
    &&& trees[0].len() == 1
    &&& trees[0].children_of(0) == Seq::<usize>::empty()
    &&& !trees[0].data_of(0).stats().is_expanded
    &&& trees[0].data_of(0).stats().plays <= 1
    &&& forall|i: int| 0 <= i < trees.len() ==> consistent(#[trigger] trees[i]) && states_wf(trees[i])
    &&& forall|i: int|
        #![trigger leaves[i]]
        0 <= i < leaves.len() ==> {
            &&& trees[i].has(leaves[i])
            &&& trees[i].data_of(0).stats().plays < usize::MAX
            &&& step_outcome(trees[i + 1], trees[i], leaves[i], player)
        }
}

/// Over a whole run of the search, however many steps it takes, every tree
/// has its plays balanced: each node has been played as often as its
/// children together, or once more. And once the root of the last tree is
/// saturated, every node without children (every finished game of the
/// tree) has been played exactly once.
pub proof fn lemma_search_run_balanced<S: GameState>(
    trees: Seq<SearchTree<S>>,
    leaves: Seq<int>,
    player: PlayerColor,
)
    requires
        search_run(trees, leaves, player),
    ensures
        forall|i: int| 0 <= i < trees.len() ==> plays_balanced(#[trigger] trees[i]),
        trees.last().data_of(0).saturated() ==> forall|j: int|
            trees.last().has(j) && trees.last().children_of(j).len() == 0 ==> (#[trigger] trees.last().data_of(
                j,
            )).stats().plays == 1,
{
    assert forall|i: int| 0 <= i < trees.len() implies plays_balanced(#[trigger] trees[i]) by {
        lemma_search_run_prefix(trees, leaves, player, i);
    }
    let last = trees.last();
    assert(trees[trees.len() - 1] == last);
    if last.data_of(0).saturated() {
        assert forall|j: int| last.has(j) && last.children_of(j).len() == 0 implies (#[trigger] last.data_of(
            j,
        )).stats().plays == 1 by {
            crate::balance::lemma_saturated_leaves_played_once(last, j);
        }
    }
}

/// The `n`-th tree of a run of the search has its plays balanced.
proof fn lemma_search_run_prefix<S: GameState>(
    trees: Seq<SearchTree<S>>,
    leaves: Seq<int>,
    player: PlayerColor,
    n: int,
)
    requires
        search_run(trees, leaves, player),
        0 <= n < trees.len(),
    ensures
        plays_balanced(trees[n]),
    decreases n,
{
    if n == 0 {
        crate::balance::lemma_new_root_balanced(trees[0]);
    } else {
        lemma_search_run_prefix(trees, leaves, player, n - 1);
        let t0 = trees[n - 1];
        let leaf = leaves[n - 1];
        assert(step_outcome(trees[n], t0, leaf, player));
        assert(consistent(t0) && states_wf(t0));
        if !t0.data_of(leaf).stats().is_expanded {
            let t1 = choose|t1: SearchTree<S>|
                #[trigger] is_expansion(t1, t0, leaf) && t1.wf() && after_expansion(trees[n], t1, leaf, player);
            lemma_expand_consistent(t0, t1, leaf);
            lemma_step_balanced(t0, t1, trees[n], leaf, player);
        }
    }
}

/// One step of the search from a selected leaf: expand it; if that gave
/// children, play one of them, picked at random, out to the end of the
/// game and count the result up to the root; if the leaf is a finished
/// game, count its result if it was never counted, record it, and report
/// the leaf's saturation and its finished game up to the root. A leaf that
/// is already expanded is left alone, and `false` returned.
///
/// Each step keeps the tree consistent: every node's count of saturated
/// children stays the number of its children that reported saturation.
/// It also keeps the plays balanced (a node is played as often as its
/// children together, or once more, and a finished game exactly once), as
/// long as the root can count one more play, and it keeps every node's
/// terminal count equal to the number of finished games below it.
pub fn mcts_step<S: GameState>(tree: &mut SearchTree<S>, leaf: usize, player_color: PlayerColor, rng: &mut SmallRng) -> (r: bool)
    requires
        consistent(*old(tree)),
        old(tree).has(leaf as int),
        states_wf(*old(tree)),
        old(tree).len() + moves_at(old(tree).data_of(leaf as int).view_state()).len() < usize::MAX,
    ensures
        consistent(*final(tree)),
        states_wf(*final(tree)),
        r == !old(tree).data_of(leaf as int).stats().is_expanded,
        !r ==> *final(tree) == *old(tree),
        r ==> exists|t1: SearchTree<S>|
            #[trigger] is_expansion(t1, *old(tree), leaf as int) && after_expansion(*final(tree), t1, leaf as int, player_color),
        plays_balanced(*old(tree)) && old(tree).data_of(0).stats().plays < usize::MAX ==> plays_balanced(*final(tree)),
        terminals_counted(*old(tree)) ==> terminals_counted(*final(tree)),
        step_outcome(*final(tree), *old(tree), leaf as int, player_color),
{
    let ghost t0 = *tree;
    let expand_result = expand(tree, leaf);
    if expand_result.is_err() {
        return false;
    }
    let ghost t1 = *tree;
    proof {
        lemma_expand_consistent(t0, t1, leaf as int);
        assert(node_consistent(t0, leaf as int));
    }
    let n = tree.child_count(leaf);
    if n > 0 {
        let children = tree.children(leaf);
        let sim_node = *random_pick(children.as_slice(), rng).unwrap();
        let ghost k = choose|k: int| 0 <= k < children@.len() && children@[k] == sim_node;
        proof {
            // A new child has never been played.
            assert(t1.parent_of(t0.len() + k) == Some(leaf));
            assert(t1.children_of(leaf as int)[k] == (t0.len() + k) as usize);
            lemma_with_stats(t1.data_of(sim_node as int), fresh_stats(0, 0));
        }
        if tree.data(sim_node).plays() == 0 {
            let sim_result = simulate(tree, sim_node, rng);
            let is_win = sim_result.is_win_for_player(player_color);
            backprop_sim_result(tree, sim_node, is_win);
            proof {
                assert(child_simulated(*tree, t1, leaf as int, k, sim_result, player_color));
                assert forall|j: int| 0 <= j < t1.len() implies same_bookkeeping(
                    #[trigger] tree.data_of(j).stats(),
                    t1.data_of(j).stats(),
                ) by {
                    lemma_with_stats(t1.data_of(j), stats_played(t1.data_of(j).stats(), is_win));
                }
                lemma_consistent_frame(t1, *tree);
                assert forall|j: int| 0 <= j < tree.len() implies (#[trigger] tree.data_of(j)).view_state().wf() by {
                    lemma_with_stats(t1.data_of(j), stats_played(t1.data_of(j).stats(), is_win));
                }
            }
        }
    } else {
        proof {
            // Only a finished game has no moves, hence no children.
            let st = t0.data_of(leaf as int).view_state();
            if !st.spec_game_over() {
                st.lemma_playable();
                assert(t1.children_of(leaf as int).len() == moves_at(st).len());
            }
            lemma_with_stats(
                t0.data_of(leaf as int),
                NodeStats { is_expanded: true, children_count: 0, ..t0.data_of(leaf as int).stats() },
            );
        }
        let sim_result = simulate(tree, leaf, rng);
        let is_win = sim_result.is_win_for_player(player_color);
        if tree.data(leaf).plays() == 0 {
            backprop_sim_result(tree, leaf, is_win);
            proof {
                assert forall|j: int| 0 <= j < t1.len() implies same_bookkeeping(
                    #[trigger] tree.data_of(j).stats(),
                    t1.data_of(j).stats(),
                ) by {
                    lemma_with_stats(t1.data_of(j), stats_played(t1.data_of(j).stats(), is_win));
                }
                lemma_consistent_frame(t1, *tree);
                assert forall|j: int| 0 <= j < tree.len() implies (#[trigger] tree.data_of(j)).view_state().wf() by {
                    lemma_with_stats(t1.data_of(j), stats_played(t1.data_of(j).stats(), is_win));
                }
            }
        }
        let ghost t2 = *tree;
        proof {
            if t1.data_of(leaf as int).stats().plays == 0 {
                lemma_with_stats(t1.data_of(leaf as int), stats_played(t1.data_of(leaf as int).stats(), is_win));
            }
            assert(t2.data_of(leaf as int).stats().end_state_result is None);
        }
        if tree.data(leaf).end_state_result().is_none() {
            let ghost d2 = t2.data_of(leaf as int);
            tree.data_mut(leaf).set_end_state_result(sim_result);
            let ghost t3 = *tree;
            proof {
                lemma_with_stats(d2, NodeStats { end_state_result: Some(sim_result), ..d2.stats() });
                lemma_with_stats(t1.data_of(leaf as int), stats_played(t1.data_of(leaf as int).stats(), is_win));
                lemma_record_result(t2, t3, leaf as int);
                lemma_saturation_ready(t3, leaf as int);
            }
            backprop_saturation(tree, leaf);
            let ghost t4 = *tree;
            proof {
                lemma_saturation_consistent(t3, t4, leaf as int);
            }
            backprop_terminal_count(tree, leaf, is_win);
            proof {
                assert(leaf_finished(*tree, t1, t2, t3, t4, leaf as int, sim_result, player_color));
                assert forall|j: int| 0 <= j < t4.len() implies same_bookkeeping(
                    #[trigger] tree.data_of(j).stats(),
                    t4.data_of(j).stats(),
                ) by {
                    lemma_with_stats(t4.data_of(j), stats_terminal(t4.data_of(j).stats(), is_win));
                }
                lemma_consistent_frame(t4, *tree);
                assert forall|j: int| 0 <= j < tree.len() implies (#[trigger] tree.data_of(j)).view_state().wf() by {
                    lemma_with_stats(t4.data_of(j), stats_terminal(t4.data_of(j).stats(), is_win));
                    assert(t3.data_of(j).view_state() == t2.data_of(j).view_state());
                    assert(t4.data_of(j).view_state() == t3.data_of(j).view_state()) by {
                        if j == leaf as int {
                            let s3 = t3.data_of(j).stats();
                            lemma_with_stats(t3.data_of(j), crate::mcts_data::stats_worst_case(s3, s3.wins, s3.plays));
                        } else if let Some(a) = crate::search::saturation_walk(t3, leaf as int, j) {
                            lemma_with_stats(t3.data_of(j), crate::search::sat_step(t3.data_of(j).stats(), a.0, a.1, a.2));
                        }
                    }
                }
            }
        }
    }
    proof {
        assert(after_expansion(*tree, t1, leaf as int, player_color));
        if plays_balanced(t0) && t0.data_of(0).stats().plays < usize::MAX {
            lemma_step_balanced(t0, t1, *tree, leaf as int, player_color);
        }
        if terminals_counted(t0) {
            lemma_step_terminals(t0, t1, *tree, leaf as int, player_color);
        }
    }
    true
}

} // verus!
