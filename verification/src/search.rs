use vstd::prelude::*;
use crate::game::{GameResult, GameState, PlayerColor};
use crate::mcts_data::{
    counter_add, fresh_stats, lemma_with_stats, lemma_with_stats_twice, stats_played, stats_saturated,
    stats_terminal, stats_worst_case, MctsData, NodeStats,
};
use crate::random::random_choice;
use rand::rngs::SmallRng;
use crate::tree::{applied_up_from, lemma_walk_start, lemma_walk_step, walked, Tree};

verus! {

/// A search tree: every node holds the search data of one game state.
pub type SearchTree<S> = Tree<MctsData<S>>;

/// `d` after one more simulation through it, won or not.
pub open spec fn played<S: GameState>(d: MctsData<S>, is_win: bool) -> MctsData<S> {
    d.with_stats(stats_played(d.stats(), is_win))
}

/// `d` after one more finished game below it, won or not.
pub open spec fn terminal_counted<S: GameState>(d: MctsData<S>, is_win: bool) -> MctsData<S> {
    d.with_stats(stats_terminal(d.stats(), is_win))
}

/// `d` with its tree size raised by `by`.
pub open spec fn grown<S: GameState>(d: MctsData<S>, by: usize) -> MctsData<S> {
    d.with_stats(NodeStats { tree_size: counter_add(d.stats().tree_size, by), ..d.stats() })
}

/// Starting with the given node,
/// increment the node's wins/plays counts based on is_win,
/// and backprop this result up to the root.
pub fn backprop_sim_result<S: GameState>(tree: &mut SearchTree<S>, node: usize, is_win: bool)
    requires
        old(tree).wf(),
        old(tree).has(node as int),
    ensures
        final(tree).wf(),
        applied_up_from(*final(tree), *old(tree), node as int, |d: MctsData<S>| played(d, is_win)),
{
    let ghost f = |d: MctsData<S>| played(d, is_win);
    let ghost start = *tree;
    let mut handle: Option<usize> = Some(node);
    proof {
        lemma_walk_start(start, node, f);
    }
    loop
        invariant
            start.wf(),
            walked(*tree, start, node as int, handle, f),
            forall|d: MctsData<S>| #[trigger] f(d) == played(d, is_win),
        ensures
            handle is None,
        decreases
            match handle {
                Some(i) => i + 1,
                None => 0,
            },
    {
        match handle {
            None => {
                break;
            },
            Some(i) => {
                let ghost mid = *tree;
                assert(tree.len() == start.len());
                let data = tree.data_mut(i);
                let ghost d0 = *data;
                data.increment_plays();
                if is_win {
                    proof {
                        lemma_with_stats(d0, NodeStats { plays: counter_add(d0.stats().plays, 1), ..d0.stats() });
                        lemma_with_stats_twice(
                            d0,
                            NodeStats { plays: counter_add(d0.stats().plays, 1), ..d0.stats() },
                            stats_played(d0.stats(), true),
                        );
                    }
                    data.increment_wins();
                }
                proof {
                    assert(f(d0) == played(d0, is_win));
                    lemma_walk_step(start, mid, *tree, node as int, i, f);
                }
                handle = tree.parent(i);
            },
        }
    }
    proof {
        crate::tree::lemma_same_shape(start, *tree);
        assert forall|d: MctsData<S>| #[trigger] f(d) == played(d, is_win) by {}
    }
}

/// Raise the tree size of the node and of all its ancestors by `by_count`.
pub fn backprop_increment_tree_size<S: GameState>(tree: &mut SearchTree<S>, node: usize, by_count: usize)
    requires
        old(tree).wf(),
        old(tree).has(node as int),
    ensures
        final(tree).wf(),
        applied_up_from(*final(tree), *old(tree), node as int, |d: MctsData<S>| grown(d, by_count)),
{
    let ghost f = |d: MctsData<S>| grown(d, by_count);
    let ghost start = *tree;
    let mut handle: Option<usize> = Some(node);
    proof {
        lemma_walk_start(start, node, f);
    }
    loop
        invariant
            start.wf(),
            walked(*tree, start, node as int, handle, f),
            forall|d: MctsData<S>| #[trigger] f(d) == grown(d, by_count),
        ensures
            handle is None,
        decreases
            match handle {
                Some(i) => i + 1,
                None => 0,
            },
    {
        match handle {
            None => {
                break;
            },
            Some(i) => {
                let ghost mid = *tree;
                assert(tree.len() == start.len());
                let data = tree.data_mut(i);
                let ghost d0 = *data;
                data.increment_tree_size(by_count);
                proof {
                    assert(f(d0) == grown(d0, by_count));
                    lemma_walk_step(start, mid, *tree, node as int, i, f);
                }
                handle = tree.parent(i);
            },
        }
    }
    proof {
        crate::tree::lemma_same_shape(start, *tree);
        assert forall|d: MctsData<S>| #[trigger] f(d) == grown(d, by_count) by {}
    }
}

/// Count one more finished game, won or not, at the leaf and at all its
/// ancestors.
pub fn backprop_terminal_count<S: GameState>(tree: &mut SearchTree<S>, leaf: usize, is_win: bool)
    requires
        old(tree).wf(),
        old(tree).has(leaf as int),
    ensures
        final(tree).wf(),
        applied_up_from(*final(tree), *old(tree), leaf as int, |d: MctsData<S>| terminal_counted(d, is_win)),
{
    let ghost f = |d: MctsData<S>| terminal_counted(d, is_win);
    let ghost start = *tree;
    let mut handle: Option<usize> = Some(leaf);
    proof {
        lemma_walk_start(start, leaf, f);
    }
    loop
        invariant
            start.wf(),
            walked(*tree, start, leaf as int, handle, f),
            forall|d: MctsData<S>| #[trigger] f(d) == terminal_counted(d, is_win),
        ensures
            handle is None,
        decreases
            match handle {
                Some(i) => i + 1,
                None => 0,
            },
    {
        match handle {
            None => {
                break;
            },
            Some(i) => {
                let ghost mid = *tree;
                assert(tree.len() == start.len());
                let data = tree.data_mut(i);
                let ghost d0 = *data;
                data.increment_terminal_count(is_win);
                proof {
                    assert(f(d0) == terminal_counted(d0, is_win));
                    lemma_walk_step(start, mid, *tree, leaf as int, i, f);
                }
                handle = tree.parent(i);
            },
        }
    }
    proof {
        crate::tree::lemma_same_shape(start, *tree);
        assert forall|d: MctsData<S>| #[trigger] f(d) == terminal_counted(d, is_win) by {}
    }
}

/// The statistics of a node after the saturation walk passes it: it
/// arrives with `inc` newly saturated nodes below, and, while every node
/// passed so far became saturated (`cont`), with the wins and plays `wp`
/// of the node just below. Such a node counts one more saturated child and
/// is offered that ratio as a worst case.
pub open spec fn sat_step(s: NodeStats, inc: nat, cont: bool, wp: (usize, usize)) -> NodeStats {
    let s1 = NodeStats {
        descendants_saturated_count: counter_add(s.descendants_saturated_count, inc as usize),
        ..s
    };
    if cont {
        stats_worst_case(
            NodeStats { children_saturated_count: (s1.children_saturated_count + 1) as usize, ..s1 },
            wp.0,
            wp.1,
        )
    } else {
        s1
    }
}

/// What the saturation walk carries on from a node with statistics `s`
/// at which it arrived carrying `a`: one more newly saturated node if this
/// one just became saturated, whether every node so far became saturated,
/// and, while they did, the wins and plays of this node.
pub open spec fn walk_next(a: (nat, bool, (usize, usize)), s: NodeStats) -> (nat, bool, (usize, usize)) {
    let after = sat_step(s, a.0, a.1, a.2);
    let newly = a.1 && !stats_saturated(s) && stats_saturated(after);
    (
        if newly {
            a.0 + 1
        } else {
            a.0
        },
        a.1 && stats_saturated(after),
        if a.1 {
            (after.wins, after.plays)
        } else {
            a.2
        },
    )
}

/// What the saturation walk, now at `cur` carrying `a` (the count of newly
/// saturated nodes below, whether all of them became saturated, and the
/// ratio of the node just below), carries when it arrives at node `j`;
/// `None` if it never arrives there.
pub open spec fn sat_arrival<S: GameState>(
    t: SearchTree<S>,
    cur: int,
    a: (nat, bool, (usize, usize)),
    j: int,
) -> Option<(nat, bool, (usize, usize))>
    decreases cur,
{
    if cur < 0 || cur >= t.len() {
        None
    } else if j == cur {
        Some(a)
    } else {
        match t.parent_of(cur) {
            Some(p) => if p < cur {
                sat_arrival(t, p as int, walk_next(a, t.data_of(cur).stats()), j)
            } else {
                None
            },
            None => None,
        }
    }
}

/// What the saturation walk that starts above `leaf` carries when it
/// arrives at node `j`.
pub open spec fn saturation_walk<S: GameState>(t: SearchTree<S>, leaf: int, j: int) -> Option<
    (nat, bool, (usize, usize)),
> {
    let s = t.data_of(leaf).stats();
    match t.parent_of(leaf) {
        Some(p) => sat_arrival(t, p as int, (1, true, (s.wins, s.plays)), j),
        None => None,
    }
}

/// The walk reaches exactly the nodes on the path up from where it is.
pub proof fn lemma_sat_arrival_domain<S: GameState>(
    t: SearchTree<S>,
    cur: int,
    a: (nat, bool, (usize, usize)),
    j: int,
)
    requires
        t.wf(),
    ensures
        sat_arrival(t, cur, a, j) is Some <==> t.on_path(cur, j),
    decreases cur,
{
    if 0 <= cur < t.len() && j != cur {
        if cur > 0 {
            assert(t.parent_of(cur) matches Some(p) && p < cur);
        }
        if let Some(p) = t.parent_of(cur) {
            lemma_sat_arrival_domain(t, p as int, walk_next(a, t.data_of(cur).stats()), j);
        }
    }
}

/// `new` is `old` after the saturation of `leaf` has been reported: the
/// leaf is offered its own ratio as a worst case, every node the
/// saturation walk arrives at takes its step, and nothing else changes.
pub open spec fn saturation_reported<S: GameState>(new: SearchTree<S>, old: SearchTree<S>, leaf: int) -> bool {
    &&& new.same_shape(old)
    &&& forall|j: int|
        0 <= j < old.len() ==> #[trigger] new.data_of(j) == if j == leaf {
            old.data_of(j).with_stats(
                stats_worst_case(old.data_of(j).stats(), old.data_of(j).stats().wins, old.data_of(j).stats().plays),
            )
        } else if let Some(a) = saturation_walk(old, leaf, j) {
            old.data_of(j).with_stats(sat_step(old.data_of(j).stats(), a.0, a.1, a.2))
        } else {
            old.data_of(j)
        }
}

/// Report the saturation of a finished leaf to its ancestors: every
/// ancestor counts the newly saturated nodes below it, and while the
/// ancestors keep becoming saturated each of them counts one more
/// saturated child and is offered the wins/plays ratio of its child as a
/// worst case. The leaf itself is offered its own ratio.
pub fn backprop_saturation<S: GameState>(tree: &mut SearchTree<S>, leaf: usize)
    requires
        old(tree).wf(),
        old(tree).has(leaf as int),
        forall|j: int|
            0 <= j < old(tree).len() ==> (#[trigger] saturation_walk(*old(tree), leaf as int, j) matches Some(a)
                && a.1 ==> old(tree).data_of(j).stats().children_saturated_count < old(tree).data_of(
                j,
            ).stats().children_count),
    ensures
        final(tree).wf(),
        saturation_reported(*final(tree), *old(tree), leaf as int),
{
    let ghost start = *tree;
    let ghost d = start.data_of(leaf as int);
    let mut saturated_descendants_increment_count: usize = 1;
    let mut continuous_saturation = true;
    let (mut wins, mut plays) = tree.data(leaf).wins_plays();
    tree.data_mut(leaf).update_worst_case(wins, plays);
    let ghost leaf_data = tree.data_of(leaf as int);
    let mut handle = tree.parent(leaf);
    proof {
        if leaf > 0 {
            assert(start.parent_of(leaf as int) matches Some(p) && p < leaf);
        }
        assert forall|j: int| #[trigger] start.on_path(leaf as int, j) || true by {}
        if let Some(p) = handle {
            assert forall|j: int| start.on_path(p as int, j) implies saturation_walk(start, leaf as int, j)
                == sat_arrival(start, p as int, (1, true, (wins, plays)), j) by {}
            assert forall|j: int| #[trigger] saturation_walk(start, leaf as int, j) is Some <==> start.on_path(
                p as int,
                j,
            ) by {
                lemma_sat_arrival_domain(start, p as int, (1, true, (wins, plays)), j);
            }
        }
    }
    loop
        invariant
            start.wf(),
            start.has(leaf as int),
            tree.same_shape(start),
            forall|j: int|
                0 <= j < start.len() ==> (#[trigger] saturation_walk(start, leaf as int, j) matches Some(a) && a.1
                    ==> start.data_of(j).stats().children_saturated_count < start.data_of(
                    j,
                ).stats().children_count),
            leaf_data == d.with_stats(stats_worst_case(d.stats(), d.stats().wins, d.stats().plays)),
            d == start.data_of(leaf as int),
            handle matches Some(c) ==> {
                &&& start.has(c as int)
                &&& c < leaf
                &&& saturated_descendants_increment_count + c <= leaf
                &&& forall|j: int|
                    start.on_path(c as int, j) ==> #[trigger] saturation_walk(start, leaf as int, j) == sat_arrival(
                        start,
                        c as int,
                        (saturated_descendants_increment_count as nat, continuous_saturation, (wins, plays)),
                        j,
                    )
            },
            handle is None ==> forall|j: int| !(#[trigger] crate::tree::walk_pending(start, handle, j)),
            forall|j: int|
                0 <= j < start.len() ==> #[trigger] tree.data_of(j) == if j == leaf {
                    leaf_data
                } else if saturation_walk(start, leaf as int, j) is Some && !crate::tree::walk_pending(
                    start,
                    handle,
                    j,
                ) {
                    let a = saturation_walk(start, leaf as int, j).unwrap();
                    start.data_of(j).with_stats(sat_step(start.data_of(j).stats(), a.0, a.1, a.2))
                } else {
                    start.data_of(j)
                },
        ensures
            handle is None,
        decreases
            match handle {
                Some(i) => i + 1,
                None => 0,
            },
    {
        match handle {
            None => {
                break;
            },
            Some(i) => {
                proof {
                    lemma_sat_arrival_domain(
                        start,
                        i as int,
                        (saturated_descendants_increment_count as nat, continuous_saturation, (wins, plays)),
                        i as int,
                    );
                    assert(start.on_path(i as int, i as int));
                }
                let ghost mid = *tree;
                let ghost di = start.data_of(i as int);
                let ghost inc = saturated_descendants_increment_count;
                let ghost cont = continuous_saturation;
                let ghost wp = (wins, plays);
                assert(mid.data_of(i as int) == di);
                let data = tree.data_mut(i);
                data.increment_descendants_saturated_count(saturated_descendants_increment_count);
                let ghost s1 = NodeStats {
                    descendants_saturated_count: counter_add(di.stats().descendants_saturated_count, inc),
                    ..di.stats()
                };
                proof {
                    lemma_with_stats(di, s1);
                }
                if continuous_saturation {
                    let was_saturated_before = data.is_saturated();
                    data.increment_saturated_children_count();
                    let ghost s2 = NodeStats {
                        children_saturated_count: (s1.children_saturated_count + 1) as usize,
                        ..s1
                    };
                    proof {
                        lemma_with_stats_twice(di, s1, s2);
                        lemma_with_stats(di, s2);
                    }
                    data.update_worst_case(wins, plays);
                    proof {
                        lemma_with_stats_twice(di, s2, stats_worst_case(s2, wins, plays));
                        lemma_with_stats(di, stats_worst_case(s2, wins, plays));
                    }
                    let was_saturated_after = data.is_saturated();
                    if !was_saturated_before && was_saturated_after {
                        saturated_descendants_increment_count = saturated_descendants_increment_count + 1;
                    }
                    if !was_saturated_after {
                        continuous_saturation = false;
                    }
                    let (w, p) = data.wins_plays();
                    wins = w;
                    plays = p;
                }
                let ghost after = sat_step(di.stats(), inc as nat, cont, wp);
                assert(tree.data_of(i as int) == di.with_stats(after));
                let next = tree.parent(i);
                proof {
                    assert(start.parent_of(i as int) == next);
                    if i > 0 {
                        assert(start.parent_of(i as int) matches Some(p) && p < i);
                    }
                    assert forall|j: int| 0 <= j < start.len() implies #[trigger] tree.data_of(j) == if j == leaf {
                        leaf_data
                    } else if saturation_walk(start, leaf as int, j) is Some
                        && !crate::tree::walk_pending(start, next, j) {
                        let a = saturation_walk(start, leaf as int, j).unwrap();
                        start.data_of(j).with_stats(sat_step(start.data_of(j).stats(), a.0, a.1, a.2))
                    } else {
                        start.data_of(j)
                    } by {
                        crate::tree::lemma_on_path_step(start, i as int, j);
                        if j == i as int {
                            if let Some(p) = next {
                                if start.on_path(p as int, j) {
                                    crate::tree::lemma_on_path_le(start, p as int, j);
                                }
                            }
                        } else {
                            assert(tree.data_of(j) == mid.data_of(j));
                            assert(crate::tree::walk_pending(start, Some(i), j) == crate::tree::walk_pending(
                                start,
                                next,
                                j,
                            ));
                        }
                    }
                    if let Some(p) = next {
                        assert forall|j: int| start.on_path(p as int, j) implies #[trigger] saturation_walk(
                            start,
                            leaf as int,
                            j,
                        ) == sat_arrival(
                            start,
                            p as int,
                            (saturated_descendants_increment_count as nat, continuous_saturation, (wins, plays)),
                            j,
                        ) by {
                            crate::tree::lemma_on_path_step(start, i as int, j);
                            if j == i as int {
                                crate::tree::lemma_on_path_le(start, p as int, j);
                            }
                        }
                    }
                }
                handle = next;
            },
        }
    }
    proof {
        crate::tree::lemma_same_shape(start, *tree);
        assert forall|j: int| 0 <= j < start.len() implies #[trigger] tree.data_of(j) == if j == leaf {
            start.data_of(j).with_stats(
                stats_worst_case(start.data_of(j).stats(), start.data_of(j).stats().wins, start.data_of(j).stats().plays),
            )
        } else if let Some(a) = saturation_walk(start, leaf as int, j) {
            start.data_of(j).with_stats(sat_step(start.data_of(j).stats(), a.0, a.1, a.2))
        } else {
            start.data_of(j)
        } by {}
    }
}

/// The moves available at the state `st` to the player whose turn it is.
pub open spec fn moves_at<S: GameState>(st: S) -> Seq<S::Move> {
    st.spec_legal_moves(st.spec_turn())
}

/// True if `d` is fresh data for the child reached from `st` by `m`: the
/// resulting state, the action, and no statistics yet.
pub open spec fn is_child_data<S: GameState>(d: MctsData<S>, st: S, m: S::Move) -> bool {
    &&& d.view_state() == st.spec_apply(m)
    &&& d.view_action() == Some(m)
    &&& d.stats() == fresh_stats(0, 0)
}

/// `new` is the tree `old` after node `node` has been expanded: the node is
/// marked expanded; if its game is over it gets no children, otherwise it
/// gets one new child per legal move, in the order of the moves, and it
/// and its ancestors grow by that many nodes.
pub open spec fn is_expansion<S: GameState>(new: SearchTree<S>, old: SearchTree<S>, node: int) -> bool {
    let d = old.data_of(node);
    let st = d.view_state();
    if st.spec_game_over() {
        &&& new.same_shape(old)
        &&& forall|j: int|
            0 <= j < old.len() ==> #[trigger] new.data_of(j) == if j == node {
                d.with_stats(NodeStats { is_expanded: true, children_count: 0, ..d.stats() })
            } else {
                old.data_of(j)
            }
    } else {
        let moves = moves_at(st);
        let n = moves.len();
        &&& new.len() == old.len() + n
        &&& new.children_of(node) == Seq::new(n, |k: int| (old.len() + k) as usize)
        &&& forall|j: int|
            0 <= j < old.len() && j != node ==> #[trigger] new.children_of(j) == old.children_of(j)
        &&& forall|j: int| 0 <= j < old.len() ==> #[trigger] new.parent_of(j) == old.parent_of(j)
        &&& forall|j: int|
            0 <= j < old.len() ==> #[trigger] new.data_of(j) == if j == node {
                d.with_stats(
                    NodeStats {
                        is_expanded: true,
                        children_count: n as usize,
                        tree_size: counter_add(d.stats().tree_size, n as usize),
                        ..d.stats()
                    },
                )
            } else if old.on_path(node, j) {
                grown(old.data_of(j), n as usize)
            } else {
                old.data_of(j)
            }
        &&& forall|k: int|
            0 <= k < n ==> {
                &&& #[trigger] new.parent_of(old.len() + k) == Some(node as usize)
                &&& new.children_of(old.len() + k) == Seq::<usize>::empty()
                &&& is_child_data(new.data_of(old.len() + k), st, moves[k])
            }
    }
}

/// Every node of the tree holds a consistent game state.
pub open spec fn states_wf<S: GameState>(t: SearchTree<S>) -> bool {
    forall|j: int| 0 <= j < t.len() ==> (#[trigger] t.data_of(j)).view_state().wf()
}

/// Generate the children of a node: one per legal move of its state, each
/// holding the state that the move leads to. A node whose game is over
/// gets none. A node is expanded only once: a second attempt is refused
/// and changes nothing.
pub fn expand<S: GameState>(tree: &mut SearchTree<S>, node: usize) -> (r: Result<(), &'static str>)
    requires
        old(tree).wf(),
        old(tree).has(node as int),
        states_wf(*old(tree)),
        old(tree).len() + moves_at(old(tree).data_of(node as int).view_state()).len() < usize::MAX,
    ensures
        final(tree).wf(),
        states_wf(*final(tree)),
        r is Err <==> old(tree).data_of(node as int).stats().is_expanded,
        r is Err ==> *final(tree) == *old(tree),
        r is Ok ==> is_expansion(*final(tree), *old(tree), node as int),
{
    if tree.data(node).is_expanded() {
        return Err("We acquired the lock, but the previous holder already expanded.");
    }
    let ghost start = *tree;
    let ghost d = start.data_of(node as int);
    tree.data_mut(node).mark_expanded();
    let state = tree.data(node).state().clone_state();
    proof {
        lemma_with_stats(d, NodeStats { is_expanded: true, ..d.stats() });
        assert(states_wf(*tree)) by {
            assert(forall|j: int| 0 <= j < tree.len() ==> #[trigger] tree.data_of(j).view_state()
                == start.data_of(j).view_state());
        }
    }
    if state.is_game_over() {
        // if the game is over, we have nothing to expand
        let ghost d1 = tree.data_of(node as int);
        tree.data_mut(node).set_children_count(0);
        proof {
            lemma_with_stats_twice(
                d,
                NodeStats { is_expanded: true, ..d.stats() },
                NodeStats { is_expanded: true, children_count: 0, ..d.stats() },
            );
            lemma_with_stats(d, NodeStats { is_expanded: true, children_count: 0, ..d.stats() });
            crate::tree::lemma_same_shape(start, *tree);
        }
        return Ok(());
    }
    let player_turn = state.current_player_turn();
    let legal_actions = state.legal_moves(player_turn);
    let n = legal_actions.len();
    proof {
        state.lemma_playable();
    }

    // Now that we've expanded this node, update it to
    // inform it how many children it has.
    tree.data_mut(node).set_children_count(n);
    proof {
        lemma_with_stats_twice(
            d,
            NodeStats { is_expanded: true, ..d.stats() },
            NodeStats { is_expanded: true, children_count: n, ..d.stats() },
        );
        lemma_with_stats(d, NodeStats { is_expanded: true, children_count: n, ..d.stats() });
        crate::tree::lemma_same_shape(start, *tree);
    }
    let ghost before_growth = *tree;
    backprop_increment_tree_size(tree, node, n);
    proof {
        crate::tree::lemma_same_shape(start, before_growth);
        lemma_with_stats_twice(
            d,
            NodeStats { is_expanded: true, children_count: n, ..d.stats() },
            NodeStats {
                is_expanded: true,
                children_count: n,
                tree_size: counter_add(d.stats().tree_size, n),
                ..d.stats()
            },
        );
        lemma_with_stats(d, NodeStats { is_expanded: true, children_count: n, ..d.stats() });
        assert(tree.on_path(node as int, node as int));
    }
    let ghost grown_tree = *tree;
    tree.clear_children(node);
    let ghost base = *tree;
    let ghost len0 = base.len();
    let mut k: usize = 0;
    while k < n
        invariant
            start.wf(),
            states_wf(start),
            start.has(node as int),
            !state.spec_game_over(),
            state == d.view_state(),
            state.wf(),
            legal_actions@ == moves_at(state),
            n == legal_actions@.len(),
            forall|i: int| 0 <= i < n ==> #[trigger] state.spec_can_apply(legal_actions@[i]),
            len0 == start.len(),
            len0 + n < usize::MAX,
            k <= n,
            tree.wf(),
            tree.len() == len0 + k,
            tree.children_of(node as int) == Seq::new(k as nat, |i: int| (len0 + i) as usize),
            forall|j: int| 0 <= j < len0 && j != node ==> #[trigger] tree.children_of(j) == start.children_of(j),
            forall|j: int| 0 <= j < len0 ==> #[trigger] tree.parent_of(j) == start.parent_of(j),
            forall|j: int| 0 <= j < len0 ==> #[trigger] tree.data_of(j) == grown_tree.data_of(j),
            forall|i: int|
                0 <= i < k ==> {
                    &&& #[trigger] tree.parent_of(len0 + i) == Some(node)
                    &&& tree.children_of(len0 + i) == Seq::<usize>::empty()
                    &&& is_child_data(tree.data_of(len0 + i), state, legal_actions@[i])
                },
        decreases n - k,
    {
        let action = legal_actions[k];
        let resulting_state = state.next_state(action);
        let data = MctsData::new(resulting_state, 0, 0, Some(action));
        let ghost before = *tree;
        let child = tree.new_child(node, data);
        proof {
            assert(tree.children_of(node as int) =~= Seq::new((k + 1) as nat, |i: int| (len0 + i) as usize));
        }
        k = k + 1;
    }
    proof {
        assert forall|j: int| 0 <= j < tree.len() implies (#[trigger] tree.data_of(j)).view_state().wf() by {
            if j < len0 {
                assert(tree.data_of(j) == grown_tree.data_of(j));
                let b = before_growth.data_of(j);
                assert(b.view_state() == start.data_of(j).view_state());
                lemma_with_stats(b, NodeStats { tree_size: counter_add(b.stats().tree_size, n), ..b.stats() });
                assert(grown(b, n).view_state() == b.view_state());
            } else {
                let i = j - len0;
                assert(tree.parent_of(len0 + i) == Some(node));
                state.lemma_apply_wf(legal_actions@[i]);
            }
        }
    }
    Ok(())
}

/// The state reached from `st` by playing, in turn, the moves at the
/// indices `path` into the legal moves of each state met.
pub open spec fn follow<S: GameState>(st: S, path: Seq<int>) -> S
    decreases path.len(),
{
    if path.len() == 0 {
        st
    } else {
        let prev = follow(st, path.drop_last());
        prev.spec_apply(moves_at(prev)[path.last()])
    }
}

/// True if `path` picks, from `st` on, a legal move in every state met,
/// none of which is over.
pub open spec fn is_playout<S: GameState>(st: S, path: Seq<int>) -> bool
    decreases path.len(),
{
    if path.len() == 0 {
        st.wf()
    } else {
        let prev = follow(st, path.drop_last());
        &&& is_playout(st, path.drop_last())
        &&& !prev.spec_game_over()
        &&& 0 <= path.last() < moves_at(prev).len()
    }
}

/// True if some game played on from `st` by legal moves ends with `result`.
pub open spec fn plays_out<S: GameState>(st: S, result: GameResult) -> bool {
    exists|path: Seq<int>|
        #[trigger] is_playout(st, path) && follow(st, path).spec_game_over() && follow(st, path).spec_game_result()
            == Some(result)
}

/// The children of `node` a traversal may descend into, in order: all of
/// them, or, when `filter_sat`, those that are not saturated.
pub fn traversal_candidates<S: GameState>(tree: &SearchTree<S>, node: usize, filter_sat: bool) -> (r: Vec<usize>)
    requires
        tree.wf(),
        tree.has(node as int),
    ensures
        r@ == tree.children_of(node as int).filter(|c: usize| !filter_sat || !tree.data_of(c as int).saturated()),
{
    let ghost pred = |c: usize| !filter_sat || !tree.data_of(c as int).saturated();
    let children = tree.children(node);
    let mut r: Vec<usize> = Vec::new();
    for k in 0usize..children.len()
        invariant
            tree.wf(),
            children@ == tree.children_of(node as int),
            tree.has(node as int),
            pred == (|c: usize| !filter_sat || !tree.data_of(c as int).saturated()),
            r@ == children@.take(k as int).filter(pred),
    {
        let c = children[k];
        assert(c < tree.len());
        let keep = !filter_sat || !tree.data(c).is_saturated();
        if keep {
            r.push(c);
        }
        proof {
            reveal_with_fuel(Seq::filter, 1);
            assert(children@.take(k + 1).drop_last() =~= children@.take(k as int));
        }
    }
    proof {
        assert(children@.take(children@.len() as int) =~= children@);
    }
    r
}

/// Plays the game on from the node's state, each player picking a legal
/// move at random, until it is over; returns how it ended.
pub fn simulate<S: GameState>(tree: &SearchTree<S>, node: usize, rng: &mut SmallRng) -> (r: GameResult)
    requires
        tree.has(node as int),
        tree.data_of(node as int).view_state().wf(),
    ensures
        plays_out(tree.data_of(node as int).view_state(), r),
{
    play_out(tree.data(node).state(), rng)
}

/// Plays the game on from `start`, each player picking a legal move at
/// random, until it is over; returns how it ended.
pub fn play_out<S: GameState>(start: &S, rng: &mut SmallRng) -> (r: GameResult)
    requires
        start.wf(),
    ensures
        plays_out(*start, r),
{
    let mut state = start.clone_state();
    let ghost mut path: Seq<int> = Seq::empty();
    loop
        invariant
            state.wf(),
            is_playout(*start, path),
            state == follow(*start, path),
        decreases state.spec_remaining(),
    {
        if state.is_game_over() {
            proof {
                state.lemma_result_iff_over();
            }
            let result = state.game_result().unwrap();
            assert(is_playout(*start, path));
            return result;
        }
        let player = state.current_player_turn();
        let legal_moves = state.legal_moves(player);
        proof {
            state.lemma_playable();
        }
        let random_action = random_choice(legal_moves.as_slice(), rng);
        let ghost before = state;
        let ghost i = choose|i: int| 0 <= i < legal_moves@.len() && legal_moves@[i] == random_action;
        proof {
            before.lemma_apply_wf(random_action);
        }
        state.apply_move(random_action);
        proof {
            assert(moves_at(before)[i] == random_action);
            assert(before.spec_can_apply(moves_at(before)[i]));
            assert(before.spec_apply(random_action).spec_remaining() < before.spec_remaining());
            let next = path.push(i);
            assert(next.drop_last() =~= path);
            path = next;
        }
    }
}

} // verus!
