use vstd::prelude::*;
use crate::amcts_data::{asummary_of, lemma_with_counts, lemma_with_counts_twice, ACounts, AMctsData};
use crate::game::{spec_is_win_for, GameResult, GameState, PlayerColor};
use crate::mcts_data::{counter_add, MctsResult};
use crate::random::random_pick;
use crate::ranking::{is_stable_order, key_before, stable_order};
use vstd::arithmetic::div_mod::{lemma_div_basics_5, lemma_div_pos_is_pos};
use crate::search::{moves_at, play_out, plays_out};
use crate::tree::{applied_up_from, lemma_walk_start, lemma_walk_step, walked, Tree};
use crate::balance::{
    children_listed, finished_played_at, lemma_balanced_frame, lemma_played_path_balanced, lemma_plays_sum_frame,
    plays_balanced, plays_bounded_at, plays_sum, Counted,
};
use rand::rngs::SmallRng;

verus! {

/// A tree of the parallel search: every node holds `AMctsData`.
pub type ASearchTree<S> = Tree<AMctsData<S>>;

/// `d` after one more simulation through it, won or not.
pub open spec fn a_played<S: GameState>(d: AMctsData<S>, is_win: bool) -> AMctsData<S> {
    d.with_counts(
        ACounts {
            plays: counter_add(d.counts().plays, 1),
            wins: if is_win {
                counter_add(d.counts().wins, 1)
            } else {
                d.counts().wins
            },
            ..d.counts()
        },
    )
}

/// `d` with one more saturated child counted.
pub open spec fn a_child_saturated<S: GameState>(d: AMctsData<S>) -> AMctsData<S> {
    d.with_counts(
        ACounts { children_saturated_count: counter_add(d.counts().children_saturated_count, 1), ..d.counts() },
    )
}

/// Every node of the tree holds a consistent game state.
pub open spec fn a_states_wf<S: GameState>(t: ASearchTree<S>) -> bool {
    forall|j: int| 0 <= j < t.len() ==> (#[trigger] t.data_of(j)).view_state().wf()
}

/// `new` is `old` after node `node`, not yet expanded, has been expanded:
/// it is marked expanded; if its game is over it counts no children,
/// otherwise it gets one new child per legal move, in the order of the
/// moves, after any children it had.
pub open spec fn is_a_expansion<S: GameState>(new: ASearchTree<S>, old: ASearchTree<S>, node: int) -> bool {
    let d = old.data_of(node);
    let st = d.view_state();
    if st.spec_game_over() {
        &&& new.same_shape(old)
        &&& forall|j: int|
            0 <= j < old.len() ==> #[trigger] new.data_of(j) == if j == node {
                d.with_counts(ACounts { is_expanded: true, children_count: 0, ..d.counts() })
            } else {
                old.data_of(j)
            }
    } else {
        let moves = moves_at(st);
        let n = moves.len();
        &&& new.len() == old.len() + n
        &&& new.children_of(node) == old.children_of(node) + Seq::new(n, |k: int| (old.len() + k) as usize)
        &&& forall|j: int|
            0 <= j < old.len() && j != node ==> #[trigger] new.children_of(j) == old.children_of(j)
        &&& forall|j: int| 0 <= j < old.len() ==> #[trigger] new.parent_of(j) == old.parent_of(j)
        &&& forall|j: int|
            0 <= j < old.len() ==> #[trigger] new.data_of(j) == if j == node {
                d.with_counts(ACounts { is_expanded: true, children_count: n as usize, ..d.counts() })
            } else {
                old.data_of(j)
            }
        &&& forall|k: int|
            0 <= k < n ==> {
                &&& #[trigger] new.parent_of(old.len() + k) == Some(node as usize)
                &&& new.children_of(old.len() + k) == Seq::<usize>::empty()
                &&& new.data_of(old.len() + k).view_state() == st.spec_apply(moves[k])
                &&& new.data_of(old.len() + k).view_action() == Some(moves[k])
                &&& new.data_of(old.len() + k).counts() == (ACounts {
                    plays: 0,
                    wins: 0,
                    is_expanded: false,
                    children_count: 0,
                    children_saturated_count: 0,
                    end_state_result: None,
                })
            }
    }
}

/// Expands the node: marks it expanded and, unless its game is over,
/// gives it a child for every legal move. Returns the node's children; a
/// node whose game is over gets none and an empty list is returned. A node
/// that was already expanded is left alone and its children are returned.
pub fn expand<S: GameState>(tree: &mut ASearchTree<S>, node: usize) -> (r: Vec<usize>)
    requires
        old(tree).wf(),
        old(tree).has(node as int),
        a_states_wf(*old(tree)),
        old(tree).len() + moves_at(old(tree).data_of(node as int).view_state()).len() < usize::MAX,
    ensures
        final(tree).wf(),
        a_states_wf(*final(tree)),
        old(tree).data_of(node as int).counts().is_expanded ==> *final(tree) == *old(tree) && r@
            == old(tree).children_of(node as int),
        !old(tree).data_of(node as int).counts().is_expanded ==> is_a_expansion(*final(tree), *old(tree), node as int)
            && r@ == if old(tree).data_of(node as int).view_state().spec_game_over() {
            Seq::<usize>::empty()
        } else {
            final(tree).children_of(node as int)
        },
{
    if tree.data(node).is_expanded() {
        // Another search beat us to the punch, so no work to do.
        return tree.children(node);
    }
    let ghost start = *tree;
    let ghost d = start.data_of(node as int);
    tree.data_mut(node).mark_expanded();
    let state = tree.data(node).state().clone_state();
    proof {
        lemma_with_counts(d, ACounts { is_expanded: true, ..d.counts() });
    }
    if state.is_game_over() {
        // if the game is over, we have nothing to expand
        tree.data_mut(node).set_children_count(0);
        proof {
            lemma_with_counts_twice(
                d,
                ACounts { is_expanded: true, ..d.counts() },
                ACounts { is_expanded: true, children_count: 0, ..d.counts() },
            );
            lemma_with_counts(d, ACounts { is_expanded: true, children_count: 0, ..d.counts() });
            crate::tree::lemma_same_shape(start, *tree);
        }
        return Vec::new();
    }
    let player_turn = state.current_player_turn();
    let legal_actions = state.legal_moves(player_turn);
    let n = legal_actions.len();
    proof {
        state.lemma_playable();
    }

    // Now that we've expanded this node, update it to
    // inform it how many children it has.
    tree.data_mut(node).set_children_count(n);
    proof {
        lemma_with_counts_twice(
            d,
            ACounts { is_expanded: true, ..d.counts() },
            ACounts { is_expanded: true, children_count: n, ..d.counts() },
        );
        lemma_with_counts(d, ACounts { is_expanded: true, children_count: n, ..d.counts() });
        crate::tree::lemma_same_shape(start, *tree);
    }
    let ghost base = *tree;
    let ghost len0 = base.len();
    let ghost kids0 = base.children_of(node as int);
    // create a new child node for every available action->state transition
    let mut k: usize = 0;
    while k < n
        invariant
            start.wf(),
            a_states_wf(start),
            start.has(node as int),
            !state.spec_game_over(),
            state == d.view_state(),
            state.wf(),
            legal_actions@ == moves_at(state),
            n == legal_actions@.len(),
            forall|i: int| 0 <= i < n ==> #[trigger] state.spec_can_apply(legal_actions@[i]),
            len0 == start.len(),
            len0 + n < usize::MAX,
            kids0 == start.children_of(node as int),
            k <= n,
            tree.wf(),
            tree.len() == len0 + k,
            tree.children_of(node as int) == kids0 + Seq::new(k as nat, |i: int| (len0 + i) as usize),
            forall|j: int| 0 <= j < len0 && j != node ==> #[trigger] tree.children_of(j) == start.children_of(j),
            forall|j: int| 0 <= j < len0 ==> #[trigger] tree.parent_of(j) == start.parent_of(j),
            forall|j: int| 0 <= j < len0 ==> #[trigger] tree.data_of(j) == base.data_of(j),
            forall|i: int|
                0 <= i < k ==> {
                    &&& #[trigger] tree.parent_of(len0 + i) == Some(node)
                    &&& tree.children_of(len0 + i) == Seq::<usize>::empty()
                    &&& tree.data_of(len0 + i).view_state() == state.spec_apply(legal_actions@[i])
                    &&& tree.data_of(len0 + i).view_action() == Some(legal_actions@[i])
                    &&& tree.data_of(len0 + i).counts() == (ACounts {
                        plays: 0,
                        wins: 0,
                        is_expanded: false,
                        children_count: 0,
                        children_saturated_count: 0,
                        end_state_result: None,
                    })
                },
        decreases n - k,
    {
        let action = legal_actions[k];
        let resulting_state = state.next_state(action);
        let data = AMctsData::new(resulting_state, 0, 0, Some(action));
        let child = tree.new_child(node, data);
        proof {
            assert(tree.children_of(node as int) =~= kids0 + Seq::new((k + 1) as nat, |i: int| (len0 + i) as usize));
        }
        k = k + 1;
    }
    proof {
        assert forall|j: int| 0 <= j < tree.len() implies (#[trigger] tree.data_of(j)).view_state().wf() by {
            if j < len0 {
                assert(tree.data_of(j) == base.data_of(j));
            } else {
                let i = j - len0;
                assert(tree.parent_of(len0 + i) == Some(node));
                state.lemma_apply_wf(legal_actions@[i]);
            }
        }
    }
    tree.children(node)
}

/// Plays the game on from the node's state, each player picking a legal
/// move at random, until it is over; returns how it ended.
pub fn simulate<S: GameState>(tree: &ASearchTree<S>, node: usize, rng: &mut SmallRng) -> (r: GameResult)
    requires
        tree.has(node as int),
        tree.data_of(node as int).view_state().wf(),
    ensures
        plays_out(tree.data_of(node as int).view_state(), r),
{
    play_out(tree.data(node).state(), rng)
}

/// Starting with the given node, count one more simulation, won or not,
/// at the node and every one of its ancestors.
pub fn backprop_sim_result<S: GameState>(tree: &mut ASearchTree<S>, node: usize, is_win: bool)
    requires
        old(tree).wf(),
        old(tree).has(node as int),
    ensures
        final(tree).wf(),
        applied_up_from(*final(tree), *old(tree), node as int, |d: AMctsData<S>| a_played(d, is_win)),
{
    let ghost f = |d: AMctsData<S>| a_played(d, is_win);
    let ghost start = *tree;
    let mut parent_node: Option<usize> = Some(node);
    proof {
        lemma_walk_start(start, node, f);
    }
    loop
        invariant
            start.wf(),
            walked(*tree, start, node as int, parent_node, f),
            forall|d: AMctsData<S>| #[trigger] f(d) == a_played(d, is_win),
        ensures
            parent_node is None,
        decreases
            match parent_node {
                Some(i) => i + 1,
                None => 0,
            },
    {
        match parent_node {
            None => {
                break;
            },
            Some(i) => {
                let ghost mid = *tree;
                assert(tree.len() == start.len());
                let data = tree.data_mut(i);
                let ghost d0 = *data;
                data.increment_plays();
                let ghost c1 = ACounts { plays: counter_add(d0.counts().plays, 1), ..d0.counts() };
                if is_win {
                    proof {
                        lemma_with_counts(d0, c1);
                        lemma_with_counts_twice(d0, c1, ACounts { wins: counter_add(d0.counts().wins, 1), ..c1 });
                    }
                    data.increment_wins();
                }
                proof {
                    assert(f(d0) == a_played(d0, is_win));
                    lemma_walk_step(start, mid, *tree, node as int, i, f);
                }
                parent_node = tree.parent(i);
            },
        }
    }
    proof {
        crate::tree::lemma_same_shape(start, *tree);
        assert forall|d: AMctsData<S>| #[trigger] f(d) == a_played(d, is_win) by {}
    }
}

/// True if the saturation walk that counts a saturated child at `cur`
/// reaches node `j`: it goes on to the parent of every node that is
/// saturated once the child is counted.
pub open spec fn a_reaches<S: GameState>(t: ASearchTree<S>, cur: int, j: int) -> bool
    decreases cur,
{
    if cur < 0 || cur >= t.len() {
        false
    } else if j == cur {
        true
    } else if a_child_saturated(t.data_of(cur)).saturated() {
        match t.parent_of(cur) {
            Some(p) => if p < cur {
                a_reaches(t, p as int, j)
            } else {
                false
            },
            None => false,
        }
    } else {
        false
    }
}

/// True if the walk of a saturated leaf's report, starting at its parent,
/// reaches node `j`.
pub open spec fn a_saturation_reaches<S: GameState>(t: ASearchTree<S>, leaf: int, j: int) -> bool {
    t.parent_of(leaf) matches Some(p) && a_reaches(t, p as int, j)
}

/// The nodes the walk reaches are on the path up from where it starts.
pub proof fn lemma_a_reaches_path<S: GameState>(t: ASearchTree<S>, cur: int, j: int)
    requires
        t.wf(),
        a_reaches(t, cur, j),
    ensures
        t.on_path(cur, j),
    decreases cur,
{
    if j != cur {
        let p = t.parent_of(cur).unwrap();
        lemma_a_reaches_path(t, p as int, j);
    }
}

/// Every node that the walk reporting the saturation of `leaf` reaches has
/// fewer saturated children than children, so it can count one more.
pub open spec fn a_walk_fits<S: GameState>(t: ASearchTree<S>, leaf: int) -> bool {
    forall|j: int|
        #[trigger] a_saturation_reaches(t, leaf, j) ==> t.data_of(j).counts().children_saturated_count
            < t.data_of(j).counts().children_count
}

/// True if every node that the walk reporting the saturation of `leaf`
/// reaches can count one more saturated child.
pub fn saturation_walk_fits<S: GameState>(tree: &ASearchTree<S>, leaf: usize) -> (r: bool)
    requires
        tree.wf(),
        tree.has(leaf as int),
    ensures
        r == a_walk_fits(*tree, leaf as int),
{
    let ghost t = *tree;
    let mut handle = tree.parent(leaf);
    proof {
        assert forall|j: int| #[trigger] a_saturation_reaches(t, leaf as int, j) implies crate::tree::walk_pending(
            t,
            handle,
            j,
        ) by {
            lemma_a_reaches_path(t, t.parent_of(leaf as int).unwrap() as int, j);
        }
        if let Some(p) = handle {
            if leaf > 0 {
                assert(t.parent_of(leaf as int) matches Some(q) && q < leaf);
            }
            assert(a_reaches(t, p as int, p as int));
        }
    }
    loop
        invariant
            t == *tree,
            t.wf(),
            t.has(leaf as int),
            handle matches Some(c) ==> t.has(c as int) && a_saturation_reaches(t, leaf as int, c as int) && forall|
                j: int,
            | #[trigger] a_saturation_reaches(t, leaf as int, j) && t.on_path(c as int, j) ==> a_reaches(t, c as int, j),
            forall|j: int|
                #[trigger] a_saturation_reaches(t, leaf as int, j) && !crate::tree::walk_pending(t, handle, j)
                    ==> t.data_of(j).counts().children_saturated_count < t.data_of(j).counts().children_count,
        decreases
            match handle {
                Some(i) => i + 1,
                None => 0,
            },
    {
        match handle {
            None => {
                return true;
            },
            Some(i) => {
                let d = tree.data(i);
                let sat_count = d.children_saturated_count();
                let count = d.children_count();
                if sat_count >= count {
                    return false;
                }
                let saturated_after = d.is_expanded() && sat_count + 1 >= count;
                let next = tree.parent(i);
                let ghost di = t.data_of(i as int);
                proof {
                    lemma_with_counts(
                        di,
                        ACounts {
                            children_saturated_count: counter_add(di.counts().children_saturated_count, 1),
                            ..di.counts()
                        },
                    );
                    assert(saturated_after == a_child_saturated(di).saturated());
                    if i > 0 {
                        assert(t.parent_of(i as int) matches Some(p) && p < i);
                    }
                }
                if !saturated_after {
                    proof {
                        assert forall|j: int| #[trigger] a_saturation_reaches(t, leaf as int, j) implies t.data_of(
                            j,
                        ).counts().children_saturated_count < t.data_of(j).counts().children_count by {
                            if crate::tree::walk_pending(t, Some(i), j) {
                                assert(a_reaches(t, i as int, j));
                                assert(j == i as int);
                            }
                        }
                    }
                    return true;
                }
                proof {
                    assert forall|j: int|
                        #[trigger] a_saturation_reaches(t, leaf as int, j) && !crate::tree::walk_pending(t, next, j)
                            implies t.data_of(j).counts().children_saturated_count
                            < t.data_of(j).counts().children_count by {
                        crate::tree::lemma_on_path_step(t, i as int, j);
                    }
                    if let Some(p) = next {
                        assert(a_reaches(t, p as int, p as int));
                        assert(a_reaches(t, i as int, p as int));
                        let lp = t.parent_of(leaf as int).unwrap();
                        assert(a_reaches(t, lp as int, i as int));
                        lemma_a_reaches_trans(t, lp as int, i as int, p as int);
                        assert forall|j: int| #[trigger] a_saturation_reaches(t, leaf as int, j) && t.on_path(
                            p as int,
                            j,
                        ) implies a_reaches(t, p as int, j) by {
                            crate::tree::lemma_on_path_step(t, i as int, j);
                            crate::tree::lemma_on_path_le(t, p as int, j);
                            assert(a_reaches(t, i as int, j));
                        }
                    }
                }
                handle = next;
            },
        }
    }
}

/// Where the walk goes depends only on the parents, and on the counts of
/// saturated children, the counts of children and the expanded flags of the
/// nodes before `leaf`.
proof fn lemma_a_reaches_frame<S: GameState>(t: ASearchTree<S>, u: ASearchTree<S>, leaf: int, cur: int, j: int)
    requires
        t.len() <= u.len(),
        0 <= cur < leaf,
        leaf <= t.len(),
        forall|k: int| 0 <= k < t.len() ==> #[trigger] u.parent_of(k) == t.parent_of(k),
        forall|k: int|
            0 <= k < leaf ==> {
                let a = (#[trigger] u.data_of(k)).counts();
                let b = t.data_of(k).counts();
                a.children_saturated_count == b.children_saturated_count && a.children_count == b.children_count
                    && a.is_expanded == b.is_expanded
            },
    ensures
        a_reaches(u, cur, j) == a_reaches(t, cur, j),
    decreases cur,
{
    let du = u.data_of(cur);
    let dt = t.data_of(cur);
    lemma_with_counts(
        du,
        ACounts { children_saturated_count: counter_add(du.counts().children_saturated_count, 1), ..du.counts() },
    );
    lemma_with_counts(
        dt,
        ACounts { children_saturated_count: counter_add(dt.counts().children_saturated_count, 1), ..dt.counts() },
    );
    if j != cur {
        if let Some(p) = t.parent_of(cur) {
            if p < cur {
                lemma_a_reaches_frame(t, u, leaf, p as int, j);
            }
        }
    }
}

/// Increment the parent's count of saturated children, and its parent's
/// as long as the node just counted at becomes saturated. No node can
/// count more saturated children than it has children.
pub fn backprop_saturation<S: GameState>(tree: &mut ASearchTree<S>, leaf: usize)
    requires
        old(tree).wf(),
        old(tree).has(leaf as int),
        old(tree).data_of(leaf as int).saturated(),
        a_walk_fits(*old(tree), leaf as int),
    ensures
        final(tree).wf(),
        final(tree).same_shape(*old(tree)),
        forall|j: int|
            0 <= j < old(tree).len() ==> #[trigger] final(tree).data_of(j) == if a_saturation_reaches(
                *old(tree),
                leaf as int,
                j,
            ) {
                a_child_saturated(old(tree).data_of(j))
            } else {
                old(tree).data_of(j)
            },
{
    let ghost start = *tree;
    let mut handle = tree.parent(leaf);
    proof {
        assert forall|j: int| #[trigger] a_saturation_reaches(start, leaf as int, j) implies crate::tree::walk_pending(
            start,
            handle,
            j,
        ) by {
            lemma_a_reaches_path(start, start.parent_of(leaf as int).unwrap() as int, j);
        }
    }
    loop
        invariant
            start == *old(tree),
            start.wf(),
            start.has(leaf as int),
            a_walk_fits(start, leaf as int),
            tree.same_shape(start),
            handle matches Some(c) ==> start.has(c as int) && a_saturation_reaches(start, leaf as int, c as int)
                && forall|j: int| #[trigger] a_saturation_reaches(start, leaf as int, j) && start.on_path(c as int, j)
                    ==> a_reaches(start, c as int, j),
            forall|j: int|
                0 <= j < start.len() ==> #[trigger] tree.data_of(j) == if a_saturation_reaches(start, leaf as int, j)
                    && !crate::tree::walk_pending(start, handle, j) {
                    a_child_saturated(start.data_of(j))
                } else {
                    start.data_of(j)
                },
            handle is None ==> forall|j: int| !(#[trigger] crate::tree::walk_pending(start, handle, j)),
        ensures
            forall|j: int|
                0 <= j < start.len() ==> #[trigger] tree.data_of(j) == if a_saturation_reaches(start, leaf as int, j) {
                    a_child_saturated(start.data_of(j))
                } else {
                    start.data_of(j)
                },
        decreases
            match handle {
                Some(i) => i + 1,
                None => 0,
            },
    {
        match handle {
            None => {
                break;
            },
            Some(i) => {
                let ghost mid = *tree;
                proof {
                    assert(start.on_path(i as int, i as int));
                    assert(mid.data_of(i as int) == start.data_of(i as int));
                    if i > 0 {
                        assert(start.parent_of(i as int) matches Some(p) && p < i);
                    }
                }
                tree.data_mut(i).increment_saturated_children_count();
                let saturated = tree.data(i).is_saturated();
                let next = tree.parent(i);
                proof {
                    assert(tree.data_of(i as int) == a_child_saturated(start.data_of(i as int)));
                    assert(start.parent_of(i as int) == next);
                }
                if !saturated {
                    // Don't back-prop any further
                    // if we've reached a non-saturated node.
                    proof {
                        assert forall|j: int| 0 <= j < start.len() implies #[trigger] tree.data_of(j) == if a_saturation_reaches(
                            start,
                            leaf as int,
                            j,
                        ) {
                            a_child_saturated(start.data_of(j))
                        } else {
                            start.data_of(j)
                        } by {
                            if a_saturation_reaches(start, leaf as int, j) && crate::tree::walk_pending(start, Some(i), j) {
                                assert(a_reaches(start, i as int, j));
                                assert(j == i as int);
                            }
                        }
                        crate::tree::lemma_same_shape(start, *tree);
                    }
                    return;
                }
                proof {
                    assert forall|j: int| 0 <= j < start.len() implies #[trigger] tree.data_of(j) == if a_saturation_reaches(
                        start,
                        leaf as int,
                        j,
                    ) && !crate::tree::walk_pending(start, next, j) {
                        a_child_saturated(start.data_of(j))
                    } else {
                        start.data_of(j)
                    } by {
                        crate::tree::lemma_on_path_step(start, i as int, j);
                        if j == i as int {
                            if let Some(p) = next {
                                if start.on_path(p as int, j) {
                                    crate::tree::lemma_on_path_le(start, p as int, j);
                                }
                            }
                        } else {
                            assert(tree.data_of(j) == mid.data_of(j));
                        }
                    }
                    if let Some(p) = next {
                        assert(a_reaches(start, p as int, p as int));
                        assert(a_reaches(start, i as int, p as int));
                        let lp = start.parent_of(leaf as int).unwrap();
                        assert(a_reaches(start, lp as int, i as int));
                        lemma_a_reaches_trans(start, lp as int, i as int, p as int);
                        assert forall|j: int| #[trigger] a_saturation_reaches(start, leaf as int, j) && start.on_path(
                            p as int,
                            j,
                        ) implies a_reaches(start, p as int, j) by {
                            crate::tree::lemma_on_path_step(start, i as int, j);
                            crate::tree::lemma_on_path_le(start, p as int, j);
                            assert(a_reaches(start, i as int, j));
                        }
                    }
                }
                handle = next;
            },
        }
    }
    proof {
        crate::tree::lemma_same_shape(start, *tree);
    }
}

/// The children of `node` that are not saturated, in order: those a
/// traversal may descend into.
pub fn unsaturated_children<S: GameState>(tree: &ASearchTree<S>, node: usize) -> (r: Vec<usize>)
    requires
        tree.wf(),
        tree.has(node as int),
    ensures
        r@ == tree.children_of(node as int).filter(|c: usize| !tree.data_of(c as int).saturated()),
{
    let ghost pred = |c: usize| !tree.data_of(c as int).saturated();
    let children = tree.children(node);
    let mut r: Vec<usize> = Vec::new();
    for k in 0usize..children.len()
        invariant
            tree.wf(),
            children@ == tree.children_of(node as int),
            tree.has(node as int),
            pred == (|c: usize| !tree.data_of(c as int).saturated()),
            r@ == children@.take(k as int).filter(pred),
    {
        let c = children[k];
        assert(c < tree.len());
        if !tree.data(c).is_saturated() {
            r.push(c);
        }
        proof {
            reveal_with_fuel(Seq::filter, 1);
            assert(children@.take(k + 1).drop_last() =~= children@.take(k as int));
        }
    }
    proof {
        assert(children@.take(children@.len() as int) =~= children@);
    }
    r
}

/// `new` is `old` after the saturation of `leaf` has been reported: every
/// node the walk reaches counts one more saturated child.
pub open spec fn a_saturation_reported<S: GameState>(new: ASearchTree<S>, old: ASearchTree<S>, leaf: int) -> bool {
    &&& new.same_shape(old)
    &&& forall|j: int|
        0 <= j < old.len() ==> #[trigger] new.data_of(j) == if a_saturation_reaches(old, leaf, j) {
            a_child_saturated(old.data_of(j))
        } else {
            old.data_of(j)
        }
}

/// The children that expanding `leaf` of `old` into `t1` hands back.
pub open spec fn expand_result<S: GameState>(t1: ASearchTree<S>, old: ASearchTree<S>, leaf: int) -> Seq<usize> {
    if !old.data_of(leaf).counts().is_expanded && old.data_of(leaf).view_state().spec_game_over() {
        Seq::empty()
    } else {
        t1.children_of(leaf)
    }
}

/// `t1` is `old` after `leaf` was expanded, or `old` itself if it already
/// was.
pub open spec fn a_expanded<S: GameState>(t1: ASearchTree<S>, old: ASearchTree<S>, leaf: int) -> bool {
    if old.data_of(leaf).counts().is_expanded {
        t1 == old
    } else {
        is_a_expansion(t1, old, leaf)
    }
}

/// The simulation of the `k`-th child handed back by the expansion: it was
/// played out to `result`, counted at the child and all its ancestors.
pub open spec fn a_child_simulated<S: GameState>(
    new: ASearchTree<S>,
    t1: ASearchTree<S>,
    kids: Seq<usize>,
    k: int,
    result: GameResult,
    player: PlayerColor,
) -> bool {
    &&& 0 <= k < kids.len()
    &&& plays_out(t1.data_of(kids[k] as int).view_state(), result)
    &&& applied_up_from(new, t1, kids[k] as int, |d: AMctsData<S>| a_played(d, spec_is_win_for(result, player)))
}

/// The handling of a leaf without children after its expansion: its game
/// was played out to `result`; if it had never been played that result was
/// counted up to the root (`t2`); the result was recorded (`t3`); and its
/// saturation reported (`new`).
pub open spec fn a_leaf_finished<S: GameState>(
    new: ASearchTree<S>,
    t1: ASearchTree<S>,
    t2: ASearchTree<S>,
    t3: ASearchTree<S>,
    leaf: int,
    result: GameResult,
    player: PlayerColor,
) -> bool {
    let d2 = t2.data_of(leaf);
    &&& plays_out(t1.data_of(leaf).view_state(), result)
    &&& if t1.data_of(leaf).counts().plays == 0 {
        applied_up_from(t2, t1, leaf, |d: AMctsData<S>| a_played(d, spec_is_win_for(result, player)))
    } else {
        t2 == t1
    }
    &&& t3.same_shape(t2)
    &&& t3.data_of(leaf) == d2.with_counts(ACounts { end_state_result: Some(result), ..d2.counts() })
    &&& forall|j: int| 0 <= j < t2.len() && j != leaf ==> #[trigger] t3.data_of(j) == t2.data_of(j)
    &&& a_saturation_reported(new, t3, leaf)
}

/// The tree's nodes are linked both ways, and a node not yet expanded has
/// no children.
pub open spec fn a_tree_linked<S: GameState>(t: ASearchTree<S>) -> bool {
    &&& children_listed(t)
    &&& forall|j: int| 0 <= j < t.len() && !(#[trigger] t.data_of(j)).counts().is_expanded ==> t.children_of(j).len() == 0
}

/// A tree of one node without children, not expanded, is linked: such is
/// the root that a search starts from.
pub proof fn lemma_a_new_root_linked<S: GameState>(t: ASearchTree<S>)
    requires
        t.len() == 1,
        t.parent_of(0) is None,
        t.children_of(0) == Seq::<usize>::empty(),
    ensures
        a_tree_linked(t),
{
}

/// All plays are zero: so is their sum.
proof fn lemma_a_plays_sum_zero<S: GameState>(t: ASearchTree<S>, cs: Seq<usize>)
    requires
        forall|k: int| 0 <= k < cs.len() ==> (#[trigger] t.data_of(cs[k] as int)).counts().plays == 0,
    ensures
        plays_sum(t, cs) == 0,
    decreases cs.len(),
{
    if cs.len() > 0 {
        assert(t.data_of(cs[cs.len() - 1] as int).counts().plays == 0);
        lemma_a_plays_sum_zero(t, cs.drop_last());
    }
}

/// `a_played` counts one more play and keeps whether a node is expanded.
proof fn lemma_a_played_counts<S: GameState>(is_win: bool)
    ensures
        forall|d: AMctsData<S>|
            (#[trigger] a_played(d, is_win)).counted_plays() == counter_add(d.counted_plays(), 1)
                && a_played(d, is_win).counted_expanded() == d.counted_expanded(),
{
    assert forall|d: AMctsData<S>|
        (#[trigger] a_played(d, is_win)).counted_plays() == counter_add(d.counted_plays(), 1)
            && a_played(d, is_win).counted_expanded() == d.counted_expanded() by {
        lemma_with_counts(
            d,
            ACounts {
                plays: counter_add(d.counts().plays, 1),
                wins: if is_win {
                    counter_add(d.counts().wins, 1)
                } else {
                    d.counts().wins
                },
                ..d.counts()
            },
        );
    }
}

/// One step of the parallel search from a leaf not yet expanded keeps the
/// plays balanced and the tree linked, provided the root can count one more
/// play.
proof fn lemma_a_step_balanced<S: GameState>(
    t0: ASearchTree<S>,
    t1: ASearchTree<S>,
    new: ASearchTree<S>,
    leaf: int,
    player: PlayerColor,
)
    requires
        t0.wf(),
        t1.wf(),
        a_states_wf(t0),
        plays_balanced(t0),
        a_tree_linked(t0),
        t0.has(leaf),
        !t0.data_of(leaf).counts().is_expanded,
        t0.data_of(0).counts().plays < usize::MAX,
        is_a_expansion(t1, t0, leaf),
        ({
            let kids = expand_result(t1, t0, leaf);
            if kids.len() > 0 {
                exists|k: int, result: GameResult| #[trigger] a_child_simulated(new, t1, kids, k, result, player)
            } else {
                exists|t2: ASearchTree<S>, t3: ASearchTree<S>, result: GameResult|
                    #[trigger] a_leaf_finished(new, t1, t2, t3, leaf, result, player)
            }
        }),
    ensures
        plays_balanced(new),
        a_tree_linked(new),
{
    let d = t0.data_of(leaf);
    let st = d.view_state();
    assert(t0.children_of(leaf).len() == 0);
    if st.spec_game_over() {
        let c1 = ACounts { is_expanded: true, children_count: 0, ..d.counts() };
        lemma_with_counts(d, c1);
        crate::tree::lemma_same_shape(t0, t1);
        assert forall|j: int| 0 <= j < t1.len() implies #[trigger] plays_bounded_at(t1, j) by {
            let cs = t0.children_of(j);
            assert(plays_bounded_at(t0, j));
            assert forall|k: int| 0 <= k < cs.len() implies (#[trigger] t1.data_of(cs[k] as int)).counted_plays()
                == t0.data_of(cs[k] as int).counted_plays() by {
                assert(cs[k] < t0.len());
            }
            lemma_plays_sum_frame(t0, t1, cs);
        }
        assert forall|j: int| 0 <= j < t1.len() && j != leaf implies #[trigger] finished_played_at(t1, j) by {
            assert(finished_played_at(t0, j));
        }
        assert(children_listed(t1)) by {
            assert forall|j: int| 0 <= j < t1.len() implies (#[trigger] t1.parent_of(j) matches Some(p)
                ==> t1.children_of(p as int).contains(j as usize)) by {
                assert(t0.parent_of(j) == t1.parent_of(j));
                if let Some(p) = t1.parent_of(j) {
                    if j > 0 {
                        assert(t0.parent_of(j) matches Some(q) && q < j);
                    }
                    assert(t0.children_of(p as int) == t1.children_of(p as int));
                }
            }
        }
        let (t2, t3, result) = choose|t2: ASearchTree<S>, t3: ASearchTree<S>, result: GameResult|
            #[trigger] a_leaf_finished(new, t1, t2, t3, leaf, result, player);
        let is_win = spec_is_win_for(result, player);
        if t1.data_of(leaf).counts().plays == 0 {
            lemma_a_played_counts::<S>(is_win);
            lemma_played_path_balanced(t1, t2, leaf, |d: AMctsData<S>| a_played(d, is_win));
        } else {
            assert(plays_bounded_at(t0, leaf));
            assert(finished_played_at(t1, leaf));
        }
        crate::tree::lemma_same_shape(t1, t2);
        let d2 = t2.data_of(leaf);
        lemma_with_counts(d2, ACounts { end_state_result: Some(result), ..d2.counts() });
        lemma_balanced_frame(t2, t3);
        crate::tree::lemma_same_shape(t2, t3);
        assert forall|j: int| 0 <= j < t3.len() implies (#[trigger] new.data_of(j)).counts().plays == t3.data_of(
            j,
        ).counts().plays && new.data_of(j).counts().is_expanded == t3.data_of(j).counts().is_expanded by {
            let dj = t3.data_of(j);
            lemma_with_counts(
                dj,
                ACounts { children_saturated_count: counter_add(dj.counts().children_saturated_count, 1), ..dj.counts() },
            );
        }
        lemma_balanced_frame(t3, new);
        crate::tree::lemma_same_shape(t3, new);
        assert forall|j: int| 0 <= j < new.len() && !(#[trigger] new.data_of(j)).counts().is_expanded implies new.children_of(
            j,
        ).len() == 0 by {
            assert(t1.children_of(j) == t0.children_of(j));
            assert(t2.children_of(j) == t1.children_of(j));
            assert(t3.children_of(j) == t2.children_of(j));
            assert(new.children_of(j) == t3.children_of(j));
            if j != leaf {
                assert(t3.data_of(j) == t2.data_of(j));
                if t1.data_of(leaf).counts().plays == 0 && t1.on_path(leaf, j) {
                    lemma_a_played_counts::<S>(is_win);
                    assert(t2.data_of(j) == a_played(t1.data_of(j), is_win));
                }
            }
        }
        assert(children_listed(new)) by {
            assert forall|j: int| 0 <= j < new.len() implies (#[trigger] new.parent_of(j) matches Some(p)
                ==> new.children_of(p as int).contains(j as usize)) by {
                assert(t1.parent_of(j) == new.parent_of(j)) by {
                    assert(t2.parent_of(j) == t1.parent_of(j));
                    assert(t3.parent_of(j) == t2.parent_of(j));
                    assert(new.parent_of(j) == t3.parent_of(j));
                }
                assert(t1.parent_of(j) matches Some(p) ==> t1.children_of(p as int).contains(j as usize));
                if let Some(p) = new.parent_of(j) {
                    if j > 0 {
                        assert(t1.parent_of(j) matches Some(q) && q < j);
                    }
                    assert(t2.children_of(p as int) == t1.children_of(p as int));
                    assert(t3.children_of(p as int) == t2.children_of(p as int));
                    assert(new.children_of(p as int) == t3.children_of(p as int));
                }
            }
        }
    } else {
        let n = moves_at(st).len();
        st.lemma_playable();
        let c1 = ACounts { is_expanded: true, children_count: n as usize, ..d.counts() };
        lemma_with_counts(d, c1);
        assert(t1.children_of(leaf) =~= Seq::new(n, |k: int| (t0.len() + k) as usize));
        assert forall|k: int| t0.len() <= k < t1.len() implies (#[trigger] t1.data_of(k)).counts().plays == 0
            && !t1.data_of(k).counts().is_expanded && t1.children_of(k).len() == 0 && t1.parent_of(k) == Some(
            leaf as usize,
        ) by {
            let i = k - t0.len();
            assert(t1.parent_of(t0.len() + i) == Some(leaf as usize));
        }
        assert forall|j: int|
            #![trigger plays_bounded_at(t1, j)]
            #![trigger finished_played_at(t1, j)]
            0 <= j < t1.len() implies plays_bounded_at(t1, j) && finished_played_at(t1, j) by {
            if j < t0.len() {
                let cs = t1.children_of(j);
                assert(plays_bounded_at(t0, j));
                assert(finished_played_at(t0, j));
                if j == leaf {
                    assert forall|k: int| 0 <= k < cs.len() implies (#[trigger] t1.data_of(cs[k] as int)).counts().plays
                        == 0 by {
                        assert(cs[k] == t0.len() + k);
                    }
                    lemma_a_plays_sum_zero(t1, cs);
                    lemma_a_plays_sum_zero(t0, t0.children_of(j));
                } else {
                    assert(cs == t0.children_of(j));
                    assert forall|k: int| 0 <= k < cs.len() implies (#[trigger] t1.data_of(cs[k] as int)).counted_plays()
                        == t0.data_of(cs[k] as int).counted_plays() by {
                        assert(cs[k] < t0.len());
                    }
                    lemma_plays_sum_frame(t0, t1, cs);
                }
            } else {
                assert(t1.data_of(j).counts().plays == 0);
            }
        }
        assert(children_listed(t1)) by {
            assert forall|j: int| 0 <= j < t1.len() implies (#[trigger] t1.parent_of(j) matches Some(p)
                ==> t1.children_of(p as int).contains(j as usize)) by {
                if j < t0.len() {
                    assert(t0.parent_of(j) == t1.parent_of(j));
                    if let Some(p) = t1.parent_of(j) {
                        if j > 0 {
                            assert(t0.parent_of(j) matches Some(q) && q < j);
                        }
                        assert(t0.children_of(p as int).contains(j as usize));
                        assert(p != leaf);
                        assert(t0.children_of(p as int) == t1.children_of(p as int));
                    }
                } else {
                    let i = j - t0.len();
                    assert(t1.parent_of(t0.len() + i) == Some(leaf as usize));
                    assert(t1.children_of(leaf)[j - t0.len()] == j);
                }
            }
        }
        let kids = expand_result(t1, t0, leaf);
        assert(kids == t1.children_of(leaf));
        let (k, result) = choose|k: int, result: GameResult| #[trigger] a_child_simulated(new, t1, kids, k, result, player);
        let c = kids[k] as int;
        let is_win = spec_is_win_for(result, player);
        lemma_a_played_counts::<S>(is_win);
        lemma_played_path_balanced(t1, new, c, |d: AMctsData<S>| a_played(d, is_win));
        crate::tree::lemma_same_shape(t1, new);
        assert forall|j: int| 0 <= j < new.len() && !(#[trigger] new.data_of(j)).counts().is_expanded implies new.children_of(
            j,
        ).len() == 0 by {
            assert(new.children_of(j) == t1.children_of(j));
            if t1.on_path(c, j) {
                assert(new.data_of(j) == a_played(t1.data_of(j), is_win));
            }
            if j < t0.len() && j != leaf {
                assert(t1.children_of(j) == t0.children_of(j));
            }
        }
        assert(children_listed(new)) by {
            assert forall|j: int| 0 <= j < new.len() implies (#[trigger] new.parent_of(j) matches Some(p)
                ==> new.children_of(p as int).contains(j as usize)) by {
                assert(new.parent_of(j) == t1.parent_of(j));
                assert(t1.parent_of(j) matches Some(p) ==> t1.children_of(p as int).contains(j as usize));
                if let Some(p) = new.parent_of(j) {
                    if j > 0 {
                        assert(t1.parent_of(j) matches Some(q) && q < j);
                    }
                    assert(new.children_of(p as int) == t1.children_of(p as int));
                }
            }
        }
    }
}

/// One step of the parallel search from a selected leaf: expand it (or
/// take its children if it already was); if there are children, play one
/// of them, picked at random, out to the end of the game and count the
/// result up to the root; otherwise the leaf is a finished game: count its
/// result if it was never played, record it, and report its saturation.
///
/// From a leaf not yet expanded, a step keeps the plays balanced (a node is
/// played as often as its children together, or once more, and a finished
/// game exactly once), as long as the root can count one more play.
pub fn mcts_step<S: GameState>(tree: &mut ASearchTree<S>, leaf: usize, player_color: PlayerColor, rng: &mut SmallRng)
    requires
        old(tree).wf(),
        old(tree).has(leaf as int),
        a_states_wf(*old(tree)),
        old(tree).len() + moves_at(old(tree).data_of(leaf as int).view_state()).len() < usize::MAX,
        old(tree).data_of(leaf as int).counts().is_expanded && old(tree).children_of(leaf as int).len() == 0
            ==> old(tree).data_of(leaf as int).saturated(),
        (if old(tree).data_of(leaf as int).counts().is_expanded {
            old(tree).children_of(leaf as int).len() == 0
        } else {
            old(tree).data_of(leaf as int).view_state().spec_game_over()
        }) ==> a_walk_fits(*old(tree), leaf as int),
    ensures
        final(tree).wf(),
        a_states_wf(*final(tree)),
        a_step_outcome(*final(tree), *old(tree), leaf as int, player_color),
        plays_balanced(*old(tree)) && a_tree_linked(*old(tree)) && old(tree).data_of(0).counts().plays < usize::MAX
            && !old(tree).data_of(leaf as int).counts().is_expanded ==> plays_balanced(*final(tree)) && a_tree_linked(
            *final(tree),
        ),
{
    let ghost t0 = *tree;
    let expanded_children = expand(tree, leaf);
    let ghost t1 = *tree;
    proof {
        assert(a_expanded(t1, t0, leaf as int));
        assert(expanded_children@ == expand_result(t1, t0, leaf as int));
    }
    if expanded_children.len() > 0 {
        let sim_node = *random_pick(expanded_children.as_slice(), rng).unwrap();
        let ghost k = choose|k: int| 0 <= k < expanded_children@.len() && expanded_children@[k] == sim_node;
        proof {
            assert(t1.children_of(leaf as int).contains(sim_node));
            let i = choose|i: int| 0 <= i < t1.children_of(leaf as int).len() && t1.children_of(leaf as int)[i] == sim_node;
            assert(t1.children_of(leaf as int)[i] < t1.len());
        }
        let sim_result = simulate(tree, sim_node, rng);
        let is_win = sim_result.is_win_for_player(player_color);
        backprop_sim_result(tree, sim_node, is_win);
        proof {
            assert(a_child_simulated(*tree, t1, expanded_children@, k, sim_result, player_color));
            assert forall|j: int| 0 <= j < tree.len() implies (#[trigger] tree.data_of(j)).view_state().wf() by {
                let dj = t1.data_of(j);
                lemma_with_counts(
                    dj,
                    ACounts {
                        plays: counter_add(dj.counts().plays, 1),
                        wins: if is_win {
                            counter_add(dj.counts().wins, 1)
                        } else {
                            dj.counts().wins
                        },
                        ..dj.counts()
                    },
                );
            }
        }
    } else {
        proof {
            let d0 = t0.data_of(leaf as int);
            if !d0.counts().is_expanded {
                let st = d0.view_state();
                lemma_with_counts(d0, ACounts { is_expanded: true, children_count: 0, ..d0.counts() });
                if !st.spec_game_over() {
                    st.lemma_playable();
                }
            }
        }
        let sim_result = simulate(tree, leaf, rng);
        let is_win = sim_result.is_win_for_player(player_color);
        if tree.data(leaf).plays() == 0 {
            backprop_sim_result(tree, leaf, is_win);
            proof {
                assert forall|j: int| 0 <= j < tree.len() implies (#[trigger] tree.data_of(j)).view_state().wf() by {
                    let dj = t1.data_of(j);
                    lemma_with_counts(
                        dj,
                        ACounts {
                            plays: counter_add(dj.counts().plays, 1),
                            wins: if is_win {
                                counter_add(dj.counts().wins, 1)
                            } else {
                                dj.counts().wins
                            },
                            ..dj.counts()
                        },
                    );
                }
                let dl = t1.data_of(leaf as int);
                lemma_with_counts(
                    dl,
                    ACounts {
                        plays: counter_add(dl.counts().plays, 1),
                        wins: if is_win {
                            counter_add(dl.counts().wins, 1)
                        } else {
                            dl.counts().wins
                        },
                        ..dl.counts()
                    },
                );
            }
        }
        let ghost t2 = *tree;
        let ghost d2 = t2.data_of(leaf as int);
        // Update the terminating node so it knows its own end game result.
        tree.data_mut(leaf).set_end_state_result(sim_result);
        let ghost t3 = *tree;
        proof {
            lemma_with_counts(d2, ACounts { end_state_result: Some(sim_result), ..d2.counts() });
            crate::tree::lemma_same_shape(t2, t3);
            // Nothing the walk reads changed before the leaf: the walk and
            // the counts it meets are those of the tree the step began with.
            assert(a_walk_fits(t0, leaf as int));
            assert forall|k: int| 0 <= k < leaf as int implies {
                let a = (#[trigger] t3.data_of(k)).counts();
                let b = t0.data_of(k).counts();
                a.children_saturated_count == b.children_saturated_count && a.children_count == b.children_count
                    && a.is_expanded == b.is_expanded
            } by {
                assert(t3.data_of(k) == t2.data_of(k));
                if t1.data_of(leaf as int).counts().plays == 0 && t1.on_path(leaf as int, k) {
                    let dk = t1.data_of(k);
                    lemma_with_counts(
                        dk,
                        ACounts {
                            plays: counter_add(dk.counts().plays, 1),
                            wins: if is_win {
                                counter_add(dk.counts().wins, 1)
                            } else {
                                dk.counts().wins
                            },
                            ..dk.counts()
                        },
                    );
                }
            }
            assert forall|k: int| 0 <= k < t0.len() implies #[trigger] t3.parent_of(k) == t0.parent_of(k) by {
                assert(t2.parent_of(k) == t1.parent_of(k));
                assert(t3.parent_of(k) == t2.parent_of(k));
            }
            assert forall|j: int| #[trigger] a_saturation_reaches(t3, leaf as int, j) implies t3.data_of(j).counts().children_saturated_count
                < t3.data_of(j).counts().children_count by {
                let p = t3.parent_of(leaf as int).unwrap();
                if leaf > 0 {
                    assert(t0.parent_of(leaf as int) matches Some(q) && q < leaf);
                }
                lemma_a_reaches_frame(t0, t3, leaf as int, p as int, j);
                assert(a_saturation_reaches(t0, leaf as int, j));
                lemma_a_reaches_path(t0, p as int, j);
                crate::tree::lemma_on_path_le(t0, p as int, j);
            }
        }
        backprop_saturation(tree, leaf);
        proof {
            assert(a_leaf_finished(*tree, t1, t2, t3, leaf as int, sim_result, player_color));
            assert forall|j: int| 0 <= j < tree.len() implies (#[trigger] tree.data_of(j)).view_state().wf() by {
                let dj = t3.data_of(j);
                lemma_with_counts(
                    dj,
                    ACounts {
                        children_saturated_count: counter_add(dj.counts().children_saturated_count, 1),
                        ..dj.counts()
                    },
                );
                assert(t3.data_of(j).view_state() == t2.data_of(j).view_state());
            }
        }
    }
    proof {
        if plays_balanced(t0) && a_tree_linked(t0) && t0.data_of(0).counts().plays < usize::MAX
            && !t0.data_of(leaf as int).counts().is_expanded {
            lemma_a_step_balanced(t0, t1, *tree, leaf as int, player_color);
        }
    }
}

/// What one step of the search at `leaf` may leave of tree `old`: the leaf
/// expanded (where it was not yet), then either one of its new children
/// played out and counted up to the root, or, where the leaf has no
/// children, the leaf itself played out, its result recorded and its
/// saturation reported.
pub open spec fn a_step_outcome<S: GameState>(
    new: ASearchTree<S>,
    old: ASearchTree<S>,
    leaf: int,
    player: PlayerColor,
) -> bool {
    exists|t1: ASearchTree<S>|
        #[trigger] a_expanded(t1, old, leaf) && t1.wf() && {
            let kids = expand_result(t1, old, leaf);
            if kids.len() > 0 {
                exists|k: int, result: GameResult| #[trigger] a_child_simulated(new, t1, kids, k, result, player)
            } else {
                exists|t2: ASearchTree<S>, t3: ASearchTree<S>, result: GameResult|
                    #[trigger] a_leaf_finished(new, t1, t2, t3, leaf, result, player)
            }
        }
}

/// True if `trees` is a run of the search: from a fresh root, each tree is
/// what a step at `leaves`, a leaf not yet expanded, left of the one before,
/// while the root could count one more play.
pub open spec fn a_search_run<S: GameState>(
    trees: Seq<ASearchTree<S>>,
    leaves: Seq<int>,
    player: PlayerColor,
) -> bool {
    &&& trees.len() == leaves.len() + 1
    &&& trees[0].len() == 1
    &&& trees[0].children_of(0) == Seq::<usize>::empty()
    &&& trees[0].parent_of(0) is None
    &&& !trees[0].data_of(0).counts().is_expanded
    &&& trees[0].data_of(0).counts().plays <= 1
    &&& forall|i: int| 0 <= i < trees.len() ==> (#[trigger] trees[i]).wf() && a_states_wf(trees[i])
    &&& forall|i: int|
        #![trigger leaves[i]]
        0 <= i < leaves.len() ==> {
            &&& trees[i].has(leaves[i])
            &&& !trees[i].data_of(leaves[i]).counts().is_expanded
            &&& trees[i].data_of(0).counts().plays < usize::MAX
            &&& a_step_outcome(trees[i + 1], trees[i], leaves[i], player)
        }
}

/// Over a whole run of the search, however many steps it takes, every
/// tree has its plays balanced: each node has been played as often as its
/// children together, or once more, and each finished game that has been
/// expanded has been played exactly once; and every node not expanded has
/// no children.
pub proof fn lemma_a_search_run_balanced<S: GameState>(
    trees: Seq<ASearchTree<S>>,
    leaves: Seq<int>,
    player: PlayerColor,
)
    requires
        a_search_run(trees, leaves, player),
    ensures
        forall|i: int| 0 <= i < trees.len() ==> plays_balanced(#[trigger] trees[i]) && a_tree_linked(trees[i]),
{
    assert forall|i: int| 0 <= i < trees.len() implies plays_balanced(#[trigger] trees[i]) && a_tree_linked(
        trees[i],
    ) by {
        lemma_a_search_run_prefix(trees, leaves, player, i);
    }
}

/// The `n`-th tree of a run of the search has its plays balanced.
proof fn lemma_a_search_run_prefix<S: GameState>(
    trees: Seq<ASearchTree<S>>,
    leaves: Seq<int>,
    player: PlayerColor,
    n: int,
)
    requires
        a_search_run(trees, leaves, player),
        0 <= n < trees.len(),
    ensures
        plays_balanced(trees[n]),
        a_tree_linked(trees[n]),
    decreases n,
{
    if n == 0 {
        crate::balance::lemma_new_root_balanced(trees[0]);
        lemma_a_new_root_linked(trees[0]);
    } else {
        lemma_a_search_run_prefix(trees, leaves, player, n - 1);
        let t0 = trees[n - 1];
        let leaf = leaves[n - 1];
        assert(a_step_outcome(trees[n], t0, leaf, player));
        assert(t0.wf() && a_states_wf(t0));
        let t1 = choose|t1: ASearchTree<S>|
            #[trigger] a_expanded(t1, t0, leaf) && t1.wf() && {
                let kids = expand_result(t1, t0, leaf);
                if kids.len() > 0 {
                    exists|k: int, result: GameResult| #[trigger] a_child_simulated(trees[n], t1, kids, k, result, player)
                } else {
                    exists|t2: ASearchTree<S>, t3: ASearchTree<S>, result: GameResult|
                        #[trigger] a_leaf_finished(trees[n], t1, t2, t3, leaf, result, player)
                }
            };
        lemma_a_step_balanced(t0, t1, trees[n], leaf, player);
    }
}

/// The ranking key of a child of the root: whether it is a won finished
/// game, then, once the whole tree is explored, its wins per thousand
/// plays, and before that its plays.
pub open spec fn a_rank_key<S: GameState>(d: AMctsData<S>, player: PlayerColor, explored: bool) -> (bool, usize) {
    (
        d.counts().end_state_result matches Some(res) && spec_is_win_for(res, player),
        if explored {
            ((d.counts().wins * 1000) / (d.counts().plays as int)) as usize
        } else {
            d.counts().plays
        },
    )
}

/// The ranking keys of the nodes `cs`.
pub open spec fn a_rank_keys<S: GameState>(
    t: ASearchTree<S>,
    cs: Seq<usize>,
    player: PlayerColor,
    explored: bool,
) -> Seq<(bool, usize)> {
    Seq::new(cs.len(), |k: int| a_rank_key(t.data_of(cs[k] as int), player, explored))
}

/// True if the child data `d` records a finished game won by `player`.
pub open spec fn a_wins_outright<S: GameState>(d: AMctsData<S>, player: PlayerColor) -> bool {
    d.counts().end_state_result matches Some(res) && spec_is_win_for(res, player)
}

/// True if `order`, a ranking of the root's children `cs`, runs from worst
/// to best for `player`: a child that wins the game outright never comes
/// before one that does not; among children alike in that, once the root
/// is saturated the wins per thousand plays never fall along the ranking,
/// and before that the plays never fall.
pub open spec fn a_ranked<S: GameState>(
    t: ASearchTree<S>,
    cs: Seq<usize>,
    order: Seq<usize>,
    player: PlayerColor,
) -> bool {
    forall|i: int, j: int|
        #![trigger order[i], order[j]]
        0 <= i < j < order.len() ==> {
            let a = t.data_of(cs[order[i] as int] as int);
            let b = t.data_of(cs[order[j] as int] as int);
            &&& a_wins_outright(a, player) ==> a_wins_outright(b, player)
            &&& a_wins_outright(a, player) == a_wins_outright(b, player) ==> if t.data_of(0).saturated() {
                (a.counts().wins * 1000) / (a.counts().plays as int) <= (b.counts().wins * 1000) / (
                b.counts().plays as int)
            } else {
                a.counts().plays <= b.counts().plays
            }
        }
}

/// A ranking of the root's children by their keys runs from worst to best:
/// outright wins last; among children alike in that, by wins per thousand
/// plays once the root is saturated, by plays before.
pub proof fn lemma_a_ranked<S: GameState>(t: ASearchTree<S>, player: PlayerColor, order: Seq<usize>)
    requires
        forall|k: int|
            0 <= k < t.children_of(0).len() ==> {
                let d = #[trigger] t.data_of(t.children_of(0)[k] as int);
                t.data_of(0).saturated() ==> d.counts().plays > 0 && d.counts().wins * 1000 <= usize::MAX
            },
        is_stable_order(a_rank_keys(t, t.children_of(0), player, t.data_of(0).saturated()), order),
    ensures
        a_ranked(t, t.children_of(0), order, player),
{
    let cs = t.children_of(0);
    let explored = t.data_of(0).saturated();
    let keys = a_rank_keys(t, cs, player, explored);
    assert forall|i: int, j: int| #![trigger order[i], order[j]] 0 <= i < j < order.len() implies {
        let a = t.data_of(cs[order[i] as int] as int);
        let b = t.data_of(cs[order[j] as int] as int);
        &&& a_wins_outright(a, player) ==> a_wins_outright(b, player)
        &&& a_wins_outright(a, player) == a_wins_outright(b, player) ==> if explored {
            (a.counts().wins * 1000) / (a.counts().plays as int) <= (b.counts().wins * 1000) / (
            b.counts().plays as int)
        } else {
            a.counts().plays <= b.counts().plays
        }
    } by {
        let oi = order[i] as int;
        let oj = order[j] as int;
        let a = t.data_of(cs[oi] as int);
        let b = t.data_of(cs[oj] as int);
        assert(oi < cs.len() && oj < cs.len());
        if explored {
            assert(a.counts().plays > 0 && a.counts().wins * 1000 <= usize::MAX);
            assert(b.counts().plays > 0 && b.counts().wins * 1000 <= usize::MAX);
            let xa = a.counts().wins * 1000;
            let xb = b.counts().wins * 1000;
            lemma_div_basics_5(xa, a.counts().plays as int);
            lemma_div_pos_is_pos(xa, a.counts().plays as int);
            lemma_div_basics_5(xb, b.counts().plays as int);
            lemma_div_pos_is_pos(xb, b.counts().plays as int);
        }
        assert(keys[oi] == a_rank_key(a, player, explored));
        assert(keys[oj] == a_rank_key(b, player, explored));
        assert(key_before(keys[oi], oi, keys[oj], oj));
    }
}

/// The summaries of the root's children, ranked from worst to best for
/// `player`: once the whole tree is explored by their ratio of wins to
/// plays, before that by their plays; and, regardless of any other metric,
/// the actions that win the game outright last. Children that rank equal
/// keep their order.
pub fn mcts_result<S: GameState>(tree: &ASearchTree<S>, player_color: PlayerColor) -> (r: Vec<MctsResult<S>>)
    requires
        tree.wf(),
        forall|k: int|
            0 <= k < tree.children_of(0).len() ==> {
                let d = #[trigger] tree.data_of(tree.children_of(0)[k] as int);
                &&& d.view_action() is Some
                &&& tree.data_of(0).saturated() ==> d.counts().plays > 0 && d.counts().wins * 1000 <= usize::MAX
            },
    ensures
        exists|order: Seq<usize>|
            #[trigger] is_stable_order(
                a_rank_keys(*tree, tree.children_of(0), player_color, tree.data_of(0).saturated()),
                order,
            ) && r@ == order.map_values(|c: usize| asummary_of(tree.data_of(tree.children_of(0)[c as int] as int)))
                && a_ranked(*tree, tree.children_of(0), order, player_color),
{
    let root: usize = 0;
    let children = tree.children(root);
    let ghost cs = children@;
    let explored = tree.data(root).is_saturated();
    let mut keys: Vec<(bool, usize)> = Vec::new();
    for k in 0usize..children.len()
        invariant
            tree.wf(),
            cs == children@,
            cs == tree.children_of(0),
            explored == tree.data_of(0).saturated(),
            forall|k: int|
                0 <= k < cs.len() ==> {
                    let d = #[trigger] tree.data_of(cs[k] as int);
                    &&& d.view_action() is Some
                    &&& explored ==> d.counts().plays > 0 && d.counts().wins * 1000 <= usize::MAX
                },
            keys@ == a_rank_keys(*tree, cs, player_color, explored).take(k as int),
    {
        let c = children[k];
        assert(c < tree.len());
        let data = tree.data(c);
        let won = match data.end_state_result() {
            Some(result) => result.is_win_for_player(player_color),
            None => false,
        };
        let key = if explored {
            (data.wins() * 1000) / data.plays()
        } else {
            data.plays()
        };
        keys.push((won, key));
        proof {
            assert(a_rank_keys(*tree, cs, player_color, explored).take(k + 1) =~= a_rank_keys(
                *tree,
                cs,
                player_color,
                explored,
            ).take(k as int).push(a_rank_key(tree.data_of(cs[k as int] as int), player_color, explored)));
        }
    }
    proof {
        assert(keys@ =~= a_rank_keys(*tree, cs, player_color, explored));
    }
    let order = stable_order(&keys);
    let mut results: Vec<MctsResult<S>> = Vec::new();
    for i in 0usize..order.len()
        invariant
            tree.wf(),
            cs == children@,
            cs == tree.children_of(0),
            forall|k: int| 0 <= k < cs.len() ==> (#[trigger] tree.data_of(cs[k] as int)).view_action() is Some,
            is_stable_order(keys@, order@),
            keys@.len() == cs.len(),
            results@ == order@.take(i as int).map_values(|c: usize| asummary_of(tree.data_of(cs[c as int] as int))),
    {
        let c = children[order[i]];
        assert(c < tree.len());
        results.push(MctsResult::from_adata(tree.data(c)));
        proof {
            assert(order@.take(i + 1) =~= order@.take(i as int).push(order@[i as int]));
            assert(order@.take(i + 1).map_values(|c: usize| asummary_of(tree.data_of(cs[c as int] as int)))
                =~= order@.take(i as int).map_values(|c: usize| asummary_of(tree.data_of(cs[c as int] as int))).push(
                asummary_of(tree.data_of(cs[order@[i as int] as int] as int)),
            ));
        }
    }
    proof {
        assert(order@.take(order@.len() as int) =~= order@);
        lemma_a_ranked(*tree, player_color, order@);
    }
    results
}

/// Reaching `b` from `c`, and `a` from `b`, reaches `a` from `c`.
pub proof fn lemma_a_reaches_trans<S: GameState>(t: ASearchTree<S>, c: int, b: int, a: int)
    requires
        t.wf(),
        a_reaches(t, c, b),
        a_reaches(t, b, a),
    ensures
        a_reaches(t, c, a),
    decreases c,
{
    if b != c {
        let p = t.parent_of(c).unwrap();
        lemma_a_reaches_trans(t, p as int, b, a);
    }
}

} // verus!
