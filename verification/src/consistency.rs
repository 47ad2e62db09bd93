use vstd::prelude::*;
use crate::game::GameState;
use crate::mcts_data::{lemma_with_stats, stats_saturated, MctsData, NodeStats};
use crate::search::{
    grown, is_child_data, is_expansion, lemma_sat_arrival_domain, moves_at, sat_arrival, sat_step,
    saturation_reported, saturation_walk, states_wf, walk_next, SearchTree,
};
use crate::mcts_data::{counter_add, fresh_stats};
use crate::tree::{lemma_on_path_le, lemma_on_path_step, lemma_on_path_trans, Tree};

verus! {

/// A node has reported its saturation to its parent: it is saturated and,
/// if it is a finished game, its result is recorded.
pub open spec fn reported<S: GameState>(d: MctsData<S>) -> bool {
    d.saturated() && (d.stats().children_count == 0 ==> d.stats().end_state_result is Some)
}

/// The number of nodes among `cs` that have reported their saturation.
pub open spec fn count_reported<S: GameState>(t: SearchTree<S>, cs: Seq<usize>) -> nat
    decreases cs.len(),
{
    if cs.len() == 0 {
        0
    } else {
        count_reported(t, cs.drop_last()) + if reported(t.data_of(cs.last() as int)) {
            1nat
        } else {
            0nat
        }
    }
}

/// The bookkeeping of node `j` agrees with the tree, except that its count
/// of saturated children may lag `lag` behind: a node that is not expanded
/// has no children and no result; an expanded node counts its children;
/// the saturated-children count is the number of children that reported
/// their saturation, less `lag`; and the node is listed among its
/// parent's children.
pub open spec fn node_consistent_lag<S: GameState>(t: SearchTree<S>, j: int, lag: nat) -> bool {
    let s = t.data_of(j).stats();
    &&& !s.is_expanded ==> t.children_of(j).len() == 0 && s.end_state_result is None
    &&& s.is_expanded ==> s.children_count == t.children_of(j).len()
    &&& s.children_saturated_count + lag == count_reported(t, t.children_of(j))
    &&& (t.parent_of(j) matches Some(p) ==> t.children_of(p as int).contains(j as usize))
}

/// The bookkeeping of node `j` agrees with the tree.
pub open spec fn node_consistent<S: GameState>(t: SearchTree<S>, j: int) -> bool {
    node_consistent_lag(t, j, 0)
}

/// The search tree is well formed and the bookkeeping of every node agrees
/// with it: in particular a node's count of saturated children is the
/// number of its children that have reported their saturation.
pub open spec fn consistent<S: GameState>(t: SearchTree<S>) -> bool {
    &&& t.wf()
    &&& forall|j: int| 0 <= j < t.len() ==> #[trigger] node_consistent(t, j)
}

/// The search tree is consistent but for one finished leaf whose result
/// was just recorded: its parent has not yet counted it as saturated.
pub open spec fn report_pending<S: GameState>(t: SearchTree<S>, leaf: int) -> bool {
    let s = t.data_of(leaf).stats();
    &&& t.wf()
    &&& t.has(leaf)
    &&& s.is_expanded
    &&& s.children_count == 0
    &&& s.end_state_result is Some
    &&& forall|j: int| 0 <= j < t.len() ==> #[trigger] node_consistent_lag(t, j, lag_at(t, leaf, j))
}

/// How far the count of saturated children of `j` lags while the report
/// of `leaf` is pending: one at its parent, none elsewhere.
pub open spec fn lag_at<S: GameState>(t: SearchTree<S>, leaf: int, j: int) -> nat {
    if t.parent_of(leaf) == Some(j as usize) {
        1
    } else {
        0
    }
}

/// The fields that decide whether a node has reported its saturation, and
/// what its bookkeeping says, are the same in `a` and `b`.
pub open spec fn same_bookkeeping(a: NodeStats, b: NodeStats) -> bool {
    &&& a.is_expanded == b.is_expanded
    &&& a.children_count == b.children_count
    &&& a.children_saturated_count == b.children_saturated_count
    &&& a.end_state_result == b.end_state_result
}

/// Counting depends only on the reported status of the nodes counted.
pub proof fn lemma_count_frame<S: GameState>(t0: SearchTree<S>, t1: SearchTree<S>, cs: Seq<usize>)
    requires
        forall|k: int|
            0 <= k < cs.len() ==> reported(#[trigger] t1.data_of(cs[k] as int)) == reported(
                t0.data_of(cs[k] as int),
            ),
    ensures
        count_reported(t1, cs) == count_reported(t0, cs),
    decreases cs.len(),
{
    if cs.len() > 0 {
        let c = cs.last();
        assert(reported(t1.data_of(cs[cs.len() - 1] as int)) == reported(t0.data_of(cs[cs.len() - 1] as int)));
        lemma_count_frame(t0, t1, cs.drop_last());
    }
}

/// When only `b` may change its reported status, the count changes by at
/// most that change.
pub proof fn lemma_count_except<S: GameState>(t0: SearchTree<S>, t1: SearchTree<S>, cs: Seq<usize>, b: usize)
    requires
        cs.no_duplicates(),
        forall|k: int|
            0 <= k < cs.len() && cs[k] != b ==> reported(#[trigger] t1.data_of(cs[k] as int)) == reported(
                t0.data_of(cs[k] as int),
            ),
    ensures
        count_reported(t1, cs) + (if cs.contains(b) && reported(t0.data_of(b as int)) {
            1int
        } else {
            0int
        }) == count_reported(t0, cs) + (if cs.contains(b) && reported(t1.data_of(b as int)) {
            1int
        } else {
            0int
        }),
    decreases cs.len(),
{
    if cs.len() > 0 {
        let c = cs.last();
        let rest = cs.drop_last();
        assert(rest.no_duplicates());
        lemma_count_except(t0, t1, rest, b);
        if c != b {
            assert(reported(t1.data_of(cs[cs.len() - 1] as int)) == reported(t0.data_of(cs[cs.len() - 1] as int)));
            assert(cs.contains(b) == rest.contains(b)) by {
                if cs.contains(b) {
                    let k = choose|k: int| 0 <= k < cs.len() && cs[k] == b;
                    assert(rest[k] == b);
                }
            }
        } else {
            assert(!rest.contains(b)) by {
                if rest.contains(b) {
                    let k = choose|k: int| 0 <= k < rest.len() && rest[k] == b;
                    assert(cs[k] == cs[cs.len() - 1]);
                }
            }
            assert(cs[cs.len() - 1] == b);
        }
    }
}

/// At most every node counted has reported, and one that has not is
/// missing from the count.
pub proof fn lemma_count_le<S: GameState>(t: SearchTree<S>, cs: Seq<usize>, b: usize)
    requires
        cs.no_duplicates(),
    ensures
        count_reported(t, cs) + (if cs.contains(b) && !reported(t.data_of(b as int)) {
            1int
        } else {
            0int
        }) <= cs.len(),
    decreases cs.len(),
{
    if cs.len() > 0 {
        let c = cs.last();
        let rest = cs.drop_last();
        assert(rest.no_duplicates());
        lemma_count_le(t, rest, b);
        if c != b {
            assert(cs.contains(b) == rest.contains(b)) by {
                if cs.contains(b) {
                    let k = choose|k: int| 0 <= k < cs.len() && cs[k] == b;
                    assert(rest[k] == b);
                }
            }
        } else {
            assert(!rest.contains(b)) by {
                if rest.contains(b) {
                    let k = choose|k: int| 0 <= k < rest.len() && rest[k] == b;
                    assert(cs[k] == cs[cs.len() - 1]);
                }
            }
        }
    }
}

/// No node counted has reported: the count is zero.
pub proof fn lemma_count_none<S: GameState>(t: SearchTree<S>, cs: Seq<usize>)
    requires
        forall|k: int| 0 <= k < cs.len() ==> !reported(#[trigger] t.data_of(cs[k] as int)),
    ensures
        count_reported(t, cs) == 0,
    decreases cs.len(),
{
    if cs.len() > 0 {
        assert(!reported(t.data_of(cs[cs.len() - 1] as int)));
        lemma_count_none(t, cs.drop_last());
    }
}

/// Changes that keep the shape of the tree and the bookkeeping of every
/// node (such as counting plays, wins, finished games or tree sizes) keep
/// the tree consistent.
pub proof fn lemma_consistent_frame<S: GameState>(t0: SearchTree<S>, t1: SearchTree<S>)
    requires
        consistent(t0),
        t1.same_shape(t0),
        forall|j: int| 0 <= j < t0.len() ==> same_bookkeeping(#[trigger] t1.data_of(j).stats(), t0.data_of(j).stats()),
    ensures
        consistent(t1),
{
    crate::tree::lemma_same_shape(t0, t1);
    assert forall|j: int| 0 <= j < t1.len() implies #[trigger] node_consistent(t1, j) by {
        assert(node_consistent(t0, j));
        assert(same_bookkeeping(t1.data_of(j).stats(), t0.data_of(j).stats()));
        let cs = t0.children_of(j);
        assert forall|k: int| 0 <= k < cs.len() implies reported(#[trigger] t1.data_of(cs[k] as int)) == reported(
            t0.data_of(cs[k] as int),
        ) by {
            assert(cs[k] < t0.len());
            assert(same_bookkeeping(t1.data_of(cs[k] as int).stats(), t0.data_of(cs[k] as int).stats()));
        }
        lemma_count_frame(t0, t1, cs);
        if let Some(p) = t1.parent_of(j) {
            assert(t1.children_of(p as int) == t0.children_of(p as int));
        }
    }
}

/// Recording the result of a finished leaf leaves its report to its parent
/// pending.
pub proof fn lemma_record_result<S: GameState>(t0: SearchTree<S>, t1: SearchTree<S>, leaf: int)
    requires
        consistent(t0),
        t0.has(leaf),
        t0.data_of(leaf).stats().is_expanded,
        t0.data_of(leaf).stats().children_count == 0,
        t0.data_of(leaf).stats().end_state_result is None,
        t1.same_shape(t0),
        t1.data_of(leaf).stats() == (NodeStats {
            end_state_result: t1.data_of(leaf).stats().end_state_result,
            ..t0.data_of(leaf).stats()
        }),
        t1.data_of(leaf).stats().end_state_result is Some,
        forall|j: int| 0 <= j < t0.len() && j != leaf ==> #[trigger] t1.data_of(j) == t0.data_of(j),
    ensures
        report_pending(t1, leaf),
{
    crate::tree::lemma_same_shape(t0, t1);
    assert(node_consistent(t0, leaf));
    assert forall|j: int| 0 <= j < t1.len() implies #[trigger] node_consistent_lag(t1, j, lag_at(t1, leaf, j)) by {
        assert(node_consistent(t0, j));
        let cs = t0.children_of(j);
        lemma_count_except(t0, t1, cs, leaf as usize);
        if j != leaf {
            assert(t1.data_of(j) == t0.data_of(j));
        }
        if t1.parent_of(leaf) == Some(j as usize) {
            assert(node_consistent(t0, leaf));
            assert(cs.contains(leaf as usize));
        } else {
            assert(!cs.contains(leaf as usize)) by {
                if cs.contains(leaf as usize) {
                    let k = choose|k: int| 0 <= k < cs.len() && cs[k] == leaf as usize;
                    assert(t0.parent_of(cs[k] as int) == Some(j as usize));
                }
            }
        }
        if let Some(p) = t1.parent_of(j) {
            assert(t1.children_of(p as int) == t0.children_of(p as int));
        }
    }
}

/// Expanding a node that was not expanded keeps the tree consistent.
pub proof fn lemma_expand_consistent<S: GameState>(old: SearchTree<S>, new: SearchTree<S>, node: int)
    requires
        consistent(old),
        old.has(node),
        !old.data_of(node).stats().is_expanded,
        states_wf(old),
        is_expansion(new, old, node),
        new.wf(),
    ensures
        consistent(new),
{
    let d = old.data_of(node);
    let st = d.view_state();
    assert(node_consistent(old, node));
    assert(old.children_of(node).len() == 0);
    if st.spec_game_over() {
        let s1 = NodeStats { is_expanded: true, children_count: 0, ..d.stats() };
        lemma_with_stats(d, s1);
        assert(new.data_of(node) == d.with_stats(s1));
        assert(!reported(new.data_of(node)));
        assert forall|j: int| 0 <= j < new.len() implies #[trigger] node_consistent(new, j) by {
            assert(node_consistent(old, j));
            let cs = old.children_of(j);
            assert forall|k: int| 0 <= k < cs.len() implies reported(#[trigger] new.data_of(cs[k] as int))
                == reported(old.data_of(cs[k] as int)) by {
                assert(cs[k] < old.len());
                assert(new.data_of(cs[k] as int) == if cs[k] == node {
                    d.with_stats(s1)
                } else {
                    old.data_of(cs[k] as int)
                });
            }
            lemma_count_frame(old, new, cs);
            assert(new.children_of(j) == cs);
            if let Some(p) = new.parent_of(j) {
                assert(new.parent_of(j) == old.parent_of(j));
                assert(new.children_of(p as int) == old.children_of(p as int));
            }
            if j == node {
                assert(new.data_of(j).stats() == s1);
            } else {
                assert(new.data_of(j) == old.data_of(j));
            }
        }
    } else {
        st.lemma_playable();
        let moves = moves_at(st);
        let n = moves.len();
        let len0 = old.len();
        let s1 = NodeStats {
            is_expanded: true,
            children_count: n as usize,
            tree_size: counter_add(d.stats().tree_size, n as usize),
            ..d.stats()
        };
        lemma_with_stats(d, s1);
        assert(new.data_of(node) == d.with_stats(s1));
        assert(!reported(new.data_of(node)));
        assert forall|j: int| 0 <= j < len0 implies #[trigger] reported(new.data_of(j)) == reported(old.data_of(j))
            && same_bookkeeping_or_expanded(new, old, node, j) by {
            if j != node && old.on_path(node, j) {
                let dj = old.data_of(j);
                lemma_with_stats(dj, NodeStats { tree_size: counter_add(dj.stats().tree_size, n as usize), ..dj.stats() });
            }
        }
        assert forall|j: int| 0 <= j < new.len() implies #[trigger] node_consistent(new, j) by {
            if j < len0 {
                assert(node_consistent(old, j));
                assert(reported(new.data_of(j)) == reported(old.data_of(j)));
                if j == node {
                    assert(new.data_of(j).stats() == s1);
                    assert(new.children_of(j).len() == n);
                    let cs = new.children_of(j);
                    assert forall|k: int| 0 <= k < cs.len() implies !reported(#[trigger] new.data_of(cs[k] as int)) by {
                        assert(new.parent_of(len0 + k) == Some(node as usize));
                        assert(cs[k] == len0 + k);
                        lemma_with_stats(new.data_of(len0 + k), fresh_stats(0, 0));
                    }
                    lemma_count_none(new, cs);
                    assert(count_reported(old, old.children_of(j)) == 0);
                } else {
                    assert(same_bookkeeping(new.data_of(j).stats(), old.data_of(j).stats()));
                    let cs = old.children_of(j);
                    assert(new.children_of(j) == cs);
                    assert forall|k: int| 0 <= k < cs.len() implies reported(#[trigger] new.data_of(cs[k] as int))
                        == reported(old.data_of(cs[k] as int)) by {
                        assert(cs[k] < old.len());
                    }
                    lemma_count_frame(old, new, cs);
                }
                if let Some(p) = new.parent_of(j) {
                    assert(new.parent_of(j) == old.parent_of(j));
                    if p as int == node {
                        assert(old.children_of(node).contains(j as usize));
                    }
                    assert(new.children_of(p as int) == old.children_of(p as int));
                }
            } else {
                let k = j - len0;
                assert(new.parent_of(len0 + k) == Some(node as usize));
                assert(new.children_of(node)[k] == j as usize);
                assert(new.children_of(j) == Seq::<usize>::empty());
                assert(new.data_of(j).stats() == fresh_stats(0, 0));
                assert(count_reported(new, new.children_of(j)) == 0);
                assert(new.children_of(node).contains(j as usize));
            }
        }
    }
}

/// The node keeps its bookkeeping, or it is the node just expanded.
pub open spec fn same_bookkeeping_or_expanded<S: GameState>(
    new: SearchTree<S>,
    old: SearchTree<S>,
    node: int,
    j: int,
) -> bool {
    j == node || same_bookkeeping(new.data_of(j).stats(), old.data_of(j).stats())
}

/// Two nodes on the path up from `c` with the same parent are the same node.
pub proof fn lemma_path_child_unique<T>(t: Tree<T>, c: int, x: int, y: int)
    requires
        t.wf(),
        t.on_path(c, x),
        t.on_path(c, y),
        t.parent_of(x) is Some,
        t.parent_of(x) == t.parent_of(y),
    ensures
        x == y,
    decreases c,
{
    lemma_on_path_le(t, c, x);
    lemma_on_path_le(t, c, y);
    if x != y {
        if x == c || y == c {
            let other = if x == c { y } else { x };
            let p = t.parent_of(c).unwrap();
            lemma_on_path_step(t, c, other);
            lemma_on_path_le(t, p as int, other);
            assert(t.parent_of(other) matches Some(q) && q < other);
        } else {
            lemma_on_path_step(t, c, x);
            lemma_on_path_step(t, c, y);
            let p = t.parent_of(c).unwrap();
            lemma_path_child_unique(t, p as int, x, y);
        }
    }
}

/// A node above `c` on its path has a child on that path.
pub proof fn lemma_path_child_exists<T>(t: Tree<T>, c: int, j: int) -> (b: int)
    requires
        t.wf(),
        t.on_path(c, j),
        j != c,
    ensures
        t.on_path(c, b),
        t.parent_of(b) == Some(j as usize),
    decreases c,
{
    lemma_on_path_le(t, c, j);
    lemma_on_path_step(t, c, j);
    let p = t.parent_of(c).unwrap();
    if p as int == j {
        c
    } else {
        let b = lemma_path_child_exists(t, p as int, j);
        lemma_on_path_step(t, c, b);
        b
    }
}

/// What the walk carries on from a node it arrives at is what it carries
/// when it arrives at that node's parent.
pub proof fn lemma_arrival_next<S: GameState>(
    t: SearchTree<S>,
    c: int,
    a: (nat, bool, (usize, usize)),
    j: int,
)
    requires
        t.wf(),
        sat_arrival(t, c, a, j) is Some,
        t.parent_of(j) is Some,
    ensures
        sat_arrival(t, c, a, t.parent_of(j).unwrap() as int) == Some(
            walk_next(sat_arrival(t, c, a, j).unwrap(), t.data_of(j).stats()),
        ),
    decreases c,
{
    lemma_sat_arrival_domain(t, c, a, j);
    lemma_on_path_le(t, c, j);
    let q = t.parent_of(j).unwrap();
    if j > 0 {
        assert(t.parent_of(j) matches Some(p) && p < j);
    }
    if c == j {
        assert(sat_arrival(t, q as int, walk_next(a, t.data_of(c).stats()), q as int) == Some(
            walk_next(a, t.data_of(c).stats()),
        ));
    } else {
        if c > 0 {
            assert(t.parent_of(c) matches Some(p) && p < c);
        }
        let p = t.parent_of(c).unwrap();
        lemma_arrival_next(t, p as int, walk_next(a, t.data_of(c).stats()), j);
    }
}

/// While the report of `leaf` is pending, every node the saturation walk
/// arrives at is expanded, has children, and has fewer saturated children
/// counted than children.
pub proof fn lemma_walk_unsaturated<S: GameState>(t: SearchTree<S>, leaf: int, j: int)
    requires
        report_pending(t, leaf),
        saturation_walk(t, leaf, j) is Some,
    ensures
        t.data_of(j).stats().is_expanded,
        t.data_of(j).stats().children_count == t.children_of(j).len(),
        t.data_of(j).stats().children_saturated_count < t.data_of(j).stats().children_count,
    decreases leaf - j,
{
    let p = t.parent_of(leaf).unwrap();
    let s = t.data_of(leaf).stats();
    lemma_sat_arrival_domain(t, p as int, (1, true, (s.wins, s.plays)), j);
    lemma_on_path_le(t, p as int, j);
    if leaf > 0 {
        assert(t.parent_of(leaf) matches Some(q) && q < leaf);
    }
    lemma_on_path_step(t, leaf, j);
    let b = lemma_path_child_exists(t, leaf, j);
    lemma_on_path_le(t, leaf, b);
    assert(node_consistent_lag(t, b, lag_at(t, leaf, b)));
    assert(t.children_of(j).contains(b as usize));
    assert(node_consistent_lag(t, j, lag_at(t, leaf, j)));
    let cs = t.children_of(j);
    assert(cs.no_duplicates());
    if b == leaf {
        assert(lag_at(t, leaf, j) == 1);
        lemma_count_le(t, cs, b as usize);
    } else {
        lemma_on_path_step(t, leaf, b);
        lemma_on_path_le(t, p as int, b);
        lemma_sat_arrival_domain(t, p as int, (1, true, (s.wins, s.plays)), b);
        lemma_walk_unsaturated(t, leaf, b);
        assert(!reported(t.data_of(b)));
        if t.parent_of(leaf) == Some(j as usize) {
            lemma_path_child_unique(t, leaf, b, leaf);
        }
        assert(lag_at(t, leaf, j) == 0);
        lemma_count_le(t, cs, b as usize);
    }
}

/// While the report of `leaf` is pending, the saturation walk may count
/// one more saturated child at every node it arrives at still saturating.
pub proof fn lemma_saturation_ready<S: GameState>(t: SearchTree<S>, leaf: int)
    requires
        report_pending(t, leaf),
    ensures
        forall|j: int|
            0 <= j < t.len() ==> (#[trigger] saturation_walk(t, leaf, j) matches Some(a) && a.1
                ==> t.data_of(j).stats().children_saturated_count < t.data_of(j).stats().children_count),
{
    assert forall|j: int|
        0 <= j < t.len() && (#[trigger] saturation_walk(t, leaf, j)) is Some implies t.data_of(
        j,
    ).stats().children_saturated_count < t.data_of(j).stats().children_count by {
        lemma_walk_unsaturated(t, leaf, j);
    }
}

/// Reporting the saturation of a finished leaf whose report was pending
/// makes the tree consistent again.
pub proof fn lemma_saturation_consistent<S: GameState>(t0: SearchTree<S>, t1: SearchTree<S>, leaf: int)
    requires
        report_pending(t0, leaf),
        saturation_reported(t1, t0, leaf),
    ensures
        consistent(t1),
{
    crate::tree::lemma_same_shape(t0, t1);
    let sl = t0.data_of(leaf).stats();
    let a0 = (1nat, true, (sl.wins, sl.plays));
    if leaf > 0 {
        assert(t0.parent_of(leaf) matches Some(q) && q < leaf);
    }
    assert(node_consistent_lag(t0, leaf, lag_at(t0, leaf, leaf)));
    lemma_with_stats(t0.data_of(leaf), crate::mcts_data::stats_worst_case(sl, sl.wins, sl.plays));
    assert forall|j: int| 0 <= j < t1.len() implies #[trigger] node_consistent(t1, j) by {
        assert(node_consistent_lag(t0, j, lag_at(t0, leaf, j)));
        let cs = t0.children_of(j);
        assert(cs.no_duplicates());
        assert(t1.children_of(j) == cs);
        if let Some(q) = t1.parent_of(j) {
            assert(t1.children_of(q as int) == t0.children_of(q as int));
        }
        // Children other than those on the walk or the leaf keep their data.
        assert forall|k: int| 0 <= k < cs.len() && saturation_walk(t0, leaf, cs[k] as int) is None && cs[k] != leaf
            implies #[trigger] t1.data_of(cs[k] as int) == t0.data_of(cs[k] as int) by {
            assert(cs[k] < t0.len());
        }
        if j == leaf {
            assert(t0.children_of(j).len() == 0);
        } else if saturation_walk(t0, leaf, j) is Some {
            let p = t0.parent_of(leaf).unwrap();
            let a = saturation_walk(t0, leaf, j).unwrap();
            lemma_sat_arrival_domain(t0, p as int, a0, j);
            lemma_on_path_le(t0, p as int, j);
            lemma_on_path_step(t0, leaf, j);
            lemma_walk_unsaturated(t0, leaf, j);
            let b = lemma_path_child_exists(t0, leaf, j);
            lemma_on_path_le(t0, leaf, b);
            assert(node_consistent_lag(t0, b, lag_at(t0, leaf, b)));
            assert(cs.contains(b as usize));
            let sj = t0.data_of(j).stats();
            lemma_with_stats(t0.data_of(j), sat_step(sj, a.0, a.1, a.2));
            // Every other child keeps its reported status.
            assert forall|k: int| 0 <= k < cs.len() && cs[k] != b as usize implies reported(
                #[trigger] t1.data_of(cs[k] as int),
            ) == reported(t0.data_of(cs[k] as int)) by {
                let c = cs[k] as int;
                assert(c < t0.len());
                assert(t0.parent_of(c) == Some(j as usize));
                if c == leaf {
                    lemma_path_child_unique(t0, leaf, b, c);
                }
                if saturation_walk(t0, leaf, c) is Some {
                    lemma_sat_arrival_domain(t0, p as int, a0, c);
                    lemma_on_path_step(t0, leaf, c);
                    lemma_path_child_unique(t0, leaf, b, c);
                }
            }
            lemma_count_except(t0, t1, cs, b as usize);
            if b == leaf {
                assert(t0.parent_of(leaf) == Some(j as usize));
                assert(j == p as int);
                assert(a == a0);
                assert(reported(t0.data_of(leaf)));
            } else {
                lemma_on_path_step(t0, leaf, b);
                lemma_on_path_le(t0, p as int, b);
                lemma_sat_arrival_domain(t0, p as int, a0, b);
                lemma_walk_unsaturated(t0, leaf, b);
                lemma_arrival_next(t0, p as int, a0, b);
                let ab = saturation_walk(t0, leaf, b).unwrap();
                let sb = t0.data_of(b).stats();
                lemma_with_stats(t0.data_of(b), sat_step(sb, ab.0, ab.1, ab.2));
                assert(a == walk_next(ab, sb));
                if t0.parent_of(leaf) == Some(j as usize) {
                    lemma_path_child_unique(t0, leaf, b, leaf);
                }
                assert(!reported(t0.data_of(b)));
                assert(reported(t1.data_of(b)) == a.1);
            }
        } else {
            assert(t1.data_of(j) == t0.data_of(j));
            let p = t0.parent_of(leaf);
            if p == Some(j as usize) {
                lemma_sat_arrival_domain(t0, j, a0, j);
            }
            assert forall|k: int| 0 <= k < cs.len() implies reported(#[trigger] t1.data_of(cs[k] as int)) == reported(
                t0.data_of(cs[k] as int),
            ) by {
                let c = cs[k] as int;
                assert(c < t0.len());
                assert(t0.parent_of(c) == Some(j as usize));
                if saturation_walk(t0, leaf, c) is Some {
                    let pp = p.unwrap();
                    lemma_sat_arrival_domain(t0, pp as int, a0, c);
                    lemma_on_path_step(t0, c, j);
                    lemma_on_path_trans(t0, pp as int, c, j);
                    lemma_sat_arrival_domain(t0, pp as int, a0, j);
                }
            }
            lemma_count_frame(t0, t1, cs);
        }
    }
}

/// The count reaches the number of nodes counted exactly when every one of
/// them has reported.
pub proof fn lemma_count_all<S: GameState>(t: SearchTree<S>, cs: Seq<usize>)
    ensures
        count_reported(t, cs) <= cs.len(),
        count_reported(t, cs) == cs.len() <==> forall|k: int| 0 <= k < cs.len() ==> reported(#[trigger] t.data_of(cs[k] as int)),
    decreases cs.len(),
{
    if cs.len() > 0 {
        let rest = cs.drop_last();
        lemma_count_all(t, rest);
        if count_reported(t, cs) == cs.len() {
            assert forall|k: int| 0 <= k < cs.len() implies reported(#[trigger] t.data_of(cs[k] as int)) by {
                if k < cs.len() - 1 {
                    assert(rest[k] == cs[k]);
                    assert(reported(t.data_of(rest[k] as int)));
                }
            }
        }
        if forall|k: int| 0 <= k < cs.len() ==> reported(#[trigger] t.data_of(cs[k] as int)) {
            assert forall|k: int| 0 <= k < rest.len() implies reported(#[trigger] t.data_of(rest[k] as int)) by {
                assert(rest[k] == cs[k]);
            }
            assert(reported(t.data_of(cs[cs.len() - 1] as int)));
        }
    }
}

/// In a consistent search tree a node is saturated exactly when it has been
/// expanded and every one of its children has reported its saturation: a
/// finished game (expanded, without children) is saturated at once, and any
/// other node once all its children are.
pub proof fn lemma_saturated_iff_children_reported<S: GameState>(t: SearchTree<S>, j: int)
    requires
        consistent(t),
        t.has(j),
    ensures
        t.data_of(j).saturated() <==> t.data_of(j).stats().is_expanded && forall|k: int|
            0 <= k < t.children_of(j).len() ==> reported(#[trigger] t.data_of(t.children_of(j)[k] as int)),
{
    assert(node_consistent(t, j));
    lemma_count_all(t, t.children_of(j));
}

/// A tree of one fresh node is a consistent search tree.
pub proof fn lemma_new_root_consistent<S: GameState>(t: SearchTree<S>)
    requires
        t.wf(),
        t.len() == 1,
        t.children_of(0) == Seq::<usize>::empty(),
        t.data_of(0).stats() == fresh_stats(t.data_of(0).stats().plays, t.data_of(0).stats().wins),
    ensures
        consistent(t),
{
    assert(node_consistent(t, 0));
}

} // verus!
