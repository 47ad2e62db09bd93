use vstd::prelude::*;
use crate::balance::{children_listed, lemma_consistent_children_listed, lemma_saturated_root_all_reported};
use crate::consistency::{consistent, lemma_path_child_exists, node_consistent};
use crate::game::GameState;
use crate::mcts_data::MctsData;
use crate::search::SearchTree;
use crate::tree::{lemma_on_path_le, lemma_on_path_step, lemma_root_on_path, lemma_same_shape, Tree};

verus! {

/// The node holds a finished game: its result is recorded.
pub open spec fn finished<S: GameState>(d: MctsData<S>) -> bool {
    d.stats().end_state_result is Some
}

/// The number of finished games among the first `k` nodes whose path up
/// to the root passes through `a`: the finished games below `a`, `a`
/// included.
pub open spec fn finished_below<S: GameState>(t: SearchTree<S>, a: int, k: int) -> nat
    decreases k,
{
    if k <= 0 {
        0
    } else {
        finished_below(t, a, k - 1) + if t.on_path(k - 1, a) && finished(t.data_of(k - 1)) {
            1nat
        } else {
            0nat
        }
    }
}

/// Node `a` counts exactly the finished games below it.
pub open spec fn terminal_count_exact<S: GameState>(t: SearchTree<S>, a: int) -> bool {
    t.data_of(a).stats().terminal_count == finished_below(t, a, t.len() as int)
}

/// Node `j` holds a finished game exactly when it is expanded and has no
/// children.
pub open spec fn finished_iff_leaf<S: GameState>(t: SearchTree<S>, j: int) -> bool {
    finished(t.data_of(j)) <==> (t.data_of(j).stats().is_expanded && t.children_of(j).len() == 0)
}

/// The finished games of the search tree are counted: a node holds one
/// exactly when it is expanded and has no children, and every node's
/// terminal count is the number of finished games below it.
pub open spec fn terminals_counted<S: GameState>(t: SearchTree<S>) -> bool {
    &&& forall|a: int| 0 <= a < t.len() ==> #[trigger] terminal_count_exact(t, a)
    &&& forall|j: int| 0 <= j < t.len() ==> #[trigger] finished_iff_leaf(t, j)
}

/// The count depends only on the paths and on which nodes are finished.
pub proof fn lemma_finished_below_frame<S: GameState>(t0: SearchTree<S>, t1: SearchTree<S>, a: int, k: int)
    requires
        forall|j: int|
            0 <= j < k ==> (#[trigger] t1.on_path(j, a)) == t0.on_path(j, a) && finished(t1.data_of(j))
                == finished(t0.data_of(j)),
    ensures
        finished_below(t1, a, k) == finished_below(t0, a, k),
    decreases k,
{
    if k > 0 {
        assert(t1.on_path(k - 1, a) == t0.on_path(k - 1, a));
        lemma_finished_below_frame(t0, t1, a, k - 1);
    }
}

/// When only `leaf` becomes finished, the count grows by one exactly where
/// the path up from `leaf` passes through `a`.
pub proof fn lemma_finished_below_one<S: GameState>(
    t0: SearchTree<S>,
    t1: SearchTree<S>,
    a: int,
    k: int,
    leaf: int,
)
    requires
        0 <= leaf < k,
        !finished(t0.data_of(leaf)),
        finished(t1.data_of(leaf)),
        forall|j: int| 0 <= j < k ==> (#[trigger] t1.on_path(j, a)) == t0.on_path(j, a),
        forall|j: int| 0 <= j < k && j != leaf ==> finished(#[trigger] t1.data_of(j)) == finished(t0.data_of(j)),
    ensures
        finished_below(t1, a, k) == finished_below(t0, a, k) + if t0.on_path(leaf, a) {
            1int
        } else {
            0int
        },
    decreases k,
{
    assert(t1.on_path(k - 1, a) == t0.on_path(k - 1, a));
    if k - 1 == leaf {
        lemma_finished_below_frame(t0, t1, a, k - 1);
    } else {
        assert(finished(t1.data_of(k - 1)) == finished(t0.data_of(k - 1)));
        lemma_finished_below_one(t0, t1, a, k - 1, leaf);
    }
}

/// The count is at most the number of nodes counted, less one for a node
/// `l` among them that is not finished.
pub proof fn lemma_finished_below_bound<S: GameState>(t: SearchTree<S>, a: int, k: int, l: int)
    requires
        0 <= l < k,
        !finished(t.data_of(l)),
    ensures
        finished_below(t, a, k) <= k - 1,
    decreases k,
{
    if k - 1 == l {
        lemma_finished_below_le(t, a, k - 1);
    } else {
        lemma_finished_below_bound(t, a, k - 1, l);
    }
}

/// The count is at most the number of nodes counted.
pub proof fn lemma_finished_below_le<S: GameState>(t: SearchTree<S>, a: int, k: int)
    ensures
        finished_below(t, a, k) <= if k > 0 {
            k
        } else {
            0
        },
    decreases k,
{
    if k > 0 {
        lemma_finished_below_le(t, a, k - 1);
    }
}

/// Appending nodes keeps the paths of the old nodes: they depend only on
/// the parents of the nodes met.
pub proof fn lemma_on_path_prefix<T>(t0: Tree<T>, t1: Tree<T>, from: int, a: int)
    requires
        t0.len() <= t1.len(),
        forall|j: int| 0 <= j < t0.len() ==> #[trigger] t1.parent_of(j) == t0.parent_of(j),
        0 <= from < t0.len(),
    ensures
        t1.on_path(from, a) == t0.on_path(from, a),
    decreases from,
{
    if a != from {
        if let Some(p) = t0.parent_of(from) {
            if p < from {
                lemma_on_path_prefix(t0, t1, p as int, a);
            }
        }
    }
}

/// Nothing but `a` itself lies below a node `a` without children.
pub proof fn lemma_below_childless<S: GameState>(t: SearchTree<S>, j: int, a: int)
    requires
        t.wf(),
        children_listed(t),
        t.children_of(a).len() == 0,
        t.on_path(j, a),
    ensures
        j == a,
{
    if j != a {
        let b = lemma_path_child_exists(t, j, a);
        lemma_on_path_le(t, j, b);
        lemma_on_path_le(t, j, a);
        assert(t.parent_of(b) == Some(a as usize));
        assert(t.children_of(a).contains(b as usize));
    }
}

/// Below a node without children that is not finished there is no
/// finished game.
pub proof fn lemma_finished_below_childless<S: GameState>(t: SearchTree<S>, a: int, k: int)
    requires
        t.wf(),
        children_listed(t),
        t.has(a),
        t.children_of(a).len() == 0,
        !finished(t.data_of(a)),
    ensures
        finished_below(t, a, k) == 0,
    decreases k,
{
    if k > 0 {
        if t.on_path(k - 1, a) {
            lemma_below_childless(t, k - 1, a);
        }
        lemma_finished_below_childless(t, a, k - 1);
    }
}

/// Nodes past the first `k` that are not finished add nothing to the
/// count.
pub proof fn lemma_finished_below_tail<S: GameState>(t: SearchTree<S>, a: int, k: int, m: int)
    requires
        0 <= k <= m,
        forall|j: int| k <= j < m ==> !finished(#[trigger] t.data_of(j)),
    ensures
        finished_below(t, a, m) == finished_below(t, a, k),
    decreases m,
{
    if m > k {
        assert(!finished(t.data_of(m - 1)));
        lemma_finished_below_tail(t, a, k, m - 1);
    }
}

/// Changes that keep the shape of the tree and, at every node, the
/// terminal count, whether it is expanded and whether it is finished keep
/// the finished games counted.
pub proof fn lemma_terminals_frame<S: GameState>(t0: SearchTree<S>, t1: SearchTree<S>)
    requires
        t0.wf(),
        terminals_counted(t0),
        t1.same_shape(t0),
        forall|j: int|
            0 <= j < t0.len() ==> {
                &&& (#[trigger] t1.data_of(j)).stats().terminal_count == t0.data_of(j).stats().terminal_count
                &&& t1.data_of(j).stats().is_expanded == t0.data_of(j).stats().is_expanded
                &&& finished(t1.data_of(j)) == finished(t0.data_of(j))
            },
    ensures
        terminals_counted(t1),
{
    lemma_same_shape(t0, t1);
    assert forall|a: int| 0 <= a < t1.len() implies #[trigger] terminal_count_exact(t1, a) by {
        assert(terminal_count_exact(t0, a));
        lemma_finished_below_frame(t0, t1, a, t0.len() as int);
    }
    assert forall|j: int| 0 <= j < t1.len() implies #[trigger] finished_iff_leaf(t1, j) by {
        assert(finished_iff_leaf(t0, j));
        assert(t1.children_of(j) == t0.children_of(j));
    }
}

/// A tree of one node that is not expanded, has no result and counts no
/// finished game has its finished games counted: such is the root that a
/// search starts from.
pub proof fn lemma_new_root_terminals<S: GameState>(t: SearchTree<S>)
    requires
        t.len() == 1,
        !t.data_of(0).stats().is_expanded,
        t.data_of(0).stats().end_state_result is None,
        t.data_of(0).stats().terminal_count == 0,
    ensures
        terminals_counted(t),
{
    assert(finished_below(t, 0, 0) == 0);
    assert(terminal_count_exact(t, 0));
    assert(finished_iff_leaf(t, 0));
}

/// The number of nodes among the first `k` that have no children.
pub open spec fn childless_count<S: GameState>(t: SearchTree<S>, k: int) -> nat
    decreases k,
{
    if k <= 0 {
        0
    } else {
        childless_count(t, k - 1) + if t.children_of(k - 1).len() == 0 {
            1nat
        } else {
            0nat
        }
    }
}

/// Once the root of a consistent search tree whose finished games are
/// counted is saturated, its terminal count is the number of nodes without
/// children in the tree.
pub proof fn lemma_saturated_root_counts_leaves<S: GameState>(t: SearchTree<S>)
    requires
        consistent(t),
        terminals_counted(t),
        t.data_of(0).saturated(),
    ensures
        t.data_of(0).stats().terminal_count == childless_count(t, t.len() as int),
{
    assert(terminal_count_exact(t, 0));
    lemma_counts_agree(t, t.len() as int);
}

/// Below a saturated root the finished games are the nodes without
/// children: the two counts agree.
proof fn lemma_counts_agree<S: GameState>(t: SearchTree<S>, k: int)
    requires
        consistent(t),
        terminals_counted(t),
        t.data_of(0).saturated(),
        k <= t.len(),
    ensures
        finished_below(t, 0, k) == childless_count(t, k),
    decreases k,
{
    if k > 0 {
        let j = k - 1;
        lemma_root_on_path(t, j);
        assert(finished_iff_leaf(t, j));
        if j > 0 {
            lemma_saturated_root_all_reported(t, j);
        }
        lemma_counts_agree(t, k - 1);
    }
}

} // verus!
