use vstd::prelude::*;
use crate::consistency::{
    consistent, lemma_path_child_exists, lemma_path_child_unique, lemma_saturated_iff_children_reported,
    node_consistent, reported,
};
use crate::amcts_data::AMctsData;
use crate::game::GameState;
use crate::mcts_data::{counter_add, MctsData};
use crate::search::SearchTree;
use crate::tree::{applied_up_from, lemma_on_path_le, lemma_on_path_step, lemma_same_shape, Tree};

verus! {

/// The data of a search node, as far as its plays are concerned: how often
/// the node was played, and whether it was expanded.
pub trait Counted {
    /// How often the node was played.
    spec fn counted_plays(&self) -> usize;

    /// True if the node was expanded.
    spec fn counted_expanded(&self) -> bool;
}

impl<S: GameState> Counted for MctsData<S> {
    open spec fn counted_plays(&self) -> usize {
        self.stats().plays
    }

    open spec fn counted_expanded(&self) -> bool {
        self.stats().is_expanded
    }
}

impl<S: GameState> Counted for AMctsData<S> {
    open spec fn counted_plays(&self) -> usize {
        self.counts().plays
    }

    open spec fn counted_expanded(&self) -> bool {
        self.counts().is_expanded
    }
}

/// The plays of the nodes `cs`, summed.
pub open spec fn plays_sum<D: Counted>(t: Tree<D>, cs: Seq<usize>) -> int
    decreases cs.len(),
{
    if cs.len() == 0 {
        0
    } else {
        plays_sum(t, cs.drop_last()) + t.data_of(cs.last() as int).counted_plays()
    }
}

/// Node `j` has been played as often as its children together, or once
/// more: once for the simulation that may have started at the node itself.
pub open spec fn plays_bounded_at<D: Counted>(t: Tree<D>, j: int) -> bool {
    let below = plays_sum(t, t.children_of(j));
    below <= t.data_of(j).counted_plays() <= below + 1
}

/// If node `j` is expanded and has no children (a finished game), it has
/// been played exactly once.
pub open spec fn finished_played_at<D: Counted>(t: Tree<D>, j: int) -> bool {
    t.data_of(j).counted_expanded() && t.children_of(j).len() == 0 ==> t.data_of(j).counted_plays() == 1
}

/// The plays of the search tree add up: every node has been played as
/// often as its children together, or once more, and every finished game
/// in it has been played exactly once.
pub open spec fn plays_balanced<D: Counted>(t: Tree<D>) -> bool {
    &&& forall|j: int| 0 <= j < t.len() ==> #[trigger] plays_bounded_at(t, j)
    &&& forall|j: int| 0 <= j < t.len() ==> #[trigger] finished_played_at(t, j)
}

/// Every node is listed among its parent's children.
pub open spec fn children_listed<T>(t: Tree<T>) -> bool {
    forall|j: int|
        0 <= j < t.len() ==> (#[trigger] t.parent_of(j) matches Some(p) ==> t.children_of(p as int).contains(
            j as usize,
        ))
}

/// A consistent search tree lists every node among its parent's children.
pub proof fn lemma_consistent_children_listed<S: GameState>(t: SearchTree<S>)
    requires
        consistent(t),
    ensures
        children_listed(t),
{
    assert forall|j: int| 0 <= j < t.len() implies (#[trigger] t.parent_of(j) matches Some(p)
        ==> t.children_of(p as int).contains(j as usize)) by {
        assert(node_consistent(t, j));
    }
}

/// The sum depends only on the plays of the nodes summed.
pub proof fn lemma_plays_sum_frame<D: Counted>(t0: Tree<D>, t1: Tree<D>, cs: Seq<usize>)
    requires
        forall|k: int|
            0 <= k < cs.len() ==> (#[trigger] t1.data_of(cs[k] as int)).counted_plays() == t0.data_of(
                cs[k] as int,
            ).counted_plays(),
    ensures
        plays_sum(t1, cs) == plays_sum(t0, cs),
    decreases cs.len(),
{
    if cs.len() > 0 {
        assert(t1.data_of(cs[cs.len() - 1] as int).counted_plays() == t0.data_of(cs[cs.len() - 1] as int).counted_plays());
        lemma_plays_sum_frame(t0, t1, cs.drop_last());
    }
}

/// When one node `b` listed once in `cs` gains a play and the others keep
/// theirs, the sum gains one.
pub proof fn lemma_plays_sum_bump<D: Counted>(t0: Tree<D>, t1: Tree<D>, cs: Seq<usize>, b: usize)
    requires
        cs.no_duplicates(),
        cs.contains(b),
        t1.data_of(b as int).counted_plays() == t0.data_of(b as int).counted_plays() + 1,
        forall|k: int|
            0 <= k < cs.len() && cs[k] != b ==> (#[trigger] t1.data_of(cs[k] as int)).counted_plays()
                == t0.data_of(cs[k] as int).counted_plays(),
    ensures
        plays_sum(t1, cs) == plays_sum(t0, cs) + 1,
    decreases cs.len(),
{
    let last = cs.len() - 1;
    let rest = cs.drop_last();
    assert(rest.no_duplicates());
    if cs[last] == b {
        assert(!rest.contains(b)) by {
            if rest.contains(b) {
                let k = choose|k: int| 0 <= k < rest.len() && rest[k] == b;
                assert(cs[k] == cs[last]);
            }
        }
        assert forall|k: int| 0 <= k < rest.len() implies (#[trigger] t1.data_of(rest[k] as int)).counted_plays()
            == t0.data_of(rest[k] as int).counted_plays() by {
            assert(rest[k] == cs[k]);
        }
        lemma_plays_sum_frame(t0, t1, rest);
    } else {
        assert(rest.contains(b)) by {
            let k = choose|k: int| 0 <= k < cs.len() && cs[k] == b;
            assert(rest[k] == b);
        }
        assert(t1.data_of(cs[last] as int).counted_plays() == t0.data_of(cs[last] as int).counted_plays());
        lemma_plays_sum_bump(t0, t1, rest, b);
    }
}

/// The sum is at least the plays of any node summed.
pub proof fn lemma_plays_sum_ge<D: Counted>(t: Tree<D>, cs: Seq<usize>, k: int)
    requires
        0 <= k < cs.len(),
    ensures
        plays_sum(t, cs) >= t.data_of(cs[k] as int).counted_plays(),
    decreases cs.len(),
{
    lemma_plays_sum_nonneg(t, cs.drop_last());
    if k < cs.len() - 1 {
        assert(cs.drop_last()[k] == cs[k]);
        lemma_plays_sum_ge(t, cs.drop_last(), k);
    }
}

/// A sum of plays is never negative.
pub proof fn lemma_plays_sum_nonneg<D: Counted>(t: Tree<D>, cs: Seq<usize>)
    ensures
        plays_sum(t, cs) >= 0,
    decreases cs.len(),
{
    if cs.len() > 0 {
        lemma_plays_sum_nonneg(t, cs.drop_last());
    }
}

/// Where every node has been played at least as often as its children
/// together, no node has been played more often than any node on its path
/// up to the root.
pub proof fn lemma_plays_dominate<D: Counted>(t: Tree<D>, i: int, a: int)
    requires
        t.wf(),
        children_listed(t),
        forall|j: int| 0 <= j < t.len() ==> #[trigger] plays_bounded_at(t, j),
        t.on_path(i, a),
    ensures
        t.data_of(i).counted_plays() <= t.data_of(a).counted_plays(),
    decreases i,
{
    lemma_on_path_le(t, i, a);
    if i != a {
        lemma_on_path_step(t, i, a);
        let p = t.parent_of(i).unwrap();
        assert(t.parent_of(i) matches Some(q) && q < i);
        assert(t.children_of(p as int).contains(i as usize));
        let k = choose|k: int| 0 <= k < t.children_of(p as int).len() && t.children_of(p as int)[k] == i as usize;
        lemma_plays_sum_ge(t, t.children_of(p as int), k);
        assert(plays_bounded_at(t, p as int));
        lemma_plays_dominate(t, p as int, a);
    }
}

/// Counting one simulation that started at `c`, a node without children
/// that had never been played, keeps the plays balanced, provided the root
/// can still count one more play: `f`, applied to `c` and its ancestors,
/// counts one more play and keeps whether a node is expanded. Before the
/// count, a finished game at `c` itself may still lack its play.
pub proof fn lemma_played_path_balanced<D: Counted>(t1: Tree<D>, t2: Tree<D>, c: int, f: spec_fn(D) -> D)
    requires
        t1.wf(),
        children_listed(t1),
        t1.has(c),
        t1.children_of(c).len() == 0,
        t1.data_of(c).counted_plays() == 0,
        forall|j: int| 0 <= j < t1.len() ==> #[trigger] plays_bounded_at(t1, j),
        forall|j: int| 0 <= j < t1.len() && j != c ==> #[trigger] finished_played_at(t1, j),
        t1.data_of(0).counted_plays() < usize::MAX,
        forall|d: D|
            (#[trigger] f(d)).counted_plays() == counter_add(d.counted_plays(), 1) && f(d).counted_expanded()
                == d.counted_expanded(),
        applied_up_from(t2, t1, c, f),
    ensures
        plays_balanced(t2),
        t2.data_of(0).counted_plays() == t1.data_of(0).counted_plays() + 1,
{
    lemma_same_shape(t1, t2);
    // Along the path every node gains exactly one play; elsewhere nothing
    // changes.
    assert forall|j: int| 0 <= j < t1.len() implies {
        &&& (#[trigger] t2.data_of(j)).counted_expanded() == t1.data_of(j).counted_expanded()
        &&& t2.data_of(j).counted_plays() == t1.data_of(j).counted_plays() + if t1.on_path(c, j) {
            1int
        } else {
            0int
        }
    } by {
        if t1.on_path(c, j) {
            crate::tree::lemma_root_on_path(t1, j);
            lemma_plays_dominate(t1, j, 0);
            assert(t2.data_of(j) == f(t1.data_of(j)));
        }
    }
    assert forall|j: int|
        #![trigger plays_bounded_at(t2, j)]
        #![trigger finished_played_at(t2, j)]
        0 <= j < t2.len() implies plays_bounded_at(t2, j) && finished_played_at(t2, j) by {
        let cs = t1.children_of(j);
        assert(t2.children_of(j) == cs);
        assert(plays_bounded_at(t1, j));
        if t1.on_path(c, j) && j != c {
            let b = lemma_path_child_exists(t1, c, j);
            assert(t1.children_of(j).contains(b as usize)) by {
                lemma_on_path_le(t1, c, b);
            }
            assert forall|k: int| 0 <= k < cs.len() && cs[k] != b as usize implies (#[trigger] t2.data_of(
                cs[k] as int,
            )).counted_plays() == t1.data_of(cs[k] as int).counted_plays() by {
                assert(cs[k] < t1.len());
                if t1.on_path(c, cs[k] as int) {
                    lemma_path_child_unique(t1, c, cs[k] as int, b);
                }
            }
            lemma_on_path_le(t1, c, b);
            lemma_plays_sum_bump(t1, t2, cs, b as usize);
        } else if j == c {
            assert(cs.len() == 0);
        } else {
            assert forall|k: int| 0 <= k < cs.len() implies (#[trigger] t2.data_of(cs[k] as int)).counted_plays()
                == t1.data_of(cs[k] as int).counted_plays() by {
                assert(cs[k] < t1.len());
                assert(t1.parent_of(cs[k] as int) == Some(j as usize));
                if t1.on_path(c, cs[k] as int) {
                    lemma_on_path_step(t1, cs[k] as int, j);
                    crate::tree::lemma_on_path_trans(t1, c, cs[k] as int, j);
                }
            }
            lemma_plays_sum_frame(t1, t2, cs);
            assert(finished_played_at(t1, j));
        }
    }
    crate::tree::lemma_root_on_path(t1, c);
}

/// Changes that keep the shape of the tree and, at every node, the plays
/// and whether it is expanded keep the plays balanced.
pub proof fn lemma_balanced_frame<D: Counted>(t0: Tree<D>, t1: Tree<D>)
    requires
        plays_balanced(t0),
        t1.same_shape(t0),
        forall|j: int|
            0 <= j < t0.len() ==> (#[trigger] t1.data_of(j)).counted_plays() == t0.data_of(j).counted_plays()
                && t1.data_of(j).counted_expanded() == t0.data_of(j).counted_expanded(),
        t0.wf(),
    ensures
        plays_balanced(t1),
{
    assert forall|j: int|
        #![trigger plays_bounded_at(t1, j)]
        #![trigger finished_played_at(t1, j)]
        0 <= j < t1.len() implies plays_bounded_at(t1, j) && finished_played_at(t1, j) by {
        let cs = t0.children_of(j);
        assert(t1.children_of(j) == cs);
        assert(plays_bounded_at(t0, j));
        assert(finished_played_at(t0, j));
        assert forall|k: int| 0 <= k < cs.len() implies (#[trigger] t1.data_of(cs[k] as int)).counted_plays()
            == t0.data_of(cs[k] as int).counted_plays() by {
            assert(cs[k] < t0.len());
        }
        lemma_plays_sum_frame(t0, t1, cs);
    }
}

/// A tree of one node that has no children, is not expanded and has been
/// played at most once has its plays balanced: such is the root that a
/// search starts from.
pub proof fn lemma_new_root_balanced<D: Counted>(t: Tree<D>)
    requires
        t.len() == 1,
        t.children_of(0) == Seq::<usize>::empty(),
        !t.data_of(0).counted_expanded(),
        t.data_of(0).counted_plays() <= 1,
    ensures
        plays_balanced(t),
{
    assert(plays_bounded_at(t, 0));
    assert(finished_played_at(t, 0));
}

/// Below a saturated root every node of a consistent search tree has
/// reported its saturation.
pub proof fn lemma_saturated_root_all_reported<S: GameState>(t: SearchTree<S>, j: int)
    requires
        consistent(t),
        t.data_of(0).saturated(),
        0 < j < t.len(),
    ensures
        reported(t.data_of(j)),
    decreases j,
{
    assert(t.parent_of(j) matches Some(p) && p < j);
    let p = t.parent_of(j).unwrap() as int;
    if p > 0 {
        lemma_saturated_root_all_reported(t, p);
    }
    lemma_saturated_iff_children_reported(t, p);
    assert(node_consistent(t, j));
    let k = choose|k: int| 0 <= k < t.children_of(p).len() && t.children_of(p)[k] == j as usize;
    assert(reported(t.data_of(t.children_of(p)[k] as int)));
}

/// Once the root of a consistent search tree whose plays are balanced is
/// saturated, every node without children (every finished game of the
/// tree) has been played exactly once.
pub proof fn lemma_saturated_leaves_played_once<S: GameState>(t: SearchTree<S>, j: int)
    requires
        consistent(t),
        plays_balanced(t),
        t.data_of(0).saturated(),
        t.has(j),
        t.children_of(j).len() == 0,
    ensures
        t.data_of(j).stats().plays == 1,
{
    if j > 0 {
        lemma_saturated_root_all_reported(t, j);
    }
    assert(finished_played_at(t, j));
}

} // verus!
