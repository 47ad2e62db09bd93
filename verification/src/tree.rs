use vstd::prelude::*;

verus! {

/// One node of a tree: its data, its parent (`None` for the root) and its
/// children, by index into the tree.
pub struct NodeContent<T> {
    data: T,
    parent: Option<usize>,
    children: Vec<usize>,
}

/// A tree whose nodes live in one vector and refer to each other by index.
/// The root is node 0; every other node's parent comes before it.
pub struct Tree<T> {
    nodes: Vec<NodeContent<T>>,
}

/// The index of the root of every tree.
pub const ROOT: usize = 0;

impl<T> Tree<T> {
    /// The number of nodes.
    pub closed spec fn len(&self) -> nat {
        self.nodes@.len()
    }

    /// The data of node `i`.
    pub closed spec fn data_of(&self, i: int) -> T {
        self.nodes@[i].data
    }

    /// The parent of node `i`.
    pub closed spec fn parent_of(&self, i: int) -> Option<usize> {
        self.nodes@[i].parent
    }

    /// The children of node `i`, in the order they were added.
    pub closed spec fn children_of(&self, i: int) -> Seq<usize> {
        self.nodes@[i].children@
    }

    /// True if `i` names a node.
    pub open spec fn has(&self, i: int) -> bool {
        0 <= i < self.len()
    }

    /// The tree is well formed: it has a root without parent, every other
    /// node has a parent that comes before it, and every listed child of a
    /// node is a node whose parent it is, listed once.
    pub open spec fn wf(&self) -> bool {
        &&& 0 < self.len() <= usize::MAX
        &&& self.parent_of(0) is None
        &&& forall|i: int|
            0 < i < self.len() ==> (#[trigger] self.parent_of(i) matches Some(p) && p < i)
        &&& forall|i: int, k: int|
            0 <= i < self.len() && 0 <= k < self.children_of(i).len() ==> {
                let c = #[trigger] self.children_of(i)[k];
                &&& c < self.len()
                &&& self.parent_of(c as int) == Some(i as usize)
            }
        &&& forall|i: int| 0 <= i < self.len() ==> (#[trigger] self.children_of(i)).no_duplicates()
    }

    /// `self` and `other` have the same nodes, parents and children.
    pub open spec fn same_shape<U>(&self, other: Tree<U>) -> bool {
        &&& self.len() == other.len()
        &&& forall|j: int| 0 <= j < self.len() ==> #[trigger] self.parent_of(j) == other.parent_of(j)
        &&& forall|j: int| 0 <= j < self.len() ==> #[trigger] self.children_of(j) == other.children_of(j)
    }

    /// True if `a` is `from` or one of its ancestors: the nodes met when
    /// walking from `from` up to the root.
    pub open spec fn on_path(&self, from: int, a: int) -> bool
        decreases from,
    {
        if from < 0 || from >= self.len() {
            false
        } else if a == from {
            true
        } else {
            match self.parent_of(from) {
                Some(p) => if p < from {
                    self.on_path(p as int, a)
                } else {
                    false
                },
                None => false,
            }
        }
    }

    /// The tree is `old` with node `i` holding `d` and nothing else changed.
    pub open spec fn is_data_update(&self, old: Self, i: int, d: T) -> bool {
        &&& self.len() == old.len()
        &&& self.data_of(i) == d
        &&& forall|j: int| 0 <= j < self.len() && j != i ==> #[trigger] self.data_of(j) == old.data_of(j)
        &&& forall|j: int| 0 <= j < self.len() ==> #[trigger] self.parent_of(j) == old.parent_of(j)
        &&& forall|j: int| 0 <= j < self.len() ==> #[trigger] self.children_of(j) == old.children_of(j)
    }

    /// A tree of one node, the root, holding `data`.
    pub fn new_root(data: T) -> (r: Self)
        ensures
            r.wf(),
            r.len() == 1,
            r.data_of(0) == data,
            r.children_of(0) == Seq::<usize>::empty(),
    {
        let mut nodes: Vec<NodeContent<T>> = Vec::new();
        nodes.push(NodeContent { data, parent: None, children: Vec::new() });
        Tree { nodes }
    }

    /// The number of nodes in the tree.
    pub fn node_count(&self) -> (r: usize)
        ensures
            r == self.len(),
    {
        self.nodes.len()
    }

    /// The data of node `i`.
    pub fn data(&self, i: usize) -> (r: &T)
        requires
            self.has(i as int),
        ensures
            *r == self.data_of(i as int),
    {
        &self.nodes[i].data
    }

    /// The parent of node `i`, or `None` for the root.
    pub fn parent(&self, i: usize) -> (r: Option<usize>)
        requires
            self.has(i as int),
        ensures
            r == self.parent_of(i as int),
    {
        self.nodes[i].parent
    }

    /// The children of node `i`, in the order they were added.
    pub fn children(&self, i: usize) -> (r: Vec<usize>)
        requires
            self.has(i as int),
        ensures
            r@ == self.children_of(i as int),
    {
        self.nodes[i].children.clone()
    }

    /// The number of children of node `i`.
    pub fn child_count(&self, i: usize) -> (r: usize)
        requires
            self.has(i as int),
        ensures
            r == self.children_of(i as int).len(),
    {
        self.nodes[i].children.len()
    }

    /// The `k`-th child of node `i`.
    pub fn child(&self, i: usize, k: usize) -> (r: usize)
        requires
            self.has(i as int),
            k < self.children_of(i as int).len(),
        ensures
            r == self.children_of(i as int)[k as int],
    {
        self.nodes[i].children[k]
    }

    /// Mutable access to the data of node `i`; the rest of the tree stays.
    pub fn data_mut(&mut self, i: usize) -> (r: &mut T)
        requires
            old(self).has(i as int),
        ensures
            *r == old(self).data_of(i as int),
            final(self).is_data_update(*old(self), i as int, *final(r)),
    {
        &mut self.nodes[i].data
    }

    /// Adds a new child holding `data` under node `parent`, at the end of its
    /// children, and returns its index.
    pub fn new_child(&mut self, parent: usize, data: T) -> (r: usize)
        requires
            old(self).wf(),
            old(self).has(parent as int),
            old(self).len() < usize::MAX,
        ensures
            final(self).wf(),
            r == old(self).len(),
            final(self).len() == old(self).len() + 1,
            final(self).data_of(r as int) == data,
            final(self).parent_of(r as int) == Some(parent),
            final(self).children_of(r as int) == Seq::<usize>::empty(),
            final(self).children_of(parent as int) == old(self).children_of(parent as int).push(r),
            forall|j: int| 0 <= j < old(self).len() ==> #[trigger] final(self).data_of(j) == old(self).data_of(j),
            forall|j: int| 0 <= j < old(self).len() ==> #[trigger] final(self).parent_of(j) == old(self).parent_of(j),
            forall|j: int|
                0 <= j < old(self).len() && j != parent ==> #[trigger] final(self).children_of(j)
                    == old(self).children_of(j),
    {
        let id = self.nodes.len();
        self.nodes.push(NodeContent { data, parent: Some(parent), children: Vec::new() });
        self.nodes[parent].children.push(id);
        proof {
            assert forall|i: int| 0 < i < self.len() implies (#[trigger] self.parent_of(i) matches Some(
                p,
            ) && p < i) by {
                if i < id {
                    assert(self.parent_of(i) == old(self).parent_of(i));
                }
            }
            assert forall|i: int, k: int|
                0 <= i < self.len() && 0 <= k < self.children_of(i).len() implies {
                    let c = #[trigger] self.children_of(i)[k];
                    &&& c < self.len()
                    &&& self.parent_of(c as int) == Some(i as usize)
                } by {
                if i != parent && i < id {
                    assert(self.children_of(i) == old(self).children_of(i));
                } else if i == parent {
                    if k < old(self).children_of(i).len() {
                        assert(self.children_of(i)[k] == old(self).children_of(i)[k]);
                    }
                }
            }
            assert forall|i: int| 0 <= i < self.len() implies (#[trigger] self.children_of(i)).no_duplicates() by {
                if i != parent && i < id {
                    assert(self.children_of(i) == old(self).children_of(i));
                } else if i == parent {
                    let s = old(self).children_of(i);
                    assert forall|a: int| 0 <= a < s.len() implies s[a] != id by {
                        assert(s[a] < old(self).len());
                    }
                    assert(self.children_of(i) == s.push(id));
                }
            }
        }
        id
    }

    /// Forgets the children of node `i`; they stay in the tree, unlisted.
    pub fn clear_children(&mut self, i: usize)
        requires
            old(self).wf(),
            old(self).has(i as int),
        ensures
            final(self).wf(),
            final(self).len() == old(self).len(),
            final(self).children_of(i as int) == Seq::<usize>::empty(),
            forall|j: int| 0 <= j < old(self).len() ==> #[trigger] final(self).data_of(j) == old(self).data_of(j),
            forall|j: int| 0 <= j < old(self).len() ==> #[trigger] final(self).parent_of(j) == old(self).parent_of(j),
            forall|j: int|
                0 <= j < old(self).len() && j != i ==> #[trigger] final(self).children_of(j)
                    == old(self).children_of(j),
    {
        self.nodes[i].children = Vec::new();
        proof {
            assert forall|a: int| 0 < a < self.len() implies (#[trigger] self.parent_of(a) matches Some(
                p,
            ) && p < a) by {
                assert(self.parent_of(a) == old(self).parent_of(a));
            }
            assert forall|a: int, k: int|
                0 <= a < self.len() && 0 <= k < self.children_of(a).len() implies {
                    let c = #[trigger] self.children_of(a)[k];
                    &&& c < self.len()
                    &&& self.parent_of(c as int) == Some(a as usize)
                } by {
                assert(self.children_of(a) == old(self).children_of(a));
                assert(self.parent_of(self.children_of(a)[k] as int) == old(self).parent_of(
                    self.children_of(a)[k] as int,
                ));
            }
            assert forall|a: int| 0 <= a < self.len() implies (#[trigger] self.children_of(a)).no_duplicates() by {
                if a != i {
                    assert(self.children_of(a) == old(self).children_of(a));
                }
            }
        }
    }
}

/// A tree shaped like a well-formed tree is well formed, and has the same
/// paths.
pub proof fn lemma_same_shape<T, U>(t: Tree<T>, u: Tree<U>)
    requires
        t.wf(),
        t.same_shape(u),
    ensures
        u.wf(),
        forall|from: int, a: int| #[trigger] u.on_path(from, a) == t.on_path(from, a),
{
    assert forall|i: int, k: int| 0 <= i < u.len() && 0 <= k < u.children_of(i).len() implies {
        let c = #[trigger] u.children_of(i)[k];
        &&& c < u.len()
        &&& u.parent_of(c as int) == Some(i as usize)
    } by {
        assert(u.children_of(i) == t.children_of(i));
        assert(u.parent_of(t.children_of(i)[k] as int) == t.parent_of(t.children_of(i)[k] as int));
    }
    assert forall|i: int| 0 < i < u.len() implies (#[trigger] u.parent_of(i) matches Some(p) && p < i) by {
        assert(u.parent_of(i) == t.parent_of(i));
    }
    assert forall|i: int| 0 <= i < u.len() implies (#[trigger] u.children_of(i)).no_duplicates() by {
        assert(u.children_of(i) == t.children_of(i));
    }
    assert forall|from: int, a: int| #[trigger] u.on_path(from, a) == t.on_path(from, a) by {
        lemma_on_path_same_shape(t, u, from, a);
    }
}

/// Walking up from a node meets only nodes at or before it.
pub proof fn lemma_on_path_le<T>(t: Tree<T>, from: int, a: int)
    requires
        t.on_path(from, a),
    ensures
        0 <= a <= from < t.len(),
    decreases from,
{
    if a != from {
        let p = t.parent_of(from).unwrap();
        lemma_on_path_le(t, p as int, a);
    }
}

/// One step up: the path from `i` is `i` followed by the path from its
/// parent.
pub proof fn lemma_on_path_step<T>(t: Tree<T>, i: int, a: int)
    requires
        t.wf(),
        t.has(i),
    ensures
        t.on_path(i, a) == (a == i || (t.parent_of(i) matches Some(p) && t.on_path(p as int, a))),
{
    if i > 0 {
        assert(t.parent_of(i) matches Some(p) && p < i);
    }
}

/// A node on the path from `b`, which is on the path from `c`, is on the
/// path from `c`.
pub proof fn lemma_on_path_trans<T>(t: Tree<T>, c: int, b: int, a: int)
    requires
        t.on_path(c, b),
        t.on_path(b, a),
    ensures
        t.on_path(c, a),
    decreases c,
{
    if b != c {
        let p = t.parent_of(c).unwrap();
        lemma_on_path_trans(t, p as int, b, a);
    }
}

/// The root is on the path from every node of a well-formed tree.
pub proof fn lemma_root_on_path<T>(t: Tree<T>, i: int)
    requires
        t.wf(),
        t.has(i),
    ensures
        t.on_path(i, 0),
    decreases i,
{
    if i > 0 {
        let p = t.parent_of(i).unwrap();
        lemma_root_on_path(t, p as int);
    }
}

/// `on_path` depends only on the parents: a tree with the same size and
/// parents has the same paths.
pub proof fn lemma_on_path_same_shape<T, U>(t: Tree<T>, u: Tree<U>, from: int, a: int)
    requires
        t.len() == u.len(),
        forall|j: int| 0 <= j < t.len() ==> #[trigger] t.parent_of(j) == u.parent_of(j),
    ensures
        t.on_path(from, a) == u.on_path(from, a),
    decreases from,
{
    if 0 <= from < t.len() && a != from {
        if let Some(p) = t.parent_of(from) {
            if p < from {
                lemma_on_path_same_shape(t, u, p as int, a);
            }
        }
    }
}

/// `new` is `old` with `f` applied to the data of `from` and of every
/// ancestor of `from`, and nothing else changed.
pub open spec fn applied_up_from<T>(new: Tree<T>, old: Tree<T>, from: int, f: spec_fn(T) -> T) -> bool {
    &&& new.same_shape(old)
    &&& forall|j: int|
        0 <= j < old.len() ==> #[trigger] new.data_of(j) == if old.on_path(from, j) {
            f(old.data_of(j))
        } else {
            old.data_of(j)
        }
}

/// True if the walk up from some node, now at `cur`, has still to reach
/// `j`.
pub open spec fn walk_pending<T>(t: Tree<T>, cur: Option<usize>, j: int) -> bool {
    cur matches Some(c) && t.on_path(c as int, j)
}

/// `new` is `old` partway through a walk from `from` up to the root that
/// applies `f` to every node it meets: the nodes already passed hold `f`
/// of their old data, the walk is now at `cur`, and nothing else changed.
pub open spec fn walked<T>(new: Tree<T>, old: Tree<T>, from: int, cur: Option<usize>, f: spec_fn(T) -> T) -> bool {
    &&& new.same_shape(old)
    &&& (cur matches Some(c) ==> old.has(c as int) && old.on_path(from, c as int))
    &&& forall|j: int|
        0 <= j < old.len() ==> #[trigger] new.data_of(j) == if old.on_path(from, j) && !walk_pending(old, cur, j) {
            f(old.data_of(j))
        } else {
            old.data_of(j)
        }
}

/// A walk starts with nothing changed.
pub proof fn lemma_walk_start<T>(t: Tree<T>, from: usize, f: spec_fn(T) -> T)
    requires
        t.wf(),
        t.has(from as int),
    ensures
        walked(t, t, from as int, Some(from), f),
{
    assert(t.on_path(from as int, from as int));
}

/// One step of a walk: the node at `i` gets `f` of its data and the walk
/// moves on to its parent.
pub proof fn lemma_walk_step<T>(old: Tree<T>, mid: Tree<T>, new: Tree<T>, from: int, i: usize, f: spec_fn(T) -> T)
    requires
        old.wf(),
        walked(mid, old, from, Some(i), f),
        new.is_data_update(mid, i as int, f(mid.data_of(i as int))),
    ensures
        walked(new, old, from, old.parent_of(i as int), f),
        mid.data_of(i as int) == old.data_of(i as int),
        old.parent_of(i as int) matches Some(p) ==> p < i,
{
    assert(old.on_path(i as int, i as int));
    assert(mid.data_of(i as int) == old.data_of(i as int));
    if i > 0 {
        assert(old.parent_of(i as int) matches Some(p) && p < i);
    }
    let next = old.parent_of(i as int);
    if let Some(p) = next {
        lemma_on_path_step(old, i as int, p as int);
        lemma_on_path_trans(old, from, i as int, p as int);
    }
    assert forall|j: int| 0 <= j < old.len() implies #[trigger] new.data_of(j) == if old.on_path(from, j)
        && !walk_pending(old, next, j) {
        f(old.data_of(j))
    } else {
        old.data_of(j)
    } by {
        lemma_on_path_step(old, i as int, j);
        if j != i {
            assert(new.data_of(j) == mid.data_of(j));
            assert(walk_pending(old, Some(i), j) == walk_pending(old, next, j));
        } else {
            if let Some(p) = next {
                if old.on_path(p as int, j) {
                    lemma_on_path_le(old, p as int, j);
                }
            }
        }
    }
}

} // verus!
