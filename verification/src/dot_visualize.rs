use vstd::prelude::*;
use crate::game::{GameMove, GameState};
use crate::mcts_data::MctsData;
use crate::search::states_wf;
use crate::text::{decimal, push_char, push_decimal, push_str};
use crate::tree::{Tree, ROOT};

verus! {

/// The hash that std's `DefaultHasher` gives the text `s`.
pub uninterp spec fn default_hash(s: Seq<char>) -> u64;

/// Hashes `s` with a fresh `DefaultHasher`.
/// Trusted: calls `BuildHasher::hash_one` on `BuildHasherDefault<DefaultHasher>`,
/// which feeds `s` to a hasher made by `DefaultHasher::new` and returns its
/// `finish`. std documents that every hasher made by `DefaultHasher::new`
/// hashes the same data the same way, so the result is a function of the
/// text; which function it is, std leaves open, and nothing here states it.
#[verifier::external_body]
fn hash_str(s: &str) -> (r: u64)
    ensures
        r == default_hash(s@),
{
    std::hash::BuildHasher::hash_one(
        &std::hash::BuildHasherDefault::<std::collections::hash_map::DefaultHasher>::default(),
        s,
    )
}

/// `a + b`, wrapping around past `u64::MAX`.
pub open spec fn id_add(a: u64, b: u64) -> u64 {
    if a + b > u64::MAX {
        (a + b - u64::MAX - 1) as u64
    } else {
        (a + b) as u64
    }
}

/// `s` with every line break written as a backslash and an `n`.
pub open spec fn newlines_escaped(s: Seq<char>) -> Seq<char>
    decreases s.len(),
{
    if s.len() == 0 {
        seq![]
    } else if s.last() == '\n' {
        newlines_escaped(s.drop_last()) + seq!['\\', 'n']
    } else {
        newlines_escaped(s.drop_last()).push(s.last())
    }
}

/// The text of the action that led to a node, or "n/a" for a root.
pub open spec fn action_label<M: GameMove>(a: Option<M>) -> Seq<char> {
    match a {
        Some(m) => m.spec_text(),
        None => "n/a"@,
    }
}

/// The label of a node: its action, wins, plays and board, one per line,
/// with the line breaks escaped.
pub open spec fn node_label<S: GameState>(d: MctsData<S>) -> Seq<char> {
    newlines_escaped(
        "A: "@ + action_label(d.view_action()) + "\nWins: "@ + decimal(d.stats().wins as nat)
            + "\nPlays: "@ + decimal(d.stats().plays as nat) + "\n"@
            + d.view_state().spec_human_friendly(),
    )
}

/// The id of a node reached along a path whose id is `path`: the hash of
/// its label plus `path`.
pub open spec fn node_id<S: GameState>(d: MctsData<S>, path: u64) -> u64 {
    id_add(default_hash(node_label(d)), path)
}

/// The line that declares node `id` with `label`.
pub open spec fn label_line(id: u64, label: Seq<char>) -> Seq<char> {
    decimal(id as nat) + " [label = \""@ + label + "\"]\n"@
}

/// The line that draws an edge from `from` to `to`.
pub open spec fn edge_line(from: u64, to: u64) -> Seq<char> {
    decimal(from as nat) + " -> "@ + decimal(to as nat) + ";\n"@
}

/// How many more levels a walk may descend: a limit of `d` allows `d + 1`
/// calls down, no limit allows one.
pub open spec fn depth_measure(depth: Option<usize>) -> nat {
    match depth {
        Some(d) => (d + 1) as nat,
        None => 0,
    }
}

/// Among the first `k` children listed in `kids`, the position of the one
/// with the most plays; the last of them where several tie.
pub open spec fn most_played<S: GameState>(t: Tree<MctsData<S>>, kids: Seq<usize>, k: int) -> int
    decreases k,
{
    if k <= 1 {
        0
    } else {
        let j = most_played(t, kids, k - 1);
        if t.data_of(kids[k - 1] as int).stats().plays >= t.data_of(kids[j] as int).stats().plays {
            k - 1
        } else {
            j
        }
    }
}

/// The labels and the edges that the first `k` children of a node with id
/// `id` add when the walk does not descend into them.
pub open spec fn child_lines<S: GameState>(t: Tree<MctsData<S>>, kids: Seq<usize>, id: u64, k: int) -> (
    Seq<char>,
    Seq<char>,
)
    decreases k,
{
    if k <= 0 {
        (seq![], seq![])
    } else {
        let prev = child_lines(t, kids, id, k - 1);
        let c = t.data_of(kids[k - 1] as int);
        (prev.0 + label_line(node_id(c, id), node_label(c)), prev.1 + edge_line(id, node_id(c, id)))
    }
}

/// The labels and the edges that the first `k` children of a node with id
/// `id` add when the walk descends into each of them with `d` levels left.
pub open spec fn children_walk<S: GameState>(
    t: Tree<MctsData<S>>,
    kids: Seq<usize>,
    id: u64,
    d: usize,
    k: int,
) -> (Seq<char>, Seq<char>)
    decreases d + 2, 0int, k,
{
    if k <= 0 {
        (seq![], seq![])
    } else {
        let prev = children_walk(t, kids, id, d, k - 1);
        let c = kids[k - 1] as int;
        let sub = dot_walk(t, c, id, Some(d));
        (prev.0 + sub.0, prev.1 + edge_line(id, node_id(t.data_of(c), id)) + sub.1)
    }
}

/// The labels and the edges that a depth-first walk from node `n`, reached
/// along a path with id `path`, writes. With a limit of 0 levels it writes
/// nothing. Otherwise it declares the node; with no limit it also declares
/// the node's children and draws an edge to each; with a limit above 1 it
/// draws an edge to each child and walks it with one level less; with a
/// limit of 1 it walks the most played child with no limit, drawing no
/// edge to it.
pub open spec fn dot_walk<S: GameState>(t: Tree<MctsData<S>>, n: int, path: u64, depth: Option<usize>) -> (
    Seq<char>,
    Seq<char>,
)
    decreases depth_measure(depth), 1int, 0int,
{
    if depth == Some(0usize) {
        (seq![], seq![])
    } else {
        let data = t.data_of(n);
        let id = node_id(data, path);
        let kids = t.children_of(n);
        let below = match depth {
            None => child_lines(t, kids, id, kids.len() as int),
            Some(d) => if d > 1 {
                children_walk(t, kids, id, (d - 1) as usize, kids.len() as int)
            } else {
                (seq![], seq![])
            },
        };
        let extra = match depth {
            Some(d) => if d == 1 && kids.len() > 0 {
                dot_walk(t, kids[most_played(t, kids, kids.len() as int)] as int, id, None)
            } else {
                (seq![], seq![])
            },
            None => (seq![], seq![]),
        };
        (label_line(id, node_label(data)) + below.0 + extra.0, below.1 + extra.1)
    }
}

/// A walk with a limit of 0 levels writes nothing; any other walk writes
/// the declaration of the node it starts from first.
pub proof fn lemma_dot_walk_starts<S: GameState>(t: Tree<MctsData<S>>, n: int, path: u64, depth: Option<usize>)
    ensures
        depth == Some(0usize) ==> dot_walk(t, n, path, depth) == (Seq::<char>::empty(), Seq::<char>::empty()),
        depth != Some(0usize) ==> {
            let line = label_line(node_id(t.data_of(n), path), node_label(t.data_of(n)));
            dot_walk(t, n, path, depth).0.take(line.len() as int) == line
        },
{
    if depth != Some(0usize) {
        let line = label_line(node_id(t.data_of(n), path), node_label(t.data_of(n)));
        let w = dot_walk(t, n, path, depth).0;
        assert(w.take(line.len() as int) =~= line);
    }
}

/// The DOT text of a tree drawn from its root to `depth_limit` levels: a
/// fixed header, the node declarations, the edges and a closing brace.
pub open spec fn dot_text<S: GameState>(t: Tree<MctsData<S>>, depth_limit: Option<usize>) -> Seq<
    char,
> {
    let walk = dot_walk(t, 0, 0, depth_limit);
    "digraph prof {\nratio = fill;\nnode [style=filled, shape=box, fontname=courier];\n"@ + walk.0
        + walk.1 + "}"@
}

/// Draws a search tree in the DOT language of Graphviz.
pub trait TreeToDotFileFormat: Sized {
    /// True if the tree can be drawn.
    spec fn drawable(&self) -> bool;

    /// The DOT text of the tree drawn to `depth_limit` levels.
    spec fn dot_file(&self, depth_limit: Option<usize>) -> Seq<char>;

    /// The DOT text of the tree, drawn to `depth_limit` levels below the
    /// root (all of the root's children where there is no limit).
    fn to_dot_file_str(&self, depth_limit: Option<usize>) -> (r: String)
        requires
            self.drawable(),
        ensures
            r@ == self.dot_file(depth_limit),
    ;
}

/// `s` with every line break written as a backslash and an `n`.
fn escape_newlines(s: &str) -> (r: String)
    ensures
        r@ == newlines_escaped(s@),
{
    let mut r = String::new();
    for c in it: s.chars()
        invariant
            it.seq() == s@,
            r@ == newlines_escaped(s@.take(it.index() as int)),
    {
        proof {
            let t = s@.take(it.index() + 1);
            assert(t.drop_last() =~= s@.take(it.index() as int));
            assert(t.last() == c);
        }
        if c == '\n' {
            push_char(&mut r, '\\');
            push_char(&mut r, 'n');
        } else {
            push_char(&mut r, c);
        }
        proof {
            let t = s@.take(it.index() + 1);
            assert(t.drop_last() =~= s@.take(it.index() as int));
        }
    }
    proof {
        assert(s@.take(s@.len() as int) =~= s@);
    }
    r
}

/// The label of a node: its action, wins, plays and board.
fn label_of<S: GameState>(d: &MctsData<S>) -> (r: String)
    requires
        d.view_state().wf(),
    ensures
        r@ == node_label(*d),
{
    let mut raw = String::new();
    push_str(&mut raw, "A: ");
    proof {
        assert(raw@ =~= "A: "@);
    }
    match d.action() {
        Some(a) => {
            let t = a.text();
            push_str(&mut raw, t.as_str());
        },
        None => push_str(&mut raw, "n/a"),
    }
    push_str(&mut raw, "\nWins: ");
    push_decimal(&mut raw, d.wins() as u64);
    push_str(&mut raw, "\nPlays: ");
    push_decimal(&mut raw, d.plays() as u64);
    push_str(&mut raw, "\n");
    let board = d.state().human_friendly();
    push_str(&mut raw, board.as_str());
    escape_newlines(raw.as_str())
}

/// Appends the line that declares node `id` with `label`.
fn push_label_line(buf: &mut String, id: u64, label: &String)
    ensures
        final(buf)@ == old(buf)@ + label_line(id, label@),
{
    push_decimal(buf, id);
    push_str(buf, " [label = \"");
    push_str(buf, label.as_str());
    push_str(buf, "\"]\n");
    proof {
        assert(final(buf)@ =~= old(buf)@ + label_line(id, label@));
    }
}

/// Appends the line that draws an edge from `from` to `to`.
fn push_edge_line(buf: &mut String, from: u64, to: u64)
    ensures
        final(buf)@ == old(buf)@ + edge_line(from, to),
{
    push_decimal(buf, from);
    push_str(buf, " -> ");
    push_decimal(buf, to);
    push_str(buf, ";\n");
    proof {
        assert(final(buf)@ =~= old(buf)@ + edge_line(from, to));
    }
}

/// The position in `kids` of the child with the most plays, the last of
/// them where several tie.
fn most_played_child<S: GameState>(tree: &Tree<MctsData<S>>, kids: &Vec<usize>) -> (r: usize)
    requires
        tree.wf(),
        kids.len() > 0,
        forall|k: int| 0 <= k < kids.len() ==> tree.has(#[trigger] kids@[k] as int),
    ensures
        r == most_played(*tree, kids@, kids.len() as int),
        r < kids.len(),
{
    let mut best: usize = 0;
    let mut k: usize = 1;
    while k < kids.len()
        invariant
            1 <= k <= kids.len(),
            forall|j: int| 0 <= j < kids.len() ==> tree.has(#[trigger] kids@[j] as int),
            best == most_played(*tree, kids@, k as int),
            best < k,
        decreases kids.len() - k,
    {
        if tree.data(kids[k]).plays() >= tree.data(kids[best]).plays() {
            best = k;
        }
        k = k + 1;
    }
    best
}

/// Walks the tree depth first from `node`, reached along a path whose id is
/// `path_hash`, appending node declarations to `node_labels_buf` and edges
/// to `node_id_map_buf`.
fn depth_first_tree_walk<S: GameState>(
    tree: &Tree<MctsData<S>>,
    node: usize,
    path_hash: u64,
    node_labels_buf: &mut String,
    node_id_map_buf: &mut String,
    depth_remaining: Option<usize>,
)
    requires
        tree.wf(),
        states_wf(*tree),
        tree.has(node as int),
    ensures
        final(node_labels_buf)@ == old(node_labels_buf)@ + dot_walk(
            *tree,
            node as int,
            path_hash,
            depth_remaining,
        ).0,
        final(node_id_map_buf)@ == old(node_id_map_buf)@ + dot_walk(
            *tree,
            node as int,
            path_hash,
            depth_remaining,
        ).1,
    decreases depth_measure(depth_remaining),
{
    if let Some(d) = depth_remaining {
        if d == 0 {
            proof {
                assert(final(node_labels_buf)@ =~= old(node_labels_buf)@ + seq![]);
                assert(final(node_id_map_buf)@ =~= old(node_id_map_buf)@ + seq![]);
            }
            return;
        }
    }
    let ghost t = *tree;
    let ghost labels0 = node_labels_buf@;
    let ghost edges0 = node_id_map_buf@;
    let label = label_of(tree.data(node));
    let id = hash_str(label.as_str()).wrapping_add(path_hash);
    assert(id == node_id(t.data_of(node as int), path_hash));
    push_label_line(node_labels_buf, id, &label);
    let ghost labels1 = node_labels_buf@;
    let kids = tree.children(node);
    let ghost kseq = kids@;
    assert forall|j: int| 0 <= j < kids.len() implies tree.has(#[trigger] kids@[j] as int) by {
        assert(tree.children_of(node as int)[j] < tree.len());
    }
    let descend = match depth_remaining {
        None => true,
        Some(d) => d > 1,
    };
    if descend {
        let mut k: usize = 0;
        while k < kids.len()
            invariant
                t == *tree,
                tree.wf(),
                states_wf(*tree),
                tree.has(node as int),
                kids@ == kseq,
                kseq == t.children_of(node as int),
                forall|j: int| 0 <= j < kids.len() ==> tree.has(#[trigger] kids@[j] as int),
                k <= kids.len(),
                id == node_id(t.data_of(node as int), path_hash),
                depth_remaining is None ==> node_labels_buf@ == labels1 + child_lines(
                    t,
                    kseq,
                    id,
                    k as int,
                ).0 && node_id_map_buf@ == edges0 + child_lines(t, kseq, id, k as int).1,
                depth_remaining matches Some(d) ==> d > 1 && node_labels_buf@ == labels1
                    + children_walk(t, kseq, id, (d - 1) as usize, k as int).0 && node_id_map_buf@
                    == edges0 + children_walk(t, kseq, id, (d - 1) as usize, k as int).1,
            decreases kids.len() - k,
        {
            let c = kids[k];
            let child_label = label_of(tree.data(c));
            let child_id = hash_str(child_label.as_str()).wrapping_add(id);
            assert(child_id == node_id(t.data_of(c as int), id));
            let ghost l_before = node_labels_buf@;
            let ghost e_before = node_id_map_buf@;
            if depth_remaining.is_none() {
                push_label_line(node_labels_buf, child_id, &child_label);
            }
            push_edge_line(node_id_map_buf, id, child_id);
            match depth_remaining {
                Some(d) => {
                    let ghost l_mid = node_labels_buf@;
                    let ghost e_mid = node_id_map_buf@;
                    depth_first_tree_walk(tree, c, id, node_labels_buf, node_id_map_buf, Some(d - 1));
                    proof {
                        let prev = children_walk(t, kseq, id, (d - 1) as usize, k as int);
                        let sub = dot_walk(t, c as int, id, Some((d - 1) as usize));
                        assert(children_walk(t, kseq, id, (d - 1) as usize, k + 1) == (
                            prev.0 + sub.0,
                            prev.1 + edge_line(id, child_id) + sub.1,
                        ));
                        assert(node_labels_buf@ =~= labels1 + (prev.0 + sub.0));
                        assert(node_id_map_buf@ =~= edges0 + (prev.1 + edge_line(id, child_id)
                            + sub.1));
                    }
                },
                None => {
                    proof {
                        let prev = child_lines(t, kseq, id, k as int);
                        assert(child_lines(t, kseq, id, k + 1) == (
                            prev.0 + label_line(child_id, child_label@),
                            prev.1 + edge_line(id, child_id),
                        ));
                        assert(node_labels_buf@ =~= labels1 + (prev.0 + label_line(
                            child_id,
                            child_label@,
                        )));
                        assert(node_id_map_buf@ =~= edges0 + (prev.1 + edge_line(id, child_id)));
                    }
                },
            }
            k = k + 1;
        }
    }
    let ghost labels2 = node_labels_buf@;
    let ghost edges2 = node_id_map_buf@;
    let ghost below = match depth_remaining {
        None => child_lines(t, kseq, id, kseq.len() as int),
        Some(d) => if d > 1 {
            children_walk(t, kseq, id, (d - 1) as usize, kseq.len() as int)
        } else {
            (seq![], seq![])
        },
    };
    proof {
        if !descend {
            assert(labels2 =~= labels1 + below.0);
            assert(edges2 =~= edges0 + below.1);
        }
    }
    if depth_remaining == Some(1usize) && kids.len() > 0 {
        let best = most_played_child(tree, &kids);
        depth_first_tree_walk(tree, kids[best], id, node_labels_buf, node_id_map_buf, None);
        proof {
            let extra = dot_walk(t, kseq[best as int] as int, id, None);
            assert(node_labels_buf@ =~= labels0 + (label_line(id, node_label(t.data_of(node as int)))
                + below.0 + extra.0));
            assert(node_id_map_buf@ =~= edges0 + (below.1 + extra.1));
        }
    } else {
        proof {
            assert(node_labels_buf@ =~= labels0 + (label_line(id, node_label(t.data_of(node as int)))
                + below.0 + seq![]));
            assert(node_id_map_buf@ =~= edges0 + (below.1 + seq![]));
        }
    }
}

impl<S: GameState> TreeToDotFileFormat for Tree<MctsData<S>> {
    open spec fn drawable(&self) -> bool {
        self.wf() && states_wf(*self)
    }

    open spec fn dot_file(&self, depth_limit: Option<usize>) -> Seq<char> {
        dot_text(*self, depth_limit)
    }

    fn to_dot_file_str(&self, depth_limit: Option<usize>) -> (r: String) {
        let mut node_labels_buf = String::new();
        let mut node_id_map_buf = String::new();
        depth_first_tree_walk(
            self,
            ROOT,
            0,
            &mut node_labels_buf,
            &mut node_id_map_buf,
            depth_limit,
        );
        let mut r = String::new();
        push_str(&mut r, "digraph prof {\nratio = fill;\nnode [style=filled, shape=box, fontname=courier];\n");
        push_str(&mut r, node_labels_buf.as_str());
        push_str(&mut r, node_id_map_buf.as_str());
        push_str(&mut r, "}");
        proof {
            assert(r@ =~= dot_text(*self, depth_limit));
        }
        r
    }
}

} // verus!
