use vstd::prelude::*;
use crate::game::{spec_is_win_for, GameState, PlayerColor};
use crate::mcts_data::{summary_of, MctsData, MctsResult};
use crate::search::SearchTree;
use vstd::arithmetic::div_mod::{lemma_div_basics_5, lemma_div_pos_is_pos};

verus! {

/// True if the entry at index `a` with key `ka` comes before the entry at
/// index `b` with key `kb`: keys in increasing order (`false` before
/// `true`, then the number), equal keys in the order of their indices.
pub open spec fn key_before(ka: (bool, usize), a: int, kb: (bool, usize), b: int) -> bool {
    ||| (!ka.0 && kb.0)
    ||| (ka.0 == kb.0 && ka.1 < kb.1)
    ||| (ka.0 == kb.0 && ka.1 == kb.1 && a < b)
}

/// True if key `ka` is strictly smaller than key `kb`.
pub open spec fn key_less(ka: (bool, usize), kb: (bool, usize)) -> bool {
    (!ka.0 && kb.0) || (ka.0 == kb.0 && ka.1 < kb.1)
}

/// `order` lists every index of `keys` once, sorted by key, equal keys in
/// the order of their indices: the order a stable sort by key gives.
pub open spec fn is_stable_order(keys: Seq<(bool, usize)>, order: Seq<usize>) -> bool {
    &&& order.len() == keys.len()
    &&& forall|i: int| 0 <= i < order.len() ==> #[trigger] order[i] < keys.len()
    &&& order.no_duplicates()
    &&& forall|i: int, j: int|
        0 <= i < j < order.len() ==> key_before(
            keys[order[i] as int],
            order[i] as int,
            keys[order[j] as int],
            order[j] as int,
        )
}

fn key_is_less(ka: (bool, usize), kb: (bool, usize)) -> (r: bool)
    ensures
        r == key_less(ka, kb),
{
    (!ka.0 && kb.0) || (ka.0 == kb.0 && ka.1 < kb.1)
}

/// The indices of `keys` in the order of a stable sort by key.
pub fn stable_order(keys: &Vec<(bool, usize)>) -> (r: Vec<usize>)
    ensures
        is_stable_order(keys@, r@),
{
    let n = keys.len();
    let mut order: Vec<usize> = Vec::new();
    for k in 0usize..n
        invariant
            n == keys@.len(),
            order@.len() == k,
            forall|i: int| 0 <= i < order@.len() ==> #[trigger] order@[i] < k,
            order@.no_duplicates(),
            forall|i: int, j: int|
                0 <= i < j < order@.len() ==> key_before(
                    keys@[order@[i] as int],
                    order@[i] as int,
                    keys@[order@[j] as int],
                    order@[j] as int,
                ),
    {
        let key = keys[k];
        // Find the first entry whose key is larger than the new one.
        let mut pos: usize = 0;
        while pos < order.len()
            invariant_except_break
                pos <= order@.len(),
                forall|i: int| 0 <= i < pos ==> !key_less(key, #[trigger] keys@[order@[i] as int]),
            invariant
                n == keys@.len(),
                key == keys@[k as int],
                k < n,
                order@.len() == k,
                forall|i: int| 0 <= i < order@.len() ==> #[trigger] order@[i] < k,
            ensures
                pos <= order@.len(),
                forall|i: int| 0 <= i < pos ==> !key_less(key, #[trigger] keys@[order@[i] as int]),
                pos < order@.len() ==> key_less(key, keys@[order@[pos as int] as int]),
            decreases order@.len() - pos,
        {
            if key_is_less(key, keys[order[pos]]) {
                break;
            }
            pos = pos + 1;
        }
        let ghost before = order@;
        order.insert(pos, k);
        proof {
            assert(order@ == before.insert(pos as int, k));
            assert forall|i: int| 0 <= i < order@.len() implies #[trigger] order@[i] < k + 1 by {
                if i < pos {
                    assert(order@[i] == before[i]);
                } else if i > pos {
                    assert(order@[i] == before[i - 1]);
                }
            }
            assert forall|a: int, b: int| 0 <= a < b < order@.len() implies order@[a] != order@[b] by {
                if a != pos && b != pos {
                    let a0 = if a < pos { a } else { a - 1 };
                    let b0 = if b < pos { b } else { b - 1 };
                    assert(order@[a] == before[a0]);
                    assert(order@[b] == before[b0]);
                } else if a == pos {
                    let b0 = b - 1;
                    assert(order@[b] == before[b0]);
                } else {
                    assert(order@[a] == before[a]);
                }
            }
            assert forall|a: int, b: int| 0 <= a < b < order@.len() implies key_before(
                keys@[order@[a] as int],
                order@[a] as int,
                keys@[order@[b] as int],
                order@[b] as int,
            ) by {
                if a != pos && b != pos {
                    let a0 = if a < pos { a } else { a - 1 };
                    let b0 = if b < pos { b } else { b - 1 };
                    assert(order@[a] == before[a0]);
                    assert(order@[b] == before[b0]);
                } else if a == pos {
                    let b0 = b - 1;
                    assert(order@[b] == before[b0]);
                    assert(key_less(key, keys@[before[pos as int] as int]));
                    if b0 > pos {
                        assert(key_before(
                            keys@[before[pos as int] as int],
                            before[pos as int] as int,
                            keys@[before[b0] as int],
                            before[b0] as int,
                        ));
                    }
                } else {
                    assert(order@[a] == before[a]);
                    assert(!key_less(key, keys@[before[a] as int]));
                    assert(before[a] < k);
                }
            }
        }
    }
    order
}

/// True if the search data `d` records a finished game won by `player`.
pub open spec fn wins_outright<S: GameState>(d: MctsData<S>, player: PlayerColor) -> bool {
    d.stats().end_state_result matches Some(res) && spec_is_win_for(res, player)
}

/// The ranking key of a child: whether it is a won finished game, then its
/// wins per ten thousand plays.
pub open spec fn rank_key<S: GameState>(d: MctsData<S>, player: PlayerColor) -> (bool, usize) {
    (wins_outright(d, player), ((d.stats().wins * 10000) / (d.stats().plays as int)) as usize)
}

/// The ranking keys of the nodes `cs`.
pub open spec fn rank_keys<S: GameState>(t: SearchTree<S>, cs: Seq<usize>, player: PlayerColor) -> Seq<(bool, usize)> {
    Seq::new(cs.len(), |k: int| rank_key(t.data_of(cs[k] as int), player))
}

/// True if a child can be ranked: it has been played, its wins per ten
/// thousand fit in a `usize`, and it was reached by an action.
pub open spec fn rankable<S: GameState>(d: MctsData<S>) -> bool {
    &&& d.stats().plays > 0
    &&& d.stats().wins * 10000 <= usize::MAX
    &&& d.view_action() is Some
}

/// True if `order`, a ranking of the children `cs` of a node, runs from
/// worst to best for `player`: a child that wins the game outright never
/// comes before one that does not, and among children alike in that, the
/// wins per ten thousand plays never fall along the ranking.
pub open spec fn ranked_by_ratio<S: GameState>(
    t: SearchTree<S>,
    cs: Seq<usize>,
    order: Seq<usize>,
    player: PlayerColor,
) -> bool {
    forall|i: int, j: int|
        #![trigger order[i], order[j]]
        0 <= i < j < order.len() ==> {
            let a = t.data_of(cs[order[i] as int] as int);
            let b = t.data_of(cs[order[j] as int] as int);
            &&& wins_outright(a, player) ==> wins_outright(b, player)
            &&& wins_outright(a, player) == wins_outright(b, player) ==> (a.stats().wins * 10000) / (
            a.stats().plays as int) <= (b.stats().wins * 10000) / (b.stats().plays as int)
        }
}

/// A ranking of played children by their keys runs from worst to best: a
/// child that wins outright never precedes one that does not, and among
/// the others (and among the outright wins) wins per ten thousand plays
/// never fall along the ranking.
pub proof fn lemma_ranked_by_ratio<S: GameState>(
    tree: SearchTree<S>,
    cs: Seq<usize>,
    player: PlayerColor,
    order: Seq<usize>,
)
    requires
        forall|k: int| 0 <= k < cs.len() ==> rankable(#[trigger] tree.data_of(cs[k] as int)),
        is_stable_order(rank_keys(tree, cs, player), order),
    ensures
        ranked_by_ratio(tree, cs, order, player),
{
    let keys = rank_keys(tree, cs, player);
    assert forall|i: int, j: int| #![trigger order[i], order[j]] 0 <= i < j < order.len() implies {
        let a = tree.data_of(cs[order[i] as int] as int);
        let b = tree.data_of(cs[order[j] as int] as int);
        &&& wins_outright(a, player) ==> wins_outright(b, player)
        &&& wins_outright(a, player) == wins_outright(b, player) ==> (a.stats().wins * 10000) / (
        a.stats().plays as int) <= (b.stats().wins * 10000) / (b.stats().plays as int)
    } by {
        let oi = order[i] as int;
        let oj = order[j] as int;
        let a = tree.data_of(cs[oi] as int);
        let b = tree.data_of(cs[oj] as int);
        assert(oi < cs.len() && oj < cs.len());
        assert(rankable(a) && rankable(b));
        let xa = a.stats().wins * 10000;
        let xb = b.stats().wins * 10000;
        lemma_div_basics_5(xa, a.stats().plays as int);
        lemma_div_pos_is_pos(xa, a.stats().plays as int);
        lemma_div_basics_5(xb, b.stats().plays as int);
        lemma_div_pos_is_pos(xb, b.stats().plays as int);
        assert(keys[oi] == rank_key(a, player));
        assert(keys[oj] == rank_key(b, player));
        assert(key_before(keys[oi], oi, keys[oj], oj));
    }
}

/// The summaries of the children of `node`, ranked from worst to best for
/// `player`: by their ratio of wins to plays, and, regardless of any other
/// metric, the actions that win the game outright last. Children that
/// rank equal keep their order.
pub fn rank_results<S: GameState>(tree: &SearchTree<S>, node: usize, player_color: PlayerColor) -> (r: Vec<MctsResult<S>>)
    requires
        tree.wf(),
        tree.has(node as int),
        forall|k: int|
            0 <= k < tree.children_of(node as int).len() ==> rankable(
                #[trigger] tree.data_of(tree.children_of(node as int)[k] as int),
            ),
    ensures
        exists|order: Seq<usize>|
            #[trigger] is_stable_order(rank_keys(*tree, tree.children_of(node as int), player_color), order) && r@
                == order.map_values(|c: usize| summary_of(tree.data_of(tree.children_of(node as int)[c as int] as int)))
                && ranked_by_ratio(*tree, tree.children_of(node as int), order, player_color),
{
    let children = tree.children(node);
    let ghost cs = children@;
    let mut keys: Vec<(bool, usize)> = Vec::new();
    for k in 0usize..children.len()
        invariant
            tree.wf(),
            tree.has(node as int),
            cs == children@,
            cs == tree.children_of(node as int),
            forall|k: int| 0 <= k < cs.len() ==> rankable(#[trigger] tree.data_of(cs[k] as int)),
            keys@ == rank_keys(*tree, cs, player_color).take(k as int),
    {
        let c = children[k];
        assert(c < tree.len());
        let data = tree.data(c);
        let (wins, plays) = data.wins_plays();
        let won = match data.end_state_result() {
            Some(result) => result.is_win_for_player(player_color),
            None => false,
        };
        keys.push((won, (wins * 10000) / plays));
        proof {
            assert(rank_keys(*tree, cs, player_color).take(k + 1) =~= rank_keys(*tree, cs, player_color).take(
                k as int,
            ).push(rank_key(tree.data_of(cs[k as int] as int), player_color)));
        }
    }
    proof {
        assert(keys@ =~= rank_keys(*tree, cs, player_color));
    }
    let order = stable_order(&keys);
    let mut results: Vec<MctsResult<S>> = Vec::new();
    for i in 0usize..order.len()
        invariant
            tree.wf(),
            tree.has(node as int),
            cs == children@,
            cs == tree.children_of(node as int),
            forall|k: int| 0 <= k < cs.len() ==> rankable(#[trigger] tree.data_of(cs[k] as int)),
            is_stable_order(keys@, order@),
            keys@.len() == cs.len(),
            results@ == order@.take(i as int).map_values(|c: usize| summary_of(tree.data_of(cs[c as int] as int))),
    {
        let c = children[order[i]];
        assert(c < tree.len());
        results.push(MctsResult::from_data(tree.data(c)));
        proof {
            assert(order@.take(i + 1) =~= order@.take(i as int).push(order@[i as int]));
            assert(order@.take(i + 1).map_values(|c: usize| summary_of(tree.data_of(cs[c as int] as int)))
                =~= order@.take(i as int).map_values(|c: usize| summary_of(tree.data_of(cs[c as int] as int))).push(
                summary_of(tree.data_of(cs[order@[i as int] as int] as int)),
            ));
        }
    }
    proof {
        assert(order@.take(order@.len() as int) =~= order@);
        lemma_ranked_by_ratio(*tree, cs, player_color, order@);
    }
    results
}

} // verus!
