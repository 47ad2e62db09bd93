use vstd::prelude::*;
use crate::game::{GameResult, GameState};

verus! {

/// `x` raised by `by`, wrapping around past `usize::MAX` as a machine
/// counter does.
pub open spec fn counter_add(x: usize, by: usize) -> usize {
    if x + by > usize::MAX {
        (x + by - usize::MAX - 1) as usize
    } else {
        (x + by) as usize
    }
}

/// Adds `by` to a counter, wrapping around past `usize::MAX`.
pub fn bump(x: usize, by: usize) -> (r: usize)
    ensures
        r == counter_add(x, by),
{
    x.wrapping_add(by)
}

/// True if the ratio `a / b` is below `c / d`, for positive `b` and `d`.
pub open spec fn ratio_below(a: int, b: int, c: int, d: int) -> bool {
    a * d < c * b
}

/// The statistics the tree search keeps for one node.
#[derive(Clone, Copy, Debug, PartialEq, Eq)]
pub struct NodeStats {
    /// The number of simulations run through this node.
    pub plays: usize,
    /// The number of those simulations won by the searching player.
    pub wins: usize,
    /// True once the node's children have been generated.
    pub is_expanded: bool,
    /// The number of children the node got when expanded.
    pub children_count: usize,
    /// The number of children whose saturation has been reported here.
    pub children_saturated_count: usize,
    /// The number of saturated nodes below this one.
    pub descendants_saturated_count: usize,
    /// The number of nodes generated below this one.
    pub tree_size: usize,
    /// The number of finished games reached below this node.
    pub terminal_count: usize,
    /// The number of those finished games won by the searching player.
    pub terminal_wins_count: usize,
    /// The result of the game, for a node whose game is over.
    pub end_state_result: Option<GameResult>,
    /// The wins of the worst-case ratio seen below a saturated subtree.
    pub worst_wins: usize,
    /// The plays of the worst-case ratio seen below a saturated subtree.
    pub worst_plays: usize,
    /// The worst result reachable from this node, once known.
    pub worst_case_result: Option<GameResult>,
}

/// The statistics of a fresh node that starts with the given plays and wins.
pub open spec fn fresh_stats(plays: usize, wins: usize) -> NodeStats {
    NodeStats {
        plays,
        wins,
        is_expanded: false,
        children_count: 0,
        children_saturated_count: 0,
        descendants_saturated_count: 0,
        tree_size: 0,
        terminal_count: 0,
        terminal_wins_count: 0,
        end_state_result: None,
        worst_wins: 0,
        worst_plays: 0,
        worst_case_result: None,
    }
}

/// A node counts as saturated once it is expanded and every one of its
/// children has reported saturation; an expanded node without children
/// (a finished game) is saturated at once.
pub open spec fn stats_saturated(s: NodeStats) -> bool {
    s.is_expanded && s.children_saturated_count >= s.children_count
}

/// The statistics after one more simulation through the node, counted as
/// a win or not.
pub open spec fn stats_played(s: NodeStats, is_win: bool) -> NodeStats {
    NodeStats {
        plays: counter_add(s.plays, 1),
        wins: if is_win {
            counter_add(s.wins, 1)
        } else {
            s.wins
        },
        ..s
    }
}

/// The statistics after one more finished game below the node.
pub open spec fn stats_terminal(s: NodeStats, is_win: bool) -> NodeStats {
    NodeStats {
        terminal_count: counter_add(s.terminal_count, 1),
        terminal_wins_count: if is_win {
            counter_add(s.terminal_wins_count, 1)
        } else {
            s.terminal_wins_count
        },
        ..s
    }
}

/// The statistics after a worst-case ratio `wins / plays` is offered: it is
/// kept if it is the first one, or below the current worst case.
pub open spec fn stats_worst_case(s: NodeStats, wins: usize, plays: usize) -> NodeStats {
    if plays == 0 {
        s
    } else if s.worst_plays == 0 || ratio_below(wins as int, plays as int, s.worst_wins as int, s.worst_plays as int) {
        NodeStats { worst_wins: wins, worst_plays: plays, ..s }
    } else {
        s
    }
}

/// `new` records the same outcome of a node as `old`: whether the node was
/// expanded, and the result of its finished game. Only `mark_expanded` and
/// `set_end_state_result` change these.
pub open spec fn outcome_kept(old: NodeStats, new: NodeStats) -> bool {
    new.is_expanded == old.is_expanded && new.end_state_result == old.end_state_result
}

/// One call that changes the statistics of a node's data, with its
/// arguments.
pub enum StatsCall {
    MarkExpanded,
    SetChildrenCount(usize),
    IncrementSaturatedChildrenCount,
    IncrementDescendantsSaturatedCount(usize),
    IncrementTerminalCount(bool),
    IncrementTreeSize(usize),
    IncrementPlays,
    IncrementWins,
    UpdateWorstCase(usize, usize),
    SetEndStateResult(GameResult),
}

/// The statistics after `call`, as the method of that name leaves them.
pub open spec fn stats_after(s: NodeStats, call: StatsCall) -> NodeStats {
    match call {
        StatsCall::MarkExpanded => NodeStats { is_expanded: true, ..s },
        StatsCall::SetChildrenCount(count) => NodeStats { children_count: count, ..s },
        StatsCall::IncrementSaturatedChildrenCount => NodeStats {
            children_saturated_count: (s.children_saturated_count + 1) as usize,
            ..s
        },
        StatsCall::IncrementDescendantsSaturatedCount(by) => NodeStats {
            descendants_saturated_count: counter_add(s.descendants_saturated_count, by),
            ..s
        },
        StatsCall::IncrementTerminalCount(is_win) => stats_terminal(s, is_win),
        StatsCall::IncrementTreeSize(count) => NodeStats { tree_size: counter_add(s.tree_size, count), ..s },
        StatsCall::IncrementPlays => NodeStats { plays: counter_add(s.plays, 1), ..s },
        StatsCall::IncrementWins => NodeStats { wins: counter_add(s.wins, 1), ..s },
        StatsCall::UpdateWorstCase(wins, plays) => stats_worst_case(s, wins, plays),
        StatsCall::SetEndStateResult(result) => NodeStats { end_state_result: Some(result), ..s },
    }
}

/// The statistics after the calls `calls`, first to last.
pub open spec fn stats_after_calls(s: NodeStats, calls: Seq<StatsCall>) -> NodeStats
    decreases calls.len(),
{
    if calls.len() == 0 {
        s
    } else {
        stats_after(stats_after_calls(s, calls.drop_last()), calls.last())
    }
}

/// The result given to the last `set_end_state_result` among `calls`, if
/// there is one.
pub open spec fn last_end_result(calls: Seq<StatsCall>) -> Option<GameResult>
    decreases calls.len(),
{
    if calls.len() == 0 {
        None
    } else {
        match calls.last() {
            StatsCall::SetEndStateResult(result) => Some(result),
            _ => last_end_result(calls.drop_last()),
        }
    }
}

/// True if `mark_expanded` is among `calls`.
pub open spec fn marks_expanded(calls: Seq<StatsCall>) -> bool
    decreases calls.len(),
{
    calls.len() > 0 && (calls.last() is MarkExpanded || marks_expanded(calls.drop_last()))
}

/// Whatever calls follow, a node's end result is the one given to the last
/// `set_end_state_result` (it never goes back to `None`), or the earlier
/// one where there was no such call; and the node is expanded exactly when
/// it was before or `mark_expanded` was called (no call clears the flag).
pub proof fn lemma_outcome_after_calls(s: NodeStats, calls: Seq<StatsCall>)
    ensures
        stats_after_calls(s, calls).end_state_result == (match last_end_result(calls) {
            Some(result) => Some(result),
            None => s.end_state_result,
        }),
        stats_after_calls(s, calls).is_expanded == (s.is_expanded || marks_expanded(calls)),
    decreases calls.len(),
{
    if calls.len() > 0 {
        lemma_outcome_after_calls(s, calls.drop_last());
    }
}

/// A fresh node has no end result until `set_end_state_result` is called,
/// and from then on has the result given last; it is not expanded until
/// `mark_expanded` is called, and stays expanded from then on.
pub proof fn lemma_fresh_outcome_after_calls(plays: usize, wins: usize, calls: Seq<StatsCall>)
    ensures
        stats_after_calls(fresh_stats(plays, wins), calls).end_state_result == last_end_result(calls),
        stats_after_calls(fresh_stats(plays, wins), calls).is_expanded == marks_expanded(calls),
{
    lemma_outcome_after_calls(fresh_stats(plays, wins), calls);
}

/// The data the tree search keeps for every node: the game state there,
/// the action that led to it, and its statistics.
pub struct MctsData<S: GameState> {
    state: S,
    action: Option<S::Move>,
    stats: NodeStats,
}

impl<S: GameState> MctsData<S> {
    /// The game state at this node.
    pub closed spec fn view_state(&self) -> S {
        self.state
    }

    /// The action that led to this node (`None` for a root).
    pub closed spec fn view_action(&self) -> Option<S::Move> {
        self.action
    }

    /// The statistics of this node.
    pub closed spec fn stats(&self) -> NodeStats {
        self.stats
    }

    /// This data with other statistics.
    pub closed spec fn with_stats(&self, stats: NodeStats) -> Self {
        MctsData { stats, ..*self }
    }

    /// True if the node is saturated: every outcome below it has been seen.
    pub open spec fn saturated(&self) -> bool {
        stats_saturated(self.stats())
    }

    /// Data for a node with the given state, counts and action.
    pub fn new(state: S, plays: usize, wins: usize, action: Option<S::Move>) -> (r: Self)
        ensures
            r.view_state() == state,
            r.view_action() == action,
            r.stats() == fresh_stats(plays, wins),
    {
        MctsData {
            state,
            action,
            stats: NodeStats {
                plays,
                wins,
                is_expanded: false,
                children_count: 0,
                children_saturated_count: 0,
                descendants_saturated_count: 0,
                tree_size: 0,
                terminal_count: 0,
                terminal_wins_count: 0,
                end_state_result: None,
                worst_wins: 0,
                worst_plays: 0,
                worst_case_result: None,
            },
        }
    }

    // Reading.

    pub fn state(&self) -> (r: &S)
        ensures
            *r == self.view_state(),
    {
        &self.state
    }

    pub fn plays(&self) -> (r: usize)
        ensures
            r == self.stats().plays,
    {
        self.stats.plays
    }

    pub fn wins(&self) -> (r: usize)
        ensures
            r == self.stats().wins,
    {
        self.stats.wins
    }

    /// The wins and the plays, in that order.
    pub fn wins_plays(&self) -> (r: (usize, usize))
        ensures
            r == (self.stats().wins, self.stats().plays),
    {
        (self.stats.wins, self.stats.plays)
    }

    pub fn action(&self) -> (r: Option<S::Move>)
        ensures
            r == self.view_action(),
    {
        self.action
    }

    pub fn tree_size(&self) -> (r: usize)
        ensures
            r == self.stats().tree_size,
    {
        self.stats.tree_size
    }

    pub fn is_expanded(&self) -> (r: bool)
        ensures
            r == self.stats().is_expanded,
    {
        self.stats.is_expanded
    }

    pub fn children_count(&self) -> (r: usize)
        ensures
            r == self.stats().children_count,
    {
        self.stats.children_count
    }

    pub fn descendants_saturated_count(&self) -> (r: usize)
        ensures
            r == self.stats().descendants_saturated_count,
    {
        self.stats.descendants_saturated_count
    }

    /// A node is considered saturated if:
    ///     * it is a terminal node (i.e. has been expanded and still has no children), OR
    ///     * every one of its children is saturated
    /// During MCTS, we should not traverse down saturated nodes,
    /// since we have already seen every outcome.
    /// Nodes should not be marked saturated until AFTER their result
    /// has been backpropagated.
    pub fn is_saturated(&self) -> (r: bool)
        ensures
            r == self.saturated(),
    {
        self.stats.is_expanded && self.stats.children_saturated_count >= self.stats.children_count
    }

    pub fn terminal_count(&self) -> (r: usize)
        ensures
            r == self.stats().terminal_count,
    {
        self.stats.terminal_count
    }

    pub fn terminal_wins_count(&self) -> (r: usize)
        ensures
            r == self.stats().terminal_wins_count,
    {
        self.stats.terminal_wins_count
    }

    pub fn end_state_result(&self) -> (r: Option<GameResult>)
        ensures
            r == self.stats().end_state_result,
    {
        self.stats.end_state_result
    }

    /// The wins and plays of the worst case seen below this node.
    pub fn worst_case_wins_plays(&self) -> (r: (usize, usize))
        ensures
            r == (self.stats().worst_wins, self.stats().worst_plays),
    {
        (self.stats.worst_wins, self.stats.worst_plays)
    }

    // Writing.

    /// The owner of the tree search should call this
    /// upon expanding the node, to mark it as "expanded".
    /// This is an important because it distinguishes
    /// nodes that have been expanded but have no more children (terminal nodes)
    /// with nodes that do have possible children but have not yet been expanded (leaf nodes).
    pub fn mark_expanded(&mut self)
        requires
            !old(self).stats().is_expanded,
        ensures
            final(self).stats() == stats_after(old(self).stats(), StatsCall::MarkExpanded),
            *final(self) == old(self).with_stats(NodeStats { is_expanded: true, ..old(self).stats() }),
            final(self).stats().is_expanded,
            final(self).stats().end_state_result == old(self).stats().end_state_result,
    {
        self.stats.is_expanded = true;
    }

    pub fn set_children_count(&mut self, count: usize)
        ensures
            final(self).stats() == stats_after(old(self).stats(), StatsCall::SetChildrenCount(count)),
            *final(self) == old(self).with_stats(NodeStats { children_count: count, ..old(self).stats() }),
            outcome_kept(old(self).stats(), final(self).stats()),
    {
        self.stats.children_count = count;
    }

    /// Counts one more saturated child; there can never be more saturated
    /// children than children.
    pub fn increment_saturated_children_count(&mut self)
        requires
            old(self).stats().children_saturated_count < old(self).stats().children_count,
        ensures
            final(self).stats() == stats_after(old(self).stats(), StatsCall::IncrementSaturatedChildrenCount),
            *final(self) == old(self).with_stats(
                NodeStats {
                    children_saturated_count: (old(self).stats().children_saturated_count + 1) as usize,
                    ..old(self).stats()
                },
            ),
            outcome_kept(old(self).stats(), final(self).stats()),
    {
        self.stats.children_saturated_count = self.stats.children_saturated_count + 1;
    }

    pub fn increment_descendants_saturated_count(&mut self, by_count: usize)
        ensures
            final(self).stats() == stats_after(old(self).stats(), StatsCall::IncrementDescendantsSaturatedCount(by_count)),
            *final(self) == old(self).with_stats(
                NodeStats {
                    descendants_saturated_count: counter_add(
                        old(self).stats().descendants_saturated_count,
                        by_count,
                    ),
                    ..old(self).stats()
                },
            ),
            outcome_kept(old(self).stats(), final(self).stats()),
    {
        self.stats.descendants_saturated_count = bump(self.stats.descendants_saturated_count, by_count);
    }

    pub fn increment_terminal_count(&mut self, is_win: bool)
        ensures
            final(self).stats() == stats_after(old(self).stats(), StatsCall::IncrementTerminalCount(is_win)),
            *final(self) == old(self).with_stats(stats_terminal(old(self).stats(), is_win)),
            outcome_kept(old(self).stats(), final(self).stats()),
    {
        self.stats.terminal_count = bump(self.stats.terminal_count, 1);
        if is_win {
            self.stats.terminal_wins_count = bump(self.stats.terminal_wins_count, 1);
        }
    }

    pub fn increment_tree_size(&mut self, count: usize)
        ensures
            final(self).stats() == stats_after(old(self).stats(), StatsCall::IncrementTreeSize(count)),
            *final(self) == old(self).with_stats(
                NodeStats { tree_size: counter_add(old(self).stats().tree_size, count), ..old(self).stats() },
            ),
            outcome_kept(old(self).stats(), final(self).stats()),
    {
        self.stats.tree_size = bump(self.stats.tree_size, count);
    }

    pub fn increment_plays(&mut self)
        ensures
            final(self).stats() == stats_after(old(self).stats(), StatsCall::IncrementPlays),
            *final(self) == old(self).with_stats(
                NodeStats { plays: counter_add(old(self).stats().plays, 1), ..old(self).stats() },
            ),
            outcome_kept(old(self).stats(), final(self).stats()),
    {
        self.stats.plays = bump(self.stats.plays, 1);
    }

    pub fn increment_wins(&mut self)
        ensures
            final(self).stats() == stats_after(old(self).stats(), StatsCall::IncrementWins),
            *final(self) == old(self).with_stats(
                NodeStats { wins: counter_add(old(self).stats().wins, 1), ..old(self).stats() },
            ),
            outcome_kept(old(self).stats(), final(self).stats()),
    {
        self.stats.wins = bump(self.stats.wins, 1);
    }

    /// Updates the current worst case wins/plays ratio,
    /// if the given wins/plays ratio is below the current worst case
    /// (or there is none yet). A ratio with no plays is ignored.
    pub fn update_worst_case(&mut self, wins: usize, plays: usize)
        ensures
            final(self).stats() == stats_after(old(self).stats(), StatsCall::UpdateWorstCase(wins, plays)),
            *final(self) == old(self).with_stats(stats_worst_case(old(self).stats(), wins, plays)),
            outcome_kept(old(self).stats(), final(self).stats()),
    {
        if plays == 0 {
            proof {
                lemma_with_stats_same(*self);
            }
            return;
        }
        let cur_wins = self.stats.worst_wins;
        let cur_plays = self.stats.worst_plays;
        if cur_plays == 0 || ratio_is_below(wins, plays, cur_wins, cur_plays) {
            self.stats.worst_wins = wins;
            self.stats.worst_plays = plays;
        } else {
            proof {
                lemma_with_stats_same(*self);
            }
        }
    }

    pub fn set_end_state_result(&mut self, result: GameResult)
        ensures
            final(self).stats() == stats_after(old(self).stats(), StatsCall::SetEndStateResult(result)),
            *final(self) == old(self).with_stats(
                NodeStats { end_state_result: Some(result), ..old(self).stats() },
            ),
            final(self).stats().end_state_result == Some(result),
            final(self).stats().is_expanded == old(self).stats().is_expanded,
    {
        self.stats.end_state_result = Some(result);
    }

    /// An exact copy of this data.
    pub fn copy_data(&self) -> (r: Self)
        ensures
            r == *self,
    {
        MctsData { state: self.state.clone_state(), action: self.action, stats: self.stats }
    }
}

/// Compares `a / b` with `c / d` exactly, by cross-multiplying.
fn ratio_is_below(a: usize, b: usize, c: usize, d: usize) -> (r: bool)
    ensures
        r == ratio_below(a as int, b as int, c as int, d as int),
{
    proof {
        lemma_product_fits(a, d);
        lemma_product_fits(c, b);
    }
    (a as u128) * (d as u128) < (c as u128) * (b as u128)
}

/// The product of two `usize` values fits in a `u128`.
proof fn lemma_product_fits(x: usize, y: usize)
    ensures
        (x as int) * (y as int) <= u128::MAX,
{
    assert(x <= u64::MAX && y <= u64::MAX);
    assert((x as int) * (y as int) <= (u64::MAX as int) * (u64::MAX as int)) by (nonlinear_arith)
        requires
            0 <= x <= u64::MAX,
            0 <= y <= u64::MAX,
    ;
}

/// What `with_stats` keeps and what it replaces.
pub proof fn lemma_with_stats<S: GameState>(d: MctsData<S>, s: NodeStats)
    ensures
        d.with_stats(s).stats() == s,
        d.with_stats(s).view_state() == d.view_state(),
        d.with_stats(s).view_action() == d.view_action(),
        d.with_stats(s).with_stats(d.stats()) == d,
{
}

/// Putting back the same statistics changes nothing.
pub proof fn lemma_with_stats_same<S: GameState>(d: MctsData<S>)
    ensures
        d.with_stats(d.stats()) == d,
{
}

/// Replacing the statistics twice keeps only the second replacement.
pub proof fn lemma_with_stats_twice<S: GameState>(d: MctsData<S>, s: NodeStats, t: NodeStats)
    ensures
        d.with_stats(s).with_stats(t) == d.with_stats(t),
{
}

/// The summary of one node's search results, as handed to the caller of
/// the search.
pub struct MctsResult<S: GameState> {
    pub result: Option<GameResult>,
    pub action: S::Move,
    pub wins: usize,
    pub plays: usize,
    pub is_saturated: bool,
    pub terminal_count: usize,
    pub terminal_wins_count: usize,
    pub worst_wins: usize,
    pub worst_plays: usize,
    pub tree_size: usize,
    pub descendants_saturated_count: usize,
}

/// The summary of the search data `d` of a node reached by an action; the
/// game result is left unset.
pub open spec fn summary_of<S: GameState>(d: MctsData<S>) -> MctsResult<S> {
    MctsResult {
        result: None,
        action: d.view_action().unwrap(),
        wins: d.stats().wins,
        plays: d.stats().plays,
        is_saturated: d.saturated(),
        terminal_count: d.stats().terminal_count,
        terminal_wins_count: d.stats().terminal_wins_count,
        worst_wins: d.stats().worst_wins,
        worst_plays: d.stats().worst_plays,
        tree_size: d.stats().tree_size,
        descendants_saturated_count: d.stats().descendants_saturated_count,
    }
}

impl<S: GameState> MctsResult<S> {
    /// The summary of a node reached by an action. The game result is left
    /// unset.
    pub fn from_data(data: &MctsData<S>) -> (r: Self)
        requires
            data.view_action() is Some,
        ensures
            r == summary_of(*data),
    {
        let (worst_wins, worst_plays) = data.worst_case_wins_plays();
        let action = data.action().unwrap();
        MctsResult {
            plays: data.plays(),
            wins: data.wins(),
            action,
            is_saturated: data.is_saturated(),
            result: None,
            tree_size: data.tree_size(),
            terminal_count: data.terminal_count(),
            terminal_wins_count: data.terminal_wins_count(),
            descendants_saturated_count: data.descendants_saturated_count(),
            worst_wins,
            worst_plays,
        }
    }
}

/// The per-node data of a tree search, as seen by code that is generic
/// over how the data is kept.
pub trait Data<T: GameState>: Sized {
    /// The game state held.
    spec fn held_state(&self) -> T;

    /// The plays and wins held.
    spec fn held_counts(&self) -> (usize, usize);

    /// The action held.
    spec fn held_action(&self) -> Option<T::Move>;

    fn state(&self) -> &T;
    fn plays(&self) -> usize;
    fn wins(&self) -> usize;
    fn action(&self) -> Option<T::Move>;

    /// Data holding a copy of `state`, the given counts and the action.
    fn new(state: &T, plays: usize, wins: usize, action: Option<T::Move>) -> (r: Self)
        ensures
            r.held_state() == *state,
            r.held_counts() == (plays, wins),
            r.held_action() == action,
    ;

    fn end_state_result(&self) -> Option<GameResult>;
    fn worst_case_result(&self) -> Option<GameResult>;
    fn is_saturated(&self) -> bool;
}

impl<T: GameState> Data<T> for MctsData<T> {
    open spec fn held_state(&self) -> T {
        self.view_state()
    }

    open spec fn held_counts(&self) -> (usize, usize) {
        (self.stats().plays, self.stats().wins)
    }

    open spec fn held_action(&self) -> Option<T::Move> {
        self.view_action()
    }

    fn state(&self) -> (r: &T)
        ensures
            *r == self.view_state(),
    {
        &self.state
    }

    fn plays(&self) -> (r: usize)
        ensures
            r == self.stats().plays,
    {
        self.stats.plays
    }

    fn wins(&self) -> (r: usize)
        ensures
            r == self.stats().wins,
    {
        self.stats.wins
    }

    fn action(&self) -> (r: Option<T::Move>)
        ensures
            r == self.view_action(),
    {
        self.action
    }

    /// Data for a node with a copy of the given state.
    fn new(state: &T, plays: usize, wins: usize, action: Option<T::Move>) -> (r: Self) {
        MctsData::new(state.clone_state(), plays, wins, action)
    }

    fn end_state_result(&self) -> (r: Option<GameResult>)
        ensures
            r == self.stats().end_state_result,
    {
        self.stats.end_state_result
    }

    fn worst_case_result(&self) -> (r: Option<GameResult>)
        ensures
            r == self.stats().worst_case_result,
    {
        self.stats.worst_case_result
    }

    fn is_saturated(&self) -> (r: bool)
        ensures
            r == self.saturated(),
    {
        self.stats.is_expanded && self.stats.children_saturated_count >= self.stats.children_count
    }
}

} // verus!
