use vstd::prelude::*;
use crate::game::{GameResult, GameState};
use crate::mcts_data::{bump, counter_add, MctsResult};

verus! {

/// The counters of an `AMctsData` node.
#[derive(Clone, Copy, Debug, PartialEq, Eq)]
pub struct ACounts {
    pub plays: usize,
    pub wins: usize,
    pub is_expanded: bool,
    pub children_count: usize,
    pub children_saturated_count: usize,
    pub end_state_result: Option<GameResult>,
}

/// MCTS-related data that every node of the parallel search will have.
pub struct AMctsData<T: GameState> {
    state: T,
    action: Option<T::Move>,
    counts: ACounts,
}

impl<T: GameState> AMctsData<T> {
    /// The game state at this node.
    pub closed spec fn view_state(&self) -> T {
        self.state
    }

    /// The action that led to this node.
    pub closed spec fn view_action(&self) -> Option<T::Move> {
        self.action
    }

    /// The counters of this node.
    pub closed spec fn counts(&self) -> ACounts {
        self.counts
    }

    /// This data with other counters.
    pub closed spec fn with_counts(&self, counts: ACounts) -> Self {
        AMctsData { counts, ..*self }
    }

    /// True if the node is saturated: expanded, and every child has
    /// reported saturation.
    pub open spec fn saturated(&self) -> bool {
        self.counts().is_expanded && self.counts().children_saturated_count >= self.counts().children_count
    }

    pub fn increment_plays(&mut self)
        ensures
            *final(self) == old(self).with_counts(
                ACounts { plays: counter_add(old(self).counts().plays, 1), ..old(self).counts() },
            ),
    {
        self.counts.plays = bump(self.counts.plays, 1);
    }

    pub fn increment_wins(&mut self)
        ensures
            *final(self) == old(self).with_counts(
                ACounts { wins: counter_add(old(self).counts().wins, 1), ..old(self).counts() },
            ),
    {
        self.counts.wins = bump(self.counts.wins, 1);
    }

    /// The owner of the tree search should call this
    /// upon expanding the node, to mark it as "expanded".
    /// This is an important because it distinguishes
    /// nodes that have been expanded but have no more children (terminal nodes)
    /// with nodes that do have possible children but have not yet been expanded (leaf nodes).
    /// A node is expanded only once.
    pub fn mark_expanded(&mut self)
        requires
            !old(self).counts().is_expanded,
        ensures
            *final(self) == old(self).with_counts(ACounts { is_expanded: true, ..old(self).counts() }),
    {
        self.counts.is_expanded = true;
    }

    pub fn is_expanded(&self) -> (r: bool)
        ensures
            r == self.counts().is_expanded,
    {
        self.counts.is_expanded
    }

    pub fn set_children_count(&mut self, count: usize)
        ensures
            *final(self) == old(self).with_counts(ACounts { children_count: count, ..old(self).counts() }),
    {
        self.counts.children_count = count;
    }

    pub fn children_count(&self) -> (r: usize)
        ensures
            r == self.counts().children_count,
    {
        self.counts.children_count
    }

    /// How many children have reported their saturation.
    pub fn children_saturated_count(&self) -> (r: usize)
        ensures
            r == self.counts().children_saturated_count,
    {
        self.counts.children_saturated_count
    }

    /// Counts one more saturated child; there can never be more saturated
    /// children than children.
    pub fn increment_saturated_children_count(&mut self)
        requires
            old(self).counts().children_saturated_count < old(self).counts().children_count,
        ensures
            *final(self) == old(self).with_counts(
                ACounts {
                    children_saturated_count: counter_add(old(self).counts().children_saturated_count, 1),
                    ..old(self).counts()
                },
            ),
    {
        self.counts.children_saturated_count = bump(self.counts.children_saturated_count, 1);
    }

    pub fn state(&self) -> (r: &T)
        ensures
            *r == self.view_state(),
    {
        &self.state
    }

    pub fn plays(&self) -> (r: usize)
        ensures
            r == self.counts().plays,
    {
        self.counts.plays
    }

    pub fn wins(&self) -> (r: usize)
        ensures
            r == self.counts().wins,
    {
        self.counts.wins
    }

    pub fn action(&self) -> (r: Option<T::Move>)
        ensures
            r == self.view_action(),
    {
        self.action
    }

    /// Data for a node with the given state, counts and action; the node is
    /// not expanded and has no result yet.
    pub fn new(state: T, plays: usize, wins: usize, action: Option<T::Move>) -> (r: Self)
        ensures
            r.view_state() == state,
            r.view_action() == action,
            r.counts() == (ACounts {
                plays,
                wins,
                is_expanded: false,
                children_count: 0,
                children_saturated_count: 0,
                end_state_result: None,
            }),
    {
        AMctsData {
            state,
            action,
            counts: ACounts {
                plays,
                wins,
                is_expanded: false,
                children_count: 0,
                children_saturated_count: 0,
                end_state_result: None,
            },
        }
    }

    /// A node is considered saturated if:
    ///     * it is a terminal node (i.e. has been expanded and still has no children), OR
    ///     * every one of its children is saturated
    /// During MCTS, we should not traverse down saturated nodes,
    /// since we have already seen every outcome.
    /// Nodes should not be marked saturated until AFTER their result
    /// has been backpropagated.
    pub fn is_saturated(&self) -> (r: bool)
        ensures
            r == self.saturated(),
    {
        self.counts.is_expanded && self.counts.children_saturated_count >= self.counts.children_count
    }

    pub fn end_state_result(&self) -> (r: Option<GameResult>)
        ensures
            r == self.counts().end_state_result,
    {
        self.counts.end_state_result
    }

    /// An exact copy of this data.
    pub fn copy_data(&self) -> (r: Self)
        ensures
            r == *self,
    {
        AMctsData { state: self.state.clone_state(), action: self.action, counts: self.counts }
    }

    pub fn set_end_state_result(&mut self, result: GameResult)
        ensures
            *final(self) == old(self).with_counts(
                ACounts { end_state_result: Some(result), ..old(self).counts() },
            ),
    {
        self.counts.end_state_result = Some(result);
    }
}

/// The summary of the data `d` of a node of the parallel search reached by
/// an action. Such a node keeps no terminal, worst-case or size counts, so
/// those are zero; the game result is left unset.
pub open spec fn asummary_of<S: GameState>(d: AMctsData<S>) -> MctsResult<S> {
    MctsResult {
        result: None,
        action: d.view_action().unwrap(),
        wins: d.counts().wins,
        plays: d.counts().plays,
        is_saturated: d.saturated(),
        terminal_count: 0,
        terminal_wins_count: 0,
        worst_wins: 0,
        worst_plays: 0,
        tree_size: 0,
        descendants_saturated_count: 0,
    }
}

/// What `with_counts` keeps and what it replaces.
pub proof fn lemma_with_counts<S: GameState>(d: AMctsData<S>, c: ACounts)
    ensures
        d.with_counts(c).counts() == c,
        d.with_counts(c).view_state() == d.view_state(),
        d.with_counts(c).view_action() == d.view_action(),
{
}

/// Replacing the counters twice keeps only the second replacement.
pub proof fn lemma_with_counts_twice<S: GameState>(d: AMctsData<S>, c: ACounts, e: ACounts)
    ensures
        d.with_counts(c).with_counts(e) == d.with_counts(e),
{
}

impl<S: GameState> MctsResult<S> {
    /// The summary of a node of the parallel search reached by an action.
    pub fn from_adata(data: &AMctsData<S>) -> (r: Self)
        requires
            data.view_action() is Some,
        ensures
            r == asummary_of(*data),
    {
        MctsResult {
            plays: data.plays(),
            wins: data.wins(),
            action: data.action().unwrap(),
            is_saturated: data.is_saturated(),
            result: None,
            terminal_count: 0,
            terminal_wins_count: 0,
            worst_wins: 0,
            worst_plays: 0,
            tree_size: 0,
            descendants_saturated_count: 0,
        }
    }
}

} // verus!
