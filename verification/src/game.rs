use vstd::prelude::*;

verus! {

/// The two possible player colors for all games.
#[derive(Copy, Clone, Debug, PartialEq, Eq, Structural)]
pub enum PlayerColor {
    Black,
    White,
}

/// The opposing color, as a mathematical function.
pub open spec fn spec_opponent(c: PlayerColor) -> PlayerColor {
    match c {
        PlayerColor::Black => PlayerColor::White,
        PlayerColor::White => PlayerColor::Black,
    }
}

impl PlayerColor {
    /// Returns the opposing player color.
    pub fn opponent(self) -> (r: PlayerColor)
        ensures
            r == spec_opponent(self),
    {
        match self {
            PlayerColor::Black => PlayerColor::White,
            PlayerColor::White => PlayerColor::Black,
        }
    }
}

/// The possible results of a game that is played to conclusion.
#[derive(Copy, Clone, Debug, PartialEq, Eq, Structural)]
pub enum GameResult {
    Tie,
    WhiteWins,
    BlackWins,
}

/// True if `result` is a win for `player`.
pub open spec fn spec_is_win_for(result: GameResult, player: PlayerColor) -> bool {
    match result {
        GameResult::BlackWins => player == PlayerColor::Black,
        GameResult::WhiteWins => player == PlayerColor::White,
        GameResult::Tie => false,
    }
}

impl GameResult {
    /// True if the game result is a win for the given player.
    pub fn is_win_for_player(self, player_color: PlayerColor) -> (r: bool)
        ensures
            r == spec_is_win_for(self, player_color),
    {
        match self {
            GameResult::BlackWins => player_color == PlayerColor::Black,
            GameResult::WhiteWins => player_color == PlayerColor::White,
            GameResult::Tie => false,
        }
    }
}


/// The result of a finished game decided by comparing the two players'
/// scores: the higher score wins, equal scores tie. `None` while the game
/// is not over.
pub open spec fn spec_result_from_scores(over: bool, white: nat, black: nat) -> Option<GameResult> {
    if !over {
        None
    } else if white > black {
        Some(GameResult::WhiteWins)
    } else if black > white {
        Some(GameResult::BlackWins)
    } else {
        Some(GameResult::Tie)
    }
}

/// Decides a game result from the two players' scores.
pub fn result_from_scores(over: bool, white_score: usize, black_score: usize) -> (r: Option<GameResult>)
    ensures
        r == spec_result_from_scores(over, white_score as nat, black_score as nat),
{
    if !over {
        return None;
    }
    if white_score > black_score {
        Some(GameResult::WhiteWins)
    } else if black_score > white_score {
        Some(GameResult::BlackWins)
    } else {
        Some(GameResult::Tie)
    }
}

/// Describes a move a player can make in a game.
/// I.e., in Reversi, a move could be at position (3,7).
pub trait GameMove: Copy + Sized {
    /// True if this move is a forced turn pass.
    spec fn spec_is_forced_pass(&self) -> bool;

    /// Returns true if this move represents a forced turn pass.
    fn is_forced_pass(self) -> (r: bool)
        ensures
            r == self.spec_is_forced_pass(),
    ;

    /// True if `self` and `other` are the same move.
    fn same_move(self, other: Self) -> (r: bool)
        ensures
            r == (self == other),
    ;

    /// The text that shows this move to a reader.
    spec fn spec_text(&self) -> Seq<char>;

    /// The text that shows this move to a reader.
    fn text(self) -> (r: String)
        ensures
            r@ == self.spec_text(),
    ;
}

/// A complete state of some game: the board position, the current
/// player's turn, and other relevant info.
///
/// Each game gives the mathematical meaning of its operations through the
/// spec functions below, and proves that every game ends: a legal move
/// always lowers `spec_remaining`.
pub trait GameState: Sized {
    /// The type used to describe the actions that players select.
    type Move: GameMove;

    /// The internal consistency of a state.
    spec fn wf(&self) -> bool;

    /// The player whose turn it is.
    spec fn spec_turn(&self) -> PlayerColor;

    /// The moves available to `player` in this state, in the order
    /// `legal_moves` returns them.
    spec fn spec_legal_moves(&self, player: PlayerColor) -> Seq<Self::Move>;

    /// True if `apply_move` accepts `action` in this state.
    spec fn spec_can_apply(&self, action: Self::Move) -> bool;

    /// The state that results from applying `action`.
    spec fn spec_apply(&self, action: Self::Move) -> Self;

    /// True if the game is over.
    spec fn spec_game_over(&self) -> bool;

    /// The result of the game, `None` while it is not over.
    spec fn spec_game_result(&self) -> Option<GameResult>;

    /// True if the game keeps a score.
    spec fn spec_has_score(&self) -> bool;

    /// The score of `player`.
    spec fn spec_score(&self, player: PlayerColor) -> nat;

    /// True if the current player may skip the turn.
    spec fn spec_can_skip(&self) -> bool;

    /// The state after the current player skips the turn.
    spec fn spec_skip(&self) -> Self;

    /// The fresh, ready-to-play state of the game.
    spec fn spec_initial() -> Self;

    /// True if whether the game is over, and its result, can be read from
    /// this state even where it is not fully consistent.
    spec fn spec_result_readable(&self) -> bool;

    /// The human-friendly text of this state.
    spec fn spec_human_friendly(&self) -> Seq<char>;

    /// An upper bound on the number of moves left before the game ends.
    spec fn spec_remaining(&self) -> nat;

    /// An exact copy of this state.
    fn clone_state(&self) -> (r: Self)
        ensures
            r == *self,
    ;

    /// Returns a human-friendly string for representing the state.
    fn human_friendly(&self) -> (r: String)
        requires
            self.wf(),
        ensures
            r@ == self.spec_human_friendly(),
    ;

    /// Sets the current game state to its initial, ready-to-play position.
    fn initialize_board(&mut self)
        ensures
            *final(self) == Self::spec_initial(),
    ;

    /// Returns a fresh, ready-to-play game state for this game.
    fn initial_state() -> (r: Self)
        ensures
            r == Self::spec_initial(),
    ;

    /// Returns the possible moves the given player can make for the current state.
    fn legal_moves(&self, player: PlayerColor) -> (r: Vec<Self::Move>)
        requires
            self.wf(),
        ensures
            r@ == self.spec_legal_moves(player),
    ;

    /// Apply the given move (or 'action') to this state, mutating this state
    /// and advancing it to the resulting state.
    fn apply_move(&mut self, action: Self::Move)
        requires
            old(self).wf(),
            old(self).spec_can_apply(action),
        ensures
            *final(self) == old(self).spec_apply(action),
    ;

    /// Returns the player color whose turn it currently is.
    fn current_player_turn(&self) -> (r: PlayerColor)
        ensures
            r == self.spec_turn(),
    ;

    /// Returns the score of the given player in this state.
    fn player_score(&self, player: PlayerColor) -> (r: usize)
        requires
            self.wf(),
            self.spec_has_score(),
        ensures
            r == self.spec_score(player),
    ;

    /// Given a move, returns the resulting state of applying it to this
    /// state, leaving this state unchanged.
    fn next_state(&self, action: Self::Move) -> (r: Self)
        requires
            self.wf(),
            self.spec_can_apply(action),
        ensures
            r == self.spec_apply(action),
    {
        let mut cloned = self.clone_state();
        cloned.apply_move(action);
        cloned
    }

    /// Skip the current player's turn without taking any action.
    fn skip_turn(&mut self)
        requires
            old(self).wf(),
            old(self).spec_can_skip(),
        ensures
            *final(self) == old(self).spec_skip(),
    ;

    /// True if the game is over; i.e., the win condition has been met, or
    /// neither player can take any further action.
    fn is_game_over(&self) -> (r: bool)
        requires
            self.wf() || self.spec_result_readable(),
        ensures
            r == self.spec_game_over(),
    ;

    /// The GameResult, or None if the game is not yet over.
    fn game_result(&self) -> (r: Option<GameResult>)
        requires
            self.wf() || self.spec_result_readable(),
        ensures
            r == self.spec_game_result(),
    ;

    /// The initial state is consistent.
    proof fn lemma_initial_wf()
        ensures
            Self::spec_initial().wf(),
    ;

    /// Applying an accepted move keeps the state consistent.
    proof fn lemma_apply_wf(&self, action: Self::Move)
        requires
            self.wf(),
            self.spec_can_apply(action),
        ensures
            self.spec_apply(action).wf(),
    ;

    /// A game that is not over offers the current player at least one
    /// move; every such move is accepted and brings the end closer.
    proof fn lemma_playable(&self)
        requires
            self.wf(),
            !self.spec_game_over(),
        ensures
            self.spec_legal_moves(self.spec_turn()).len() > 0,
            forall|i: int|
                0 <= i < self.spec_legal_moves(self.spec_turn()).len() ==> {
                    &&& #[trigger] self.spec_can_apply(self.spec_legal_moves(self.spec_turn())[i])
                    &&& self.spec_apply(self.spec_legal_moves(self.spec_turn())[i]).spec_remaining()
                        < self.spec_remaining()
                },
    ;

    /// A game has a result exactly when it is over.
    proof fn lemma_result_iff_over(&self)
        requires
            self.wf(),
        ensures
            self.spec_game_over() <==> self.spec_game_result() is Some,
    ;
}

} // verus!
