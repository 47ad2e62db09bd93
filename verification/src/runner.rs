use vstd::prelude::*;
use crate::game::{GameMove, GameResult, GameState, PlayerColor};
use crate::random::random_choice;
use crate::search::{follow, is_playout, moves_at, plays_out};
use rand::rngs::SmallRng;
use rand::FromEntropy;

verus! {

/// A player of a game: given a state and the legal moves, it decides a
/// move.
pub trait GameAgent<TState: GameState> {
    /// True if this agent always answers with one of the legal moves it is
    /// offered; an agent says so only where it is proved.
    open spec fn picks_legal(&self) -> bool {
        false
    }

    /// True if the agent may answer `m` when offered the moves `moves` in
    /// the state `s`. An agent that says nothing of its choice may answer
    /// anything.
    open spec fn chose(&self, s: TState, moves: Seq<TState::Move>, m: TState::Move) -> bool {
        true
    }

    /// Given the state and the (non-empty) legal moves, the agent responds
    /// with its selected move for the player to take.
    fn pick_move(&self, state: &TState, legal_moves: &[TState::Move]) -> (r: TState::Move)
        requires
            legal_moves@.len() > 0,
        ensures
            self.chose(*state, legal_moves@, r),
            self.picks_legal() ==> legal_moves@.contains(r),
    ;

    /// Invoked by the game runner to let both agents observe the actions
    /// taken over the course of the game. By default it does nothing.
    fn observe_action(&self, player: PlayerColor, action: TState::Move, result: &TState) {
    }

    /// The color this agent plays, where the agent states it; an agent says
    /// so only where it is proved.
    open spec fn spec_color(&self) -> Option<PlayerColor> {
        None
    }

    /// The color this agent plays.
    fn player_color(&self) -> (r: PlayerColor)
        ensures
            self.spec_color() matches Some(c) ==> r == c,
    ;
}

/// A generator seeded from the operating system's entropy.
///
/// Trusted: calls `FromEntropy::from_entropy` of `rand` for `SmallRng`.
/// Nothing is stated of the generator; the source panics only if the
/// operating system cannot supply entropy.
#[verifier::external_body]
fn fresh_rng() -> SmallRng {
    SmallRng::from_entropy()
}

/// An agent that picks one of the legal moves at random.
pub struct RandomAgent {
    pub player_color: PlayerColor,
}

impl RandomAgent {
    pub fn new(player_color: PlayerColor) -> (r: Self)
        ensures
            r.player_color == player_color,
    {
        RandomAgent { player_color }
    }

    /// The color this agent plays.
    pub open spec fn color_played(&self) -> PlayerColor {
        self.player_color
    }
}

impl<TState: GameState> GameAgent<TState> for RandomAgent {
    /// A random agent only ever picks among the legal moves.
    open spec fn picks_legal(&self) -> bool {
        true
    }

    /// A random agent may answer any of the moves it is offered.
    open spec fn chose(&self, s: TState, moves: Seq<TState::Move>, m: TState::Move) -> bool {
        moves.contains(m)
    }

    /// One of the legal moves, picked at random.
    fn pick_move(&self, state: &TState, legal_moves: &[TState::Move]) -> (r: TState::Move)
        ensures
            legal_moves@.contains(r),
    {
        let mut rng = fresh_rng();
        random_choice(legal_moves, &mut rng)
    }

    open spec fn spec_color(&self) -> Option<PlayerColor> {
        Some(self.color_played())
    }

    fn player_color(&self) -> (r: PlayerColor) {
        self.player_color
    }
}

/// True if `m` is one of `moves`, found by comparing moves.
fn is_legal<M: GameMove>(moves: &Vec<M>, m: M) -> (r: bool)
    ensures
        r == moves@.contains(m),
{
    for k in 0usize..moves.len()
        invariant
            forall|i: int| 0 <= i < k ==> moves@[i] != m,
    {
        if moves[k].same_move(m) {
            return true;
        }
    }
    false
}

/// The agent whose turn it is in `s`, `black` or `white`, may answer `m`
/// when offered the legal moves of `s`.
pub open spec fn turn_chose<T: GameState, A: GameAgent<T>, B: GameAgent<T>>(black: A, white: B, s: T, m: T::Move) -> bool {
    match s.spec_turn() {
        PlayerColor::Black => black.chose(s, moves_at(s), m),
        PlayerColor::White => white.chose(s, moves_at(s), m),
    }
}

/// Every move of the playout `path` from `start` is one that the agent
/// whose turn it was may answer.
pub open spec fn turns_chosen<T: GameState, A: GameAgent<T>, B: GameAgent<T>>(
    black: A,
    white: B,
    start: T,
    path: Seq<int>,
) -> bool {
    forall|k: int|
        0 <= k < path.len() ==> #[trigger] turn_chose(
            black,
            white,
            follow(start, path.take(k)),
            moves_at(follow(start, path.take(k)))[path[k]],
        )
}

/// A playout one move longer keeps the earlier moves chosen.
proof fn lemma_turns_chosen_push<T: GameState, A: GameAgent<T>, B: GameAgent<T>>(
    black: A,
    white: B,
    start: T,
    path: Seq<int>,
    i: int,
)
    requires
        turns_chosen(black, white, start, path),
        turn_chose(black, white, follow(start, path), moves_at(follow(start, path))[i]),
    ensures
        turns_chosen(black, white, start, path.push(i)),
{
    let next = path.push(i);
    assert forall|k: int| 0 <= k < next.len() implies #[trigger] turn_chose(
        black,
        white,
        follow(start, next.take(k)),
        moves_at(follow(start, next.take(k)))[next[k]],
    ) by {
        if k < path.len() {
            assert(next.take(k) =~= path.take(k));
            assert(turn_chose(
                black,
                white,
                follow(start, path.take(k)),
                moves_at(follow(start, path.take(k)))[path[k]],
            ));
        } else {
            assert(next.take(k) =~= path);
        }
    }
}

/// Runs a game from start to end between two agents.
pub trait GameRunner<T: GameState> {
    /// Plays a game from its initial state to its end, each player's agent
    /// picking in turn; returns the result, or `None` if an agent picked a
    /// move that is not legal. Agents that pick only legal moves always see
    /// the game to its end.
    ///
    /// The game follows a playout from the initial state in which every move
    /// is the one the agent whose turn it was picked. It ends over with its
    /// result, or, with `None`, where the agent to move picked a move that is
    /// not among the legal ones.
    fn play_to_end<A: GameAgent<T>, B: GameAgent<T>>(black_agent: &A, white_agent: &B) -> (r: Option<GameResult>)
        ensures
            r matches Some(res) ==> plays_out(T::spec_initial(), res),
            exists|path: Seq<int>|
                #[trigger] is_playout(T::spec_initial(), path) && turns_chosen(
                    *black_agent,
                    *white_agent,
                    T::spec_initial(),
                    path,
                ) && match r {
                    Some(res) => follow(T::spec_initial(), path).spec_game_over() && follow(
                        T::spec_initial(),
                        path,
                    ).spec_game_result() == Some(res),
                    None => !follow(T::spec_initial(), path).spec_game_over() && exists|m: T::Move|
                        #[trigger] turn_chose(*black_agent, *white_agent, follow(T::spec_initial(), path), m)
                            && !moves_at(follow(T::spec_initial(), path)).contains(m),
                },
            black_agent.picks_legal() && white_agent.picks_legal() ==> r is Some,
    ;
}

/// A general-purpose game runner, probably all you need to run most games.
pub struct GeneralGameRunner;

/// The current player's agent picks a move among the legal ones: that
/// move, or `None` if it is not legal.
fn player_take_turn<S: GameState, A: GameAgent<S>>(game_state: &S, agent: &A) -> (r: Option<S::Move>)
    requires
        game_state.wf(),
        !game_state.spec_game_over(),
    ensures
        exists|m: S::Move|
            #[trigger] agent.chose(*game_state, moves_at(*game_state), m) && r == if moves_at(*game_state).contains(
                m,
            ) {
                Some(m)
            } else {
                None
            },
        agent.picks_legal() ==> r is Some,
{
    let player_color = game_state.current_player_turn();
    let legal_moves = game_state.legal_moves(player_color);
    proof {
        game_state.lemma_playable();
    }
    let selected_action = agent.pick_move(game_state, legal_moves.as_slice());
    assert(agent.chose(*game_state, moves_at(*game_state), selected_action));
    if !is_legal(&legal_moves, selected_action) {
        // Agent provided a move that is illegal.
        return None;
    }
    Some(selected_action)
}

impl<T: GameState> GameRunner<T> for GeneralGameRunner {
    fn play_to_end<A: GameAgent<T>, B: GameAgent<T>>(black_agent: &A, white_agent: &B) -> (r: Option<GameResult>) {
        let mut game_state = T::initial_state();
        proof {
            T::lemma_initial_wf();
        }
        let ghost start = game_state;
        let ghost mut path: Seq<int> = Seq::empty();
        proof {
            assert(turns_chosen(*black_agent, *white_agent, start, path));
        }
        while !game_state.is_game_over()
            invariant
                start == T::spec_initial(),
                game_state.wf(),
                is_playout(start, path),
                game_state == follow(start, path),
                turns_chosen(*black_agent, *white_agent, start, path),
            decreases game_state.spec_remaining(),
        {
            let cur_player_color = game_state.current_player_turn();
            let selected = match cur_player_color {
                PlayerColor::Black => player_take_turn(&game_state, black_agent),
                PlayerColor::White => player_take_turn(&game_state, white_agent),
            };
            let ghost before = game_state;
            let selected_action = match selected {
                Some(a) => a,
                None => {
                    proof {
                        let m = choose|m: T::Move|
                            match cur_player_color {
                                PlayerColor::Black => black_agent.chose(before, moves_at(before), m),
                                PlayerColor::White => white_agent.chose(before, moves_at(before), m),
                            } && !moves_at(before).contains(m);
                        assert(turn_chose(*black_agent, *white_agent, before, m));
                        assert(is_playout(start, path));
                    }
                    return None;
                },
            };
            let ghost i = choose|i: int| 0 <= i < moves_at(before).len() && moves_at(before)[i] == selected_action;
            proof {
                before.lemma_playable();
                assert(before.spec_can_apply(moves_at(before)[i]));
                before.lemma_apply_wf(selected_action);
                assert(turn_chose(*black_agent, *white_agent, before, moves_at(before)[i]));
                lemma_turns_chosen_push(*black_agent, *white_agent, start, path, i);
            }
            game_state.apply_move(selected_action);
            proof {
                let next = path.push(i);
                assert(next.drop_last() =~= path);
                path = next;
            }
            black_agent.observe_action(cur_player_color, selected_action, &game_state);
            white_agent.observe_action(cur_player_color, selected_action, &game_state);
        }
        proof {
            game_state.lemma_result_iff_over();
            assert(is_playout(start, path));
        }
        let result = game_state.game_result().unwrap();
        Some(result)
    }
}

/// A game being played: its state and the two players' agents.
pub trait Game: Sized {
    type State: GameState;
    type White: GameAgent<Self::State>;
    type Black: GameAgent<Self::State>;

    /// The game's current state.
    spec fn spec_state(&self) -> Self::State;

    /// The result this game declares for the state `s`.
    spec fn result_of(s: Self::State) -> Option<GameResult>;

    /// The agent playing White.
    spec fn spec_white(&self) -> Self::White;

    /// The agent playing Black.
    spec fn spec_black(&self) -> Self::Black;

    /// The agent playing White.
    fn white_agent(&self) -> (r: &Self::White)
        ensures
            *r == self.spec_white(),
    ;

    /// The agent playing Black.
    fn black_agent(&self) -> (r: &Self::Black)
        ensures
            *r == self.spec_black(),
    ;

    /// The game's current state.
    fn game_state(&self) -> (r: &Self::State)
        ensures
            *r == self.spec_state(),
    ;

    /// Replaces the game's current state; the agents stay.
    fn set_game_state(&mut self, state: Self::State)
        ensures
            final(self).spec_state() == state,
            final(self).spec_white() == old(self).spec_white(),
            final(self).spec_black() == old(self).spec_black(),
    ;

    /// True if the the game has ended, either due to a forced win,
    /// draw, or forfeit.
    fn is_game_over(&self) -> (r: bool)
        requires
            self.spec_state().wf(),
        ensures
            r == self.spec_state().spec_game_over(),
    ;

    /// The GameResult, or None if the game is not yet over.
    fn game_result(&self) -> (r: Option<GameResult>)
        requires
            self.spec_state().wf(),
        ensures
            r == Self::result_of(self.spec_state()),
    ;

    /// A finished game has a result.
    proof fn lemma_result_when_over(s: Self::State)
        requires
            s.wf(),
            s.spec_game_over(),
        ensures
            Self::result_of(s) is Some,
    ;

    /// Invokes the current player's agent to pick a move, then updates the
    /// game state with it; both agents then observe it. Returns `false`,
    /// changing nothing, if the agent picked a move that is not legal, which
    /// an agent that picks only legal moves never does.
    fn player_take_turn(&mut self, player: PlayerColor) -> (r: bool)
        requires
            old(self).spec_state().wf(),
            !old(self).spec_state().spec_game_over(),
            player == old(self).spec_state().spec_turn(),
        ensures
            exists|m: <Self::State as GameState>::Move|
                #[trigger] turn_chose(old(self).spec_black(), old(self).spec_white(), old(self).spec_state(), m) && r == moves_at(
                    old(self).spec_state(),
                ).contains(m) && final(self).spec_state() == if r {
                    old(self).spec_state().spec_apply(m)
                } else {
                    old(self).spec_state()
                },
            final(self).spec_white() == old(self).spec_white(),
            final(self).spec_black() == old(self).spec_black(),
            (match player {
                PlayerColor::Black => old(self).spec_black().picks_legal(),
                PlayerColor::White => old(self).spec_white().picks_legal(),
            }) ==> r,
    {
        let state = self.game_state().clone_state();
        let legal_moves = state.legal_moves(player);
        proof {
            state.lemma_playable();
        }
        let picked_action = match player {
            PlayerColor::Black => self.black_agent().pick_move(&state, legal_moves.as_slice()),
            PlayerColor::White => self.white_agent().pick_move(&state, legal_moves.as_slice()),
        };
        assert(turn_chose(self.spec_black(), self.spec_white(), state, picked_action));
        if !is_legal(&legal_moves, picked_action) {
            // The agent provided a move that is illegal.
            return false;
        }
        let ghost i = choose|i: int| 0 <= i < legal_moves@.len() && legal_moves@[i] == picked_action;
        let mut next = state;
        proof {
            assert(state.spec_can_apply(moves_at(state)[i]));
        }
        next.apply_move(picked_action);
        self.set_game_state(next.clone_state());
        // Now both players get a chance to observe the selected action and resulting state.
        self.white_agent().observe_action(player, picked_action, &next);
        self.black_agent().observe_action(player, picked_action, &next);
        true
    }

    /// Sets up the board, then lets each player take its turn until the
    /// game is over, and returns the game result; `None` if an agent picked
    /// a move that is not legal, the game then staying where it was. The
    /// game ends in a state reached by legal moves from the initial one;
    /// agents that pick only legal moves always see it to its end.
    fn play_to_end(&mut self) -> (r: Option<GameResult>)
        ensures
            exists|path: Seq<int>|
                #[trigger] is_playout(<Self::State as GameState>::spec_initial(), path) && turns_chosen(
                    old(self).spec_black(),
                    old(self).spec_white(),
                    <Self::State as GameState>::spec_initial(),
                    path,
                ) && final(self).spec_state() == follow(<Self::State as GameState>::spec_initial(), path) && match r {
                    Some(res) => final(self).spec_state().spec_game_over() && Self::result_of(
                        final(self).spec_state(),
                    ) == Some(res),
                    None => !final(self).spec_state().spec_game_over() && exists|m: <Self::State as GameState>::Move|
                        #[trigger] turn_chose(old(self).spec_black(), old(self).spec_white(), final(self).spec_state(), m) && !moves_at(
                            final(self).spec_state(),
                        ).contains(m),
                },
            final(self).spec_white() == old(self).spec_white(),
            final(self).spec_black() == old(self).spec_black(),
            old(self).spec_white().picks_legal() && old(self).spec_black().picks_legal() ==> r is Some,
    {
        let mut state = self.game_state().clone_state();
        state.initialize_board();
        self.set_game_state(state);
        proof {
            <Self::State as GameState>::lemma_initial_wf();
        }
        let ghost start = self.spec_state();
        let ghost mut path: Seq<int> = Seq::empty();
        proof {
            assert(is_playout(start, path));
            assert(turns_chosen(old(self).spec_black(), old(self).spec_white(), start, path));
        }
        while !self.is_game_over()
            invariant
                start == <Self::State as GameState>::spec_initial(),
                self.spec_state().wf(),
                is_playout(start, path),
                self.spec_state() == follow(start, path),
                self.spec_white() == old(self).spec_white(),
                self.spec_black() == old(self).spec_black(),
                turns_chosen(old(self).spec_black(), old(self).spec_white(), start, path),
            decreases self.spec_state().spec_remaining(),
        {
            let cur_player_color = self.game_state().current_player_turn();
            let ghost before = self.spec_state();
            let ghost g0 = *self;
            if !self.player_take_turn(cur_player_color) {
                proof {
                    assert(is_playout(start, path));
                    let m = choose|m: <Self::State as GameState>::Move|
                        #[trigger] turn_chose(g0.spec_black(), g0.spec_white(), before, m) && false == moves_at(before).contains(m)
                            && self.spec_state() == before;
                    assert(turn_chose(old(self).spec_black(), old(self).spec_white(), self.spec_state(), m));
                }
                return None;
            }
            proof {
                let m = choose|m: <Self::State as GameState>::Move|
                    #[trigger] turn_chose(g0.spec_black(), g0.spec_white(), before, m) && true == moves_at(before).contains(m)
                        && self.spec_state() == before.spec_apply(m);
                let i = choose|i: int| 0 <= i < moves_at(before).len() && moves_at(before)[i] == m;
                assert(turn_chose(old(self).spec_black(), old(self).spec_white(), before, moves_at(before)[i]));
                lemma_turns_chosen_push(old(self).spec_black(), old(self).spec_white(), start, path, i);
                before.lemma_playable();
                assert(before.spec_can_apply(moves_at(before)[i]));
                before.lemma_apply_wf(moves_at(before)[i]);
                let next = path.push(i);
                assert(next.drop_last() =~= path);
                path = next;
            }
        }
        proof {
            Self::lemma_result_when_over(self.spec_state());
            assert(is_playout(start, path));
        }
        let result = self.game_result().unwrap();
        Some(result)
    }
}

} // verus!
