use vstd::prelude::*;
use crate::game::{GameState, PlayerColor};
use crate::nboard::{
    ggf_history, history_readable, is_readable_move, move_of_text, moves_readable_from, nboard_action_to_reversi_action,
    nboard_text, nboard_writable, parse_game_history, readable_move, MsgFromGui, NBoardAction,
};
use crate::reversi::{ReversiPlayerAction, ReversiState};
use crate::text::{decimal, push_decimal, push_str};

verus! {

/// What an NBoard engine keeps between the GUI's messages: the game it
/// follows, and how many moves of the GUI's game record it has applied.
pub struct Engine {
    pub state: ReversiState,
    pub move_count: usize,
}

/// What the engine asks of the program around it after a message.
pub enum EngineAction {
    /// Send this line to the GUI.
    Send(String),
    /// These moves were applied, in order: each with the player who made it
    /// and the state it led to, for the agents to observe.
    Applied(Vec<(PlayerColor, ReversiPlayerAction, ReversiState)>),
    /// The agent playing this color is to pick a move in the current state.
    Pick(PlayerColor),
    /// Nothing to do.
    Wait,
}

/// The state reached from `st` by the moves `moves`, in order.
pub open spec fn after_moves(st: ReversiState, moves: Seq<ReversiPlayerAction>) -> ReversiState
    decreases moves.len(),
{
    if moves.len() == 0 {
        st
    } else {
        after_moves(st, moves.drop_last()).spec_apply(moves.last())
    }
}

/// Every move of `moves` can be made in turn from `st`: it passes, or it
/// places a piece on an empty cell of the board.
pub open spec fn moves_apply(st: ReversiState, moves: Seq<ReversiPlayerAction>) -> bool
    decreases moves.len(),
{
    if moves.len() == 0 {
        true
    } else {
        moves_apply(st, moves.drop_last()) && after_moves(st, moves.drop_last()).spec_can_apply(moves.last())
    }
}

/// For each of `moves`, made in turn from `st`: the player whose turn it
/// was, the move, and the state it led to.
pub open spec fn move_records(st: ReversiState, moves: Seq<ReversiPlayerAction>) -> Seq<
    (PlayerColor, ReversiPlayerAction, ReversiState),
> {
    Seq::new(
        moves.len(),
        |k: int| (after_moves(st, moves.take(k)).spec_turn(), moves[k], after_moves(st, moves.take(k + 1))),
    )
}

/// The moves of the GUI's game record `g` that the engine `e` has not yet
/// applied.
pub open spec fn new_moves(e: Engine, g: Seq<char>) -> Seq<ReversiPlayerAction> {
    ggf_history(g).skip(e.move_count as int)
}

/// The engine can take the message `m`: a move it reads and can make
/// (and can count), or a game record it reads that goes on from the moves
/// it has applied with moves it can make; any other message.
pub open spec fn accepts(e: Engine, m: MsgFromGui) -> bool {
    match m {
        MsgFromGui::Move(t) => readable_move(t@) && e.state.spec_can_apply(move_of_text(t@)) && e.move_count
            < usize::MAX,
        MsgFromGui::SetGame(g) => moves_readable_from(g@, 0) && e.move_count <= ggf_history(g@).len()
            && moves_apply(e.state, new_moves(e, g@)),
        _ => true,
    }
}

/// What the engine `e` becomes, and asks for, on the message `m`: a ping is
/// answered "pong" and its number; a move is made and counted; the moves of
/// a game record past those already applied are made, and the count
/// becomes the record's length; "go" asks the agent whose turn it is for a
/// move; anything else changes nothing.
pub open spec fn engine_step(e: Engine, m: MsgFromGui, next: Engine, action: EngineAction) -> bool {
    match m {
        MsgFromGui::Ping(n) => {
            &&& next == e
            &&& action matches EngineAction::Send(line) && line@ == "pong "@ + decimal(n as nat)
        },
        MsgFromGui::Move(t) => {
            let mv = move_of_text(t@);
            let st = e.state.spec_apply(mv);
            &&& next == Engine { state: st, move_count: (e.move_count + 1) as usize }
            &&& action matches EngineAction::Applied(records) && records@ == seq![(e.state.spec_turn(), mv, st)]
        },
        MsgFromGui::SetGame(g) => {
            let moves = new_moves(e, g@);
            &&& next == Engine {
                state: after_moves(e.state, moves),
                move_count: ggf_history(g@).len() as usize,
            }
            &&& action matches EngineAction::Applied(records) && records@ == move_records(e.state, moves)
        },
        MsgFromGui::Go => next == e && action == EngineAction::Pick(e.state.spec_turn()),
        _ => next == e && action == EngineAction::Wait,
    }
}

impl Engine {
    /// An engine at the start of a game, having applied no move.
    pub fn new() -> (r: Engine)
        ensures
            r.state == ReversiState::spec_initial(),
            r.move_count == 0,
    {
        Engine { state: ReversiState::initial_state(), move_count: 0 }
    }

    /// True if the engine can take the message `m`.
    pub fn accepts(&self, m: &MsgFromGui) -> (r: bool)
        ensures
            r == accepts(*self, *m),
    {
        match m {
            MsgFromGui::Move(t) => {
                let action = NBoardAction(t.clone());
                if !is_readable_move(&action) {
                    return false;
                }
                let mv = nboard_action_to_reversi_action(&action);
                can_apply(&self.state, mv) && self.move_count < usize::MAX
            },
            MsgFromGui::SetGame(g) => {
                if !history_readable(g.as_str()) {
                    return false;
                }
                let history = parse_game_history(g.as_str());
                if self.move_count > history.len() {
                    return false;
                }
                let mut st = self.state.clone_state();
                let mut k = self.move_count;
                let ghost moves = new_moves(*self, g@);
                while k < history.len()
                    invariant
                        *m == MsgFromGui::SetGame(*g),
                        moves_readable_from(g@, 0),
                        self.move_count <= k <= history.len(),
                        history@ == ggf_history(g@),
                        moves == history@.skip(self.move_count as int),
                        moves_apply(self.state, moves.take(k - self.move_count)),
                        st == after_moves(self.state, moves.take(k - self.move_count)),
                    decreases history.len() - k,
                {
                    let ghost i = k - self.move_count;
                    proof {
                        assert(moves.take(i + 1).drop_last() =~= moves.take(i));
                        assert(moves[i] == history@[k as int]);
                    }
                    if !can_apply(&st, history[k]) {
                        proof {
                            lemma_moves_apply_prefix(self.state, moves, i);
                        }
                        return false;
                    }
                    GameState::apply_move(&mut st, history[k]);
                    k = k + 1;
                }
                proof {
                    assert(moves.take(moves.len() as int) =~= moves);
                }
                true
            },
            _ => true,
        }
    }

    /// Takes the message `m` from the GUI: updates the engine and says what
    /// the program around it is to do.
    pub fn on_message(&mut self, m: MsgFromGui) -> (r: EngineAction)
        requires
            accepts(*old(self), m),
        ensures
            engine_step(*old(self), m, *final(self), r),
    {
        match m {
            MsgFromGui::Ping(n) => {
                let mut line = String::new();
                push_str(&mut line, "pong ");
                proof {
                    assert(line@ =~= "pong "@);
                }
                push_decimal(&mut line, n as u64);
                EngineAction::Send(line)
            },
            MsgFromGui::Move(t) => {
                let mv = nboard_action_to_reversi_action(&NBoardAction(t));
                let player = self.state.current_player_turn();
                GameState::apply_move(&mut self.state, mv);
                self.move_count = self.move_count + 1;
                let mut records: Vec<(PlayerColor, ReversiPlayerAction, ReversiState)> = Vec::new();
                records.push((player, mv, self.state.clone_state()));
                proof {
                    assert(records@ =~= seq![(old(self).state.spec_turn(), mv, self.state)]);
                }
                EngineAction::Applied(records)
            },
            MsgFromGui::SetGame(g) => {
                let history = parse_game_history(g.as_str());
                let ghost moves = new_moves(*old(self), g@);
                let ghost start = old(self).state;
                let first = self.move_count;
                let mut k = first;
                let mut records: Vec<(PlayerColor, ReversiPlayerAction, ReversiState)> = Vec::new();
                while k < history.len()
                    invariant
                        first <= k <= history.len(),
                        first == old(self).move_count,
                        history@ == ggf_history(g@),
                        moves == history@.skip(first as int),
                        moves_apply(start, moves),
                        self.state == after_moves(start, moves.take(k - first)),
                        records@ == move_records(start, moves).take(k - first),
                    decreases history.len() - k,
                {
                    let ghost i = k - first;
                    proof {
                        assert(moves.take(i + 1).drop_last() =~= moves.take(i));
                        assert(moves[i] == history@[k as int]);
                        lemma_moves_apply_prefix(start, moves, i + 1);
                    }
                    let mv = history[k];
                    let player = self.state.current_player_turn();
                    GameState::apply_move(&mut self.state, mv);
                    records.push((player, mv, self.state.clone_state()));
                    proof {
                        assert(records@ =~= move_records(start, moves).take(i + 1));
                    }
                    k = k + 1;
                }
                self.move_count = history.len();
                proof {
                    assert(moves.take(moves.len() as int) =~= moves);
                    assert(records@ =~= move_records(start, moves));
                }
                EngineAction::Applied(records)
            },
            MsgFromGui::Go => EngineAction::Pick(self.state.current_player_turn()),
            _ => EngineAction::Wait,
        }
    }
}

/// The moves of `moves` up to `n` can be made in turn wherever all of them
/// can.
pub proof fn lemma_moves_apply_prefix(st: ReversiState, moves: Seq<ReversiPlayerAction>, n: int)
    requires
        0 <= n <= moves.len(),
    ensures
        moves_apply(st, moves) ==> moves_apply(st, moves.take(n)),
        moves_apply(st, moves.take(n)) && n < moves.len() && !after_moves(st, moves.take(n)).spec_can_apply(moves[n])
            ==> !moves_apply(st, moves),
    decreases moves.len() - n,
{
    if n < moves.len() {
        lemma_moves_apply_prefix(st, moves, n + 1);
        assert(moves.take(n + 1).drop_last() =~= moves.take(n));
    } else {
        assert(moves.take(n) =~= moves);
    }
}

/// True if `action` can be made in the state `st`: a pass, or a piece on an
/// empty cell of the board.
fn can_apply(st: &ReversiState, action: ReversiPlayerAction) -> (r: bool)
    ensures
        r == st.spec_can_apply(action),
{
    match action {
        ReversiPlayerAction::PassTurn => true,
        ReversiPlayerAction::Move { position } => position.col < crate::reversi::BOARD_SIZE && position.row
            < crate::reversi::BOARD_SIZE && st.get_piece(position).is_none(),
    }
}

/// The line that answers "go" with the move `action`: "=== " and the
/// move in NBoard's notation.
pub fn move_reply(action: ReversiPlayerAction) -> (r: String)
    requires
        nboard_writable(action),
    ensures
        r@ == "=== "@ + nboard_text(action),
{
    let nboard_action = NBoardAction::from_reversi_action(action);
    let mut line = String::new();
    push_str(&mut line, "=== ");
    proof {
        assert(line@ =~= "=== "@);
    }
    push_str(&mut line, nboard_action.0.as_str());
    line
}

} // verus!
