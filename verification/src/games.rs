use vstd::prelude::*;
use crate::game::{GameResult, GameState, PlayerColor};
use crate::reversi::ReversiState;
use crate::runner::{Game, GameAgent};
use crate::tic_tac_toe::{fills_line, TicTacToePiece, TicTacToeState};

verus! {

/// A game of tic-tac-toe between two agents.
pub struct TicTacToe<W: GameAgent<TicTacToeState>, B: GameAgent<TicTacToeState>> {
    white_agent: W,
    black_agent: B,
    game_state: TicTacToeState,
}

impl<W: GameAgent<TicTacToeState>, B: GameAgent<TicTacToeState>> TicTacToe<W, B> {
    /// A game between the two agents, from the initial state.
    pub fn new(white_agent: W, black_agent: B) -> (r: Self)
        ensures
            r.spec_state() == TicTacToeState::spec_initial(),
            r.spec_white() == white_agent,
            r.spec_black() == black_agent,
    {
        Self { white_agent, black_agent, game_state: TicTacToeState::initial_state() }
    }
}

/// The result of a tic-tac-toe game: whoever filled a line wins, a game
/// over without one is a tie, and there is none while the game goes on.
pub open spec fn tic_tac_toe_result(s: TicTacToeState) -> Option<GameResult> {
    if !s.spec_game_over() {
        None
    } else {
        match s.spec_winner() {
            Some(PlayerColor::Black) => Some(GameResult::BlackWins),
            Some(PlayerColor::White) => Some(GameResult::WhiteWins),
            None => Some(GameResult::Tie),
        }
    }
}

/// The result of a tic-tac-toe game is decided by its lines: none while the
/// game goes on; once it is over, Black (X) wins only if X fills a row,
/// column or diagonal, White (O) only if O does, and a game in which no
/// line is filled by one piece is a tie, whatever the count of pieces.
pub proof fn lemma_tic_tac_toe_result_by_lines(s: TicTacToeState)
    ensures
        !s.spec_game_over() ==> tic_tac_toe_result(s) is None,
        s.spec_game_over() ==> tic_tac_toe_result(s) is Some,
        s.spec_game_over() && !fills_line(s, TicTacToePiece::X) && !fills_line(s, TicTacToePiece::O)
            ==> tic_tac_toe_result(s) == Some(GameResult::Tie),
        tic_tac_toe_result(s) == Some(GameResult::BlackWins) ==> fills_line(s, TicTacToePiece::X),
        tic_tac_toe_result(s) == Some(GameResult::WhiteWins) ==> fills_line(s, TicTacToePiece::O),
        tic_tac_toe_result(s) == Some(GameResult::Tie) ==> !fills_line(s, TicTacToePiece::X) && !fills_line(
            s,
            TicTacToePiece::O,
        ),
{
}

impl<W: GameAgent<TicTacToeState>, B: GameAgent<TicTacToeState>> Game for TicTacToe<W, B> {
    type State = TicTacToeState;

    type White = W;

    type Black = B;

    open spec fn spec_state(&self) -> TicTacToeState {
        self.state_view()
    }

    open spec fn result_of(s: TicTacToeState) -> Option<GameResult> {
        tic_tac_toe_result(s)
    }

    open spec fn spec_white(&self) -> W {
        self.white_view()
    }

    open spec fn spec_black(&self) -> B {
        self.black_view()
    }

    fn white_agent(&self) -> (r: &W) {
        &self.white_agent
    }

    fn black_agent(&self) -> (r: &B) {
        &self.black_agent
    }

    fn game_state(&self) -> (r: &TicTacToeState) {
        &self.game_state
    }

    fn set_game_state(&mut self, state: TicTacToeState) {
        self.game_state = state;
    }

    fn is_game_over(&self) -> (r: bool) {
        self.game_state.is_game_over()
    }

    /// The result by the lines of the board: a win only for the piece that
    /// fills a line, a tie where none is filled.
    fn game_result(&self) -> (r: Option<GameResult>)
        ensures
            r == Some(GameResult::BlackWins) ==> fills_line(self.spec_state(), TicTacToePiece::X),
            r == Some(GameResult::WhiteWins) ==> fills_line(self.spec_state(), TicTacToePiece::O),
            self.spec_state().spec_game_over() && !fills_line(self.spec_state(), TicTacToePiece::X) && !fills_line(
                self.spec_state(),
                TicTacToePiece::O,
            ) ==> r == Some(GameResult::Tie),
    {
        proof {
            lemma_tic_tac_toe_result_by_lines(self.spec_state());
        }
        self.game_state.game_result_by_winner()
    }

    proof fn lemma_result_when_over(s: TicTacToeState) {
    }
}

impl<W: GameAgent<TicTacToeState>, B: GameAgent<TicTacToeState>> TicTacToe<W, B> {
    /// The game's current state.
    pub closed spec fn state_view(&self) -> TicTacToeState {
        self.game_state
    }

    /// The agent playing White.
    pub closed spec fn white_view(&self) -> W {
        self.white_agent
    }

    /// The agent playing Black.
    pub closed spec fn black_view(&self) -> B {
        self.black_agent
    }
}

/// A game of Reversi between two agents.
pub struct Reversi<W: GameAgent<ReversiState>, B: GameAgent<ReversiState>> {
    white_agent: W,
    black_agent: B,
    game_state: ReversiState,
}

impl<W: GameAgent<ReversiState>, B: GameAgent<ReversiState>> Reversi<W, B> {
    /// A game between the two agents, on an empty board: the pieces are
    /// set up when the game is played.
    pub fn new(white_agent: W, black_agent: B) -> (r: Self)
        ensures
            r.spec_state().cells() == Seq::new(64, |i: int| None::<crate::reversi::ReversiPiece>),
            r.spec_state().turn() == PlayerColor::Black,
            r.spec_white() == white_agent,
            r.spec_black() == black_agent,
    {
        Reversi { white_agent, black_agent, game_state: ReversiState::new() }
    }

    /// The game's current state.
    pub closed spec fn state_view(&self) -> ReversiState {
        self.game_state
    }

    /// The agent playing White.
    pub closed spec fn white_view(&self) -> W {
        self.white_agent
    }

    /// The agent playing Black.
    pub closed spec fn black_view(&self) -> B {
        self.black_agent
    }
}

impl<W: GameAgent<ReversiState>, B: GameAgent<ReversiState>> Game for Reversi<W, B> {
    type State = ReversiState;

    type White = W;

    type Black = B;

    open spec fn spec_state(&self) -> ReversiState {
        self.state_view()
    }

    open spec fn result_of(s: ReversiState) -> Option<GameResult> {
        s.spec_game_result()
    }

    open spec fn spec_white(&self) -> W {
        self.white_view()
    }

    open spec fn spec_black(&self) -> B {
        self.black_view()
    }

    fn white_agent(&self) -> (r: &W) {
        &self.white_agent
    }

    fn black_agent(&self) -> (r: &B) {
        &self.black_agent
    }

    fn game_state(&self) -> (r: &ReversiState) {
        &self.game_state
    }

    fn set_game_state(&mut self, state: ReversiState) {
        self.game_state = state;
    }

    fn is_game_over(&self) -> (r: bool) {
        self.game_state.is_game_over()
    }

    fn game_result(&self) -> (r: Option<GameResult>) {
        self.game_state.game_result()
    }

    proof fn lemma_result_when_over(s: ReversiState) {
        s.lemma_result_iff_over();
    }
}

} // verus!
